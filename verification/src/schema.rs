//! Typed Terraform provider schema: the shape that
//! `terraform providers schema -json` emits.
//!
//! Maps keep the order in which the JSON lists their entries (`IndexMap`);
//! the emitter reads them through the entry functions below.

use indexmap::IndexMap;
use vstd::prelude::*;

use crate::sexpr::{forms_of, lemma_list_form, Form, SExpr};

verus! {

/// `indexmap::IndexMap`, the insertion-ordered map of the schema, carried
/// through opaque and read through the entry functions below.
#[verifier::external_type_specification]
#[verifier::external_body]
#[verifier::reject_recursive_types(K)]
#[verifier::reject_recursive_types(V)]
#[verifier::reject_recursive_types(S)]
pub struct ExIndexMap<K, V, S>(IndexMap<K, V, S>);

/// `IndexMap`'s `Clone`, which clones the entries and the hasher. Nothing
/// is stated of the copy: what a clone of the entries holds depends on the
/// entry types' own `Clone`.
pub assume_specification<K, V, S>[<IndexMap<K, V, S> as Clone>::clone](m: &IndexMap<K, V, S>) -> IndexMap<K, V, S>
    where
        K: Clone,
        V: Clone,
        S: Clone,
;

/// Top-level shape of `terraform providers schema -json`.
#[derive(Debug, Clone)]
pub struct ProviderSchemasFile {
    pub format_version: String,
    pub provider_schemas: IndexMap<String, ProviderSchema>,
}

/// The schema of one provider.
#[derive(Debug, Clone)]
pub struct ProviderSchema {
    pub provider: Block,
    pub resource_schemas: IndexMap<String, Block>,
    pub data_source_schemas: IndexMap<String, Block>,
}

/// A configuration block: its attributes and its nested block types
/// (`block_types` in the JSON).
#[derive(Debug, Clone)]
pub struct Block {
    pub version: u64,
    pub description: Option<String>,
    pub attributes: IndexMap<String, Attribute>,
    pub nested_blocks: NestedBlocks,
}

/// The nested block types of a [`Block`], by name, in their JSON order.
///
/// A block type holds a block in turn, so the map is kept behind this
/// struct, which the verifier sees as opaque; it is read through
/// [`nested_block_entries`] and [`nested_block_at`].
#[derive(Debug)]
#[verifier::external_body]
pub struct NestedBlocks(pub IndexMap<String, NestedBlock>);

/// One attribute of a block.
#[derive(Debug, Clone)]
pub struct Attribute {
    /// The attribute's type: a bare primitive name or a nested list shape.
    pub type_: AttributeType,
    pub description: Option<String>,
    pub required: bool,
    pub optional: bool,
    pub computed: bool,
    pub sensitive: bool,
}

/// Terraform attribute type: a primitive name (`"string"`, `"number"`,
/// `"bool"`) or a collection shape such as `["list", "string"]`, whose first
/// element names the constructor and whose rest are its arguments.
#[derive(Debug, Clone)]
pub enum AttributeType {
    Primitive(String),
    Complex(Vec<JsonValue>),
}

/// A JSON number, as the two readings that the emitter uses: its value
/// when it is an integer that fits in `i64`, and its JSON text.
#[derive(Debug, Clone, PartialEq)]
pub struct JsonNumber {
    pub as_i64: Option<i64>,
    pub text: String,
}

/// A JSON value. Object members are in the order that the parsed JSON map
/// iterates them.
#[derive(Debug)]
pub enum JsonValue {
    Null,
    Bool(bool),
    Number(JsonNumber),
    String(String),
    Array(Vec<JsonValue>),
    Object(Vec<(String, JsonValue)>),
}

/// The mathematical value of a [`JsonValue`].
pub enum JsonView {
    Null,
    Bool(bool),
    Number(Option<int>, Seq<char>),
    String(Seq<char>),
    Array(Seq<JsonView>),
    Object(Seq<(Seq<char>, JsonView)>),
}

/// The value that a [`JsonValue`] holds, with sequences for its vectors.
pub open spec fn json_view(v: JsonValue) -> JsonView
    decreases v,
{
    match v {
        JsonValue::Null => JsonView::Null,
        JsonValue::Bool(b) => JsonView::Bool(b),
        JsonValue::Number(n) => JsonView::Number(
            match n.as_i64 {
                Some(i) => Some(i as int),
                None => None,
            },
            n.text@,
        ),
        JsonValue::String(s) => JsonView::String(s@),
        JsonValue::Array(arr) => JsonView::Array(
            Seq::new(
                arr@.len(),
                |i: int|
                    if 0 <= i < arr@.len() {
                        json_view(arr@[i])
                    } else {
                        JsonView::Null
                    },
            ),
        ),
        JsonValue::Object(obj) => JsonView::Object(
            Seq::new(
                obj@.len(),
                |i: int|
                    if 0 <= i < obj@.len() {
                        (obj@[i].0@, json_view(obj@[i].1))
                    } else {
                        (Seq::<char>::empty(), JsonView::Null)
                    },
            ),
        ),
    }
}

impl Clone for JsonValue {
    /// A copy of the value.
    fn clone(&self) -> (c: JsonValue)
        ensures
            json_view(c) == json_view(*self),
        decreases self,
    {
        match self {
            JsonValue::Null => JsonValue::Null,
            JsonValue::Bool(b) => JsonValue::Bool(*b),
            JsonValue::Number(n) => JsonValue::Number(
                JsonNumber { as_i64: n.as_i64, text: n.text.clone() },
            ),
            JsonValue::String(s) => JsonValue::String(s.clone()),
            JsonValue::Array(arr) => {
                let mut out: Vec<JsonValue> = Vec::new();
                let mut i: usize = 0;
                while i < arr.len()
                    invariant
                        i <= arr@.len(),
                        *self == JsonValue::Array(*arr),
                        out@.len() == i,
                        forall|j: int| 0 <= j < i ==> json_view(#[trigger] out@[j]) == json_view(arr@[j]),
                    decreases arr@.len() - i,
                {
                    proof {
                        assert(decreases_to!(*self => (*self)->Array_0));
                    }
                    out.push(arr[i].clone());
                    i = i + 1;
                }
                let c = JsonValue::Array(out);
                proof {
                    let a = json_view(c);
                    let b = json_view(*self);
                    assert(a->Array_0 =~= b->Array_0);
                }
                c
            },
            JsonValue::Object(obj) => {
                let mut out: Vec<(String, JsonValue)> = Vec::new();
                let mut i: usize = 0;
                while i < obj.len()
                    invariant
                        i <= obj@.len(),
                        *self == JsonValue::Object(*obj),
                        out@.len() == i,
                        forall|j: int|
                            0 <= j < i ==> (#[trigger] out@[j]).0@ == obj@[j].0@ && json_view(out@[j].1)
                                == json_view(obj@[j].1),
                    decreases obj@.len() - i,
                {
                    let (k, val) = &obj[i];
                    proof {
                        assert(decreases_to!(*self => (*self)->Object_0));
                    }
                    out.push((k.clone(), val.clone()));
                    i = i + 1;
                }
                let c = JsonValue::Object(out);
                proof {
                    let a = json_view(c);
                    let b = json_view(*self);
                    assert(a->Object_0 =~= b->Object_0);
                }
                c
            },
        }
    }
}

/// A nested block type of a [`Block`].
#[derive(Debug, Clone)]
pub struct NestedBlock {
    pub nesting: NestingMode,
    pub block: Box<Block>,
    pub min_items: u32,
    pub max_items: Option<u32>,
}

/// How a nested block type repeats (`single`, `group`, `list`, `set`,
/// `map` in the JSON).
#[derive(Debug, Clone, Copy, PartialEq, Eq)]
pub enum NestingMode {
    Single,
    Group,
    List,
    SetOf,
    MapOf,
}

/// The entries of a provider map, in their order.
pub uninterp spec fn provider_entries(m: IndexMap<String, ProviderSchema>) -> Seq<(String, ProviderSchema)>;

/// The entries of a map of blocks (resource schemas), in their order.
pub uninterp spec fn block_entries(m: IndexMap<String, Block>) -> Seq<(String, Block)>;

/// The entries of an attribute map, in their order.
pub uninterp spec fn attribute_entries(m: IndexMap<String, Attribute>) -> Seq<(String, Attribute)>;

/// The entries of a block's nested block types, in their order.
pub uninterp spec fn nested_block_entries(m: NestedBlocks) -> Seq<(String, NestedBlock)>;

/// Entry `i` of a provider map: `IndexMap::get_index`, which gives the
/// key and value at position `i` when `i` is below the map's length and
/// `None` otherwise. An `IndexMap` holds each key once, so no other entry
/// has the key that comes back.
#[verifier::external_body]
pub(crate) fn provider_at(m: &IndexMap<String, ProviderSchema>, i: usize) -> (r: Option<(&String, &ProviderSchema)>)
    ensures
        r is Some <==> i < provider_entries(*m).len(),
        r matches Some((k, v)) ==> (*k, *v) == provider_entries(*m)[i as int],
        r matches Some((k, v)) ==> forall|j: int|
            0 <= j < provider_entries(*m).len() && j != i ==> (#[trigger] provider_entries(*m)[j]).0@ != k@,
{
    m.get_index(i)
}

/// Entry `i` of a map of blocks: `IndexMap::get_index`, as for
/// [`provider_at`].
#[verifier::external_body]
pub(crate) fn block_at(m: &IndexMap<String, Block>, i: usize) -> (r: Option<(&String, &Block)>)
    ensures
        r is Some <==> i < block_entries(*m).len(),
        r matches Some((k, v)) ==> (*k, *v) == block_entries(*m)[i as int],
        r matches Some((k, v)) ==> forall|j: int|
            0 <= j < block_entries(*m).len() && j != i ==> (#[trigger] block_entries(*m)[j]).0@ != k@,
{
    m.get_index(i)
}

/// Entry `i` of an attribute map: `IndexMap::get_index`, as for
/// [`provider_at`].
#[verifier::external_body]
pub(crate) fn attribute_at(m: &IndexMap<String, Attribute>, i: usize) -> (r: Option<(&String, &Attribute)>)
    ensures
        r is Some <==> i < attribute_entries(*m).len(),
        r matches Some((k, v)) ==> (*k, *v) == attribute_entries(*m)[i as int],
        r matches Some((k, v)) ==> forall|j: int|
            0 <= j < attribute_entries(*m).len() && j != i ==> (#[trigger] attribute_entries(*m)[j]).0@ != k@,
{
    m.get_index(i)
}

/// Entry `i` of a block's nested block types: `IndexMap::get_index` on the
/// map inside [`NestedBlocks`], as for [`provider_at`].
#[verifier::external_body]
pub(crate) fn nested_block_at(m: &NestedBlocks, i: usize) -> (r: Option<(&String, &NestedBlock)>)
    ensures
        r is Some <==> i < nested_block_entries(*m).len(),
        r matches Some((k, v)) ==> (*k, *v) == nested_block_entries(*m)[i as int],
        r matches Some((k, v)) ==> forall|j: int|
            0 <= j < nested_block_entries(*m).len() && j != i ==> (#[trigger] nested_block_entries(*m)[j]).0@ != k@,
{
    m.0.get_index(i)
}

/// An empty attribute map: `IndexMap::new`, which creates a map with no
/// entries.
#[verifier::external_body]
fn empty_attribute_map() -> (m: IndexMap<String, Attribute>)
    ensures
        attribute_entries(m) == Seq::<(String, Attribute)>::empty(),
{
    IndexMap::new()
}

impl Clone for NestedBlocks {
    /// A copy of the map: `IndexMap::clone`, which clones every entry in
    /// order. Nothing is stated of the copy, as the entries' own clones are
    /// not specified.
    #[verifier::external_body]
    fn clone(&self) -> NestedBlocks {
        NestedBlocks(self.0.clone())
    }
}

impl NestedBlocks {
    /// No nested block types: `IndexMap::new` inside [`NestedBlocks`], which
    /// creates a map with no entries.
    #[verifier::external_body]
    pub(crate) fn new() -> (m: NestedBlocks)
        ensures
            nested_block_entries(m) == Seq::<(String, NestedBlock)>::empty(),
    {
        NestedBlocks(IndexMap::new())
    }
}

/// An empty map of blocks: `IndexMap::new`, which creates a map with no
/// entries.
#[verifier::external_body]
fn empty_block_map() -> (m: IndexMap<String, Block>)
    ensures
        block_entries(m) == Seq::<(String, Block)>::empty(),
{
    IndexMap::new()
}

impl Default for ProviderSchema {
    /// A provider schema with a default provider block and no resource or
    /// data source schemas.
    fn default() -> (p: ProviderSchema)
        ensures
            p.provider.version == 0,
            p.provider.description is None,
            attribute_entries(p.provider.attributes) == Seq::<(String, Attribute)>::empty(),
            nested_block_entries(p.provider.nested_blocks) == Seq::<(String, NestedBlock)>::empty(),
            block_entries(p.resource_schemas) == Seq::<(String, Block)>::empty(),
            block_entries(p.data_source_schemas) == Seq::<(String, Block)>::empty(),
    {
        ProviderSchema {
            provider: Block::default(),
            resource_schemas: empty_block_map(),
            data_source_schemas: empty_block_map(),
        }
    }
}

impl Default for Block {
    /// A block of version 0 with no description, attributes or nested block
    /// types.
    fn default() -> (b: Block)
        ensures
            b.version == 0,
            b.description is None,
            attribute_entries(b.attributes) == Seq::<(String, Attribute)>::empty(),
            nested_block_entries(b.nested_blocks) == Seq::<(String, NestedBlock)>::empty(),
    {
        Block {
            version: 0,
            description: None,
            attributes: empty_attribute_map(),
            nested_blocks: NestedBlocks::new(),
        }
    }
}

/// The form that a JSON value becomes inside an attribute type: strings
/// are symbols, integers that fit in `i64` are integers and other numbers
/// their JSON text as a string literal, arrays are lists, objects are lists
/// of alternating `:key value`, and `null` is the symbol `nil`.
pub open spec fn json_form(v: JsonValue) -> Form
    decreases v,
{
    match v {
        JsonValue::String(s) => Form::Sym(s@),
        JsonValue::Bool(b) => Form::Bool(b),
        JsonValue::Number(n) => match n.as_i64 {
            Some(i) => Form::Int(i as int),
            None => Form::Str(n.text@),
        },
        JsonValue::Array(arr) => Form::List(
            Seq::new(
                arr@.len(),
                |i: int|
                    if 0 <= i < arr@.len() {
                        json_form(arr@[i])
                    } else {
                        Form::Bool(false)
                    },
            ),
        ),
        JsonValue::Object(obj) => Form::List(
            Seq::new(
                2 * obj@.len(),
                |i: int|
                    if 0 <= i < 2 * obj@.len() {
                        if i % 2 == 0 {
                            Form::Kw(obj@[i / 2].0@)
                        } else {
                            json_form(obj@[i / 2].1)
                        }
                    } else {
                        Form::Bool(false)
                    },
            ),
        ),
        JsonValue::Null => Form::Sym("nil"@),
    }
}

/// The form of an attribute type: a primitive is a bare symbol, a complex
/// type the list of the forms of its elements (`["list", "string"]` is
/// `(list string)`).
pub open spec fn type_form(t: AttributeType) -> Form {
    match t {
        AttributeType::Primitive(s) => Form::Sym(s@),
        AttributeType::Complex(items) => Form::List(
            Seq::new(items@.len(), |i: int| json_form(items@[i])),
        ),
    }
}

/// Converts a JSON value to its form (see [`json_form`]).
pub fn json_to_sexpr(v: &JsonValue) -> (e: SExpr)
    ensures
        e@ == json_form(*v),
    decreases v,
{
    match v {
        JsonValue::String(s) => SExpr::sym(s.as_str()),
        JsonValue::Bool(b) => SExpr::Bool(*b),
        JsonValue::Number(n) => match n.as_i64 {
            Some(i) => SExpr::Int(i),
            None => SExpr::Str(n.text.clone()),
        },
        JsonValue::Array(arr) => {
            let mut out: Vec<SExpr> = Vec::new();
            let mut i: usize = 0;
            while i < arr.len()
                invariant
                    i <= arr@.len(),
                    *v == JsonValue::Array(*arr),
                    out@.len() == i,
                    forall|j: int| 0 <= j < i ==> (#[trigger] out@[j])@ == json_form(arr@[j]),
                decreases arr@.len() - i,
            {
                proof {
                    assert(decreases_to!(*v => (*v)->Array_0));
                    assert(decreases_to!(*arr => arr@));
                    assert(decreases_to!(arr@ => arr@[i as int]));
                }
                out.push(json_to_sexpr(&arr[i]));
                i = i + 1;
            }
            proof {
                lemma_list_form(out);
                let f = json_form(*v);
                assert(f is List);
                assert(f->List_0 =~= forms_of(out@));
            }
            SExpr::List(out)
        },
        JsonValue::Object(obj) => {
            let mut out: Vec<SExpr> = Vec::new();
            let mut i: usize = 0;
            while i < obj.len()
                invariant
                    i <= obj@.len(),
                    *v == JsonValue::Object(*obj),
                    out@.len() == 2 * i,
                    forall|j: int|
                        0 <= j < 2 * i ==> (#[trigger] out@[j])@ == (if j % 2 == 0 {
                            Form::Kw(obj@[j / 2].0@)
                        } else {
                            json_form(obj@[j / 2].1)
                        }),
                decreases obj@.len() - i,
            {
                let (k, val) = &obj[i];
                proof {
                    assert(decreases_to!(*v => (*v)->Object_0));
                    assert(decreases_to!(*obj => obj@));
                    assert(decreases_to!(obj@ => obj@[i as int]));
                    assert(decreases_to!(obj@[i as int] => obj@[i as int].1));
                }
                out.push(SExpr::Kw(k.clone()));
                out.push(json_to_sexpr(val));
                proof {
                    assert forall|j: int| 0 <= j < 2 * (i + 1) implies (#[trigger] out@[j])@ == (if j % 2 == 0 {
                        Form::Kw(obj@[j / 2].0@)
                    } else {
                        json_form(obj@[j / 2].1)
                    }) by {
                        if j >= 2 * i {
                            assert(j / 2 == i);
                        }
                    }
                }
                i = i + 1;
            }
            proof {
                lemma_list_form(out);
                let f = json_form(*v);
                assert(f is List);
                assert(f->List_0 =~= forms_of(out@));
            }
            SExpr::List(out)
        },
        JsonValue::Null => SExpr::sym("nil"),
    }
}

/// What each JSON value becomes: a string the symbol of its text, a boolean
/// itself, `null` the symbol `nil`, an integer that fits `i64` that integer
/// and any other number the string of its JSON text; an array the list of
/// the forms of all its elements, one for one and in order; an object the
/// list of its members, each as its key as a keyword followed by the form of
/// its value.
pub proof fn lemma_json_form_shape(v: JsonValue)
    ensures
        v matches JsonValue::String(s) ==> json_form(v) == Form::Sym(s@),
        v matches JsonValue::Bool(b) ==> json_form(v) == Form::Bool(b),
        v is Null ==> json_form(v) == Form::Sym("nil"@),
        v matches JsonValue::Number(n) ==> json_form(v) == match n.as_i64 {
            Some(i) => Form::Int(i as int),
            None => Form::Str(n.text@),
        },
        v matches JsonValue::Array(arr) ==> (json_form(v) matches Form::List(items) && items.len()
            == arr@.len() && forall|i: int|
            0 <= i < arr@.len() ==> items[i] == json_form(#[trigger] arr@[i])),
        v matches JsonValue::Object(obj) ==> (json_form(v) matches Form::List(items) && items.len()
            == 2 * obj@.len() && forall|i: int|
            0 <= i < obj@.len() ==> items[2 * i] == Form::Kw((#[trigger] obj@[i]).0@) && items[2 * i
                + 1] == json_form(obj@[i].1)),
{
    if let JsonValue::Object(obj) = v {
        let items = json_form(v)->List_0;
        assert forall|i: int| 0 <= i < obj@.len() implies items[2 * i] == Form::Kw(
            (#[trigger] obj@[i]).0@,
        ) && items[2 * i + 1] == json_form(obj@[i].1) by {
            assert((2 * i) / 2 == i && (2 * i + 1) / 2 == i && (2 * i) % 2 == 0 && (2 * i + 1) % 2
                == 1);
        }
    }
}

/// The form of an attribute type: a primitive type is the symbol of its
/// name; a complex type is the list of the forms of all its JSON elements,
/// one for one and in order.
pub proof fn lemma_type_form_shape(t: AttributeType)
    ensures
        t matches AttributeType::Primitive(s) ==> type_form(t) == Form::Sym(s@),
        t matches AttributeType::Complex(items) ==> (type_form(t) matches Form::List(fs) && fs.len()
            == items@.len() && forall|i: int|
            0 <= i < items@.len() ==> fs[i] == json_form(#[trigger] items@[i])),
{
}

impl AttributeType {
    /// The type `string`, which an attribute has when its JSON gives none.
    pub fn default_string() -> (t: AttributeType)
        ensures
            t matches AttributeType::Primitive(s) && s@ == "string"@,
    {
        AttributeType::Primitive(String::from_str("string"))
    }

    /// The form of this type (see [`type_form`]), to be spliced into an
    /// emitted `(deflava-resource ...)`.
    pub fn to_sexpr(&self) -> (e: SExpr)
        ensures
            e@ == type_form(*self),
    {
        match self {
            AttributeType::Primitive(s) => SExpr::sym(s.as_str()),
            AttributeType::Complex(items) => {
                let mut out: Vec<SExpr> = Vec::new();
                let mut i: usize = 0;
                while i < items.len()
                    invariant
                        i <= items@.len(),
                        out@.len() == i,
                        forall|j: int| 0 <= j < i ==> (#[trigger] out@[j])@ == json_form(items@[j]),
                    decreases items@.len() - i,
                {
                    out.push(json_to_sexpr(&items[i]));
                    i = i + 1;
                }
                proof {
                    lemma_list_form(out);
                    assert(forms_of(out@) =~= Seq::new(items@.len(), |i: int| json_form(items@[i])));
                }
                SExpr::List(out)
            },
        }
    }
}

} // verus!
