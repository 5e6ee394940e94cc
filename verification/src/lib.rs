//! lava-forge: tatara-lisp source generator for lava providers.
//!
//! Reads the typed schema of `terraform providers schema -json` and emits
//! typed `(deflava-resource ...)` forms: one `.tlisp` file per resource and
//! one `_index.tlisp` aggregator per provider.
//!
//! Every emitted form is built as a typed [`SExpr`] and rendered by the
//! canonical pretty-printer [`render`]; [`Generator::plan`] says, for a
//! whole schema file, which files are written and what each one holds.

use std::path::PathBuf;
use vstd::prelude::*;

pub mod balance;
pub mod order;
pub mod readable;
pub mod reader;
pub mod schema;
pub mod sexpr;
pub mod text;

pub use schema::{
    Attribute, AttributeType, Block, JsonNumber, JsonValue, NestedBlock, NestedBlocks, NestingMode,
    ProviderSchema, ProviderSchemasFile,
};
pub use sexpr::{render, SExpr};

use order::{
    lemma_map_multiset, lemma_name_order_multiset, lemma_name_order_sorts, lemma_sorted_by_name,
    lemma_sorted_unique, name_lt, name_order, sorted_by_name, sorted_order,
};
use schema::{
    attribute_at, attribute_entries, block_at, block_entries, nested_block_at,
    nested_block_entries, provider_at, provider_entries, type_form,
};
use sexpr::{forms_of, lemma_list_form, render_form, Form};
use text::{chars_of, push_char};

verus! {

/// `std::path::PathBuf`, the type of the generator's output directory,
/// carried through opaque.
#[verifier::external_type_specification]
#[verifier::external_body]
pub struct ExPathBuf(PathBuf);

// ---------------------------------------------------------------------------
// Names

/// The provider's short name: what follows the last `/` of its source
/// address (all of it when there is no `/`).
pub open spec fn short_name(source: Seq<char>) -> Seq<char>
    decreases source.len(),
{
    if source.len() == 0 {
        source
    } else if source.last() == '/' {
        seq![]
    } else {
        short_name(source.drop_last()).push(source.last())
    }
}

/// Characters that stand for themselves in a file name.
pub open spec fn is_file_safe_char(c: char) -> bool {
    ('a' <= c && c <= 'z') || ('A' <= c && c <= 'Z') || ('0' <= c && c <= '9') || c == '_' || c
        == '-'
}

/// `s` with every character that is not an ASCII letter, digit, `_` or `-`
/// replaced by `_`.
pub open spec fn file_safe_name(s: Seq<char>) -> Seq<char> {
    s.map_values(|c: char| if is_file_safe_char(c) { c } else { '_' })
}

/// The ASCII lower-case of `c`; other characters are unchanged.
pub open spec fn ascii_lower(c: char) -> char {
    if 'A' <= c && c <= 'Z' {
        ((c as u32) + 32) as char
    } else {
        c
    }
}

/// A type or attribute name as a keyword body: `_` becomes `-` and ASCII
/// letters become lower-case (`aws_vpc` becomes `aws-vpc`).
pub open spec fn kw_body(s: Seq<char>) -> Seq<char> {
    s.map_values(|c: char| if c == '_' { '-' } else { ascii_lower(c) })
}

/// "hashicorp/aws" becomes "aws"; "registry.terraform.io/hashicorp/aws"
/// becomes "aws".
pub fn provider_short_name(source: &str) -> (name: String)
    ensures
        name@ == short_name(source@),
{
    let cs = chars_of(source);
    let mut j: usize = cs.len();
    while j > 0 && cs[j - 1] != '/'
        invariant
            j <= cs@.len(),
            forall|k: int| j <= k < cs@.len() ==> cs@[k] != '/',
        decreases j,
    {
        j = j - 1;
    }
    let mut name = String::new();
    let mut i: usize = j;
    while i < cs.len()
        invariant
            j <= i <= cs@.len(),
            name@ == cs@.subrange(j as int, i as int),
        decreases cs@.len() - i,
    {
        push_char(&mut name, cs[i]);
        i = i + 1;
        assert(name@ =~= cs@.subrange(j as int, i as int));
    }
    proof {
        lemma_short_name_after(cs@, j as int);
        assert(cs@.subrange(j as int, cs@.len() as int) =~= cs@.skip(j as int));
    }
    name
}

/// [`short_name`] is what follows position `j` when `j` is just after the
/// last `/` (or `0` when there is none).
proof fn lemma_short_name_after(s: Seq<char>, j: int)
    requires
        0 <= j <= s.len(),
        j == 0 || s[j - 1] == '/',
        forall|k: int| j <= k < s.len() ==> s[k] != '/',
    ensures
        short_name(s) == s.skip(j),
    decreases s.len(),
{
    if s.len() == 0 {
        assert(s.skip(j) =~= s);
    } else if s.last() == '/' {
        assert(j == s.len());
        assert(s.skip(j) =~= Seq::<char>::empty());
    } else {
        let r = s.drop_last();
        assert(j < s.len());
        lemma_short_name_after(r, j);
        assert(r.skip(j).push(s.last()) =~= s.skip(j));
    }
}

/// `s` with every character that is not an ASCII letter, digit, `_` or `-`
/// replaced by `_`.
pub fn file_safe(s: &str) -> (out: String)
    ensures
        out@ == file_safe_name(s@),
{
    let cs = chars_of(s);
    let mut out = String::new();
    let mut i: usize = 0;
    while i < cs.len()
        invariant
            i <= cs@.len(),
            cs@ == s@,
            out@ == file_safe_name(cs@.take(i as int)),
        decreases cs@.len() - i,
    {
        let c = cs[i];
        if ('a' <= c && c <= 'z') || ('A' <= c && c <= 'Z') || ('0' <= c && c <= '9') || c == '_'
            || c == '-' {
            push_char(&mut out, c);
        } else {
            push_char(&mut out, '_');
        }
        i = i + 1;
        assert(out@ =~= file_safe_name(cs@.take(i as int)));
    }
    assert(cs@.take(i as int) =~= s@);
    out
}

fn ascii_lowercase(c: char) -> (r: char)
    ensures
        r == ascii_lower(c),
{
    if 'A' <= c && c <= 'Z' {
        (((c as u32) + 32) as u8) as char
    } else {
        c
    }
}

/// Converts `aws_vpc` to `aws-vpc` (a keyword body, without the colon).
pub fn type_id_to_kw_body(s: &str) -> (out: String)
    ensures
        out@ == kw_body(s@),
{
    let cs = chars_of(s);
    let mut out = String::new();
    let mut i: usize = 0;
    while i < cs.len()
        invariant
            i <= cs@.len(),
            cs@ == s@,
            out@ == kw_body(cs@.take(i as int)),
        decreases cs@.len() - i,
    {
        let c = cs[i];
        if c == '_' {
            push_char(&mut out, '-');
        } else {
            push_char(&mut out, ascii_lowercase(c));
        }
        i = i + 1;
        assert(out@ =~= kw_body(cs@.take(i as int)));
    }
    assert(cs@.take(i as int) =~= s@);
    out
}

/// The short name holds no `/`, ends the source, and what stands before
/// it in the source is nothing or ends with `/`.
pub proof fn lemma_short_name_is_last_segment(source: Seq<char>)
    ensures
        !short_name(source).contains('/'),
        short_name(source).len() <= source.len(),
        source.skip(source.len() - short_name(source).len()) == short_name(source),
        short_name(source).len() == source.len() || source[source.len() - short_name(source).len()
            - 1] == '/',
    decreases source.len(),
{
    if source.len() == 0 {
        assert(source.skip(0) =~= source);
    } else if source.last() == '/' {
        assert(source.skip(source.len() as int) =~= Seq::<char>::empty());
    } else {
        let r = source.drop_last();
        lemma_short_name_is_last_segment(r);
        let sr = short_name(r);
        assert(short_name(source) == sr.push(source.last()));
        assert(source.skip(source.len() - sr.len() - 1) =~= r.skip(r.len() - sr.len()).push(
            source.last(),
        ));
        if sr.len() < r.len() {
            assert(source[source.len() - sr.len() - 2] == r[r.len() - sr.len() - 1]);
        }
        assert forall|i: int| 0 <= i < sr.len() + 1 implies short_name(source)[i] != '/' by {
            if i < sr.len() {
                assert(short_name(source)[i] == sr[i]);
                assert(!sr.contains('/'));
            }
        }
    }
}

/// A provider's short name is a fixed point: shortening it again changes
/// nothing.
pub proof fn lemma_short_name_idempotent(source: Seq<char>)
    ensures
        short_name(short_name(source)) == short_name(source),
{
    lemma_short_name_is_last_segment(source);
    let n = short_name(source);
    assert forall|k: int| 0 <= k < n.len() implies n[k] != '/' by {
        if n[k] == '/' {
            assert(n.contains('/'));
        }
    }
    lemma_short_name_after(n, 0);
    assert(n.skip(0) =~= n);
}

/// A file-safe name has the length of the name it comes from, holds only ASCII
/// letters, digits, `_` and `-`, keeps every such character in place, and
/// making it file-safe again changes nothing.
pub proof fn lemma_file_safe_name(s: Seq<char>)
    ensures
        file_safe_name(s).len() == s.len(),
        forall|i: int| 0 <= i < s.len() ==> is_file_safe_char(#[trigger] file_safe_name(s)[i]),
        forall|i: int|
            0 <= i < s.len() && is_file_safe_char(#[trigger] s[i]) ==> file_safe_name(s)[i] == s[i],
        file_safe_name(file_safe_name(s)) == file_safe_name(s),
{
    assert(file_safe_name(file_safe_name(s)) =~= file_safe_name(s));
}

/// A keyword body has the length of the name; each `_` becomes `-`, each
/// ASCII upper-case letter its lower case, and every other character stays
/// as it is. So it holds no `_` and no ASCII upper-case letter, and
/// converting it again changes nothing.
pub proof fn lemma_kw_body(s: Seq<char>)
    ensures
        kw_body(s).len() == s.len(),
        forall|i: int| 0 <= i < s.len() && s[i] == '_' ==> #[trigger] kw_body(s)[i] == '-',
        forall|i: int|
            0 <= i < s.len() && 'A' <= s[i] && s[i] <= 'Z' ==> (#[trigger] kw_body(s)[i] as u32) == (
            s[i] as u32) + 32,
        forall|i: int|
            0 <= i < s.len() && s[i] != '_' && !('A' <= s[i] && s[i] <= 'Z') ==> #[trigger] kw_body(
                s,
            )[i] == s[i],
        forall|i: int|
            0 <= i < s.len() ==> #[trigger] kw_body(s)[i] != '_' && !('A' <= kw_body(s)[i]
                && kw_body(s)[i] <= 'Z'),
        kw_body(kw_body(s)) == kw_body(s),
{
    assert forall|i: int| 0 <= i < s.len() implies #[trigger] kw_body(s)[i] != '_' && !('A'
        <= kw_body(s)[i] && kw_body(s)[i] <= 'Z') by {
        let c = s[i];
        if 'A' <= c && c <= 'Z' {
            assert(ascii_lower(c) as u32 == (c as u32) + 32);
        }
    }
    assert(kw_body(kw_body(s)) =~= kw_body(s));
}

// ---------------------------------------------------------------------------
// Resource forms

/// The symbol that names a nesting mode.
pub open spec fn nesting_text(n: NestingMode) -> Seq<char> {
    match n {
        NestingMode::Single => "single"@,
        NestingMode::Group => "group"@,
        NestingMode::List => "list"@,
        NestingMode::SetOf => "set"@,
        NestingMode::MapOf => "map"@,
    }
}

pub fn nesting_kw(n: NestingMode) -> (s: &'static str)
    ensures
        s@ == nesting_text(n),
{
    match n {
        NestingMode::Single => "single",
        NestingMode::Group => "group",
        NestingMode::List => "list",
        NestingMode::SetOf => "set",
        NestingMode::MapOf => "map",
    }
}

/// `:key #t` when `on`, nothing otherwise.
pub open spec fn flag_forms(key: Seq<char>, on: bool) -> Seq<Form> {
    if on {
        seq![Form::Kw(key), Form::Bool(true)]
    } else {
        seq![]
    }
}

/// `:doc "text"` when there is a description, nothing otherwise.
pub open spec fn doc_forms(description: Option<String>) -> Seq<Form> {
    match description {
        Some(d) => seq![Form::Kw("doc"@), Form::Str(d@)],
        None => seq![],
    }
}

/// The entry of one attribute:
/// `(:name :type T [:required #t] [:optional #t] [:computed #t] [:sensitive #t] [:doc "..."])`.
pub open spec fn attribute_form(name: Seq<char>, a: Attribute) -> Form {
    Form::List(
        seq![Form::Kw(kw_body(name)), Form::Kw("type"@), type_form(a.type_)] + flag_forms(
            "required"@,
            a.required,
        ) + flag_forms("optional"@, a.optional) + flag_forms("computed"@, a.computed)
            + flag_forms("sensitive"@, a.sensitive) + doc_forms(a.description),
    )
}

/// Whether `items` holds the keyword `key` directly followed by `#t`.
pub open spec fn has_flag(items: Seq<Form>, key: Seq<char>) -> bool {
    exists|i: int| 0 <= i && i + 1 < items.len() && #[trigger] items[i] == Form::Kw(key) && items[i + 1]
        == Form::Bool(true)
}

/// A flag pair found in `a + b`, where `a` does not end in a keyword, lies
/// wholly in `a` or wholly in `b`.
proof fn lemma_has_flag_concat(a: Seq<Form>, b: Seq<Form>, key: Seq<char>)
    requires
        a.len() == 0 || !(a.last() is Kw),
    ensures
        has_flag(a + b, key) <==> has_flag(a, key) || has_flag(b, key),
{
    let s = a + b;
    if has_flag(s, key) {
        let i = choose|i: int| 0 <= i && i + 1 < s.len() && #[trigger] s[i] == Form::Kw(key) && s[i
            + 1] == Form::Bool(true);
        if i + 1 < a.len() {
            assert(a[i] == s[i] && a[i + 1] == s[i + 1]);
        } else if i >= a.len() {
            assert(b[i - a.len()] == s[i] && b[i - a.len() + 1] == s[i + 1]);
        } else {
            assert(s[i] == a.last());
        }
    }
    if has_flag(a, key) {
        let i = choose|i: int| 0 <= i && i + 1 < a.len() && #[trigger] a[i] == Form::Kw(key) && a[i
            + 1] == Form::Bool(true);
        assert(s[i] == a[i] && s[i + 1] == a[i + 1]);
    }
    if has_flag(b, key) {
        let i = choose|i: int| 0 <= i && i + 1 < b.len() && #[trigger] b[i] == Form::Kw(key) && b[i
            + 1] == Form::Bool(true);
        assert(s[i + a.len()] == b[i] && s[i + a.len() + 1] == b[i + 1]);
    }
}

/// `flag_forms(k, on)` holds the pair `:key #t` exactly when it is on and
/// `k` is `key`.
proof fn lemma_has_flag_forms(k: Seq<char>, on: bool, key: Seq<char>)
    ensures
        has_flag(flag_forms(k, on), key) <==> on && k == key,
        flag_forms(k, on).len() == 0 || flag_forms(k, on).last() == Form::Bool(true),
{
    let f = flag_forms(k, on);
    if on && k == key {
        assert(f[0] == Form::Kw(key) && f[1] == Form::Bool(true));
    }
}

/// An attribute's entry starts with its name as a keyword, then `:type` and
/// the form of its type; it holds `:required #t`, `:optional #t`,
/// `:computed #t` and `:sensitive #t` each exactly when that flag of the
/// attribute is set, whatever the others are; besides those it holds only,
/// at its end, `:doc` and the description when there is one.
pub proof fn lemma_attribute_flags(name: Seq<char>, a: Attribute)
    ensures
        attribute_form(name, a) matches Form::List(items) && items.len() >= 3 && items[0] == Form::Kw(
            kw_body(name),
        ) && items[1] == Form::Kw("type"@) && items[2] == type_form(a.type_) && (has_flag(
            items,
            "required"@,
        ) <==> a.required) && (has_flag(items, "optional"@) <==> a.optional) && (has_flag(
            items,
            "computed"@,
        ) <==> a.computed) && (has_flag(items, "sensitive"@) <==> a.sensitive) && items.len() == 3
            + (if a.required { 2int } else { 0 }) + (if a.optional { 2int } else { 0 }) + (
        if a.computed {
            2int
        } else {
            0
        }) + (if a.sensitive { 2int } else { 0 }) + (if a.description is Some { 2int } else { 0 })
            && (a.description matches Some(text) ==> items[items.len() - 2] == Form::Kw("doc"@)
            && items[items.len() - 1] == Form::Str(text@)),
{
    reveal_strlit("required");
    reveal_strlit("optional");
    reveal_strlit("computed");
    reveal_strlit("sensitive");
    reveal_strlit("type");
    reveal_strlit("doc");
    assert("required"@[0] == 'r' && "optional"@[0] == 'o' && "computed"@[0] == 'c');
    assert("required"@ != "optional"@ && "required"@ != "computed"@ && "optional"@ != "computed"@);
    assert("required"@.len() != "sensitive"@.len());
    assert("optional"@.len() != "sensitive"@.len());
    assert("computed"@.len() != "sensitive"@.len());
    let head = seq![Form::Kw(kw_body(name)), Form::Kw("type"@), type_form(a.type_)];
    let fr = flag_forms("required"@, a.required);
    let fo = flag_forms("optional"@, a.optional);
    let fc = flag_forms("computed"@, a.computed);
    let fs = flag_forms("sensitive"@, a.sensitive);
    let d = doc_forms(a.description);
    let s1 = head + fr;
    let s2 = s1 + fo;
    let s3 = s2 + fc;
    let s4 = s3 + fs;
    let items = s4 + d;
    assert(attribute_form(name, a) == Form::List(items));
    if a.description is Some {
        assert(items[items.len() - 2] == d[0] && items[items.len() - 1] == d[1]);
    }
    assert(!(type_form(a.type_) is Kw) && !(type_form(a.type_) is Bool));
    assert(items[0] == head[0] && items[1] == head[1] && items[2] == head[2]);
    assert forall|key: Seq<char>|
        #![trigger has_flag(items, key)]
        (has_flag(items, key) <==> has_flag(fr, key) || has_flag(fo, key) || has_flag(fc, key)
            || has_flag(fs, key)) by {
        assert(!has_flag(head, key)) by {
            if has_flag(head, key) {
                let i = choose|i: int| 0 <= i && i + 1 < head.len() && #[trigger] head[i] == Form::Kw(
                    key,
                ) && head[i + 1] == Form::Bool(true);
            }
        }
        assert(!has_flag(d, key)) by {
            if has_flag(d, key) {
                let i = choose|i: int| 0 <= i && i + 1 < d.len() && #[trigger] d[i] == Form::Kw(key)
                    && d[i + 1] == Form::Bool(true);
            }
        }
        lemma_has_flag_forms("required"@, a.required, key);
        lemma_has_flag_forms("optional"@, a.optional, key);
        lemma_has_flag_forms("computed"@, a.computed, key);
        lemma_has_flag_forms("sensitive"@, a.sensitive, key);
        lemma_has_flag_concat(head, fr, key);
        assert(s1.last() == (if fr.len() == 0 { head.last() } else { fr.last() }));
        lemma_has_flag_concat(s1, fo, key);
        assert(s2.last() == (if fo.len() == 0 { s1.last() } else { fo.last() }));
        lemma_has_flag_concat(s2, fc, key);
        assert(s3.last() == (if fc.len() == 0 { s2.last() } else { fc.last() }));
        lemma_has_flag_concat(s3, fs, key);
        assert(s4.last() == (if fs.len() == 0 { s3.last() } else { fs.last() }));
        lemma_has_flag_concat(s4, d, key);
    }
}

/// The entry of one nested block type:
/// `(:name :mode M [:min-items n] [:max-items m])`, `:min-items` only when
/// it is above zero.
pub open spec fn nested_form(name: Seq<char>, nb: NestedBlock) -> Form {
    Form::List(
        seq![Form::Kw(kw_body(name)), Form::Kw("mode"@), Form::Sym(nesting_text(nb.nesting))] + (
        if nb.min_items > 0 {
            seq![Form::Kw("min-items"@), Form::Int(nb.min_items as int)]
        } else {
            seq![]
        }) + match nb.max_items {
            Some(m) => seq![Form::Kw("max-items"@), Form::Int(m as int)],
            None => seq![],
        },
    )
}

/// `:key (entries...)` when there are entries, nothing otherwise.
pub open spec fn section_forms(key: Seq<char>, entries: Seq<Form>) -> Seq<Form> {
    if entries.len() > 0 {
        seq![Form::Kw(key), Form::List(entries)]
    } else {
        seq![]
    }
}

/// The attribute entries of a block, sorted by attribute name.
pub open spec fn attribute_forms(block: Block) -> Seq<Form> {
    sorted_by_name(attribute_entries(block.attributes)).map_values(
        |e: (String, Attribute)| attribute_form(e.0@, e.1),
    )
}

/// The nested block entries of a block, sorted by name.
pub open spec fn nested_forms(block: Block) -> Seq<Form> {
    sorted_by_name(nested_block_entries(block.nested_blocks)).map_values(
        |e: (String, NestedBlock)| nested_form(e.0@, e.1),
    )
}

/// The `(deflava-resource :type-id [:doc ...] [:attributes (...)] [:nested-blocks (...)])`
/// form of one resource.
pub open spec fn resource_form(type_id: Seq<char>, block: Block) -> Form {
    Form::List(
        seq![Form::Sym("deflava-resource"@), Form::Kw(kw_body(type_id))] + doc_forms(
            block.description,
        ) + section_forms("attributes"@, attribute_forms(block)) + section_forms(
            "nested-blocks"@,
            nested_forms(block),
        ),
    )
}

/// `r` holds the entries of `s`, each as often, with names that never go
/// down along it.
pub open spec fn is_name_sorting<T>(s: Seq<(String, T)>, r: Seq<(String, T)>) -> bool {
    &&& r.len() == s.len()
    &&& r.to_multiset() == s.to_multiset()
    &&& forall|p: int, q: int| 0 <= p < q < r.len() ==> !name_lt((#[trigger] r[q]).0@, (#[trigger] r[p]).0@)
}

/// [`sorted_by_name`] is a sorting of the entries by name.
proof fn lemma_sorted_by_name_sorts<T>(s: Seq<(String, T)>)
    ensures
        is_name_sorting(s, sorted_by_name(s)),
{
    let keys = s.map_values(|e: (String, T)| e.0@);
    lemma_sorted_by_name(s);
    lemma_name_order_multiset(s, keys, s.len());
    assert(s.take(s.len() as int) =~= s);
    assert(Seq::new(s.len(), |j: int| s[name_order(keys, s.len())[j]]) =~= sorted_by_name(s));
}

/// A resource's form: `deflava-resource` and the type id as a keyword; then
/// `:doc` and the description, when there is one; then `:attributes` and the
/// list of the entries of all the attributes, one for one, sorted by name,
/// when there are any; then `:nested-blocks` and the list of the entries of
/// all the nested block types likewise, when there are any; nothing else.
pub proof fn lemma_resource_form_parts(type_id: Seq<char>, block: Block)
    ensures
        resource_form(type_id, block) matches Form::List(items) && ({
            let attrs = attribute_entries(block.attributes);
            let nested = nested_block_entries(block.nested_blocks);
            let d: int = if block.description is Some { 2 } else { 0 };
            let a: int = if attrs.len() > 0 { 2 } else { 0 };
            let n: int = if nested.len() > 0 { 2 } else { 0 };
            &&& items.len() == 2 + d + a + n
            &&& items[0] == Form::Sym("deflava-resource"@)
            &&& items[1] == Form::Kw(kw_body(type_id))
            &&& block.description matches Some(text) ==> items[2] == Form::Kw("doc"@) && items[3]
                == Form::Str(text@)
            &&& attrs.len() > 0 ==> items[2 + d] == Form::Kw("attributes"@) && exists|r: Seq<(String, Attribute)>|
                is_name_sorting(attrs, r) && items[3 + d] == Form::List(
                    r.map_values(|e: (String, Attribute)| attribute_form(e.0@, e.1)),
                )
            &&& nested.len() > 0 ==> items[2 + d + a] == Form::Kw("nested-blocks"@) && exists|r: Seq<(String, NestedBlock)>|
                is_name_sorting(nested, r) && items[3 + d + a] == Form::List(
                    r.map_values(|e: (String, NestedBlock)| nested_form(e.0@, e.1)),
                )
        }),
{
    let attrs = attribute_entries(block.attributes);
    let nested = nested_block_entries(block.nested_blocks);
    lemma_sorted_by_name_sorts(attrs);
    lemma_sorted_by_name_sorts(nested);
    let head = seq![Form::Sym("deflava-resource"@), Form::Kw(kw_body(type_id))];
    let docs = doc_forms(block.description);
    let sa = section_forms("attributes"@, attribute_forms(block));
    let sn = section_forms("nested-blocks"@, nested_forms(block));
    let items = head + docs + sa + sn;
    assert(resource_form(type_id, block) == Form::List(items));
    assert(attribute_forms(block).len() == attrs.len());
    assert(nested_forms(block).len() == nested.len());
    let d: int = if block.description is Some { 2 } else { 0 };
    let a: int = if attrs.len() > 0 { 2 } else { 0 };
    assert(docs.len() == d);
    assert(sa.len() == a);
    if attrs.len() > 0 {
        assert(items[2 + d] == sa[0] && items[3 + d] == sa[1]);
        assert(items[3 + d] == Form::List(
            sorted_by_name(attrs).map_values(|e: (String, Attribute)| attribute_form(e.0@, e.1)),
        ));
    }
    if nested.len() > 0 {
        assert(items[2 + d + a] == sn[0] && items[3 + d + a] == sn[1]);
        assert(items[3 + d + a] == Form::List(
            sorted_by_name(nested).map_values(|e: (String, NestedBlock)| nested_form(e.0@, e.1)),
        ));
    }
}

/// A nested block type's entry: its name as a keyword, `:mode` and the
/// symbol of its nesting mode, then `:min-items` and the minimum when it is
/// above zero, then `:max-items` and the maximum when there is one; nothing
/// else.
pub proof fn lemma_nested_form_shape(name: Seq<char>, nb: NestedBlock)
    ensures
        nested_form(name, nb) matches Form::List(items) && ({
            let m: int = if nb.min_items > 0 { 2 } else { 0 };
            &&& items.len() == 3 + m + (if nb.max_items is Some { 2int } else { 0 })
            &&& items[0] == Form::Kw(kw_body(name))
            &&& items[1] == Form::Kw("mode"@)
            &&& items[2] == Form::Sym(nesting_text(nb.nesting))
            &&& nb.min_items > 0 ==> items[3] == Form::Kw("min-items"@) && items[4] == Form::Int(
                nb.min_items as int,
            )
            &&& nb.max_items matches Some(x) ==> items[3 + m] == Form::Kw("max-items"@) && items[4
                + m] == Form::Int(x as int)
        }),
{
}

/// The text of a resource's `.tlisp` file: a two-line header comment, a
/// blank line, the rendered form and a final newline.
pub open spec fn resource_text(type_id: Seq<char>, block: Block) -> Seq<char> {
    ";; "@ + type_id + ".tlisp \u{2014} auto-generated by lava-forge.\n"@
        + ";; Do NOT edit; re-run lava-forge against the upstream provider schema.\n\n"@
        + render_form(resource_form(type_id, block), 0) + "\n"@
}

fn keyword(s: &str) -> (e: SExpr)
    ensures
        e@ == Form::Kw(s@),
{
    SExpr::Kw(String::from_str(s))
}

fn attribute_entry(name: &String, attr: &Attribute) -> (e: SExpr)
    ensures
        e@ == attribute_form(name@, *attr),
{
    let mut entry: Vec<SExpr> = Vec::new();
    entry.push(SExpr::Kw(type_id_to_kw_body(name.as_str())));
    entry.push(keyword("type"));
    entry.push(attr.type_.to_sexpr());
    let ghost mut acc = seq![Form::Kw(kw_body(name@)), Form::Kw("type"@), type_form(attr.type_)];
    assert(forms_of(entry@) =~= acc);
    if attr.required {
        entry.push(keyword("required"));
        entry.push(SExpr::Bool(true));
    }
    proof {
        acc = acc + flag_forms("required"@, attr.required);
    }
    assert(forms_of(entry@) =~= acc);
    if attr.optional {
        entry.push(keyword("optional"));
        entry.push(SExpr::Bool(true));
    }
    proof {
        acc = acc + flag_forms("optional"@, attr.optional);
    }
    assert(forms_of(entry@) =~= acc);
    if attr.computed {
        entry.push(keyword("computed"));
        entry.push(SExpr::Bool(true));
    }
    proof {
        acc = acc + flag_forms("computed"@, attr.computed);
    }
    assert(forms_of(entry@) =~= acc);
    if attr.sensitive {
        entry.push(keyword("sensitive"));
        entry.push(SExpr::Bool(true));
    }
    proof {
        acc = acc + flag_forms("sensitive"@, attr.sensitive);
    }
    assert(forms_of(entry@) =~= acc);
    match &attr.description {
        Some(d) => {
            entry.push(keyword("doc"));
            entry.push(SExpr::Str(d.clone()));
        },
        None => {},
    }
    proof {
        acc = acc + doc_forms(attr.description);
    }
    assert(forms_of(entry@) =~= acc);
    proof {
        lemma_list_form(entry);
    }
    SExpr::List(entry)
}

fn nested_entry(name: &String, nb: &NestedBlock) -> (e: SExpr)
    ensures
        e@ == nested_form(name@, *nb),
{
    let mut entry: Vec<SExpr> = Vec::new();
    entry.push(SExpr::Kw(type_id_to_kw_body(name.as_str())));
    entry.push(keyword("mode"));
    entry.push(SExpr::sym(nesting_kw(nb.nesting)));
    let ghost mut acc = seq![Form::Kw(kw_body(name@)), Form::Kw("mode"@), Form::Sym(nesting_text(nb.nesting))];
    assert(forms_of(entry@) =~= acc);
    if nb.min_items > 0 {
        entry.push(keyword("min-items"));
        entry.push(SExpr::Int(nb.min_items as i64));
    }
    proof {
        acc = acc + (if nb.min_items > 0 {
            seq![Form::Kw("min-items"@), Form::Int(nb.min_items as int)]
        } else {
            seq![]
        });
    }
    assert(forms_of(entry@) =~= acc);
    match nb.max_items {
        Some(max) => {
            entry.push(keyword("max-items"));
            entry.push(SExpr::Int(max as i64));
        },
        None => {},
    }
    proof {
        acc = acc + match nb.max_items {
            Some(m) => seq![Form::Kw("max-items"@), Form::Int(m as int)],
            None => seq![],
        };
    }
    assert(forms_of(entry@) =~= acc);
    proof {
        lemma_list_form(entry);
    }
    SExpr::List(entry)
}

/// The attribute entries of `block`, sorted by attribute name.
fn sorted_attribute_entries(block: &Block) -> (forms: Vec<SExpr>)
    ensures
        forms_of(forms@) == attribute_forms(*block),
        names_distinct(attribute_entries(block.attributes)),
{
    let ghost entries = attribute_entries(block.attributes);
    let mut attrs: Vec<(&String, &Attribute)> = Vec::new();
    let mut keys: Vec<Vec<char>> = Vec::new();
    let mut next = attribute_at(&block.attributes, 0);
    while next.is_some()
        invariant
            entries == attribute_entries(block.attributes),
            attrs@.len() == keys@.len(),
            attrs@.len() <= entries.len(),
            next is Some <==> attrs@.len() < entries.len(),
            next matches Some((k, a)) ==> (*k, *a) == entries[attrs@.len() as int],
            next matches Some((k, a)) ==> forall|j: int|
                0 <= j < entries.len() && j != attrs@.len() ==> (#[trigger] entries[j]).0@ != k@,
            forall|i: int, j: int|
                0 <= i < attrs@.len() && 0 <= j < entries.len() && i != j ==> (#[trigger] entries[i]).0@
                    != (#[trigger] entries[j]).0@,
            forall|i: int|
                0 <= i < attrs@.len() ==> (*(#[trigger] attrs@[i]).0, *attrs@[i].1) == entries[i],
            forall|i: int| 0 <= i < keys@.len() ==> (#[trigger] keys@[i])@ == entries[i].0@,
        decreases entries.len() - attrs@.len(),
    {
        let (k, a) = next.unwrap();
        attrs.push((k, a));
        keys.push(chars_of(k.as_str()));
        next = attribute_at(&block.attributes, attrs.len());
    }
    assert(names_distinct(entries));
    let order = sorted_order(&keys);
    let ghost ks = entries.map_values(|e: (String, Attribute)| e.0@);
    let ghost sorted = sorted_by_name(entries);
    assert(keys@.map_values(|k: Vec<char>| k@) =~= ks);
    let mut forms: Vec<SExpr> = Vec::new();
    let mut j: usize = 0;
    while j < order.len()
        invariant
            j <= order@.len(),
            order@.len() == entries.len(),
            attrs@.len() == entries.len(),
            sorted == sorted_by_name(entries),
            ks == entries.map_values(|e: (String, Attribute)| e.0@),
            forall|t: int| 0 <= t < order@.len() ==> #[trigger] order@[t] as int == name_order(ks, entries.len())[t],
            forall|t: int| 0 <= t < order@.len() ==> #[trigger] order@[t] < entries.len(),
            forall|i: int|
                0 <= i < attrs@.len() ==> (*(#[trigger] attrs@[i]).0, *attrs@[i].1) == entries[i],
            forms@.len() == j,
            forall|t: int|
                0 <= t < j ==> (#[trigger] forms@[t])@ == attribute_form(sorted[t].0@, sorted[t].1),
        decreases order@.len() - j,
    {
        let idx = order[j];
        let (k, a) = attrs[idx];
        forms.push(attribute_entry(k, a));
        assert(sorted[j as int] == entries[idx as int]);
        j = j + 1;
    }
    assert(forms_of(forms@) =~= attribute_forms(*block));
    forms
}

/// The nested block entries of `block`, sorted by name.
fn sorted_nested_entries(block: &Block) -> (forms: Vec<SExpr>)
    ensures
        forms_of(forms@) == nested_forms(*block),
        names_distinct(nested_block_entries(block.nested_blocks)),
{
    let ghost entries = nested_block_entries(block.nested_blocks);
    let mut blocks: Vec<(&String, &NestedBlock)> = Vec::new();
    let mut keys: Vec<Vec<char>> = Vec::new();
    let mut next = nested_block_at(&block.nested_blocks, 0);
    while next.is_some()
        invariant
            entries == nested_block_entries(block.nested_blocks),
            blocks@.len() == keys@.len(),
            blocks@.len() <= entries.len(),
            next is Some <==> blocks@.len() < entries.len(),
            next matches Some((k, b)) ==> (*k, *b) == entries[blocks@.len() as int],
            next matches Some((k, b)) ==> forall|j: int|
                0 <= j < entries.len() && j != blocks@.len() ==> (#[trigger] entries[j]).0@ != k@,
            forall|i: int, j: int|
                0 <= i < blocks@.len() && 0 <= j < entries.len() && i != j ==> (#[trigger] entries[i]).0@
                    != (#[trigger] entries[j]).0@,
            forall|i: int|
                0 <= i < blocks@.len() ==> (*(#[trigger] blocks@[i]).0, *blocks@[i].1) == entries[i],
            forall|i: int| 0 <= i < keys@.len() ==> (#[trigger] keys@[i])@ == entries[i].0@,
        decreases entries.len() - blocks@.len(),
    {
        let (k, b) = next.unwrap();
        blocks.push((k, b));
        keys.push(chars_of(k.as_str()));
        next = nested_block_at(&block.nested_blocks, blocks.len());
    }
    assert(names_distinct(entries));
    let order = sorted_order(&keys);
    let ghost ks = entries.map_values(|e: (String, NestedBlock)| e.0@);
    let ghost sorted = sorted_by_name(entries);
    assert(keys@.map_values(|k: Vec<char>| k@) =~= ks);
    let mut forms: Vec<SExpr> = Vec::new();
    let mut j: usize = 0;
    while j < order.len()
        invariant
            j <= order@.len(),
            order@.len() == entries.len(),
            blocks@.len() == entries.len(),
            sorted == sorted_by_name(entries),
            ks == entries.map_values(|e: (String, NestedBlock)| e.0@),
            forall|t: int| 0 <= t < order@.len() ==> #[trigger] order@[t] as int == name_order(ks, entries.len())[t],
            forall|t: int| 0 <= t < order@.len() ==> #[trigger] order@[t] < entries.len(),
            forall|i: int|
                0 <= i < blocks@.len() ==> (*(#[trigger] blocks@[i]).0, *blocks@[i].1) == entries[i],
            forms@.len() == j,
            forall|t: int|
                0 <= t < j ==> (#[trigger] forms@[t])@ == nested_form(sorted[t].0@, sorted[t].1),
        decreases order@.len() - j,
    {
        let idx = order[j];
        let (k, b) = blocks[idx];
        forms.push(nested_entry(k, b));
        assert(sorted[j as int] == entries[idx as int]);
        j = j + 1;
    }
    assert(forms_of(forms@) =~= nested_forms(*block));
    forms
}

/// The `(deflava-resource ...)` text of the resource `type_id`. The block's
/// attribute and nested block maps each hold every name once (an `IndexMap`
/// keeps its keys unique), so for any two blocks rendered here
/// [`lemma_resource_text_ignores_entry_order`] applies.
pub fn render_resource(type_id: &str, block: &Block) -> (text: String)
    ensures
        text@ == resource_text(type_id@, *block),
        names_distinct(attribute_entries(block.attributes)),
        names_distinct(nested_block_entries(block.nested_blocks)),
{
    let mut items: Vec<SExpr> = Vec::new();
    items.push(SExpr::sym("deflava-resource"));
    items.push(SExpr::Kw(type_id_to_kw_body(type_id)));
    let ghost mut acc = seq![Form::Sym("deflava-resource"@), Form::Kw(kw_body(type_id@))];
    assert(forms_of(items@) =~= acc);
    match &block.description {
        Some(desc) => {
            items.push(keyword("doc"));
            items.push(SExpr::Str(desc.clone()));
        },
        None => {},
    }
    proof {
        acc = acc + doc_forms(block.description);
    }
    assert(forms_of(items@) =~= acc);
    let attr_forms = sorted_attribute_entries(block);
    if attr_forms.len() > 0 {
        items.push(keyword("attributes"));
        proof {
            lemma_list_form(attr_forms);
        }
        items.push(SExpr::List(attr_forms));
    }
    proof {
        acc = acc + section_forms("attributes"@, attribute_forms(*block));
    }
    assert(forms_of(items@) =~= acc);
    let nested = sorted_nested_entries(block);
    if nested.len() > 0 {
        items.push(keyword("nested-blocks"));
        proof {
            lemma_list_form(nested);
        }
        items.push(SExpr::List(nested));
    }
    proof {
        acc = acc + section_forms("nested-blocks"@, nested_forms(*block));
    }
    assert(forms_of(items@) =~= acc);
    proof {
        lemma_list_form(items);
    }
    let form = SExpr::List(items);
    let mut out = String::from_str(";; ");
    out.append(type_id);
    out.append(".tlisp \u{2014} auto-generated by lava-forge.\n");
    out.append(";; Do NOT edit; re-run lava-forge against the upstream provider schema.\n\n");
    out.append(render(&form).as_str());
    out.append("\n");
    out
}

// ---------------------------------------------------------------------------
// Provider aggregator

/// The `(deflava-provider :provider :resources (...))` form: the resource
/// names as keywords, sorted by name.
pub open spec fn aggregator_form(provider: Seq<char>, resources: Seq<String>) -> Form {
    let keys = resources.map_values(|r: String| r@);
    let order = name_order(keys, resources.len());
    Form::List(
        seq![
            Form::Sym("deflava-provider"@),
            Form::Kw(provider),
            Form::Kw("resources"@),
            Form::List(Seq::new(resources.len(), |j: int| Form::Kw(kw_body(keys[order[j]])))),
        ],
    )
}

/// The aggregator lists every resource: after `deflava-provider`, the
/// provider keyword and `:resources` comes a list with exactly one keyword
/// per resource name, the keyword body of that name (as a multiset, the
/// keyword bodies of all the names), and the names along the list never go
/// down in name order.
pub proof fn lemma_aggregator_lists_every_resource(provider: Seq<char>, resources: Seq<String>)
    ensures
        aggregator_form(provider, resources) matches Form::List(items) && items.len() == 4
            && items[0] == Form::Sym("deflava-provider"@) && items[1] == Form::Kw(provider)
            && items[2] == Form::Kw("resources"@) && (items[3] matches Form::List(list) && list.len()
            == resources.len() && list.to_multiset() == resources.map_values(
            |r: String| Form::Kw(kw_body(r@)),
        ).to_multiset() && exists|o: Seq<int>|
            o.len() == resources.len() && (forall|j: int|
                0 <= j < o.len() ==> 0 <= #[trigger] o[j] < resources.len() && list[j] == Form::Kw(
                    kw_body(resources[o[j]]@),
                )) && forall|p: int, q: int|
                0 <= p < q < o.len() ==> !name_lt(resources[#[trigger] o[q]]@, resources[#[trigger] o[p]]@)),
{
    let keys = resources.map_values(|r: String| r@);
    let n = resources.len();
    let order = name_order(keys, n);
    let kws = resources.map_values(|r: String| Form::Kw(kw_body(r@)));
    let list = Seq::new(n, |j: int| Form::Kw(kw_body(keys[order[j]])));
    lemma_name_order_sorts(keys, n);
    lemma_name_order_multiset(kws, keys, n);
    assert(kws.take(n as int) =~= kws);
    assert(Seq::new(n, |j: int| kws[name_order(keys, n)[j]]) =~= list);
    assert(aggregator_form(provider, resources)->List_0[3] == Form::List(list));
    assert forall|j: int| 0 <= j < order.len() implies 0 <= #[trigger] order[j] < resources.len()
        && list[j] == Form::Kw(kw_body(resources[order[j]]@)) by {}
    assert forall|p: int, q: int| 0 <= p < q < order.len() implies !name_lt(
        resources[#[trigger] order[q]]@,
        resources[#[trigger] order[p]]@,
    ) by {
        assert(keys[order[q]] == resources[order[q]]@);
        assert(keys[order[p]] == resources[order[p]]@);
    }
}

/// The text of a provider's `_index.tlisp`: a two-line header comment, a
/// blank line, the rendered aggregator form and a final newline.
pub open spec fn aggregator_text(provider: Seq<char>, resources: Seq<String>) -> Seq<char> {
    ";; _index.tlisp \u{2014} auto-generated by lava-forge.\n"@
        + ";; Catalog of every resource this provider exposes.\n\n"@ + render_form(
        aggregator_form(provider, resources),
        0,
    ) + "\n"@
}

pub fn render_aggregator(provider: &str, resources: &[String]) -> (text: String)
    ensures
        text@ == aggregator_text(provider@, resources@),
{
    let mut keys: Vec<Vec<char>> = Vec::new();
    let mut i: usize = 0;
    while i < resources.len()
        invariant
            i <= resources@.len(),
            keys@.len() == i,
            forall|t: int| 0 <= t < i ==> (#[trigger] keys@[t])@ == resources@[t]@,
        decreases resources@.len() - i,
    {
        keys.push(chars_of(resources[i].as_str()));
        i = i + 1;
    }
    let ghost ks = resources@.map_values(|r: String| r@);
    assert(keys@.map_values(|k: Vec<char>| k@) =~= ks);
    let order = sorted_order(&keys);
    let mut names: Vec<SExpr> = Vec::new();
    let mut j: usize = 0;
    while j < order.len()
        invariant
            j <= order@.len(),
            order@.len() == resources@.len(),
            ks == resources@.map_values(|r: String| r@),
            forall|t: int| 0 <= t < order@.len() ==> #[trigger] order@[t] as int == name_order(ks, resources@.len())[t],
            forall|t: int| 0 <= t < order@.len() ==> #[trigger] order@[t] < resources@.len(),
            names@.len() == j,
            forall|t: int|
                0 <= t < j ==> (#[trigger] names@[t])@ == Form::Kw(kw_body(ks[name_order(ks, resources@.len())[t]])),
        decreases order@.len() - j,
    {
        let idx = order[j];
        names.push(SExpr::Kw(type_id_to_kw_body(resources[idx].as_str())));
        j = j + 1;
    }
    proof {
        lemma_list_form(names);
        assert(forms_of(names@) =~= Seq::new(
            resources@.len(),
            |j: int| Form::Kw(kw_body(ks[name_order(ks, resources@.len())[j]])),
        ));
    }
    let mut items: Vec<SExpr> = Vec::new();
    items.push(SExpr::sym("deflava-provider"));
    items.push(SExpr::Kw(String::from_str(provider)));
    items.push(keyword("resources"));
    items.push(SExpr::List(names));
    proof {
        lemma_list_form(items);
        let f = aggregator_form(provider@, resources@);
        assert(f is List);
        assert(forms_of(items@) =~= f->List_0);
    }
    let form = SExpr::List(items);
    let mut out = String::from_str(";; _index.tlisp \u{2014} auto-generated by lava-forge.\n");
    out.append(";; Catalog of every resource this provider exposes.\n\n");
    out.append(render(&form).as_str());
    out.append("\n");
    out
}

// ---------------------------------------------------------------------------
// Order of the maps

/// An attribute entry as the resource text sees it: its name and value.
pub open spec fn attribute_parts(e: (String, Attribute)) -> (Seq<char>, Attribute) {
    (e.0@, e.1)
}

/// A nested block entry as the resource text sees it: its name, nesting
/// mode and item bounds (not its inner block).
pub open spec fn nested_parts(e: (String, NestedBlock)) -> (Seq<char>, (NestingMode, u32, Option<u32>)) {
    (e.0@, (e.1.nesting, e.1.min_items, e.1.max_items))
}

/// No two entries share a name.
pub open spec fn names_distinct<T>(s: Seq<(String, T)>) -> bool {
    forall|i: int, j: int| 0 <= i < s.len() && 0 <= j < s.len() && i != j ==> (#[trigger] s[i]).0@
        != (#[trigger] s[j]).0@
}

/// The sorted entries of a map with distinct names, seen through `parts`,
/// depend only on the multiset of the entries so seen.
proof fn lemma_sorted_parts<T, U>(
    s1: Seq<(String, T)>,
    s2: Seq<(String, T)>,
    parts: spec_fn((String, T)) -> (Seq<char>, U),
)
    requires
        names_distinct(s1),
        s1.map_values(parts).to_multiset() == s2.map_values(parts).to_multiset(),
        forall|e: (String, T)| (#[trigger] parts(e)).0 == e.0@,
    ensures
        sorted_by_name(s1).map_values(parts) == sorted_by_name(s2).map_values(parts),
{
    let k1 = s1.map_values(|e: (String, T)| e.0@);
    let k2 = s2.map_values(|e: (String, T)| e.0@);
    lemma_sorted_by_name(s1);
    lemma_sorted_by_name(s2);
    lemma_name_order_multiset(s1, k1, s1.len());
    lemma_name_order_multiset(s2, k2, s2.len());
    assert(s1.take(s1.len() as int) =~= s1);
    assert(s2.take(s2.len() as int) =~= s2);
    assert(Seq::new(s1.len(), |j: int| s1[name_order(k1, s1.len())[j]]) =~= sorted_by_name(s1));
    assert(Seq::new(s2.len(), |j: int| s2[name_order(k2, s2.len())[j]]) =~= sorted_by_name(s2));
    lemma_map_multiset(sorted_by_name(s1), s1, parts);
    lemma_map_multiset(sorted_by_name(s2), s2, parts);
    let p1 = sorted_by_name(s1).map_values(parts);
    let p2 = sorted_by_name(s2).map_values(parts);
    let key = |x: (Seq<char>, U)| x.0;
    assert forall|p: int, q: int| 0 <= p < q < p1.len() implies !name_lt(
        key(#[trigger] p1[q]),
        key(#[trigger] p1[p]),
    ) by {
        assert(p1[q].0 == sorted_by_name(s1)[q].0@);
        assert(p1[p].0 == sorted_by_name(s1)[p].0@);
    }
    assert forall|p: int, q: int| 0 <= p < q < p2.len() implies !name_lt(
        key(#[trigger] p2[q]),
        key(#[trigger] p2[p]),
    ) by {
        assert(p2[q].0 == sorted_by_name(s2)[q].0@);
        assert(p2[p].0 == sorted_by_name(s2)[p].0@);
    }
    let o1 = name_order(k1, s1.len());
    assert forall|p: int, q: int|
        0 <= p < p1.len() && 0 <= q < p1.len() && key(#[trigger] p1[p]) == key(#[trigger] p1[q])
            implies p1[p] == p1[q] by {
        if p != q {
            assert(sorted_by_name(s1)[p] == s1[o1[p]]);
            assert(sorted_by_name(s1)[q] == s1[o1[q]]);
            assert(0 <= o1[p] < s1.len() && 0 <= o1[q] < s1.len());
            if p < q {
                assert(o1[p] != o1[q]);
            } else {
                assert(o1[q] != o1[p]);
            }
            assert(p1[p].0 == s1[o1[p]].0@);
            assert(p1[q].0 == s1[o1[q]].0@);
        }
    }
    lemma_sorted_unique(p1, p2, key);
}

/// Two nested block entries with the same nesting mode and item bounds give
/// the same `nested_form`.
proof fn lemma_nested_form_parts(name: Seq<char>, a: NestedBlock, b: NestedBlock)
    requires
        a.nesting == b.nesting,
        a.min_items == b.min_items,
        a.max_items == b.max_items,
    ensures
        nested_form(name, a) == nested_form(name, b),
{
}

/// The order in which a block's maps list their entries does not change the
/// resource text: two blocks with the same description, the same attribute
/// entries and the same nested block entries (name, nesting mode and item
/// bounds), each map holding every name once, give the same text. That
/// every map holds each name once is what [`render_resource`] ensures of
/// any block it is given.
pub proof fn lemma_resource_text_ignores_entry_order(type_id: Seq<char>, b1: Block, b2: Block)
    requires
        b1.description == b2.description,
        names_distinct(attribute_entries(b1.attributes)),
        names_distinct(attribute_entries(b2.attributes)),
        names_distinct(nested_block_entries(b1.nested_blocks)),
        names_distinct(nested_block_entries(b2.nested_blocks)),
        attribute_entries(b1.attributes).map_values(|e: (String, Attribute)| attribute_parts(e)).to_multiset()
            == attribute_entries(b2.attributes).map_values(
            |e: (String, Attribute)| attribute_parts(e),
        ).to_multiset(),
        nested_block_entries(b1.nested_blocks).map_values(
            |e: (String, NestedBlock)| nested_parts(e),
        ).to_multiset() == nested_block_entries(b2.nested_blocks).map_values(
            |e: (String, NestedBlock)| nested_parts(e),
        ).to_multiset(),
    ensures
        resource_text(type_id, b1) == resource_text(type_id, b2),
{
    let ap = |e: (String, Attribute)| attribute_parts(e);
    let np = |e: (String, NestedBlock)| nested_parts(e);
    let a1 = attribute_entries(b1.attributes);
    let a2 = attribute_entries(b2.attributes);
    let n1 = nested_block_entries(b1.nested_blocks);
    let n2 = nested_block_entries(b2.nested_blocks);
    assert(a1.map_values(ap).to_multiset() == a2.map_values(ap).to_multiset());
    assert(n1.map_values(np).to_multiset() == n2.map_values(np).to_multiset());
    lemma_sorted_parts(a1, a2, ap);
    lemma_sorted_parts(n1, n2, np);
    assert(sorted_by_name(a1).map_values(ap).len() == sorted_by_name(a1).len());
    assert(sorted_by_name(a2).map_values(ap).len() == sorted_by_name(a2).len());
    assert(sorted_by_name(n1).map_values(np).len() == sorted_by_name(n1).len());
    assert(sorted_by_name(n2).map_values(np).len() == sorted_by_name(n2).len());
    let sa1 = sorted_by_name(a1);
    let sa2 = sorted_by_name(a2);
    let sn1 = sorted_by_name(n1);
    let sn2 = sorted_by_name(n2);
    assert(sa1.len() == sa2.len());
    assert forall|j: int| 0 <= j < sa1.len() implies attribute_form(sa1[j].0@, sa1[j].1)
        == attribute_form(sa2[j].0@, sa2[j].1) by {
        assert(sa1.map_values(ap)[j] == sa2.map_values(ap)[j]);
    }
    assert(attribute_forms(b1) =~= attribute_forms(b2));
    assert(sn1.len() == sn2.len());
    assert forall|j: int| 0 <= j < sn1.len() implies nested_form(sn1[j].0@, sn1[j].1) == nested_form(
        sn2[j].0@,
        sn2[j].1,
    ) by {
        assert(sn1.map_values(np)[j] == sn2.map_values(np)[j]);
        lemma_nested_form_parts(sn1[j].0@, sn1[j].1, sn2[j].1);
    }
    assert(nested_forms(b1) =~= nested_forms(b2));
    assert(resource_form(type_id, b1) == resource_form(type_id, b2));
}

/// The order in which the resource names come does not change the
/// aggregator text: any rearrangement of the names gives the same text.
pub proof fn lemma_aggregator_text_ignores_order(
    provider: Seq<char>,
    r1: Seq<String>,
    r2: Seq<String>,
)
    requires
        r1.map_values(|r: String| r@).to_multiset() == r2.map_values(|r: String| r@).to_multiset(),
    ensures
        aggregator_text(provider, r1) == aggregator_text(provider, r2),
{
    broadcast use vstd::seq_lib::group_to_multiset_ensures;

    let k1 = r1.map_values(|r: String| r@);
    let k2 = r2.map_values(|r: String| r@);
    assert(k1.len() == k1.to_multiset().len());
    assert(k2.len() == k2.to_multiset().len());
    let o1 = name_order(k1, r1.len());
    let o2 = name_order(k2, r2.len());
    lemma_name_order_sorts(k1, r1.len());
    lemma_name_order_sorts(k2, r2.len());
    lemma_name_order_multiset(k1, k1, r1.len());
    lemma_name_order_multiset(k2, k2, r2.len());
    assert(k1.take(k1.len() as int) =~= k1);
    assert(k2.take(k2.len() as int) =~= k2);
    let s1 = Seq::new(r1.len(), |j: int| k1[name_order(k1, r1.len())[j]]);
    let s2 = Seq::new(r2.len(), |j: int| k2[name_order(k2, r2.len())[j]]);
    let key = |x: Seq<char>| x;
    assert forall|p: int, q: int| 0 <= p < q < s1.len() implies !name_lt(
        key(#[trigger] s1[q]),
        key(#[trigger] s1[p]),
    ) by {}
    assert forall|p: int, q: int| 0 <= p < q < s2.len() implies !name_lt(
        key(#[trigger] s2[q]),
        key(#[trigger] s2[p]),
    ) by {}
    lemma_sorted_unique(s1, s2, key);
    let l1 = Seq::new(r1.len(), |j: int| Form::Kw(kw_body(k1[o1[j]])));
    let l2 = Seq::new(r2.len(), |j: int| Form::Kw(kw_body(k2[o2[j]])));
    assert forall|j: int| 0 <= j < l1.len() implies l1[j] == l2[j] by {
        assert(s1[j] == s2[j]);
    }
    assert(l1 =~= l2);
    assert(aggregator_form(provider, r1) == aggregator_form(provider, r2));
}

// ---------------------------------------------------------------------------
// The generator

/// One file that the generator writes: the provider directory it goes in
/// (below the output directory), its file name and its contents.
pub struct EmittedFile {
    pub dir: String,
    pub file_name: String,
    pub contents: String,
}

impl View for EmittedFile {
    type V = (Seq<char>, Seq<char>, Seq<char>);

    open spec fn view(&self) -> (Seq<char>, Seq<char>, Seq<char>) {
        (self.dir@, self.file_name@, self.contents@)
    }
}

/// The files of one provider, in order: one `<type-id>.tlisp` per resource
/// in the order of its resource map, with the type id made file-safe, then
/// the `_index.tlisp` aggregator; all in the directory named by the
/// provider's short name.
pub open spec fn provider_files(source: Seq<char>, provider: ProviderSchema) -> Seq<
    (Seq<char>, Seq<char>, Seq<char>),
> {
    let dir = short_name(source);
    let resources = block_entries(provider.resource_schemas);
    Seq::new(
        resources.len(),
        |j: int|
            (
                dir,
                file_safe_name(resources[j].0@) + ".tlisp"@,
                resource_text(resources[j].0@, resources[j].1),
            ),
    ).push(
        (
            dir,
            "_index.tlisp"@,
            aggregator_text(dir, resources.map_values(|e: (String, Block)| e.0)),
        ),
    )
}

/// The files of all providers, provider after provider, in the order of the
/// provider map.
pub open spec fn planned_files(providers: Seq<(String, ProviderSchema)>) -> Seq<
    (Seq<char>, Seq<char>, Seq<char>),
>
    decreases providers.len(),
{
    if providers.len() == 0 {
        seq![]
    } else {
        planned_files(providers.drop_last()) + provider_files(
            providers.last().0@,
            providers.last().1,
        )
    }
}

/// One file per resource plus one aggregator per provider.
pub open spec fn file_count(providers: Seq<(String, ProviderSchema)>) -> nat
    decreases providers.len(),
{
    if providers.len() == 0 {
        0
    } else {
        file_count(providers.drop_last()) + block_entries(providers.last().1.resource_schemas).len()
            + 1
    }
}

/// A run writes one `.tlisp` file per resource plus one `_index.tlisp`
/// aggregator per provider; each provider's files end with its aggregator,
/// and every other file is named after its resource, made file-safe, with
/// `.tlisp` appended.
pub proof fn lemma_plan_one_file_per_resource(providers: Seq<(String, ProviderSchema)>)
    ensures
        planned_files(providers).len() == file_count(providers),
        forall|k: int|
            #![trigger provider_files(providers[k].0@, providers[k].1)]
            0 <= k < providers.len() ==> {
                let files = provider_files(providers[k].0@, providers[k].1);
                let resources = block_entries(providers[k].1.resource_schemas);
                &&& files.len() == resources.len() + 1
                &&& files.last() == (
                    short_name(providers[k].0@),
                    "_index.tlisp"@,
                    aggregator_text(
                        short_name(providers[k].0@),
                        resources.map_values(|e: (String, Block)| e.0),
                    ),
                )
                &&& forall|j: int|
                    0 <= j < resources.len() ==> #[trigger] files[j].1 == file_safe_name(
                        resources[j].0@,
                    ) + ".tlisp"@
            },
    decreases providers.len(),
{
    if providers.len() > 0 {
        lemma_plan_one_file_per_resource(providers.drop_last());
        assert forall|k: int|
            #![trigger provider_files(providers[k].0@, providers[k].1)]
            0 <= k < providers.len() - 1 implies provider_files(providers[k].0@, providers[k].1)
            == provider_files(providers.drop_last()[k].0@, providers.drop_last()[k].1) by {
            assert(providers[k] == providers.drop_last()[k]);
        }
    }
}

/// The files of the providers before provider `k`, with those of `k`, are
/// no more than all the files.
proof fn lemma_file_count_prefix(providers: Seq<(String, ProviderSchema)>, k: int)
    requires
        0 <= k < providers.len(),
    ensures
        file_count(providers.take(k)) + block_entries(providers[k].1.resource_schemas).len() + 1
            <= file_count(providers),
    decreases providers.len(),
{
    let rest = providers.drop_last();
    if k == providers.len() - 1 {
        assert(providers.take(k) =~= rest);
    } else {
        lemma_file_count_prefix(rest, k);
        assert(rest.take(k) =~= providers.take(k));
        assert(rest[k] == providers[k]);
    }
}

/// The files of provider `k` stand in the plan right after those of the
/// providers before it.
proof fn lemma_planned_files_of(providers: Seq<(String, ProviderSchema)>, k: int, j: int)
    requires
        0 <= k < providers.len(),
        0 <= j < provider_files(providers[k].0@, providers[k].1).len(),
    ensures
        file_count(providers.take(k)) + j < planned_files(providers).len(),
        planned_files(providers)[file_count(providers.take(k)) + j] == provider_files(
            providers[k].0@,
            providers[k].1,
        )[j],
    decreases providers.len(),
{
    let rest = providers.drop_last();
    lemma_plan_one_file_per_resource(providers);
    lemma_plan_one_file_per_resource(rest);
    if k == providers.len() - 1 {
        assert(providers.take(k) =~= rest);
    } else {
        lemma_planned_files_of(rest, k, j);
        assert(rest.take(k) =~= providers.take(k));
        assert(rest[k] == providers[k]);
    }
}

/// Every resource has its own file in the plan: for provider `k` and the
/// `j`-th entry of its resource map, the plan holds, after the files of the
/// providers before `k`, in the provider's directory, the file named after
/// that entry's type id whose contents are the text of that entry's own
/// block; after the provider's resources comes its aggregator.
pub proof fn lemma_plan_resource_files(providers: Seq<(String, ProviderSchema)>)
    ensures
        forall|k: int, j: int|
            0 <= k < providers.len() && 0 <= j < block_entries(
                providers[k].1.resource_schemas,
            ).len() ==> #[trigger] planned_files(providers)[file_count(providers.take(k)) + j] == (
                short_name(providers[k].0@),
                file_safe_name(block_entries(providers[k].1.resource_schemas)[j].0@) + ".tlisp"@,
                resource_text(
                    block_entries(providers[k].1.resource_schemas)[j].0@,
                    block_entries(providers[k].1.resource_schemas)[j].1,
                ),
            ),
        forall|k: int|
            0 <= k < providers.len() ==> #[trigger] planned_files(providers)[(file_count(
                providers.take(k),
            ) + block_entries(providers[k].1.resource_schemas).len()) as int] == (
                short_name(providers[k].0@),
                "_index.tlisp"@,
                aggregator_text(
                    short_name(providers[k].0@),
                    block_entries(providers[k].1.resource_schemas).map_values(
                        |e: (String, Block)| e.0,
                    ),
                ),
            ),
{
    assert forall|k: int, j: int|
        0 <= k < providers.len() && 0 <= j < block_entries(
            providers[k].1.resource_schemas,
        ).len() implies #[trigger] planned_files(providers)[file_count(providers.take(k)) + j] == (
        short_name(providers[k].0@),
        file_safe_name(block_entries(providers[k].1.resource_schemas)[j].0@) + ".tlisp"@,
        resource_text(
            block_entries(providers[k].1.resource_schemas)[j].0@,
            block_entries(providers[k].1.resource_schemas)[j].1,
        ),
    ) by {
        lemma_planned_files_of(providers, k, j);
    }
    assert forall|k: int| 0 <= k < providers.len() implies #[trigger] planned_files(
        providers,
    )[(file_count(providers.take(k)) + block_entries(providers[k].1.resource_schemas).len()) as int]
        == (
        short_name(providers[k].0@),
        "_index.tlisp"@,
        aggregator_text(
            short_name(providers[k].0@),
            block_entries(providers[k].1.resource_schemas).map_values(|e: (String, Block)| e.0),
        ),
    ) by {
        lemma_planned_files_of(
            providers,
            k,
            block_entries(providers[k].1.resource_schemas).len() as int,
        );
    }
}

/// Generator config and driver. One instance per `forge` run.
pub struct Generator {
    out_dir: PathBuf,
}

impl Generator {
    /// The output directory.
    pub closed spec fn dir(&self) -> PathBuf {
        self.out_dir
    }

    /// A generator that writes below `out_dir`.
    pub fn new(out_dir: PathBuf) -> (g: Self)
        ensures
            g.dir() == out_dir,
    {
        Self { out_dir }
    }

    /// The output directory.
    pub fn out_dir(&self) -> (d: &PathBuf)
        ensures
            *d == self.dir(),
    {
        &self.out_dir
    }

    /// The files that a run writes for `schemas`, relative to the output
    /// directory: one `.tlisp` file per resource plus an aggregator per
    /// provider, in deterministic insertion order (the order of the maps).
    pub fn plan(&self, schemas: &ProviderSchemasFile) -> (files: Vec<EmittedFile>)
        ensures
            files@.map_values(|f: EmittedFile| f@) == planned_files(
                provider_entries(schemas.provider_schemas),
            ),
    {
        let ghost providers = provider_entries(schemas.provider_schemas);
        let mut files: Vec<EmittedFile> = Vec::new();
        let mut count: usize = 0;
        let mut next = provider_at(&schemas.provider_schemas, 0);
        while next.is_some()
            invariant
                providers == provider_entries(schemas.provider_schemas),
                count <= providers.len(),
                count <= files@.len(),
                next is Some <==> count < providers.len(),
                next matches Some((k, p)) ==> (*k, *p) == providers[count as int],
                files@.map_values(|f: EmittedFile| f@) == planned_files(providers.take(count as int)),
            decreases providers.len() - count,
        {
            let (source, provider) = next.unwrap();
            emit_provider(&mut files, source, provider);
            proof {
                assert(provider_files(source@, *provider).len() >= 1);
                assert(files@.map_values(|f: EmittedFile| f@).len() == files@.len());
                assert(files@.len() >= count + 1);
                let t = providers.take(count + 1);
                assert(t.drop_last() =~= providers.take(count as int));
                assert(files@.map_values(|f: EmittedFile| f@) =~= planned_files(t));
            }
            let written = files.len();
            assert(count < written);
            count = count + 1;
            next = provider_at(&schemas.provider_schemas, count);
        }
        assert(providers.take(count as int) =~= providers);
        files
    }
}

/// Appends the files of one provider (see [`provider_files`]).
fn emit_provider(files: &mut Vec<EmittedFile>, source: &String, provider: &ProviderSchema)
    ensures
        final(files)@.map_values(|f: EmittedFile| f@) == old(files)@.map_values(
            |f: EmittedFile| f@,
        ) + provider_files(source@, *provider),
{
    let ghost start = old(files)@.map_values(|f: EmittedFile| f@);
    let ghost resources = block_entries(provider.resource_schemas);
    let ghost dir = short_name(source@);
    let pname = provider_short_name(source.as_str());
    let mut names: Vec<String> = Vec::new();
    let mut next = block_at(&provider.resource_schemas, 0);
    while next.is_some()
        invariant
            resources == block_entries(provider.resource_schemas),
            dir == short_name(source@),
            pname@ == dir,
            names@.len() <= resources.len(),
            next is Some <==> names@.len() < resources.len(),
            next matches Some((k, b)) ==> (*k, *b) == resources[names@.len() as int],
            names@ == resources.take(names@.len() as int).map_values(|e: (String, Block)| e.0),
            files@.map_values(|f: EmittedFile| f@) == start + provider_files(
                source@,
                *provider,
            ).take(names@.len() as int),
        decreases resources.len() - names@.len(),
    {
        let (type_id, block) = next.unwrap();
        let lisp = render_resource(type_id.as_str(), block);
        let mut fname = file_safe(type_id.as_str());
        fname.append(".tlisp");
        let ghost n: int = names@.len() as int;
        let ghost prev = files@.map_values(|f: EmittedFile| f@);
        let entry = EmittedFile { dir: pname.clone(), file_name: fname, contents: lisp };
        assert(entry@ == (dir, file_safe_name(resources[n].0@) + ".tlisp"@, resource_text(resources[n].0@, resources[n].1)));
        files.push(entry);
        assert(files@.map_values(|f: EmittedFile| f@) =~= prev.push(entry@));
        names.push(type_id.clone());
        proof {
            assert(provider_files(source@, *provider)[n] == (
                dir,
                file_safe_name(resources[n].0@) + ".tlisp"@,
                resource_text(resources[n].0@, resources[n].1),
            ));
            assert(files@.map_values(|f: EmittedFile| f@) =~= start + provider_files(
                source@,
                *provider,
            ).take(n + 1));
            assert(names@ =~= resources.take(n + 1).map_values(|e: (String, Block)| e.0));
        }
        next = block_at(&provider.resource_schemas, names.len());
    }
    assert(names@ =~= resources.map_values(|e: (String, Block)| e.0));
    let aggregator = render_aggregator(pname.as_str(), names.as_slice());
    let ghost prev = files@.map_values(|f: EmittedFile| f@);
    let ghost all = provider_files(source@, *provider);
    let entry = EmittedFile {
        dir: pname,
        file_name: String::from_str("_index.tlisp"),
        contents: aggregator,
    };
    assert(entry@ == all[resources.len() as int]);
    files.push(entry);
    assert(files@.map_values(|f: EmittedFile| f@) =~= prev.push(entry@));
    assert(all.take(resources.len() as int).push(entry@) =~= all);
    assert(files@.map_values(|f: EmittedFile| f@) =~= start + all);
}

} // verus!
