//! Typed s-expression tree for the emitted tatara-lisp source, and its
//! canonical pretty-printer.
//!
//! Every emitted form is built as an [`SExpr`] value and turned into text by
//! [`render`]; no lisp syntax is assembled by hand elsewhere. String
//! literals are escaped, and symbol and keyword text that could otherwise
//! open or close a list, start a literal, or read as another kind of atom is
//! written between bars (`|like this|`), so malformed s-expressions cannot
//! be produced: the text of every tree has balanced parentheses and reads
//! back as that tree.

use vstd::prelude::*;
use vstd::utf8::encode_utf8;

use crate::text::{chars_of, push_char, utf8_len_within};

verus! {

/// One node of an emitted tatara-lisp tree.
#[derive(Debug, PartialEq)]
pub enum SExpr {
    /// A bare symbol: `deflava-resource`.
    Sym(String),
    /// A keyword, stored without its leading colon: `aws-vpc` renders as `:aws-vpc`.
    Kw(String),
    /// A string literal, escaped when rendered.
    Str(String),
    /// An integer literal.
    Int(i64),
    /// A boolean literal: `#t` / `#f`.
    Bool(bool),
    /// A parenthesized form.
    List(Vec<SExpr>),
}

/// The mathematical value of an [`SExpr`]: the same tree over sequences.
pub enum Form {
    Sym(Seq<char>),
    Kw(Seq<char>),
    Str(Seq<char>),
    Int(int),
    Bool(bool),
    List(Seq<Form>),
}

/// The [`Form`] that an [`SExpr`] denotes.
pub open spec fn form_of(e: SExpr) -> Form
    decreases e,
{
    match e {
        SExpr::Sym(s) => Form::Sym(s@),
        SExpr::Kw(k) => Form::Kw(k@),
        SExpr::Str(s) => Form::Str(s@),
        SExpr::Int(n) => Form::Int(n as int),
        SExpr::Bool(b) => Form::Bool(b),
        SExpr::List(items) => Form::List(
            Seq::new(
                items@.len(),
                |i: int|
                    if 0 <= i < items@.len() {
                        form_of(items@[i])
                    } else {
                        Form::Bool(false)
                    },
            ),
        ),
    }
}

/// The forms of a sequence of s-expressions, element by element.
pub open spec fn forms_of(items: Seq<SExpr>) -> Seq<Form> {
    Seq::new(items.len(), |i: int| form_of(items[i]))
}

pub proof fn lemma_list_form(items: Vec<SExpr>)
    ensures
        form_of(SExpr::List(items)) == Form::List(forms_of(items@)),
{
    let f = form_of(SExpr::List(items));
    assert(f is List);
    let fs = f->List_0;
    assert(fs =~= forms_of(items@));
}

impl View for SExpr {
    type V = Form;

    open spec fn view(&self) -> Form {
        form_of(*self)
    }
}

impl Clone for SExpr {
    /// A copy of the tree.
    fn clone(&self) -> (e: SExpr)
        ensures
            e@ == self@,
        decreases self,
    {
        match self {
            SExpr::Sym(s) => SExpr::Sym(s.clone()),
            SExpr::Kw(k) => SExpr::Kw(k.clone()),
            SExpr::Str(s) => SExpr::Str(s.clone()),
            SExpr::Int(n) => SExpr::Int(*n),
            SExpr::Bool(b) => SExpr::Bool(*b),
            SExpr::List(items) => {
                let mut out: Vec<SExpr> = Vec::new();
                let mut i: usize = 0;
                while i < items.len()
                    invariant
                        i <= items@.len(),
                        *self == SExpr::List(*items),
                        out@.len() == i,
                        forall|j: int| 0 <= j < i ==> (#[trigger] out@[j])@ == items@[j]@,
                    decreases items@.len() - i,
                {
                    proof {
                        assert(decreases_to!(*self => (*self)->List_0));
                    }
                    out.push(items[i].clone());
                    i = i + 1;
                }
                proof {
                    lemma_list_form(out);
                    lemma_list_form(*items);
                    assert(forms_of(out@) =~= forms_of(items@));
                }
                SExpr::List(out)
            },
        }
    }
}

impl SExpr {
    /// A symbol node.
    pub fn sym(s: &str) -> (e: SExpr)
        ensures
            e@ == Form::Sym(s@),
    {
        SExpr::Sym(String::from_str(s))
    }
}

/// The decimal digit `d` (`0 <= d < 10`).
pub open spec fn digit_char(d: int) -> char {
    (48 + d) as char
}

/// The upper-case hexadecimal digit `d` (`0 <= d < 16`).
pub open spec fn hex_char(d: int) -> char {
    if d < 10 {
        (48 + d) as char
    } else {
        (55 + d) as char
    }
}

/// Decimal digits of a natural number, without leading zeros.
pub open spec fn nat_text(n: nat) -> Seq<char>
    decreases n,
{
    if n < 10 {
        seq![digit_char(n as int)]
    } else {
        nat_text(n / 10).push(digit_char((n % 10) as int))
    }
}

/// Decimal text of an integer, with a leading `-` when negative.
pub open spec fn int_text(n: int) -> Seq<char> {
    if n < 0 {
        seq!['-'] + nat_text((-n) as nat)
    } else {
        nat_text(n as nat)
    }
}

/// How one character of a string literal is written between the quotes.
pub open spec fn escape_char(c: char) -> Seq<char> {
    if c == '\\' {
        seq!['\\', '\\']
    } else if c == '"' {
        seq!['\\', '"']
    } else if c == '\n' {
        seq!['\\', 'n']
    } else if c == '\r' {
        seq!['\\', 'r']
    } else if c == '\t' {
        seq!['\\', 't']
    } else if (c as u32) < 0x20 {
        seq!['\\', 'u', '0', '0', hex_char(((c as u32) / 16) as int), hex_char(((c as u32) % 16) as int)]
    } else {
        seq![c]
    }
}

/// The escaped body of a string literal.
pub open spec fn escaped(s: Seq<char>) -> Seq<char>
    decreases s.len(),
{
    if s.len() == 0 {
        seq![]
    } else {
        escaped(s.drop_last()) + escape_char(s.last())
    }
}

/// A string literal: the escaped text between double quotes.
pub open spec fn quoted(s: Seq<char>) -> Seq<char> {
    seq!['"'] + escaped(s) + seq!['"']
}

// ---------------------------------------------------------------------------
// Atoms

/// Characters that end a bare atom: whitespace, parentheses, the string
/// quote and the bar that quotes a symbol.
pub open spec fn is_delimiter(c: char) -> bool {
    c == ' ' || c == '\n' || c == '(' || c == ')' || c == '"' || c == '|'
}

pub open spec fn is_digit(c: char) -> bool {
    '0' <= c && c <= '9'
}

/// The number that a string of decimal digits spells.
pub open spec fn digits_value(s: Seq<char>) -> int
    decreases s.len(),
{
    if s.len() == 0 {
        0
    } else {
        10 * digits_value(s.drop_last()) + (s.last() as int - 48)
    }
}

/// A natural number in canonical decimal: digits only, no leading zero.
pub open spec fn parse_nat(s: Seq<char>) -> Option<nat> {
    if s.len() > 0 && (forall|i: int| 0 <= i < s.len() ==> is_digit(#[trigger] s[i])) && (s.len()
        == 1 || s[0] != '0') {
        Some(digits_value(s) as nat)
    } else {
        None
    }
}

/// An integer in canonical decimal: a natural number, or `-` and a positive
/// one.
pub open spec fn parse_int(s: Seq<char>) -> Option<int> {
    if s.len() > 0 && s[0] == '-' {
        match parse_nat(s.drop_first()) {
            Some(v) => if v > 0 {
                Some(-v)
            } else {
                None
            },
            None => None,
        }
    } else {
        match parse_nat(s) {
            Some(v) => Some(v as int),
            None => None,
        }
    }
}

/// What an atom token means: `:k` a keyword, `#t` / `#f` a boolean, a
/// canonical decimal an integer, anything else a symbol.
pub open spec fn atom_form(tok: Seq<char>) -> Form {
    if tok.len() > 0 && tok[0] == ':' {
        Form::Kw(tok.drop_first())
    } else if tok == seq!['#', 't'] {
        Form::Bool(true)
    } else if tok == seq!['#', 'f'] {
        Form::Bool(false)
    } else {
        match parse_int(tok) {
            Some(n) => Form::Int(n),
            None => Form::Sym(tok),
        }
    }
}

/// Text that holds no delimiter.
pub open spec fn is_token_text(s: Seq<char>) -> bool {
    forall|i: int| 0 <= i < s.len() ==> !is_delimiter(#[trigger] s[i])
}

/// A symbol written bare: a non-empty token that does not read as a
/// keyword, boolean or integer.
pub open spec fn is_plain_symbol(s: Seq<char>) -> bool {
    s.len() > 0 && is_token_text(s) && atom_form(s) == Form::Sym(s)
}

/// How one character stands between the bars of a quoted symbol: `|` and
/// `\\` behind a backslash, any other character as itself.
pub open spec fn bar_escape_char(c: char) -> Seq<char> {
    if c == '|' || c == '\\' {
        seq!['\\', c]
    } else {
        seq![c]
    }
}

/// The escaped body of a bar-quoted symbol.
pub open spec fn bar_escaped(s: Seq<char>) -> Seq<char>
    decreases s.len(),
{
    if s.len() == 0 {
        seq![]
    } else {
        bar_escaped(s.drop_last()) + bar_escape_char(s.last())
    }
}

/// A symbol between bars, as Scheme writes `|hello world|`.
pub open spec fn bar_quoted(s: Seq<char>) -> Seq<char> {
    seq!['|'] + bar_escaped(s) + seq!['|']
}

/// The text of a symbol: bare when it is a plain symbol, else between bars,
/// so that no symbol text can open or close a list, start a string, or read
/// as another kind of atom.
pub open spec fn sym_text(s: Seq<char>) -> Seq<char> {
    if is_plain_symbol(s) {
        s
    } else {
        bar_quoted(s)
    }
}

/// The text of a keyword body after its colon: bare when it is a token,
/// else between bars.
pub open spec fn kw_text(k: Seq<char>) -> Seq<char> {
    if is_token_text(k) {
        k
    } else {
        bar_quoted(k)
    }
}

/// `n` spaces.
pub open spec fn spaces(n: nat) -> Seq<char> {
    Seq::new(n, |i: int| ' ')
}

/// Indentation of the children of a list written at `indent`: two more,
/// held at `usize::MAX`, a depth that no tree in memory reaches.
pub open spec fn child_indent(indent: nat) -> nat {
    if indent + 2 <= usize::MAX {
        (indent + 2) as nat
    } else {
        usize::MAX as nat
    }
}

/// A form that is not a non-empty list.
pub open spec fn is_leaf(f: Form) -> bool {
    !(f matches Form::List(inner) && inner.len() > 0)
}

/// The forms rendered at `indent`, with `sep` between neighbours.
pub open spec fn joined(items: Seq<Form>, indent: nat, sep: Seq<char>) -> Seq<char>
    decreases items, 0int,
{
    if items.len() == 0 {
        seq![]
    } else if items.len() == 1 {
        render_form(items[0], indent)
    } else {
        joined(items.drop_last(), indent, sep) + sep + render_form(items.last(), indent)
    }
}

/// A non-empty list on one line: children separated by single spaces.
pub open spec fn short_list(items: Seq<Form>, indent: nat) -> Seq<char>
    decreases items, 1int,
{
    seq!['('] + joined(items, child_indent(indent), seq![' ']) + seq![')']
}

/// A non-empty list across lines: every child after the first on a line of
/// its own, indented by `child_indent(indent)` spaces.
pub open spec fn long_list(items: Seq<Form>, indent: nat) -> Seq<char>
    decreases items, 1int,
{
    let inner = child_indent(indent);
    seq!['('] + joined(items, inner, seq!['\n'] + spaces(inner)) + seq![')']
}

/// Whether a non-empty list is written on one line: all its children are
/// leaves and the one-line text takes at most 80 bytes in UTF-8.
pub open spec fn fits_on_line(items: Seq<Form>, indent: nat) -> bool
    decreases items, 2int,
{
    &&& forall|i: int| 0 <= i < items.len() ==> is_leaf(#[trigger] items[i])
    &&& encode_utf8(short_list(items, indent)).len() <= 80
}

/// The canonical text of a form whose first character stands at
/// indentation `indent`.
pub open spec fn render_form(f: Form, indent: nat) -> Seq<char>
    decreases f, 3int,
{
    match f {
        Form::Sym(s) => sym_text(s),
        Form::Kw(k) => seq![':'] + kw_text(k),
        Form::Str(s) => quoted(s),
        Form::Int(n) => int_text(n),
        Form::Bool(b) => if b {
            seq!['#', 't']
        } else {
            seq!['#', 'f']
        },
        Form::List(items) => if items.len() == 0 {
            seq!['(', ')']
        } else if fits_on_line(items, indent) {
            short_list(items, indent)
        } else {
            long_list(items, indent)
        },
    }
}

/// The line rule: a non-empty list is written on one line, its children
/// separated by single spaces, exactly when all its children are leaves
/// and that line takes at most 80 bytes in UTF-8; otherwise every child
/// after the first goes on a line of its own.
pub proof fn lemma_line_rule(items: Seq<Form>, indent: nat)
    requires
        items.len() > 0,
    ensures
        (forall|i: int| 0 <= i < items.len() ==> is_leaf(#[trigger] items[i])) && encode_utf8(
            short_list(items, indent),
        ).len() <= 80 ==> render_form(Form::List(items), indent) == short_list(items, indent),
        !((forall|i: int| 0 <= i < items.len() ==> is_leaf(#[trigger] items[i])) && encode_utf8(
            short_list(items, indent),
        ).len() <= 80) ==> render_form(Form::List(items), indent) == long_list(items, indent),
{
}

/// One step of [`joined`]: the text of the first `i + 1` forms is that of
/// the first `i`, the separator unless `i == 0`, and form `i`.
proof fn lemma_joined_step(items: Seq<Form>, i: int, indent: nat, sep: Seq<char>)
    requires
        0 <= i < items.len(),
    ensures
        joined(items.take(i + 1), indent, sep) == (if i == 0 {
            render_form(items[0], indent)
        } else {
            joined(items.take(i), indent, sep) + sep + render_form(items[i], indent)
        }),
{
    let t = items.take(i + 1);
    assert(t.drop_last() =~= items.take(i));
    assert(t.last() == items[i]);
    assert(t[0] == items[0]);
}

fn digit(d: u64) -> (c: char)
    requires
        d < 10,
    ensures
        c == digit_char(d as int),
{
    ((d as u8) + 48) as char
}

fn hex_digit(d: u32) -> (c: char)
    requires
        d < 16,
    ensures
        c == hex_char(d as int),
{
    if d < 10 {
        ((d as u8) + 48) as char
    } else {
        ((d as u8) + 55) as char
    }
}

fn write_nat(out: &mut String, n: u64)
    ensures
        final(out)@ == old(out)@ + nat_text(n as nat),
    decreases n,
{
    if n >= 10 {
        write_nat(out, n / 10);
    }
    push_char(out, digit(n % 10));
}

fn write_int(out: &mut String, n: i64)
    ensures
        final(out)@ == old(out)@ + int_text(n as int),
{
    if n < 0 {
        push_char(out, '-');
        let m: u64 = (0i128 - (n as i128)) as u64;
        write_nat(out, m);
        assert(old(out)@ + int_text(n as int) =~= old(out)@ + seq!['-'] + nat_text(m as nat));
    } else {
        write_nat(out, n as u64);
    }
}

/// Writes `s` as a string literal: between double quotes, with backslash,
/// quote, newline, carriage return and tab escaped, and any other control
/// character below `0x20` written as `\u` and four upper-case hex digits.
pub fn write_string(out: &mut String, s: &str)
    ensures
        final(out)@ == old(out)@ + quoted(s@),
{
    push_char(out, '"');
    let ghost start = out@;
    let cs = chars_of(s);
    let mut i: usize = 0;
    while i < cs.len()
        invariant
            i <= cs@.len(),
            cs@ == s@,
            out@ == start + escaped(cs@.take(i as int)),
        decreases cs@.len() - i,
    {
        let c = cs[i];
        let ghost before = out@;
        if c == '\\' {
            push_char(out, '\\');
            push_char(out, '\\');
        } else if c == '"' {
            push_char(out, '\\');
            push_char(out, '"');
        } else if c == '\n' {
            push_char(out, '\\');
            push_char(out, 'n');
        } else if c == '\r' {
            push_char(out, '\\');
            push_char(out, 'r');
        } else if c == '\t' {
            push_char(out, '\\');
            push_char(out, 't');
        } else if (c as u32) < 0x20 {
            let v = c as u32;
            push_char(out, '\\');
            push_char(out, 'u');
            push_char(out, '0');
            push_char(out, '0');
            push_char(out, hex_digit(v / 16));
            push_char(out, hex_digit(v % 16));
        } else {
            push_char(out, c);
        }
        assert(out@ =~= before + escape_char(c));
        assert(cs@.take(i + 1).drop_last() =~= cs@.take(i as int));
        i = i + 1;
    }
    assert(cs@.take(i as int) =~= s@);
    push_char(out, '"');
    assert(out@ =~= old(out)@ + quoted(s@));
}

/// Whether `cs` holds no delimiter.
fn bare_token(cs: &Vec<char>) -> (r: bool)
    ensures
        r == is_token_text(cs@),
{
    let mut i: usize = 0;
    while i < cs.len()
        invariant
            i <= cs@.len(),
            forall|j: int| 0 <= j < i ==> !is_delimiter(#[trigger] cs@[j]),
        decreases cs@.len() - i,
    {
        let c = cs[i];
        if c == ' ' || c == '\n' || c == '(' || c == ')' || c == '"' || c == '|' {
            return false;
        }
        i = i + 1;
    }
    true
}

/// Whether the characters of `cs` from `start` on are a natural number in
/// canonical decimal.
fn canonical_nat(cs: &Vec<char>, start: usize) -> (r: bool)
    requires
        start <= cs@.len(),
    ensures
        r == (parse_nat(cs@.skip(start as int)) is Some),
{
    let ghost t = cs@.skip(start as int);
    if start == cs.len() {
        return false;
    }
    let mut i: usize = start;
    while i < cs.len()
        invariant
            start <= i <= cs@.len(),
            t == cs@.skip(start as int),
            forall|j: int| 0 <= j < i - start ==> is_digit(#[trigger] t[j]),
        decreases cs@.len() - i,
    {
        let c = cs[i];
        if !('0' <= c && c <= '9') {
            assert(t[i - start] == c);
            return false;
        }
        i = i + 1;
    }
    !(cs.len() - start > 1 && cs[start] == '0')
}

proof fn lemma_digits_positive(s: Seq<char>)
    requires
        s.len() > 0,
        forall|i: int| 0 <= i < s.len() ==> is_digit(#[trigger] s[i]),
        s[0] != '0',
    ensures
        digits_value(s) > 0,
    decreases s.len(),
{
    if s.len() > 1 {
        let d = s.drop_last();
        assert(d[0] == s[0]);
        assert forall|i: int| 0 <= i < d.len() implies is_digit(#[trigger] d[i]) by {
            assert(d[i] == s[i]);
        }
        lemma_digits_positive(d);
        assert(is_digit(s.last()));
        assert(s.last() as int >= 48);
        assert(digits_value(s) == 10 * digits_value(d) + (s.last() as int - 48));
    } else {
        assert(s.drop_last().len() == 0);
        assert(digits_value(s.drop_last()) == 0);
        assert(is_digit(s.last()));
        assert(s.last() == s[0]);
        assert(s.last() as int > 48);
        assert(digits_value(s) == 10 * digits_value(s.drop_last()) + (s.last() as int - 48));
    }
}

/// Whether `cs` is an integer in canonical decimal.
fn int_text_exec(cs: &Vec<char>) -> (r: bool)
    ensures
        r == (parse_int(cs@) is Some),
{
    if cs.len() > 0 && cs[0] == '-' {
        assert(cs@.skip(1) =~= cs@.drop_first());
        let nat_ok = canonical_nat(cs, 1);
        if nat_ok {
            let ghost t = cs@.drop_first();
            if cs.len() == 2 && cs[1] == '0' {
                assert(t =~= seq!['0']);
                assert(t.drop_last() =~= Seq::<char>::empty());
                assert(digits_value(t.drop_last()) == 0);
                assert(t.last() == '0');
                assert(digits_value(t) == 10 * digits_value(t.drop_last()) + (t.last() as int - 48));
                assert(digits_value(t) == 0);
                false
            } else {
                assert(t[0] != '0') by {
                    if t.len() == 1 && t[0] == '0' {
                        assert(cs@.len() == 2 && cs@[1] == '0');
                    }
                }
                proof {
                    lemma_digits_positive(t);
                }
                true
            }
        } else {
            false
        }
    } else {
        assert(cs@.skip(0) =~= cs@);
        canonical_nat(cs, 0)
    }
}

/// Whether `cs` is written as a bare symbol.
fn plain_symbol(cs: &Vec<char>) -> (r: bool)
    ensures
        r == is_plain_symbol(cs@),
{
    if cs.len() == 0 || !bare_token(cs) {
        return false;
    }
    if cs[0] == ':' {
        return false;
    }
    if cs.len() == 2 && cs[0] == '#' && (cs[1] == 't' || cs[1] == 'f') {
        if cs[1] == 't' {
            assert(cs@ =~= seq!['#', 't']);
        } else {
            assert(cs@ =~= seq!['#', 'f']);
        }
        return false;
    }
    assert(cs@ != seq!['#', 't'] && cs@ != seq!['#', 'f']) by {
        if cs@ == seq!['#', 't'] || cs@ == seq!['#', 'f'] {
            assert(cs@.len() == 2 && cs@[0] == '#');
        }
    }
    !int_text_exec(cs)
}

/// Appends `cs` between bars, with `|` and `\\` escaped.
fn write_bar_quoted(out: &mut String, cs: &Vec<char>)
    ensures
        final(out)@ == old(out)@ + bar_quoted(cs@),
{
    push_char(out, '|');
    let ghost start = out@;
    let mut i: usize = 0;
    while i < cs.len()
        invariant
            i <= cs@.len(),
            out@ == start + bar_escaped(cs@.take(i as int)),
        decreases cs@.len() - i,
    {
        let c = cs[i];
        let ghost before = out@;
        if c == '|' || c == '\\' {
            push_char(out, '\\');
        }
        push_char(out, c);
        assert(out@ =~= before + bar_escape_char(c));
        assert(cs@.take(i + 1).drop_last() =~= cs@.take(i as int));
        i = i + 1;
    }
    assert(cs@.take(i as int) =~= cs@);
    push_char(out, '|');
    assert(out@ =~= old(out)@ + bar_quoted(cs@));
}

/// Appends the text of a symbol (see [`sym_text`]).
fn write_symbol(out: &mut String, s: &String)
    ensures
        final(out)@ == old(out)@ + sym_text(s@),
{
    let cs = chars_of(s.as_str());
    if plain_symbol(&cs) {
        out.append(s.as_str());
    } else {
        write_bar_quoted(out, &cs);
    }
}

/// Appends the text of a keyword: a colon, then the body (see [`kw_text`]).
fn write_keyword(out: &mut String, k: &String)
    ensures
        final(out)@ == old(out)@ + (seq![':'] + kw_text(k@)),
{
    push_char(out, ':');
    let cs = chars_of(k.as_str());
    if bare_token(&cs) {
        out.append(k.as_str());
    } else {
        write_bar_quoted(out, &cs);
    }
    assert(out@ =~= old(out)@ + (seq![':'] + kw_text(k@)));
}

/// Appends the canonical text of `e`, whose first character stands at
/// indentation `indent`.
pub fn write_expr(out: &mut String, e: &SExpr, indent: usize)
    ensures
        final(out)@ == old(out)@ + render_form(e@, indent as nat),
    decreases e,
{
    match e {
        SExpr::Sym(s) => {
            write_symbol(out, s);
        },
        SExpr::Kw(k) => {
            write_keyword(out, k);
        },
        SExpr::Str(s) => {
            write_string(out, s.as_str());
        },
        SExpr::Int(n) => {
            write_int(out, *n);
        },
        SExpr::Bool(b) => {
            push_char(out, '#');
            if *b {
                push_char(out, 't');
            } else {
                push_char(out, 'f');
            }
            assert(out@ =~= old(out)@ + render_form(e@, indent as nat));
        },
        SExpr::List(items) => {
            write_list(out, items, indent);
            proof {
                lemma_list_form(*items);
            }
        },
    }
}

/// Appends the canonical text of the list `items` at indentation `indent`:
/// `()` when empty; on one line when every child is a leaf and that line
/// takes at most 80 bytes; else one child per line.
pub fn write_list(out: &mut String, items: &Vec<SExpr>, indent: usize)
    ensures
        final(out)@ == old(out)@ + render_form(Form::List(forms_of(items@)), indent as nat),
    decreases items,
{
    let ghost fs = forms_of(items@);
    if items.len() == 0 {
        push_char(out, '(');
        push_char(out, ')');
        assert(out@ =~= old(out)@ + render_form(Form::List(fs), indent as nat));
        return;
    }
    let inner: usize = if indent <= usize::MAX - 2 {
        indent + 2
    } else {
        usize::MAX
    };
    assert(inner as nat == child_indent(indent as nat));
    let mut all_leaves = true;
    let mut i: usize = 0;
    while i < items.len()
        invariant
            i <= items@.len(),
            fs == forms_of(items@),
            all_leaves == (forall|j: int| 0 <= j < i ==> is_leaf(#[trigger] fs[j])),
        decreases items@.len() - i,
    {
        match &items[i] {
            SExpr::List(sub) => {
                if sub.len() > 0 {
                    all_leaves = false;
                }
            },
            _ => {},
        }
        assert(fs[i as int] == form_of(items@[i as int]));
        i = i + 1;
    }
    if all_leaves {
        let mut probe = String::new();
        push_char(&mut probe, '(');
        let mut i: usize = 0;
        while i < items.len()
            invariant
                i <= items@.len(),
                fs == forms_of(items@),
                inner as nat == child_indent(indent as nat),
                probe@ == seq!['('] + joined(fs.take(i as int), inner as nat, seq![' ']),
            decreases items@.len() - i,
        {
            proof {
                lemma_joined_step(fs, i as int, inner as nat, seq![' ']);
            }
            if i > 0 {
                push_char(&mut probe, ' ');
            }
            write_expr(&mut probe, &items[i], inner);
            assert(fs[i as int] == items@[i as int]@);
            i = i + 1;
        }
        assert(fs.take(i as int) =~= fs);
        push_char(&mut probe, ')');
        assert(probe@ == short_list(fs, indent as nat));
        if utf8_len_within(&probe, 80) {
            out.append(probe.as_str());
            return;
        }
    }
    let ghost start = out@;
    push_char(out, '(');
    let ghost sep = seq!['\n'] + spaces(inner as nat);
    let mut i: usize = 0;
    while i < items.len()
        invariant
            i <= items@.len(),
            fs == forms_of(items@),
            inner as nat == child_indent(indent as nat),
            sep == seq!['\n'] + spaces(inner as nat),
            out@ == start + seq!['('] + joined(fs.take(i as int), inner as nat, sep),
        decreases items@.len() - i,
    {
        proof {
            lemma_joined_step(fs, i as int, inner as nat, sep);
        }
        if i > 0 {
            let ghost before = out@;
            push_char(out, '\n');
            let mut k: usize = 0;
            while k < inner
                invariant
                    k <= inner,
                    out@ == before + seq!['\n'] + spaces(k as nat),
                decreases inner - k,
            {
                push_char(out, ' ');
                k = k + 1;
                assert(out@ =~= before + seq!['\n'] + spaces(k as nat));
            }
        }
        write_expr(out, &items[i], inner);
        assert(fs[i as int] == items@[i as int]@);
        i = i + 1;
    }
    assert(fs.take(i as int) =~= fs);
    push_char(out, ')');
    assert(out@ =~= start + long_list(fs, indent as nat));
}

/// Renders a typed s-expression tree to canonical tatara-lisp source.
///
/// Lists wrap their children in `(...)`, separated by whitespace; a list is
/// written on one line when all its children are leaves and the line takes at
/// most 80 bytes, and otherwise with each child after the first on its own
/// indented line. Symbols that would otherwise break the text (empty, or
/// holding whitespace, a parenthesis, a quote or a bar, or reading as
/// another kind of atom) are written between bars, as Scheme does, so the
/// text of every tree is balanced and reads back as that tree.
pub fn render(expr: &SExpr) -> (text: String)
    ensures
        text@ == render_form(expr@, 0),
        crate::balance::balanced(text@),
        crate::reader::read_form(text@) == Some((expr@, text@.len())),
{
    let mut out = String::new();
    write_expr(&mut out, expr, 0);
    assert(out@ =~= render_form(expr@, 0));
    proof {
        crate::balance::lemma_render_balanced(expr@, 0);
        crate::reader::lemma_render_reads_back(expr@, 0, Seq::<char>::empty());
        assert(out@ + Seq::<char>::empty() =~= out@);
    }
    out
}

} // verus!
