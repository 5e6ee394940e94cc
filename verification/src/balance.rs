//! Parentheses in rendered text balance: scanned outside string literals
//! and bar-quoted symbols, every rendered form closes each list it opens and
//! never closes one it did not open.

use vstd::prelude::*;

use crate::sexpr::{
    bar_escape_char, bar_escaped, bar_quoted, child_indent, escape_char, escaped, hex_char,
    int_text, is_plain_symbol, is_token_text, joined, kw_text, long_list, nat_text, quoted,
    render_form, short_list, spaces, sym_text, Form,
};

verus! {

/// Where a scan of rendered text stands: in code, inside a string literal
/// (just after a backslash or not), or inside a bar-quoted symbol (likewise).
pub enum ScanMode {
    Code,
    InString,
    StringEscape,
    InBar,
    BarEscape,
}

/// One character of the scan: in code, `(` and `)` change the depth and `"`
/// and `|` open a literal; inside a literal a backslash escapes the next
/// character and the unescaped closing quote or bar ends it.
pub open spec fn scan_step(m: ScanMode, d: int, c: char) -> (ScanMode, int) {
    match m {
        ScanMode::Code => if c == '"' {
            (ScanMode::InString, d)
        } else if c == '|' {
            (ScanMode::InBar, d)
        } else if c == '(' {
            (ScanMode::Code, d + 1)
        } else if c == ')' {
            (ScanMode::Code, d - 1)
        } else {
            (ScanMode::Code, d)
        },
        ScanMode::InString => if c == '\\' {
            (ScanMode::StringEscape, d)
        } else if c == '"' {
            (ScanMode::Code, d)
        } else {
            (ScanMode::InString, d)
        },
        ScanMode::StringEscape => (ScanMode::InString, d),
        ScanMode::InBar => if c == '\\' {
            (ScanMode::BarEscape, d)
        } else if c == '|' {
            (ScanMode::Code, d)
        } else {
            (ScanMode::InBar, d)
        },
        ScanMode::BarEscape => (ScanMode::InBar, d),
    }
}

/// Scans `t` from mode `m` at depth `d`: the mode and depth at the end, and
/// the lowest depth reached on the way.
pub open spec fn scan(t: Seq<char>, m: ScanMode, d: int) -> (ScanMode, int, int)
    decreases t.len(),
{
    if t.len() == 0 {
        (m, d, d)
    } else {
        let (m2, d2) = scan_step(m, d, t[0]);
        let (m3, d3, lo) = scan(t.drop_first(), m2, d2);
        (m3, d3, if d <= lo { d } else { lo })
    }
}

/// Balanced text: scanned from code at depth 0 it ends in code at depth 0
/// and never goes below 0, so every `)` outside literals closes an earlier
/// `(` and every `(` is closed.
pub open spec fn balanced(t: Seq<char>) -> bool {
    let (m, d, lo) = scan(t, ScanMode::Code, 0);
    m == ScanMode::Code && d == 0 && lo >= 0
}

/// Text that, scanned from mode `m` at any depth `d`, ends in mode `m` at
/// depth `d` without going below `d`.
pub open spec fn neutral_in(t: Seq<char>, m: ScanMode, d: int) -> bool {
    let (m2, d2, lo) = scan(t, m, d);
    m2 == m && d2 == d && lo >= d
}

proof fn lemma_scan_concat(a: Seq<char>, b: Seq<char>, m: ScanMode, d: int)
    ensures
        scan(a + b, m, d) == ({
            let (ma, da, la) = scan(a, m, d);
            let (mb, db, lb) = scan(b, ma, da);
            (mb, db, if la <= lb { la } else { lb })
        }),
    decreases a.len(),
{
    if a.len() == 0 {
        assert(a + b =~= b);
        let (mb, db, lb) = scan(b, m, d);
        if b.len() > 0 {
            let (m2, d2) = scan_step(m, d, b[0]);
            let (m3, d3, lo) = scan(b.drop_first(), m2, d2);
            assert(lb <= d);
        }
    } else {
        let (m2, d2) = scan_step(m, d, a[0]);
        assert((a + b)[0] == a[0]);
        assert((a + b).drop_first() =~= a.drop_first() + b);
        lemma_scan_concat(a.drop_first(), b, m2, d2);
    }
}

proof fn lemma_scan_single(c: char, m: ScanMode, d: int)
    ensures
        scan(seq![c], m, d) == ({
            let (m2, d2) = scan_step(m, d, c);
            (m2, d2, if d <= d2 { d } else { d2 })
        }),
{
    assert(seq![c].drop_first() =~= Seq::<char>::empty());
    let (m2, d2) = scan_step(m, d, c);
    assert(scan(Seq::<char>::empty(), m2, d2) == (m2, d2, d2));
}

/// A backslash, any character, then a run neutral inside the literal:
/// neutral inside the literal.
proof fn lemma_escape_neutral(x: char, tail: Seq<char>, m: ScanMode, d: int)
    requires
        m == ScanMode::InString || m == ScanMode::InBar,
        neutral_in(tail, m, d),
    ensures
        neutral_in(seq!['\\', x] + tail, m, d),
{
    let esc = if m == ScanMode::InString {
        ScanMode::StringEscape
    } else {
        ScanMode::BarEscape
    };
    lemma_scan_single('\\', m, d);
    lemma_scan_single(x, esc, d);
    assert(seq!['\\', x] =~= seq!['\\'] + seq![x]);
    lemma_scan_concat(seq!['\\'], seq![x], m, d);
    lemma_scan_concat(seq!['\\', x], tail, m, d);
}

/// Neutral pieces put together are neutral.
proof fn lemma_neutral_concat(a: Seq<char>, b: Seq<char>, m: ScanMode, d: int)
    requires
        neutral_in(a, m, d),
        neutral_in(b, m, d),
    ensures
        neutral_in(a + b, m, d),
{
    lemma_scan_concat(a, b, m, d);
}

/// Text without `(`, `)`, `"`, `|` or a backslash leaves code alone.
proof fn lemma_plain_neutral(t: Seq<char>, d: int)
    requires
        forall|i: int|
            0 <= i < t.len() ==> #[trigger] t[i] != '(' && t[i] != ')' && t[i] != '"' && t[i]
                != '|',
    ensures
        neutral_in(t, ScanMode::Code, d),
    decreases t.len(),
{
    if t.len() > 0 {
        assert forall|i: int| 0 <= i < t.drop_first().len() implies #[trigger] t.drop_first()[i]
            != '(' && t.drop_first()[i] != ')' && t.drop_first()[i] != '"' && t.drop_first()[i]
            != '|' by {
            assert(t.drop_first()[i] == t[i + 1]);
        }
        lemma_plain_neutral(t.drop_first(), d);
    }
}

/// Text without the closing character or a backslash stays inside a
/// literal.
proof fn lemma_literal_run(t: Seq<char>, m: ScanMode, d: int)
    requires
        m == ScanMode::InString || m == ScanMode::InBar,
        forall|i: int|
            0 <= i < t.len() ==> #[trigger] t[i] != '\\' && (m == ScanMode::InString ==> t[i]
                != '"') && (m == ScanMode::InBar ==> t[i] != '|'),
    ensures
        neutral_in(t, m, d),
    decreases t.len(),
{
    if t.len() > 0 {
        assert forall|i: int| 0 <= i < t.drop_first().len() implies #[trigger] t.drop_first()[i]
            != '\\' && (m == ScanMode::InString ==> t.drop_first()[i] != '"') && (m
            == ScanMode::InBar ==> t.drop_first()[i] != '|') by {
            assert(t.drop_first()[i] == t[i + 1]);
        }
        lemma_literal_run(t.drop_first(), m, d);
    }
}

proof fn lemma_escaped_neutral(s: Seq<char>, d: int)
    ensures
        neutral_in(escaped(s), ScanMode::InString, d),
    decreases s.len(),
{
    if s.len() == 0 {
        assert(escaped(s) =~= Seq::<char>::empty());
    } else {
        lemma_escaped_neutral(s.drop_last(), d);
        let c = s.last();
        let e = escape_char(c);
        if e.len() == 1 {
            assert(e == seq![c]);
            lemma_literal_run(e, ScanMode::InString, d);
        } else {
            let tail = e.drop_first().drop_first();
            assert(e[0] == '\\');
            assert(e =~= seq!['\\', e[1]] + tail);
            if e.len() > 2 {
                let v = c as u32;
                assert(tail =~= seq!['0', '0', hex_char((v / 16) as int), hex_char((v % 16) as int)]);
            }
            lemma_literal_run(tail, ScanMode::InString, d);
            lemma_escape_neutral(e[1], tail, ScanMode::InString, d);
        }
        assert(escaped(s) == escaped(s.drop_last()) + e);
        lemma_neutral_concat(escaped(s.drop_last()), e, ScanMode::InString, d);
    }
}

proof fn lemma_bar_escaped_neutral(s: Seq<char>, d: int)
    ensures
        neutral_in(bar_escaped(s), ScanMode::InBar, d),
    decreases s.len(),
{
    if s.len() == 0 {
        assert(bar_escaped(s) =~= Seq::<char>::empty());
    } else {
        lemma_bar_escaped_neutral(s.drop_last(), d);
        let c = s.last();
        let e = bar_escape_char(c);
        if e.len() == 1 {
            assert(e == seq![c]);
            lemma_literal_run(e, ScanMode::InBar, d);
        } else {
            assert(e =~= seq!['\\', c] + Seq::<char>::empty());
            lemma_literal_run(Seq::<char>::empty(), ScanMode::InBar, d);
            lemma_escape_neutral(c, Seq::<char>::empty(), ScanMode::InBar, d);
        }
        assert(bar_escaped(s) == bar_escaped(s.drop_last()) + e);
        lemma_neutral_concat(bar_escaped(s.drop_last()), e, ScanMode::InBar, d);
    }
}

/// A quoted piece: the opening character, a body neutral inside the
/// literal, the closing character.
proof fn lemma_wrapped_neutral(open: char, body: Seq<char>, m: ScanMode, d: int)
    requires
        (open == '"' && m == ScanMode::InString) || (open == '|' && m == ScanMode::InBar),
        neutral_in(body, m, d),
    ensures
        neutral_in(seq![open] + body + seq![open], ScanMode::Code, d),
{
    lemma_scan_single(open, ScanMode::Code, d);
    lemma_scan_single(open, m, d);
    lemma_scan_concat(seq![open], body, ScanMode::Code, d);
    lemma_scan_concat(seq![open] + body, seq![open], ScanMode::Code, d);
}

proof fn lemma_int_text_plain(n: int)
    ensures
        forall|i: int|
            0 <= i < int_text(n).len() ==> #[trigger] int_text(n)[i] != '(' && int_text(n)[i] != ')'
                && int_text(n)[i] != '"' && int_text(n)[i] != '|',
{
    crate::reader::lemma_int_text(n);
}

/// Spaces after a newline leave code alone.
proof fn lemma_sep_neutral(sep: Seq<char>, d: int)
    requires
        forall|i: int| 0 <= i < sep.len() ==> #[trigger] sep[i] == ' ' || sep[i] == '\n',
    ensures
        neutral_in(sep, ScanMode::Code, d),
{
    lemma_plain_neutral(sep, d);
}

proof fn lemma_joined_neutral(items: Seq<Form>, indent: nat, sep: Seq<char>, d: int)
    requires
        forall|i: int| 0 <= i < sep.len() ==> #[trigger] sep[i] == ' ' || sep[i] == '\n',
    ensures
        neutral_in(joined(items, indent, sep), ScanMode::Code, d),
    decreases items, 0int,
{
    if items.len() == 0 {
        assert(joined(items, indent, sep) =~= Seq::<char>::empty());
    } else if items.len() == 1 {
        lemma_render_neutral(items[0], indent, d);
    } else {
        lemma_joined_neutral(items.drop_last(), indent, sep, d);
        lemma_sep_neutral(sep, d);
        lemma_render_neutral(items.last(), indent, d);
        lemma_neutral_concat(joined(items.drop_last(), indent, sep), sep, ScanMode::Code, d);
        lemma_neutral_concat(
            joined(items.drop_last(), indent, sep) + sep,
            render_form(items.last(), indent),
            ScanMode::Code,
            d,
        );
    }
}

/// The text of every form, scanned from code at depth `d`, ends in code at
/// depth `d` and never goes below `d`.
pub proof fn lemma_render_neutral(f: Form, indent: nat, d: int)
    ensures
        neutral_in(render_form(f, indent), ScanMode::Code, d),
    decreases f, 1int,
{
    let r = render_form(f, indent);
    match f {
        Form::Str(s) => {
            lemma_escaped_neutral(s, d);
            lemma_wrapped_neutral('"', escaped(s), ScanMode::InString, d);
            assert(r == quoted(s));
        },
        Form::Sym(s) => {
            if is_plain_symbol(s) {
                assert(r == s);
                assert forall|i: int| 0 <= i < s.len() implies #[trigger] s[i] != '(' && s[i] != ')'
                    && s[i] != '"' && s[i] != '|' by {
                    assert(!crate::sexpr::is_delimiter(s[i]));
                }
                lemma_plain_neutral(s, d);
            } else {
                lemma_bar_escaped_neutral(s, d);
                lemma_wrapped_neutral('|', bar_escaped(s), ScanMode::InBar, d);
            }
        },
        Form::Kw(k) => {
            lemma_plain_neutral(seq![':'], d);
            if is_token_text(k) {
                assert forall|i: int| 0 <= i < k.len() implies #[trigger] k[i] != '(' && k[i] != ')'
                    && k[i] != '"' && k[i] != '|' by {
                    assert(!crate::sexpr::is_delimiter(k[i]));
                }
                lemma_plain_neutral(k, d);
            } else {
                lemma_bar_escaped_neutral(k, d);
                lemma_wrapped_neutral('|', bar_escaped(k), ScanMode::InBar, d);
            }
            lemma_neutral_concat(seq![':'], kw_text(k), ScanMode::Code, d);
        },
        Form::Int(n) => {
            lemma_int_text_plain(n);
            lemma_plain_neutral(int_text(n), d);
        },
        Form::Bool(b) => {
            lemma_plain_neutral(r, d);
        },
        Form::List(items) => {
            if items.len() == 0 {
                assert(r =~= seq!['('] + seq![')']);
                lemma_scan_single('(', ScanMode::Code, d);
                lemma_scan_single(')', ScanMode::Code, d + 1);
                lemma_scan_concat(seq!['('], seq![')'], ScanMode::Code, d);
            } else {
                let ci = child_indent(indent);
                let sep = if crate::sexpr::fits_on_line(items, indent) {
                    seq![' ']
                } else {
                    seq!['\n'] + spaces(ci)
                };
                assert(r == seq!['('] + joined(items, ci, sep) + seq![')']);
                assert forall|i: int| 0 <= i < sep.len() implies #[trigger] sep[i] == ' ' || sep[i]
                    == '\n' by {}
                lemma_joined_neutral(items, ci, sep, d + 1);
                lemma_scan_concat(seq!['('], joined(items, ci, sep), ScanMode::Code, d);
                lemma_scan_concat(seq!['('] + joined(items, ci, sep), seq![')'], ScanMode::Code, d);
                lemma_scan_single('(', ScanMode::Code, d);
                lemma_scan_single(')', ScanMode::Code, d + 1);
            }
        },
    }
}

/// The rendered text of every form is balanced.
pub proof fn lemma_render_balanced(f: Form, indent: nat)
    ensures
        balanced(render_form(f, indent)),
{
    lemma_render_neutral(f, indent, 0);
}

} // verus!
