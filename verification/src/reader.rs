//! A reader for the rendered text: what the emitted source means to a
//! reader of s-expressions. The laws here say that rendering loses nothing:
//! the text of every form reads back as that form.

use vstd::prelude::*;

use crate::sexpr::{
    atom_form, bar_escape_char, bar_escaped, bar_quoted, child_indent, is_plain_symbol, digit_char, digits_value, escape_char, escaped, hex_char, int_text,
    is_delimiter, is_digit, is_token_text, joined, long_list, parse_int, parse_nat,
    nat_text, quoted, render_form, short_list, spaces, Form,
};

verus! {

// ---------------------------------------------------------------------------
// Reading string literals back

/// The value of a hexadecimal digit of either case.
pub open spec fn hex_value(c: char) -> Option<int> {
    if '0' <= c && c <= '9' {
        Some(c as int - 48)
    } else if 'A' <= c && c <= 'F' {
        Some(c as int - 55)
    } else if 'a' <= c && c <= 'f' {
        Some(c as int - 87)
    } else {
        None
    }
}

/// The character that the escape sequence at the start of `t` (the text
/// just after a backslash) stands for, and how many characters of `t` it
/// takes: `\\`, `\"`, `\n`, `\r`, `\t`, or `\u` with four hex digits
/// naming a code point that is not a surrogate.
pub open spec fn read_escape(t: Seq<char>) -> Option<(char, nat)> {
    if t.len() == 0 {
        None
    } else if t[0] == '\\' {
        Some(('\\', 1))
    } else if t[0] == '"' {
        Some(('"', 1))
    } else if t[0] == 'n' {
        Some(('\n', 1))
    } else if t[0] == 'r' {
        Some(('\r', 1))
    } else if t[0] == 't' {
        Some(('\t', 1))
    } else if t[0] == 'u' && t.len() >= 5 && hex_value(t[1]) is Some && hex_value(t[2]) is Some
        && hex_value(t[3]) is Some && hex_value(t[4]) is Some {
        let v = 4096 * hex_value(t[1])->0 + 256 * hex_value(t[2])->0 + 16 * hex_value(t[3])->0
            + hex_value(t[4])->0;
        if v < 0xD800 || 0xE000 <= v {
            Some((v as char, 5))
        } else {
            None
        }
    } else {
        None
    }
}

/// Reads the rest of a string literal after its opening quote: the text up
/// to the closing quote, decoded, and how many characters were read, the
/// closing quote included. `None` when the quote never closes, an escape is
/// malformed, or a control character below `0x20` stands unescaped.
pub open spec fn read_string_body(t: Seq<char>) -> Option<(Seq<char>, nat)>
    decreases t.len(),
{
    if t.len() == 0 {
        None
    } else if t[0] == '"' {
        Some((seq![], 1))
    } else if t[0] == '\\' {
        match read_escape(t.drop_first()) {
            Some((c, w)) => if 1 + w <= t.len() {
                match read_string_body(t.skip((1 + w) as int)) {
                    Some((rest, n)) => Some((seq![c] + rest, n + 1 + w)),
                    None => None,
                }
            } else {
                None
            },
            None => None,
        }
    } else if (t[0] as u32) < 0x20 {
        None
    } else {
        match read_string_body(t.drop_first()) {
            Some((rest, n)) => Some((seq![t[0]] + rest, n + 1)),
            None => None,
        }
    }
}

/// Reads a string literal at the start of `t`: its decoded text and how
/// many characters it takes.
pub open spec fn read_string(t: Seq<char>) -> Option<(Seq<char>, nat)> {
    if t.len() > 0 && t[0] == '"' {
        match read_string_body(t.drop_first()) {
            Some((s, n)) => Some((s, n + 1)),
            None => None,
        }
    } else {
        None
    }
}

proof fn lemma_escaped_concat(a: Seq<char>, b: Seq<char>)
    ensures
        escaped(a + b) == escaped(a) + escaped(b),
    decreases b.len(),
{
    if b.len() == 0 {
        assert(a + b =~= a);
        assert(escaped(a) + escaped(b) =~= escaped(a));
    } else {
        assert((a + b).drop_last() =~= a + b.drop_last());
        assert((a + b).last() == b.last());
        lemma_escaped_concat(a, b.drop_last());
        assert(escaped(a + b) =~= escaped(a) + escaped(b));
    }
}

proof fn lemma_hex_round_trip(d: int)
    requires
        0 <= d < 16,
    ensures
        hex_value(hex_char(d)) == Some(d),
{
}

/// A rendered string literal starts and ends with `"`, holds no control
/// character below `0x20`, and different strings give different literals.
pub proof fn lemma_quoted_shape(s: Seq<char>, t: Seq<char>)
    ensures
        quoted(s).len() >= 2,
        quoted(s)[0] == '"',
        quoted(s).last() == '"',
        forall|i: int| 0 <= i < quoted(s).len() ==> (#[trigger] quoted(s)[i] as u32) >= 0x20,
        quoted(s) == quoted(t) ==> s == t,
{
    lemma_escaped_printable(s);
    let q = quoted(s);
    assert forall|i: int| 0 <= i < q.len() implies (#[trigger] q[i] as u32) >= 0x20 by {
        if 0 < i < q.len() - 1 {
            assert(q[i] == escaped(s)[i - 1]);
        }
    }
    lemma_string_literal_reads_back(s, Seq::<char>::empty());
    lemma_string_literal_reads_back(t, Seq::<char>::empty());
    assert(quoted(s) + Seq::<char>::empty() =~= quoted(s));
    assert(quoted(t) + Seq::<char>::empty() =~= quoted(t));
}

proof fn lemma_escaped_printable(s: Seq<char>)
    ensures
        forall|i: int| 0 <= i < escaped(s).len() ==> (#[trigger] escaped(s)[i] as u32) >= 0x20,
    decreases s.len(),
{
    if s.len() > 0 {
        lemma_escaped_printable(s.drop_last());
        let c = s.last();
        let e = escape_char(c);
        let a = escaped(s.drop_last());
        assert(escaped(s) == a + e);
        if (c as u32) < 0x20 && c != '\n' && c != '\r' && c != '\t' {
            let v = c as u32;
            assert(hex_char((v / 16) as int) as u32 >= 0x20);
            assert(hex_char((v % 16) as int) as u32 >= 0x20);
        }
        assert forall|i: int| 0 <= i < e.len() implies (#[trigger] e[i] as u32) >= 0x20 by {}
        assert forall|i: int| 0 <= i < escaped(s).len() implies (#[trigger] escaped(s)[i] as u32)
            >= 0x20 by {
            if i < a.len() {
                assert(escaped(s)[i] == a[i]);
            } else {
                assert(escaped(s)[i] == e[i - a.len()]);
            }
        }
    }
}

/// Reading one escaped character: it decodes back to `c` and the reading
/// carries on just after it.
proof fn lemma_read_escape_char(c: char, tail: Seq<char>)
    ensures
        read_string_body(escape_char(c) + tail) == (match read_string_body(tail) {
            Some((r, n)) => Some((seq![c] + r, n + escape_char(c).len())),
            None => None,
        }),
{
    let e = escape_char(c);
    let t = e + tail;
    if e.len() == 1 {
        assert(e == seq![c]);
        assert(t[0] == c);
        assert(t.drop_first() =~= tail);
    } else {
        assert(t[0] == '\\');
        let w = (e.len() - 1) as nat;
        assert(t.drop_first() =~= e.drop_first() + tail);
        if (c as u32) < 0x20 && c != '\n' && c != '\r' && c != '\t' {
            let v = c as u32;
            lemma_hex_round_trip((v / 16) as int);
            lemma_hex_round_trip((v % 16) as int);
            assert(hex_value('0') == Some(0int));
            assert(4096 * 0 + 256 * 0 + 16 * ((v / 16) as int) + (v % 16) as int == v as int);
            assert((v as int) as char == c) by {
                vstd::utf8::char_u32_cast(c, v);
            }
        }
        assert(read_escape(t.drop_first()) == Some((c, w)));
        assert(t.skip((1 + w) as int) =~= tail);
    }
}

proof fn lemma_read_escaped(s: Seq<char>, rest: Seq<char>)
    ensures
        read_string_body(escaped(s) + seq!['"'] + rest) == Some((s, (escaped(s).len() + 1) as nat)),
    decreases s.len(),
{
    let t = escaped(s) + seq!['"'] + rest;
    if s.len() == 0 {
        assert(escaped(s) =~= Seq::<char>::empty());
        assert(t[0] == '"');
        assert(s =~= Seq::<char>::empty());
    } else {
        let c = s[0];
        let r = s.drop_first();
        assert(s =~= seq![c] + r);
        lemma_escaped_concat(seq![c], r);
        assert(seq![c].drop_last() =~= Seq::<char>::empty());
        assert(seq![c].last() == c);
        assert(escaped(Seq::<char>::empty()) =~= Seq::<char>::empty());
        assert(escaped(seq![c]) =~= escaped(Seq::<char>::empty()) + escape_char(c));
        assert(escaped(seq![c]) =~= escape_char(c));
        let tail = escaped(r) + seq!['"'] + rest;
        assert(t =~= escape_char(c) + tail);
        lemma_read_escaped(r, rest);
        lemma_read_escape_char(c, tail);
        assert(seq![c] + r =~= s);
    }
}

/// A rendered string literal reads back as the string it was made from, and
/// ends exactly where it was written, whatever text follows it.
pub proof fn lemma_string_literal_reads_back(s: Seq<char>, rest: Seq<char>)
    ensures
        read_string(quoted(s) + rest) == Some((s, quoted(s).len())),
{
    let t = quoted(s) + rest;
    assert(t[0] == '"');
    assert(t.drop_first() =~= escaped(s) + seq!['"'] + rest);
    lemma_read_escaped(s, rest);
}

// ---------------------------------------------------------------------------
// Reading forms

/// Whitespace between the children of a list.
pub open spec fn is_space(c: char) -> bool {
    c == ' ' || c == '\n'
}

/// Length of the atom token at the start of `t`.
pub open spec fn token_len(t: Seq<char>) -> nat
    decreases t.len(),
{
    if t.len() == 0 || is_delimiter(t[0]) {
        0
    } else {
        1 + token_len(t.drop_first())
    }
}

/// Length of the whitespace at the start of `t`.
pub open spec fn space_len(t: Seq<char>) -> nat
    decreases t.len(),
{
    if t.len() == 0 || !is_space(t[0]) {
        0
    } else {
        1 + space_len(t.drop_first())
    }
}

/// Reads the rest of a bar-quoted symbol after its opening bar: the text up
/// to the closing bar, with each backslash standing for the character
/// after it, and how many characters were read, the closing bar included.
pub open spec fn read_bar_body(t: Seq<char>) -> Option<(Seq<char>, nat)>
    decreases t.len(),
{
    if t.len() == 0 {
        None
    } else if t[0] == '|' {
        Some((seq![], 1))
    } else if t[0] == '\\' {
        if t.len() >= 2 {
            match read_bar_body(t.skip(2)) {
                Some((rest, n)) => Some((seq![t[1]] + rest, n + 2)),
                None => None,
            }
        } else {
            None
        }
    } else {
        match read_bar_body(t.drop_first()) {
            Some((rest, n)) => Some((seq![t[0]] + rest, n + 1)),
            None => None,
        }
    }
}

/// Reads a bar-quoted symbol at the start of `t`: its text and how many
/// characters it takes.
pub open spec fn read_bar(t: Seq<char>) -> Option<(Seq<char>, nat)> {
    if t.len() > 0 && t[0] == '|' {
        match read_bar_body(t.drop_first()) {
            Some((s, n)) => Some((s, n + 1)),
            None => None,
        }
    } else {
        None
    }
}

/// Reads one form at the start of `t`: the form and how many characters it
/// takes.
pub open spec fn read_form(t: Seq<char>) -> Option<(Form, nat)>
    decreases t.len(), 0int,
{
    if t.len() == 0 {
        None
    } else if t[0] == '(' {
        match read_items(t.drop_first()) {
            Some((fs, n)) => Some((Form::List(fs), n + 1)),
            None => None,
        }
    } else if t[0] == '"' {
        match read_string(t) {
            Some((s, n)) => Some((Form::Str(s), n)),
            None => None,
        }
    } else if t[0] == '|' {
        match read_bar(t) {
            Some((s, n)) => Some((Form::Sym(s), n)),
            None => None,
        }
    } else if t[0] == ':' && t.len() > 1 && t[1] == '|' {
        match read_bar(t.drop_first()) {
            Some((s, n)) => Some((Form::Kw(s), n + 1)),
            None => None,
        }
    } else if is_delimiter(t[0]) {
        None
    } else {
        let n = token_len(t);
        Some((atom_form(t.take(n as int)), n))
    }
}

/// Reads the children of a list after its `(`, whitespace around them
/// skipped, up to and including the closing `)`: the children and how many
/// characters they take.
pub open spec fn read_items(t: Seq<char>) -> Option<(Seq<Form>, nat)>
    decreases t.len(), 1int,
{
    let w = space_len(t);
    if w >= t.len() {
        None
    } else if t[w as int] == ')' {
        Some((seq![], w + 1))
    } else {
        match read_form(t.skip(w as int)) {
            Some((f, n)) => if 1 <= n && w + n <= t.len() {
                match read_items(t.skip((w + n) as int)) {
                    Some((fs, m)) => Some((seq![f] + fs, w + n + m)),
                    None => None,
                }
            } else {
                None
            },
            None => None,
        }
    }
}


proof fn lemma_token_len(a: Seq<char>, b: Seq<char>)
    requires
        is_token_text(a),
    ensures
        token_len(a + b) == a.len() + token_len(b),
    decreases a.len(),
{
    if a.len() > 0 {
        assert((a + b)[0] == a[0]);
        assert((a + b).drop_first() =~= a.drop_first() + b);
        lemma_token_len(a.drop_first(), b);
    } else {
        assert(a + b =~= b);
    }
}

proof fn lemma_space_len(a: Seq<char>, b: Seq<char>)
    requires
        forall|i: int| 0 <= i < a.len() ==> is_space(#[trigger] a[i]),
    ensures
        space_len(a + b) == a.len() + space_len(b),
    decreases a.len(),
{
    if a.len() > 0 {
        assert((a + b)[0] == a[0]);
        assert((a + b).drop_first() =~= a.drop_first() + b);
        lemma_space_len(a.drop_first(), b);
    } else {
        assert(a + b =~= b);
    }
}

/// The decimal text of a natural number is canonical and spells it.
proof fn lemma_nat_text(n: nat)
    ensures
        nat_text(n).len() > 0,
        forall|i: int| 0 <= i < nat_text(n).len() ==> is_digit(#[trigger] nat_text(n)[i]),
        digits_value(nat_text(n)) == n,
        n >= 1 ==> nat_text(n)[0] != '0',
        nat_text(n).len() == 1 || nat_text(n)[0] != '0',
    decreases n,
{
    if n >= 10 {
        lemma_nat_text(n / 10);
        let t = nat_text(n);
        assert(t == nat_text(n / 10).push(digit_char((n % 10) as int)));
        assert(t.drop_last() =~= nat_text(n / 10));
        assert(t[0] == nat_text(n / 10)[0]);
        assert(t.last() as int == 48 + (n % 10) as int);
        assert(10 * (n / 10) + n % 10 == n);
        assert(digits_value(t) == 10 * digits_value(t.drop_last()) + (t.last() as int - 48));
    } else {
        let t = nat_text(n);
        assert(t.drop_last() =~= Seq::<char>::empty());
        assert(digits_value(Seq::<char>::empty()) == 0);
        assert(t.last() as int == 48 + n);
        assert(digits_value(t) == 10 * digits_value(t.drop_last()) + (t.last() as int - 48));
    }
}

/// The decimal text of an integer parses back to it, and is an atom token
/// that does not start with `:` or `#`.
pub(crate) proof fn lemma_int_text(n: int)
    ensures
        parse_int(int_text(n)) == Some(n),
        is_token_text(int_text(n)),
        int_text(n).len() > 0,
        int_text(n)[0] != ':' && int_text(n)[0] != '#',
{
    if n < 0 {
        let m = (-n) as nat;
        lemma_nat_text(m);
        let t = int_text(n);
        assert(t == seq!['-'] + nat_text(m));
        assert(t.drop_first() =~= nat_text(m));
        assert forall|i: int| 0 <= i < t.len() implies !is_delimiter(#[trigger] t[i]) by {
            if i > 0 {
                assert(t[i] == nat_text(m)[i - 1]);
            }
        }
    } else {
        lemma_nat_text(n as nat);
        let t = int_text(n);
        assert(t == nat_text(n as nat));
        assert forall|i: int| 0 <= i < t.len() implies !is_delimiter(#[trigger] t[i]) by {
            assert(is_digit(t[i]));
        }
    }
}

/// `joined` read from the front: the first form, then the separator and the
/// rest.
proof fn lemma_joined_front(items: Seq<Form>, indent: nat, sep: Seq<char>)
    requires
        items.len() >= 2,
    ensures
        joined(items, indent, sep) == render_form(items[0], indent) + sep + joined(
            items.drop_first(),
            indent,
            sep,
        ),
    decreases items.len(),
{
    let r = items.drop_first();
    if items.len() == 2 {
        assert(items.drop_last().len() == 1);
        assert(items.drop_last()[0] == items[0]);
        assert(r.len() == 1 && r[0] == items[1]);
        assert(items.last() == items[1]);
        assert(joined(items.drop_last(), indent, sep) == render_form(items[0], indent));
        assert(joined(r, indent, sep) == render_form(items[1], indent));
    } else {
        let d = items.drop_last();
        lemma_joined_front(d, indent, sep);
        assert(d.drop_first() =~= r.drop_last());
        assert(d[0] == items[0]);
        assert(r.last() == items.last());
        assert(r.len() >= 2);
        let a = render_form(items[0], indent);
        let c = joined(d.drop_first(), indent, sep);
        let e = render_form(items.last(), indent);
        assert(joined(items, indent, sep) == joined(d, indent, sep) + sep + e);
        assert(joined(r, indent, sep) == c + sep + e);
        assert(a + sep + c + sep + e =~= a + sep + (c + sep + e));
    }
}

/// The text of a form is non-empty and starts with neither
/// whitespace nor `)`.
proof fn lemma_render_start(f: Form, indent: nat)
    ensures
        render_form(f, indent).len() > 0,
        !is_space(render_form(f, indent)[0]),
        render_form(f, indent)[0] != ')',
{
    match f {
        Form::Int(n) => {
            lemma_int_text(n);
        },
        Form::Sym(s) => {
            if is_plain_symbol(s) {
                assert(!is_delimiter(s[0]));
            }
        },
        Form::List(items) => {
            if items.len() > 0 {
                if crate::sexpr::fits_on_line(items, indent) {
                    assert(render_form(f, indent) == short_list(items, indent));
                } else {
                    assert(render_form(f, indent) == long_list(items, indent));
                }
            }
        },
        _ => {},
    }
}

/// Reading past leading whitespace: the children read as they would without
/// it, the whitespace counted in.
proof fn lemma_read_items_after_space(sp: Seq<char>, u: Seq<char>)
    requires
        forall|i: int| 0 <= i < sp.len() ==> is_space(#[trigger] sp[i]),
        u.len() > 0,
        !is_space(u[0]),
    ensures
        read_items(sp + u) == (match read_items(u) {
            Some((fs, m)) => Some((fs, m + sp.len())),
            None => None,
        }),
{
    lemma_space_len(sp, u);
    let t = sp + u;
    assert(space_len(u) == 0);
    assert(t.skip(sp.len() as int) =~= u);
    assert(u.skip(0) =~= u);
    let w = sp.len();
    if t[w as int] == ')' {
    } else {
        match read_form(u) {
            Some((f, n)) => {
                if 1 <= n && n <= u.len() {
                    assert(t.skip((w + n) as int) =~= u.skip(n as int));
                }
            },
            None => {},
        }
    }
}

/// The children of a list, as rendered with a whitespace separator and
/// followed by `)`, read back as those children.
#[verifier::spinoff_prover]
#[verifier::rlimit(40)]
proof fn lemma_items_read_back(items: Seq<Form>, indent: nat, sep: Seq<char>, rest: Seq<char>)
    requires
        items.len() >= 1,
        sep.len() >= 1,
        forall|i: int| 0 <= i < sep.len() ==> is_space(#[trigger] sep[i]),
    ensures
        read_items(joined(items, indent, sep) + seq![')'] + rest) == Some(
            (items, (joined(items, indent, sep).len() + 1) as nat),
        ),
    decreases items, 0int,
{
    let first = render_form(items[0], indent);
    lemma_render_start(items[0], indent);
    let t = joined(items, indent, sep) + seq![')'] + rest;
    assert(space_len(t) == 0) by {
        if items.len() >= 2 {
            lemma_joined_front(items, indent, sep);
        }
        assert(t[0] == first[0]);
    }
    assert(t.skip(0) =~= t);
    if items.len() == 1 {
        let after = seq![')'] + rest;
        assert(t =~= first + after);
        lemma_render_reads_back(items[0], indent, after);
        assert(t.skip(first.len() as int) =~= after);
        assert(space_len(after) == 0);
        assert(after.skip(0) =~= after);
        assert(items =~= seq![items[0]] + Seq::<Form>::empty());
    } else {
        lemma_joined_front(items, indent, sep);
        let more = items.drop_first();
        let jr = joined(more, indent, sep);
        let after = sep + jr + seq![')'] + rest;
        assert(t =~= first + after);
        assert(after[0] == sep[0]);
        lemma_render_reads_back(items[0], indent, after);
        assert(t.skip(first.len() as int) =~= after);
        lemma_items_read_back(more, indent, sep, rest);
        lemma_render_start(more[0], indent);
        let u = jr + seq![')'] + rest;
        assert(u[0] == render_form(more[0], indent)[0]) by {
            if more.len() >= 2 {
                lemma_joined_front(more, indent, sep);
            }
        }
        assert(after =~= sep + u);
        lemma_read_items_after_space(sep, u);
        assert(items =~= seq![items[0]] + more);
    }
}

/// What may follow a form in rendered text: nothing, whitespace, or the
/// `)` that closes its list.
pub open spec fn ends_form(rest: Seq<char>) -> bool {
    rest.len() == 0 || is_space(rest[0]) || rest[0] == ')'
}

proof fn lemma_bar_escaped_concat(a: Seq<char>, b: Seq<char>)
    ensures
        bar_escaped(a + b) == bar_escaped(a) + bar_escaped(b),
    decreases b.len(),
{
    if b.len() == 0 {
        assert(a + b =~= a);
        assert(bar_escaped(a) + bar_escaped(b) =~= bar_escaped(a));
    } else {
        assert((a + b).drop_last() =~= a + b.drop_last());
        assert((a + b).last() == b.last());
        lemma_bar_escaped_concat(a, b.drop_last());
        assert(bar_escaped(a + b) =~= bar_escaped(a) + bar_escaped(b));
    }
}

proof fn lemma_read_bar_escape_char(c: char, tail: Seq<char>)
    ensures
        read_bar_body(bar_escape_char(c) + tail) == (match read_bar_body(tail) {
            Some((r, n)) => Some((seq![c] + r, n + bar_escape_char(c).len())),
            None => None,
        }),
{
    let e = bar_escape_char(c);
    let t = e + tail;
    if c == '|' || c == '\\' {
        assert(t[0] == '\\' && t[1] == c);
        assert(t.skip(2) =~= tail);
    } else {
        assert(t[0] == c);
        assert(t.drop_first() =~= tail);
    }
}

proof fn lemma_read_bar_escaped(s: Seq<char>, rest: Seq<char>)
    ensures
        read_bar_body(bar_escaped(s) + seq!['|'] + rest) == Some((s, (bar_escaped(s).len() + 1) as nat)),
    decreases s.len(),
{
    let t = bar_escaped(s) + seq!['|'] + rest;
    if s.len() == 0 {
        assert(bar_escaped(s) =~= Seq::<char>::empty());
        assert(t[0] == '|');
        assert(s =~= Seq::<char>::empty());
    } else {
        let c = s[0];
        let r = s.drop_first();
        assert(s =~= seq![c] + r);
        lemma_bar_escaped_concat(seq![c], r);
        assert(seq![c].drop_last() =~= Seq::<char>::empty());
        assert(seq![c].last() == c);
        assert(bar_escaped(Seq::<char>::empty()) =~= Seq::<char>::empty());
        assert(bar_escaped(seq![c]) =~= bar_escaped(Seq::<char>::empty()) + bar_escape_char(c));
        let tail = bar_escaped(r) + seq!['|'] + rest;
        assert(t =~= bar_escape_char(c) + tail);
        lemma_read_bar_escaped(r, rest);
        lemma_read_bar_escape_char(c, tail);
        assert(seq![c] + r =~= s);
    }
}

/// A bar-quoted symbol reads back as its text and ends exactly where it was
/// written, whatever follows it.
pub proof fn lemma_bar_quoted_reads_back(s: Seq<char>, rest: Seq<char>)
    ensures
        read_bar(bar_quoted(s) + rest) == Some((s, bar_quoted(s).len())),
{
    let t = bar_quoted(s) + rest;
    assert(t[0] == '|');
    assert(t.drop_first() =~= bar_escaped(s) + seq!['|'] + rest);
    lemma_read_bar_escaped(s, rest);
}

/// A bare atom's text is a token, read back as that atom.
proof fn lemma_bare_atom_reads_back(f: Form, indent: nat, rest: Seq<char>)
    requires
        f is Int || f is Bool || (f matches Form::Sym(s) && is_plain_symbol(s)) || (f matches Form::Kw(
            k,
        ) && is_token_text(k)),
        ends_form(rest),
    ensures
        read_form(render_form(f, indent) + rest) == Some((f, render_form(f, indent).len())),
{
    let r = render_form(f, indent);
    let t = r + rest;
    let n = r.len();
    match f {
        Form::Int(v) => {
            lemma_int_text(v);
            assert(r == int_text(v));
        },
        Form::Kw(k) => {
            assert(r == seq![':'] + k);
            assert forall|i: int| 0 <= i < r.len() implies !is_delimiter(#[trigger] r[i]) by {
                if i > 0 {
                    assert(r[i] == k[i - 1]);
                }
            }
            assert(r.drop_first() =~= k);
            if k.len() > 0 {
                assert(t[1] == k[0]);
            } else if rest.len() > 0 {
                assert(t[1] == rest[0]);
            }
        },
        Form::Bool(b) => {
            if b {
                assert(r =~= seq!['#', 't']);
            } else {
                assert(r =~= seq!['#', 'f']);
            }
            assert forall|i: int| 0 <= i < r.len() implies !is_delimiter(#[trigger] r[i]) by {}
        },
        Form::Sym(sy) => {
            assert(r == sy);
        },
        _ => {},
    }
    assert(is_token_text(r));
    assert(atom_form(r) == f);
    assert(n > 0 && !is_delimiter(r[0]));
    lemma_token_len(r, rest);
    assert(token_len(rest) == 0);
    assert(t.take(n as int) =~= r);
    assert(t[0] == r[0]);
    assert(read_form(t) == Some((atom_form(t.take(n as int)), n)));
}

/// The text of any form reads back as that form, and ends exactly where it
/// was written, when what follows it is nothing, whitespace or `)`.
pub proof fn lemma_render_reads_back(f: Form, indent: nat, rest: Seq<char>)
    requires
        ends_form(rest),
    ensures
        read_form(render_form(f, indent) + rest) == Some((f, render_form(f, indent).len())),
    decreases f, 1int,
{
    let r = render_form(f, indent);
    let t = r + rest;
    match f {
        Form::Str(s) => {
            lemma_string_literal_reads_back(s, rest);
            assert(r == quoted(s));
            assert(t[0] == '"');
            assert(read_form(t) == Some((f, r.len())));
        },
        Form::List(items) => {
            assert(t[0] == '(');
            if items.len() == 0 {
                assert(t.drop_first() =~= seq![')'] + rest);
                assert(space_len(seq![')'] + rest) == 0);
                assert((seq![')'] + rest)[0] == ')');
                assert(items =~= Seq::<Form>::empty());
                assert(read_form(t) == Some((f, r.len())));
            } else {
                let ci = child_indent(indent);
                let sep = if crate::sexpr::fits_on_line(items, indent) {
                    seq![' ']
                } else {
                    seq!['\n'] + spaces(ci)
                };
                assert(r == seq!['('] + joined(items, ci, sep) + seq![')']);
                assert(t.drop_first() =~= joined(items, ci, sep) + seq![')'] + rest);
                lemma_items_read_back(items, ci, sep, rest);
                assert(read_form(t) == Some((f, r.len())));
            }
        },
        Form::Sym(s) => {
            if is_plain_symbol(s) {
                lemma_bare_atom_reads_back(f, indent, rest);
            } else {
                assert(r == bar_quoted(s));
                lemma_bar_quoted_reads_back(s, rest);
                assert(t[0] == '|');
                assert(read_form(t) == Some((f, r.len())));
            }
        },
        Form::Kw(k) => {
            if is_token_text(k) {
                lemma_bare_atom_reads_back(f, indent, rest);
            } else {
                assert(r == seq![':'] + bar_quoted(k));
                lemma_bar_quoted_reads_back(k, rest);
                assert(t[0] == ':' && t[1] == '|');
                assert(t.drop_first() =~= bar_quoted(k) + rest);
                assert(read_form(t) == Some((f, r.len())));
            }
        },
        _ => {
            lemma_bare_atom_reads_back(f, indent, rest);
        },
    }
}

} // verus!
