use lava_forge::{render, SExpr};

#[test]
fn renders_symbol() {
    assert_eq!(render(&SExpr::sym("deflava-resource")), "deflava-resource");
}

#[test]
fn renders_keyword_with_colon_prefix() {
    assert_eq!(render(&SExpr::Kw("aws-vpc".to_string())), ":aws-vpc");
}

#[test]
fn renders_string_with_escaping() {
    assert_eq!(
        render(&SExpr::Str("Has \"quotes\" and \\backslash".to_string())),
        r#""Has \"quotes\" and \\backslash""#
    );
}

#[test]
fn renders_short_list_inline() {
    let e = SExpr::List(vec![
        SExpr::sym("deflava-resource"),
        SExpr::Kw("aws-vpc".to_string()),
        SExpr::Bool(true),
    ]);
    assert_eq!(render(&e), "(deflava-resource :aws-vpc #t)");
}

#[test]
fn renders_nested_list_multi_line() {
    let inner = SExpr::List(vec![
        SExpr::Kw("cidr-block".to_string()),
        SExpr::Kw("type".to_string()),
        SExpr::sym("string"),
        SExpr::Kw("required".to_string()),
        SExpr::Bool(true),
    ]);
    let outer = SExpr::List(vec![
        SExpr::sym("deflava-resource"),
        SExpr::Kw("aws-vpc".to_string()),
        SExpr::Kw("attributes".to_string()),
        SExpr::List(vec![inner]),
    ]);
    let rendered = render(&outer);
    assert!(rendered.contains("(deflava-resource"));
    assert!(rendered.contains(":cidr-block"));
    assert!(rendered.contains(":required #t"));
}

#[test]
fn empty_list_renders_as_empty_parens() {
    assert_eq!(render(&SExpr::List(vec![])), "()");
}

#[test]
fn bool_renders_scheme_style() {
    assert_eq!(render(&SExpr::Bool(true)), "#t");
    assert_eq!(render(&SExpr::Bool(false)), "#f");
}

#[test]
fn nested_list_layout_is_exact() {
    let inner = SExpr::List(vec![
        SExpr::Kw("cidr-block".to_string()),
        SExpr::Kw("type".to_string()),
        SExpr::sym("string"),
    ]);
    let outer = SExpr::List(vec![
        SExpr::sym("deflava-resource"),
        SExpr::Kw("aws-vpc".to_string()),
        SExpr::Kw("attributes".to_string()),
        SExpr::List(vec![inner]),
    ]);
    assert_eq!(
        render(&outer),
        "(deflava-resource\n  :aws-vpc\n  :attributes\n  ((:cidr-block :type string)))"
    );
}

#[test]
fn deeper_lists_indent_by_two_more() {
    let leaf_list = SExpr::List(vec![SExpr::sym("a"), SExpr::sym("b")]);
    let mid = SExpr::List(vec![SExpr::sym("m"), leaf_list]);
    let top = SExpr::List(vec![SExpr::sym("t"), mid]);
    assert_eq!(render(&top), "(t\n  (m\n    (a b)))");
}

#[test]
fn integers_render_in_decimal() {
    assert_eq!(render(&SExpr::Int(0)), "0");
    assert_eq!(render(&SExpr::Int(42)), "42");
    assert_eq!(render(&SExpr::Int(-7)), "-7");
    assert_eq!(render(&SExpr::Int(i64::MAX)), "9223372036854775807");
    assert_eq!(render(&SExpr::Int(i64::MIN)), "-9223372036854775808");
}

#[test]
fn control_characters_are_escaped() {
    assert_eq!(render(&SExpr::Str("a\nb\tc\rd".to_string())), "\"a\\nb\\tc\\rd\"");
    assert_eq!(render(&SExpr::Str("\u{1}\u{1f}".to_string())), "\"\\u0001\\u001F\"");
    assert_eq!(render(&SExpr::Str("caf\u{e9} \u{2014}".to_string())), "\"caf\u{e9} \u{2014}\"");
}

#[test]
fn eighty_bytes_fit_on_one_line_and_eighty_one_do_not() {
    // "(" + 78 characters + ")" is exactly 80 bytes.
    let fits = SExpr::List(vec![SExpr::sym(&"x".repeat(78))]);
    assert_eq!(render(&fits), format!("({})", "x".repeat(78)));
    let long = SExpr::List(vec![SExpr::sym(&"x".repeat(40)), SExpr::sym(&"y".repeat(39))]);
    assert_eq!(
        render(&long),
        format!("({}\n  {})", "x".repeat(40), "y".repeat(39))
    );
}

#[test]
fn line_width_counts_utf8_bytes() {
    // 40 two-byte characters are 80 bytes, plus the parentheses: 82.
    let wide = SExpr::List(vec![SExpr::sym(&"\u{e9}".repeat(20)), SExpr::sym(&"\u{e9}".repeat(20))]);
    assert_eq!(
        render(&wide),
        format!("({}\n  {})", "\u{e9}".repeat(20), "\u{e9}".repeat(20))
    );
}

#[test]
fn empty_child_list_counts_as_leaf() {
    let e = SExpr::List(vec![SExpr::sym("a"), SExpr::List(vec![])]);
    assert_eq!(render(&e), "(a ())");
}
