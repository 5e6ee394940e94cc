use indexmap::IndexMap;
use lava_forge::{
    render_resource, Attribute, NestedBlock, NestingMode,
    file_safe, provider_short_name, render, render_aggregator, type_id_to_kw_body, AttributeType,
    Block, Generator, JsonValue, NestedBlocks, ProviderSchema, ProviderSchemasFile, SExpr,
};
use std::path::PathBuf;

/// Depth of parentheses outside string literals, checking that it never
/// goes below zero; `None` when it does or when a literal is left open.
fn paren_depth(text: &str) -> Option<i64> {
    let mut depth = 0i64;
    let mut in_string = false;
    let mut escaped = false;
    for c in text.chars() {
        if in_string {
            if escaped {
                escaped = false;
            } else if c == '\\' {
                escaped = true;
            } else if c == '"' {
                in_string = false;
            }
        } else if c == '"' {
            in_string = true;
        } else if c == '(' {
            depth += 1;
        } else if c == ')' {
            depth -= 1;
            if depth < 0 {
                return None;
            }
        }
    }
    if in_string { None } else { Some(depth) }
}

#[test]
fn short_name_has_no_slash_and_is_idempotent() {
    for source in ["registry.terraform.io/hashicorp/aws", "a/b/", "aws", "", "x//y"] {
        let name = provider_short_name(source);
        assert!(!name.contains('/'));
        assert!(source.ends_with(name.as_str()));
        assert_eq!(provider_short_name(&name), name);
    }
}

#[test]
fn file_safe_keeps_length_and_is_idempotent() {
    let s = "a b/c.d\u{e9}_-Z9";
    let safe = file_safe(s);
    assert_eq!(safe.chars().count(), s.chars().count());
    assert!(safe.chars().all(|c| c.is_ascii_alphanumeric() || c == '_' || c == '-'));
    assert_eq!(file_safe(&safe), safe);
}

#[test]
fn kw_body_has_no_underscore_or_upper_case_and_is_idempotent() {
    let body = type_id_to_kw_body("AWS_Security_Group");
    assert_eq!(body, "aws-security-group");
    assert_eq!(type_id_to_kw_body(&body), body);
}

#[test]
fn names_sort_by_code_point() {
    let text = render_aggregator(
        "p",
        &["b".to_string(), "\u{e9}".to_string(), "B".to_string(), "z".to_string(), "a".to_string()],
    );
    assert!(text.ends_with("(deflava-provider\n  :p\n  :resources\n  (:b :a :b :z :\u{e9}))\n"));
}

#[test]
fn string_literals_escape_every_delimiter() {
    let s = "(\"x\")\\\n\u{7}";
    let text = render(&SExpr::Str(s.to_string()));
    assert_eq!(text, "\"(\\\"x\\\")\\\\\\n\\u0007\"");
    assert_eq!(paren_depth(&text), Some(0));
}

#[test]
fn rendered_forms_balance_their_parentheses() {
    let t = AttributeType::Complex(vec![
        JsonValue::String("object".to_string()),
        JsonValue::Object(vec![(
            "k".to_string(),
            JsonValue::Array(vec![JsonValue::String("list".to_string()), JsonValue::Null]),
        )]),
    ]);
    let e = SExpr::List(vec![
        SExpr::sym("top"),
        SExpr::Str(")(".to_string()),
        t.to_sexpr(),
        SExpr::List(vec![]),
    ]);
    let text = render(&e);
    assert_eq!(paren_depth(&text), Some(0));
    let copy = e.clone();
    assert_eq!(render(&copy), text);
}

#[test]
fn plan_writes_one_file_per_resource_plus_one_aggregator_per_provider() {
    let mut aws = IndexMap::new();
    aws.insert("aws_b".to_string(), Block::default());
    aws.insert("aws_a".to_string(), Block::default());
    let mut provider_schemas = IndexMap::new();
    provider_schemas.insert(
        "hashicorp/aws".to_string(),
        ProviderSchema { resource_schemas: aws, ..ProviderSchema::default() },
    );
    provider_schemas.insert(
        "hashicorp/null".to_string(),
        ProviderSchema {
            provider: Block {
                version: 3,
                description: None,
                attributes: IndexMap::new(),
                nested_blocks: NestedBlocks(IndexMap::new()),
            },
            resource_schemas: IndexMap::new(),
            data_source_schemas: IndexMap::new(),
        },
    );
    let schemas = ProviderSchemasFile { format_version: "1.0".to_string(), provider_schemas };
    let files = Generator::new(PathBuf::from("out")).plan(&schemas);
    let names: Vec<(&str, &str)> =
        files.iter().map(|f| (f.dir.as_str(), f.file_name.as_str())).collect();
    assert_eq!(
        names,
        vec![
            ("aws", "aws_b.tlisp"),
            ("aws", "aws_a.tlisp"),
            ("aws", "_index.tlisp"),
            ("null", "_index.tlisp"),
        ]
    );
    assert!(files[2].contents.ends_with(":resources\n  (:aws-a :aws-b))\n"));
    for f in &files {
        assert_eq!(paren_depth(&f.contents), Some(0));
    }
}

#[test]
fn resource_text_ignores_map_order() {
    let attr = |t: &str| Attribute {
        type_: AttributeType::Primitive(t.to_string()),
        description: None,
        required: true,
        optional: false,
        computed: false,
        sensitive: false,
    };
    let nested = |n: u32| NestedBlock {
        nesting: NestingMode::List,
        block: Box::new(Block::default()),
        min_items: n,
        max_items: None,
    };
    let mut a1 = IndexMap::new();
    a1.insert("b".to_string(), attr("string"));
    a1.insert("a".to_string(), attr("number"));
    let mut a2 = IndexMap::new();
    a2.insert("a".to_string(), attr("number"));
    a2.insert("b".to_string(), attr("string"));
    let mut n1 = IndexMap::new();
    n1.insert("y".to_string(), nested(1));
    n1.insert("x".to_string(), nested(0));
    let mut n2 = IndexMap::new();
    n2.insert("x".to_string(), nested(0));
    n2.insert("y".to_string(), nested(1));
    let b1 = Block { version: 1, description: None, attributes: a1, nested_blocks: NestedBlocks(n1) };
    let b2 = Block { version: 2, description: None, attributes: a2, nested_blocks: NestedBlocks(n2) };
    assert_eq!(render_resource("t", &b1), render_resource("t", &b2));
    let copy = b1.clone();
    assert_eq!(render_resource("t", &copy), render_resource("t", &b1));
}

#[test]
fn aggregator_text_ignores_order() {
    let a = render_aggregator("p", &["c".to_string(), "a".to_string(), "b".to_string()]);
    let b = render_aggregator("p", &["b".to_string(), "c".to_string(), "a".to_string()]);
    assert_eq!(a, b);
}

#[test]
fn json_clone_is_equal() {
    let v = JsonValue::Object(vec![("k".to_string(), JsonValue::Array(vec![JsonValue::Bool(true)]))]);
    let t = AttributeType::Complex(vec![v.clone(), v]);
    assert_eq!(render(&t.clone().to_sexpr()), render(&t.to_sexpr()));
}

/// Depth of parentheses outside string literals and bar-quoted atoms;
/// `None` when it goes below zero or a literal is left open.
fn quoted_aware_depth(text: &str) -> Option<i64> {
    let mut depth = 0i64;
    let mut open: Option<char> = None;
    let mut escaped = false;
    for c in text.chars() {
        match open {
            Some(q) => {
                if escaped {
                    escaped = false;
                } else if c == '\\' {
                    escaped = true;
                } else if c == q {
                    open = None;
                }
            }
            None => {
                if c == '"' || c == '|' {
                    open = Some(c);
                } else if c == '(' {
                    depth += 1;
                } else if c == ')' {
                    depth -= 1;
                    if depth < 0 {
                        return None;
                    }
                }
            }
        }
    }
    if open.is_some() { None } else { Some(depth) }
}

#[test]
fn symbols_with_delimiters_are_bar_quoted() {
    assert_eq!(render(&SExpr::sym("(")), "|(|");
    assert_eq!(render(&SExpr::sym(")")), "|)|");
    assert_eq!(render(&SExpr::sym("a b")), "|a b|");
    assert_eq!(render(&SExpr::sym("say \"hi\"")), "|say \"hi\"|");
    assert_eq!(render(&SExpr::sym("a|b\\c")), "|a\\|b\\\\c|");
}

#[test]
fn symbols_that_read_as_other_atoms_are_bar_quoted() {
    assert_eq!(render(&SExpr::sym("")), "||");
    assert_eq!(render(&SExpr::sym("12")), "|12|");
    assert_eq!(render(&SExpr::sym("-7")), "|-7|");
    assert_eq!(render(&SExpr::sym("#t")), "|#t|");
    assert_eq!(render(&SExpr::sym(":k")), "|:k|");
    assert_eq!(render(&SExpr::sym("007")), "007");
    assert_eq!(render(&SExpr::sym("-0")), "-0");
    assert_eq!(render(&SExpr::sym("x-1")), "x-1");
}

#[test]
fn keywords_with_delimiters_are_bar_quoted() {
    assert_eq!(render(&SExpr::Kw("a b".to_string())), ":|a b|");
    assert_eq!(render(&SExpr::Kw("(x".to_string())), ":|(x|");
    assert_eq!(render(&SExpr::Kw("".to_string())), ":");
    assert_eq!(render(&SExpr::Kw("12".to_string())), ":12");
}

#[test]
fn render_is_balanced_for_any_names() {
    let e = SExpr::List(vec![
        SExpr::sym("("),
        SExpr::Kw(")) (".to_string()),
        SExpr::Str("((\"".to_string()),
        SExpr::List(vec![SExpr::sym("|"), SExpr::sym("\\"), SExpr::Int(-3)]),
        SExpr::List(vec![
            SExpr::sym("a-rather-long-symbol-name-that-forces-the-list-onto-many-lines"),
            SExpr::sym(")))"),
        ]),
    ]);
    let text = render(&e);
    assert_eq!(quoted_aware_depth(&text), Some(0));
    assert!(text.contains("|)))|"));
    assert!(text.contains("\n"));
}
