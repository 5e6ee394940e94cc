use indexmap::IndexMap;
use lava_forge::{
    file_safe, nesting_kw, provider_short_name, render, render_aggregator, render_resource,
    type_id_to_kw_body, Attribute, AttributeType, Block, Generator, JsonNumber, JsonValue,
    NestedBlock, NestedBlocks, NestingMode, ProviderSchema, ProviderSchemasFile,
};
use std::path::PathBuf;

fn tiny_aws_schema() -> ProviderSchemasFile {
    let mut attrs = IndexMap::new();
    attrs.insert(
        "cidr_block".to_string(),
        Attribute {
            type_: AttributeType::Primitive("string".to_string()),
            description: Some("CIDR block of the VPC.".to_string()),
            required: true,
            optional: false,
            computed: false,
            sensitive: false,
        },
    );
    attrs.insert(
        "enable_dns_hostnames".to_string(),
        Attribute {
            type_: AttributeType::Primitive("bool".to_string()),
            description: None,
            required: false,
            optional: true,
            computed: false,
            sensitive: false,
        },
    );
    let mut resource_schemas = IndexMap::new();
    resource_schemas.insert(
        "aws_vpc".to_string(),
        Block {
            version: 0,
            description: Some("Provides a VPC resource.".to_string()),
            attributes: attrs,
            nested_blocks: NestedBlocks(IndexMap::new()),
        },
    );
    let mut provider_schemas = IndexMap::new();
    provider_schemas.insert(
        "registry.terraform.io/hashicorp/aws".to_string(),
        ProviderSchema {
            provider: Block::default(),
            resource_schemas,
            data_source_schemas: IndexMap::new(),
        },
    );
    ProviderSchemasFile {
        format_version: "1.0".to_string(),
        provider_schemas,
    }
}

#[test]
fn type_id_to_kw_body_handles_underscores() {
    assert_eq!(type_id_to_kw_body("aws_vpc"), "aws-vpc");
    assert_eq!(type_id_to_kw_body("cidr_block"), "cidr-block");
}

#[test]
fn provider_short_name_strips_registry_prefix() {
    assert_eq!(
        provider_short_name("registry.terraform.io/hashicorp/aws"),
        "aws"
    );
    assert_eq!(provider_short_name("hashicorp/aws"), "aws");
    assert_eq!(provider_short_name("aws"), "aws");
}

#[test]
fn primitive_attribute_type_renders_as_bare_symbol() {
    let t = AttributeType::Primitive("string".to_string());
    let s = t.to_sexpr();
    assert_eq!(render(&s), "string");
}

#[test]
fn complex_attribute_type_renders_as_list_form() {
    let t = AttributeType::Complex(vec![
        JsonValue::String("list".to_string()),
        JsonValue::String("string".to_string()),
    ]);
    let s = t.to_sexpr();
    assert_eq!(render(&s), "(list string)");
}

#[test]
fn json_values_render_by_kind() {
    let t = AttributeType::Complex(vec![
        JsonValue::String("object".to_string()),
        JsonValue::Object(vec![
            ("a".to_string(), JsonValue::Bool(true)),
            (
                "b".to_string(),
                JsonValue::Number(JsonNumber { as_i64: Some(-3), text: "-3".to_string() }),
            ),
        ]),
        JsonValue::Number(JsonNumber { as_i64: None, text: "1.5".to_string() }),
        JsonValue::Null,
        JsonValue::Array(vec![]),
    ]);
    assert_eq!(
        render(&t.to_sexpr()),
        "(object\n  (:a #t :b -3)\n  \"1.5\"\n  nil\n  ())"
    );
}

#[test]
fn default_attribute_type_is_string() {
    let t = AttributeType::default_string();
    assert_eq!(render(&t.to_sexpr()), "string");
}

#[test]
fn provider_short_name_edge_cases() {
    assert_eq!(provider_short_name(""), "");
    assert_eq!(provider_short_name("a/b/"), "");
    assert_eq!(provider_short_name("/x"), "x");
}

#[test]
fn file_safe_replaces_other_characters() {
    assert_eq!(file_safe("aws_vpc-2"), "aws_vpc-2");
    assert_eq!(file_safe("a.b/c d\u{e9}"), "a_b_c_d_");
}

#[test]
fn kw_body_lowercases_ascii_only() {
    assert_eq!(type_id_to_kw_body("AWS_Vpc"), "aws-vpc");
    assert_eq!(type_id_to_kw_body("\u{c9}t\u{e9}"), "\u{c9}t\u{e9}");
}

#[test]
fn nesting_modes_name_their_symbols() {
    assert_eq!(nesting_kw(NestingMode::Single), "single");
    assert_eq!(nesting_kw(NestingMode::Group), "group");
    assert_eq!(nesting_kw(NestingMode::List), "list");
    assert_eq!(nesting_kw(NestingMode::SetOf), "set");
    assert_eq!(nesting_kw(NestingMode::MapOf), "map");
}

#[test]
fn resource_text_is_exact() {
    let schema = tiny_aws_schema();
    let block = schema.provider_schemas.get("registry.terraform.io/hashicorp/aws").unwrap()
        .resource_schemas.get("aws_vpc").unwrap();
    let text = render_resource("aws_vpc", block);
    assert_eq!(
        text,
        ";; aws_vpc.tlisp \u{2014} auto-generated by lava-forge.\n\
         ;; Do NOT edit; re-run lava-forge against the upstream provider schema.\n\n\
         (deflava-resource\n  :aws-vpc\n  :doc\n  \"Provides a VPC resource.\"\n  :attributes\n  \
         ((:cidr-block :type string :required #t :doc \"CIDR block of the VPC.\")\n    \
         (:enable-dns-hostnames :type bool :optional #t)))\n"
    );
}

#[test]
fn attributes_and_nested_blocks_are_sorted_by_name() {
    let mut attrs = IndexMap::new();
    for name in ["zeta", "alpha", "Mid"] {
        attrs.insert(
            name.to_string(),
            Attribute {
                type_: AttributeType::Primitive("string".to_string()),
                description: None,
                required: false,
                optional: false,
                computed: true,
                sensitive: name == "alpha",
            },
        );
    }
    let mut nested = IndexMap::new();
    nested.insert(
        "rule".to_string(),
        NestedBlock {
            nesting: NestingMode::List,
            block: Box::new(Block::default()),
            min_items: 1,
            max_items: Some(3),
        },
    );
    nested.insert(
        "tag".to_string(),
        NestedBlock {
            nesting: NestingMode::SetOf,
            block: Box::new(Block::default()),
            min_items: 0,
            max_items: None,
        },
    );
    let block = Block {
        version: 1,
        description: None,
        attributes: attrs,
        nested_blocks: NestedBlocks(nested),
    };
    let text = render_resource("x_y", &block);
    let body = text.split("\n\n").nth(1).unwrap();
    assert_eq!(
        body,
        "(deflava-resource\n  :x-y\n  :attributes\n  \
         ((:mid :type string :computed #t)\n    \
         (:alpha :type string :computed #t :sensitive #t)\n    \
         (:zeta :type string :computed #t))\n  \
         :nested-blocks\n  \
         ((:rule :mode list :min-items 1 :max-items 3)\n    \
         (:tag :mode set)))\n"
    );
}

#[test]
fn aggregator_lists_resources_sorted() {
    let text = render_aggregator("aws", &["aws_vpc".to_string(), "aws_subnet".to_string()]);
    assert_eq!(
        text,
        ";; _index.tlisp \u{2014} auto-generated by lava-forge.\n\
         ;; Catalog of every resource this provider exposes.\n\n\
         (deflava-provider\n  :aws\n  :resources\n  (:aws-subnet :aws-vpc))\n"
    );
}

#[test]
fn plan_has_one_file_per_resource_plus_aggregator() {
    let generator = Generator::new(PathBuf::from("/tmp/out"));
    assert_eq!(generator.out_dir(), &PathBuf::from("/tmp/out"));
    let files = generator.plan(&tiny_aws_schema());
    assert_eq!(files.len(), 2);
    assert_eq!(files[0].dir, "aws");
    assert_eq!(files[0].file_name, "aws_vpc.tlisp");
    assert!(files[0].contents.contains("deflava-resource"));
    assert!(files[0].contents.contains(":aws-vpc"));
    assert!(files[0].contents.contains(":cidr-block"));
    assert!(files[0].contents.contains(":required #t"));
    assert_eq!(files[1].dir, "aws");
    assert_eq!(files[1].file_name, "_index.tlisp");
    assert!(files[1].contents.contains("deflava-provider"));
    assert!(files[1].contents.contains(":aws"));
    assert!(files[1].contents.contains(":aws-vpc"));
}

#[test]
fn plan_of_empty_provider_has_only_aggregator() {
    let mut provider_schemas = IndexMap::new();
    provider_schemas.insert(
        "hashicorp/null".to_string(),
        ProviderSchema {
            provider: Block::default(),
            resource_schemas: IndexMap::new(),
            data_source_schemas: IndexMap::new(),
        },
    );
    let schemas = ProviderSchemasFile { format_version: "1.0".to_string(), provider_schemas };
    let files = Generator::new(PathBuf::from("o")).plan(&schemas);
    assert_eq!(files.len(), 1);
    assert_eq!(files[0].dir, "null");
    assert_eq!(files[0].file_name, "_index.tlisp");
    assert!(files[0].contents.ends_with("(deflava-provider :null :resources ())\n"));
}
