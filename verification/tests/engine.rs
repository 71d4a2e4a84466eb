use configy_api::csv::{csv_of_records, infer_columns};
use configy_api::json::json_of_records;
use configy_api::project::{parse_fields, project_value};
use configy_api::response::negotiate_response;
use configy_api::value::{Entry, StructuredValue};
use configy_api::yaml::yaml_of_records;

fn entry(key: &str, value: StructuredValue) -> Entry {
    Entry { key: key.to_string(), value }
}

fn text(s: &str) -> StructuredValue {
    StructuredValue::Text(s.to_string())
}

fn abc_record() -> StructuredValue {
    StructuredValue::Object(vec![
        entry("a", StructuredValue::Number(1)),
        entry("b", text("x")),
        entry("c", StructuredValue::Bool(true)),
    ])
}

#[test]
fn json_rendering_is_compact_and_ordered() {
    let records = vec![abc_record()];
    assert_eq!(json_of_records(&records), "[{\"a\":1,\"b\":\"x\",\"c\":true}]");
}

#[test]
fn json_escapes_quotes_and_newlines() {
    let records = vec![StructuredValue::Object(vec![entry("m", text("he said \"hi\"\n"))])];
    assert_eq!(json_of_records(&records), "[{\"m\":\"he said \\\"hi\\\"\\n\"}]");
}

#[test]
fn json_renders_integer_extremes() {
    let records = vec![
        StructuredValue::Number(-42),
        StructuredValue::Number(0),
        StructuredValue::Number(9223372036854775807),
        StructuredValue::Number(-9223372036854775808),
    ];
    assert_eq!(
        json_of_records(&records),
        "[-42,0,9223372036854775807,-9223372036854775808]"
    );
}

#[test]
fn json_renders_null_arrays_and_nested_objects() {
    let records = vec![StructuredValue::Object(vec![
        entry("n", StructuredValue::Null),
        entry("l", StructuredValue::Array(vec![StructuredValue::Number(1), text("two")])),
        entry("o", StructuredValue::Object(vec![entry("x", StructuredValue::Number(7))])),
    ])];
    assert_eq!(
        json_of_records(&records),
        "[{\"n\":null,\"l\":[1,\"two\"],\"o\":{\"x\":7}}]"
    );
}

#[test]
fn yaml_rendering_is_block_style() {
    let records = vec![abc_record()];
    assert_eq!(yaml_of_records(&records), "- a: 1\n  b: \"x\"\n  c: true\n");
}

#[test]
fn yaml_nests_blocks_and_inlines_empty_collections() {
    let records = vec![StructuredValue::Object(vec![
        entry("outer", StructuredValue::Object(vec![entry("x", StructuredValue::Number(1))])),
        entry(
            "list",
            StructuredValue::Array(vec![StructuredValue::Number(1), StructuredValue::Number(2)]),
        ),
        entry("empty", StructuredValue::Array(vec![])),
        entry("eobj", StructuredValue::Object(vec![])),
    ])];
    assert_eq!(
        yaml_of_records(&records),
        "- outer:\n    x: 1\n  list:\n    - 1\n    - 2\n  empty: []\n  eobj: {}\n"
    );
}

#[test]
fn yaml_quotes_keys_that_are_not_simple_names() {
    let records = vec![StructuredValue::Object(vec![entry("odd key", StructuredValue::Null)])];
    assert_eq!(yaml_of_records(&records), "- \"odd key\": null\n");
}

#[test]
fn yaml_of_no_records_is_an_empty_flow_list() {
    let records: Vec<StructuredValue> = vec![];
    assert_eq!(yaml_of_records(&records), "[]\n");
}

#[test]
fn csv_quotes_cells_that_need_it() {
    let records = vec![StructuredValue::Object(vec![
        entry("v", text("a,b")),
        entry("w", text("say \"hi\"")),
        entry("x", text("line\nbreak")),
    ])];
    let cols = infer_columns(&records);
    assert_eq!(
        csv_of_records(&records, &cols, true),
        "v,w,x\n\"a,b\",\"say \"\"hi\"\"\",\"line\nbreak\"\n"
    );
}

#[test]
fn csv_renders_missing_fields_as_empty_cells() {
    let records = vec![
        StructuredValue::Object(vec![entry("id", text("a")), entry("port", StructuredValue::Number(80))]),
        StructuredValue::Object(vec![entry("id", text("b"))]),
    ];
    let cols = infer_columns(&records);
    assert_eq!(csv_of_records(&records, &cols, true), "id,port\na,80\nb,\n");
}

#[test]
fn csv_column_inference_excludes_array_valued_fields() {
    let records = vec![
        StructuredValue::Object(vec![
            entry("id", text("a")),
            entry("tags", StructuredValue::Array(vec![StructuredValue::Number(1)])),
            entry("port", StructuredValue::Number(80)),
        ]),
        StructuredValue::Object(vec![entry("id", text("b"))]),
    ];
    let cols = infer_columns(&records);
    assert_eq!(cols.len(), 2);
    assert_eq!(cols[0], "id");
    assert_eq!(cols[1], "port");
    assert_eq!(csv_of_records(&records, &cols, true), "id,port\na,80\nb,\n");
}

#[test]
fn projection_is_idempotent_on_a_sample_tree() {
    let v = StructuredValue::Object(vec![
        entry("a", StructuredValue::Number(1)),
        entry("b", StructuredValue::Array(vec![abc_record()])),
        entry("c", StructuredValue::Object(vec![entry("a", text("deep")), entry("d", text("gone"))])),
    ]);
    let names = parse_fields("a,c");
    let once = project_value(&v, &names);
    let twice = project_value(&once, &names);
    assert_eq!(
        json_of_records(&vec![once]),
        json_of_records(&vec![twice])
    );
}

#[test]
fn projection_applies_at_every_depth() {
    let v = StructuredValue::Object(vec![
        entry("a", StructuredValue::Object(vec![entry("a", StructuredValue::Number(1)), entry("b", StructuredValue::Number(2))])),
        entry("b", StructuredValue::Number(3)),
    ]);
    let names = parse_fields("a");
    let projected = project_value(&v, &names);
    assert_eq!(json_of_records(&vec![projected]), "[{\"a\":{\"a\":1}}]");
}

#[test]
fn response_defaults_to_json_when_header_is_absent() {
    let records = vec![abc_record()];
    let (content_type, body) = negotiate_response(None, None, &records);
    assert_eq!(content_type, "application/json");
    assert_eq!(body, "[{\"a\":1,\"b\":\"x\",\"c\":true}]");
}

#[test]
fn response_defaults_to_json_when_nothing_matches() {
    // The exact range is unsatisfiable here, and there is no wildcard
    // to fall back on.
    let records = vec![abc_record()];
    let (content_type, _) = negotiate_response(Some("application/xml"), None, &records);
    assert_eq!(content_type, "application/json");
}

#[test]
fn response_honours_a_wildcard_after_an_unsatisfiable_range() {
    let records = vec![abc_record()];
    let (content_type, _) =
        negotiate_response(Some("application/xml;q=1.0, text/*;q=0.5"), None, &records);
    assert_eq!(content_type, "text/csv");
}

#[test]
fn response_skips_malformed_entries() {
    let records = vec![abc_record()];
    let (content_type, _) = negotiate_response(
        Some("oneinvalid, application/x-yaml;q=0.9, twoinvalid"),
        None,
        &records,
    );
    assert_eq!(content_type, "application/yaml");
}

#[test]
fn csv_header_parameter_suppresses_the_header_row() {
    let records = vec![
        StructuredValue::Object(vec![entry("a", StructuredValue::Number(1)), entry("b", text("x"))]),
        StructuredValue::Object(vec![entry("a", StructuredValue::Number(2)), entry("b", text("y"))]),
    ];
    let (content_type, body) = negotiate_response(Some("text/csv;header=absent"), None, &records);
    assert_eq!(content_type, "text/csv");
    assert_eq!(body, "1,x\n2,y\n");
    // The first line is the first data row, not a header.
    assert_eq!(body.lines().next().unwrap(), "1,x");

    let (_, with_header) = negotiate_response(Some("text/csv"), None, &records);
    assert_eq!(with_header, "a,b\n1,x\n2,y\n");
}

#[test]
fn field_selection_is_symmetric_across_json_and_yaml() {
    let records = vec![abc_record()];
    let (json_type, json_body) = negotiate_response(None, Some("a,c"), &records);
    assert_eq!(json_type, "application/json");
    assert_eq!(json_body, "[{\"a\":1,\"c\":true}]");

    let (yaml_type, yaml_body) =
        negotiate_response(Some("application/x-yaml"), Some("a,c"), &records);
    assert_eq!(yaml_type, "application/yaml");
    assert!(yaml_body.contains("a: 1"));
    assert!(yaml_body.contains("c: true"));
    assert!(!yaml_body.contains("b:"));
}

#[test]
fn explicit_field_list_fixes_csv_column_order() {
    let records = vec![abc_record()];
    let (_, body) = negotiate_response(Some("text/csv"), Some("c,a"), &records);
    assert_eq!(body, "c,a\ntrue,1\n");
}

#[test]
fn empty_field_selection_means_no_filtering() {
    let records = vec![abc_record()];
    let (_, with_none) = negotiate_response(None, None, &records);
    let (_, with_empty) = negotiate_response(None, Some(""), &records);
    let (_, with_blanks) = negotiate_response(None, Some(" , ,"), &records);
    assert_eq!(with_none, with_empty);
    assert_eq!(with_none, with_blanks);
}

#[test]
fn empty_dataset_renders_as_empty_csv() {
    let records: Vec<StructuredValue> = vec![];
    let (content_type, body) = negotiate_response(Some("text/csv"), None, &records);
    assert_eq!(content_type, "text/csv");
    assert_eq!(body, "");
}
