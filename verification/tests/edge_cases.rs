use forge_data::csv::split_csv_row;
use forge_data::json_tree::JsonTree;
use forge_data::value::parse_value;
use forge_data::{Aggregation, DataDecomposer, DataKind, DataTile, FieldMap, TextMap, Value};

fn bits(s: &str) -> Option<u64> {
    s.parse::<f64>().ok().map(f64::to_bits)
}

fn near(a: u64, b: u64) -> bool {
    (f64::from_bits(a) - f64::from_bits(b)).abs() < f64::EPSILON
}

fn count(tiles: &[DataTile], field: &str, op: &str, value: &str) -> usize {
    DataDecomposer::filter(tiles, field, op, value, &bits, &near).len()
}

#[test]
fn detect_format_edge_cases() {
    assert_eq!(DataDecomposer::detect_format("  \n\t {\"a\":1}"), DataKind::JsonNode);
    assert_eq!(DataDecomposer::detect_format(""), DataKind::CsvRow);
    assert_eq!(DataDecomposer::detect_format("a\tb,c\n1\t2"), DataKind::CsvRow);
    assert_eq!(DataDecomposer::detect_format("a,b\n1\t2"), DataKind::CsvRow);
    assert_eq!(DataDecomposer::detect_format("\r\na\tb"), DataKind::TsvRow);
    assert_eq!(DataDecomposer::detect_format("a\tb\r\n1,2"), DataKind::TsvRow);
}

#[test]
fn split_csv_row_edge_cases() {
    assert_eq!(split_csv_row(""), vec![""]);
    assert_eq!(split_csv_row(","), vec!["", ""]);
    assert_eq!(split_csv_row(" a , b "), vec!["a", "b"]);
    assert_eq!(split_csv_row("\"a\"b,c"), vec!["ab", "c"]);
    assert_eq!(split_csv_row("\"unterminated, still"), vec!["unterminated, still"]);
    assert_eq!(split_csv_row("x\"\"y"), vec!["xy"]);
}

#[test]
fn parse_value_edge_cases() {
    assert!(matches!(parse_value("  TrUe  ", &bits), Value::Bool(true)));
    assert!(matches!(parse_value(" \t ", &bits), Value::Null));
    assert!(matches!(parse_value("1e3", &bits), Value::Number(b) if f64::from_bits(b) == 1000.0));
    assert!(matches!(parse_value("-0.5", &bits), Value::Number(b) if f64::from_bits(b) == -0.5));
    assert!(matches!(parse_value(" truth ", &bits), Value::Text(s) if s == "truth"));
    assert!(matches!(parse_value("null", &bits), Value::Text(s) if s == "null"));
}

#[test]
fn parse_csv_edge_cases() {
    // duplicate headers: the later column wins; short rows give nulls
    let tiles = DataDecomposer::parse_csv("a,b,a\n1,2,3\n4", &bits);
    assert_eq!(tiles.len(), 2);
    assert_eq!(tiles[0].values.len(), 2);
    assert!(matches!(tiles[0].values.get("a"), Some(Value::Number(b)) if f64::from_bits(*b) == 3.0));
    assert!(matches!(tiles[1].values.get("b"), Some(Value::Null)));
    assert!(matches!(tiles[1].values.get("a"), Some(Value::Null)));
    assert_eq!(tiles[0].schema_key, "a,b,a");
    assert_eq!(tiles[1].index, 1);
    assert!(tiles[0].meta.is_empty());
    // CRLF line endings and blank lines
    let tiles = DataDecomposer::parse_csv("x,y\r\n\r\n  \r\n1,two\r\n", &bits);
    assert_eq!(tiles.len(), 1);
    assert!(matches!(tiles[0].values.get("y"), Some(Value::Text(s)) if s == "two"));
    // only a header
    assert!(DataDecomposer::parse_csv("x,y\n", &bits).is_empty());
    // tiles get distinct identifiers
    let tiles = DataDecomposer::parse_csv("x\n1\n2", &bits);
    assert_ne!(tiles[0].id, tiles[1].id);
}

#[test]
fn parse_tsv_edge_cases() {
    let tiles = DataDecomposer::parse_tsv(" name \t age \n Bob \t 7 \t extra\nAmy", &bits);
    assert_eq!(tiles.len(), 2);
    assert_eq!(tiles[0].schema_key, "name\tage");
    assert!(matches!(tiles[0].values.get("name"), Some(Value::Text(s)) if s == "Bob"));
    assert!(matches!(tiles[0].values.get("age"), Some(Value::Number(b)) if f64::from_bits(*b) == 7.0));
    assert!(matches!(tiles[1].values.get("age"), Some(Value::Null)));
    assert!(DataDecomposer::parse_tsv("\n \n", &bits).is_empty());
}

#[test]
fn filter_edge_cases() {
    let tiles = DataDecomposer::parse_csv("name,ok,note,age\nA,true,,30\nB,false,x,abc\nC,TRUE,null,-1", &bits);
    assert_eq!(count(&tiles, "ok", "eq", "True"), 2);
    assert_eq!(count(&tiles, "ok", "eq", "false"), 1);
    assert_eq!(count(&tiles, "note", "eq", ""), 1);
    assert_eq!(count(&tiles, "note", "eq", "NULL"), 1);
    assert_eq!(count(&tiles, "note", "eq", "null"), 2);
    assert_eq!(count(&tiles, "missing", "eq", "A"), 0);
    assert_eq!(count(&tiles, "name", "like", "A"), 0);
    assert_eq!(count(&tiles, "age", "eq", "30.0"), 1);
    assert_eq!(count(&tiles, "age", "gt", "x"), 0);
    assert_eq!(count(&tiles, "age", "lt", "0"), 1);
    assert_eq!(count(&tiles, "age", "gt", "abb"), 1);
    assert_eq!(count(&tiles, "age", "contains", "3"), 0);
    assert_eq!(count(&tiles, "name", "gt", "A"), 2);
    assert_eq!(count(&tiles, "name", "lt", "B"), 1);
}

#[test]
fn aggregation_names() {
    assert_eq!(DataDecomposer::aggregation("sum"), Aggregation::Sum);
    assert_eq!(DataDecomposer::aggregation("median"), Aggregation::Unknown);
    assert_eq!(DataDecomposer::aggregation("Sum"), Aggregation::Unknown);
}

#[test]
fn aggregate_operands_edge_cases() {
    let mut m = FieldMap::new();
    m.insert(String::from("v"), Value::Text(String::from(" 12")));
    let mut tiles = DataDecomposer::parse_csv("v\n1.5\nabc\ntrue\n\"7\"\n", &bits);
    tiles.push(DataTile {
        id: tiles[0].id,
        kind: DataKind::Custom(String::from("manual")),
        values: m,
        index: 9,
        schema_key: String::from("v"),
        meta: TextMap::new(),
    });
    let nums: Vec<f64> = DataDecomposer::aggregate_operands(&tiles, "v", &bits)
        .into_iter()
        .map(f64::from_bits)
        .collect();
    // "7" in quotes is a number after parsing; " 12" is a text that does not read as a float
    assert_eq!(nums, vec![1.5, 7.0]);
}

#[test]
fn json_edge_cases() {
    assert!(DataDecomposer::tiles_from_json(Value::Number(1.0f64.to_bits())).is_empty());
    assert!(DataDecomposer::tiles_from_json(Value::Array(Vec::new())).is_empty());
    let inner = Value::Array(vec![Value::Null, Value::Bool(true)]);
    let doc = Value::Array(vec![Value::Text(String::from("skip")), inner, Value::Object(FieldMap::new())]);
    let tiles = DataDecomposer::tiles_from_json(doc);
    assert_eq!(tiles.len(), 2);
    assert_eq!(tiles[0].index, 1);
    assert_eq!(tiles[0].schema_key, "items");
    assert!(matches!(tiles[0].values.get("items"), Some(Value::Array(a)) if a.len() == 2));
    assert_eq!(tiles[1].index, 2);
    assert_eq!(tiles[1].schema_key, "");
    assert_eq!(tiles[1].kind, DataKind::JsonNode);
    let single = DataDecomposer::tiles_from_json(Value::Array(vec![Value::Null]));
    assert!(single.is_empty());
}

#[test]
fn reconstruct_csv_edge_cases() {
    let show = |v: &Value| match v {
        Value::Number(b) => format!("{}", f64::from_bits(*b)),
        _ => String::from("?"),
    };
    assert_eq!(DataDecomposer::reconstruct_csv(&[], &show), "");
    let tiles = DataDecomposer::parse_csv("a,b\n\"line\nbreak\",true\n2.50,", &bits);
    let out = DataDecomposer::reconstruct_csv(&tiles, &show);
    assert_eq!(out, "a,b\nline,\n\"break,true\",\n2.5,");
}

#[test]
fn stats_of_nothing() {
    let stats = DataDecomposer::stats(&[]);
    assert_eq!(stats.row_count, 0);
    assert_eq!(stats.field_count, 0);
    assert_eq!(stats.null_counts.len(), 0);
    assert_eq!(stats.type_counts.len(), 0);
}

#[test]
fn kinds_compare_by_variant_and_text() {
    assert_eq!(DataKind::Custom(String::from("a")), DataKind::Custom(String::from("a")));
    assert_ne!(DataKind::Custom(String::from("a")), DataKind::Custom(String::from("b")));
    assert_ne!(DataKind::CsvRow, DataKind::TsvRow);
    assert_eq!(DataKind::YamlNode.copy(), DataKind::YamlNode);
}

#[test]
fn parse_json_refused_text_gives_no_tiles() {
    assert!(DataDecomposer::parse_json("{not json", &bits).is_empty());
    assert!(DataDecomposer::parse_json("", &bits).is_empty());
    assert!(DataDecomposer::parse_json("42", &bits).is_empty());
    assert!(DataDecomposer::parse_json("[1, \"a\", null]", &bits).is_empty());
}

#[test]
fn parse_json_reads_numbers_and_keeps_positions() {
    let tiles = DataDecomposer::parse_json(r#"[7, {"x": 1.5, "n": -3}, [true], {"big": 1e300}]"#, &bits);
    assert_eq!(tiles.len(), 3);
    assert_eq!(tiles[0].index, 1);
    assert!(matches!(tiles[0].values.get("x"), Some(Value::Number(b)) if f64::from_bits(*b) == 1.5));
    assert!(matches!(tiles[0].values.get("n"), Some(Value::Number(b)) if f64::from_bits(*b) == -3.0));
    assert_eq!(tiles[0].schema_key, "n,x");
    assert_eq!(tiles[1].index, 2);
    assert_eq!(tiles[1].schema_key, "items");
    assert!(matches!(tiles[1].values.get("items"), Some(Value::Array(a)) if matches!(a.as_slice(), [Value::Bool(true)])));
    assert_eq!(tiles[2].index, 3);
    assert!(matches!(tiles[2].values.get("big"), Some(Value::Number(b)) if f64::from_bits(*b) == 1e300));
}

#[test]
fn tiles_from_document_builds_values_from_the_tree() {
    assert!(DataDecomposer::tiles_from_document(None, &bits).is_empty());
    let doc = JsonTree::Obj(vec![
        ("a".to_string(), JsonTree::Num("2.5".to_string())),
        ("b".to_string(), JsonTree::Num("oops".to_string())),
        ("a".to_string(), JsonTree::Str("later".to_string())),
        ("c".to_string(), JsonTree::Arr(vec![JsonTree::Null, JsonTree::Bool(false)])),
    ]);
    let tiles = DataDecomposer::tiles_from_document(Some(doc), &bits);
    assert_eq!(tiles.len(), 1);
    assert_eq!(tiles[0].kind, DataKind::JsonNode);
    assert_eq!(tiles[0].values.len(), 3);
    assert!(matches!(tiles[0].values.get("a"), Some(Value::Text(s)) if s == "later"));
    assert!(matches!(tiles[0].values.get("b"), Some(Value::Number(0))));
    assert!(matches!(tiles[0].values.get("c"), Some(Value::Array(a)) if matches!(a.as_slice(), [Value::Null, Value::Bool(false)])));
    assert_eq!(tiles[0].schema_key, "a,b,c");
}

#[test]
fn text_map_insert_replaces_and_appends() {
    let mut m = TextMap::new();
    assert!(m.is_empty());
    m.insert(String::from("a"), String::from("1"));
    m.insert(String::from("b"), String::from("2"));
    m.insert(String::from("a"), String::from("3"));
    assert_eq!(m.len(), 2);
    assert_eq!(m.get("a").map(String::as_str), Some("3"));
    assert_eq!(m.get("b").map(String::as_str), Some("2"));
    assert_eq!(m.get("c"), None);
    assert_eq!(m.entries()[0].0, "a");
    let c = m.copy();
    assert_eq!(c.entries(), m.entries());
}

fn number_json(b: u64) -> Option<String> {
    serde_json::Number::from_f64(f64::from_bits(b)).map(|n| n.to_string())
}

#[test]
fn reconstruct_json_writes_pretty_sorted_objects() {
    let tiles = DataDecomposer::parse_csv("b,a\nx,1.5\n,true", &bits);
    let out = DataDecomposer::reconstruct_json(&tiles, &number_json);
    assert_eq!(
        out,
        "[\n  {\n    \"a\": 1.5,\n    \"b\": \"x\"\n  },\n  {\n    \"a\": true,\n    \"b\": null\n  }\n]"
    );
    assert_eq!(DataDecomposer::reconstruct_json(&[], &number_json), "[]");
}

#[test]
fn reconstruct_json_writes_non_finite_numbers_as_null() {
    let mut m = FieldMap::new();
    m.insert(String::from("x"), Value::Number(f64::NAN.to_bits()));
    m.insert(String::from("y"), Value::Array(vec![Value::Number(2.0f64.to_bits()), Value::Text(String::from("t"))]));
    let tile = DataTile {
        id: DataDecomposer::parse_csv("a\n1", &bits)[0].id,
        kind: DataKind::JsonNode,
        values: m,
        index: 0,
        schema_key: String::new(),
        meta: TextMap::new(),
    };
    let doc = DataDecomposer::json_document_of_tiles(std::slice::from_ref(&tile), &number_json);
    assert!(matches!(&doc, JsonTree::Arr(objs) if matches!(&objs[0], JsonTree::Obj(ms) if ms.len() == 2 && matches!(ms[0].1, JsonTree::Null))));
    let out = DataDecomposer::reconstruct_json(&[tile], &number_json);
    let parsed: serde_json::Value = serde_json::from_str(&out).unwrap();
    assert!(parsed[0]["x"].is_null());
    assert_eq!(parsed[0]["y"][0], 2.0);
    assert_eq!(parsed[0]["y"][1], "t");
}
