use forge_data::value::parse_value;
use forge_data::{DataDecomposer, DataKind, DataTile, Value};

fn number_bits(s: &str) -> Option<u64> {
    s.parse::<f64>().ok().map(f64::to_bits)
}

fn close_to(a: u64, b: u64) -> bool {
    (f64::from_bits(a) - f64::from_bits(b)).abs() < f64::EPSILON
}

fn show(v: &Value) -> String {
    match v {
        Value::Number(b) => format!("{}", f64::from_bits(*b)),
        other => format!("{:?}", other),
    }
}

fn number(v: Option<&Value>) -> Option<f64> {
    match v {
        Some(Value::Number(b)) => Some(f64::from_bits(*b)),
        _ => None,
    }
}

fn parse_csv(input: &str) -> Vec<DataTile> {
    DataDecomposer::parse_csv(input, &number_bits)
}

fn filter(tiles: &[DataTile], field: &str, op: &str, value: &str) -> Vec<DataTile> {
    DataDecomposer::filter(tiles, field, op, value, &number_bits, &close_to)
}

fn number_json(b: u64) -> Option<String> {
    serde_json::Number::from_f64(f64::from_bits(b)).map(|n| n.to_string())
}

fn numbers_of(tiles: &[DataTile], field: &str) -> Vec<f64> {
    DataDecomposer::aggregate_operands(tiles, field, &number_bits)
        .into_iter()
        .map(f64::from_bits)
        .collect()
}

fn json_tiles(input: &str) -> Vec<DataTile> {
    DataDecomposer::parse_json(input, &number_bits)
}

#[test]
fn test_parse_csv_basic() {
    let input = "name,age,city\nAlice,30,NYC\nBob,25,LA";
    let tiles = parse_csv(input);
    assert_eq!(tiles.len(), 2);
    assert_eq!(tiles[0].kind, DataKind::CsvRow);
    assert!(matches!(tiles[0].values.get("name"), Some(Value::Text(s)) if s == "Alice"));
    assert!(matches!(number(tiles[0].values.get("age")), Some(n) if n == 30.0));
}

#[test]
fn test_parse_csv_quoted() {
    let input = "name,desc\nAlice,\"Hello, World\"\nBob,\"He said \"\"hi\"\"\"";
    let tiles = parse_csv(input);
    assert_eq!(tiles.len(), 2);
    assert!(matches!(tiles[0].values.get("desc"), Some(Value::Text(s)) if s == "Hello, World"));
    assert!(matches!(tiles[1].values.get("desc"), Some(Value::Text(s)) if s == "He said \"hi\""));
}

#[test]
fn test_parse_csv_empty() {
    let tiles = parse_csv("");
    assert!(tiles.is_empty());
}

#[test]
fn test_parse_json_array() {
    let input = r#"[{"name":"Alice","age":30},{"name":"Bob","age":25}]"#;
    let tiles = json_tiles(input);
    assert_eq!(tiles.len(), 2);
    assert_eq!(tiles[0].kind, DataKind::JsonNode);
    assert!(matches!(tiles[0].values.get("name"), Some(Value::Text(s)) if s == "Alice"));
}

#[test]
fn test_parse_json_single_object() {
    let input = r#"{"name":"Alice","age":30}"#;
    let tiles = json_tiles(input);
    assert_eq!(tiles.len(), 1);
    assert!(matches!(tiles[0].values.get("name"), Some(Value::Text(s)) if s == "Alice"));
}

#[test]
fn test_parse_json_nested() {
    let input = r#"[{"name":"Alice","addr":{"city":"NYC"}}]"#;
    let tiles = json_tiles(input);
    assert_eq!(tiles.len(), 1);
    assert!(matches!(tiles[0].values.get("addr"), Some(Value::Object(_))));
}

#[test]
fn test_parse_tsv() {
    let input = "name\tage\tcity\nAlice\t30\tNYC\nBob\t25\tLA";
    let tiles = DataDecomposer::parse_tsv(input, &number_bits);
    assert_eq!(tiles.len(), 2);
    assert_eq!(tiles[0].kind, DataKind::TsvRow);
    assert!(matches!(tiles[0].values.get("name"), Some(Value::Text(s)) if s == "Alice"));
    assert!(matches!(number(tiles[0].values.get("age")), Some(n) if n == 30.0));
}

#[test]
fn test_detect_csv() {
    assert_eq!(DataDecomposer::detect_format("a,b\n1,2"), DataKind::CsvRow);
}

#[test]
fn test_detect_json() {
    assert_eq!(DataDecomposer::detect_format("[1,2]"), DataKind::JsonNode);
    assert_eq!(DataDecomposer::detect_format("{\"a\":1}"), DataKind::JsonNode);
}

#[test]
fn test_detect_tsv() {
    assert_eq!(DataDecomposer::detect_format("a\tb\n1\t2"), DataKind::TsvRow);
}

#[test]
fn test_filter_eq() {
    let input = "name,age\nAlice,30\nBob,25\nAlice,35";
    let tiles = parse_csv(input);
    let filtered = filter(&tiles, "name", "eq", "Alice");
    assert_eq!(filtered.len(), 2);
}

#[test]
fn test_filter_gt() {
    let input = "name,age\nAlice,30\nBob,25\nCarol,35";
    let tiles = parse_csv(input);
    let filtered = filter(&tiles, "age", "gt", "28");
    assert_eq!(filtered.len(), 2);
}

#[test]
fn test_filter_contains() {
    let input = "name,city\nAlice,New York\nBob,Los Angeles\nCarol,New Orleans";
    let tiles = parse_csv(input);
    let filtered = filter(&tiles, "city", "contains", "New");
    assert_eq!(filtered.len(), 2);
}

#[test]
fn test_sort_asc() {
    let input = "name,age\nAlice,30\nBob,25\nCarol,35";
    let mut tiles = parse_csv(input);
    let sorted = DataDecomposer::sort(&mut tiles, "age", false);
    assert!(matches!(sorted[0].values.get("name"), Some(Value::Text(s)) if s == "Bob"));
    assert!(matches!(sorted[2].values.get("name"), Some(Value::Text(s)) if s == "Carol"));
}

#[test]
fn test_sort_desc() {
    let input = "name,age\nAlice,30\nBob,25\nCarol,35";
    let mut tiles = parse_csv(input);
    let sorted = DataDecomposer::sort(&mut tiles, "age", true);
    assert!(matches!(sorted[0].values.get("name"), Some(Value::Text(s)) if s == "Carol"));
}

#[test]
fn test_aggregate_sum() {
    let input = "name,score\nAlice,90\nBob,80\nCarol,70";
    let tiles = parse_csv(input);
    assert_eq!(DataDecomposer::aggregation("sum"), forge_data::Aggregation::Sum);
    let sum: f64 = numbers_of(&tiles, "score").iter().sum();
    assert!((sum - 240.0).abs() < f64::EPSILON);
}

#[test]
fn test_aggregate_mean() {
    let input = "name,score\nAlice,90\nBob,80\nCarol,70";
    let tiles = parse_csv(input);
    assert_eq!(DataDecomposer::aggregation("mean"), forge_data::Aggregation::Mean);
    let nums = numbers_of(&tiles, "score");
    let mean = nums.iter().sum::<f64>() / nums.len() as f64;
    assert!((mean - 80.0).abs() < f64::EPSILON);
}

#[test]
fn test_aggregate_count() {
    let input = "name,score\nAlice,90\nBob,80";
    let tiles = parse_csv(input);
    assert_eq!(DataDecomposer::aggregation("count"), forge_data::Aggregation::Count);
    let count = numbers_of(&tiles, "score").len() as f64;
    assert_eq!(count, 2.0);
}

#[test]
fn test_reconstruct_csv() {
    let input = "name,age\nAlice,30\nBob,25";
    let tiles = parse_csv(input);
    let out = DataDecomposer::reconstruct_csv(&tiles, &show);
    // the schema is sorted alphabetically, so the header is "age,name"
    assert!(out.contains("age,name"));
    assert!(out.contains("30,Alice"));
    assert!(out.contains("25,Bob"));
}

#[test]
fn test_schema() {
    let input = "name,age,city\nAlice,30,NYC";
    let tiles = parse_csv(input);
    let schema = DataDecomposer::schema(&tiles);
    assert_eq!(schema, vec!["age", "city", "name"]);
}

#[test]
fn test_stats() {
    let input = "name,age\nAlice,30\nBob,\nCarol,25";
    let tiles = parse_csv(input);
    let stats = DataDecomposer::stats(&tiles);
    assert_eq!(stats.row_count, 3);
    assert_eq!(stats.field_count, 2);
    assert_eq!(*stats.null_counts.get("age").unwrap_or(&0), 1);
}

#[test]
fn test_parse_csv_whitespace_rows() {
    let input = "name,age\n\nAlice,30\n\nBob,25\n";
    let tiles = parse_csv(input);
    assert_eq!(tiles.len(), 2);
}

#[test]
fn test_filter_lt() {
    let input = "name,age\nAlice,30\nBob,25\nCarol,35";
    let tiles = parse_csv(input);
    let filtered = filter(&tiles, "age", "lt", "30");
    assert_eq!(filtered.len(), 1);
    assert!(matches!(filtered[0].values.get("name"), Some(Value::Text(s)) if s == "Bob"));
}

#[test]
fn test_aggregate_min_max() {
    let input = "name,val\nA,10\nB,50\nC,30";
    let tiles = parse_csv(input);
    assert_eq!(DataDecomposer::aggregation("min"), forge_data::Aggregation::Min);
    assert_eq!(DataDecomposer::aggregation("max"), forge_data::Aggregation::Max);
    let nums = numbers_of(&tiles, "val");
    let min = nums.iter().cloned().fold(f64::INFINITY, f64::min);
    let max = nums.iter().cloned().fold(f64::NEG_INFINITY, f64::max);
    assert!((min - 10.0).abs() < f64::EPSILON);
    assert!((max - 50.0).abs() < f64::EPSILON);
}

#[test]
fn test_json_bool_null() {
    let input = r#"[{"active":true,"note":null}]"#;
    let tiles = json_tiles(input);
    assert_eq!(tiles.len(), 1);
    assert!(matches!(tiles[0].values.get("active"), Some(Value::Bool(true))));
    assert!(matches!(tiles[0].values.get("note"), Some(Value::Null)));
}

#[test]
fn test_parse_value_bool_and_null() {
    assert!(matches!(parse_value("true", &number_bits), Value::Bool(true)));
    assert!(matches!(parse_value("FALSE", &number_bits), Value::Bool(false)));
    assert!(matches!(parse_value("", &number_bits), Value::Null));
    assert!(
        matches!(parse_value("42.5", &number_bits), Value::Number(b) if (f64::from_bits(b) - 42.5).abs() < f64::EPSILON)
    );
}

#[test]
fn test_reconstruct_json() {
    let input = r#"[{"name":"Alice","age":30}]"#;
    let tiles = json_tiles(input);
    let out = DataDecomposer::reconstruct_json(&tiles, &number_json);
    let parsed: serde_json::Value = serde_json::from_str(&out).unwrap();
    assert!(parsed.is_array());
    assert_eq!(parsed[0]["name"], "Alice");
}
