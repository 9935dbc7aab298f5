use forge_data::csv::{escape_csv_field, split_csv_row};
use forge_data::value::compare_values;
use forge_data::{DataDecomposer, DataTile, FieldMap, Order, Value};

fn bits(s: &str) -> Option<u64> {
    s.parse::<f64>().ok().map(f64::to_bits)
}

fn near(a: u64, b: u64) -> bool {
    (f64::from_bits(a) - f64::from_bits(b)).abs() < f64::EPSILON
}

fn render(v: &Value) -> String {
    match v {
        Value::Number(b) => format!("{}", f64::from_bits(*b)),
        other => format!("{:?}", other),
    }
}

fn names(tiles: &[DataTile], field: &str) -> Vec<String> {
    tiles
        .iter()
        .map(|t| match t.values.get(field) {
            Some(Value::Text(s)) => s.clone(),
            Some(other) => render(other),
            None => String::from("-"),
        })
        .collect()
}

#[test]
fn csv_row_written_then_split_gives_fields_back() {
    let fields = vec![
        String::from("a,b"),
        String::from("say \"hi\""),
        String::from(" padded "),
        String::from("plain"),
    ];
    let escaped: Vec<String> = fields.iter().map(escape_csv_field).collect();
    assert_eq!(escaped[0], "\"a,b\"");
    assert_eq!(escaped[1], "\"say \"\"hi\"\"\"");
    assert_eq!(escaped[3], "plain");
    let row = escaped.join(",");
    let back = split_csv_row(&row);
    assert_eq!(back, vec!["a,b", "say \"hi\"", "padded", "plain"]);
}

#[test]
fn reconstructed_csv_reads_back() {
    let input = "name,desc,age\nAlice,\"Hello, World\",30\nBob,\"He said \"\"hi\"\"\",25";
    let tiles = DataDecomposer::parse_csv(input, &bits);
    let out = DataDecomposer::reconstruct_csv(&tiles, &render);
    assert_eq!(out, "age,desc,name\n30,\"Hello, World\",Alice\n25,\"He said \"\"hi\"\"\",Bob");
    let again = DataDecomposer::parse_csv(&out, &bits);
    assert_eq!(again.len(), 2);
    assert_eq!(names(&again, "desc"), vec!["Hello, World", "He said \"hi\""]);
    assert_eq!(names(&again, "name"), vec!["Alice", "Bob"]);
    assert_eq!(names(&again, "age"), vec!["30", "25"]);
}

#[test]
fn sorting_twice_changes_nothing() {
    let input = "name,age\nA,3\nB,1\nC,2\nD,1";
    let mut tiles = DataDecomposer::parse_csv(input, &bits);
    let once = DataDecomposer::sort(&mut tiles, "age", false);
    assert_eq!(names(&once, "name"), vec!["B", "D", "C", "A"]);
    let mut again: Vec<DataTile> = once.iter().map(|t| t.copy()).collect();
    let twice = DataDecomposer::sort(&mut again, "age", false);
    assert_eq!(names(&twice, "name"), names(&once, "name"));
    assert_eq!(names(&tiles, "name"), names(&once, "name"));
}

#[test]
fn sorting_keeps_equal_tiles_in_order() {
    let input = "name,group\nA,x\nB,y\nC,x\nD,y\nE,x";
    let mut tiles = DataDecomposer::parse_csv(input, &bits);
    let asc = DataDecomposer::sort(&mut tiles, "group", false);
    assert_eq!(names(&asc, "name"), vec!["A", "C", "E", "B", "D"]);
    let mut tiles = DataDecomposer::parse_csv(input, &bits);
    let desc = DataDecomposer::sort(&mut tiles, "group", true);
    assert_eq!(names(&desc, "name"), vec!["B", "D", "A", "C", "E"]);
}

#[test]
fn sorting_puts_missing_values_first() {
    let json = vec![
        object(&[("name", Value::Text(String::from("A"))), ("v", Value::Number(2.0f64.to_bits()))]),
        object(&[("name", Value::Text(String::from("B")))]),
        object(&[("name", Value::Text(String::from("C"))), ("v", Value::Number((-1.5f64).to_bits()))]),
    ];
    let mut tiles = DataDecomposer::tiles_from_json(Value::Array(json));
    let asc = DataDecomposer::sort(&mut tiles, "v", false);
    assert_eq!(names(&asc, "name"), vec!["B", "C", "A"]);
    let desc = DataDecomposer::sort(&mut tiles, "v", true);
    assert_eq!(names(&desc, "name"), vec!["A", "C", "B"]);
}

#[test]
fn filtering_keeps_a_subsequence() {
    let input = "name,age\nAlice,30\nBob,25\nCarol,35\nDan,40";
    let tiles = DataDecomposer::parse_csv(input, &bits);
    let kept = DataDecomposer::filter(&tiles, "age", "gt", "28", &bits, &near);
    assert!(kept.len() <= tiles.len());
    assert_eq!(names(&kept, "name"), vec!["Alice", "Carol", "Dan"]);
    for (k, t) in kept.iter().enumerate() {
        assert!(tiles.iter().any(|u| u.id == t.id));
        if k > 0 {
            assert!(t.index > kept[k - 1].index);
        }
    }
}

#[test]
fn a_stored_value_is_read_back() {
    let mut m = FieldMap::new();
    m.insert(String::from("a"), Value::Bool(true));
    m.insert(String::from("b"), Value::Null);
    m.insert(String::from("a"), Value::Text(String::from("x")));
    assert!(matches!(m.get("a"), Some(Value::Text(s)) if s == "x"));
    assert!(matches!(m.get("b"), Some(Value::Null)));
    assert!(m.get("c").is_none());
    assert_eq!(m.len(), 2);
}

#[test]
fn comparing_both_ways_gives_opposite_outcomes() {
    let vals = vec![
        Value::Number(1.0f64.to_bits()),
        Value::Number((-2.0f64).to_bits()),
        Value::Text(String::from("abc")),
        Value::Text(String::from("abd")),
        Value::Bool(false),
        Value::Bool(true),
        Value::Null,
    ];
    for a in &vals {
        for b in &vals {
            let ab = compare_values(Some(a), Some(b));
            let ba = compare_values(Some(b), Some(a));
            assert_eq!(ab.reverse(), ba);
        }
        assert_eq!(compare_values(None, Some(a)), Order::Less);
        assert_eq!(compare_values(Some(a), None), Order::Greater);
    }
    assert_eq!(compare_values(Some(&vals[1]), Some(&vals[0])), Order::Less);
    assert_eq!(compare_values(Some(&vals[2]), Some(&vals[3])), Order::Less);
    assert_eq!(compare_values(Some(&vals[5]), Some(&vals[4])), Order::Greater);
    assert_eq!(compare_values(Some(&vals[0]), Some(&vals[2])), Order::Equal);
}

#[test]
fn type_counts_add_up_to_the_values() {
    let input = "name,age,ok\nAlice,30,true\nBob,,false\nCarol,x,";
    let tiles = DataDecomposer::parse_csv(input, &bits);
    let stats = DataDecomposer::stats(&tiles);
    let total: usize = tiles.iter().map(|t| t.values.len()).sum();
    let counted: usize = stats.type_counts.entries().iter().map(|(_, n)| *n).sum();
    assert_eq!(total, 9);
    assert_eq!(counted, total);
    assert_eq!(stats.type_counts.get("Text"), Some(&4));
    assert_eq!(stats.type_counts.get("Number"), Some(&1));
    assert_eq!(stats.type_counts.get("Bool"), Some(&2));
    assert_eq!(stats.type_counts.get("Null"), Some(&2));
    assert_eq!(stats.type_counts.get("Array"), None);
    for (_, n) in stats.null_counts.entries() {
        assert!(*n <= stats.row_count);
    }
}

#[test]
fn the_schema_is_sorted_and_has_each_name_once() {
    let json = vec![
        object(&[("b", Value::Null), ("a", Value::Null)]),
        object(&[("c", Value::Null), ("a", Value::Null)]),
    ];
    let tiles = DataDecomposer::tiles_from_json(Value::Array(json));
    assert_eq!(DataDecomposer::schema(&tiles), vec!["a", "b", "c"]);
    assert_eq!(tiles[0].schema_key, "a,b");
    assert_eq!(tiles[1].schema_key, "a,c");
}

fn object(fields: &[(&str, Value)]) -> Value {
    let mut m = FieldMap::new();
    for (k, v) in fields {
        m.insert(String::from(*k), v.copy());
    }
    Value::Object(m)
}

#[test]
fn csv_written_tiles_read_back_as_the_same_tiles() {
    let input = "b,a,c\n  x\ry , -2.5e3, TRUE\n\"q,\"\"r\"\"\",,false\nnull,7,\n";
    let tiles = DataDecomposer::parse_csv(input, &bits);
    assert_eq!(tiles.len(), 3);
    let out = DataDecomposer::reconstruct_csv(&tiles, &render);
    let again = DataDecomposer::parse_csv(&out, &bits);
    assert_eq!(again.len(), tiles.len());
    for (i, (t, u)) in tiles.iter().zip(again.iter()).enumerate() {
        assert_eq!(u.index, i as u64);
        assert_eq!(u.kind, forge_data::DataKind::CsvRow);
        assert_eq!(u.values.len(), t.values.len());
        for name in ["a", "b", "c"] {
            let (x, y) = (t.values.get(name).unwrap(), u.values.get(name).unwrap());
            assert_eq!(render(x), render(y));
        }
    }
    assert!(matches!(again[0].values.get("b"), Some(Value::Text(s)) if s == "x\ry"));
}
