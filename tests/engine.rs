use qma::text::{parse_fixed, parse_int, str_eq_ignore_case, str_lt};
use qma::{
    build_table_def, Accessor, Config, ConfigError, Entry, Field, Index, Leaf, LogRecord,
    LogValue, LogValueType, OpType, Operation, Table, TableDef, TableRow,
};

fn entry(path: &[&str], leaf: Leaf) -> Entry {
    Entry { path: path.iter().map(|s| s.to_string()).collect(), leaf }
}

fn num(s: &str) -> Leaf {
    Leaf::Number(s.to_string())
}

fn text(s: &str) -> Leaf {
    Leaf::Text(s.to_string())
}

fn record(entries: Vec<Entry>) -> LogRecord {
    LogRecord { entries }
}

fn key_and_value(k: Option<&str>, v: &str) -> LogRecord {
    let mut entries = vec![entry(&["v"], num(v))];
    if let Some(k) = k {
        entries.insert(0, entry(&["k"], text(k)));
    }
    record(entries)
}

fn def(order_by: bool, ascending: bool) -> TableDef {
    let field = Field::new(Accessor::from_string("v", "v", LogValueType::Unspecified), OpType::Average);
    let order = if order_by { Some(field.clone()) } else { None };
    TableDef::new(
        Index::new(Accessor::from_string("k", "k", LogValueType::String)),
        vec![field],
        order,
        ascending,
    )
}

fn config(order_by: Option<&str>, order: Option<&str>) -> Config {
    Config {
        index: qma::config::Index { name: "key".to_string(), accessor: "test.key".to_string() },
        fields: vec![
            qma::config::Field {
                name: "field1".to_string(),
                accessor: "test.value".to_string(),
                dtype: "string".to_string(),
                operation: "count".to_string(),
            },
            qma::config::Field {
                name: "field2".to_string(),
                accessor: "test.value".to_string(),
                dtype: "integer".to_string(),
                operation: "OpCount".to_string(),
            },
        ],
        order_by: order_by.map(|s| s.to_string()),
        order: order.map(|s| s.to_string()),
        output_format: None,
    }
}

fn values(rows: &[(&str, &TableRow)], def: &TableDef) -> Vec<(String, LogValue)> {
    rows.iter().map(|(k, r)| (k.to_string(), r.get(&def.fields[0]))).collect()
}

#[test]
fn path_resolution() {
    let rec = record(vec![entry(&["a", "b"], num("5"))]);
    let ab = Accessor::from_string("x", "a.b", LogValueType::Integer);
    let ac = Accessor::from_string("x", "a.c", LogValueType::Integer);
    let abc = Accessor::from_string("x", "a.b.c", LogValueType::Integer);
    assert_eq!(rec.resolve(&ab), LogValue::Integer(5));
    assert_eq!(rec.resolve(&ac), LogValue::Absent);
    assert_eq!(rec.resolve(&abc), LogValue::Absent);
}

#[test]
fn accessor_splits_on_dots() {
    let a = Accessor::from_string("n", "test.key.inner", LogValueType::String);
    assert_eq!(a.path, vec!["test".to_string(), "key".to_string(), "inner".to_string()]);
    assert_eq!(a.name, "n");
}

#[test]
fn coercion_by_type() {
    let rec = record(vec![
        entry(&["s"], text("12")),
        entry(&["f"], num("2.5")),
        entry(&["w"], text("hello")),
        entry(&["n"], Leaf::Null),
        entry(&["l"], Leaf::Compound),
    ]);
    let get = |p: &str, t: LogValueType| rec.resolve(&Accessor::from_string("x", p, t));
    assert_eq!(get("s", LogValueType::Integer), LogValue::Integer(12));
    assert_eq!(get("s", LogValueType::String), LogValue::String("12".to_string()));
    assert_eq!(get("f", LogValueType::Float), LogValue::Float(2_500_000));
    assert_eq!(get("f", LogValueType::Second), LogValue::Second(2_500_000));
    assert_eq!(get("f", LogValueType::Integer), LogValue::Absent);
    assert_eq!(get("f", LogValueType::Unspecified), LogValue::Float(2_500_000));
    assert_eq!(get("f", LogValueType::String), LogValue::String("2.5".to_string()));
    assert_eq!(get("w", LogValueType::Float), LogValue::Absent);
    assert_eq!(get("w", LogValueType::Unspecified), LogValue::String("hello".to_string()));
    assert_eq!(get("n", LogValueType::String), LogValue::Absent);
    assert_eq!(get("l", LogValueType::Unspecified), LogValue::Absent);
}

#[test]
fn number_parsing() {
    assert_eq!(parse_int("-12"), Some(-12));
    assert_eq!(parse_int("9223372036854775807"), Some(i64::MAX));
    assert_eq!(parse_int("9223372036854775808"), None);
    assert_eq!(parse_int(""), None);
    assert_eq!(parse_int("1x"), None);
    assert_eq!(parse_fixed("2.5"), Some(2_500_000));
    assert_eq!(parse_fixed("-0.25"), Some(-250_000));
    assert_eq!(parse_fixed("7"), Some(7_000_000));
    assert_eq!(parse_fixed("1.2345678"), Some(1_234_567));
    assert_eq!(parse_fixed("1."), None);
    assert_eq!(parse_fixed(".5"), None);
    assert_eq!(parse_fixed("not-a-number"), None);
    assert_eq!(parse_fixed("10000000000000"), None);
}

#[test]
fn text_order() {
    assert!(str_lt("A", "B"));
    assert!(str_lt("ab", "abc"));
    assert!(!str_lt("b", "abc"));
    assert!(!str_lt("a", "a"));
    assert!(str_eq_ignore_case("DeSc", "desc"));
    assert!(!str_eq_ignore_case("descending", "desc"));
}

#[test]
fn count_accumulator() {
    let mut op = Operation::new(OpType::Count);
    op.update(&LogValue::Absent);
    op.update(&LogValue::Integer(1));
    op.update(&LogValue::String("x".to_string()));
    assert_eq!(op.value(), LogValue::Integer(3));
}

#[test]
fn average_accumulator() {
    let mut op = Operation::new(OpType::Average);
    assert_eq!(op.value(), LogValue::Absent);
    op.update(&LogValue::Float(2_000_000));
    op.update(&LogValue::Absent);
    op.update(&LogValue::Float(4_000_000));
    op.update(&LogValue::String("not-a-number".to_string()));
    assert_eq!(op.value(), LogValue::Float(3_000_000));
}

#[test]
fn average_without_numbers_is_absent() {
    let mut op = Operation::new(OpType::Average);
    op.update(&LogValue::Absent);
    op.update(&LogValue::String("x".to_string()));
    assert_eq!(op.value(), LogValue::Absent);
}

#[test]
fn average_rounds_toward_zero() {
    let mut op = Operation::new(OpType::Average);
    op.update(&LogValue::Integer(1));
    op.update(&LogValue::Integer(0));
    op.update(&LogValue::Integer(0));
    assert_eq!(op.value(), LogValue::Float(333_333));
    let mut neg = Operation::new(OpType::Average);
    neg.update(&LogValue::Integer(-1));
    neg.update(&LogValue::Integer(0));
    neg.update(&LogValue::Integer(0));
    assert_eq!(neg.value(), LogValue::Float(-333_333));
}

#[test]
fn grouping() {
    let d = def(false, true);
    let mut t = Table::new(d.clone());
    t.ingest(&key_and_value(Some("k1"), "2"));
    t.ingest(&key_and_value(Some("k1"), "4"));
    assert_eq!(t.rows.len(), 1);
    assert_eq!(t.rows[0].0, "k1");
    assert_eq!(t.rows[0].1.get(&d.fields[0]), LogValue::Float(3_000_000));
    assert!(!t.has_undefined);
    t.ingest(&key_and_value(None, "8"));
    assert_eq!(t.rows.len(), 1);
    assert!(t.has_undefined);
    assert_eq!(t.undefined.get(&d.fields[0]), LogValue::Float(8_000_000));
}

#[test]
fn sorting() {
    for ascending in [true, false] {
        let d = def(true, ascending);
        let mut t = Table::new(d.clone());
        t.aggregate(&[
            key_and_value(Some("x"), "10"),
            key_and_value(Some("y"), "30"),
            key_and_value(Some("z"), "20"),
            key_and_value(None, "1"),
        ]);
        let got = values(&t.sorted_rows(), &d);
        let mut expect = vec![
            ("x".to_string(), LogValue::Float(10_000_000)),
            ("z".to_string(), LogValue::Float(20_000_000)),
            ("y".to_string(), LogValue::Float(30_000_000)),
        ];
        if !ascending {
            expect.reverse();
        }
        expect.push(("undefined".to_string(), LogValue::Float(1_000_000)));
        assert_eq!(got, expect);
    }
}

#[test]
fn sorting_by_key_without_order_by() {
    let d = def(false, false);
    let mut t = Table::new(d.clone());
    t.aggregate(&[key_and_value(Some("b"), "1"), key_and_value(Some("a"), "2")]);
    let rows = t.sorted_rows();
    let keys: Vec<&str> = rows.iter().map(|(k, _)| *k).collect();
    assert_eq!(keys, vec!["a", "b"]);
}

#[test]
fn end_to_end_scenario() {
    let d = def(true, true);
    let mut t = Table::new(d.clone());
    t.aggregate(&[
        key_and_value(Some("A"), "1"),
        key_and_value(Some("B"), "3"),
        key_and_value(Some("A"), "5"),
        key_and_value(None, "9"),
    ]);
    let got = values(&t.sorted_rows(), &d);
    let expect: Vec<(String, LogValue)> = vec![
        ("A".to_string(), LogValue::Float(3_000_000)),
        ("B".to_string(), LogValue::Float(3_000_000)),
        ("undefined".to_string(), LogValue::Float(9_000_000)),
    ];
    assert_eq!(got, expect);
    let row = t.sorted_rows()[0].1.get_row(&d.fields);
    assert_eq!(row, vec![LogValue::Float(3_000_000)]);
}

#[test]
fn fail_fast_configuration() {
    assert_eq!(build_table_def(&config(Some("missing"), None)).err(), Some(ConfigError::InvalidOrderBy));
    assert_eq!(build_table_def(&config(Some("field1"), Some("up"))).err(), Some(ConfigError::InvalidOrder));
    assert_eq!(build_table_def(&config(Some("missing"), Some("up"))).err(), Some(ConfigError::InvalidOrderBy));
}

#[test]
fn configuration_builds_schema() {
    let d = build_table_def(&config(Some("field2"), Some("DESC"))).ok().unwrap();
    assert_eq!(d.index.name(), "key");
    assert_eq!(d.index.accessor.path, vec!["test".to_string(), "key".to_string()]);
    assert_eq!(d.index.accessor.dtype, LogValueType::String);
    assert_eq!(d.field_num(), 2);
    assert_eq!(d.fields[0].name(), "field1");
    assert_eq!(d.fields[0].accessor.dtype, LogValueType::String);
    assert_eq!(d.fields[0].op_type, OpType::Count);
    assert_eq!(d.fields[1].accessor.dtype, LogValueType::Integer);
    assert_eq!(d.fields[1].op_type, OpType::Average);
    assert_eq!(d.order_by.as_ref().map(|f| f.name().to_string()), Some("field2".to_string()));
    assert!(!d.ascending);
    assert_eq!(d.field_accessor().len(), 2);
    assert_eq!(d.key_accessor().name, "key");
    let plain = build_table_def(&config(None, None)).ok().unwrap();
    assert!(plain.ascending);
    assert!(plain.order_by.is_none());
}

#[test]
fn row_defaults_to_absent() {
    let d = def(false, true);
    let row = TableRow::default();
    assert_eq!(row.get(&d.fields[0]), LogValue::Absent);
    assert_eq!(row.get_row(&d.fields), vec![LogValue::Absent]);
}

#[test]
fn empty_table_has_no_rows() {
    let t = Table::new(def(true, true));
    assert!(t.sorted_rows().is_empty());
}

#[test]
fn descending_ties_break_by_key() {
    let d = def(true, false);
    let mut t = Table::new(d.clone());
    t.aggregate(&[
        key_and_value(Some("b"), "1"),
        key_and_value(Some("a"), "1"),
        key_and_value(Some("c"), "2"),
    ]);
    let rows = t.sorted_rows();
    let keys: Vec<&str> = rows.iter().map(|(k, _)| *k).collect();
    assert_eq!(keys, vec!["c", "a", "b"]);
}

#[test]
fn numeric_keys_group_as_text() {
    let d = def(false, true);
    let mut t = Table::new(d.clone());
    t.ingest(&record(vec![entry(&["k"], num("5")), entry(&["v"], num("1"))]));
    assert_eq!(t.rows.len(), 1);
    assert_eq!(t.rows[0].0, "5");
    assert!(!t.has_undefined);
}
