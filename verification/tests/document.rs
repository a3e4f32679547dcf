use tfidf_search::document::flatten;
use tfidf_search::{Number, Value};

fn text(s: &str) -> Value {
    Value::Text(s.to_string())
}

fn unsigned(n: u64) -> Value {
    Value::Number(Number::Unsigned(n))
}

fn mapping(fields: Vec<(&str, Value)>) -> Value {
    Value::Mapping(fields.into_iter().map(|(k, v)| (k.to_string(), v)).collect())
}

fn strings(items: &[&str]) -> Vec<String> {
    items.iter().map(|s| s.to_string()).collect()
}

#[test]
fn flatten_text_gives_it_verbatim() {
    assert_eq!(flatten(&text("Green Smoothie!")), strings(&["Green Smoothie!"]));
}

#[test]
fn flatten_absent_gives_nothing() {
    assert_eq!(flatten(&Value::Absent), Vec::<String>::new());
}

#[test]
fn flatten_booleans() {
    assert_eq!(flatten(&Value::Boolean(true)), strings(&["true"]));
    assert_eq!(flatten(&Value::Boolean(false)), strings(&["false"]));
}

#[test]
fn flatten_unsigned_numbers() {
    assert_eq!(flatten(&unsigned(0)), strings(&["0"]));
    assert_eq!(flatten(&unsigned(7)), strings(&["7"]));
    assert_eq!(flatten(&unsigned(10)), strings(&["10"]));
    assert_eq!(flatten(&unsigned(2019)), strings(&["2019"]));
    assert_eq!(flatten(&unsigned(u64::MAX)), strings(&["18446744073709551615"]));
}

#[test]
fn flatten_signed_numbers() {
    assert_eq!(flatten(&Value::Number(Number::Signed(-1))), strings(&["-1"]));
    assert_eq!(flatten(&Value::Number(Number::Signed(-250))), strings(&["-250"]));
    assert_eq!(flatten(&Value::Number(Number::Signed(42))), strings(&["42"]));
    assert_eq!(flatten(&Value::Number(Number::Signed(0))), strings(&["0"]));
    assert_eq!(
        flatten(&Value::Number(Number::Signed(i64::MIN))),
        strings(&["-9223372036854775808"])
    );
}

#[test]
fn flatten_decimal_gives_its_text() {
    assert_eq!(flatten(&Value::Number(Number::Decimal("4.7".to_string()))), strings(&["4.7"]));
}

#[test]
fn number_text_agrees_with_serde_json() {
    for n in [0u64, 9, 10, 99, 100, 12345, u64::MAX] {
        assert_eq!(Number::Unsigned(n).to_text(), serde_json::Number::from(n).to_string());
    }
    for n in [i64::MIN, -100, -1, 0, 1, i64::MAX] {
        assert_eq!(Number::Signed(n).to_text(), serde_json::Number::from(n).to_string());
    }
}

#[test]
fn flatten_sequence_in_order() {
    let v = Value::Sequence(vec![text("b"), unsigned(2), Value::Absent, text("a")]);
    assert_eq!(flatten(&v), strings(&["b", "2", "a"]));
}

#[test]
fn flatten_mapping_ignores_keys() {
    let v = mapping(vec![("title", text("Red Juice")), ("year", unsigned(2020))]);
    assert_eq!(flatten(&v), strings(&["Red Juice", "2020"]));
}

#[test]
fn flatten_nested_values_in_pre_order() {
    let v = mapping(vec![
        ("id", unsigned(1)),
        ("tags", Value::Sequence(vec![text("x"), mapping(vec![("deep", text("y"))])])),
        ("none", Value::Absent),
        ("ok", Value::Boolean(true)),
    ]);
    assert_eq!(flatten(&v), strings(&["1", "x", "y", "true"]));
}

#[test]
fn flatten_empty_containers() {
    assert_eq!(flatten(&Value::Sequence(vec![])), Vec::<String>::new());
    assert_eq!(flatten(&Value::Mapping(vec![])), Vec::<String>::new());
}

#[test]
fn flatten_twice_gives_the_same_fragments() {
    let v = mapping(vec![("a", text("one")), ("b", Value::Sequence(vec![text("two")]))]);
    assert_eq!(flatten(&v), flatten(&v));
}

#[test]
fn get_finds_the_first_binding() {
    let v = mapping(vec![("a", unsigned(1)), ("b", unsigned(2)), ("a", unsigned(3))]);
    assert_eq!(v.get("a"), Some(&unsigned(1)));
    assert_eq!(v.get("b"), Some(&unsigned(2)));
    assert_eq!(v.get("c"), None);
}

#[test]
fn get_on_other_values_finds_nothing() {
    assert_eq!(text("x").get("id"), None);
    assert_eq!(Value::Sequence(vec![unsigned(1)]).get("id"), None);
    assert_eq!(Value::Absent.get("id"), None);
}

#[test]
fn as_u64_of_numbers() {
    assert_eq!(unsigned(5).as_u64(), Some(5));
    assert_eq!(Value::Number(Number::Signed(5)).as_u64(), Some(5));
    assert_eq!(Value::Number(Number::Signed(-5)).as_u64(), None);
    assert_eq!(Value::Number(Number::Decimal("5.5".to_string())).as_u64(), None);
    assert_eq!(text("5").as_u64(), None);
    assert_eq!(Value::Boolean(true).as_u64(), None);
    assert_eq!(Number::Unsigned(u64::MAX).as_u64(), Some(u64::MAX));
    assert_eq!(Number::Signed(i64::MAX).as_u64(), Some(i64::MAX as u64));
}

#[test]
fn document_id_reads_the_id_binding() {
    assert_eq!(mapping(vec![("id", unsigned(3)), ("t", text("x"))]).document_id(), Some(3));
    assert_eq!(mapping(vec![("t", text("x"))]).document_id(), None);
    assert_eq!(mapping(vec![("id", text("3"))]).document_id(), None);
    assert_eq!(mapping(vec![("id", Value::Number(Number::Signed(-3)))]).document_id(), None);
    assert_eq!(mapping(vec![("ID", unsigned(3))]).document_id(), None);
    assert_eq!(text("id").document_id(), None);
}

#[test]
fn with_id_appends_a_binding_where_there_is_none() {
    let v = mapping(vec![("title", text("Red Juice"))]).with_id(2);
    assert_eq!(v, mapping(vec![("title", text("Red Juice")), ("id", unsigned(2))]));
    assert_eq!(v.document_id(), Some(2));
}

#[test]
fn with_id_replaces_the_first_binding() {
    let v = mapping(vec![("id", text("old")), ("title", text("x")), ("id", unsigned(9))]).with_id(4);
    assert_eq!(v, mapping(vec![("id", unsigned(4)), ("title", text("x")), ("id", unsigned(9))]));
    assert_eq!(v.document_id(), Some(4));
}

#[test]
fn with_id_leaves_other_values_alone() {
    assert_eq!(text("plain").with_id(1), text("plain"));
    assert_eq!(Value::Absent.with_id(1), Value::Absent);
    assert_eq!(Value::Sequence(vec![unsigned(1)]).with_id(7), Value::Sequence(vec![unsigned(1)]));
    assert_eq!(text("plain").with_id(1).document_id(), None);
}
