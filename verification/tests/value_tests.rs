use bitcoder::value::{Order, Value};

fn text(s: &str) -> Value {
    Value::Text { text: s.to_string() }
}

fn number(thousandths: i64) -> Value {
    Value::Number { number: thousandths }
}

#[test]
fn ordering_text_pairs() {
    assert_eq!(text("a").compare(&text("b")), Some(Order::Less));
    assert_eq!(text("b").compare(&text("a")), Some(Order::Greater));
    assert_eq!(text("a").compare(&text("a")), Some(Order::Equal));
    assert_eq!(text("ab").compare(&text("b")), Some(Order::Less));
    assert_eq!(text("a").compare(&text("ab")), Some(Order::Less));
}

#[test]
fn ordering_number_pairs() {
    assert_eq!(number(1000).compare(&number(2000)), Some(Order::Less));
    assert_eq!(number(2000).compare(&number(1000)), Some(Order::Greater));
    assert_eq!(number(-500).compare(&number(-500)), Some(Order::Equal));
}

#[test]
fn ordering_cross_kind_is_none() {
    assert_eq!(text("1").compare(&number(1000)), None);
    assert_eq!(number(1000).compare(&text("1")), None);
}

#[test]
fn ordering_missing_rules() {
    assert_eq!(Value::Missing.compare(&Value::Missing), Some(Order::Equal));
    assert_eq!(Value::Missing.compare(&number(0)), Some(Order::Less));
    assert_eq!(Value::Missing.compare(&text("")), Some(Order::Less));
    assert_eq!(number(0).compare(&Value::Missing), Some(Order::Greater));
    assert_eq!(text("x").compare(&Value::Missing), Some(Order::Greater));
}

#[test]
fn display_missing_placeholder() {
    assert_eq!(Value::Missing.to_text(), "(missing)");
}

#[test]
fn display_text_in_quotation_marks() {
    assert_eq!(text("A").to_text(), "\u{201c}A\u{201d}");
}

#[test]
fn display_number_trims_zeros_and_point() {
    assert_eq!(number(5000).to_text(), "5");
    assert_eq!(number(2500).to_text(), "2.5");
    assert_eq!(number(125).to_text(), "0.125");
    assert_eq!(number(-1250).to_text(), "-1.25");
    assert_eq!(number(1001).to_text(), "1.001");
    assert_eq!(number(0).to_text(), "0");
    assert_eq!(number(10).to_text(), "0.01");
    assert_eq!(number(1234000).to_text(), "1234");
}

#[test]
fn new_empty_field_is_missing() {
    assert!(matches!(Value::new(""), Value::Missing));
    assert!(matches!(Value::new("x"), Value::Text { .. }));
}

#[test]
fn coerce_plain_integer() {
    let mut v = Value::new("42");
    v.as_number();
    assert!(matches!(v, Value::Number { number: 42000 }));
}

#[test]
fn coerce_comma_decimal() {
    let mut v = Value::new("3,5");
    v.as_number();
    assert!(matches!(v, Value::Number { number: 3500 }));
}

#[test]
fn coerce_strips_spaces_tabs_percent() {
    let mut v = Value::new(" 4\t2 %");
    v.as_number();
    assert!(matches!(v, Value::Number { number: 42000 }));
}

#[test]
fn coerce_signs_and_fractions() {
    let mut v = Value::new("-0.5");
    v.as_number();
    assert!(matches!(v, Value::Number { number: -500 }));
    let mut w = Value::new("+.25");
    w.as_number();
    assert!(matches!(w, Value::Number { number: 250 }));
    let mut u = Value::new("7.");
    u.as_number();
    assert!(matches!(u, Value::Number { number: 7000 }));
}

#[test]
fn coerce_rounds_half_up_at_fourth_decimal() {
    let mut v = Value::new("1.0005");
    v.as_number();
    assert!(matches!(v, Value::Number { number: 1001 }));
    let mut w = Value::new("1.0004");
    w.as_number();
    assert!(matches!(w, Value::Number { number: 1000 }));
}

#[test]
fn coerce_failure_becomes_missing() {
    let mut v = Value::new("abc");
    v.as_number();
    assert!(matches!(v, Value::Missing));
    let mut w = Value::new("1.2.3");
    w.as_number();
    assert!(matches!(w, Value::Missing));
    let mut u = Value::new("-");
    u.as_number();
    assert!(matches!(u, Value::Missing));
}

#[test]
fn coerce_leaves_missing_and_numbers() {
    let mut v = Value::Missing;
    v.as_number();
    assert!(matches!(v, Value::Missing));
    let mut w = number(777);
    w.as_number();
    assert!(matches!(w, Value::Number { number: 777 }));
}
