use bitcoder::decoder::Decoder;
use bitcoder::encoder::Encoder;
use bitcoder::variable::Variable;

fn lines(rows: &[&str]) -> Vec<String> {
    rows.iter().map(|r| r.to_string()).collect()
}

#[test]
fn split_empty_row_has_nothing() {
    assert_eq!(Decoder::split(""), Err("Nothing to split."));
}

#[test]
fn split_plain_fields() {
    assert_eq!(Decoder::split("a,b").unwrap(), vec!["a", "b"]);
    assert_eq!(Decoder::split("a,,b").unwrap(), vec!["a", "", "b"]);
    assert_eq!(Decoder::split(",a").unwrap(), vec!["", "a"]);
    assert_eq!(Decoder::split("a,").unwrap(), vec!["a", ""]);
}

#[test]
fn split_quoted_fields_keep_commas() {
    assert_eq!(Decoder::split("\"x,y\",b").unwrap(), vec!["x,y", "b"]);
    assert_eq!(Decoder::split("a,\" b \"").unwrap(), vec!["a", " b "]);
}

#[test]
fn split_unclosed_quotation_stays_verbatim() {
    assert_eq!(Decoder::split("\"ab").unwrap(), vec!["\"ab"]);
    assert_eq!(Decoder::split("\"").unwrap(), vec!["\""]);
}

#[test]
fn load_skips_row_with_empty_outcome() {
    let mut variables = Vec::new();
    let mut rows = 0usize;
    let input = lines(&["a,b,c", "1,2,3", "4,5,"]);
    Decoder::load(&input, &mut variables, &mut rows).unwrap();
    assert_eq!(rows, 1);
    assert_eq!(variables.len(), 3);
    assert_eq!(variables[0].name(), "a");
    assert_eq!(variables[1].name(), "b");
    assert_eq!(variables[2].name(), "c");
    assert_eq!(variables[0].value_at(0).to_text(), "\u{201c}1\u{201d}");
    assert_eq!(variables[2].value_at(0).to_text(), "\u{201c}3\u{201d}");
}

#[test]
fn load_header_only_is_not_an_error() {
    let mut variables = Vec::new();
    let mut rows = 0usize;
    Decoder::load(&lines(&["a,b,c"]), &mut variables, &mut rows).unwrap();
    assert_eq!(rows, 0);
    assert_eq!(variables.len(), 3);
    assert_eq!(variables[0].missing(), 0);
    assert!(variables[0].density().is_empty());
}

#[test]
fn load_field_count_mismatch_is_fatal() {
    let mut variables = Vec::new();
    let mut rows = 0usize;
    let err = Decoder::load(&lines(&["a,b,c", "1,2"]), &mut variables, &mut rows).unwrap_err();
    assert_eq!(err, "Number of values differ between rows in this file.");
    assert!(variables.is_empty());
    assert_eq!(rows, 0);
}

#[test]
fn load_empty_file_is_an_error() {
    let mut variables = Vec::new();
    let mut rows = 0usize;
    let err = Decoder::load(&lines(&[]), &mut variables, &mut rows).unwrap_err();
    assert_eq!(err, "The file appears to be empty.");
    assert!(variables.is_empty());
}

#[test]
fn load_keeps_quoted_commas_in_values() {
    let mut variables = Vec::new();
    let mut rows = 0usize;
    Decoder::load(&lines(&["n1,n2", "\"a,b\",c"]), &mut variables, &mut rows).unwrap();
    assert_eq!(rows, 1);
    assert_eq!(variables[0].value_at(0).to_text(), "\u{201c}a,b\u{201d}");
}

#[test]
fn load_skips_blank_lines() {
    let mut variables = Vec::new();
    let mut rows = 0usize;
    Decoder::load(&lines(&["a,b", "", "1,2"]), &mut variables, &mut rows).unwrap();
    assert_eq!(rows, 1);
    assert_eq!(variables[0].value_at(0).to_text(), "\u{201c}1\u{201d}");
}

#[test]
fn load_empty_middle_field_is_missing() {
    let mut variables = Vec::new();
    let mut rows = 0usize;
    Decoder::load(&lines(&["a,b,c", ",2,3"]), &mut variables, &mut rows).unwrap();
    assert_eq!(rows, 1);
    assert_eq!(variables[0].value_at(0).to_text(), "(missing)");
    assert_eq!(variables[0].missing(), 1);
}

#[test]
fn encode_single_recode_variable() {
    let mut v = Variable::new("v");
    v.add_value("A");
    v.add_value("B");
    v.add_value("A");
    let mut outcome = Variable::new("o");
    outcome.add_value("1");
    outcome.add_value("2");
    outcome.add_value("1");
    outcome.as_numbers();
    let text = Encoder::render(&vec![v], &outcome, 3);
    let expected = format!(
        "\"v|{lq}A{rq}\",\"v|{lq}B{rq}\",\"o\"\n10,1\n01,2\n10,1",
        lq = '\u{201c}',
        rq = '\u{201d}'
    );
    assert_eq!(text, expected);
}

#[test]
fn encode_excluded_variable_adds_no_columns() {
    let mut v = Variable::new("v");
    v.add_value("A");
    let mut w = Variable::new("w");
    w.add_value("X");
    w.exclude();
    let mut outcome = Variable::new("o");
    outcome.add_value("3");
    outcome.as_numbers();
    let text = Encoder::render(&vec![v, w], &outcome, 1);
    let expected = format!("\"v|{lq}A{rq}\",\"o\"\n1,3", lq = '\u{201c}', rq = '\u{201d}');
    assert_eq!(text, expected);
}

#[test]
fn encode_header_only_when_no_rows() {
    let mut v = Variable::new("v");
    v.add_value("A");
    let outcome = Variable::new("o");
    let text = Encoder::render(&vec![v], &outcome, 0);
    let expected = format!("\"v|{lq}A{rq}\",\"o\"", lq = '\u{201c}', rq = '\u{201d}');
    assert_eq!(text, expected);
}

#[test]
fn encode_missing_value_row_is_all_zero() {
    let mut v = Variable::new("v");
    v.add_value("A");
    v.add_value("");
    let mut outcome = Variable::new("o");
    outcome.add_value("1");
    outcome.add_value("2");
    outcome.as_numbers();
    let text = Encoder::render(&vec![v], &outcome, 2);
    let expected = format!("\"v|{lq}A{rq}\",\"o\"\n1,1\n0,2", lq = '\u{201c}', rq = '\u{201d}');
    assert_eq!(text, expected);
}
