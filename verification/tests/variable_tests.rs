use bitcoder::parser::{Parser, Token};
use bitcoder::session::Card;
use bitcoder::variable::{Mapping, Variable};

fn filled(name: &str, values: &[&str]) -> Variable {
    let mut v = Variable::new(name);
    for value in values {
        v.add_value(value);
    }
    v
}

fn density_sum(v: &Variable) -> usize {
    v.density().iter().map(|p| p.1).sum()
}

#[test]
fn histogram_accounts_for_every_value() {
    let v = filled("v", &["A", "B", "A", "", ""]);
    assert_eq!(density_sum(&v) + v.missing(), 5);
    assert_eq!(v.missing(), 2);
    let keys: Vec<String> = v.density().iter().map(|p| p.0.clone()).collect();
    assert_eq!(keys, vec!["v|\u{201c}A\u{201d}", "v|\u{201c}B\u{201d}"]);
    assert_eq!(v.density()[0].1, 2);
    assert_eq!(v.density()[1].1, 1);
}

#[test]
fn exclude_clears_histogram() {
    let mut v = filled("v", &["A", "B", ""]);
    v.exclude();
    assert!(v.density().is_empty());
    assert_eq!(v.missing(), 0);
}

#[test]
fn include_recomputes_histogram() {
    let mut v = filled("v", &["A", "B", ""]);
    v.exclude();
    v.set_included();
    assert_eq!(density_sum(&v), 2);
    assert_eq!(v.missing(), 1);
}

#[test]
fn coercion_round_trip_restores_values() {
    let mut v = filled("v", &["1", "x", "2"]);
    let before: Vec<String> = (0..3).map(|i| v.value_at(i).to_text()).collect();
    v.as_numbers();
    assert_eq!(v.value_at(1).to_text(), "(missing)");
    v.as_strings();
    let after: Vec<String> = (0..3).map(|i| v.value_at(i).to_text()).collect();
    assert_eq!(before, after);
}

#[test]
fn repeated_coercion_keeps_backup() {
    let mut v = filled("v", &["1", "2"]);
    v.as_numbers();
    v.as_numbers();
    v.as_strings();
    assert_eq!(v.value_at(0).to_text(), "\u{201c}1\u{201d}");
}

#[test]
fn recode_twice_gives_same_histogram() {
    let mut v = filled("v", &["A", "B", "A"]);
    v.set_recoded();
    let once = v.density().clone();
    let once_missing = v.missing();
    v.set_recoded();
    assert_eq!(*v.density(), once);
    assert_eq!(v.missing(), once_missing);
}

#[test]
fn minimum_and_maximum_track_values() {
    let v = filled("v", &["b", "a", "c"]);
    assert_eq!(v.minimum().to_text(), "\u{201c}a\u{201d}");
    assert_eq!(v.maximum().to_text(), "\u{201c}c\u{201d}");
    let w = filled("w", &["", "z"]);
    assert_eq!(w.minimum().to_text(), "\u{201c}z\u{201d}");
    assert_eq!(w.maximum().to_text(), "\u{201c}z\u{201d}");
}

#[test]
fn rename_rebuilds_bucket_names() {
    let mut v = filled("v", &["A"]);
    v.set_name("w");
    assert_eq!(v.density()[0].0, "w|\u{201c}A\u{201d}");
    assert_eq!(v.name(), "w");
}

#[test]
fn empty_cluster_buckets_everything_as_other() {
    let mut v = filled("v", &["A", "B", ""]);
    v.set_cluster();
    assert!(matches!(v.mapping(), Mapping::Cluster { .. }));
    assert_eq!(v.density().len(), 1);
    assert_eq!(v.density()[0].0, "v|Other");
    assert_eq!(v.density()[0].1, 2);
    assert_eq!(v.missing(), 1);
}

#[test]
fn use_ranges_buckets_numeric_values() {
    let mut v = filled("v", &["1", "5", "9"]);
    v.as_numbers();
    let tokens = Parser::parse("min to 3, 4 to max").unwrap();
    v.use_ranges(&tokens).unwrap();
    let keys: Vec<String> = v.density().iter().map(|p| p.0.clone()).collect();
    assert_eq!(keys, vec!["v|1|3", "v|4|9"]);
    assert_eq!(v.density()[0].1, 1);
    assert_eq!(v.density()[1].1, 2);
}

#[test]
fn use_ranges_lower_above_upper_fails() {
    let mut v = filled("v", &["1", "5"]);
    v.as_numbers();
    let tokens = Parser::parse("5 to 3").unwrap();
    let err = v.use_ranges(&tokens).unwrap_err();
    assert_eq!(err, "Lower value must be less than or equal to the upper value.");
}

#[test]
fn use_ranges_overlap_fails() {
    let mut v = filled("v", &["1", "5"]);
    v.as_numbers();
    let tokens = Parser::parse("1 to 5, 3 to 8").unwrap();
    let err = v.use_ranges(&tokens).unwrap_err();
    assert_eq!(
        err,
        "Lower value must be greater than or equal to the previous upper value."
    );
}

#[test]
fn use_ranges_kind_must_match_variable() {
    let mut v = filled("v", &["a", "b"]);
    let tokens = Parser::parse("1 to 2").unwrap();
    let err = v.use_ranges(&tokens).unwrap_err();
    assert_eq!(
        err,
        "All values must be of the same type and must match the variable type."
    );
}

#[test]
fn use_ranges_incomplete_triple_fails() {
    let mut v = filled("v", &["1"]);
    v.as_numbers();
    let tokens = Parser::parse("5").unwrap();
    let err = v.use_ranges(&tokens).unwrap_err();
    assert_eq!(err, "Separate range values with keyword ' to '.");
}

#[test]
fn use_ranges_needs_a_lower_operand() {
    let mut v = filled("v", &["1"]);
    v.as_numbers();
    let tokens = vec![Token::Maximum, Token::Range, Token::Maximum];
    let err = v.use_ranges(&tokens).unwrap_err();
    assert_eq!(err, "Type a value for the lower range.");
}

#[test]
fn use_ranges_needs_an_upper_operand() {
    let mut v = filled("v", &["1"]);
    v.as_numbers();
    let tokens = Parser::parse("5 to").unwrap();
    let err = v.use_ranges(&tokens).unwrap_err();
    assert_eq!(err, "Type a value for the upper range.");
}

#[test]
fn bit_vector_lights_exactly_one_bucket() {
    let v = filled("v", &["A", "B", "A"]);
    let row0 = v.vector_of(0);
    assert_eq!(row0.iter().map(|b| b.1).collect::<Vec<bool>>(), vec![true, false]);
    let row1 = v.vector_of(1);
    assert_eq!(row1.iter().map(|b| b.1).collect::<Vec<bool>>(), vec![false, true]);
}

#[test]
fn bit_vector_of_missing_row_is_all_false() {
    let v = filled("v", &["A", ""]);
    let row = v.vector_of(1);
    assert_eq!(row.len(), 1);
    assert!(row.iter().all(|b| !b.1));
}

#[test]
fn card_new_defaults() {
    let card = Card::new("age");
    assert_eq!(card.title, "age");
    assert!(card.is_included);
    assert!(!card.is_numeric);
    assert!(card.expression.is_empty());
    assert!(card.message.is_empty());
}
