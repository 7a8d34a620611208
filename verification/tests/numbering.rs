use init_task::create::{next_ordinal, plan_task_creation, CreateError};
use init_task::ordinal::{derive_base_name, format_ordinal, parse_ordinal, starts_with_ordinal};

fn strings(names: &[&str]) -> Vec<String> {
    names.iter().map(|s| s.to_string()).collect()
}

#[test]
fn next_ordinal_of_empty_set_is_zero() {
    let siblings: Vec<String> = Vec::new();
    assert_eq!(next_ordinal(&siblings), 0);
}

#[test]
fn next_ordinal_is_one_past_the_greatest() {
    let siblings = strings(&["000_alpha", "002_gamma", "001_beta"]);
    assert_eq!(next_ordinal(&siblings), 3);
}

#[test]
fn next_ordinal_ignores_unprefixed_names() {
    let siblings = strings(&["notes", "12_short", "004_real", "draft"]);
    assert_eq!(next_ordinal(&siblings), 5);
}

#[test]
fn format_ordinal_zero_pads() {
    assert_eq!(format_ordinal(0), "000");
    assert_eq!(format_ordinal(7), "007");
    assert_eq!(format_ordinal(42), "042");
    assert_eq!(format_ordinal(999), "999");
}

#[test]
fn parse_ordinal_reads_first_three_digits() {
    assert_eq!(parse_ordinal("042_task"), 42);
    assert_eq!(parse_ordinal("9990"), 999);
}

#[test]
fn starts_with_ordinal_needs_three_digits() {
    assert!(starts_with_ordinal("007_bond"));
    assert!(starts_with_ordinal("1234"));
    assert!(!starts_with_ordinal("12_few"));
    assert!(!starts_with_ordinal("abc"));
    assert!(!starts_with_ordinal(""));
}

#[test]
fn derive_base_name_strips_digits_and_one_separator() {
    assert_eq!(derive_base_name("123_report"), "report");
    assert_eq!(derive_base_name("report"), "report");
    assert_eq!(derive_base_name("_9F_evo"), "9F_evo");
    assert_eq!(derive_base_name("42x"), "x");
}

#[test]
fn derive_base_name_of_pure_digits_is_empty() {
    assert_eq!(derive_base_name("123"), "");
    assert_eq!(derive_base_name("123_"), "");
}

#[test]
fn lexicographic_and_numeric_maxima_agree_on_padded_ordinals() {
    let siblings = strings(&["010_ten", "009_nine"]);
    assert_eq!(next_ordinal(&siblings), 11);
}

#[test]
fn creation_prepends_next_ordinal() {
    let layouts = strings(&["default"]);
    let siblings = strings(&["000_a", "001_b"]);
    let name = plan_task_creation(
        &layouts,
        &"default".to_string(),
        &"widget".to_string(),
        true,
        &siblings,
    )
    .unwrap();
    assert_eq!(name, "002_widget");
}

#[test]
fn creation_renumbers_a_requested_prefix() {
    let layouts = strings(&["default"]);
    let siblings = strings(&["000_a"]);
    let name = plan_task_creation(
        &layouts,
        &"default".to_string(),
        &"005_widget".to_string(),
        true,
        &siblings,
    )
    .unwrap();
    assert_eq!(name, "001_widget");
}

#[test]
fn creation_without_numbering_uses_the_name_verbatim() {
    let layouts = strings(&["default"]);
    let siblings = strings(&["000_a", "001_b"]);
    let name = plan_task_creation(
        &layouts,
        &"default".to_string(),
        &"005_keep".to_string(),
        false,
        &siblings,
    )
    .unwrap();
    assert_eq!(name, "005_keep");
}

#[test]
fn missing_layout_reports_the_available_ones() {
    let layouts = strings(&["default", "rust"]);
    let siblings: Vec<String> = Vec::new();
    let r = plan_task_creation(
        &layouts,
        &"python".to_string(),
        &"widget".to_string(),
        true,
        &siblings,
    );
    match r {
        Err(CreateError::LayoutNotFound { requested, available }) => {
            assert_eq!(requested, "python");
            assert_eq!(available, layouts);
        }
        _ => panic!("expected LayoutNotFound"),
    }
}

#[test]
fn ordinal_past_999_is_an_error() {
    let layouts = strings(&["default"]);
    let siblings = strings(&["999_last"]);
    let r = plan_task_creation(
        &layouts,
        &"default".to_string(),
        &"widget".to_string(),
        true,
        &siblings,
    );
    assert!(matches!(r, Err(CreateError::OrdinalOverflow)));
}
