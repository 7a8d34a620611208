use init_task::renumber::{approved_renames, compute_renumbering, confirmation_grants};

fn strings(names: &[&str]) -> Vec<String> {
    names.iter().map(|s| s.to_string()).collect()
}

fn pairs_of(names: &[&str]) -> Vec<(String, String)> {
    compute_renumbering(&strings(names))
}

#[test]
fn decimal_ordinals_sort_between_integers() {
    let pairs = pairs_of(&["000_a", "001_b", "001.5_c", "002_d"]);
    let olds: Vec<&str> = pairs.iter().map(|p| p.0.as_str()).collect();
    let news: Vec<&str> = pairs.iter().map(|p| p.1.as_str()).collect();
    assert_eq!(olds, ["000_a", "001_b", "001.5_c", "002_d"]);
    assert_eq!(news, ["000_a", "001_b", "002_c", "003_d"]);
}

#[test]
fn contiguous_sets_renumber_to_themselves() {
    let pairs = pairs_of(&["000_a", "001_b", "002_c"]);
    assert_eq!(pairs.len(), 3);
    for (old, new) in &pairs {
        assert_eq!(old, new);
    }
}

#[test]
fn scan_order_decides_numeric_ties() {
    let pairs = pairs_of(&["001_b", "001_a"]);
    let olds: Vec<&str> = pairs.iter().map(|p| p.0.as_str()).collect();
    let news: Vec<&str> = pairs.iter().map(|p| p.1.as_str()).collect();
    assert_eq!(olds, ["001_b", "001_a"]);
    assert_eq!(news, ["000_b", "001_a"]);
}

#[test]
fn trailing_zeros_make_equal_ordinals() {
    let pairs = pairs_of(&["001.50_x", "001.5_y"]);
    let news: Vec<&str> = pairs.iter().map(|p| p.1.as_str()).collect();
    assert_eq!(news, ["000_x", "001_y"]);
}

#[test]
fn unmatched_names_are_left_out() {
    let pairs = pairs_of(&["notes", "001_a", "12_short"]);
    assert_eq!(pairs.len(), 1);
    assert_eq!(pairs[0].0, "001_a");
    assert_eq!(pairs[0].1, "000_a");
}

#[test]
fn sparse_sets_become_contiguous() {
    let pairs = pairs_of(&["005", "002_x", "009_y"]);
    let olds: Vec<&str> = pairs.iter().map(|p| p.0.as_str()).collect();
    let news: Vec<&str> = pairs.iter().map(|p| p.1.as_str()).collect();
    assert_eq!(olds, ["002_x", "005", "009_y"]);
    assert_eq!(news, ["000_x", "001", "002_y"]);
}

#[test]
fn confirmation_accepts_y_of_either_case() {
    assert!(confirmation_grants("y"));
    assert!(confirmation_grants("Y"));
    assert!(confirmation_grants("y\n"));
    assert!(confirmation_grants(" y \r\n"));
}

#[test]
fn confirmation_declines_anything_else() {
    assert!(!confirmation_grants("n"));
    assert!(!confirmation_grants("yes"));
    assert!(!confirmation_grants(""));
    assert!(!confirmation_grants("\n"));
}

#[test]
fn declined_confirmation_keeps_every_name() {
    let pairs = pairs_of(&["001.5_c", "000_a"]);
    let kept = approved_renames(pairs, false);
    assert!(kept.is_empty());
}

#[test]
fn granted_confirmation_keeps_the_whole_plan() {
    let pairs = pairs_of(&["001.5_c", "000_a"]);
    let expected = pairs.clone();
    let kept = approved_renames(pairs, true);
    assert_eq!(kept, expected);
}
