use recon::amounts::{remove_trailing_zeros, trim_is_defined};

#[test]
fn trims_trailing_zeros_and_point() {
    assert_eq!(remove_trailing_zeros("12.00".to_string(), 0), "12");
    assert_eq!(remove_trailing_zeros("12.50".to_string(), 0), "12.5");
    assert_eq!(remove_trailing_zeros("-45.10".to_string(), 0), "-45.1");
}

#[test]
fn trims_at_most_three_characters() {
    assert_eq!(remove_trailing_zeros("10000".to_string(), 0), "10");
    assert_eq!(remove_trailing_zeros("0.00".to_string(), 0), "0");
}

#[test]
fn leaves_other_endings_alone() {
    assert_eq!(remove_trailing_zeros("12.34".to_string(), 0), "12.34");
    assert_eq!(remove_trailing_zeros("abc".to_string(), 0), "abc");
}

#[test]
fn later_iterations_trim_less() {
    assert_eq!(remove_trailing_zeros("1000".to_string(), 2), "100");
    assert_eq!(remove_trailing_zeros("1000".to_string(), 3), "1000");
    assert_eq!(remove_trailing_zeros("1000".to_string(), 5), "1000");
}

#[test]
fn trimming_is_defined_unless_the_amount_runs_out() {
    assert!(trim_is_defined(&"12.50".to_string(), 0));
    assert!(trim_is_defined(&"0.00".to_string(), 0));
    assert!(trim_is_defined(&"".to_string(), 3));
    assert!(!trim_is_defined(&"0".to_string(), 0));
    assert!(!trim_is_defined(&"00".to_string(), 0));
    assert!(!trim_is_defined(&"".to_string(), 0));
    assert!(trim_is_defined(&"0".to_string(), 2));
    assert_eq!(remove_trailing_zeros("0".to_string(), 2), "");
    assert!(trim_is_defined(&"10".to_string(), 0));
}
