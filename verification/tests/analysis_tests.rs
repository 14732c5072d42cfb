use benfordlens::analysis::{observed_counts, RiskLevel};
use benfordlens::digit::DigitPosition;
use benfordlens::statistics::{observed_count, observed_total, ConformityLevel};

#[test]
fn test_risk_level_classification() {
    assert_eq!(RiskLevel::Low.label(), "Low");
    assert_eq!(RiskLevel::Moderate.label(), "Moderate");
    assert_eq!(RiskLevel::High.label(), "High");
    assert_eq!(RiskLevel::Critical.label(), "Critical");
}

#[test]
fn risk_level_colors() {
    assert_eq!(RiskLevel::Low.color(), "green");
    assert_eq!(RiskLevel::Moderate.color(), "yellow");
    assert_eq!(RiskLevel::High.color(), "red");
    assert_eq!(RiskLevel::Critical.color(), "bright_red");
}

#[test]
fn conformity_labels() {
    assert_eq!(ConformityLevel::CloseConformity.label(), "Close Conformity");
    assert_eq!(ConformityLevel::AcceptableConformity.label(), "Acceptable Conformity");
    assert_eq!(ConformityLevel::MarginallyAcceptableConformity.label(), "Marginally Acceptable");
    assert_eq!(ConformityLevel::Nonconformity.label(), "Nonconformity");
}

#[test]
fn observed_counts_first_digit() {
    // 10, 20, 30, 40, 50 have first digits 1..5.
    let t = observed_counts(&vec![1, 2, 3, 4, 5], DigitPosition::First).unwrap();
    assert_eq!(t.len(), 9);
    assert_eq!(t[0], (1, 1));
    assert_eq!(t[4], (5, 1));
    assert_eq!(t[8], (9, 0));
}

#[test]
fn observed_counts_repeated_and_out_of_range() {
    let digits = vec![2, 9, 2, 2, 0, 10, 9];
    let t = observed_counts(&digits, DigitPosition::First).unwrap();
    assert_eq!(t[1], (2, 3));
    assert_eq!(t[8], (9, 2));
    let total: usize = t.iter().map(|(_, c)| c).sum();
    // 0 and 10 are not first digits and are not counted.
    assert_eq!(total, 5);
    let t2 = observed_counts(&digits, DigitPosition::Second).unwrap();
    assert_eq!(t2.len(), 10);
    assert_eq!(t2[0], (0, 1));
    let total2: usize = t2.iter().map(|(_, c)| c).sum();
    assert_eq!(total2, 6);
}

#[test]
fn observed_counts_empty_is_error() {
    let r = observed_counts(&vec![], DigitPosition::First);
    assert_eq!(r, Err("no valid digits could be extracted".to_string()));
}

#[test]
fn observed_total_validation() {
    assert_eq!(observed_total(&[]), Err("observed data is empty".to_string()));
    assert_eq!(observed_total(&[(1, 0), (2, 0)]), Err("total count is zero".to_string()));
    assert_eq!(observed_total(&[(9, 1000)]), Ok(1000));
    assert_eq!(observed_total(&[(1, 300), (2, 200), (3, 100)]), Ok(600));
}

#[test]
fn observed_count_lookup() {
    let obs = [(1, 300), (2, 200), (9, 50)];
    assert_eq!(observed_count(&obs, 1), 300);
    assert_eq!(observed_count(&obs, 9), 50);
    assert_eq!(observed_count(&obs, 5), 0);
    // As in a map built from the pairs, the last pair for a digit wins.
    assert_eq!(observed_count(&[(3, 1), (3, 7)], 3), 7);
}

#[test]
fn observed_count_reads_back_observed_counts() {
    let digits = vec![1, 1, 5, 9, 9, 9, 0, 12];
    let t = observed_counts(&digits, DigitPosition::First).unwrap();
    assert_eq!(observed_count(&t, 1), 2);
    assert_eq!(observed_count(&t, 5), 1);
    assert_eq!(observed_count(&t, 9), 3);
    assert_eq!(observed_count(&t, 4), 0);
    // Not first digits: not in the table.
    assert_eq!(observed_count(&t, 0), 0);
    assert_eq!(observed_count(&t, 12), 0);
}
