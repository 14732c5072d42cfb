use benfordlens::digit::DigitPosition;
use benfordlens::distribution::benford_terms;

#[test]
fn test_digit_position_range() {
    assert_eq!(DigitPosition::First.range(), (1, 9));
    assert_eq!(DigitPosition::Second.range(), (0, 9));
    assert_eq!(DigitPosition::FirstTwo.range(), (10, 99));
    assert_eq!(DigitPosition::FirstThree.range(), (100, 999));
    assert_eq!(DigitPosition::LastTwo.range(), (0, 99));
}

#[test]
fn test_digit_position_category_count() {
    assert_eq!(DigitPosition::First.category_count(), 9);
    assert_eq!(DigitPosition::Second.category_count(), 10);
    assert_eq!(DigitPosition::FirstTwo.category_count(), 90);
    assert_eq!(DigitPosition::FirstThree.category_count(), 900);
}

#[test]
fn digit_position_values_follow_range() {
    assert_eq!(DigitPosition::First.values(), vec![1, 2, 3, 4, 5, 6, 7, 8, 9]);
    assert_eq!(DigitPosition::Third.values(), (0..=9).collect::<Vec<u32>>());
    let v = DigitPosition::FirstThree.values();
    assert_eq!(v.len(), 900);
    assert_eq!(v[0], 100);
    assert_eq!(v[899], 999);
    assert_eq!(DigitPosition::LastTwo.values().len(), DigitPosition::LastTwo.category_count());
}

#[test]
fn digit_position_labels() {
    assert_eq!(DigitPosition::First.label(), "First Digit");
    assert_eq!(DigitPosition::Second.label(), "Second Digit");
    assert_eq!(DigitPosition::Third.label(), "Third Digit");
    assert_eq!(DigitPosition::FirstTwo.label(), "First-Two Digits");
    assert_eq!(DigitPosition::FirstThree.label(), "First-Three Digits");
    assert_eq!(DigitPosition::LastTwo.label(), "Last-Two Digits");
}

#[test]
fn benford_terms_per_position() {
    assert_eq!(benford_terms(DigitPosition::First, 1), vec![1]);
    assert_eq!(benford_terms(DigitPosition::FirstTwo, 45), vec![45]);
    assert_eq!(benford_terms(DigitPosition::FirstThree, 567), vec![567]);
    assert_eq!(benford_terms(DigitPosition::Second, 0), vec![10, 20, 30, 40, 50, 60, 70, 80, 90]);
    assert_eq!(benford_terms(DigitPosition::Second, 9), vec![19, 29, 39, 49, 59, 69, 79, 89, 99]);
    let third = benford_terms(DigitPosition::Third, 3);
    assert_eq!(third.len(), 90);
    assert_eq!(third[0], 103);
    assert_eq!(third[89], 993);
    assert!(benford_terms(DigitPosition::LastTwo, 42).is_empty());
}

#[test]
fn benford_terms_cover_block_once() {
    // Every second-digit term over all digits covers 10..=99 exactly once.
    let mut all: Vec<u32> = Vec::new();
    for d in DigitPosition::Second.values() {
        all.extend(benford_terms(DigitPosition::Second, d));
    }
    all.sort();
    assert_eq!(all, (10..=99).collect::<Vec<u32>>());
    let mut all3: Vec<u32> = Vec::new();
    for d in DigitPosition::Third.values() {
        all3.extend(benford_terms(DigitPosition::Third, d));
    }
    all3.sort();
    assert_eq!(all3, (100..=999).collect::<Vec<u32>>());
}

#[test]
fn benford_terms_first_digit_probabilities_sum_to_one() {
    // The terms, fed to log10(1 + 1/x), give Benford's probabilities.
    let mut sum = 0.0f64;
    for d in DigitPosition::First.values() {
        for x in benford_terms(DigitPosition::First, d) {
            sum += (1.0 + 1.0 / x as f64).log10();
        }
    }
    assert!((sum - 1.0).abs() < 1e-9);
    let p0: f64 = benford_terms(DigitPosition::Second, 0)
        .into_iter()
        .map(|x| (1.0 + 1.0 / x as f64).log10())
        .sum();
    assert!((p0 - 0.11968).abs() < 0.001);
}
