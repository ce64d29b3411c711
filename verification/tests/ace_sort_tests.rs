use std::cmp::Ordering;

use acesort::ace_sort::ace_cmp;

#[test]
fn test_ace_cmp() {
    for (a, b, ord) in [
        ("", "", Ordering::Equal),
        ("", "x", Ordering::Less),
        ("x", "", Ordering::Greater),
        ("x", "x", Ordering::Equal),
        ("x", "y", Ordering::Less),
        ("x2", "x10", Ordering::Less),
        ("x10", "x2", Ordering::Greater),
        ("2", "x2", Ordering::Less),
        ("x00", "x02", Ordering::Less),
        ("x02a", "x02b", Ordering::Less),
        ("001", "02", Ordering::Less),
        ("1002", "201", Ordering::Greater),
        (
            // Longer string of zeroes is bigger
            "x002",
            "x02",
            Ordering::Greater,
        ),
        ("x02", "x002", Ordering::Less),
        (
            // `ace_cmp()` will not generate correct ordering of decimals
            "3.14",
            "3.015",
            Ordering::Less,
        ),
        (
            // Arbitrarily long numbers can be sorted
            "999999999999999999999999999999999999999999999999999999999999999999999997",
            "999999999999999999999999999999999999999999999999999999999999999999999998",
            Ordering::Less,
        ),
    ] {
        println!("\nComparing '{a}' <=> '{b}' expecting {ord:?}");
        assert_eq!(ace_cmp(a, b), ord);
    }
}

#[test]
fn reflexive_on_samples() {
    for a in ["", "x", "chr10", "x002", "3.14", "a1b2c3", "000", "9", "\u{e9}5"] {
        assert_eq!(ace_cmp(a, a), Ordering::Equal);
    }
}

#[test]
fn antisymmetric_on_samples() {
    let samples = ["", "x", "y", "x2", "x10", "x00", "x02", "x002", "chr1", "chr10", "3.14", "3.015", "001", "02"];
    for a in samples {
        for b in samples {
            let fwd = ace_cmp(a, b);
            let bwd = ace_cmp(b, a);
            assert_eq!(bwd, fwd.reverse());
        }
    }
}

#[test]
fn empty_string_sorts_first() {
    assert_eq!(ace_cmp("", ""), Ordering::Equal);
    assert_eq!(ace_cmp("", "x"), Ordering::Less);
    assert_eq!(ace_cmp("x", ""), Ordering::Greater);
}

#[test]
fn digit_runs_compare_numerically() {
    assert_eq!(ace_cmp("x2", "x10"), Ordering::Less);
    assert_eq!(ace_cmp("x10", "x2"), Ordering::Greater);
}

#[test]
fn zero_padding_breaks_ties() {
    assert_eq!(ace_cmp("x00", "x02"), Ordering::Less);
    assert_eq!(ace_cmp("x002", "x02"), Ordering::Greater);
    assert_eq!(ace_cmp("x02", "x002"), Ordering::Less);
}

#[test]
fn long_digit_runs_do_not_overflow() {
    let a = "999999999999999999999999999999999999999999999999999999999999999999999997";
    let b = "999999999999999999999999999999999999999999999999999999999999999999999998";
    assert!(a.len() > 70);
    assert_eq!(ace_cmp(a, b), Ordering::Less);
    assert_eq!(ace_cmp(b, a), Ordering::Greater);
}

#[test]
fn decimals_compare_as_digit_runs_not_numbers() {
    // "14" and "015" compare as the numbers 14 and 15, not as decimals.
    assert_eq!(ace_cmp("3.14", "3.015"), Ordering::Less);
}

#[test]
fn total_over_non_ascii_strings() {
    // Multi-byte characters are compared byte-wise and never break the
    // comparison; the digit runs after them still compare numerically.
    assert_eq!(ace_cmp("\u{e9}5", "\u{e9}6"), Ordering::Less);
    assert_eq!(ace_cmp("\u{e9}2", "\u{e9}10"), Ordering::Less);
    assert_eq!(ace_cmp("\u{e9}", "\u{e9}"), Ordering::Equal);
}

#[test]
fn sorts_chromosome_names_naturally() {
    let mut lines = vec![
        String::from("chr10"),
        String::from("chr2"),
        String::from("chr1"),
    ];
    lines.sort_by(|a, b| ace_cmp(a, b));
    assert_eq!(lines, vec![
        String::from("chr1"),
        String::from("chr2"),
        String::from("chr10"),
    ]);
}
