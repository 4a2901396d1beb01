use rnd::policy::{display_policy, DisplayPolicy, AMOUNT_THRESHOLD};
use rnd::present::{count_table, present};
use rnd::sample::{decimal_strings, assignment_text};
use rnd::text::decimal_string;
use rnd::weights::{parse_decimal, parse_weights};
use rnd::cli::weights_for;
use rnd::error::RndError;

fn strings(v: &[&str]) -> Vec<String> {
    v.iter().map(|s| s.to_string()).collect()
}

#[test]
fn policy_threshold() {
    assert_eq!(AMOUNT_THRESHOLD, 10);
    assert_eq!(display_policy(10, false, false), DisplayPolicy { show_all: true, show_count: false });
    assert_eq!(display_policy(11, false, false), DisplayPolicy { show_all: false, show_count: true });
    assert_eq!(display_policy(11, false, true), DisplayPolicy { show_all: true, show_count: false });
    assert_eq!(display_policy(5, true, false), DisplayPolicy { show_all: false, show_count: true });
    assert_eq!(display_policy(5, true, true), DisplayPolicy { show_all: true, show_count: true });
    assert_eq!(display_policy(0, false, false), DisplayPolicy { show_all: true, show_count: false });
    assert_eq!(display_policy(500, true, true), DisplayPolicy { show_all: true, show_count: true });
}

#[test]
fn count_table_sorted_by_count() {
    let s = strings(&["a", "b", "a", "c", "b", "a"]);
    assert_eq!(count_table(&s), vec![(0, 3), (1, 2), (3, 1)]);
    let s = strings(&["c", "a", "b", "b"]);
    assert_eq!(count_table(&s), vec![(2, 2), (0, 1), (1, 1)]);
    assert_eq!(count_table(&vec![]), vec![]);
}

#[test]
fn count_table_ignores_draw_order() {
    let a = strings(&["x", "y", "x", "z", "x", "y"]);
    let b = strings(&["y", "x", "z", "x", "y", "x"]);
    let rows = |s: &Vec<String>| -> Vec<(String, u64)> {
        count_table(s).into_iter().map(|(i, c)| (s[i].clone(), c)).collect()
    };
    assert_eq!(rows(&a), rows(&b));
    assert_eq!(present(&a, DisplayPolicy { show_all: false, show_count: true }), "x: 3\ny: 2\nz: 1\n");
    assert_eq!(present(&b, DisplayPolicy { show_all: false, show_count: true }), "x: 3\ny: 2\nz: 1\n");
}

#[test]
fn presentation_forms() {
    let s = strings(&["a", "b", "a"]);
    assert_eq!(present(&s, DisplayPolicy { show_all: true, show_count: false }), "a, b, a\n");
    assert_eq!(present(&s, DisplayPolicy { show_all: false, show_count: true }), "a: 2\nb: 1\n");
    assert_eq!(present(&s, DisplayPolicy { show_all: true, show_count: true }), "a, b, a\n\na: 2\nb: 1\n");
    assert_eq!(present(&vec![], DisplayPolicy { show_all: true, show_count: false }), "\n");
}

#[test]
fn decimal_notation() {
    assert_eq!(decimal_string(0), "0");
    assert_eq!(decimal_string(7), "7");
    assert_eq!(decimal_string(1234567890), "1234567890");
    assert_eq!(decimal_string(u128::MAX), u128::MAX.to_string());
    assert_eq!(decimal_strings(&vec![3, 10, 6]), strings(&["3", "10", "6"]));
}

#[test]
fn decimal_weights() {
    assert_eq!(parse_decimal("1.5"), Ok((15, 1)));
    assert_eq!(parse_decimal(".5"), Ok((5, 1)));
    assert_eq!(parse_decimal("2."), Ok((2, 0)));
    assert_eq!(parse_decimal("007"), Ok((7, 0)));
    assert_eq!(parse_decimal("4294967296"), Ok((4294967296, 0)));
    assert_eq!(parse_decimal("18446744073709551615"), Ok((u64::MAX, 0)));
    assert_eq!(parse_decimal("18446744073709551616"), Err(RndError::WeightsTooLarge));
    assert_eq!(parse_decimal(""), Err(RndError::InvalidWeight));
    assert_eq!(parse_decimal("."), Err(RndError::InvalidWeight));
    assert_eq!(parse_decimal("1.2.3"), Err(RndError::InvalidWeight));
    assert_eq!(parse_decimal("1e3"), Err(RndError::InvalidWeight));
    assert_eq!(parse_decimal("-1"), Err(RndError::InvalidWeight));
    assert_eq!(parse_weights(&strings(&["1", "0.5", "2.25"])), Ok(vec![100, 50, 225]));
    assert_eq!(parse_weights(&strings(&["3", "0"])), Ok(vec![3, 0]));
    assert_eq!(parse_weights(&strings(&["1", "0.0000000001"])), Ok(vec![10000000000, 1]));
    assert_eq!(parse_weights(&strings(&["1.5", "18446744073709551615"])), Err(RndError::WeightsTooLarge));
    assert_eq!(parse_weights(&strings(&["99999999999", "x"])), Err(RndError::InvalidWeight));
    assert_eq!(weights_for(3, &vec![]), Ok(vec![1, 1, 1]));
    assert_eq!(weights_for(3, &strings(&["1", "2"])), Err(RndError::WeightCount));
}

#[test]
fn assignment_lines_text() {
    let t = assignment_text(&strings(&["a", "b"]), &strings(&["y", "x"]));
    assert_eq!(t, "a: y\nb: x\n");
    assert_eq!(assignment_text(&vec![], &vec![]), "\n");
}
