use rand::rngs::StdRng;
use rand::SeedableRng;
use rnd::cli::{resolve_bounds, run_cli, Command, Num, Output, FLOAT_0, FLOAT_1};
use rnd::error::RndError;
use rnd::sample::{
    assign, check_weights, choose_with_repetition, choose_without_repetition, random_int,
    random_string, roll_die, shuffle, signed_decimal_string, Case,
};

fn strings(v: &[&str]) -> Vec<String> {
    v.iter().map(|s| s.to_string()).collect()
}

fn seeded() -> StdRng {
    StdRng::seed_from_u64(7)
}

fn text(r: Result<Output, RndError>) -> String {
    match r {
        Ok(Output::Text(t)) => t,
        other => panic!("expected text, got {:?}", other),
    }
}

#[test]
fn weighted_frequencies_follow_weights() {
    let mut rng = seeded();
    let items = strings(&["a", "b"]);
    let draws = choose_with_repetition(&items, &vec![1, 3], 40000, &mut rng).unwrap();
    assert_eq!(draws.len(), 40000);
    let b = draws.iter().filter(|s| s.as_str() == "b").count() as f64 / 40000.0;
    assert!((b - 0.75).abs() < 0.02, "frequency of b was {}", b);
}

#[test]
fn zero_weight_items_are_never_drawn() {
    let mut rng = seeded();
    let items = strings(&["a", "b", "c"]);
    let draws = choose_with_repetition(&items, &vec![0, 1, 0], 50, &mut rng).unwrap();
    assert!(draws.iter().all(|s| s == "b"));
}

#[test]
fn weight_errors() {
    assert_eq!(check_weights(&vec![]), Err(RndError::NoItems));
    assert_eq!(check_weights(&vec![0, 0]), Err(RndError::AllWeightsZero));
    assert_eq!(check_weights(&vec![u64::MAX, 1]), Err(RndError::WeightsTooLarge));
    assert_eq!(check_weights(&vec![u32::MAX as u64, 1]), Ok(()));
    assert_eq!(check_weights(&vec![0, 2]), Ok(()));
    let mut rng = seeded();
    let items = strings(&["a", "b"]);
    assert_eq!(choose_with_repetition(&items, &vec![0, 0], 3, &mut rng), Err(RndError::AllWeightsZero));
    assert_eq!(choose_without_repetition(&items, &vec![0, 0], 1, &mut rng), Err(RndError::AllWeightsZero));
    assert_eq!(choose_with_repetition(&vec![], &vec![], 1, &mut rng), Err(RndError::NoItems));
}

#[test]
fn shuffle_is_a_permutation() {
    let mut rng = seeded();
    let items = strings(&["a", "b", "c", "d", "e", "b"]);
    let mut shuffled = shuffle(items.clone(), &mut rng);
    assert_eq!(shuffled.len(), items.len());
    shuffled.sort();
    let mut sorted = items.clone();
    sorted.sort();
    assert_eq!(shuffled, sorted);
    assert!(shuffle(vec![], &mut rng).is_empty());
}

#[test]
fn choose_without_repetition_gives_distinct_items() {
    let mut rng = seeded();
    let items = strings(&["a", "b", "c", "d"]);
    for amount in 0..=4 {
        let mut v = choose_without_repetition(&items, &vec![1, 2, 3, 4], amount, &mut rng).unwrap();
        assert_eq!(v.len(), amount);
        v.sort();
        v.dedup();
        assert_eq!(v.len(), amount);
    }
    assert_eq!(
        choose_without_repetition(&items, &vec![1, 1, 1, 1], 5, &mut rng),
        Err(RndError::TooFewItems)
    );
    let mut v = choose_without_repetition(&items, &vec![4294967295, 1, 2, 3], 4, &mut rng).unwrap();
    v.sort();
    assert_eq!(v, items);
    let v = choose_without_repetition(&strings(&["a", "b", "c"]), &vec![0, 5, 0], 3, &mut rng).unwrap();
    assert_eq!(v[0], "b");
    assert_eq!(v.len(), 3);
}

#[test]
fn random_int_stays_in_range() {
    let mut rng = seeded();
    for _ in 0..200 {
        let v = random_int(0, 1, false, &mut rng).unwrap();
        assert_eq!(v, 0);
        let w = random_int(-3, 3, true, &mut rng).unwrap();
        assert!((-3..=3).contains(&w));
        let x = random_int(-3, 3, false, &mut rng).unwrap();
        assert!((-3..3).contains(&x));
    }
}

#[test]
fn bounds_errors() {
    let mut rng = seeded();
    assert_eq!(random_int(5, 5, false, &mut rng), Err(RndError::BoundsOrder));
    assert_eq!(random_int(5, 2, true, &mut rng), Err(RndError::BoundsOrder));
    assert_eq!(roll_die(0, 3, &mut rng), Err(RndError::NoSides));
    assert_eq!(
        assign(&strings(&["a", "b"]), strings(&["x"]), &mut rng),
        Err(RndError::UnequalLists)
    );
    let r = run_cli(Command::Random { inclusive: false, precision: 2, start: Some(Num::Int(4)), end: Some(Num::Int(4)) }, &mut rng);
    assert_eq!(r.unwrap_err(), RndError::BoundsOrder);
    let r = run_cli(Command::Die { sides: 0, times: 1, count: false, all: false }, &mut rng);
    assert_eq!(r.unwrap_err(), RndError::NoSides);
    let r = run_cli(Command::Assign { left: strings(&["a"]), right: vec![] }, &mut rng);
    assert_eq!(r.unwrap_err(), RndError::UnequalLists);
}

#[test]
fn die_rolls_stay_in_range() {
    let mut rng = seeded();
    let rolls = roll_die(6, 500, &mut rng).unwrap();
    assert_eq!(rolls.len(), 500);
    assert!(rolls.iter().all(|r| (1..=6).contains(r)));
    assert!((1..=6).all(|f| rolls.contains(&f)));
    assert_eq!(roll_die(1, 4, &mut rng).unwrap(), vec![1, 1, 1, 1]);
}

#[test]
fn die_three_rolls_listed() {
    let mut rng = StdRng::seed_from_u64(42);
    let t = text(run_cli(Command::Die { sides: 6, times: 3, count: false, all: true }, &mut rng));
    let line = t.strip_suffix('\n').unwrap();
    let rolls: Vec<u32> = line.split(", ").map(|s| s.parse().unwrap()).collect();
    assert_eq!(rolls.len(), 3);
    assert!(rolls.iter().all(|r| (1..=6).contains(r)));
}

#[test]
fn choose_two_of_three_counted() {
    let mut rng = seeded();
    let cmd = Command::Choose {
        items: strings(&["a", "b", "c"]),
        amount: 2,
        weights: strings(&["1", "1", "1"]),
        count: true,
        all: false,
        repetition: false,
    };
    let t = text(run_cli(cmd, &mut rng));
    assert!(!t.contains(", "));
    let rows: Vec<&str> = t.trim_end_matches('\n').lines().collect();
    assert_eq!(rows.len(), 2);
    let mut labels = Vec::new();
    let mut total = 0;
    for row in rows {
        let (label, count) = row.split_once(": ").unwrap();
        assert!(["a", "b", "c"].contains(&label));
        labels.push(label.to_string());
        total += count.parse::<u32>().unwrap();
    }
    labels.dedup();
    assert_eq!(labels.len(), 2);
    assert_eq!(total, 2);
}

#[test]
fn choose_many_shows_only_counts() {
    let mut rng = seeded();
    let cmd = Command::Choose {
        items: strings(&["a", "b"]),
        amount: 30,
        weights: vec![],
        count: false,
        all: false,
        repetition: false,
    };
    let t = text(run_cli(cmd, &mut rng));
    assert!(!t.contains(", "));
    let total: u32 = t.lines().map(|l| l.split_once(": ").unwrap().1.parse::<u32>().unwrap()).sum();
    assert_eq!(total, 30);
}

#[test]
fn choose_weight_errors() {
    let mut rng = seeded();
    let mk = |weights: &[&str]| Command::Choose {
        items: strings(&["a", "b"]),
        amount: 1,
        weights: strings(weights),
        count: false,
        all: false,
        repetition: false,
    };
    assert_eq!(run_cli(mk(&["1"]), &mut rng).unwrap_err(), RndError::WeightCount);
    assert_eq!(run_cli(mk(&["1", "x"]), &mut rng).unwrap_err(), RndError::InvalidWeight);
    assert_eq!(run_cli(mk(&["-1", "2"]), &mut rng).unwrap_err(), RndError::InvalidWeight);
    assert_eq!(run_cli(mk(&["0", "0.0"]), &mut rng).unwrap_err(), RndError::AllWeightsZero);
    assert_eq!(run_cli(mk(&["18446744073709551615", "1"]), &mut rng).unwrap_err(), RndError::WeightsTooLarge);
    assert!(run_cli(mk(&["4294967295", "1"]), &mut rng).is_ok());
    assert!(run_cli(mk(&["1", "0.0000000001"]), &mut rng).is_ok());
    assert_eq!(text(run_cli(mk(&["0", "0.5"]), &mut rng)), "b\n");
}

#[test]
fn coin_flips() {
    let mut rng = seeded();
    let t = text(run_cli(Command::Coin { amount: 3, count: false, all: false }, &mut rng));
    let flips: Vec<&str> = t.trim_end().split(", ").collect();
    assert_eq!(flips.len(), 3);
    assert!(flips.iter().all(|f| *f == "heads" || *f == "tails"));
    let t = text(run_cli(Command::Coin { amount: 2, count: true, all: false }, &mut rng));
    assert!(!t.contains(", "));
    let total: u32 = t.lines().map(|l| l.split_once(": ").unwrap().1.parse::<u32>().unwrap()).sum();
    assert_eq!(total, 2);
    let t = text(run_cli(Command::Coin { amount: 1000, count: false, all: false }, &mut rng));
    let total: u32 = t.lines().map(|l| l.split_once(": ").unwrap().1.parse::<u32>().unwrap()).sum();
    assert_eq!(total, 1000);
}

#[test]
fn shuffle_command_lists_every_item() {
    let mut rng = seeded();
    let t = text(run_cli(Command::Shuffle { items: strings(&["x", "y", "z"]) }, &mut rng));
    let mut parts: Vec<&str> = t.trim_end().split(", ").collect();
    parts.sort();
    assert_eq!(parts, vec!["x", "y", "z"]);
    assert_eq!(text(run_cli(Command::Shuffle { items: vec![] }, &mut rng)), "");
}

#[test]
fn assign_pairs_every_item() {
    let mut rng = seeded();
    let t = text(run_cli(Command::Assign { left: strings(&["a", "b", "c"]), right: strings(&["1", "2", "3"]) }, &mut rng));
    let lines: Vec<&str> = t.lines().collect();
    assert_eq!(lines.len(), 3);
    let mut rights = Vec::new();
    for (line, left) in lines.iter().zip(["a", "b", "c"]) {
        let (l, r) = line.split_once(": ").unwrap();
        assert_eq!(l, left);
        rights.push(r);
    }
    rights.sort();
    assert_eq!(rights, vec!["1", "2", "3"]);
}

#[test]
fn random_strings_in_case() {
    let mut rng = seeded();
    let s = random_string(40, Case::Lower, &mut rng);
    assert_eq!(s.len(), 40);
    assert!(s.chars().all(|c| c.is_ascii_digit() || c.is_ascii_lowercase()));
    let s = random_string(40, Case::Upper, &mut rng);
    assert!(s.chars().all(|c| c.is_ascii_digit() || c.is_ascii_uppercase()));
    let s = random_string(200, Case::Mixed, &mut rng);
    assert!(s.chars().all(|c| c.is_ascii_alphanumeric()));
    assert!(s.chars().any(|c| c.is_ascii_uppercase()) && s.chars().any(|c| c.is_ascii_lowercase()));
    let t = text(run_cli(Command::String { length: 0, case: Case::Lower }, &mut rng));
    assert_eq!(t, "\n");
}

#[test]
fn random_command_bounds() {
    let mut rng = seeded();
    for _ in 0..50 {
        let t = text(run_cli(Command::Random { inclusive: false, precision: 6, start: Some(Num::Int(5)), end: None }, &mut rng));
        let v: i128 = t.trim_end().parse().unwrap();
        assert!((0..5).contains(&v));
        let t = text(run_cli(Command::Random { inclusive: true, precision: 6, start: Some(Num::Int(-5)), end: None }, &mut rng));
        let v: i128 = t.trim_end().parse().unwrap();
        assert!((-5..=0).contains(&v));
    }
    match run_cli(Command::default(), &mut rng) {
        Ok(Output::FloatRange { lower, upper, inclusive, precision }) => {
            assert_eq!(lower, Num::Float(0.0f64.to_bits()));
            assert_eq!(upper, Num::Float(1.0f64.to_bits()));
            assert!(!inclusive);
            assert_eq!(precision, 2);
        },
        other => panic!("unexpected {:?}", other),
    }
}

#[test]
fn bounds_resolution() {
    let neg = Num::Float((-2.5f64).to_bits());
    assert_eq!(resolve_bounds(Some(neg), None), (neg, Num::Int(0)));
    let pos = Num::Float(2.5f64.to_bits());
    assert_eq!(resolve_bounds(Some(pos), None), (Num::Int(0), pos));
    assert_eq!(resolve_bounds(Some(Num::Int(-3)), None), (Num::Int(-3), Num::Int(0)));
    assert_eq!(resolve_bounds(None, Some(Num::Int(9))), (Num::Float(FLOAT_0), Num::Int(9)));
    assert_eq!(resolve_bounds(None, None), (Num::Float(FLOAT_0), Num::Float(FLOAT_1)));
    assert!(!Num::Float((-0.0f64).to_bits()).is_negative());
    assert!(!Num::Float((-f64::NAN).to_bits()).is_negative());
    assert!(Num::Float(f64::NEG_INFINITY.to_bits()).is_negative());
    assert!(!Num::Int(0).is_negative());
}

#[test]
fn signed_decimals() {
    assert_eq!(signed_decimal_string(0), "0");
    assert_eq!(signed_decimal_string(-42), "-42");
    assert_eq!(signed_decimal_string(i128::MIN), i128::MIN.to_string());
    assert_eq!(signed_decimal_string(i128::MAX), i128::MAX.to_string());
}

#[test]
fn error_messages() {
    assert_eq!(RndError::BoundsOrder.message(), "lower bound should be smaller than upper");
    assert_eq!(RndError::NoSides.message(), "number of sides must be at least 1");
    assert_eq!(RndError::UnequalLists.message(), "`left` and `right` lists of unequal length");
    assert_eq!(RndError::NoItems.message(), "No weights provided in distribution");
    assert_eq!(RndError::AllWeightsZero.message(), "All weights are zero in distribution");
    assert_eq!(RndError::InvalidWeight.message(), "A weight is invalid in distribution");
}

#[test]
fn shuffle_changes_the_order() {
    let mut rng = seeded();
    let items: Vec<String> = (0..20).map(|i| i.to_string()).collect();
    let shuffled = shuffle(items.clone(), &mut rng);
    assert_ne!(shuffled, items);
    let t = text(run_cli(Command::Shuffle { items: items.clone() }, &mut rng));
    assert_ne!(t, format!("{}\n", items.join(", ")));
}
