//! The commands of the program and what each of them prints.
use rand::rngs::StdRng;
use vstd::prelude::*;
use vstd::string::StringExecFns;

use crate::error::RndError;
use crate::policy::{display_policy, policy_spec};
use crate::present::{list_text, present, shows};
use crate::rng::{is_alphanumeric, weight_sum};
use crate::sample::{
    assign, assignment_lines, assignment_text, choose_with_repetition, choose_without_repetition,
    decimal_strings, drawable, random_int, random_string, roll_die, shuffle, signed_decimal,
    signed_decimal_string, weights_verdict, with_case, Case,
};
use crate::text::{decimal, join_parts, views};
use crate::weights::{all_decimal, parse_weights, scaled};

verus! {

/// A bound of a random range: a whole number, or a floating-point number
/// held as the bits of its IEEE 754 double-precision encoding.
#[derive(Debug, Clone, Copy, PartialEq, Eq, Structural)]
pub enum Num {
    Int(i128),
    Float(u64),
}

/// The encoding of the floating-point zero.
pub const FLOAT_0: u64 = 0;

/// The encoding of the floating-point one.
pub const FLOAT_1: u64 = 0x3ff0_0000_0000_0000;

/// The sign bit of a double-precision encoding.
pub const SIGN_BIT: u64 = 0x8000_0000_0000_0000;

/// The encoding of positive infinity; above it, without the sign, lie the NaNs.
pub const INFINITY_BITS: u64 = 0x7ff0_0000_0000_0000;

/// The number is below zero: a negative whole number, or a floating-point
/// number with its sign set that is neither a zero nor a NaN.
pub open spec fn num_negative(n: Num) -> bool {
    match n {
        Num::Int(i) => i < 0,
        Num::Float(b) => b >= SIGN_BIT && 0 < b - SIGN_BIT <= INFINITY_BITS,
    }
}

impl Num {
    /// The number is below zero.
    pub fn is_negative(&self) -> (r: bool)
        ensures
            r == num_negative(*self),
    {
        match *self {
            Num::Int(i) => i < 0,
            Num::Float(b) => b >= SIGN_BIT && 0 < b - SIGN_BIT && b - SIGN_BIT <= INFINITY_BITS,
        }
    }
}

/// The bounds of a random range. A single bound is the upper one, from zero,
/// unless it is negative: then it is the lower one, up to zero. Missing bounds
/// are the floating-point zero and one.
pub open spec fn resolved_bounds(start: Option<Num>, end: Option<Num>) -> (Num, Num) {
    let (start, end) = match (start, end) {
        (Some(s), None) => if num_negative(s) {
            (Some(s), Some(Num::Int(0)))
        } else {
            (Some(Num::Int(0)), Some(s))
        },
        _ => (start, end),
    };
    (
        match start {
            Some(s) => s,
            None => Num::Float(FLOAT_0),
        },
        match end {
            Some(e) => e,
            None => Num::Float(FLOAT_1),
        },
    )
}

/// Works out the bounds of a random range from those given.
pub fn resolve_bounds(start: Option<Num>, end: Option<Num>) -> (r: (Num, Num))
    ensures
        r == resolved_bounds(start, end),
{
    let (start, end) = match (start, end) {
        (Some(s), None) => if s.is_negative() {
            (Some(s), Some(Num::Int(0)))
        } else {
            (Some(Num::Int(0)), Some(s))
        },
        _ => (start, end),
    };
    (
        match start {
            Some(s) => s,
            None => Num::Float(FLOAT_0),
        },
        match end {
            Some(e) => e,
            None => Num::Float(FLOAT_1),
        },
    )
}

/// The weights of `n` items given as decimal texts: one each when none are
/// given, else one per item, over their common denominator.
pub open spec fn choose_weights(n: nat, ts: Seq<Seq<char>>) -> Result<Seq<u64>, RndError> {
    if ts.len() == 0 {
        Ok(Seq::new(n, |i: int| 1u64))
    } else if ts.len() != n {
        Err(RndError::WeightCount)
    } else if !all_decimal(ts) {
        Err(RndError::InvalidWeight)
    } else if exists|i: int| 0 <= i < ts.len() && #[trigger] scaled(ts, i) > u64::MAX {
        Err(RndError::WeightsTooLarge)
    } else {
        Ok(Seq::new(n, |i: int| scaled(ts, i) as u64))
    }
}

/// Works out the weights of `n` items from their texts.
pub fn weights_for(n: usize, texts: &Vec<String>) -> (r: Result<Vec<u64>, RndError>)
    ensures
        match (r, choose_weights(n as nat, views(texts@))) {
            (Ok(v), Ok(w)) => v@ == w,
            (Err(e), Err(f)) => e == f,
            _ => false,
        },
{
    if texts.len() == 0 {
        let mut v: Vec<u64> = Vec::new();
        let mut i: usize = 0;
        while i < n
            invariant
                0 <= i <= n,
                v@ == Seq::new(i as nat, |k: int| 1u64),
            decreases n - i,
        {
            v.push(1);
            i += 1;
            assert(v@ =~= Seq::new(i as nat, |k: int| 1u64));
        }
        return Ok(v);
    }
    if texts.len() != n {
        return Err(RndError::WeightCount);
    }
    let r = parse_weights(texts);
    proof {
        let ts = views(texts@);
        if r is Ok {
            assert(r->Ok_0@ =~= Seq::new(n as nat, |i: int| scaled(ts, i) as u64));
        }
    }
    r
}

/// The outcomes of drawing `amount` of the items with repetition.
pub open spec fn drawn_with_repetition(s: Seq<Seq<char>>, items: Seq<Seq<char>>, w: Seq<u64>, amount: nat) -> bool {
    &&& s.len() == amount
    &&& forall|k: int| 0 <= k < amount ==> drawable(items, w, #[trigger] s[k])
}

/// The outcomes of drawing `amount` of the items without repetition: distinct
/// positions.
pub open spec fn drawn_without_repetition(s: Seq<Seq<char>>, items: Seq<Seq<char>>, amount: nat) -> bool {
    exists|idx: Seq<usize>|
        {
            &&& idx.len() == s.len() == amount
            &&& idx.no_duplicates()
            &&& forall|k: int| 0 <= k < idx.len() ==> #[trigger] idx[k] < items.len() && s[k] == items[idx[k] as int]
        }
}

/// What `choose` prints: `amount` of the items drawn with their weights, with
/// repetition when asked for or when there are fewer items than draws.
pub open spec fn choose_output(
    t: Seq<char>,
    items: Seq<Seq<char>>,
    w: Seq<u64>,
    amount: nat,
    count: bool,
    all: bool,
    repetition: bool,
) -> bool {
    exists|s: Seq<Seq<char>>|
        {
            &&& if repetition || amount > items.len() {
                drawn_with_repetition(s, items, w, amount)
            } else {
                drawn_without_repetition(s, items, amount)
            }
            &&& shows(t, s, policy_spec(amount, count, all))
        }
}

/// Chooses `amount` of the items, weighted by the decimal texts `weights`.
pub fn choose_cmd(
    items: &Vec<String>,
    amount: usize,
    weights: &Vec<String>,
    count: bool,
    all: bool,
    repetition: bool,
    rng: &mut StdRng,
) -> (r: Result<String, RndError>)
    ensures
        match choose_weights(items.len() as nat, views(weights@)) {
            Err(e) => r == Err::<String, RndError>(e),
            Ok(w) => match weights_verdict(w) {
                Err(e) => r == Err::<String, RndError>(e),
                Ok(_) => r matches Ok(t) && choose_output(t@, views(items@), w, amount as nat, count, all, repetition),
            },
        },
{
    let w = match weights_for(items.len(), weights) {
        Ok(w) => w,
        Err(e) => {
            return Err(e);
        },
    };
    let policy = display_policy(amount, count, all);
    if repetition || amount > items.len() {
        let outcomes = match choose_with_repetition(items, &w, amount, rng) {
            Ok(v) => v,
            Err(e) => {
                return Err(e);
            },
        };
        let t = present(&outcomes, policy);
        assert(drawn_with_repetition(views(outcomes@), views(items@), w@, amount as nat));
        Ok(t)
    } else {
        let outcomes = match choose_without_repetition(items, &w, amount, rng) {
            Ok(v) => v,
            Err(e) => {
                return Err(e);
            },
        };
        let t = present(&outcomes, policy);
        proof {
            let s = views(outcomes@);
            let idx = choose|idx: Seq<usize>|
                {
                    &&& idx.len() == outcomes.len() == amount
                    &&& idx.no_duplicates()
                    &&& forall|k: int|
                        0 <= k < idx.len() ==> #[trigger] idx[k] < items.len() && outcomes[k]@ == items[idx[k] as int]@
                };
            assert(forall|k: int| 0 <= k < idx.len() ==> #[trigger] idx[k] < items.len() && s[k] == views(items@)[idx[k] as int]);
            assert(drawn_without_repetition(s, views(items@), amount as nat));
        }
        Ok(t)
    }
}

} // verus!

verus! {

/// What `coin` prints: `amount` flips, each heads or tails.
pub open spec fn coin_output(t: Seq<char>, amount: nat, count: bool, all: bool) -> bool {
    exists|s: Seq<Seq<char>>|
        {
            &&& s.len() == amount
            &&& forall|k: int| 0 <= k < amount ==> #[trigger] s[k] == "heads"@ || s[k] == "tails"@
            &&& shows(t, s, policy_spec(amount, count, all))
        }
}

/// Flips a coin `amount` times.
pub fn coin_cmd(amount: usize, count: bool, all: bool, rng: &mut StdRng) -> (r: String)
    ensures
        coin_output(r@, amount as nat, count, all),
{
    let items = vec![String::from_str("heads"), String::from_str("tails")];
    let weights: Vec<u64> = vec![1, 1];
    proof {
        reveal_with_fuel(weight_sum, 3);
        assert(weights@.drop_last().drop_last() =~= Seq::<u64>::empty());
        assert(weight_sum(weights@) == 2);
    }
    let outcomes = match choose_with_repetition(&items, &weights, amount, rng) {
        Ok(v) => v,
        Err(_) => {
            return String::new();
        },
    };
    let policy = display_policy(amount, count, all);
    let t = present(&outcomes, policy);
    proof {
        let s = views(outcomes@);
        assert forall|k: int| 0 <= k < amount implies #[trigger] s[k] == "heads"@ || s[k] == "tails"@ by {
            assert(drawable(views(items@), weights@, s[k]));
        }
    }
    t
}

/// What `die` prints: `times` rolls, each the decimal notation of a number
/// from one to `sides`.
pub open spec fn die_output(t: Seq<char>, sides: nat, times: nat, count: bool, all: bool) -> bool {
    exists|s: Seq<Seq<char>>|
        {
            &&& s.len() == times
            &&& forall|k: int|
                0 <= k < times ==> exists|v: nat| 1 <= v <= sides && #[trigger] s[k] == decimal(v)
            &&& shows(t, s, policy_spec(times, count, all))
        }
}

/// Rolls a die with `sides` sides `times` times.
pub fn die_cmd(sides: usize, times: usize, count: bool, all: bool, rng: &mut StdRng) -> (r: Result<String, RndError>)
    ensures
        sides == 0 <==> r is Err,
        r is Err ==> r == Err::<String, RndError>(RndError::NoSides),
        r matches Ok(t) ==> die_output(t@, sides as nat, times as nat, count, all),
{
    let rolls = match roll_die(sides, times, rng) {
        Ok(v) => v,
        Err(e) => {
            return Err(e);
        },
    };
    let outcomes = decimal_strings(&rolls);
    let policy = display_policy(times, count, all);
    let t = present(&outcomes, policy);
    proof {
        let s = views(outcomes@);
        assert forall|k: int| 0 <= k < times implies exists|v: nat| 1 <= v <= sides && #[trigger] s[k] == decimal(v) by {
            assert(s[k] == decimal(rolls[k] as nat));
        }
    }
    Ok(t)
}

/// What `shuffle` prints: the items in some order on one line; nothing for
/// no items.
pub open spec fn shuffle_output(t: Seq<char>, items: Seq<String>) -> bool {
    if items.len() == 0 {
        t.len() == 0
    } else {
        exists|p: Seq<String>| p.to_multiset() == items.to_multiset() && t == list_text(views(p)) + seq!['\n']
    }
}

/// Shuffles the items.
pub fn shuffle_cmd(items: Vec<String>, rng: &mut StdRng) -> (r: String)
    ensures
        shuffle_output(r@, items@),
{
    if items.len() == 0 {
        return String::new();
    }
    let shuffled = shuffle(items, rng);
    let list = join_parts(&shuffled, ", ");
    proof {
        reveal_strlit(", ");
        reveal_strlit("\n");
        assert(", "@ =~= seq![',', ' ']);
        assert("\n"@ =~= seq!['\n']);
    }
    let r = list.concat("\n");
    assert(r@ == list_text(views(shuffled@)) + seq!['\n']);
    r
}

/// What `string` prints: `length` ASCII letters and digits in the case asked for.
pub open spec fn string_output(t: Seq<char>, length: nat, case: Case) -> bool {
    exists|g: Seq<char>|
        g.len() == length && (forall|i: int| 0 <= i < length ==> is_alphanumeric(#[trigger] g[i]))
            && t == with_case(case, g) + seq!['\n']
}

/// Generates a random string.
pub fn string_cmd(length: usize, case: Case, rng: &mut StdRng) -> (r: String)
    ensures
        string_output(r@, length as nat, case),
{
    let s = random_string(length, case, rng);
    proof {
        reveal_strlit("\n");
        assert("\n"@ =~= seq!['\n']);
    }
    s.concat("\n")
}

/// What `assign` prints: each left item with one of the right items, every
/// right item used once.
pub open spec fn assign_output(t: Seq<char>, left: Seq<String>, right: Seq<String>) -> bool {
    exists|p: Seq<String>|
        p.len() == left.len() && p.to_multiset() == right.to_multiset() && t == assignment_lines(views(left), views(p))
            + seq!['\n']
}

/// Assigns the right items to the left items at random.
pub fn assign_cmd(left: &Vec<String>, right: Vec<String>, rng: &mut StdRng) -> (r: Result<String, RndError>)
    ensures
        left.len() != right.len() <==> r is Err,
        r is Err ==> r == Err::<String, RndError>(RndError::UnequalLists),
        r matches Ok(t) ==> assign_output(t@, left@, right@),
{
    let ghost right0 = right@;
    let p = match assign(left, right, rng) {
        Ok(p) => p,
        Err(e) => {
            return Err(e);
        },
    };
    let t = assignment_text(left, &p);
    assert(p@.len() == left@.len() && p@.to_multiset() == right0.to_multiset());
    Ok(t)
}

/// What a command hands back: text to print, or a range over floating-point
/// numbers to draw from and print with `precision` decimals.
#[derive(Debug, Clone)]
pub enum Output {
    Text(String),
    FloatRange { lower: Num, upper: Num, inclusive: bool, precision: usize },
}

/// What `random` hands back: for whole-number bounds, a number drawn between
/// them; for others, the range to draw from.
pub open spec fn random_output(r: Result<Output, RndError>, start: Option<Num>, end: Option<Num>, inclusive: bool, precision: usize) -> bool {
    let (lo, hi) = resolved_bounds(start, end);
    match (lo, hi) {
        (Num::Int(a), Num::Int(b)) => if a >= b {
            r == Err::<Output, RndError>(RndError::BoundsOrder)
        } else {
            r matches Ok(Output::Text(t)) && exists|v: int|
                a <= v && (if inclusive { v <= b } else { v < b }) && t@ == signed_decimal(v) + seq!['\n']
        },
        _ => r matches Ok(Output::FloatRange { lower, upper, inclusive: i, precision: p }) && lower == lo && upper
            == hi && i == inclusive && p == precision,
    }
}

/// Draws a random number between bounds.
pub fn random_cmd(inclusive: bool, precision: usize, start: Option<Num>, end: Option<Num>, rng: &mut StdRng) -> (r:
    Result<Output, RndError>)
    ensures
        random_output(r, start, end, inclusive, precision),
{
    let (lo, hi) = resolve_bounds(start, end);
    match (lo, hi) {
        (Num::Int(a), Num::Int(b)) => {
            let v = match random_int(a, b, inclusive, rng) {
                Ok(v) => v,
                Err(e) => {
                    return Err(e);
                },
            };
            let s = signed_decimal_string(v);
            proof {
                reveal_strlit("\n");
                assert("\n"@ =~= seq!['\n']);
            }
            let t = s.concat("\n");
            Ok(Output::Text(t))
        },
        _ => Ok(Output::FloatRange { lower: lo, upper: hi, inclusive, precision }),
    }
}

} // verus!

verus! {

/// A command of the program, with its arguments.
#[derive(Debug, Clone)]
pub enum Command {
    /// Flip a coin `amount` times.
    Coin { amount: usize, count: bool, all: bool },
    /// Choose `amount` of the items, optionally weighted and with repetition.
    Choose {
        items: Vec<String>,
        amount: usize,
        weights: Vec<String>,
        count: bool,
        all: bool,
        repetition: bool,
    },
    /// Shuffle the items.
    Shuffle { items: Vec<String> },
    /// Draw a number between optional bounds.
    Random { inclusive: bool, precision: usize, start: Option<Num>, end: Option<Num> },
    /// Generate an alphanumeric string.
    String { length: usize, case: Case },
    /// Roll a die.
    Die { sides: usize, times: usize, count: bool, all: bool },
    /// Assign the right items to the left ones.
    Assign { left: Vec<String>, right: Vec<String> },
}

impl Default for Command {
    /// A floating-point number from zero up to one, with two decimals.
    fn default() -> (r: Self)
        ensures
            r matches Command::Random { inclusive, precision, start, end } && !inclusive && precision == 2
                && start == Some(Num::Float(FLOAT_0)) && end == Some(Num::Float(FLOAT_1)),
    {
        Command::Random {
            inclusive: false,
            precision: 2,
            start: Some(Num::Float(FLOAT_0)),
            end: Some(Num::Float(FLOAT_1)),
        }
    }
}

/// What running `command` hands back.
pub open spec fn command_output(command: Command, r: Result<Output, RndError>) -> bool {
    match command {
        Command::Coin { amount, count, all } => r matches Ok(Output::Text(t)) && coin_output(
            t@,
            amount as nat,
            count,
            all,
        ),
        Command::Choose { items, amount, weights, count, all, repetition } => match choose_weights(
            items.len() as nat,
            views(weights@),
        ) {
            Err(e) => r == Err::<Output, RndError>(e),
            Ok(w) => match weights_verdict(w) {
                Err(e) => r == Err::<Output, RndError>(e),
                Ok(_) => r matches Ok(Output::Text(t)) && choose_output(
                    t@,
                    views(items@),
                    w,
                    amount as nat,
                    count,
                    all,
                    repetition,
                ),
            },
        },
        Command::Shuffle { items } => r matches Ok(Output::Text(t)) && shuffle_output(t@, items@),
        Command::Random { inclusive, precision, start, end } => random_output(r, start, end, inclusive, precision),
        Command::String { length, case } => r matches Ok(Output::Text(t)) && string_output(t@, length as nat, case),
        Command::Die { sides, times, count, all } => if sides == 0 {
            r == Err::<Output, RndError>(RndError::NoSides)
        } else {
            r matches Ok(Output::Text(t)) && die_output(t@, sides as nat, times as nat, count, all)
        },
        Command::Assign { left, right } => if left.len() != right.len() {
            r == Err::<Output, RndError>(RndError::UnequalLists)
        } else {
            r matches Ok(Output::Text(t)) && assign_output(t@, left@, right@)
        },
    }
}

/// Runs a command: draws what it asks for and gives the text to print.
pub fn run_cli(command: Command, rng: &mut StdRng) -> (r: Result<Output, RndError>)
    ensures
        command_output(command, r),
{
    match command {
        Command::Coin { amount, count, all } => Ok(Output::Text(coin_cmd(amount, count, all, rng))),
        Command::Choose { items, amount, weights, count, all, repetition } => {
            match choose_cmd(&items, amount, &weights, count, all, repetition, rng) {
                Ok(t) => Ok(Output::Text(t)),
                Err(e) => Err(e),
            }
        },
        Command::Shuffle { items } => Ok(Output::Text(shuffle_cmd(items, rng))),
        Command::Random { inclusive, precision, start, end } => random_cmd(inclusive, precision, start, end, rng),
        Command::String { length, case } => Ok(Output::Text(string_cmd(length, case, rng))),
        Command::Die { sides, times, count, all } => match die_cmd(sides, times, count, all, rng) {
            Ok(t) => Ok(Output::Text(t)),
            Err(e) => Err(e),
        },
        Command::Assign { left, right } => match assign_cmd(&left, right, rng) {
            Ok(t) => Ok(Output::Text(t)),
            Err(e) => Err(e),
        },
    }
}

} // verus!
