use rand::rngs::StdRng;
use vstd::prelude::*;
use vstd::string::{StrSliceExecFns, StringExecFns};

use crate::error::RndError;
use crate::rng::{
    alphanumeric_string, gen_inclusive, index_weights, is_alphanumeric,
    shuffle_items, weight_sum, weighted_index, weighted_sample,
};
use crate::text::{decimal, joined, join_parts, push_char, push_decimal, views};

verus! {

/// The verdict on a list of weights: it must be non-empty, its sum must be
/// positive and small enough to draw from.
pub open spec fn weights_verdict(w: Seq<u64>) -> Result<(), RndError> {
    if w.len() == 0 {
        Err(RndError::NoItems)
    } else if weight_sum(w) > u64::MAX {
        Err(RndError::WeightsTooLarge)
    } else if weight_sum(w) == 0 {
        Err(RndError::AllWeightsZero)
    } else {
        Ok(())
    }
}

proof fn lemma_weight_sum_prefix(w: Seq<u64>, i: int)
    requires
        0 <= i <= w.len(),
    ensures
        weight_sum(w.subrange(0, i)) <= weight_sum(w),
    decreases w.len() - i,
{
    if i < w.len() {
        lemma_weight_sum_prefix(w, i + 1);
        assert(w.subrange(0, i + 1).drop_last() =~= w.subrange(0, i));
    } else {
        assert(w.subrange(0, i) =~= w);
    }
}

/// Checks a list of weights.
pub fn check_weights(weights: &Vec<u64>) -> (r: Result<(), RndError>)
    ensures
        r == weights_verdict(weights@),
{
    if weights.len() == 0 {
        return Err(RndError::NoItems);
    }
    let mut total: u128 = 0;
    let mut i: usize = 0;
    while i < weights.len()
        invariant
            0 <= i <= weights.len(),
            total == weight_sum(weights@.subrange(0, i as int)),
            total <= u64::MAX,
        decreases weights.len() - i,
    {
        assert(weights@.subrange(0, i + 1).drop_last() =~= weights@.subrange(0, i as int));
        total = total + weights[i] as u128;
        i += 1;
        if total > u64::MAX as u128 {
            proof {
                lemma_weight_sum_prefix(weights@, i as int);
            }
            return Err(RndError::WeightsTooLarge);
        }
    }
    assert(weights@.subrange(0, i as int) =~= weights@);
    if total == 0 {
        Err(RndError::AllWeightsZero)
    } else {
        Ok(())
    }
}

/// `x` is one of the items, and one whose weight is not zero.
pub open spec fn drawable(items: Seq<Seq<char>>, weights: Seq<u64>, x: Seq<char>) -> bool {
    exists|j: int| 0 <= j < items.len() && weights[j] > 0 && items[j] == x
}

/// Draws `amount` items with repetition, each with probability proportional
/// to its weight; an item of weight zero is never drawn.
pub fn choose_with_repetition(items: &Vec<String>, weights: &Vec<u64>, amount: usize, rng: &mut StdRng) -> (r:
    Result<Vec<String>, RndError>)
    requires
        weights.len() == items.len(),
    ensures
        weights_verdict(weights@) is Ok <==> r is Ok,
        r matches Err(e) ==> weights_verdict(weights@) == Err::<(), RndError>(e),
        r matches Ok(v) ==> {
            &&& v.len() == amount
            &&& forall|k: int| 0 <= k < amount ==> drawable(views(items@), weights@, #[trigger] v@[k]@)
        },
{
    match check_weights(weights) {
        Err(e) => {
            return Err(e);
        },
        Ok(()) => {},
    }
    let dist = match weighted_index(weights) {
        Ok(d) => d,
        Err(_) => {
            return Err(RndError::InvalidWeight);
        },
    };
    let mut v: Vec<String> = Vec::new();
    let mut k: usize = 0;
    while k < amount
        invariant
            0 <= k <= amount,
            index_weights(dist) == weights@,
            weights.len() == items.len(),
            v.len() == k,
            forall|m: int| 0 <= m < k ==> drawable(views(items@), weights@, #[trigger] v@[m]@),
        decreases amount - k,
    {
        let j = weighted_sample(&dist, rng);
        v.push(items[j].clone());
        assert(views(items@)[j as int] == v@[k as int]@);
        k += 1;
    }
    Ok(v)
}

proof fn lemma_sum_pointwise(w1: Seq<u64>, w2: Seq<u64>)
    requires
        w1.len() == w2.len(),
        forall|i: int| 0 <= i < w1.len() ==> w2[i] <= w1[i],
    ensures
        weight_sum(w2) <= weight_sum(w1),
    decreases w1.len(),
{
    if w1.len() > 0 {
        lemma_sum_pointwise(w1.drop_last(), w2.drop_last());
    }
}

proof fn lemma_sum_ones(n: nat)
    ensures
        weight_sum(Seq::new(n, |i: int| 1u64)) == n,
    decreases n,
{
    if n > 0 {
        lemma_sum_ones((n - 1) as nat);
        assert(Seq::new(n, |i: int| 1u64).drop_last() =~= Seq::new((n - 1) as nat, |i: int| 1u64));
    }
}

proof fn lemma_sum_positive(w: Seq<u64>, i: int)
    requires
        0 <= i < w.len(),
        w[i] > 0,
    ensures
        weight_sum(w) > 0,
    decreases w.len(),
{
    if i < w.len() - 1 {
        lemma_sum_positive(w.drop_last(), i);
    }
}

/// How many entries are false.
pub open spec fn count_false(s: Seq<bool>) -> nat
    decreases s.len(),
{
    if s.len() == 0 {
        0
    } else {
        count_false(s.drop_last()) + if s.last() {
            0nat
        } else {
            1nat
        }
    }
}

proof fn lemma_count_false_set(s: Seq<bool>, i: int)
    requires
        0 <= i < s.len(),
        !s[i],
    ensures
        count_false(s.update(i, true)) + 1 == count_false(s),
    decreases s.len(),
{
    if i < s.len() - 1 {
        lemma_count_false_set(s.drop_last(), i);
        assert(s.update(i, true).drop_last() =~= s.drop_last().update(i, true));
    } else {
        assert(s.update(i, true).drop_last() =~= s.drop_last());
    }
}

proof fn lemma_some_false(s: Seq<bool>)
    requires
        count_false(s) > 0,
    ensures
        exists|i: int| 0 <= i < s.len() && !s[i],
    decreases s.len(),
{
    if s.last() {
        lemma_some_false(s.drop_last());
        let i = choose|i: int| 0 <= i < s.drop_last().len() && !s.drop_last()[i];
        assert(!s[i]);
    } else {
        assert(!s[s.len() - 1]);
    }
}

/// The weights for the next draw without repetition: zero for the items
/// already drawn, the item's own weight for the others; once those are all
/// zero, one for each item not yet drawn.
fn remaining_weights(weights: &Vec<u64>, taken: &Vec<bool>) -> (r: Vec<u64>)
    requires
        weights.len() == taken.len(),
        weight_sum(weights@) <= u64::MAX,
        exists|i: int| 0 <= i < taken.len() && !taken[i],
    ensures
        r.len() == weights.len(),
        weights_verdict(r@) is Ok,
        forall|i: int| 0 <= i < r.len() && taken[i] ==> r[i] == 0,
        (exists|i: int| 0 <= i < taken.len() && !taken[i] && weights[i] > 0) ==> forall|i: int|
            0 <= i < r.len() && !taken[i] ==> r[i] == weights[i],
{
    let n = weights.len();
    let mut own: Vec<u64> = Vec::new();
    let mut ones: Vec<u64> = Vec::new();
    let mut i: usize = 0;
    while i < n
        invariant
            0 <= i <= n == weights.len() == taken.len(),
            own.len() == i,
            ones.len() == i,
            forall|k: int| 0 <= k < i ==> #[trigger] own[k] == if taken[k] { 0 } else { weights[k] },
            forall|k: int| 0 <= k < i ==> #[trigger] ones[k] == if taken[k] { 0u64 } else { 1u64 },
        decreases n - i,
    {
        if taken[i] {
            own.push(0);
            ones.push(0);
        } else {
            own.push(weights[i]);
            ones.push(1);
        }
        i += 1;
    }
    proof {
        lemma_sum_pointwise(weights@, own@);
        lemma_sum_ones(n as nat);
        lemma_sum_pointwise(Seq::new(n as nat, |k: int| 1u64), ones@);
        let j = choose|j: int| 0 <= j < taken.len() && !taken[j];
        lemma_sum_positive(ones@, j);
        if exists|k: int| 0 <= k < taken.len() && !taken[k] && weights[k] > 0 {
            let k = choose|k: int| 0 <= k < taken.len() && !taken[k] && weights[k] > 0;
            lemma_sum_positive(own@, k);
        }
    }
    match check_weights(&own) {
        Ok(()) => own,
        Err(_) => ones,
    }
}

/// Draws `amount` distinct items without repetition, one after another, each
/// with probability proportional to its weight among those not yet drawn;
/// items of weight zero come only once the others are all drawn. Asking for
/// more items than there are is an error.
pub fn choose_without_repetition(items: &Vec<String>, weights: &Vec<u64>, amount: usize, rng: &mut StdRng) -> (r:
    Result<Vec<String>, RndError>)
    requires
        weights.len() == items.len(),
    ensures
        amount > items.len() <==> r == Err::<Vec<String>, RndError>(RndError::TooFewItems),
        amount <= items.len() ==> (weights_verdict(weights@) is Ok <==> r is Ok),
        amount <= items.len() ==> (r matches Err(e) ==> weights_verdict(weights@) == Err::<(), RndError>(e)),
        r matches Ok(v) ==> exists|idx: Seq<usize>|
            {
                &&& idx.len() == v.len() == amount
                &&& idx.no_duplicates()
                &&& forall|k: int|
                    0 <= k < idx.len() ==> #[trigger] idx[k] < items.len() && v[k]@ == items[idx[k] as int]@
            },
{
    if amount > items.len() {
        return Err(RndError::TooFewItems);
    }
    match check_weights(weights) {
        Err(e) => {
            return Err(e);
        },
        Ok(()) => {},
    }
    let n = items.len();
    let mut taken: Vec<bool> = Vec::new();
    let mut i: usize = 0;
    while i < n
        invariant
            0 <= i <= n,
            taken@ == Seq::new(i as nat, |k: int| false),
            count_false(taken@) == i,
        decreases n - i,
    {
        taken.push(false);
        i += 1;
        assert(taken@.drop_last() =~= Seq::new((i - 1) as nat, |k: int| false));
        assert(taken@ =~= Seq::new(i as nat, |k: int| false));
    }
    let mut chosen: Vec<usize> = Vec::new();
    let mut v: Vec<String> = Vec::new();
    while chosen.len() < amount
        invariant
            amount <= n == items.len() == weights.len() == taken.len(),
            weight_sum(weights@) <= u64::MAX,
            chosen.len() <= amount,
            v.len() == chosen.len(),
            chosen@.no_duplicates(),
            forall|m: int| 0 <= m < chosen.len() ==> #[trigger] chosen[m] < n && v[m]@ == items[chosen[m] as int]@,
            forall|k: int| 0 <= k < n ==> (#[trigger] taken[k] <==> chosen@.contains(k as usize)),
            count_false(taken@) + chosen.len() == n,
        decreases amount - chosen.len(),
    {
        proof {
            lemma_some_false(taken@);
        }
        let w = remaining_weights(weights, &taken);
        let dist = match weighted_index(&w) {
            Ok(d) => d,
            Err(_) => {
                return Err(RndError::InvalidWeight);
            },
        };
        let pick = weighted_sample(&dist, rng);
        assert(!taken[pick as int]);
        proof {
            lemma_count_false_set(taken@, pick as int);
        }
        let ghost before = chosen@;
        let ghost taken_before = taken@;
        chosen.push(pick);
        taken.set(pick, true);
        v.push(items[pick].clone());
        proof {
            assert forall|a: int, b: int| 0 <= a < b < chosen.len() implies chosen[a] != chosen[b] by {
                if b == chosen.len() - 1 {
                    assert(before.contains(chosen[a]));
                } else {
                    assert(before[a] != before[b]);
                }
            }
            assert forall|k: int| 0 <= k < n implies (#[trigger] taken[k] <==> chosen@.contains(k as usize)) by {
                assert(taken[k] == (k == pick || taken_before[k]));
                assert(taken_before[k] <==> before.contains(k as usize));
                if before.contains(k as usize) {
                    let m = choose|m: int| 0 <= m < before.len() && before[m] == k as usize;
                    assert(chosen[m] == k as usize);
                }
                if k == pick {
                    assert(chosen[before.len() as int] == k as usize);
                }
                if chosen@.contains(k as usize) {
                    let m = choose|m: int| 0 <= m < chosen.len() && chosen[m] == k as usize;
                    if m < before.len() {
                        assert(before[m] == k as usize);
                    }
                }
            }
        }
    }
    assert(chosen@.len() == v.len());
    Ok(v)
}

} // verus!

verus! {

/// Rolls a die with `sides` sides `times` times.
pub fn roll_die(sides: usize, times: usize, rng: &mut StdRng) -> (r: Result<Vec<usize>, RndError>)
    ensures
        sides == 0 <==> r is Err,
        r is Err ==> r == Err::<Vec<usize>, RndError>(RndError::NoSides),
        r matches Ok(v) ==> v.len() == times && forall|k: int| 0 <= k < times ==> 1 <= #[trigger] v[k] <= sides,
{
    if sides < 1 {
        return Err(RndError::NoSides);
    }
    let mut v: Vec<usize> = Vec::new();
    let mut k: usize = 0;
    while k < times
        invariant
            0 <= k <= times,
            1 <= sides,
            v.len() == k,
            forall|m: int| 0 <= m < k ==> 1 <= #[trigger] v[m] <= sides,
        decreases times - k,
    {
        let roll = gen_inclusive(rng, 1, sides as i128);
        v.push(roll as usize);
        k += 1;
    }
    Ok(v)
}

/// The decimal notation of each number.
pub fn decimal_strings(v: &Vec<usize>) -> (r: Vec<String>)
    ensures
        r.len() == v.len(),
        forall|k: int| 0 <= k < v.len() ==> (#[trigger] r[k])@ == decimal(v[k] as nat),
{
    let mut r: Vec<String> = Vec::new();
    let mut k: usize = 0;
    while k < v.len()
        invariant
            0 <= k <= v.len(),
            r.len() == k,
            forall|m: int| 0 <= m < k ==> (#[trigger] r[m])@ == decimal(v[m] as nat),
        decreases v.len() - k,
    {
        r.push(crate::text::decimal_string(v[k] as u128));
        k += 1;
    }
    r
}

/// The items in a random order.
pub fn shuffle(items: Vec<String>, rng: &mut StdRng) -> (r: Vec<String>)
    ensures
        r.len() == items.len(),
        r@.to_multiset() == items@.to_multiset(),
{
    let mut items = items;
    shuffle_items(&mut items, rng);
    items
}

/// The right-hand items in a random order, one for each left-hand item.
pub fn assign(left: &Vec<String>, right: Vec<String>, rng: &mut StdRng) -> (r: Result<Vec<String>, RndError>)
    ensures
        left.len() != right.len() <==> r is Err,
        r is Err ==> r == Err::<Vec<String>, RndError>(RndError::UnequalLists),
        r matches Ok(v) ==> v.len() == left.len() && v@.to_multiset() == right@.to_multiset(),
{
    if left.len() != right.len() {
        return Err(RndError::UnequalLists);
    }
    Ok(shuffle(right, rng))
}

/// One line per pair: the left item, a colon, a space and the right item.
pub open spec fn assignment_lines(left: Seq<Seq<char>>, right: Seq<Seq<char>>) -> Seq<char> {
    joined(Seq::new(left.len(), |i: int| left[i] + seq![':', ' '] + right[i]), seq!['\n'])
}

/// The text of an assignment, pairing the items position by position.
pub fn assignment_text(left: &Vec<String>, right: &Vec<String>) -> (r: String)
    requires
        left.len() == right.len(),
    ensures
        r@ == assignment_lines(views(left@), views(right@)) + seq!['\n'],
{
    let mut lines: Vec<String> = Vec::new();
    let mut k: usize = 0;
    proof {
        reveal_strlit(": ");
        reveal_strlit("\n");
        assert("\n"@ =~= seq!['\n']);
    }
    while k < left.len()
        invariant
            0 <= k <= left.len() == right.len(),
            lines.len() == k,
            forall|m: int| 0 <= m < k ==> (#[trigger] lines[m])@ == left[m]@ + seq![':', ' '] + right[m]@,
        decreases left.len() - k,
    {
        let mut line = left[k].clone();
        proof {
            reveal_strlit(": ");
        }
        line.append(": ");
        line.append(right[k].as_str());
        assert(line@ =~= left[k as int]@ + seq![':', ' '] + right[k as int]@);
        lines.push(line);
        k += 1;
    }
    let r = join_parts(&lines, "\n");
    assert(views(lines@) =~= Seq::new(
        views(left@).len(),
        |i: int| views(left@)[i] + seq![':', ' '] + views(right@)[i],
    ));
    r.concat("\n")
}

/// A number drawn uniformly between the bounds; the upper bound is included
/// only when asked for.
pub fn random_int(lower: i128, upper: i128, inclusive: bool, rng: &mut StdRng) -> (r: Result<i128, RndError>)
    ensures
        lower >= upper <==> r is Err,
        r is Err ==> r == Err::<i128, RndError>(RndError::BoundsOrder),
        r matches Ok(v) ==> lower <= v && (if inclusive { v <= upper } else { v < upper }),
{
    if lower >= upper {
        return Err(RndError::BoundsOrder);
    }
    let hi = if inclusive { upper } else { upper - 1 };
    Ok(gen_inclusive(rng, lower, hi))
}

/// The decimal notation of `v`, with a minus sign when it is negative.
pub open spec fn signed_decimal(v: int) -> Seq<char> {
    if v < 0 {
        seq!['-'] + decimal((-v) as nat)
    } else {
        decimal(v as nat)
    }
}

/// The decimal notation of `v`, with a minus sign when it is negative.
pub fn signed_decimal_string(v: i128) -> (r: String)
    ensures
        r@ == signed_decimal(v as int),
{
    let mut s = String::new();
    if v < 0 {
        push_char(&mut s, '-');
        let magnitude: u128 = (-(v + 1)) as u128 + 1;
        push_decimal(&mut s, magnitude);
    } else {
        push_decimal(&mut s, v as u128);
    }
    assert(s@ =~= signed_decimal(v as int));
    s
}

} // verus!

verus! {

/// The letter case of a generated string.
#[derive(Debug, Clone, Copy, PartialEq, Eq, Structural)]
pub enum Case {
    Lower,
    Upper,
    Mixed,
}

/// An ASCII capital letter made small; any other character unchanged.
pub open spec fn lower_char(c: char) -> char {
    if 'A' <= c <= 'Z' {
        ((c as u8) + 32) as u8 as char
    } else {
        c
    }
}

/// An ASCII small letter made capital; any other character unchanged.
pub open spec fn upper_char(c: char) -> char {
    if 'a' <= c <= 'z' {
        ((c as u8) - 32) as u8 as char
    } else {
        c
    }
}

/// The characters of `g` in the case asked for.
pub open spec fn with_case(case: Case, g: Seq<char>) -> Seq<char> {
    match case {
        Case::Lower => g.map_values(|c: char| lower_char(c)),
        Case::Upper => g.map_values(|c: char| upper_char(c)),
        Case::Mixed => g,
    }
}

fn case_char(case: Case, c: char) -> (r: char)
    ensures
        r == with_case(case, seq![c])[0],
{
    match case {
        Case::Lower => if 'A' <= c && c <= 'Z' {
            ((c as u8) + 32) as char
        } else {
            c
        },
        Case::Upper => if 'a' <= c && c <= 'z' {
            ((c as u8) - 32) as char
        } else {
            c
        },
        Case::Mixed => c,
    }
}

/// A random string of `length` ASCII letters and digits, in the case asked for.
pub fn random_string(length: usize, case: Case, rng: &mut StdRng) -> (r: String)
    ensures
        r@.len() == length,
        exists|g: Seq<char>|
            g.len() == length && (forall|i: int| 0 <= i < length ==> is_alphanumeric(#[trigger] g[i]))
                && r@ == with_case(case, g),
{
    let g = alphanumeric_string(rng, length);
    let gs = g.as_str();
    let mut r = String::new();
    let mut k: usize = 0;
    while k < length
        invariant
            0 <= k <= length == gs@.len(),
            gs@ == g@,
            r@ == with_case(case, g@.subrange(0, k as int)),
        decreases length - k,
    {
        let c = gs.get_char(k);
        push_char(&mut r, case_char(case, c));
        assert(g@.subrange(0, k + 1) =~= g@.subrange(0, k as int).push(c));
        assert(r@ =~= with_case(case, g@.subrange(0, k + 1)));
        k += 1;
    }
    assert(g@.subrange(0, length as int) =~= g@);
    r
}

} // verus!
