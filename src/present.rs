use std::cmp::Ordering;

use itertools::Itertools;
use vstd::prelude::*;
use vstd::string::StringExecFns;

use crate::policy::DisplayPolicy;
use crate::text::{decimal, joined, join_parts, push_decimal, views};

verus! {

broadcast use vstd::seq_lib::group_to_multiset_ensures;

/// How many times `x` occurs in `s`.
pub open spec fn occurrences(s: Seq<Seq<char>>, x: Seq<char>) -> nat {
    s.to_multiset().count(x)
}

/// Position `i` holds the first occurrence of its value in `s`.
pub open spec fn is_first(s: Seq<Seq<char>>, i: int) -> bool {
    &&& 0 <= i < s.len()
    &&& forall|k: int| 0 <= k < i ==> s[k] != s[i]
}

/// Row `a` comes before row `b`: a higher count first, equal counts in the
/// order in which their values first occurred.
pub open spec fn row_before(a: (usize, u64), b: (usize, u64)) -> bool {
    a.1 > b.1 || (a.1 == b.1 && a.0 < b.0)
}

/// `rows` is the count table of `s`: one row per distinct value, given by the
/// position of its first occurrence and its number of occurrences, sorted by
/// descending count and, among equal counts, by first occurrence.
pub open spec fn is_count_table(s: Seq<Seq<char>>, rows: Seq<(usize, u64)>) -> bool {
    &&& forall|k: int|
        0 <= k < rows.len() ==> {
            &&& is_first(s, #[trigger] rows[k].0 as int)
            &&& rows[k].1 == occurrences(s, s[rows[k].0 as int])
        }
    &&& forall|i: int| is_first(s, i) ==> exists|k: int| 0 <= k < rows.len() && #[trigger] rows[k].0 == i
    &&& forall|a: int, b: int| 0 <= a < b < rows.len() ==> row_before(#[trigger] rows[a], #[trigger] rows[b])
}

/// One line of the count table: the value, a colon, a space and the count.
pub open spec fn row_line(s: Seq<Seq<char>>, row: (usize, u64)) -> Seq<char> {
    s[row.0 as int] + seq![':', ' '] + decimal(row.1 as nat)
}

/// The count table as text, one row per line.
pub open spec fn table_text(s: Seq<Seq<char>>, rows: Seq<(usize, u64)>) -> Seq<char> {
    joined(rows.map_values(|r: (usize, u64)| row_line(s, r)), seq!['\n'])
}

/// The outcomes in draw order, separated by a comma and a space.
pub open spec fn list_text(s: Seq<Seq<char>>) -> Seq<char> {
    joined(s, seq![',', ' '])
}

/// What is printed for the outcomes `s` under policy `p`, given their count table.
pub open spec fn rendering(s: Seq<Seq<char>>, rows: Seq<(usize, u64)>, p: DisplayPolicy) -> Seq<char> {
    if p.show_count {
        (if p.show_all {
            list_text(s) + seq!['\n', '\n']
        } else {
            Seq::empty()
        }) + table_text(s, rows) + seq!['\n']
    } else {
        list_text(s) + seq!['\n']
    }
}

/// `t` is what is printed for the outcomes `s` under policy `p`.
pub open spec fn shows(t: Seq<char>, s: Seq<Seq<char>>, p: DisplayPolicy) -> bool {
    &&& !p.show_count ==> t == list_text(s) + seq!['\n']
    &&& p.show_count ==> exists|rows: Seq<(usize, u64)>| is_count_table(s, rows) && t == rendering(s, rows, p)
}

/// Relies on Itertools::sorted_by, a stable sort: the same rows, by descending
/// count, rows of equal count in their former order.
#[verifier::external_body]
fn sort_by_count(rows: Vec<(usize, u64)>) -> (r: Vec<(usize, u64)>)
    requires
        forall|a: int, b: int| 0 <= a < b < rows.len() ==> rows[a].0 < rows[b].0,
    ensures
        r@.to_multiset() == rows@.to_multiset(),
        forall|a: int, b: int| 0 <= a < b < r.len() ==> row_before(#[trigger] r[a], #[trigger] r[b]),
{
    rows.into_iter().sorted_by(|a, b| by_count_descending(a, b)).collect()
}

/// Orders rows by descending count.
pub fn by_count_descending(a: &(usize, u64), b: &(usize, u64)) -> (r: Ordering)
    ensures
        a.1 > b.1 ==> r == Ordering::Less,
        a.1 < b.1 ==> r == Ordering::Greater,
        a.1 == b.1 ==> r == Ordering::Equal,
{
    if a.1 > b.1 {
        Ordering::Less
    } else if a.1 < b.1 {
        Ordering::Greater
    } else {
        Ordering::Equal
    }
}

proof fn lemma_occurrences_step(s: Seq<Seq<char>>, i: int, x: Seq<char>)
    requires
        0 <= i < s.len(),
    ensures
        occurrences(s.subrange(0, i + 1), x) == occurrences(s.subrange(0, i), x) + if x == s[i] {
            1int
        } else {
            0int
        },
{
    assert(s.subrange(0, i + 1) =~= s.subrange(0, i).push(s[i]));
}

/// The row, if any, whose value equals the outcome at position `i`.
fn find_row(outcomes: &Vec<String>, rows: &Vec<(usize, u64)>, i: usize) -> (r: Option<usize>)
    requires
        i < outcomes.len(),
        forall|j: int| 0 <= j < rows.len() ==> (#[trigger] rows[j]).0 < outcomes.len(),
    ensures
        r matches Some(j) ==> j < rows.len() && views(outcomes@)[rows[j as int].0 as int] == views(outcomes@)[i as int],
        r is None ==> forall|m: int| 0 <= m < rows.len() ==> views(outcomes@)[(#[trigger] rows[m]).0 as int] != views(outcomes@)[i as int],
{
    let mut j: usize = 0;
    while j < rows.len()
        invariant
            0 <= j <= rows.len(),
            i < outcomes.len(),
            forall|m: int| 0 <= m < rows.len() ==> (#[trigger] rows[m]).0 < outcomes.len(),
            forall|m: int| 0 <= m < j ==> views(outcomes@)[(#[trigger] rows[m]).0 as int] != views(outcomes@)[i as int],
        decreases rows.len() - j,
    {
        if outcomes[rows[j].0] == outcomes[i] {
            return Some(j);
        }
        j += 1;
    }
    None
}

/// Counts the outcomes: one row per distinct value, by descending count.
pub fn count_table(outcomes: &Vec<String>) -> (rows: Vec<(usize, u64)>)
    ensures
        is_count_table(views(outcomes@), rows@),
{
    let ghost s = views(outcomes@);
    let n = outcomes.len();
    let mut rows: Vec<(usize, u64)> = Vec::new();
    let mut i: usize = 0;
    while i < n
        invariant
            0 <= i <= n,
            n == outcomes.len(),
            s == views(outcomes@),
            forall|j: int|
                0 <= j < rows.len() ==> {
                    &&& (#[trigger] rows[j]).0 < i
                    &&& is_first(s, rows[j].0 as int)
                    &&& rows[j].1 == occurrences(s.subrange(0, i as int), s[rows[j].0 as int])
                    &&& rows[j].1 <= i
                },
            forall|a: int, b: int| 0 <= a < b < rows.len() ==> (#[trigger] rows[a]).0 < (#[trigger] rows[b]).0,
            forall|k: int| #![trigger s[k]] 0 <= k < i ==> exists|j: int| 0 <= j < rows.len() && s[(#[trigger] rows[j]).0 as int] == s[k],
        decreases n - i,
    {
        let ghost before = rows@;
        proof {
            assert forall|x: Seq<char>| #[trigger] occurrences(s.subrange(0, i + 1), x) == occurrences(
                s.subrange(0, i as int),
                x,
            ) + if x == s[i as int] {
                1int
            } else {
                0int
            } by {
                lemma_occurrences_step(s, i as int, x);
            }
        }
        let found = find_row(outcomes, &rows, i);
        if let Some(j) = found {
            let ghost x = s[i as int];
            assert(s[rows[j as int].0 as int] == x);
            assert forall|m: int| 0 <= m < rows.len() && m != j implies s[(#[trigger] rows[m]).0 as int] != x by {
                let a = rows[m].0 as int;
                let b = rows[j as int].0 as int;
                if m < j {
                    assert(a < b);
                } else {
                    assert(b < a);
                }
            }
            let r = rows[j];
            rows.set(j, (r.0, r.1 + 1));
            assert forall|k: int| #![trigger s[k]] 0 <= k <= i implies exists|m: int|
                0 <= m < rows.len() && s[(#[trigger] rows[m]).0 as int] == s[k] by {
                if k < i {
                    let m = choose|m: int| 0 <= m < before.len() && s[(#[trigger] before[m]).0 as int] == s[k];
                    assert(rows[m].0 == before[m].0);
                } else {
                    assert(s[rows[j as int].0 as int] == s[k]);
                }
            }
        } else {
            assert forall|k: int| 0 <= k < i implies s[k] != s[i as int] by {
                let jj = choose|jj: int| 0 <= jj < before.len() && s[(#[trigger] before[jj]).0 as int] == s[k];
            }
            rows.push((i, 1));
            assert forall|k: int| #![trigger s[k]] 0 <= k <= i implies exists|m: int|
                0 <= m < rows.len() && s[(#[trigger] rows[m]).0 as int] == s[k] by {
                if k < i {
                    let m = choose|m: int| 0 <= m < before.len() && s[(#[trigger] before[m]).0 as int] == s[k];
                    assert(rows[m] == before[m]);
                } else {
                    assert(rows[before.len() as int].0 == i);
                }
            }
        }
        i += 1;
    }
    assert(s.subrange(0, n as int) =~= s);
    assert forall|i: int| is_first(s, i) implies exists|k: int| 0 <= k < rows.len() && #[trigger] rows[k].0 == i by {
        let k = choose|k: int| 0 <= k < rows.len() && s[(#[trigger] rows[k]).0 as int] == s[i];
        let f = rows[k].0 as int;
        // both positions hold the first occurrence of the same value
        assert(!(f < i) && !(i < f));
    }
    let sorted = sort_by_count(rows);
    proof {
        assert forall|k: int| 0 <= k < sorted.len() implies {
            &&& is_first(s, #[trigger] sorted[k].0 as int)
            &&& sorted[k].1 == occurrences(s, s[sorted[k].0 as int])
        } by {
            assert(sorted@.to_multiset().count(sorted[k]) > 0);
            assert(rows@.contains(sorted[k]));
        }
        assert forall|i: int| is_first(s, i) implies exists|k: int| 0 <= k < sorted.len() && #[trigger] sorted[k].0 == i by {
            let k = choose|k: int| 0 <= k < rows.len() && #[trigger] rows[k].0 == i;
            assert(rows@.to_multiset().count(rows[k]) > 0);
            assert(sorted@.contains(rows[k]));
        }
    }
    sorted
}

} // verus!

verus! {

/// The count table as text: each row's value, a colon, a space and its count.
fn table_lines(outcomes: &Vec<String>, rows: &Vec<(usize, u64)>) -> (r: String)
    requires
        forall|k: int| 0 <= k < rows.len() ==> (#[trigger] rows[k]).0 < outcomes.len(),
    ensures
        r@ == table_text(views(outcomes@), rows@),
{
    let ghost s = views(outcomes@);
    let mut lines: Vec<String> = Vec::new();
    let mut k: usize = 0;
    while k < rows.len()
        invariant
            0 <= k <= rows.len(),
            s == views(outcomes@),
            forall|m: int| 0 <= m < rows.len() ==> (#[trigger] rows[m]).0 < outcomes.len(),
            lines.len() == k,
            forall|m: int| 0 <= m < k ==> (#[trigger] lines[m])@ == row_line(s, rows[m]),
        decreases rows.len() - k,
    {
        let row = rows[k];
        let mut line = outcomes[row.0].clone();
        proof {
            reveal_strlit(": ");
        }
        line.append(": ");
        push_decimal(&mut line, row.1 as u128);
        assert(line@ =~= row_line(s, row));
        lines.push(line);
        k += 1;
    }
    let r = join_parts(&lines, "\n");
    proof {
        reveal_strlit("\n");
        assert(views(lines@) =~= rows@.map_values(|row: (usize, u64)| row_line(s, row)));
        assert("\n"@ =~= seq!['\n']);
    }
    r
}

/// The text printed for `outcomes` under `policy`: the outcomes in order, the
/// count table, or the outcomes, a blank line and the count table.
pub fn present(outcomes: &Vec<String>, policy: DisplayPolicy) -> (r: String)
    ensures
        shows(r@, views(outcomes@), policy),
{
    let ghost s = views(outcomes@);
    proof {
        reveal_strlit(", ");
        reveal_strlit("\n");
        reveal_strlit("\n\n");
        assert(", "@ =~= seq![',', ' ']);
        assert("\n"@ =~= seq!['\n']);
        assert("\n\n"@ =~= seq!['\n', '\n']);
    }
    if !policy.show_count {
        let list = join_parts(outcomes, ", ");
        let r = list.concat("\n");
        return r;
    }
    let rows = count_table(outcomes);
    let mut r = if policy.show_all {
        let list = join_parts(outcomes, ", ");
        list.concat("\n\n")
    } else {
        String::new()
    };
    let table = table_lines(outcomes, &rows);
    r.append(table.as_str());
    r.append("\n");
    assert(r@ =~= rendering(s, rows@, policy));
    r
}

} // verus!

verus! {

/// A value that occurs in `s` has a first occurrence.
proof fn lemma_first_occurrence(s: Seq<Seq<char>>, x: Seq<char>)
    requires
        s.contains(x),
    ensures
        exists|i: int| is_first(s, i) && s[i] == x,
    decreases s.len(),
{
    let t = s.drop_last();
    if t.contains(x) {
        lemma_first_occurrence(t, x);
        let i = choose|i: int| is_first(t, i) && t[i] == x;
        assert forall|k: int| 0 <= k < i implies s[k] != s[i] by {
            assert(t[k] != t[i]);
        }
        assert(is_first(s, i) && s[i] == x);
    } else {
        let j = choose|j: int| 0 <= j < s.len() && s[j] == x;
        let i = s.len() - 1;
        if j < i {
            assert(t[j] == x);
        }
        assert forall|k: int| 0 <= k < i implies s[k] != s[i] by {
            if s[k] == x {
                assert(t[k] == x);
            }
        }
        assert(is_first(s, i) && s[i] == x);
    }
}

/// The table `rows` of `s` has a row for value `x` with count `c`.
pub open spec fn has_row(s: Seq<Seq<char>>, rows: Seq<(usize, u64)>, x: Seq<char>, c: u64) -> bool {
    exists|m: int| 0 <= m < rows.len() && s[(#[trigger] rows[m]).0 as int] == x && rows[m].1 == c
}

proof fn lemma_rows_covered(
    s1: Seq<Seq<char>>,
    s2: Seq<Seq<char>>,
    rows1: Seq<(usize, u64)>,
    rows2: Seq<(usize, u64)>,
)
    requires
        s1.to_multiset() == s2.to_multiset(),
        is_count_table(s1, rows1),
        is_count_table(s2, rows2),
    ensures
        forall|k: int|
            0 <= k < rows1.len() ==> has_row(s2, rows2, s1[(#[trigger] rows1[k]).0 as int], rows1[k].1),
{
    assert forall|k: int| 0 <= k < rows1.len() implies has_row(
        s2,
        rows2,
        s1[(#[trigger] rows1[k]).0 as int],
        rows1[k].1,
    ) by {
        let x = s1[rows1[k].0 as int];
        assert(is_first(s1, rows1[k].0 as int));
        assert(s1.contains(x));
        assert(s1.to_multiset().count(x) > 0);
        assert(s2.contains(x));
        lemma_first_occurrence(s2, x);
        let i = choose|i: int| is_first(s2, i) && s2[i] == x;
        let m = choose|m: int| 0 <= m < rows2.len() && #[trigger] rows2[m].0 == i;
        assert(rows2[m].1 == occurrences(s2, x));
    }
}

/// Counting does not depend on the order of the draws: two outcome sequences
/// that hold the same values the same number of times have count tables with
/// the same rows, each table sorted by descending count.
pub proof fn count_table_same_rows(
    s1: Seq<Seq<char>>,
    s2: Seq<Seq<char>>,
    rows1: Seq<(usize, u64)>,
    rows2: Seq<(usize, u64)>,
)
    requires
        s1.to_multiset() == s2.to_multiset(),
        is_count_table(s1, rows1),
        is_count_table(s2, rows2),
    ensures
        forall|k: int|
            0 <= k < rows1.len() ==> has_row(s2, rows2, s1[(#[trigger] rows1[k]).0 as int], rows1[k].1),
        forall|m: int|
            0 <= m < rows2.len() ==> has_row(s1, rows1, s2[(#[trigger] rows2[m]).0 as int], rows2[m].1),
        forall|a: int, b: int| 0 <= a < b < rows1.len() ==> (#[trigger] rows1[a]).1 >= (#[trigger] rows1[b]).1,
        forall|a: int, b: int| 0 <= a < b < rows2.len() ==> (#[trigger] rows2[a]).1 >= (#[trigger] rows2[b]).1,
{
    lemma_rows_covered(s1, s2, rows1, rows2);
    lemma_rows_covered(s2, s1, rows2, rows1);
    assert forall|a: int, b: int| 0 <= a < b < rows1.len() implies (#[trigger] rows1[a]).1 >= (#[trigger] rows1[b]).1 by {
        assert(row_before(rows1[a], rows1[b]));
    }
    assert forall|a: int, b: int| 0 <= a < b < rows2.len() implies (#[trigger] rows2[a]).1 >= (#[trigger] rows2[b]).1 by {
        assert(row_before(rows2[a], rows2[b]));
    }
}

} // verus!

verus! {

proof fn lemma_sorted_rows_unique(rows1: Seq<(usize, u64)>, rows2: Seq<(usize, u64)>)
    requires
        forall|a: int, b: int| 0 <= a < b < rows1.len() ==> row_before(#[trigger] rows1[a], #[trigger] rows1[b]),
        forall|a: int, b: int| 0 <= a < b < rows2.len() ==> row_before(#[trigger] rows2[a], #[trigger] rows2[b]),
        forall|x: (usize, u64)| rows1.contains(x) <==> rows2.contains(x),
    ensures
        rows1 == rows2,
    decreases rows1.len(),
{
    if rows1.len() == 0 {
        if rows2.len() > 0 {
            assert(rows2.contains(rows2[0]));
        }
        assert(rows1 =~= rows2);
    } else {
        assert(rows1.contains(rows1[0]));
        let i = choose|i: int| 0 <= i < rows2.len() && rows2[i] == rows1[0];
        assert(rows2.contains(rows2[0]));
        let j = choose|j: int| 0 <= j < rows1.len() && rows1[j] == rows2[0];
        if i > 0 {
            assert(row_before(rows2[0], rows2[i]));
            if j > 0 {
                assert(row_before(rows1[0], rows1[j]));
            }
        }
        assert(rows1[0] == rows2[0]);
        let t1 = rows1.drop_first();
        let t2 = rows2.drop_first();
        assert forall|x: (usize, u64)| t1.contains(x) <==> t2.contains(x) by {
            if t1.contains(x) {
                let a = choose|a: int| 0 <= a < t1.len() && t1[a] == x;
                assert(row_before(rows1[0], rows1[a + 1]));
                assert(rows2.contains(x));
                let b = choose|b: int| 0 <= b < rows2.len() && rows2[b] == x;
                assert(b != 0);
                assert(t2[b - 1] == x);
            }
            if t2.contains(x) {
                let b = choose|b: int| 0 <= b < t2.len() && t2[b] == x;
                assert(row_before(rows2[0], rows2[b + 1]));
                assert(rows1.contains(x));
                let a = choose|a: int| 0 <= a < rows1.len() && rows1[a] == x;
                assert(a != 0);
                assert(t1[a - 1] == x);
            }
        }
        assert forall|a: int, b: int| 0 <= a < b < t1.len() implies row_before(#[trigger] t1[a], #[trigger] t1[b]) by {
            assert(row_before(rows1[a + 1], rows1[b + 1]));
        }
        assert forall|a: int, b: int| 0 <= a < b < t2.len() implies row_before(#[trigger] t2[a], #[trigger] t2[b]) by {
            assert(row_before(rows2[a + 1], rows2[b + 1]));
        }
        lemma_sorted_rows_unique(t1, t2);
        assert(rows1 =~= seq![rows1[0]] + t1);
        assert(rows2 =~= seq![rows2[0]] + t2);
    }
}

/// A sequence of outcomes has exactly one count table.
pub proof fn count_table_unique(s: Seq<Seq<char>>, rows1: Seq<(usize, u64)>, rows2: Seq<(usize, u64)>)
    requires
        is_count_table(s, rows1),
        is_count_table(s, rows2),
    ensures
        rows1 == rows2,
{
    assert forall|x: (usize, u64)| rows1.contains(x) implies rows2.contains(x) by {
        let a = choose|a: int| 0 <= a < rows1.len() && rows1[a] == x;
        assert(is_first(s, rows1[a].0 as int));
        let b = choose|b: int| 0 <= b < rows2.len() && #[trigger] rows2[b].0 == rows1[a].0;
        assert(rows2[b] == x);
    }
    assert forall|x: (usize, u64)| rows2.contains(x) implies rows1.contains(x) by {
        let b = choose|b: int| 0 <= b < rows2.len() && rows2[b] == x;
        assert(is_first(s, rows2[b].0 as int));
        let a = choose|a: int| 0 <= a < rows1.len() && #[trigger] rows1[a].0 == rows2[b].0;
        assert(rows1[a] == x);
    }
    lemma_sorted_rows_unique(rows1, rows2);
}

} // verus!

verus! {

/// The rows of a table as values with their counts.
pub open spec fn labelled(s: Seq<Seq<char>>, rows: Seq<(usize, u64)>) -> Seq<(Seq<char>, u64)> {
    rows.map_values(|r: (usize, u64)| (s[r.0 as int], r.1))
}

/// Strictly descending counts.
pub open spec fn strictly_descending(l: Seq<(Seq<char>, u64)>) -> bool {
    forall|a: int, b: int| 0 <= a < b < l.len() ==> (#[trigger] l[a]).1 > (#[trigger] l[b]).1
}

proof fn lemma_descending_unique(l1: Seq<(Seq<char>, u64)>, l2: Seq<(Seq<char>, u64)>)
    requires
        strictly_descending(l1),
        strictly_descending(l2),
        forall|x: (Seq<char>, u64)| l1.contains(x) <==> l2.contains(x),
    ensures
        l1 == l2,
    decreases l1.len(),
{
    if l1.len() == 0 {
        if l2.len() > 0 {
            assert(l2.contains(l2[0]));
        }
        assert(l1 =~= l2);
    } else {
        assert(l1.contains(l1[0]));
        let i = choose|i: int| 0 <= i < l2.len() && l2[i] == l1[0];
        assert(l2.contains(l2[0]));
        let j = choose|j: int| 0 <= j < l1.len() && l1[j] == l2[0];
        if i > 0 {
            assert(l2[0].1 > l2[i].1);
            if j > 0 {
                assert(l1[0].1 > l1[j].1);
            }
        }
        assert(l1[0] == l2[0]);
        let t1 = l1.drop_first();
        let t2 = l2.drop_first();
        assert forall|x: (Seq<char>, u64)| t1.contains(x) <==> t2.contains(x) by {
            if t1.contains(x) {
                let a = choose|a: int| 0 <= a < t1.len() && t1[a] == x;
                assert(l1[0].1 > l1[a + 1].1);
                assert(l2.contains(x));
                let b = choose|b: int| 0 <= b < l2.len() && l2[b] == x;
                assert(t2[b - 1] == x);
            }
            if t2.contains(x) {
                let b = choose|b: int| 0 <= b < t2.len() && t2[b] == x;
                assert(l2[0].1 > l2[b + 1].1);
                assert(l1.contains(x));
                let a = choose|a: int| 0 <= a < l1.len() && l1[a] == x;
                assert(t1[a - 1] == x);
            }
        }
        assert forall|a: int, b: int| 0 <= a < b < t1.len() implies (#[trigger] t1[a]).1 > (#[trigger] t1[b]).1 by {
            assert(l1[a + 1].1 > l1[b + 1].1);
        }
        assert forall|a: int, b: int| 0 <= a < b < t2.len() implies (#[trigger] t2[a]).1 > (#[trigger] t2[b]).1 by {
            assert(l2[a + 1].1 > l2[b + 1].1);
        }
        lemma_descending_unique(t1, t2);
        assert(l1 =~= seq![l1[0]] + t1);
        assert(l2 =~= seq![l2[0]] + t2);
    }
}

/// Where no two distinct outcomes share a count, the table of `s` has
/// strictly descending counts.
proof fn lemma_table_strict(s: Seq<Seq<char>>, rows: Seq<(usize, u64)>)
    requires
        is_count_table(s, rows),
        forall|x: Seq<char>, y: Seq<char>|
            x != y && s.contains(x) && s.contains(y) ==> occurrences(s, x) != occurrences(s, y),
    ensures
        strictly_descending(labelled(s, rows)),
{
    let l = labelled(s, rows);
    assert forall|a: int, b: int| 0 <= a < b < l.len() implies (#[trigger] l[a]).1 > (#[trigger] l[b]).1 by {
        assert(row_before(rows[a], rows[b]));
        let p = rows[a].0 as int;
        let q = rows[b].0 as int;
        assert(is_first(s, p) && is_first(s, q));
        if rows[a].1 == rows[b].1 {
            assert(p < q);
            assert(s[p] != s[q]);
            assert(s.contains(s[p]) && s.contains(s[q]));
        }
    }
}

/// Counting does not depend on the order of the draws: where no two distinct
/// outcomes share a count, two outcome sequences that hold the same values the
/// same number of times print the same count table.
pub proof fn count_table_same_text(
    s1: Seq<Seq<char>>,
    s2: Seq<Seq<char>>,
    rows1: Seq<(usize, u64)>,
    rows2: Seq<(usize, u64)>,
)
    requires
        s1.to_multiset() == s2.to_multiset(),
        is_count_table(s1, rows1),
        is_count_table(s2, rows2),
        forall|x: Seq<char>, y: Seq<char>|
            x != y && s1.contains(x) && s1.contains(y) ==> occurrences(s1, x) != occurrences(s1, y),
    ensures
        labelled(s1, rows1) == labelled(s2, rows2),
        table_text(s1, rows1) == table_text(s2, rows2),
{
    assert forall|x: Seq<char>| s1.contains(x) <==> s2.contains(x) by {
        assert(s1.contains(x) <==> s1.to_multiset().count(x) > 0);
        assert(s2.contains(x) <==> s2.to_multiset().count(x) > 0);
    }
    lemma_table_strict(s1, rows1);
    lemma_table_strict(s2, rows2);
    lemma_rows_covered(s1, s2, rows1, rows2);
    lemma_rows_covered(s2, s1, rows2, rows1);
    let l1 = labelled(s1, rows1);
    let l2 = labelled(s2, rows2);
    assert forall|x: (Seq<char>, u64)| l1.contains(x) <==> l2.contains(x) by {
        if l1.contains(x) {
            let k = choose|k: int| 0 <= k < l1.len() && l1[k] == x;
            assert(has_row(s2, rows2, s1[rows1[k].0 as int], rows1[k].1));
            let m = choose|m: int|
                0 <= m < rows2.len() && s2[(#[trigger] rows2[m]).0 as int] == s1[rows1[k].0 as int] && rows2[m].1
                    == rows1[k].1;
            assert(l2[m] == x);
        }
        if l2.contains(x) {
            let m = choose|m: int| 0 <= m < l2.len() && l2[m] == x;
            assert(has_row(s1, rows1, s2[rows2[m].0 as int], rows2[m].1));
            let k = choose|k: int|
                0 <= k < rows1.len() && s1[(#[trigger] rows1[k]).0 as int] == s2[rows2[m].0 as int] && rows1[k].1
                    == rows2[m].1;
            assert(l1[k] == x);
        }
    }
    lemma_descending_unique(l1, l2);
    let t1 = rows1.map_values(|r: (usize, u64)| row_line(s1, r));
    let t2 = rows2.map_values(|r: (usize, u64)| row_line(s2, r));
    assert forall|k: int| 0 <= k < t1.len() implies t1[k] == t2[k] by {
        assert(l1[k] == l2[k]);
    }
    assert(t1 =~= t2);
}

} // verus!
