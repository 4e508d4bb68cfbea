//! Counting statistics of a regime assignment: how often each regime occurs,
//! how often the assignment moves from one regime to another between
//! consecutive observations, and how often it switches at all.

use vstd::prelude::*;

verus! {

/// Number of observations assigned to regime `r`.
pub open spec fn occurrences(rs: Seq<usize>, r: usize) -> nat
    decreases rs.len(),
{
    if rs.len() == 0 {
        0
    } else {
        occurrences(rs.drop_last(), r) + if rs.last() == r { 1nat } else { 0nat }
    }
}

/// Number of consecutive pairs of observations in regimes `a` then `b`.
pub open spec fn transitions(rs: Seq<usize>, a: usize, b: usize) -> nat
    decreases rs.len(),
{
    if rs.len() < 2 {
        0
    } else {
        transitions(rs.drop_last(), a, b) + if rs[rs.len() - 2] == a && rs.last() == b {
            1nat
        } else {
            0nat
        }
    }
}

/// Number of consecutive pairs of observations in different regimes.
pub open spec fn switches(rs: Seq<usize>) -> nat
    decreases rs.len(),
{
    if rs.len() < 2 {
        0
    } else {
        switches(rs.drop_last()) + if rs[rs.len() - 2] != rs.last() { 1nat } else { 0nat }
    }
}

/// Every observation is assigned one of the first `n` regimes.
pub open spec fn regimes_below(rs: Seq<usize>, n: usize) -> bool {
    forall|i: int| 0 <= i < rs.len() ==> #[trigger] rs[i] < n
}

proof fn lemma_occurrences_bound(rs: Seq<usize>, r: usize)
    ensures
        occurrences(rs, r) <= rs.len(),
    decreases rs.len(),
{
    if rs.len() > 0 {
        lemma_occurrences_bound(rs.drop_last(), r);
    }
}

proof fn lemma_transitions_bound(rs: Seq<usize>, a: usize, b: usize)
    ensures
        transitions(rs, a, b) <= rs.len(),
    decreases rs.len(),
{
    if rs.len() >= 2 {
        lemma_transitions_bound(rs.drop_last(), a, b);
    }
}

proof fn lemma_switches_bound(rs: Seq<usize>)
    ensures
        switches(rs) <= rs.len(),
    decreases rs.len(),
{
    if rs.len() >= 2 {
        lemma_switches_bound(rs.drop_last());
    }
}

/// Sum over the first `n` regimes `b` of the transitions from `a` to `b`.
pub open spec fn row_total(rs: Seq<usize>, a: usize, n: nat) -> nat
    decreases n,
{
    if n == 0 {
        0
    } else {
        row_total(rs, a, (n - 1) as nat) + transitions(rs, a, (n - 1) as usize)
    }
}

proof fn lemma_row_total_step(rs: Seq<usize>, a: usize, n: nat)
    requires
        rs.len() >= 2,
        n <= usize::MAX + 1,
    ensures
        row_total(rs, a, n) == row_total(rs.drop_last(), a, n) + if rs[rs.len() - 2] == a && rs.last() < n {
            1nat
        } else {
            0nat
        },
    decreases n,
{
    if n > 0 {
        lemma_row_total_step(rs, a, (n - 1) as nat);
    }
}

proof fn lemma_row_total_short(rs: Seq<usize>, a: usize, n: nat)
    requires
        rs.len() < 2,
    ensures
        row_total(rs, a, n) == 0,
    decreases n,
{
    if n > 0 {
        lemma_row_total_short(rs, a, (n - 1) as nat);
    }
}

/// Each row of the transition counts adds up to the number of times regime
/// `a` is left for a next observation, that is, its occurrences among all
/// observations but the last: the count by which that row is normalised.
pub proof fn lemma_transition_rows_count_departures(rs: Seq<usize>, n_regimes: usize, a: usize)
    requires
        rs.len() > 0,
        regimes_below(rs, n_regimes),
    ensures
        row_total(rs, a, n_regimes as nat) == occurrences(rs.drop_last(), a),
    decreases rs.len(),
{
    if rs.len() == 1 {
        lemma_row_total_short(rs, a, n_regimes as nat);
        assert(rs.drop_last().len() == 0);
    } else {
        let d = rs.drop_last();
        lemma_transition_rows_count_departures(d, n_regimes, a);
        lemma_row_total_step(rs, a, n_regimes as nat);
        assert(rs.last() < n_regimes);
        assert(d.last() == rs[rs.len() - 2]);
    }
}

/// Sum over the first `n` regimes `a` of the pairs that stay in `a`.
pub open spec fn stays_total(rs: Seq<usize>, n: nat) -> nat
    decreases n,
{
    if n == 0 {
        0
    } else {
        stays_total(rs, (n - 1) as nat) + transitions(rs, (n - 1) as usize, (n - 1) as usize)
    }
}

proof fn lemma_stays_total_step(rs: Seq<usize>, n: nat)
    requires
        rs.len() >= 2,
        n <= usize::MAX + 1,
    ensures
        stays_total(rs, n) == stays_total(rs.drop_last(), n) + if rs[rs.len() - 2] == rs.last() && rs.last() < n {
            1nat
        } else {
            0nat
        },
    decreases n,
{
    if n > 0 {
        lemma_stays_total_step(rs, (n - 1) as nat);
    }
}

proof fn lemma_stays_total_short(rs: Seq<usize>, n: nat)
    requires
        rs.len() < 2,
    ensures
        stays_total(rs, n) == 0,
    decreases n,
{
    if n > 0 {
        lemma_stays_total_short(rs, (n - 1) as nat);
    }
}

/// Every consecutive pair of observations either switches regime or stays in
/// one: the switches plus the stays in each regime count all the pairs.
pub proof fn lemma_switches_and_stays_count_pairs(rs: Seq<usize>, n_regimes: usize)
    requires
        rs.len() > 0,
        regimes_below(rs, n_regimes),
    ensures
        switches(rs) + stays_total(rs, n_regimes as nat) == rs.len() - 1,
    decreases rs.len(),
{
    if rs.len() == 1 {
        lemma_stays_total_short(rs, n_regimes as nat);
    } else {
        let d = rs.drop_last();
        lemma_switches_and_stays_count_pairs(d, n_regimes);
        lemma_stays_total_step(rs, n_regimes as nat);
        assert(rs.last() < n_regimes);
    }
}

/// A vector of `n` zeros.
fn zeros(n: usize) -> (v: Vec<usize>)
    ensures
        v@.len() == n,
        forall|i: int| 0 <= i < n ==> #[trigger] v@[i] == 0,
{
    let mut v: Vec<usize> = Vec::new();
    let mut i: usize = 0;
    while i < n
        invariant
            i <= n,
            v@.len() == i,
            forall|j: int| 0 <= j < i ==> #[trigger] v@[j] == 0,
        decreases n - i,
    {
        v.push(0);
        i = i + 1;
    }
    v
}

/// How many observations fall in each regime: entry `r` counts the
/// observations assigned to regime `r`.
pub fn regime_counts(regimes: &[usize], n_regimes: usize) -> (counts: Vec<usize>)
    requires
        regimes_below(regimes@, n_regimes),
    ensures
        counts@.len() == n_regimes,
        forall|r: int| 0 <= r < n_regimes ==> #[trigger] counts@[r] as nat == occurrences(regimes@, r as usize),
{
    let mut counts = zeros(n_regimes);
    let mut k: usize = 0;
    while k < regimes.len()
        invariant
            k <= regimes@.len(),
            regimes_below(regimes@, n_regimes),
            counts@.len() == n_regimes,
            forall|r: int| 0 <= r < n_regimes ==> #[trigger] counts@[r] as nat == occurrences(regimes@.take(k as int), r as usize),
        decreases regimes@.len() - k,
    {
        let r = regimes[k];
        proof {
            assert(regimes@.take(k + 1).drop_last() =~= regimes@.take(k as int));
            lemma_occurrences_bound(regimes@.take(k as int), r);
        }
        let c = counts[r];
        counts.set(r, c + 1);
        k = k + 1;
    }
    proof {
        assert(regimes@.take(k as int) =~= regimes@);
    }
    counts
}

/// How often the assignment moves between regimes: entry `[a][b]` counts
/// the consecutive pairs of observations in regime `a` then regime `b`.
pub fn transition_counts(regimes: &[usize], n_regimes: usize) -> (counts: Vec<Vec<usize>>)
    requires
        regimes_below(regimes@, n_regimes),
    ensures
        counts@.len() == n_regimes,
        forall|a: int| 0 <= a < n_regimes ==> (#[trigger] counts@[a])@.len() == n_regimes,
        forall|a: int, b: int|
            0 <= a < n_regimes && 0 <= b < n_regimes ==> #[trigger] counts@[a]@[b] as nat == transitions(
                regimes@,
                a as usize,
                b as usize,
            ),
{
    let mut counts: Vec<Vec<usize>> = Vec::new();
    let mut i: usize = 0;
    while i < n_regimes
        invariant
            i <= n_regimes,
            counts@.len() == i,
            forall|a: int| 0 <= a < i ==> (#[trigger] counts@[a])@.len() == n_regimes,
            forall|a: int, b: int| 0 <= a < i && 0 <= b < n_regimes ==> #[trigger] counts@[a]@[b] == 0,
        decreases n_regimes - i,
    {
        counts.push(zeros(n_regimes));
        i = i + 1;
    }
    let n = regimes.len();
    if n == 0 {
        return counts;
    }
    let mut k: usize = 1;
    assert(regimes@.take(1).len() == 1);
    while k < n
        invariant
            n == regimes@.len(),
            1 <= k <= n,
            regimes_below(regimes@, n_regimes),
            counts@.len() == n_regimes,
            forall|a: int| 0 <= a < n_regimes ==> (#[trigger] counts@[a])@.len() == n_regimes,
            forall|a: int, b: int|
                0 <= a < n_regimes && 0 <= b < n_regimes ==> #[trigger] counts@[a]@[b] as nat == transitions(
                    regimes@.take(k as int),
                    a as usize,
                    b as usize,
                ),
        decreases n - k,
    {
        let a = regimes[k - 1];
        let b = regimes[k];
        proof {
            assert(regimes@.take(k + 1).drop_last() =~= regimes@.take(k as int));
            lemma_transitions_bound(regimes@.take(k as int), a, b);
        }
        let ghost before = counts@;
        let mut row = counts.remove(a);
        let c = row[b];
        row.set(b, c + 1);
        counts.insert(a, row);
        proof {
            assert forall|x: int, y: int|
                0 <= x < n_regimes && 0 <= y < n_regimes implies #[trigger] counts@[x]@[y] as nat == transitions(
                    regimes@.take(k + 1),
                    x as usize,
                    y as usize,
                ) by {
                if x != a {
                    assert(counts@[x] == before[x]);
                } else if y != b {
                    assert(counts@[x]@[y] == before[x]@[y]);
                }
            }
        }
        k = k + 1;
    }
    proof {
        assert(regimes@.take(k as int) =~= regimes@);
    }
    counts
}

/// How many times the assignment changes regime between consecutive
/// observations.
pub fn count_switches(regimes: &[usize]) -> (r: usize)
    ensures
        r as nat == switches(regimes@),
{
    let n = regimes.len();
    if n == 0 {
        return 0;
    }
    let mut total: usize = 0;
    let mut k: usize = 1;
    assert(regimes@.take(1).len() == 1);
    while k < n
        invariant
            n == regimes@.len(),
            1 <= k <= n,
            total as nat == switches(regimes@.take(k as int)),
        decreases n - k,
    {
        proof {
            assert(regimes@.take(k + 1).drop_last() =~= regimes@.take(k as int));
            lemma_switches_bound(regimes@.take(k as int));
        }
        if regimes[k - 1] != regimes[k] {
            total = total + 1;
        }
        k = k + 1;
    }
    proof {
        assert(regimes@.take(k as int) =~= regimes@);
    }
    total
}

} // verus!
