//! Spreading tests over workers by their recorded durations, and merging the
//! workers' counters.
use vstd::prelude::*;
use vstd::string::*;

verus! {

/// The duration assumed for every test when none has a recorded one.
pub const DEFAULT_DURATION: u64 = 1;

/// The sum of the recorded durations in `ds[0..k]`.
pub open spec fn known_sum(ds: Seq<Option<u64>>, k: int) -> int
    decreases k,
{
    if k <= 0 {
        0
    } else {
        known_sum(ds, k - 1) + match ds[k - 1] {
            Some(d) => d as int,
            None => 0,
        }
    }
}

/// How many of `ds[0..k]` have a recorded duration.
pub open spec fn known_count(ds: Seq<Option<u64>>, k: int) -> int
    decreases k,
{
    if k <= 0 {
        0
    } else {
        known_count(ds, k - 1) + if ds[k - 1] is Some {
            1int
        } else {
            0int
        }
    }
}

proof fn lemma_known_bounds(ds: Seq<Option<u64>>, k: int)
    requires
        0 <= k <= ds.len(),
    ensures
        0 <= known_sum(ds, k),
        0 <= known_count(ds, k) <= k,
    decreases k,
{
    if k > 0 {
        lemma_known_bounds(ds, k - 1);
    }
}

/// The duration assumed for a test with none recorded: the mean of the
/// recorded ones (their sum capped at `u64::MAX`), or the default when there
/// are none.
pub open spec fn fill_duration(ds: Seq<Option<u64>>) -> u64 {
    let n = known_count(ds, ds.len() as int);
    let s = known_sum(ds, ds.len() as int);
    if n == 0 {
        DEFAULT_DURATION
    } else {
        ((if s > u64::MAX {
            u64::MAX as int
        } else {
            s
        }) / n) as u64
    }
}

/// Each test's duration: the recorded one, or the fill for the others.
pub fn estimated_durations(ds: &Vec<Option<u64>>) -> (r: Vec<u64>)
    ensures
        r@.len() == ds@.len(),
        forall|i: int|
            0 <= i < ds@.len() ==> #[trigger] r@[i] == match ds@[i] {
                Some(d) => d,
                None => fill_duration(ds@),
            },
{
    let mut sum: u64 = 0;
    let mut count: usize = 0;
    let mut i: usize = 0;
    while i < ds.len()
        invariant
            i <= ds@.len(),
            count as int == known_count(ds@, i as int),
            sum as int == if known_sum(ds@, i as int) > u64::MAX {
                u64::MAX as int
            } else {
                known_sum(ds@, i as int)
            },
        decreases ds@.len() - i,
    {
        proof {
            lemma_known_bounds(ds@, i as int);
        }
        match ds[i] {
            Some(d) => {
                sum = sum.saturating_add(d);
                count = count + 1;
            },
            None => {},
        }
        i = i + 1;
    }
    let fill = if count == 0 {
        DEFAULT_DURATION
    } else {
        sum / (count as u64)
    };
    assert(fill == fill_duration(ds@));
    let mut out: Vec<u64> = Vec::new();
    let mut j: usize = 0;
    while j < ds.len()
        invariant
            j <= ds@.len(),
            fill == fill_duration(ds@),
            out@.len() == j,
            forall|k: int|
                0 <= k < j ==> #[trigger] out@[k] == match ds@[k] {
                    Some(d) => d,
                    None => fill_duration(ds@),
                },
        decreases ds@.len() - j,
    {
        let d = match ds[j] {
            Some(d) => d,
            None => fill,
        };
        out.push(d);
        j = j + 1;
    }
    out
}

/// An assignment of tests to workers: test `t` goes to worker `a[t]`.
pub open spec fn is_assignment(a: Seq<usize>, tests: int, workers: int) -> bool {
    a.len() == tests && forall|t: int| 0 <= t < tests ==> #[trigger] a[t] < workers
}

/// The longest test not yet placed, scanning from `k` with `best` the
/// longest so far (`d.len()` for none); the first one on a tie.
pub open spec fn longest_unplaced(d: Seq<u64>, placed: Seq<bool>, k: int, best: int) -> int
    decreases d.len() - k,
{
    if k < 0 || k >= d.len() {
        best
    } else if !placed[k] && (best == d.len() || d[k] > d[best]) {
        longest_unplaced(d, placed, k + 1, k)
    } else {
        longest_unplaced(d, placed, k + 1, best)
    }
}

/// The least loaded worker, scanning from `v` with `t` the least so far;
/// the first one on a tie.
pub open spec fn least_loaded(loads: Seq<u64>, v: int, t: int) -> int
    decreases loads.len() - v,
{
    if v < 0 || v >= loads.len() {
        t
    } else if loads[v] < loads[t] {
        least_loaded(loads, v + 1, v)
    } else {
        least_loaded(loads, v + 1, t)
    }
}

pub open spec fn saturating_sum(a: u64, b: u64) -> u64 {
    if a + b > u64::MAX {
        u64::MAX
    } else {
        (a + b) as u64
    }
}

/// The assignment, the placed marks and the workers' loads after `r` rounds
/// of placing the longest unplaced test on the least loaded worker.
pub open spec fn lpt_state(d: Seq<u64>, workers: nat, r: nat) -> (Seq<usize>, Seq<bool>, Seq<u64>)
    decreases r,
{
    if r == 0 {
        (
            Seq::new(d.len(), |i: int| 0usize),
            Seq::new(d.len(), |i: int| false),
            Seq::new(workers, |i: int| 0u64),
        )
    } else {
        let prev = lpt_state(d, workers, (r - 1) as nat);
        let best = longest_unplaced(d, prev.1, 0, d.len() as int);
        if best < d.len() {
            let t = least_loaded(prev.2, 1, 0);
            (
                prev.0.update(best, t as usize),
                prev.1.update(best, true),
                prev.2.update(t, saturating_sum(prev.2[t], d[best])),
            )
        } else {
            prev
        }
    }
}

/// The longest-processing-time-first assignment of tests with durations
/// `d` to `workers` workers.
pub open spec fn lpt_assignment(d: Seq<u64>, workers: nat) -> Seq<usize> {
    lpt_state(d, workers, d.len()).0
}

/// Assigns tests to `workers` workers, longest first, each to the worker
/// with the smallest load so far (the lowest-numbered one on a tie). Ties in
/// duration go in test order. Loads add up with saturation.
pub fn partition_tests(durations: &Vec<u64>, workers: usize) -> (r: Vec<usize>)
    requires
        workers > 0,
    ensures
        r@ == lpt_assignment(durations@, workers as nat),
        is_assignment(r@, durations@.len() as int, workers as int),
{
    let m = durations.len();
    let ghost d = durations@;
    let mut loads: Vec<u64> = Vec::new();
    let mut w: usize = 0;
    while w < workers
        invariant
            w <= workers,
            loads@ =~= Seq::new(w as nat, |i: int| 0u64),
        decreases workers - w,
    {
        loads.push(0);
        w = w + 1;
    }
    let mut assignment: Vec<usize> = Vec::new();
    let mut placed: Vec<bool> = Vec::new();
    let mut t: usize = 0;
    while t < m
        invariant
            t <= m == durations@.len(),
            assignment@ =~= Seq::new(t as nat, |i: int| 0usize),
            placed@ =~= Seq::new(t as nat, |i: int| false),
        decreases m - t,
    {
        assignment.push(0);
        placed.push(false);
        t = t + 1;
    }
    let mut round: usize = 0;
    while round < m
        invariant
            d == durations@,
            m == d.len(),
            round <= m,
            workers > 0,
            (assignment@, placed@, loads@) == lpt_state(d, workers as nat, round as nat),
            assignment@.len() == m,
            placed@.len() == m,
            loads@.len() == workers,
            forall|k: int| 0 <= k < m ==> #[trigger] assignment@[k] < workers,
        decreases m - round,
    {
        // The longest test not placed yet.
        let mut best: usize = m;
        let mut k: usize = 0;
        while k < m
            invariant
                d == durations@,
                m == d.len(),
                placed@.len() == m,
                k <= m,
                best == m || (best < k && !placed@[best as int]),
                longest_unplaced(d, placed@, k as int, best as int) == longest_unplaced(
                    d,
                    placed@,
                    0,
                    m as int,
                ),
            decreases m - k,
        {
            if !placed[k] && (best == m || durations[k] > durations[best]) {
                best = k;
            }
            k = k + 1;
        }
        if best < m {
            // The least loaded worker.
            let mut target: usize = 0;
            let mut v: usize = 1;
            while v < workers
                invariant
                    loads@.len() == workers,
                    1 <= v <= workers,
                    target < workers,
                    least_loaded(loads@, v as int, target as int) == least_loaded(loads@, 1, 0),
                decreases workers - v,
            {
                if loads[v] < loads[target] {
                    target = v;
                }
                v = v + 1;
            }
            assignment.set(best, target);
            placed.set(best, true);
            let nl = loads[target].saturating_add(durations[best]);
            loads.set(target, nl);
        }
        round = round + 1;
    }
    assignment
}

/// The tests of worker `w` among the first `k`, in test order.
pub open spec fn tests_of(a: Seq<usize>, w: int, k: int) -> Seq<usize>
    decreases k,
{
    if k <= 0 {
        seq![]
    } else if a[k - 1] == w {
        tests_of(a, w, k - 1).push((k - 1) as usize)
    } else {
        tests_of(a, w, k - 1)
    }
}

proof fn lemma_tests_of(a: Seq<usize>, w: int, k: int, t: int)
    requires
        0 <= k <= a.len() <= usize::MAX,
        0 <= t < a.len(),
    ensures
        tests_of(a, w, k).contains(t as usize) <==> t < k && a[t] == w,
    decreases k,
{
    if k > 0 {
        lemma_tests_of(a, w, k - 1, t);
        if a[k - 1] == w {
            assert(tests_of(a, w, k)[tests_of(a, w, k - 1).len() as int] == (k - 1) as usize);
            if tests_of(a, w, k).contains(t as usize) && t != k - 1 {
                let i = choose|i: int|
                    0 <= i < tests_of(a, w, k).len() && #[trigger] tests_of(a, w, k)[i] == t as usize;
                assert(i < tests_of(a, w, k - 1).len());
                assert(tests_of(a, w, k - 1)[i] == t as usize);
            }
            if 0 <= t < k - 1 && a[t] == w {
                let i = choose|i: int|
                    0 <= i < tests_of(a, w, k - 1).len() && #[trigger] tests_of(a, w, k - 1)[i]
                        == t as usize;
                assert(tests_of(a, w, k)[i] == t as usize);
            }
        }
    }
}

/// The tests of each worker under the assignment `a`.
pub fn partitions(a: &Vec<usize>, workers: usize) -> (r: Vec<Vec<usize>>)
    ensures
        r@.len() == workers,
        forall|w: int| 0 <= w < workers ==> (#[trigger] r@[w])@ == tests_of(a@, w, a@.len() as int),
{
    let mut out: Vec<Vec<usize>> = Vec::new();
    let mut w: usize = 0;
    while w < workers
        invariant
            w <= workers,
            out@.len() == w,
            forall|x: int| 0 <= x < w ==> (#[trigger] out@[x])@ == tests_of(a@, x, a@.len() as int),
        decreases workers - w,
    {
        let mut mine: Vec<usize> = Vec::new();
        let mut t: usize = 0;
        while t < a.len()
            invariant
                t <= a@.len(),
                mine@ == tests_of(a@, w as int, t as int),
            decreases a@.len() - t,
        {
            if a[t] == w {
                mine.push(t);
            }
            t = t + 1;
        }
        out.push(mine);
        w = w + 1;
    }
    out
}

/// Every test lands in exactly one partition: the partitions cover all tests
/// and no two share one.
pub proof fn law_partitions_cover_disjointly(a: Seq<usize>, workers: int, t: int)
    requires
        is_assignment(a, a.len() as int, workers),
        a.len() <= usize::MAX,
        0 <= t < a.len(),
    ensures
        0 <= a[t] < workers && tests_of(a, a[t] as int, a.len() as int).contains(t as usize),
        forall|w: int|
            0 <= w < workers && w != a[t] ==> !(#[trigger] tests_of(a, w, a.len() as int)).contains(
                t as usize,
            ),
{
    lemma_tests_of(a, a[t] as int, a.len() as int, t);
    assert forall|w: int|
        0 <= w < workers && w != a[t] implies !(#[trigger] tests_of(
        a,
        w,
        a.len() as int,
    )).contains(t as usize) by {
        lemma_tests_of(a, w, a.len() as int, t);
    }
}

/// The counters of a run.
#[derive(Copy, Clone, Debug, PartialEq, Eq, Structural)]
pub struct RunStats {
    pub passed: u64,
    pub failed: u64,
    pub skipped: u64,
}

impl RunStats {
    /// All tests counted.
    pub fn total(self) -> (r: u128)
        ensures
            r == self.passed + self.failed + self.skipped,
    {
        self.passed as u128 + self.failed as u128 + self.skipped as u128
    }

    /// A run succeeds when nothing failed.
    pub fn is_success(self) -> (r: bool)
        ensures
            r == (self.failed == 0),
    {
        self.failed == 0
    }
}

pub open spec fn sum_passed(s: Seq<RunStats>) -> int
    decreases s.len(),
{
    if s.len() == 0 {
        0
    } else {
        sum_passed(s.drop_last()) + s.last().passed
    }
}

pub open spec fn sum_failed(s: Seq<RunStats>) -> int
    decreases s.len(),
{
    if s.len() == 0 {
        0
    } else {
        sum_failed(s.drop_last()) + s.last().failed
    }
}

pub open spec fn sum_skipped(s: Seq<RunStats>) -> int
    decreases s.len(),
{
    if s.len() == 0 {
        0
    } else {
        sum_skipped(s.drop_last()) + s.last().skipped
    }
}

proof fn lemma_sums_grow(s: Seq<RunStats>, k: int)
    requires
        0 <= k <= s.len(),
    ensures
        0 <= sum_passed(s.take(k)) <= sum_passed(s),
        0 <= sum_failed(s.take(k)) <= sum_failed(s),
        0 <= sum_skipped(s.take(k)) <= sum_skipped(s),
    decreases s.len(),
{
    if s.len() > 0 {
        if k == s.len() {
            assert(s.take(k) =~= s);
            lemma_sums_grow(s.drop_last(), k - 1);
            assert(s.drop_last().take(k - 1) =~= s.drop_last());
        } else {
            lemma_sums_grow(s.drop_last(), k);
            assert(s.drop_last().take(k) =~= s.take(k));
        }
    }
}

/// Merges the counters of all workers: each aggregate counter is the sum of
/// the workers' counters.
pub fn aggregate(per_worker: &Vec<RunStats>) -> (r: RunStats)
    requires
        sum_passed(per_worker@) <= u64::MAX,
        sum_failed(per_worker@) <= u64::MAX,
        sum_skipped(per_worker@) <= u64::MAX,
    ensures
        r.passed == sum_passed(per_worker@),
        r.failed == sum_failed(per_worker@),
        r.skipped == sum_skipped(per_worker@),
{
    let mut acc = RunStats { passed: 0, failed: 0, skipped: 0 };
    let mut i: usize = 0;
    while i < per_worker.len()
        invariant
            i <= per_worker@.len(),
            sum_passed(per_worker@) <= u64::MAX,
            sum_failed(per_worker@) <= u64::MAX,
            sum_skipped(per_worker@) <= u64::MAX,
            acc.passed == sum_passed(per_worker@.take(i as int)),
            acc.failed == sum_failed(per_worker@.take(i as int)),
            acc.skipped == sum_skipped(per_worker@.take(i as int)),
        decreases per_worker@.len() - i,
    {
        let s = per_worker[i];
        proof {
            assert(per_worker@.take(i + 1).drop_last() =~= per_worker@.take(i as int));
            lemma_sums_grow(per_worker@, i + 1);
        }
        acc = RunStats {
            passed: acc.passed + s.passed,
            failed: acc.failed + s.failed,
            skipped: acc.skipped + s.skipped,
        };
        i = i + 1;
    }
    proof {
        assert(per_worker@.take(i as int) =~= per_worker@);
    }
    acc
}

/// Merging is additive: the aggregate of two groups of workers is the sum of
/// the aggregates of each group.
pub proof fn law_aggregation_is_additive(a: Seq<RunStats>, b: Seq<RunStats>)
    ensures
        sum_passed(a + b) == sum_passed(a) + sum_passed(b),
        sum_failed(a + b) == sum_failed(a) + sum_failed(b),
        sum_skipped(a + b) == sum_skipped(a) + sum_skipped(b),
    decreases b.len(),
{
    if b.len() == 0 {
        assert(a + b =~= a);
    } else {
        law_aggregation_is_additive(a, b.drop_last());
        assert((a + b).drop_last() =~= a + b.drop_last());
    }
}

/// The texts of `v`, one after the other.
pub open spec fn concatenated(v: Seq<String>) -> Seq<char>
    decreases v.len(),
{
    if v.len() == 0 {
        seq![]
    } else {
        concatenated(v.drop_last()) + v.last()@
    }
}

/// Merges the workers' diagnostics: each worker's text in worker order.
pub fn aggregate_diagnostics(per_worker: &Vec<String>) -> (r: String)
    ensures
        r@ == concatenated(per_worker@),
{
    let mut out = String::new();
    let mut i: usize = 0;
    while i < per_worker.len()
        invariant
            i <= per_worker@.len(),
            out@ == concatenated(per_worker@.take(i as int)),
        decreases per_worker@.len() - i,
    {
        out.append(per_worker[i].as_str());
        proof {
            assert(per_worker@.take(i + 1).drop_last() =~= per_worker@.take(i as int));
        }
        i = i + 1;
    }
    proof {
        assert(per_worker@.take(i as int) =~= per_worker@);
    }
    out
}

} // verus!
