//! What a script stage's manager decides: how many workers to start with,
//! how a batch's rows are split among the workers and the results put back in
//! order, and how the first batches are profiled.
use vstd::prelude::*;

use crate::stages::WorkerMode;
use crate::text::chars_of;

verus! {

// ---------------------------------------------------------------------------
// Splitting a batch among workers
// ---------------------------------------------------------------------------

/// Rows that worker `i` of `n` gets from a batch of `total` rows: an even
/// share, with the first `total % n` workers taking one row more.
pub open spec fn share(total: nat, n: nat, i: nat) -> nat {
    total / n + if i < total % n {
        1nat
    } else {
        0nat
    }
}

/// The first row of worker `i`'s share.
pub open spec fn share_start(total: nat, n: nat, i: nat) -> nat {
    i * (total / n) + if i < total % n {
        i
    } else {
        total % n
    }
}

/// Splits a batch of `total_rows` rows among `n` workers: worker `i` gets the
/// `len` rows from `offset`, as `(offset, len)`.
pub fn split_rows(total_rows: usize, n: usize) -> (r: Vec<(usize, usize)>)
    requires
        n > 0,
    ensures
        r@.len() == n,
        forall|i: int|
            0 <= i < n ==> (#[trigger] r@[i]).0 == share_start(total_rows as nat, n as nat, i as nat)
                && r@[i].1 == share(total_rows as nat, n as nat, i as nat),
{
    let base = total_rows / n;
    let rem = total_rows % n;
    let mut out: Vec<(usize, usize)> = Vec::new();
    let mut offset: usize = 0;
    let mut i: usize = 0;
    while i < n
        invariant
            n > 0,
            base == total_rows / n,
            rem == total_rows % n,
            i <= n,
            out@.len() == i,
            offset == share_start(total_rows as nat, n as nat, i as nat),
            forall|k: int|
                0 <= k < i ==> (#[trigger] out@[k]).0 == share_start(
                    total_rows as nat,
                    n as nat,
                    k as nat,
                ) && out@[k].1 == share(total_rows as nat, n as nat, k as nat),
        decreases n - i,
    {
        proof {
            lemma_share_bounds(total_rows as nat, n as nat, i as nat);
        }
        let size = base + if i < rem {
            1
        } else {
            0
        };
        out.push((offset, size));
        offset = offset + size;
        i = i + 1;
    }
    out
}

proof fn lemma_share_bounds(total: nat, n: nat, i: nat)
    requires
        n > 0,
        i < n,
    ensures
        share_start(total, n, i) + share(total, n, i) == share_start(total, n, i + 1),
        share_start(total, n, i + 1) <= total,
{
    let b = total / n;
    let r = total % n;
    assert(total == n * b + r) by {
        vstd::arithmetic::div_mod::lemma_fundamental_div_mod(total as int, n as int);
    }
    assert((i + 1) * b == i * b + b) by (nonlinear_arith);
    assert((i + 1) * b <= n * b) by (nonlinear_arith)
        requires
            i + 1 <= n,
    ;
}

/// The shares cover the batch in order, without gaps or overlaps, and differ
/// in size by at most one row.
pub proof fn lemma_split_partitions(total: nat, n: nat)
    requires
        n > 0,
    ensures
        share_start(total, n, 0) == 0,
        forall|i: nat|
            i < n ==> #[trigger] share_start(total, n, i) + share(total, n, i) == share_start(
                total,
                n,
                i + 1,
            ),
        share_start(total, n, n) == total,
        forall|i: nat, j: nat| i < n && j < n ==> #[trigger] share(total, n, i) <= #[trigger] share(total, n, j) + 1,
{
    assert forall|i: nat| i < n implies #[trigger] share_start(total, n, i) + share(total, n, i)
        == share_start(total, n, i + 1) by {
        lemma_share_bounds(total, n, i);
    }
    vstd::arithmetic::div_mod::lemma_fundamental_div_mod(total as int, n as int);
    vstd::arithmetic::div_mod::lemma_mod_pos_bound(total as int, n as int);
    assert(share_start(total, n, 0) == 0) by {
        assert(0 * (total / n) == 0) by (nonlinear_arith);
    }
    assert(n * (total / n) + total % n == total);
}

// ---------------------------------------------------------------------------
// Putting the results back in order
// ---------------------------------------------------------------------------

/// The last result that arrived for worker `i`, if any.
pub open spec fn last_arrival<T>(arr: Seq<(usize, T)>, i: nat) -> Option<T>
    decreases arr.len(),
{
    if arr.len() == 0 {
        None
    } else if arr.last().0 == i {
        Some(arr.last().1)
    } else {
        last_arrival(arr.drop_last(), i)
    }
}

/// Whether `arr` holds a result for each of `n` workers, and none for others.
pub open spec fn complete<T>(arr: Seq<(usize, T)>, n: nat) -> bool {
    &&& forall|a: int| 0 <= a < arr.len() ==> (#[trigger] arr[a]).0 < n
    &&& forall|i: nat| i < n ==> (#[trigger] last_arrival(arr, i)) is Some
}

proof fn lemma_last_arrival_split<T>(arr: Seq<(usize, T)>, k: int, i: nat)
    requires
        0 <= k <= arr.len(),
    ensures
        last_arrival(arr, i) == match last_arrival(arr.skip(k), i) {
            Some(x) => Some(x),
            None => last_arrival(arr.take(k), i),
        },
    decreases arr.len(),
{
    if k < arr.len() {
        assert(arr.skip(k).last() == arr.last());
        assert(arr.skip(k).drop_last() =~= arr.drop_last().skip(k));
        assert(arr.drop_last().take(k) =~= arr.take(k));
        lemma_last_arrival_split(arr.drop_last(), k, i);
    } else {
        assert(arr.skip(k) =~= Seq::<(usize, T)>::empty());
        assert(arr.take(k) =~= arr);
    }
}

proof fn lemma_last_arrival_found<T>(arr: Seq<(usize, T)>, i: nat)
    ensures
        last_arrival(arr, i) is Some <==> exists|a: int| 0 <= a < arr.len() && (#[trigger] arr[a]).0 == i,
    decreases arr.len(),
{
    if arr.len() > 0 {
        lemma_last_arrival_found(arr.drop_last(), i);
        if last_arrival(arr.drop_last(), i) is Some {
            let a = choose|a: int| 0 <= a < arr.drop_last().len() && (#[trigger] arr.drop_last()[a]).0 == i;
            assert(arr[a] == arr.drop_last()[a]);
        }
        if exists|a: int| 0 <= a < arr.len() && (#[trigger] arr[a]).0 == i {
            let a = choose|a: int| 0 <= a < arr.len() && (#[trigger] arr[a]).0 == i;
            if a < arr.len() - 1 {
                assert(arr.drop_last()[a] == arr[a]);
            }
        }
    }
}

proof fn lemma_last_arrival_pop<T>(arr: Seq<(usize, T)>, m: int, k: nat)
    requires
        1 <= m <= arr.len(),
    ensures
        last_arrival(arr.skip(m - 1), k) == match last_arrival(arr.skip(m), k) {
            Some(y) => Some(y),
            None => if arr[m - 1].0 == k {
                Some(arr[m - 1].1)
            } else {
                None
            },
        },
{
    let s = arr.skip(m - 1);
    lemma_last_arrival_split(s, 1, k);
    assert(s.skip(1) =~= arr.skip(m));
    let one = s.take(1);
    assert(one =~= seq![arr[m - 1]]);
    assert(one.last() == arr[m - 1]);
    assert(one.drop_last() =~= Seq::<(usize, T)>::empty());
    assert(last_arrival(one.drop_last(), k) is None);
}

/// Puts the results of `n` workers back in worker order: `Some` exactly when
/// every result belongs to one of the workers and every worker has one, and
/// then each worker's (last) result in its place.
pub fn reassemble<T>(arrivals: Vec<(usize, T)>, n: usize) -> (r: Option<Vec<T>>)
    ensures
        r is Some <==> complete(arrivals@, n as nat),
        r matches Some(v) ==> v@.len() == n && forall|i: int|
            0 <= i < n ==> Some(#[trigger] v@[i]) == last_arrival(arrivals@, i as nat),
{
    let ghost arr = arrivals@;
    let mut pending = arrivals;
    let mut slots: Vec<Option<T>> = Vec::new();
    let mut i: usize = 0;
    while i < n
        invariant
            i <= n,
            slots@.len() == i,
            forall|k: int| 0 <= k < i ==> (#[trigger] slots@[k]) is None,
        decreases n - i,
    {
        slots.push(None);
        i = i + 1;
    }
    // Take the results from the last one back, keeping the first one seen for
    // each worker: that is the last one that arrived.
    while pending.len() > 0
        invariant
            arr == arrivals@,
            slots@.len() == n,
            pending@ == arr.take(pending@.len() as int),
            pending@.len() <= arr.len(),
            forall|a: int| pending@.len() <= a < arr.len() ==> (#[trigger] arr[a]).0 < n,
            forall|k: int|
                0 <= k < n ==> #[trigger] slots@[k] == last_arrival(
                    arr.skip(pending@.len() as int),
                    k as nat,
                ),
        decreases pending@.len(),
    {
        let ghost m = pending@.len() as int;
        let (idx, x) = pending.pop().unwrap();
        proof {
            assert(arr[m - 1] == (idx, x));
            assert(pending@ =~= arr.take(m - 1));
            assert forall|k: int| 0 <= k < n implies #[trigger] last_arrival(arr.skip(m - 1), k as nat)
                == match last_arrival(arr.skip(m), k as nat) {
                Some(y) => Some(y),
                None => if arr[m - 1].0 == k {
                    Some(arr[m - 1].1)
                } else {
                    None
                },
            } by {
                lemma_last_arrival_pop(arr, m, k as nat);
            }
        }
        if idx >= n {
            proof {
                assert(arr[m - 1].0 >= n);
                assert(!complete(arr, n as nat));
            }
            return None;
        }
        if slots[idx].is_none() {
            slots.set(idx, Some(x));
        }
        proof {
            assert forall|k: int| 0 <= k < n implies #[trigger] slots@[k] == last_arrival(
                arr.skip(m - 1),
                k as nat,
            ) by {}
        }
    }
    assert(arr.skip(0) =~= arr);
    let mut out: Vec<T> = Vec::new();
    let mut j: usize = 0;
    while j < n
        invariant
            arr == arrivals@,
            j <= n,
            slots@.len() == n - j,
            forall|k: int| 0 <= k < n - j ==> #[trigger] slots@[k] == last_arrival(arr, (k + j) as nat),
            out@.len() == j,
            forall|k: int| 0 <= k < j ==> Some(#[trigger] out@[k]) == last_arrival(arr, k as nat),
            forall|k: nat| k < j ==> (#[trigger] last_arrival(arr, k)) is Some,
            forall|a: int| 0 <= a < arr.len() ==> (#[trigger] arr[a]).0 < n,
        decreases n - j,
    {
        let ghost before = slots@;
        let slot = slots.remove(0);
        assert(slot == last_arrival(arr, j as nat));
        assert forall|k: int| 0 <= k < n - (j + 1) implies #[trigger] slots@[k] == last_arrival(arr, (k + j + 1) as nat) by {
            assert(slots@[k] == before[k + 1]);
        }
        match slot {
            Some(x) => {
                out.push(x);
                assert(last_arrival(arr, j as nat) is Some);
            },
            None => {
                proof {
                    assert(!complete(arr, n as nat)) by {
                        assert(j < n && last_arrival(arr, j as nat) is None);
                    }
                }
                return None;
            },
        }
        j = j + 1;
    }
    Some(out)
}

/// Whether some result arrived for worker `i`.
pub open spec fn arrived<T>(arr: Seq<(usize, T)>, i: int) -> bool {
    exists|a: int| 0 <= a < arr.len() && (#[trigger] arr[a]).0 == i
}

/// Results that come back in any order, one for each worker, are put back in
/// worker order.
pub proof fn lemma_reassemble_in_order<T>(arr: Seq<(usize, T)>, c: Seq<T>)
    requires
        forall|a: int| 0 <= a < arr.len() ==> (#[trigger] arr[a]).0 < c.len() && arr[a].1
            == c[arr[a].0 as int],
        forall|i: int| 0 <= i < c.len() ==> #[trigger] arrived(arr, i),
    ensures
        complete(arr, c.len()),
        forall|i: int| 0 <= i < c.len() ==> last_arrival(arr, i as nat) == Some(#[trigger] c[i]),
{
    assert forall|i: nat| i < c.len() implies (#[trigger] last_arrival(arr, i)) is Some by {
        lemma_last_arrival_found(arr, i);
        assert(arrived(arr, i as int));
    }
    assert forall|i: int| 0 <= i < c.len() implies last_arrival(arr, i as nat) == Some(
        #[trigger] c[i],
    ) by {
        lemma_last_arrival_found(arr, i as nat);
        lemma_last_arrival_value(arr, i as nat, c);
    }
}

proof fn lemma_last_arrival_value<T>(arr: Seq<(usize, T)>, i: nat, c: Seq<T>)
    requires
        forall|a: int| 0 <= a < arr.len() ==> (#[trigger] arr[a]).0 < c.len() && arr[a].1
            == c[arr[a].0 as int],
    ensures
        last_arrival(arr, i) matches Some(x) ==> x == c[i as int],
    decreases arr.len(),
{
    if arr.len() > 0 {
        assert forall|a: int| 0 <= a < arr.drop_last().len() implies (#[trigger] arr.drop_last()[a]).0
            < c.len() && arr.drop_last()[a].1 == c[arr.drop_last()[a].0 as int] by {
            assert(arr.drop_last()[a] == arr[a]);
        }
        lemma_last_arrival_value(arr.drop_last(), i, c);
        assert(arr.last() == arr[arr.len() - 1]);
    }
}

// ---------------------------------------------------------------------------
// Profiling the first batches
// ---------------------------------------------------------------------------

/// Sum of the first `m` times.
pub open spec fn sum_upto(t: Seq<u64>, m: int) -> nat
    decreases m,
{
    if m <= 0 {
        0
    } else {
        sum_upto(t, m - 1) + t[m - 1] as nat
    }
}

/// Least of the first `m` times (`m >= 1`).
pub open spec fn min_upto(t: Seq<u64>, m: int) -> nat
    decreases m,
{
    if m <= 1 {
        t[0] as nat
    } else if (t[m - 1] as nat) < min_upto(t, m - 1) {
        t[m - 1] as nat
    } else {
        min_upto(t, m - 1)
    }
}

/// Greatest of the first `m` times (`m >= 1`).
pub open spec fn max_upto(t: Seq<u64>, m: int) -> nat
    decreases m,
{
    if m <= 1 {
        t[0] as nat
    } else if (t[m - 1] as nat) > max_upto(t, m - 1) {
        t[m - 1] as nat
    } else {
        max_upto(t, m - 1)
    }
}

/// The mean of the times without the fastest and the slowest.
pub open spec fn trimmed_mean(t: Seq<u64>) -> nat {
    let n = t.len() as int;
    ((sum_upto(t, n) - min_upto(t, n) - max_upto(t, n)) / (n - 2)) as nat
}

proof fn lemma_sum_bounds(t: Seq<u64>, m: int)
    requires
        1 <= m <= t.len(),
    ensures
        min_upto(t, m) <= max_upto(t, m),
        max_upto(t, m) <= sum_upto(t, m),
        m >= 2 ==> min_upto(t, m) + max_upto(t, m) <= sum_upto(t, m),
        sum_upto(t, m) <= min_upto(t, m) + (m - 1) * max_upto(t, m),
    decreases m,
{
    if m > 1 {
        lemma_sum_bounds(t, m - 1);
        let x = t[m - 1] as int;
        let s = sum_upto(t, m - 1) as int;
        let lo = min_upto(t, m - 1) as int;
        let hi = max_upto(t, m - 1) as int;
        let lo2 = min_upto(t, m) as int;
        let hi2 = max_upto(t, m) as int;
        assert(sum_upto(t, m) == s + x);
        assert(s <= lo + (m - 2) * hi);
        assert(0 <= (m - 2) * hi) by (nonlinear_arith)
            requires
                m >= 2,
                hi >= 0,
        ;
        assert((m - 2) * hi <= (m - 2) * hi2) by (nonlinear_arith)
            requires
                hi <= hi2,
                m >= 2,
        ;
        assert((m - 1) * hi2 == (m - 2) * hi2 + hi2) by (nonlinear_arith);
        if m == 2 {
            assert(s == t[0] && lo == t[0] && hi == t[0]);
        }
        if x < lo {
            assert(lo2 == x && hi2 == hi);
        } else {
            assert(lo2 == lo);
        }
    } else {
        assert(sum_upto(t, 0) == 0);
        assert(0 * max_upto(t, 1) == 0) by (nonlinear_arith);
    }
}

proof fn lemma_min_upto_attained(t: Seq<u64>, m: int)
    requires
        1 <= m <= t.len(),
    ensures
        exists|i: int| 0 <= i < m && t[i] as nat == min_upto(t, m),
        forall|k: int| 0 <= k < m ==> min_upto(t, m) <= t[k] as nat,
    decreases m,
{
    if m > 1 {
        lemma_min_upto_attained(t, m - 1);
        if (t[m - 1] as nat) < min_upto(t, m - 1) {
            assert(t[m - 1] as nat == min_upto(t, m));
        } else {
            let i = choose|i: int| 0 <= i < m - 1 && t[i] as nat == min_upto(t, m - 1);
            assert(t[i] as nat == min_upto(t, m));
        }
    } else {
        assert(t[0] as nat == min_upto(t, 1));
    }
}

proof fn lemma_max_upto_attained(t: Seq<u64>, m: int)
    requires
        1 <= m <= t.len(),
    ensures
        exists|i: int| 0 <= i < m && t[i] as nat == max_upto(t, m),
        forall|k: int| 0 <= k < m ==> t[k] as nat <= max_upto(t, m),
    decreases m,
{
    if m > 1 {
        lemma_max_upto_attained(t, m - 1);
        if (t[m - 1] as nat) > max_upto(t, m - 1) {
            assert(t[m - 1] as nat == max_upto(t, m));
        } else {
            let i = choose|i: int| 0 <= i < m - 1 && t[i] as nat == max_upto(t, m - 1);
            assert(t[i] as nat == max_upto(t, m));
        }
    } else {
        assert(t[0] as nat == max_upto(t, 1));
    }
}

/// The trimmed mean leaves out one fastest and one slowest time, each taken
/// over all the times (whatever their order), and averages the rest: there
/// are two different positions `i` and `j`, a least and a greatest time, such
/// that the mean is the sum of the others divided by their number.
pub proof fn lemma_trimmed_mean_drops_extremes(t: Seq<u64>)
    requires
        t.len() >= 3,
    ensures
        exists|i: int, j: int|
            #![trigger t[i], t[j]]
            0 <= i < t.len() && 0 <= j < t.len() && i != j && (forall|k: int|
                0 <= k < t.len() ==> t[i] <= #[trigger] t[k]) && (forall|k: int|
                0 <= k < t.len() ==> #[trigger] t[k] <= t[j]) && trimmed_mean(t) == (sum_upto(
                t,
                t.len() as int,
            ) - t[i] - t[j]) / (t.len() - 2),
{
    let n = t.len() as int;
    lemma_min_upto_attained(t, n);
    lemma_max_upto_attained(t, n);
    lemma_sum_bounds(t, n);
    let i = choose|i: int| 0 <= i < n && t[i] as nat == min_upto(t, n);
    let j0 = choose|j: int| 0 <= j < n && t[j] as nat == max_upto(t, n);
    let j = if j0 != i {
        j0
    } else if i == 0 {
        1
    } else {
        0
    };
    if j0 == i {
        // The least and the greatest time are equal, so all times are.
        assert(t[j] as nat == max_upto(t, n)) by {
            assert(min_upto(t, n) <= t[j] as nat);
            assert(t[j] as nat <= max_upto(t, n));
        }
    }
    assert(0 <= i < n && 0 <= j < n && i != j);
    assert(forall|k: int| 0 <= k < n ==> t[i] <= #[trigger] t[k]);
    assert(forall|k: int| 0 <= k < n ==> #[trigger] t[k] <= t[j]);
    assert(trimmed_mean(t) == (sum_upto(t, n) - t[i] - t[j]) / (n - 2));
}

/// The trimmed mean of `times` (at least three of them).
pub fn trimmed_mean_of(times: &Vec<u64>) -> (m: u64)
    requires
        times@.len() >= 3,
    ensures
        m == trimmed_mean(times@),
{
    let n = times.len();
    let mut sum: u128 = times[0] as u128;
    let mut lo: u64 = times[0];
    let mut hi: u64 = times[0];
    let mut i: usize = 1;
    assert(sum_upto(times@, 0) == 0);
    while i < n
        invariant
            1 <= i <= n,
            n == times@.len(),
            sum == sum_upto(times@, i as int),
            lo == min_upto(times@, i as int),
            hi == max_upto(times@, i as int),
            sum <= i * 0xFFFF_FFFF_FFFF_FFFFu128,
        decreases n - i,
    {
        let x = times[i];
        assert(sum + x <= (i + 1) * 0xFFFF_FFFF_FFFF_FFFFu128) by (nonlinear_arith)
            requires
                sum <= i * 0xFFFF_FFFF_FFFF_FFFFu128,
                x <= 0xFFFF_FFFF_FFFF_FFFFu128,
        ;
        assert((i + 1) * 0xFFFF_FFFF_FFFF_FFFFu128 <= 0xFFFF_FFFF_FFFF_FFFFu128
            * 0xFFFF_FFFF_FFFF_FFFFu128) by (nonlinear_arith)
            requires
                i + 1 <= 0xFFFF_FFFF_FFFF_FFFFu128,
        ;
        sum = sum + x as u128;
        if x < lo {
            lo = x;
        }
        if x > hi {
            hi = x;
        }
        i = i + 1;
    }
    proof {
        lemma_sum_bounds(times@, n as int);
    }
    let inner = sum - lo as u128 - hi as u128;
    let k = (n - 2) as u128;
    assert(inner <= k * hi) by (nonlinear_arith)
        requires
            inner == sum - lo - hi,
            sum <= lo + (n - 1) * hi,
            k == n - 2,
    ;
    let q = inner / k;
    assert(q <= hi) by (nonlinear_arith)
        requires
            inner <= k * hi,
            k > 0,
            q == inner / k,
    ;
    q as u64
}

/// Batches timed before a stage reports its time.
pub const PROFILE_BATCHES: usize = 5;

/// Times a stage's first batches, and reports their trimmed mean once.
pub struct Profiler {
    times: Vec<u64>,
    timed: bool,
}

impl Profiler {
    /// The batch times recorded so far.
    pub closed spec fn recorded(&self) -> Seq<u64> {
        self.times@
    }

    /// Whether the stage's time has been reported (or is not wanted).
    pub closed spec fn done(&self) -> bool {
        self.timed
    }

    pub closed spec fn wf(&self) -> bool {
        !self.timed ==> self.times@.len() < PROFILE_BATCHES
    }

    /// A profiler for a stage whose worker count the orchestrator allocates
    /// (`auto_alloc`); any other stage reports no time.
    pub fn new(auto_alloc: bool) -> (p: Profiler)
        ensures
            p.wf(),
            p.recorded().len() == 0,
            p.done() == !auto_alloc,
    {
        Profiler { times: Vec::new(), timed: !auto_alloc }
    }

    /// Records a batch that took `elapsed_us` microseconds; returns the time to
    /// report when this was the last profiled batch.
    pub fn record(&mut self, elapsed_us: u64) -> (r: Option<u64>)
        requires
            old(self).wf(),
        ensures
            final(self).wf(),
            old(self).done() ==> r is None && final(self).done() && final(self).recorded()
                == old(self).recorded(),
            !old(self).done() ==> final(self).recorded() == old(self).recorded().push(elapsed_us),
            !old(self).done() && final(self).recorded().len() < PROFILE_BATCHES ==> r is None
                && !final(self).done(),
            !old(self).done() && final(self).recorded().len() == PROFILE_BATCHES ==> r == Some(
                trimmed_mean(final(self).recorded()) as u64,
            ) && final(self).done(),
    {
        if self.timed {
            return None;
        }
        self.times.push(elapsed_us);
        if self.times.len() == PROFILE_BATCHES {
            self.timed = true;
            return Some(trimmed_mean_of(&self.times));
        }
        None
    }
}

// ---------------------------------------------------------------------------
// Starting a script stage
// ---------------------------------------------------------------------------

/// Workers a script stage starts with: one when the orchestrator allocates its
/// workers later (or when it is not pinned), else its pinned count.
pub open spec fn initial_count(auto_alloc: bool, mode: WorkerMode) -> nat {
    if auto_alloc {
        1
    } else {
        match mode {
            WorkerMode::Default => 1,
            WorkerMode::Fixed(k) => k as nat,
        }
    }
}

pub fn initial_workers(auto_alloc: bool, mode: WorkerMode) -> (n: usize)
    ensures
        n == initial_count(auto_alloc, mode),
{
    if auto_alloc {
        1
    } else {
        match mode {
            WorkerMode::Default => 1,
            WorkerMode::Fixed(k) => k,
        }
    }
}

/// Whether a stage's program is a Python file (its path ends in `.py`); its
/// workers then run this program in Python mode, others run the path itself.
pub open spec fn is_python_path(path: Seq<char>) -> bool {
    path.len() >= 3 && path.subrange(path.len() - 3, path.len() as int) == seq!['.', 'p', 'y']
}

pub fn is_python_program(path: &str) -> (b: bool)
    ensures
        b == is_python_path(path@),
{
    let v = chars_of(path);
    let n = v.len();
    if n < 3 {
        return false;
    }
    let r = v[n - 3] == '.' && v[n - 2] == 'p' && v[n - 1] == 'y';
    assert(r == (v@.subrange(n - 3, n as int) =~= seq!['.', 'p', 'y']));
    r
}

/// A program runs in Python mode exactly when its path ends in `.py`,
/// whatever comes before (a directory, say).
pub proof fn lemma_python_by_suffix(path: Seq<char>)
    ensures
        is_python_path(path) <==> exists|d: Seq<char>| path == d + seq!['.', 'p', 'y'],
{
    let sfx = seq!['.', 'p', 'y'];
    if is_python_path(path) {
        let d = path.take(path.len() - 3);
        assert(path =~= d + sfx);
    }
    if exists|d: Seq<char>| path == d + sfx {
        let d = choose|d: Seq<char>| path == d + sfx;
        assert(path.subrange(path.len() - 3, path.len() as int) =~= sfx);
    }
}

/// Putting a directory (or anything) in front of a path of at least three
/// characters does not change whether it is a Python program.
pub proof fn lemma_python_ignores_prefix(d: Seq<char>, p: Seq<char>)
    requires
        p.len() >= 3,
    ensures
        is_python_path(d + p) == is_python_path(p),
{
    let x = d + p;
    assert(x.subrange(x.len() - 3, x.len() as int) =~= p.subrange(p.len() - 3, p.len() as int));
}

} // verus!
