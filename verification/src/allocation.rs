//! Sharing the machine's cores among the unpinned script stages in proportion
//! to how long each one takes per batch.
//!
//! Every stage gets one worker; the spare cores are shared by the largest
//! remainder method: each stage first gets the whole part of its exact share,
//! and the cores left over go one each to the stages with the largest
//! fractional parts (ties broken by position).
use vstd::prelude::*;
use vstd::arithmetic::div_mod::{lemma_fundamental_div_mod, lemma_mod_pos_bound};
use vstd::set_lib::{lemma_int_range, lemma_len_subset, lemma_map_size, lemma_subset_equality, set_int_range};

verus! {

// ---------------------------------------------------------------------------
// Counting
// ---------------------------------------------------------------------------

/// How many of `0, 1, .., m - 1` satisfy `p`.
pub open spec fn count_where(m: int, p: spec_fn(int) -> bool) -> nat
    decreases m,
{
    if m <= 0 {
        0
    } else {
        count_where(m - 1, p) + if p(m - 1) {
            1nat
        } else {
            0nat
        }
    }
}

proof fn lemma_count_where_set(m: int, p: spec_fn(int) -> bool)
    requires
        m >= 0,
    ensures
        set_int_range(0, m).filter(p).finite(),
        count_where(m, p) == set_int_range(0, m).filter(p).len(),
    decreases m,
{
    lemma_int_range(0, m);
    set_int_range(0, m).lemma_len_filter(p);
    if m > 0 {
        lemma_count_where_set(m - 1, p);
        let prev = set_int_range(0, m - 1).filter(p);
        if p(m - 1) {
            assert(set_int_range(0, m).filter(p) =~= prev.insert(m - 1));
        } else {
            assert(set_int_range(0, m).filter(p) =~= prev);
        }
    } else {
        assert(set_int_range(0, m).filter(p) =~= Set::<int>::empty());
    }
}

proof fn lemma_count_where_bound(m: int, p: spec_fn(int) -> bool)
    requires
        m >= 0,
    ensures
        count_where(m, p) <= m,
    decreases m,
{
    if m > 0 {
        lemma_count_where_bound(m - 1, p);
    }
}

// ---------------------------------------------------------------------------
// The allocation
// ---------------------------------------------------------------------------

/// Sum of the times of the first `m` stages.
pub open spec fn time_upto(ts: Seq<(usize, u64)>, m: int) -> nat
    decreases m,
{
    if m <= 0 {
        0
    } else {
        time_upto(ts, m - 1) + ts[m - 1].1 as nat
    }
}

/// Sum of all the times.
pub open spec fn total_time(ts: Seq<(usize, u64)>) -> nat {
    time_upto(ts, ts.len() as int)
}

/// Cores beyond the one that every stage gets.
pub open spec fn spare(ts: Seq<(usize, u64)>, total: nat) -> nat {
    if total > ts.len() {
        (total - ts.len()) as nat
    } else {
        0
    }
}

/// Whole part of stage `i`'s exact share of the spare cores.
pub open spec fn floor_share(ts: Seq<(usize, u64)>, total: nat, i: int) -> nat {
    (spare(ts, total) * (ts[i].1 as nat)) / total_time(ts)
}

/// Fractional part of stage `i`'s exact share, as a numerator over the total time.
pub open spec fn frac_share(ts: Seq<(usize, u64)>, total: nat, i: int) -> nat {
    (spare(ts, total) * (ts[i].1 as nat)) % total_time(ts)
}

/// Stage `j` comes before stage `i` for the left-over cores: a larger
/// fractional part, or an equal one and an earlier position.
pub open spec fn ahead(ts: Seq<(usize, u64)>, total: nat, j: int, i: int) -> bool {
    frac_share(ts, total, j) > frac_share(ts, total, i) || (frac_share(ts, total, j)
        == frac_share(ts, total, i) && j < i)
}

/// How many stages come before stage `i` for the left-over cores.
pub open spec fn rank(ts: Seq<(usize, u64)>, total: nat, i: int) -> nat {
    count_where(ts.len() as int, |j: int| ahead(ts, total, j, i))
}

/// Sum of the whole parts of the first `m` shares.
pub open spec fn floors_upto(ts: Seq<(usize, u64)>, total: nat, m: int) -> nat
    decreases m,
{
    if m <= 0 {
        0
    } else {
        floors_upto(ts, total, m - 1) + floor_share(ts, total, m - 1)
    }
}

/// Cores left after every stage got one plus the whole part of its share.
pub open spec fn leftover(ts: Seq<(usize, u64)>, total: nat) -> int {
    spare(ts, total) - floors_upto(ts, total, ts.len() as int)
}

/// The workers that stage `i` gets when `total` cores are shared. (When no
/// stage took any time, which is accepted for a lone stage only, that stage
/// gets its own worker and one left-over core.)
pub open spec fn workers_for(ts: Seq<(usize, u64)>, total: nat, i: int) -> nat {
    if total <= ts.len() {
        1
    } else if total_time(ts) == 0 {
        2
    } else {
        1 + floor_share(ts, total, i) + if rank(ts, total, i) < leftover(ts, total) {
            1nat
        } else {
            0nat
        }
    }
}

/// Whether `total` cores can be shared among the stages timed by `ts`: spare
/// cores are shared by time, so some stage must have taken time.
pub open spec fn shareable(ts: Seq<(usize, u64)>, total: nat) -> bool {
    total > ts.len() ==> total_time(ts) > 0
}

/// The inputs that `allocate_workers` takes: spare cores are shared by time,
/// so some stage must have taken time, unless there is at most one stage.
pub open spec fn allocatable(ts: Seq<(usize, u64)>, total: nat) -> bool {
    total > ts.len() ==> (total_time(ts) > 0 || ts.len() <= 1)
}

// ---------------------------------------------------------------------------
// Lemmas
// ---------------------------------------------------------------------------

/// Sum of the fractional numerators of the first `m` shares.
spec fn fracs_upto(ts: Seq<(usize, u64)>, total: nat, m: int) -> nat
    decreases m,
{
    if m <= 0 {
        0
    } else {
        fracs_upto(ts, total, m - 1) + frac_share(ts, total, m - 1)
    }
}

proof fn lemma_shares_add_up(ts: Seq<(usize, u64)>, total: nat, m: int)
    requires
        0 <= m <= ts.len(),
        total_time(ts) > 0,
    ensures
        total_time(ts) * floors_upto(ts, total, m) + fracs_upto(ts, total, m) == spare(ts, total)
            * time_upto(ts, m),
        fracs_upto(ts, total, m) <= m * (total_time(ts) - 1),
    decreases m,
{
    if m > 0 {
        lemma_shares_add_up(ts, total, m - 1);
        let t = total_time(ts) as int;
        let x = (spare(ts, total) * ts[m - 1].1) as int;
        lemma_fundamental_div_mod(x, t);
        lemma_mod_pos_bound(x, t);
        let f = floors_upto(ts, total, m - 1) as int;
        let q = floor_share(ts, total, m - 1) as int;
        let r = frac_share(ts, total, m - 1) as int;
        let s = spare(ts, total) as int;
        let tm = time_upto(ts, m - 1) as int;
        let y = ts[m - 1].1 as int;
        assert(q == x / t);
        assert(r == x % t);
        assert(x == s * y);
        assert(x == t * q + r);
        assert(floors_upto(ts, total, m) == f + q);
        assert(fracs_upto(ts, total, m) == fracs_upto(ts, total, m - 1) + r);
        assert(time_upto(ts, m) == tm + y);
        assert(t * (f + q) == t * f + t * q) by (nonlinear_arith);
        assert(s * (tm + y) == s * tm + s * y) by (nonlinear_arith);
        assert((m - 1) * (t - 1) + (t - 1) == m * (t - 1)) by (nonlinear_arith);
        let fp = fracs_upto(ts, total, m - 1) as int;
        assert(t * f + fp == s * tm);
        assert(t * (f + q) + (fp + r) == s * (tm + y));
    } else {
        let t = total_time(ts) as int;
        let s = spare(ts, total) as int;
        assert(t * 0 == 0 && s * 0 == 0) by (nonlinear_arith);
    }
}

/// The whole parts never exceed the spare cores, and fewer cores than stages
/// are left over.
proof fn lemma_leftover_range(ts: Seq<(usize, u64)>, total: nat)
    requires
        total_time(ts) > 0,
    ensures
        0 <= leftover(ts, total) < if ts.len() > 0 {
            ts.len() as int
        } else {
            1
        },
{
    let n = ts.len() as int;
    lemma_shares_add_up(ts, total, n);
    let t = total_time(ts) as int;
    let f = floors_upto(ts, total, n) as int;
    let r = fracs_upto(ts, total, n) as int;
    let s = spare(ts, total) as int;
    assert(t * f + r == s * t);
    assert(r <= n * (t - 1));
    assert(f <= s) by (nonlinear_arith)
        requires
            t * f + r == s * t,
            r >= 0,
            t > 0,
    ;
    if n > 0 {
        assert(s - f < n) by (nonlinear_arith)
            requires
                t * f + r == s * t,
                r <= n * (t - 1),
                t > 0,
                n > 0,
        ;
    } else {
        assert(s - f < 1) by (nonlinear_arith)
            requires
                t * f + r == s * t,
                r <= n * (t - 1),
                t > 0,
                n == 0,
        ;
    }
}

/// The set of stages that come before stage `i`.
spec fn ahead_set(ts: Seq<(usize, u64)>, total: nat, i: int) -> Set<int> {
    set_int_range(0, ts.len() as int).filter(|j: int| ahead(ts, total, j, i))
}

proof fn lemma_rank_is_ahead_set(ts: Seq<(usize, u64)>, total: nat, i: int)
    ensures
        ahead_set(ts, total, i).finite(),
        rank(ts, total, i) == ahead_set(ts, total, i).len(),
{
    lemma_count_where_set(ts.len() as int, |j: int| ahead(ts, total, j, i));
}

/// Ranks run over `0 .. n` and differ from stage to stage.
proof fn lemma_rank_distinct(ts: Seq<(usize, u64)>, total: nat, i: int, j: int)
    requires
        0 <= i < ts.len(),
        0 <= j < ts.len(),
        i != j,
    ensures
        rank(ts, total, i) != rank(ts, total, j),
{
    lemma_rank_is_ahead_set(ts, total, i);
    lemma_rank_is_ahead_set(ts, total, j);
    let (a, b) = if ahead(ts, total, j, i) {
        (j, i)
    } else {
        (i, j)
    };
    // `a` comes before `b`: whatever comes before `a` comes before `b`, and `a` itself does.
    let sa = ahead_set(ts, total, a);
    let sb = ahead_set(ts, total, b);
    assert(sa.subset_of(sb.remove(a)));
    lemma_len_subset(sa, sb.remove(a));
}

proof fn lemma_rank_bound(ts: Seq<(usize, u64)>, total: nat, i: int)
    requires
        0 <= i < ts.len(),
    ensures
        rank(ts, total, i) < ts.len(),
{
    lemma_rank_is_ahead_set(ts, total, i);
    lemma_int_range(0, ts.len() as int);
    let s = ahead_set(ts, total, i);
    assert(s.subset_of(set_int_range(0, ts.len() as int).remove(i)));
    lemma_len_subset(s, set_int_range(0, ts.len() as int).remove(i));
}

/// Exactly `r` stages have a rank below `r`, for `r` up to the number of stages.
proof fn lemma_count_low_ranks(ts: Seq<(usize, u64)>, total: nat, r: int)
    requires
        0 <= r <= ts.len(),
    ensures
        count_where(ts.len() as int, |i: int| rank(ts, total, i) < r) == r,
{
    let n = ts.len() as int;
    let all = set_int_range(0, n);
    let rk = |i: int| rank(ts, total, i) as int;
    lemma_int_range(0, n);
    assert forall|i: int, j: int|
        all.contains(i) && all.contains(j) && #[trigger] rk(i) == #[trigger] rk(j) implies i
        == j by {
        if i != j {
            lemma_rank_distinct(ts, total, i, j);
        }
    }
    assert(vstd::relations::injective_on(rk, all));
    lemma_map_size(all, all.map(rk), rk);
    assert forall|k: int| all.map(rk).contains(k) implies all.contains(k) by {
        let i = choose|i: int| all.contains(i) && rk(i) == k;
        lemma_rank_bound(ts, total, i);
    }
    lemma_subset_equality(all.map(rk), all);
    let low = all.filter(|i: int| rank(ts, total, i) < r);
    lemma_count_where_set(n, |i: int| rank(ts, total, i) < r);
    lemma_int_range(0, r);
    assert forall|k: int| low.map(rk).contains(k) <==> set_int_range(0, r).contains(k) by {
        if set_int_range(0, r).contains(k) {
            assert(all.contains(k));
            assert(all.map(rk).contains(k));
            let i = choose|i: int| all.contains(i) && rk(i) == k;
            assert(low.contains(i));
        }
    }
    assert(low.map(rk) =~= set_int_range(0, r));
    assert(vstd::relations::injective_on(rk, low));
    lemma_map_size(low, low.map(rk), rk);
}

/// Sum of the workers given to the first `m` stages.
pub open spec fn workers_upto(ts: Seq<(usize, u64)>, total: nat, m: int) -> nat
    decreases m,
{
    if m <= 0 {
        0
    } else {
        workers_upto(ts, total, m - 1) + workers_for(ts, total, m - 1)
    }
}

proof fn lemma_workers_upto_split(ts: Seq<(usize, u64)>, total: nat, m: int)
    requires
        0 <= m <= ts.len(),
        total > ts.len(),
        total_time(ts) > 0,
    ensures
        workers_upto(ts, total, m) == m + floors_upto(ts, total, m) + count_where(
            m,
            |i: int| rank(ts, total, i) < leftover(ts, total),
        ),
    decreases m,
{
    if m > 0 {
        lemma_workers_upto_split(ts, total, m - 1);
    }
}

// ---------------------------------------------------------------------------
// Laws
// ---------------------------------------------------------------------------

/// All the cores are shared out: the workers add up to `total`, or to one per
/// stage when there are no more cores than stages.
pub proof fn lemma_allocation_uses_all_cores(ts: Seq<(usize, u64)>, total: nat)
    requires
        shareable(ts, total),
    ensures
        workers_upto(ts, total, ts.len() as int) == if total > ts.len() {
            total
        } else {
            ts.len() as nat
        },
{
    let n = ts.len() as int;
    if total > n {
        lemma_leftover_range(ts, total);
        lemma_workers_upto_split(ts, total, n);
        lemma_count_low_ranks(ts, total, leftover(ts, total));
    } else {
        lemma_workers_all_one(ts, total, n);
    }
}

proof fn lemma_workers_all_one(ts: Seq<(usize, u64)>, total: nat, m: int)
    requires
        0 <= m <= ts.len(),
        total <= ts.len(),
    ensures
        workers_upto(ts, total, m) == m,
    decreases m,
{
    if m > 0 {
        lemma_workers_all_one(ts, total, m - 1);
    }
}

/// Each stage gets one worker plus its exact share of the spare cores
/// (`spare * time / total time`) rounded down or up: `workers - 1` differs from
/// the exact share by less than one.
pub proof fn lemma_allocation_proportional(ts: Seq<(usize, u64)>, total: nat, i: int)
    requires
        shareable(ts, total),
        total > ts.len(),
        0 <= i < ts.len(),
    ensures
        workers_for(ts, total, i) >= 1,
        spare(ts, total) * ts[i].1 < total_time(ts) * (workers_for(ts, total, i) - 1)
            + total_time(ts),
        total_time(ts) * (workers_for(ts, total, i) - 1) < spare(ts, total) * ts[i].1
            + total_time(ts),
{
    let t = total_time(ts) as int;
    let x = (spare(ts, total) * ts[i].1) as int;
    lemma_fundamental_div_mod(x, t);
    lemma_mod_pos_bound(x, t);
    let q = floor_share(ts, total, i) as int;
    let r = frac_share(ts, total, i) as int;
    let w = workers_for(ts, total, i) as int;
    assert(x == t * q + r);
    if w == q + 1 {
        assert(t * (w - 1) == t * q);
    } else {
        assert(w == q + 2);
        if r == 0 {
            lemma_zero_frac_no_bonus(ts, total, i);
            assert(false);
        }
        assert(t * (w - 1) == t * q + t) by (nonlinear_arith)
            requires
                w == q + 2,
        ;
    }
}

/// A stage whose share is whole gets no left-over core.
proof fn lemma_zero_frac_no_bonus(ts: Seq<(usize, u64)>, total: nat, i: int)
    requires
        shareable(ts, total),
        total > ts.len(),
        0 <= i < ts.len(),
        frac_share(ts, total, i) == 0,
    ensures
        rank(ts, total, i) >= leftover(ts, total),
{
    // Every stage with a fractional part, and every earlier stage, comes first.
    let n = ts.len() as int;
    lemma_leftover_range(ts, total);
    lemma_rank_is_ahead_set(ts, total, i);
    lemma_int_range(0, n);
    // The stages that do not come before `i`: `i` and the later ones with a whole
    // share. Their fractional numerators add up to nothing, so the left-over cores
    // come from the stages ahead of `i` alone.
    lemma_fracs_of_ahead(ts, total, i);
}

/// The fractional numerators of the stages ahead of `i` add up to at least
/// `leftover * total time` when `i`'s is zero, and each is below `total time`.
proof fn lemma_fracs_of_ahead(ts: Seq<(usize, u64)>, total: nat, i: int)
    requires
        shareable(ts, total),
        total > ts.len(),
        0 <= i < ts.len(),
        frac_share(ts, total, i) == 0,
    ensures
        rank(ts, total, i) >= leftover(ts, total),
{
    let n = ts.len() as int;
    let t = total_time(ts) as int;
    lemma_shares_add_up(ts, total, n);
    lemma_ahead_fracs_sum(ts, total, i, n);
    let cnt = count_where(n, |j: int| ahead(ts, total, j, i));
    let s = spare(ts, total) as int;
    let f = floors_upto(ts, total, n) as int;
    let r = fracs_upto(ts, total, n) as int;
    let ra = ahead_fracs(ts, total, i, n) as int;
    assert(t * f + r == s * t);
    assert(r == ra);
    assert(ra <= cnt * (t - 1));
    assert(s - f <= cnt) by (nonlinear_arith)
        requires
            t * f + r == s * t,
            r == ra,
            ra <= cnt * (t - 1),
            t > 0,
            cnt >= 0,
    ;
}

/// Sum of the fractional numerators of the stages among the first `m` that
/// come before stage `i`.
spec fn ahead_fracs(ts: Seq<(usize, u64)>, total: nat, i: int, m: int) -> nat
    decreases m,
{
    if m <= 0 {
        0
    } else {
        ahead_fracs(ts, total, i, m - 1) + if ahead(ts, total, m - 1, i) {
            frac_share(ts, total, m - 1)
        } else {
            0
        }
    }
}

proof fn lemma_ahead_fracs_sum(ts: Seq<(usize, u64)>, total: nat, i: int, m: int)
    requires
        total_time(ts) > 0,
        0 <= m <= ts.len(),
        0 <= i < ts.len(),
        frac_share(ts, total, i) == 0,
    ensures
        ahead_fracs(ts, total, i, m) == fracs_upto(ts, total, m),
        ahead_fracs(ts, total, i, m) <= count_where(m, |j: int| ahead(ts, total, j, i)) * (
        total_time(ts) - 1),
    decreases m,
{
    if m > 0 {
        lemma_ahead_fracs_sum(ts, total, i, m - 1);
        let t = total_time(ts) as int;
        let x = (spare(ts, total) * ts[m - 1].1) as int;
        lemma_mod_pos_bound(x, t);
        let c = count_where(m - 1, |j: int| ahead(ts, total, j, i)) as int;
        assert(c * (t - 1) + (t - 1) == (c + 1) * (t - 1)) by (nonlinear_arith);
    }
}

/// A stage that takes longer never gets fewer workers.
pub proof fn lemma_allocation_monotone(ts: Seq<(usize, u64)>, total: nat, i: int, j: int)
    requires
        shareable(ts, total),
        0 <= i < ts.len(),
        0 <= j < ts.len(),
        ts[i].1 > ts[j].1,
    ensures
        workers_for(ts, total, i) >= workers_for(ts, total, j),
{
    if total > ts.len() {
        let t = total_time(ts) as int;
        let s = spare(ts, total) as int;
        let xi = s * ts[i].1;
        let xj = s * ts[j].1;
        assert(xi >= xj) by (nonlinear_arith)
            requires
                ts[i].1 > ts[j].1,
                s >= 0,
                xi == s * ts[i].1,
                xj == s * ts[j].1,
        ;
        lemma_fundamental_div_mod(xi, t);
        lemma_fundamental_div_mod(xj, t);
        lemma_mod_pos_bound(xi, t);
        lemma_mod_pos_bound(xj, t);
        let qi = floor_share(ts, total, i) as int;
        let qj = floor_share(ts, total, j) as int;
        if qi == qj {
            // Equal whole parts: the longer stage has the larger fractional part,
            // so it comes first for the left-over cores.
            assert(frac_share(ts, total, i) >= frac_share(ts, total, j));
            if frac_share(ts, total, i) == frac_share(ts, total, j) {
                assert(xi == xj);
                assert(s == 0) by (nonlinear_arith)
                    requires
                        xi == xj,
                        xi == s * ts[i].1,
                        xj == s * ts[j].1,
                        ts[i].1 > ts[j].1,
                ;
                assert(total == ts.len());
            }
            lemma_rank_order(ts, total, i, j);
        } else {
            assert(qi > qj) by (nonlinear_arith)
                requires
                    xi >= xj,
                    xi == t * qi + xi % t,
                    xj == t * qj + xj % t,
                    0 <= xi % t < t,
                    0 <= xj % t < t,
                    qi != qj,
                    t > 0,
            ;
        }
    }
}

/// A stage that comes before another has the smaller rank.
proof fn lemma_rank_order(ts: Seq<(usize, u64)>, total: nat, i: int, j: int)
    requires
        0 <= i < ts.len(),
        0 <= j < ts.len(),
        ahead(ts, total, i, j),
    ensures
        rank(ts, total, i) < rank(ts, total, j),
{
    lemma_rank_is_ahead_set(ts, total, i);
    lemma_rank_is_ahead_set(ts, total, j);
    let si = ahead_set(ts, total, i);
    let sj = ahead_set(ts, total, j);
    assert(si.subset_of(sj.remove(i)));
    lemma_len_subset(si, sj.remove(i));
}

proof fn lemma_floor_le_sum(ts: Seq<(usize, u64)>, total: nat, i: int, m: int)
    requires
        0 <= i < m,
    ensures
        floor_share(ts, total, i) <= floors_upto(ts, total, m),
        floors_upto(ts, total, i) + floor_share(ts, total, i) <= floors_upto(ts, total, m),
    decreases m,
{
    if m > i + 1 {
        lemma_floor_le_sum(ts, total, i, m - 1);
    }
}

// ---------------------------------------------------------------------------
// Computing the allocation
// ---------------------------------------------------------------------------

/// Shares `total` cores among the stages timed by `timings` (pairs of a stage
/// index and the stage's time per batch): the result pairs each stage index,
/// in the order given, with its worker count `workers_for`.
pub fn allocate_workers(timings: &Vec<(usize, u64)>, total: usize) -> (r: Vec<(usize, usize)>)
    requires
        allocatable(timings@, total as nat),
    ensures
        r@.len() == timings@.len(),
        forall|i: int|
            0 <= i < r@.len() ==> (#[trigger] r@[i]).0 == timings@[i].0 && r@[i].1 == workers_for(
                timings@,
                total as nat,
                i,
            ),
{
    let ghost ts = timings@;
    let ghost tot = total as nat;
    let n = timings.len();
    let mut r: Vec<(usize, usize)> = Vec::new();
    if total <= n {
        let mut i: usize = 0;
        while i < n
            invariant
                n == ts.len(),
                ts == timings@,
                tot == total,
                total <= n,
                i <= n,
                r@.len() == i,
                forall|k: int|
                    0 <= k < i ==> (#[trigger] r@[k]).0 == ts[k].0 && r@[k].1 == workers_for(
                        ts,
                        tot,
                        k,
                    ),
            decreases n - i,
        {
            r.push((timings[i].0, 1));
            i = i + 1;
        }
        return r;
    }
    let spare_cores = total - n;
    assert(spare_cores == spare(ts, tot));
    // Total time.
    let mut t: u128 = 0;
    let mut i: usize = 0;
    while i < n
        invariant
            n == ts.len(),
            ts == timings@,
            i <= n,
            t == time_upto(ts, i as int),
            t <= i * 0xFFFF_FFFF_FFFF_FFFFu128,
        decreases n - i,
    {
        assert(t + timings[i as int].1 <= (i + 1) * 0xFFFF_FFFF_FFFF_FFFFu128) by (nonlinear_arith)
            requires
                t <= i * 0xFFFF_FFFF_FFFF_FFFFu128,
                timings[i as int].1 <= 0xFFFF_FFFF_FFFF_FFFFu128,
        ;
        assert((i + 1) * 0xFFFF_FFFF_FFFF_FFFFu128 <= 0xFFFF_FFFF_FFFF_FFFFu128
            * 0xFFFF_FFFF_FFFF_FFFFu128) by (nonlinear_arith)
            requires
                i + 1 <= 0xFFFF_FFFF_FFFF_FFFFu128,
        ;
        t = t + timings[i].1 as u128;
        i = i + 1;
    }
    assert(t == total_time(ts));
    if t == 0 {
        // At most one stage, which took no time.
        i = 0;
        while i < n
            invariant
                n == ts.len(),
                ts == timings@,
                tot == total,
                total > n,
                t == total_time(ts),
                t == 0,
                i <= n,
                r@.len() == i,
                forall|k: int|
                    0 <= k < i ==> (#[trigger] r@[k]).0 == ts[k].0 && r@[k].1 == workers_for(
                        ts,
                        tot,
                        k,
                    ),
            decreases n - i,
        {
            r.push((timings[i].0, 2));
            i = i + 1;
        }
        return r;
    }
    assert(t > 0);
    proof {
        lemma_leftover_range(ts, tot);
    }
    // Whole and fractional parts of each share.
    let mut floors: Vec<usize> = Vec::new();
    let mut fracs: Vec<u128> = Vec::new();
    let mut fsum: usize = 0;
    i = 0;
    while i < n
        invariant
            n == ts.len(),
            ts == timings@,
            tot == total,
            total > n,
            spare_cores == spare(ts, tot),
            t == total_time(ts),
            t > 0,
            i <= n,
            floors@.len() == i,
            fracs@.len() == i,
            forall|k: int| 0 <= k < i ==> #[trigger] floors@[k] == floor_share(ts, tot, k),
            forall|k: int| 0 <= k < i ==> #[trigger] fracs@[k] == frac_share(ts, tot, k),
            fsum == floors_upto(ts, tot, i as int),
            floors_upto(ts, tot, n as int) <= spare(ts, tot),
        decreases n - i,
    {
        assert(spare_cores as u128 * timings[i as int].1 as u128 <= 0xFFFF_FFFF_FFFF_FFFFu128
            * 0xFFFF_FFFF_FFFF_FFFFu128) by (nonlinear_arith)
            requires
                spare_cores <= 0xFFFF_FFFF_FFFF_FFFFu128,
                timings[i as int].1 <= 0xFFFF_FFFF_FFFF_FFFFu128,
        ;
        let x: u128 = spare_cores as u128 * timings[i].1 as u128;
        let q = x / t;
        let rem = x % t;
        proof {
            lemma_floor_le_sum(ts, tot, i as int, n as int);
        }
        assert(q == floor_share(ts, tot, i as int));
        floors.push(q as usize);
        fracs.push(rem);
        fsum = fsum + q as usize;
        i = i + 1;
    }
    let left = spare_cores - fsum;
    assert(left == leftover(ts, tot));
    // Ranks, and the workers.
    i = 0;
    while i < n
        invariant
            n == ts.len(),
            ts == timings@,
            tot == total,
            total > n,
            floors@.len() == n,
            fracs@.len() == n,
            forall|k: int| 0 <= k < n ==> #[trigger] floors@[k] == floor_share(ts, tot, k),
            forall|k: int| 0 <= k < n ==> #[trigger] fracs@[k] == frac_share(ts, tot, k),
            left == leftover(ts, tot),
            floors_upto(ts, tot, n as int) <= spare(ts, tot),
            total_time(ts) > 0,
            i <= n,
            r@.len() == i,
            forall|k: int|
                0 <= k < i ==> (#[trigger] r@[k]).0 == ts[k].0 && r@[k].1 == workers_for(
                    ts,
                    tot,
                    k,
                ),
        decreases n - i,
    {
        let ghost pred = |j: int| ahead(ts, tot, j, i as int);
        let mut count: usize = 0;
        let mut j: usize = 0;
        while j < n
            invariant
                n == ts.len(),
                fracs@.len() == n,
                forall|k: int| 0 <= k < n ==> #[trigger] fracs@[k] == frac_share(ts, tot, k),
                i < n,
                j <= n,
                pred == (|j: int| ahead(ts, tot, j, i as int)),
                count == count_where(j as int, pred),
                count <= j,
            decreases n - j,
        {
            if fracs[j] > fracs[i] || (fracs[j] == fracs[i] && j < i) {
                count = count + 1;
            }
            j = j + 1;
        }
        assert(count == rank(ts, tot, i as int));
        proof {
            lemma_floor_le_sum(ts, tot, i as int, n as int);
        }
        let bonus: usize = if count < left {
            1
        } else {
            0
        };
        let w = 1 + floors[i] + bonus;
        assert(w == workers_for(ts, tot, i as int));
        r.push((timings[i].0, w));
        i = i + 1;
    }
    r
}

/// `num_cpus::get`: the number of logical cores this process may use, which
/// the crate documents to be at least one.
#[verifier::external_body]
fn available_cores() -> (n: usize)
    ensures
        n >= 1,
{
    num_cpus::get()
}

/// Cores left for the unpinned stages once the pinned ones have theirs.
pub open spec fn cores_for_unpinned(cores: nat, pinned: nat) -> nat {
    if cores > pinned {
        (cores - pinned) as nat
    } else {
        0
    }
}

/// Shares `cores` cores, less the `pinned` ones, among the unpinned stages
/// timed by `timings`: each stage index, in the order given, with its worker
/// count.
pub fn share_of(timings: &Vec<(usize, u64)>, cores: usize, pinned: usize) -> (r: Vec<(usize, usize)>)
    requires
        allocatable(timings@, cores_for_unpinned(cores as nat, pinned as nat)),
    ensures
        r@.len() == timings@.len(),
        forall|i: int|
            0 <= i < r@.len() ==> (#[trigger] r@[i]).0 == timings@[i].0 && r@[i].1 == workers_for(
                timings@,
                cores_for_unpinned(cores as nat, pinned as nat),
                i,
            ),
{
    let budget = if cores > pinned {
        cores - pinned
    } else {
        0
    };
    assert(budget as nat == cores_for_unpinned(cores as nat, pinned as nat));
    allocate_workers(timings, budget)
}

proof fn lemma_time_zero(ts: Seq<(usize, u64)>, m: int)
    requires
        0 <= m <= ts.len(),
    ensures
        time_upto(ts, m) == 0 <==> forall|k: int| 0 <= k < m ==> (#[trigger] ts[k]).1 == 0,
    decreases m,
{
    if m > 0 {
        lemma_time_zero(ts, m - 1);
    }
}

/// Whether `allocate_workers` takes `timings` with `total` cores.
pub fn is_allocatable(timings: &Vec<(usize, u64)>, total: usize) -> (b: bool)
    ensures
        b == allocatable(timings@, total as nat),
{
    let n = timings.len();
    if total <= n || n <= 1 {
        return true;
    }
    let mut i: usize = 0;
    while i < n
        invariant
            n == timings@.len(),
            i <= n,
            forall|k: int| 0 <= k < i ==> (#[trigger] timings@[k]).1 == 0,
        decreases n - i,
    {
        if timings[i].1 > 0 {
            proof {
                lemma_time_zero(timings@, n as int);
            }
            return true;
        }
        i = i + 1;
    }
    proof {
        lemma_time_zero(timings@, n as int);
    }
    false
}

/// Shares the machine's cores, less the `pinned` ones, among the unpinned
/// stages timed by `timings`. Returns the core count used (at least one) and,
/// when the timings can be shared among that many cores, the allocation
/// `share_of(timings, cores, pinned)`; `None` when two or more stages all
/// reported no time and there are spare cores to share by time.
pub fn share_cores(timings: &Vec<(usize, u64)>, pinned: usize) -> (r: (Option<Vec<(usize, usize)>>, usize))
    ensures
        r.1 >= 1,
        r.0 is Some <==> allocatable(timings@, cores_for_unpinned(r.1 as nat, pinned as nat)),
        r.0 matches Some(a) ==> a@.len() == timings@.len() && forall|i: int|
            0 <= i < a@.len() ==> (#[trigger] a@[i]).0 == timings@[i].0 && a@[i].1 == workers_for(
                timings@,
                cores_for_unpinned(r.1 as nat, pinned as nat),
                i,
            ),
{
    let cores = available_cores();
    let budget = if cores > pinned {
        cores - pinned
    } else {
        0
    };
    if is_allocatable(timings, budget) {
        (Some(share_of(timings, cores, pinned)), cores)
    } else {
        (None, cores)
    }
}

/// The cores that the pinned stages leave are all shared among the (one or
/// more) unpinned stages, when some of them took time: their workers add up
/// to `cores - pinned`, or to one per stage when that is fewer.
pub proof fn lemma_share_uses_remaining_cores(ts: Seq<(usize, u64)>, cores: nat, pinned: nat)
    requires
        total_time(ts) > 0,
    ensures
        workers_upto(ts, cores_for_unpinned(cores, pinned), ts.len() as int) == if cores_for_unpinned(cores, pinned) > ts.len() {
            cores_for_unpinned(cores, pinned)
        } else {
            ts.len() as nat
        },
{
    lemma_allocation_uses_all_cores(ts, cores_for_unpinned(cores, pinned));
}

} // verus!
