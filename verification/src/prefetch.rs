//! Per-resource prefetch tracker: keeps, for every resource, the byte ranges
//! recently requested or prefetched, and decides which additional ranges to
//! proactively request after a rewritten range request.

use crate::buffer_pool::{
    acquire_step, chunk_release, class_model, init_pool, opt_bytes, others_unchanged, pool_wf,
    size_class_of, zero_bytes, ChunkDataPool, ChunkPoolModel, LARGE_BUFFER_SIZE,
    MEDIUM_BUFFER_SIZE, SMALL_BUFFER_SIZE,
};
use vstd::prelude::*;

verus! {

/// Whether position `p` falls within the inclusive tracked range `r`.
pub open spec fn covers(r: (u64, u64), p: u64) -> bool {
    r.0 <= p && p <= r.1
}

/// Whether any range of `t` covers `p`.
pub open spec fn covered(t: Seq<(u64, u64)>, p: u64) -> bool {
    exists|j: int| 0 <= j < t.len() && covers(#[trigger] t[j], p)
}

/// How many chunks one call may prefetch ahead: the prefetch budget in
/// chunks, but always leaving one concurrency slot for the range being
/// served.
pub open spec fn budget_chunks(prefetch_size: u64, chunk_size: u64, max_concurrent: u32) -> nat
    recommends
        chunk_size >= 1,
        max_concurrent >= 1,
{
    let by_bytes = prefetch_size as int / chunk_size as int;
    let by_slots = max_concurrent as int - 1;
    if by_bytes <= by_slots {
        by_bytes as nat
    } else {
        by_slots as nat
    }
}

/// Start of the `i`-th prefetch candidate (`i >= 1`): the chunks directly
/// after the range being served.
pub open spec fn cand_start(start: u64, chunk_size: u64, i: nat) -> int {
    start + chunk_size + (i - 1) * chunk_size
}

/// Emitted ranges and tracked list after considering candidates `1..=i`:
/// a candidate whose start is already covered is skipped, any other is both
/// emitted and appended to the tracked list.
pub open spec fn decide_rec(t0: Seq<(u64, u64)>, start: u64, chunk_size: u64, i: nat) -> (Seq<
    (u64, u64),
>, Seq<(u64, u64)>)
    decreases i,
{
    if i == 0 {
        (Seq::empty(), t0)
    } else {
        let prev = decide_rec(t0, start, chunk_size, (i - 1) as nat);
        let ps = cand_start(start, chunk_size, i);
        let pe = ps + chunk_size - 1;
        if covered(prev.1, ps as u64) {
            prev
        } else {
            (prev.0.push((ps as u64, pe as u64)), prev.1.push((ps as u64, pe as u64)))
        }
    }
}

/// Whether a tracked range survives pruning: its start lies within twice the
/// prefetch budget behind the current request start (ranges at or ahead of
/// the start always survive, by saturating subtraction).
pub open spec fn keep_range(r: (u64, u64), start: u64, prefetch_size: u64) -> bool {
    (if start >= r.0 {
        start - r.0
    } else {
        0
    }) < 2 * prefetch_size
}

/// The tracked list restricted to ranges that survive pruning, in order.
pub open spec fn prune(t: Seq<(u64, u64)>, start: u64, prefetch_size: u64) -> Seq<(u64, u64)>
    decreases t.len(),
{
    if t.len() == 0 {
        Seq::empty()
    } else {
        let front = prune(t.drop_last(), start, prefetch_size);
        if keep_range(t.last(), start, prefetch_size) {
            front.push(t.last())
        } else {
            front
        }
    }
}

/// The ranges one call emits for prefetching.
pub open spec fn decide_result(
    t0: Seq<(u64, u64)>,
    start: u64,
    chunk_size: u64,
    prefetch_size: u64,
    max_concurrent: u32,
) -> Seq<(u64, u64)> {
    decide_rec(t0, start, chunk_size, budget_chunks(prefetch_size, chunk_size, max_concurrent)).0
}

/// The tracked list one call leaves behind: the candidates it appended, then
/// the range actually being served, then pruning.
pub open spec fn decide_tracked(
    t0: Seq<(u64, u64)>,
    start: u64,
    chunk_size: u64,
    prefetch_size: u64,
    max_concurrent: u32,
) -> Seq<(u64, u64)> {
    let after = decide_rec(
        t0,
        start,
        chunk_size,
        budget_chunks(prefetch_size, chunk_size, max_concurrent),
    ).1;
    prune(after.push((start, (start + chunk_size - 1) as u64)), start, prefetch_size)
}

/// Association list of per-resource tracked ranges, as a map.
pub open spec fn table_view(t: Seq<(String, Vec<(u64, u64)>)>) -> Map<Seq<char>, Seq<(u64, u64)>>
    decreases t.len(),
{
    if t.len() == 0 {
        Map::empty()
    } else {
        table_view(t.drop_last()).insert(t.last().0@, t.last().1@)
    }
}

/// Ghost model of the prefetch tracker.
pub struct ManagerModel {
    /// Tracked ranges, per resource identifier.
    pub table: Map<Seq<char>, Seq<(u64, u64)>>,
    /// Cap on concurrent chunk downloads; one slot stays with the range
    /// being served.
    pub max_concurrent: u32,
    /// Prefetch budget in bytes.
    pub prefetch_size: u64,
    /// Whether prefetching is enabled at all.
    pub enabled: bool,
    /// The tiered buffer pool the tracker carries for download buffers.
    pub pool: ChunkPoolModel,
    /// When diagnostics were last emitted, if ever (caller-supplied clock).
    pub stats_timer: Option<u64>,
}

/// The tracked ranges for `key`, empty when the resource is not yet known.
pub open spec fn ranges_for(m: ManagerModel, key: Seq<char>) -> Seq<(u64, u64)> {
    if m.table.contains_key(key) {
        m.table[key]
    } else {
        Seq::empty()
    }
}

/// Whether diagnostics are due: never emitted yet, or the last emission lies
/// at least thirty seconds back.
pub open spec fn stats_due(timer: Option<u64>, now_secs: u64) -> bool {
    match timer {
        None => true,
        Some(last) => (if now_secs >= last {
            now_secs - last
        } else {
            0
        }) >= 30,
    }
}

/// No two entries of the association list share a key.
pub open spec fn unique_keys(t: Seq<(String, Vec<(u64, u64)>)>) -> bool {
    forall|a: int, b: int| 0 <= a < b < t.len() ==> (#[trigger] t[a]).0@ != (#[trigger] t[b]).0@
}

/// Every tracked range of every entry is ordered (`start <= end`).
pub open spec fn entries_ordered(t: Seq<(String, Vec<(u64, u64)>)>) -> bool {
    forall|a: int, k: int|
        0 <= a < t.len() && 0 <= k < (#[trigger] t[a]).1@.len() ==> ((#[trigger] t[a].1@[k]).0
            <= t[a].1@[k].1)
}

proof fn lemma_table_view_absent(t: Seq<(String, Vec<(u64, u64)>)>, key: Seq<char>)
    requires
        forall|j: int| 0 <= j < t.len() ==> (#[trigger] t[j]).0@ != key,
    ensures
        !table_view(t).contains_key(key),
    decreases t.len(),
{
    if t.len() > 0 {
        assert(forall|j: int|
            0 <= j < t.drop_last().len() ==> (#[trigger] t.drop_last()[j]).0@ != key);
        lemma_table_view_absent(t.drop_last(), key);
        assert(t.last().0@ != key);
    }
}

proof fn lemma_table_view_lookup(t: Seq<(String, Vec<(u64, u64)>)>, j: int)
    requires
        unique_keys(t),
        0 <= j < t.len(),
    ensures
        table_view(t).contains_key(t[j].0@),
        table_view(t)[t[j].0@] == t[j].1@,
    decreases t.len(),
{
    if j == t.len() - 1 {
    } else {
        assert(unique_keys(t.drop_last())) by {
            assert(forall|a: int, b: int|
                0 <= a < b < t.drop_last().len() ==> (#[trigger] t.drop_last()[a]).0@ != (
                #[trigger] t.drop_last()[b]).0@);
        }
        lemma_table_view_lookup(t.drop_last(), j);
        assert(t.last().0@ != t[j].0@);
    }
}

proof fn lemma_table_view_update(t: Seq<(String, Vec<(u64, u64)>)>, j: int, v: Vec<(u64, u64)>)
    requires
        unique_keys(t),
        0 <= j < t.len(),
    ensures
        table_view(t.update(j, (t[j].0, v))) =~= table_view(t).insert(t[j].0@, v@),
    decreases t.len(),
{
    let t2 = t.update(j, (t[j].0, v));
    if j == t.len() - 1 {
        assert(t2.drop_last() =~= t.drop_last());
        assert(t2.last() == (t[j].0, v));
    } else {
        assert(unique_keys(t.drop_last())) by {
            assert(forall|a: int, b: int|
                0 <= a < b < t.drop_last().len() ==> (#[trigger] t.drop_last()[a]).0@ != (
                #[trigger] t.drop_last()[b]).0@);
        }
        assert(t.drop_last()[j] == t[j]);
        lemma_table_view_update(t.drop_last(), j, v);
        assert(t2.drop_last() =~= t.drop_last().update(j, (t[j].0, v)));
        assert(t2.last() == t.last());
        assert(t.last().0@ != t[j].0@);
    }
}

/// The tracked list grown by `decide_rec` extends `t0`, and nothing it emits
/// is covered by a range that was already tracked.
pub proof fn lemma_decide_rec_extends(t0: Seq<(u64, u64)>, start: u64, chunk_size: u64, i: nat)
    ensures
        decide_rec(t0, start, chunk_size, i).1.len() >= t0.len(),
        forall|j: int|
            0 <= j < t0.len() ==> decide_rec(t0, start, chunk_size, i).1[j] == t0[j],
        forall|a: int|
            0 <= a < decide_rec(t0, start, chunk_size, i).0.len() ==> !covered(
                t0,
                (#[trigger] decide_rec(t0, start, chunk_size, i).0[a]).0,
            ),
    decreases i,
{
    if i > 0 {
        lemma_decide_rec_extends(t0, start, chunk_size, (i - 1) as nat);
        let prev = decide_rec(t0, start, chunk_size, (i - 1) as nat);
        let ps = cand_start(start, chunk_size, i);
        if !covered(prev.1, ps as u64) {
            assert(!covered(t0, ps as u64)) by {
                if covered(t0, ps as u64) {
                    let j = choose|j: int| 0 <= j < t0.len() && covers(#[trigger] t0[j], ps as u64);
                    assert(prev.1[j] == t0[j]);
                    assert(covers(prev.1[j], ps as u64));
                }
            }
        }
    }
}

/// With ordered input and in-range candidate arithmetic, every range the
/// decision tracks or emits is ordered.
pub proof fn lemma_decide_rec_ordered(t0: Seq<(u64, u64)>, start: u64, chunk_size: u64, i: nat)
    requires
        chunk_size >= 1,
        forall|k: int| 0 <= k < t0.len() ==> (#[trigger] t0[k]).0 <= t0[k].1,
        start + chunk_size + i * chunk_size <= u64::MAX + 1,
    ensures
        forall|k: int|
            0 <= k < decide_rec(t0, start, chunk_size, i).1.len() ==> (#[trigger] decide_rec(
                t0,
                start,
                chunk_size,
                i,
            ).1[k]).0 <= decide_rec(t0, start, chunk_size, i).1[k].1,
        forall|a: int|
            0 <= a < decide_rec(t0, start, chunk_size, i).0.len() ==> (#[trigger] decide_rec(
                t0,
                start,
                chunk_size,
                i,
            ).0[a]).0 <= decide_rec(t0, start, chunk_size, i).0[a].1,
    decreases i,
{
    let cur = decide_rec(t0, start, chunk_size, i);
    if i == 0 {
        assert(forall|k: int| 0 <= k < cur.1.len() ==> (#[trigger] cur.1[k]).0 <= cur.1[k].1);
    } else {
        assert(((i - 1) as int) * chunk_size + chunk_size == i * chunk_size) by (nonlinear_arith);
        vstd::arithmetic::mul::lemma_mul_inequality((i - 1) as int, i as int, chunk_size as int);
        lemma_decide_rec_ordered(t0, start, chunk_size, (i - 1) as nat);
        let prev = decide_rec(t0, start, chunk_size, (i - 1) as nat);
        let ps = cand_start(start, chunk_size, i);
        let pe = ps + chunk_size - 1;
        assert(0 <= ps <= pe <= u64::MAX);
        assert(ps as u64 <= pe as u64);
        if !covered(prev.1, ps as u64) {
            assert forall|k: int| 0 <= k < cur.1.len() implies (#[trigger] cur.1[k]).0
                <= cur.1[k].1 by {
                if k < prev.1.len() {
                    assert(cur.1[k] == prev.1[k]);
                } else {
                    assert(cur.1[k] == (ps as u64, pe as u64));
                }
            }
            assert forall|a: int| 0 <= a < cur.0.len() implies (#[trigger] cur.0[a]).0
                <= cur.0[a].1 by {
                if a < prev.0.len() {
                    assert(cur.0[a] == prev.0[a]);
                } else {
                    assert(cur.0[a] == (ps as u64, pe as u64));
                }
            }
        }
    }
}

/// Pruning keeps ranges ordered.
pub proof fn lemma_prune_ordered(t: Seq<(u64, u64)>, start: u64, prefetch_size: u64)
    requires
        forall|k: int| 0 <= k < t.len() ==> (#[trigger] t[k]).0 <= t[k].1,
    ensures
        forall|k: int|
            0 <= k < prune(t, start, prefetch_size).len() ==> (#[trigger] prune(
                t,
                start,
                prefetch_size,
            )[k]).0 <= prune(t, start, prefetch_size)[k].1,
    decreases t.len(),
{
    if t.len() > 0 {
        assert(forall|k: int|
            0 <= k < t.drop_last().len() ==> (#[trigger] t.drop_last()[k]).0 <= t.drop_last()[k].1);
        lemma_prune_ordered(t.drop_last(), start, prefetch_size);
        let front = prune(t.drop_last(), start, prefetch_size);
        let whole = prune(t, start, prefetch_size);
        if keep_range(t.last(), start, prefetch_size) {
            assert forall|k: int| 0 <= k < whole.len() implies (#[trigger] whole[k]).0
                <= whole[k].1 by {
                if k < front.len() {
                    assert(whole[k] == front[k]);
                } else {
                    assert(whole[k] == t.last());
                }
            }
        }
    }
}

proof fn lemma_covered_extends(t: Seq<(u64, u64)>, t2: Seq<(u64, u64)>, p: u64)
    requires
        t2.len() >= t.len(),
        forall|j: int| 0 <= j < t.len() ==> t2[j] == t[j],
        covered(t, p),
    ensures
        covered(t2, p),
{
    let j = choose|j: int| 0 <= j < t.len() && covers(#[trigger] t[j], p);
    assert(covers(t2[j], p));
}

/// Pruning changes nothing when every range survives it.
proof fn lemma_prune_identity(t: Seq<(u64, u64)>, start: u64, prefetch_size: u64)
    requires
        forall|j: int| 0 <= j < t.len() ==> keep_range(#[trigger] t[j], start, prefetch_size),
    ensures
        prune(t, start, prefetch_size) =~= t,
    decreases t.len(),
{
    if t.len() > 0 {
        assert(forall|j: int|
            0 <= j < t.drop_last().len() ==> keep_range(
                #[trigger] t.drop_last()[j],
                start,
                prefetch_size,
            ));
        lemma_prune_identity(t.drop_last(), start, prefetch_size);
        assert(keep_range(t.last(), start, prefetch_size));
    }
}

/// Every range the decision appends beyond `t0` starts strictly after the
/// request start.
proof fn lemma_decide_rec_appended_ahead(t0: Seq<(u64, u64)>, start: u64, chunk_size: u64, i: nat)
    requires
        chunk_size >= 1,
        start + chunk_size + i * chunk_size <= u64::MAX,
    ensures
        forall|j: int|
            t0.len() <= j < decide_rec(t0, start, chunk_size, i).1.len() ==> (#[trigger] decide_rec(
                t0,
                start,
                chunk_size,
                i,
            ).1[j]).0 > start,
    decreases i,
{
    if i > 0 {
        assert(((i - 1) as int) * chunk_size + chunk_size == i * chunk_size) by (nonlinear_arith);
        vstd::arithmetic::mul::lemma_mul_inequality((i - 1) as int, i as int, chunk_size as int);
        lemma_decide_rec_appended_ahead(t0, start, chunk_size, (i - 1) as nat);
        let prev = decide_rec(t0, start, chunk_size, (i - 1) as nat);
        let cur = decide_rec(t0, start, chunk_size, i);
        let ps = cand_start(start, chunk_size, i);
        if !covered(prev.1, ps as u64) {
            assert(0 <= ps <= u64::MAX);
            assert(ps as u64 > start);
            assert(forall|j: int|
                t0.len() <= j < prev.1.len() ==> #[trigger] cur.1[j] == prev.1[j]);
        }
    }
}

/// After the decision, every candidate start of the call is covered by the
/// tracked list it leaves (before pruning): skipped candidates by the range
/// that already covered them, appended candidates by themselves.
proof fn lemma_decide_rec_candidates_covered(
    t0: Seq<(u64, u64)>,
    start: u64,
    chunk_size: u64,
    i: nat,
)
    requires
        chunk_size >= 1,
        start + chunk_size + i * chunk_size <= u64::MAX,
    ensures
        forall|k: nat|
            1 <= k <= i ==> covered(
                decide_rec(t0, start, chunk_size, i).1,
                cand_start(start, chunk_size, k) as u64,
            ),
    decreases i,
{
    if i > 0 {
        assert(((i - 1) as int) * chunk_size + chunk_size == i * chunk_size) by (nonlinear_arith);
        vstd::arithmetic::mul::lemma_mul_inequality((i - 1) as int, i as int, chunk_size as int);
        lemma_decide_rec_candidates_covered(t0, start, chunk_size, (i - 1) as nat);
        let prev = decide_rec(t0, start, chunk_size, (i - 1) as nat);
        let cur = decide_rec(t0, start, chunk_size, i);
        let ps = cand_start(start, chunk_size, i);
        let pe = ps + chunk_size - 1;
        assert(0 <= ps <= pe <= u64::MAX);
        assert forall|k: nat| 1 <= k <= i implies covered(
            cur.1,
            cand_start(start, chunk_size, k) as u64,
        ) by {
            if covered(prev.1, ps as u64) {
                assert(cur == prev);
                if k < i {
                    assert(covered(prev.1, cand_start(start, chunk_size, k) as u64));
                }
            } else {
                assert(cur.1 == prev.1.push((ps as u64, pe as u64)));
                if k < i {
                    lemma_covered_extends(
                        prev.1,
                        cur.1,
                        cand_start(start, chunk_size, k) as u64,
                    );
                } else {
                    assert(covers(cur.1[cur.1.len() - 1], ps as u64));
                }
            }
        }
    }
}

/// A decision over a list that already covers every candidate start emits
/// nothing and appends nothing.
proof fn lemma_decide_rec_all_covered_emits_nothing(
    tb: Seq<(u64, u64)>,
    start: u64,
    chunk_size: u64,
    i: nat,
)
    requires
        forall|k: nat|
            1 <= k <= i ==> covered(tb, #[trigger] cand_start(start, chunk_size, k) as u64),
    ensures
        decide_rec(tb, start, chunk_size, i).0 =~= Seq::<(u64, u64)>::empty(),
        decide_rec(tb, start, chunk_size, i).1 == tb,
    decreases i,
{
    if i > 0 {
        assert(forall|k: nat|
            1 <= k <= (i - 1) as nat ==> covered(
                tb,
                #[trigger] cand_start(start, chunk_size, k) as u64,
            ));
        lemma_decide_rec_all_covered_emits_nothing(tb, start, chunk_size, (i - 1) as nat);
        assert(covered(tb, cand_start(start, chunk_size, i) as u64));
    }
}

/// Law: deciding twice with identical arguments and no other change to the
/// tracker emits nothing the second time — every candidate the first call
/// considered is tracked after it — provided the ranges tracked beforehand
/// all survive pruning (a range that the first call prunes away may
/// legitimately be prefetched and tracked anew).
pub proof fn lemma_decide_twice_emits_nothing(
    t0: Seq<(u64, u64)>,
    start: u64,
    chunk_size: u64,
    prefetch_size: u64,
    max_concurrent: u32,
)
    requires
        chunk_size >= 1,
        max_concurrent >= 1,
        prefetch_size >= 1,
        start + chunk_size + budget_chunks(prefetch_size, chunk_size, max_concurrent) * chunk_size
            <= u64::MAX,
        forall|j: int| 0 <= j < t0.len() ==> keep_range(#[trigger] t0[j], start, prefetch_size),
    ensures
        decide_result(
            decide_tracked(t0, start, chunk_size, prefetch_size, max_concurrent),
            start,
            chunk_size,
            prefetch_size,
            max_concurrent,
        ) =~= Seq::<(u64, u64)>::empty(),
{
    let budget = budget_chunks(prefetch_size, chunk_size, max_concurrent);
    let t1 = decide_rec(t0, start, chunk_size, budget).1;
    let cur = (start, (start + chunk_size - 1) as u64);
    let t2p = t1.push(cur);
    lemma_decide_rec_appended_ahead(t0, start, chunk_size, budget);
    lemma_decide_rec_extends(t0, start, chunk_size, budget);
    assert forall|j: int| 0 <= j < t2p.len() implies keep_range(
        #[trigger] t2p[j],
        start,
        prefetch_size,
    ) by {
        if j < t0.len() {
            assert(t2p[j] == t0[j]);
        } else if j < t1.len() {
            assert(t2p[j] == t1[j]);
            assert(t1[j].0 > start);
        } else {
            assert(t2p[j] == cur);
        }
    }
    lemma_prune_identity(t2p, start, prefetch_size);
    let t2 = decide_tracked(t0, start, chunk_size, prefetch_size, max_concurrent);
    assert(t2 == t2p);
    lemma_decide_rec_candidates_covered(t0, start, chunk_size, budget);
    assert forall|k: nat| 1 <= k <= budget implies covered(
        t2,
        #[trigger] cand_start(start, chunk_size, k) as u64,
    ) by {
        lemma_covered_extends(t1, t2p, cand_start(start, chunk_size, k) as u64);
    }
    lemma_decide_rec_all_covered_emits_nothing(t2, start, chunk_size, budget);
}

/// The prefetch tracker with its per-resource table and buffer pool.
#[derive(Debug)]
pub struct ParallelDownloadManager {
    active_downloads: Vec<(String, Vec<(u64, u64)>)>,
    max_concurrent: u32,
    prefetch_size: u64,
    enabled: bool,
    chunk_pool: ChunkDataPool,
    stats_timer: Option<u64>,
}

impl View for ParallelDownloadManager {
    type V = ManagerModel;

    closed spec fn view(&self) -> ManagerModel {
        ManagerModel {
            table: table_view(self.active_downloads@),
            max_concurrent: self.max_concurrent,
            prefetch_size: self.prefetch_size,
            enabled: self.enabled,
            pool: self.chunk_pool@,
            stats_timer: self.stats_timer,
        }
    }
}

impl ParallelDownloadManager {
    /// Internal invariant: resource keys are unique, every tracked range is
    /// ordered, and the buffer pool respects its caps and fixed parameters.
    pub closed spec fn inv(&self) -> bool {
        &&& unique_keys(self.active_downloads@)
        &&& entries_ordered(self.active_downloads@)
        &&& self.chunk_pool.wf()
    }

    /// The buffer pool invariant is part of the tracker invariant.
    pub proof fn lemma_inv_pool(&self)
        requires
            self.inv(),
        ensures
            pool_wf(self@.pool.small),
            pool_wf(self@.pool.medium),
            pool_wf(self@.pool.large),
            self@.pool.small.buffer_size == SMALL_BUFFER_SIZE as nat,
            self@.pool.medium.buffer_size == MEDIUM_BUFFER_SIZE as nat,
            self@.pool.large.buffer_size == LARGE_BUFFER_SIZE as nat,
    {
    }

    /// Create a tracker: no resource tracked yet, the given limits, and a
    /// freshly created tiered buffer pool.
    pub fn new(
        max_concurrent: u32,
        prefetch_size: u64,
        enabled: bool,
        memory_pool_enabled: bool,
    ) -> (r: ParallelDownloadManager)
        ensures
            r.inv(),
            r@.table == Map::<Seq<char>, Seq<(u64, u64)>>::empty(),
            r@.max_concurrent == max_concurrent,
            r@.prefetch_size == prefetch_size,
            r@.enabled == enabled,
            r@.pool.enabled == memory_pool_enabled,
            r@.pool.small == init_pool(SMALL_BUFFER_SIZE as nat, 4, 16),
            r@.pool.medium == init_pool(MEDIUM_BUFFER_SIZE as nat, 2, 8),
            r@.pool.large == init_pool(LARGE_BUFFER_SIZE as nat, 1, 4),
            r@.stats_timer is None,
    {
        ParallelDownloadManager {
            active_downloads: Vec::new(),
            max_concurrent,
            prefetch_size,
            enabled,
            chunk_pool: ChunkDataPool::new(memory_pool_enabled),
            stats_timer: None,
        }
    }

    /// Hand out a download buffer for a request of `size` bytes, from the
    /// tracker's tiered pool. The resource identifier plays no role in the
    /// choice of buffer.
    pub fn get_download_buffer(&mut self, _url: &str, size: usize) -> (r: Option<Vec<u8>>)
        requires
            old(self).inv(),
            old(self)@.pool.enabled ==> ({
                let c = class_model(old(self)@.pool, size_class_of(size as nat));
                c.hits < u64::MAX && c.misses < u64::MAX
            }),
        ensures
            final(self).inv(),
            final(self)@ == (ManagerModel { pool: final(self)@.pool, ..old(self)@ }),
            !old(self)@.pool.enabled ==> final(self)@.pool == old(self)@.pool && (match r {
                Some(b) => b@ == zero_bytes(size as nat),
                None => false,
            }),
            old(self)@.pool.enabled ==> ({
                let cls = size_class_of(size as nat);
                &&& acquire_step(
                    class_model(old(self)@.pool, cls),
                    class_model(final(self)@.pool, cls),
                    opt_bytes(r),
                )
                &&& others_unchanged(old(self)@.pool, final(self)@.pool, cls)
            }),
    {
        self.chunk_pool.get_buffer_for_size(size)
    }

    /// As `return_download_buffer`, but with the buffer's capacity stated by
    /// the caller, which fixes exactly which tier takes the buffer back.
    pub fn return_download_buffer_with_capacity(
        &mut self,
        buffer: Vec<u8>,
        cap: usize,
        now_secs: u64,
    ) -> (emit: bool)
        requires
            old(self).inv(),
            cap >= buffer@.len(),
        ensures
            final(self).inv(),
            emit == stats_due(old(self)@.stats_timer, now_secs),
            final(self)@.stats_timer == (if emit {
                Some(now_secs)
            } else {
                old(self)@.stats_timer
            }),
            final(self)@ == (ManagerModel {
                pool: final(self)@.pool,
                stats_timer: final(self)@.stats_timer,
                ..old(self)@
            }),
            final(self)@.pool.enabled == old(self)@.pool.enabled,
            !old(self)@.pool.enabled ==> final(self)@.pool == old(self)@.pool,
            old(self)@.pool.enabled ==> chunk_release(
                old(self)@.pool,
                final(self)@.pool,
                buffer@,
                cap as nat,
            ),
    {
        self.chunk_pool.return_buffer_with_capacity(buffer, cap);
        let emit = match self.stats_timer {
            None => true,
            Some(last) => now_secs.saturating_sub(last) >= 30,
        };
        if emit {
            self.stats_timer = Some(now_secs);
        }
        emit
    }

    /// Take a download buffer back into the pool, and say whether periodic
    /// diagnostics are due: at most once per thirty seconds, measured on the
    /// caller-supplied clock. When they are due, the emission time is
    /// recorded.
    pub fn return_download_buffer(&mut self, buffer: Vec<u8>, now_secs: u64) -> (emit: bool)
        requires
            old(self).inv(),
        ensures
            final(self).inv(),
            emit == stats_due(old(self)@.stats_timer, now_secs),
            final(self)@.stats_timer == (if emit {
                Some(now_secs)
            } else {
                old(self)@.stats_timer
            }),
            final(self)@ == (ManagerModel {
                pool: final(self)@.pool,
                stats_timer: final(self)@.stats_timer,
                ..old(self)@
            }),
            final(self)@.pool.enabled == old(self)@.pool.enabled,
            !old(self)@.pool.enabled ==> final(self)@.pool == old(self)@.pool,
            old(self)@.pool.enabled ==> (exists|cap: nat|
                cap >= buffer@.len() && #[trigger] chunk_release(
                    old(self)@.pool,
                    final(self)@.pool,
                    buffer@,
                    cap,
                )),
    {
        self.chunk_pool.return_buffer(buffer);
        let emit = match self.stats_timer {
            None => true,
            Some(last) => now_secs.saturating_sub(last) >= 30,
        };
        if emit {
            self.stats_timer = Some(now_secs);
        }
        emit
    }

    /// Decide which additional ranges to prefetch for `url` once the chunk of
    /// `chunk_size` bytes at `start` is being served, and track the outcome.
    ///
    /// With prefetching off, nothing is tracked and nothing is emitted. With
    /// it on, up to the budget of chunks directly after the served range is
    /// considered, skipping candidates whose start an already-tracked range
    /// of the resource covers; the served range itself is always appended to
    /// the tracked list, and ranges far behind the current start are pruned.
    ///
    /// Nothing this call emits collides with a range that was already tracked
    /// for the resource; in particular the starts differ (the last `ensures`
    /// clause).
    #[verifier::loop_isolation(false)]
    pub fn should_prefetch(&mut self, url: &str, start: u64, chunk_size: u64) -> (r: Vec<
        (u64, u64),
    >)
        requires
            old(self).inv(),
            old(self)@.enabled ==> chunk_size >= 1 && old(self)@.max_concurrent >= 1,
            old(self)@.enabled ==> 2 * old(self)@.prefetch_size <= u64::MAX,
            old(self)@.enabled ==> start + chunk_size <= u64::MAX,
            old(self)@.enabled ==> start + chunk_size + budget_chunks(
                old(self)@.prefetch_size,
                chunk_size,
                old(self)@.max_concurrent,
            ) * chunk_size <= u64::MAX,
        ensures
            final(self).inv(),
            !old(self)@.enabled ==> r@ == Seq::<(u64, u64)>::empty() && final(self)@ == old(
                self,
            )@,
            old(self)@.enabled ==> ({
                let t0 = ranges_for(old(self)@, url@);
                let m = old(self)@;
                &&& r@ == decide_result(t0, start, chunk_size, m.prefetch_size, m.max_concurrent)
                &&& final(self)@.table == m.table.insert(
                    url@,
                    decide_tracked(t0, start, chunk_size, m.prefetch_size, m.max_concurrent),
                )
                &&& final(self)@ == (ManagerModel { table: final(self)@.table, ..m })
            }),
            old(self)@.enabled ==> (forall|a: int, b: int|
                #![trigger r@[a], ranges_for(old(self)@, url@)[b]]
                0 <= a < r@.len() && 0 <= b < ranges_for(old(self)@, url@).len() ==> (!covers(
                    ranges_for(old(self)@, url@)[b],
                    r@[a].0,
                ) && r@[a].0 != ranges_for(old(self)@, url@)[b].0)),
    {
        if !self.enabled {
            return Vec::new();
        }
        let ghost m0 = old(self)@;
        let key: String = url.to_owned();
        let n = self.active_downloads.len();
        let mut found: Option<usize> = None;
        let mut j: usize = 0;
        while j < n
            invariant
                j <= n,
                match found {
                    None => forall|q: int|
                        0 <= q < j ==> (#[trigger] self.active_downloads@[q]).0@ != url@,
                    Some(x) => 0 <= x < n && self.active_downloads@[x as int].0@ == url@,
                },
            decreases n - j,
        {
            if found.is_none() {
                if self.active_downloads[j].0 == key {
                    found = Some(j);
                }
            }
            j = j + 1;
        }
        let idx: usize = match found {
            Some(x) => x,
            None => {
                proof {
                    lemma_table_view_absent(self.active_downloads@, url@);
                }
                self.active_downloads.push((key, Vec::new()));
                n
            },
        };
        let ghost t_entered = self.active_downloads@;
        let ghost t0 = ranges_for(m0, url@);
        proof {
            assert(unique_keys(t_entered)) by {
                if found is None {
                    assert(forall|a: int, b: int|
                        0 <= a < b < t_entered.len() && b < n ==> (#[trigger] t_entered[a]).0@ != (
                        #[trigger] t_entered[b]).0@);
                }
            }
            lemma_table_view_lookup(t_entered, idx as int);
            if found is None {
                assert(t_entered.drop_last() =~= old(self).active_downloads@);
                assert(self@.table == m0.table.insert(url@, Seq::<(u64, u64)>::empty()));
                assert(t0 =~= Seq::<(u64, u64)>::empty());
            }
            assert(t_entered[idx as int].1@ == t0);
        }
        let removed = self.active_downloads.remove(idx);
        let entry_key = removed.0;
        let mut downloads = removed.1;
        let ghost ek = entry_key;
        assert(downloads@ == t0);
        assert(forall|k: int| 0 <= k < t0.len() ==> (#[trigger] t0[k]).0 <= t0[k].1) by {
            if found is Some {
                assert(old(self).active_downloads@[found->0 as int].1@ == t0);
            }
        }

        let mut prefetch_ranges: Vec<(u64, u64)> = Vec::new();
        let current_end = start + chunk_size;
        let budget: u64 = {
            let by_bytes = self.prefetch_size / chunk_size;
            let by_slots = (self.max_concurrent - 1) as u64;
            if by_bytes <= by_slots {
                by_bytes
            } else {
                by_slots
            }
        };
        assert(budget as nat == budget_chunks(m0.prefetch_size, chunk_size, m0.max_concurrent));
        let mut i: u64 = 1;
        while i <= budget
            invariant
                1 <= i <= budget + 1,
                prefetch_ranges@ == decide_rec(t0, start, chunk_size, (i - 1) as nat).0,
                downloads@ == decide_rec(t0, start, chunk_size, (i - 1) as nat).1,
            decreases budget + 1 - i,
        {
            proof {
                vstd::arithmetic::mul::lemma_mul_inequality(
                    i as int,
                    budget as int,
                    chunk_size as int,
                );
                vstd::arithmetic::mul::lemma_mul_inequality(
                    (i - 1) as int,
                    budget as int,
                    chunk_size as int,
                );
                assert(((i - 1) as int) * (chunk_size as int) + chunk_size as int == (i as int) * (
                chunk_size as int)) by (nonlinear_arith);
            }
            let offset = (i - 1) * chunk_size;
            let prefetch_start = current_end + offset;
            let prefetch_end = prefetch_start + chunk_size - 1;
            assert(prefetch_start == cand_start(start, chunk_size, i as nat));
            let mut already = false;
            let mut q: usize = 0;
            while q < downloads.len()
                invariant
                    q <= downloads@.len(),
                    already ==> covered(downloads@, prefetch_start),
                    !already ==> forall|z: int|
                        0 <= z < q ==> !covers(#[trigger] downloads@[z], prefetch_start),
                decreases downloads@.len() - q,
            {
                let cand = downloads[q];
                if prefetch_start >= cand.0 && prefetch_start <= cand.1 {
                    already = true;
                }
                q = q + 1;
            }
            assert(already == covered(downloads@, prefetch_start));
            if !already {
                prefetch_ranges.push((prefetch_start, prefetch_end));
                downloads.push((prefetch_start, prefetch_end));
            }
            i = i + 1;
        }
        assert(prefetch_ranges@ == decide_rec(t0, start, chunk_size, budget as nat).0);
        assert(downloads@ == decide_rec(t0, start, chunk_size, budget as nat).1);

        downloads.push((start, current_end - 1));
        let ghost before_prune = downloads@;

        let two_budgets = 2 * self.prefetch_size;
        let mut kept: Vec<(u64, u64)> = Vec::new();
        let mut q: usize = 0;
        while q < downloads.len()
            invariant
                q <= downloads@.len(),
                kept@ == prune(
                    downloads@.subrange(0, q as int),
                    start,
                    m0.prefetch_size,
                ),
            decreases downloads@.len() - q,
        {
            let cand = downloads[q];
            proof {
                let sub1 = downloads@.subrange(0, q + 1 as int);
                assert(sub1.drop_last() =~= downloads@.subrange(0, q as int));
                assert(sub1.last() == downloads@[q as int]);
            }
            if start.saturating_sub(cand.0) < two_budgets {
                kept.push(cand);
            }
            q = q + 1;
        }
        assert(downloads@.subrange(0, downloads@.len() as int) =~= downloads@);
        assert(kept@ == prune(before_prune, start, m0.prefetch_size));

        proof {
            lemma_decide_rec_ordered(t0, start, chunk_size, budget as nat);
            assert(forall|k: int|
                0 <= k < before_prune.len() ==> (#[trigger] before_prune[k]).0
                    <= before_prune[k].1);
            lemma_prune_ordered(before_prune, start, m0.prefetch_size);
        }
        let ghost kv = kept@;
        self.active_downloads.insert(idx, (entry_key, kept));
        proof {
            let t_final = self.active_downloads@;
            assert(t_final =~= t_entered.update(idx as int, (ek, t_final[idx as int].1)));
            assert(t_final[idx as int].1@ == kv);
            lemma_table_view_update(t_entered, idx as int, t_final[idx as int].1);
            assert(t_entered[idx as int].0 == ek);
            if found is None {
                assert(self@.table =~= m0.table.insert(
                    url@,
                    decide_tracked(t0, start, chunk_size, m0.prefetch_size, m0.max_concurrent),
                ));
            }
            assert(unique_keys(t_final)) by {
                assert(forall|a: int|
                    0 <= a < t_final.len() ==> (#[trigger] t_final[a]).0@ == t_entered[a].0@);
            }
            assert(entries_ordered(t_final)) by {
                assert(forall|a: int|
                    0 <= a < t_final.len() && a != idx ==> #[trigger] t_final[a]
                        == t_entered[a]);
            }
            lemma_decide_rec_extends(t0, start, chunk_size, budget as nat);
            assert(forall|a: int, b: int|
                #![trigger prefetch_ranges@[a], t0[b]]
                0 <= a < prefetch_ranges@.len() && 0 <= b < t0.len() ==> (!covers(
                    t0[b],
                    prefetch_ranges@[a].0,
                ) && prefetch_ranges@[a].0 != t0[b].0)) by {
                assert forall|a: int, b: int|
                    0 <= a < prefetch_ranges@.len() && 0 <= b < t0.len() implies (!covers(
                    t0[b],
                    (#[trigger] prefetch_ranges@[a]).0,
                ) && prefetch_ranges@[a].0 != (#[trigger] t0[b]).0) by {
                    assert(!covered(t0, prefetch_ranges@[a].0));
                    assert(t0[b].0 <= t0[b].1);
                    if prefetch_ranges@[a].0 == t0[b].0 {
                        assert(covers(t0[b], prefetch_ranges@[a].0));
                    }
                }
            }
        }
        prefetch_ranges
    }

    /// Per-tier (hits, misses) counters of the tracker's buffer pool.
    pub fn pool_stats(&self) -> (r: ((u64, u64), (u64, u64), (u64, u64)))
        ensures
            r.0.0 == self@.pool.small.hits && r.0.1 == self@.pool.small.misses,
            r.1.0 == self@.pool.medium.hits && r.1.1 == self@.pool.medium.misses,
            r.2.0 == self@.pool.large.hits && r.2.1 == self@.pool.large.misses,
    {
        self.chunk_pool.tier_stats()
    }
}

} // verus!
