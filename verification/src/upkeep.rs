//! What sweeps, reports and metrics do to the admission gate, said of its state
//! alone.
use vstd::prelude::*;

use crate::gate::{gone_in, holder, holder_label, is_oldest, lemma_dropped_wf, lemma_swept_keeps,
    Cause, GateView};
use crate::hexadecimal::hex_text;
use crate::metrics::{MetricsView, PoolCounter, PoolGauge};
use crate::policy::{below_caps, is_behind, lemma_is_behind, length, same_admission, share, waits};
use crate::pool::{PoolId, RejectReason};
use crate::slots::SlotView;
use crate::time::{age_secs, Duration};

verus! {

/// The slots of a pool that one state has and another has not.
pub open spec fn lost(v: GateView, next: GateView, pool: PoolId) -> Set<Seq<char>> {
    v.slots.dom().filter(
        |id: Seq<char>| v.slots[id].pool == pool && !next.slots.contains_key(id),
    )
}

/// Taking slots back takes as many off the count of their pool.
proof fn lemma_lost(v: GateView, gone: Set<Seq<char>>, cause: Cause)
    requires
        v.sound(),
    ensures
        ({
            let next = v.dropped(gone, cause);
            &&& gone_in(v.slots, gone, PoolId::Range) == lost(v, next, PoolId::Range).len()
            &&& gone_in(v.slots, gone, PoolId::Agg) == lost(v, next, PoolId::Agg).len()
            &&& next.counts.range == v.counts.range - lost(v, next, PoolId::Range).len()
            &&& next.counts.agg == v.counts.agg - lost(v, next, PoolId::Agg).len()
        }),
{
    let next = v.dropped(gone, cause);
    lemma_dropped_wf(v, gone, cause);
    assert(lost(v, next, PoolId::Range) =~= v.slots.dom().filter(
        |id: Seq<char>| gone.contains(id) && v.slots[id].pool == PoolId::Range,
    ));
    assert(lost(v, next, PoolId::Agg) =~= v.slots.dom().filter(
        |id: Seq<char>| gone.contains(id) && v.slots[id].pool == PoolId::Agg,
    ));
}

/// The reaper takes exactly the slots that were handed over and whose deadline
/// is not ahead any more, and leaves the others as they are. What it reports is
/// what is gone, and the counts follow.
pub proof fn law_reaper_takes(v: GateView, now: int)
    requires
        v.sound(),
    ensures
        ({
            let next = v.reaped(now);
            &&& forall|id: Seq<char>| #[trigger]
                next.slots.contains_key(id) <==> v.slots.contains_key(id) && !(
                v.slots[id].committed_at is Some && v.slots[id].deadline <= now)
            &&& forall|id: Seq<char>| #[trigger]
                next.slots.contains_key(id) ==> next.slots[id] == v.slots[id]
            &&& v.expired_ids(now) =~= v.slots.dom().difference(next.slots.dom())
            &&& next.counts.range == v.counts.range - lost(v, next, PoolId::Range).len()
            &&& next.counts.agg == v.counts.agg - lost(v, next, PoolId::Agg).len()
        }),
{
    lemma_lost(v, v.expired_ids(now), Cause::Reaped);
    let next = v.reaped(now);
    let freed = v.dropped(v.expired_ids(now), Cause::Reaped);
    assert(next.slots == freed.slots);
    assert(lost(v, next, PoolId::Range) =~= lost(v, freed, PoolId::Range));
    assert(lost(v, next, PoolId::Agg) =~= lost(v, freed, PoolId::Agg));
    assert forall|id: Seq<char>| #[trigger]
        next.slots.contains_key(id) <==> v.slots.contains_key(id) && !(v.slots[id].committed_at
            is Some && v.slots[id].deadline <= now) by {
        assert(v.expired_ids(now).contains(id) <==> v.slots.contains_key(id)
            && v.slots[id].committed_at is Some && v.slots[id].deadline <= now);
    }
}

/// The reaper forgets whoever was last turned away longer ago than the priority
/// TTL, and keeps everybody else's place.
pub proof fn law_reaper_forgets_stale_demand(v: GateView, now: int, pool: PoolId, who: Seq<u8>)
    ensures
        v.reaped(now).demand.contains_key((pool, who)) <==> waits(v, pool, who, now),
        waits(v, pool, who, now) ==> v.reaped(now).demand[(pool, who)] == v.demand[(pool, who)],
{
}

/// What a snapshot of the cluster does to one slot. A slot that its handler
/// still holds is left alone. One that was handed over and is shown is
/// refreshed. One that is not shown is left alone if the snapshot is truncated
/// or the hand-over is younger than the grace; else its absence is counted, and
/// it is taken back once it has been absent often enough.
pub proof fn law_snapshot_of_a_slot(
    v: GateView,
    id: Seq<char>,
    live: Set<Seq<char>>,
    partial: bool,
    threshold: u32,
    now: int,
)
    requires
        v.sound(),
        v.slots.contains_key(id),
        v.slots[id].committed_at matches Some(t) ==> t <= now,
    ensures
        ({
            let next = v.reconciled(live, partial, threshold, now);
            let old_slot = v.slots[id];
            let new_slot = next.slots[id];
            let shown = live.contains(id);
            let young = old_slot.committed_at matches Some(t) && now - t < length(v.commit_grace);
            let kept = next.slots.contains_key(id);
            &&& old_slot.committed_at is None ==> kept && new_slot == old_slot
            &&& old_slot.committed_at is Some && shown ==> {
                &&& kept
                &&& new_slot.deadline == now + length(v.ttl)
                &&& new_slot.absent_streak == 0
                &&& new_slot.committed_at == old_slot.committed_at
                &&& same_admission(old_slot, new_slot)
            }
            &&& old_slot.committed_at is Some && !shown && (partial || young) ==> kept && new_slot
                == old_slot
            &&& old_slot.committed_at is Some && !shown && !partial && !young ==> {
                &&& kept <==> old_slot.absent_streak + 1 < threshold
                &&& kept ==> {
                    &&& new_slot.absent_streak == old_slot.absent_streak + 1
                    &&& new_slot.deadline == old_slot.deadline
                    &&& new_slot.committed_at == old_slot.committed_at
                    &&& same_admission(old_slot, new_slot)
                }
            }
        }),
{
    assert(v.slots[id].wf());
    assert(v.gone_ids(live, partial, threshold, now).contains(id) <==> v.gone(
        id,
        live,
        partial,
        threshold,
        now,
    ));
}

/// A snapshot makes no slots, its counts follow what it takes, it leaves demand
/// alone, and what it reports is what is gone.
pub proof fn law_snapshot_keeps_books(
    v: GateView,
    live: Set<Seq<char>>,
    partial: bool,
    threshold: u32,
    now: int,
)
    requires
        v.sound(),
    ensures
        ({
            let next = v.reconciled(live, partial, threshold, now);
            &&& next.slots.dom().subset_of(v.slots.dom())
            &&& v.gone_ids(live, partial, threshold, now) =~= v.slots.dom().difference(
                next.slots.dom(),
            )
            &&& next.counts.range == v.counts.range - lost(v, next, PoolId::Range).len()
            &&& next.counts.agg == v.counts.agg - lost(v, next, PoolId::Agg).len()
            &&& next.demand == v.demand
        }),
{
    let gone = v.gone_ids(live, partial, threshold, now);
    let next = v.reconciled(live, partial, threshold, now);
    lemma_swept_keeps(v, v.slots.dom(), live, partial, now);
    crate::gate::lemma_reconciled_by_parts(v, live, partial, threshold, now);
    let swept = v.swept(v.slots.dom(), live, partial, now);
    assert(next.slots.dom() =~= v.slots.dom().difference(gone));
    assert(v.slots.dom().filter(
        |id: Seq<char>| gone.contains(id) && v.slots[id].pool == PoolId::Range,
    ) =~= swept.slots.dom().filter(
        |id: Seq<char>| gone.contains(id) && swept.slots[id].pool == PoolId::Range,
    ));
    assert(v.slots.dom().filter(
        |id: Seq<char>| gone.contains(id) && v.slots[id].pool == PoolId::Agg,
    ) =~= swept.slots.dom().filter(
        |id: Seq<char>| gone.contains(id) && swept.slots[id].pool == PoolId::Agg,
    ));
    lemma_dropped_wf(v, gone, Cause::Reconciled);
    assert(lost(v, next, PoolId::Range) =~= v.slots.dom().filter(
        |id: Seq<char>| gone.contains(id) && v.slots[id].pool == PoolId::Range,
    ));
    assert(lost(v, next, PoolId::Agg) =~= v.slots.dom().filter(
        |id: Seq<char>| gone.contains(id) && v.slots[id].pool == PoolId::Agg,
    ));
}

/// The numbers of a snapshot's report: how many slots were handed over, how
/// many of them the snapshot shows, and how many it does not.
pub proof fn law_snapshot_report(v: GateView, live: Set<Seq<char>>, id: Seq<char>)
    ensures
        v.tracked_ids().contains(id) <==> v.slots.contains_key(id) && v.slots[id].committed_at
            is Some,
        v.present_ids(live).contains(id) <==> v.slots.contains_key(id)
            && v.slots[id].committed_at is Some && live.contains(id),
        v.absent_ids(live).contains(id) <==> v.slots.contains_key(id) && v.slots[id].committed_at
            is Some && !live.contains(id),
{
}

/// A series that some slot belongs to has an oldest slot.
proof fn lemma_oldest_exists(
    slots: Map<Seq<char>, SlotView>,
    key: (PoolId, Seq<char>),
    now: int,
    id: Seq<char>,
)
    requires
        slots.dom().finite(),
        slots.contains_key(id),
        holder(slots[id]) == key,
    ensures
        exists|age: u64| is_oldest(slots, key, now, age),
    decreases slots.dom().len(),
{
    reveal(is_oldest);
    let rest = slots.remove(id);
    let mine = age_secs(now, slots[id].admitted_at);
    assert(rest.dom() =~= slots.dom().remove(id));
    if exists|k: Seq<char>| #[trigger] rest.contains_key(k) && holder(rest[k]) == key {
        let k = choose|k: Seq<char>| #[trigger] rest.contains_key(k) && holder(rest[k]) == key;
        lemma_oldest_exists(rest, key, now, k);
        let age = choose|age: u64| is_oldest(rest, key, now, age);
        let w = choose|w: Seq<char>| #[trigger]
            rest.contains_key(w) && holder(rest[w]) == key && age_secs(now, rest[w].admitted_at)
                == age;
        let top = if mine > age {
            mine
        } else {
            age
        };
        assert(slots.contains_key(w) && slots[w] == rest[w]);
        assert forall|x: Seq<char>| #[trigger]
            slots.contains_key(x) && holder(slots[x]) == key implies age_secs(
            now,
            slots[x].admitted_at,
        ) <= top by {
            if x != id {
                assert(rest.contains_key(x));
            }
        }
        assert(is_oldest(slots, key, now, top));
    } else {
        assert forall|x: Seq<char>| #[trigger]
            slots.contains_key(x) && holder(slots[x]) == key implies age_secs(
            now,
            slots[x].admitted_at,
        ) <= mine by {
            if x != id {
                assert(rest.contains_key(x));
            }
        }
        assert(is_oldest(slots, key, now, mine));
    }
}

/// Every slot is younger than can be told in seconds, and none is from the
/// future.
pub open spec fn ages_tell(v: GateView, now: int) -> bool {
    forall|id: Seq<char>| #[trigger]
        v.slots.contains_key(id) ==> 0 <= now - v.slots[id].admitted_at
            < 0x7fff_ffff_ffff_ffff * 1_000_000_000
}

/// The reported age of a holder in a pool is the time since the admission of
/// its oldest slot there, in whole seconds: no slot of that holder is older,
/// one is exactly as old, and who holds nothing is not reported.
pub proof fn law_reported_age(v: GateView, now: int)
    requires
        v.sound(),
        v.metrics is Some,
        ages_tell(v, now),
    ensures
        ({
            let held = v.aged(now).metrics->0.slot_held_seconds;
            &&& forall|id: Seq<char>| #[trigger]
                v.slots.contains_key(id) ==> {
                    let key = (v.slots[id].pool, holder_label(v.slots[id].requester));
                    &&& held.contains_key(key)
                    &&& held[key] >= (now - v.slots[id].admitted_at) / 1_000_000_000
                }
            &&& forall|key: (PoolId, Seq<char>)| #[trigger]
                held.contains_key(key) ==> exists|id: Seq<char>|
                    {
                        &&& #[trigger] v.slots.contains_key(id)
                        &&& (v.slots[id].pool, holder_label(v.slots[id].requester)) == key
                        &&& held[key] == (now - v.slots[id].admitted_at) / 1_000_000_000
                    }
        }),
{
    let held = v.aged(now).metrics->0.slot_held_seconds;
    assert forall|id: Seq<char>| #[trigger] v.slots.contains_key(id) implies {
        let key = (v.slots[id].pool, holder_label(v.slots[id].requester));
        &&& held.contains_key(key)
        &&& held[key] >= (now - v.slots[id].admitted_at) / 1_000_000_000
    } by {
        let key = holder(v.slots[id]);
        lemma_oldest_exists(v.slots, key, now, id);
        let age = choose|age: u64| is_oldest(v.slots, key, now, age);
        reveal(is_oldest);
        let w = choose|w: Seq<char>| #[trigger]
            v.slots.contains_key(w) && holder(v.slots[w]) == key && age_secs(
                now,
                v.slots[w].admitted_at,
            ) == age;
        assert(v.slots.contains_key(w));
        assert(held[key] == age as i64);
    }
    assert forall|key: (PoolId, Seq<char>)| #[trigger] held.contains_key(key) implies exists|
        id: Seq<char>,
    |
        {
            &&& #[trigger] v.slots.contains_key(id)
            &&& (v.slots[id].pool, holder_label(v.slots[id].requester)) == key
            &&& held[key] == (now - v.slots[id].admitted_at) / 1_000_000_000
        } by {
        let id = choose|id: Seq<char>| #[trigger]
            v.slots.contains_key(id) && holder(v.slots[id]) == key;
        lemma_oldest_exists(v.slots, key, now, id);
        let age = choose|age: u64| is_oldest(v.slots, key, now, age);
        reveal(is_oldest);
        let w = choose|w: Seq<char>| #[trigger]
            v.slots.contains_key(w) && holder(v.slots[w]) == key && age_secs(
                now,
                v.slots[w].admitted_at,
            ) == age;
        assert(v.slots.contains_key(w));
        assert(held[key] == age as i64);
    }
}

/// Publishing ages changes nothing but the ages.
pub proof fn law_publishing_changes_ages_only(v: GateView, now: int)
    ensures
        v.aged(now).slots == v.slots,
        v.aged(now).counts == v.counts,
        v.aged(now).demand == v.demand,
        v.metrics matches Some(m) ==> v.aged(now).metrics == Some(
            MetricsView {
                slot_held_seconds: v.aged(now).metrics->0.slot_held_seconds,
                ..m
            },
        ),
{
}

/// How a holder is named: an address by its hex digits, told apart from nobody
/// at all and from the address of all zeros.
pub proof fn law_holder_names(r: Seq<u8>)
    ensures
        holder_label(None) == "unknown"@,
        r.len() == 0 ==> holder_label(Some(r)) == "unknown"@,
        r.len() > 0 && (forall|i: int| 0 <= i < r.len() ==> #[trigger] r[i] == 0) ==> holder_label(
            Some(r),
        ) == "unauthenticated"@,
        forall|i: int|
            0 <= i < r.len() && #[trigger] r[i] != 0 ==> holder_label(Some(r)) == "0x"@ + hex_text(
                r,
            ),
{
}

/// The series of one pool counts one more, and the other is as it was. A series
/// that was not there starts at one; one at its end starts over.
pub open spec fn one_more(a: PoolCounter, b: PoolCounter, pool: PoolId) -> bool {
    let (before, after) = if pool is Range {
        (a.range, b.range)
    } else {
        (a.agg, b.agg)
    };
    &&& match before {
        None => after == Some(1u64),
        Some(n) => if n == u64::MAX {
            after == Some(0u64)
        } else {
            after is Some && after->0 == n + 1
        },
    }
    &&& pool is Range ==> b.agg == a.agg
    &&& pool is Agg ==> b.range == a.range
}

/// Counting one is one more.
proof fn lemma_one_more(c: PoolCounter, pool: PoolId)
    ensures
        one_more(c, c.plus(pool, 1), pool),
{
    let before = if pool is Range {
        c.range
    } else {
        c.agg
    };
    if let Some(n) = before {
        if n == u64::MAX {
            assert((n + 1) % 0x1_0000_0000_0000_0000 == 0);
        } else {
            assert((n + 1) % 0x1_0000_0000_0000_0000 == n + 1);
        }
    }
}

/// Counting `k` makes a series grow by as much.
proof fn lemma_grew(c: Option<u64>, k: nat)
    ensures
        grew(c, crate::metrics::counted(c, k), k),
{
    let base: nat = match c {
        Some(n) => n as nat,
        None => 0,
    };
    if k > 0 && base + k <= u64::MAX {
        assert((base + k) % 0x1_0000_0000_0000_0000 == base + k);
    }
}

/// The series of one pool shows `n`, and the other is as it was.
pub open spec fn shows(a: PoolGauge, b: PoolGauge, pool: PoolId, n: i64) -> bool {
    &&& pool is Range ==> b.range == Some(n) && b.agg == a.agg
    &&& pool is Agg ==> b.agg == Some(n) && b.range == a.range
}

/// The in-flight gauges of `pool` and of all pools show what `next` counts.
pub open spec fn gauges_shown(m: MetricsView, next: GateView, pool: PoolId) -> bool {
    let n = next.metrics->0;
    &&& shows(m.inflight, n.inflight, pool, share(next.counts, pool) as i64)
    &&& n.global_inflight == (next.counts.range + next.counts.agg) as i64
}

/// Entering a slot shows its pool and the total in flight, and nothing else.
proof fn lemma_entered_shown(v: GateView, id: Seq<char>, slot: SlotView)
    requires
        v.metrics is Some,
    ensures
        ({
            let m = v.metrics->0;
            let next = v.entered(id, slot);
            let n = next.metrics->0;
            &&& next.metrics is Some
            &&& gauges_shown(m, next, slot.pool)
            &&& n == (MetricsView {
                inflight: n.inflight,
                global_inflight: n.global_inflight,
                ..m
            })
        }),
{
    match slot.pool {
        PoolId::Range => {},
        PoolId::Agg => {},
    }
}

/// Everything but in-flight gauges, admissions and the demand gauge.
pub open spec fn same_but_admission(m: MetricsView, n: MetricsView) -> bool {
    &&& n.rejected == m.rejected
    &&& n.rejected_global == m.rejected_global
    &&& n.reaped == m.reaped
    &&& n.reconciled == m.reconciled
    &&& n.seeded == m.seeded
    &&& n.unclassified == m.unclassified
    &&& n.priority_yielded == m.priority_yielded
    &&& n.priority_hold_open == m.priority_hold_open
    &&& n.slot_held_seconds == m.slot_held_seconds
}

/// A request that an enforcing gate lets in is counted as admitted and shown in
/// flight, and as nothing else.
pub proof fn law_admission_is_counted(
    v: GateView,
    id: Seq<char>,
    mode: i32,
    vk_hash: Seq<u8>,
    requester: Seq<u8>,
    now: int,
    pool: PoolId,
)
    requires
        v.metrics is Some,
        v.enforce,
        v.classifier.pool_of(mode, vk_hash) == Some(pool),
        v.answer(mode, vk_hash, requester, now) is Ok,
    ensures
        ({
            let m = v.metrics->0;
            let next = v.acquired(id, mode, vk_hash, requester, now);
            let n = next.metrics->0;
            &&& one_more(m.admitted, n.admitted, pool)
            &&& gauges_shown(m, next, pool)
            &&& same_but_admission(m, n)
            &&& n.would_reject == m.would_reject
            &&& n.priority_would_yield == m.priority_would_yield
            &&& !v.priority_enable ==> n.priority_demand == m.priority_demand
        }),
{
    let m = v.metrics->0;
    let slot = v.reserved_slot(pool, requester, now);
    let entered = v.entered(id, slot);
    let next = v.acquired(id, mode, vk_hash, requester, now);
    lemma_one_more(m.admitted, pool);
    lemma_entered_shown(v, id, slot);
    assert(v.objection(pool, requester, now) is None);
    assert(next == entered.cleared(pool, requester, now).counted_admitted(pool));
    let e = entered.metrics->0;
    let n = next.metrics->0;
    assert(n == (MetricsView {
        admitted: e.admitted.plus(pool, 1),
        priority_demand: n.priority_demand,
        ..e
    }));
    assert(next.counts == entered.counts);
}

/// A request that is turned away is counted once, under its reason. One that
/// yields is counted as a yield and as a slot held open.
pub proof fn law_rejection_is_counted(
    v: GateView,
    id: Seq<char>,
    mode: i32,
    vk_hash: Seq<u8>,
    requester: Seq<u8>,
    now: int,
    pool: PoolId,
)
    requires
        v.metrics is Some,
        v.classifier.pool_of(mode, vk_hash) == Some(pool),
        v.answer(mode, vk_hash, requester, now) is Err,
    ensures
        ({
            let m = v.metrics->0;
            let n = v.acquired(id, mode, vk_hash, requester, now).metrics->0;
            let reason = v.answer(mode, vk_hash, requester, now)->Err_0.reason;
            &&& n.inflight == m.inflight
            &&& n.global_inflight == m.global_inflight
            &&& n.admitted == m.admitted
            &&& n.would_reject == m.would_reject
            &&& n.priority_would_yield == m.priority_would_yield
            &&& n.reaped == m.reaped
            &&& n.reconciled == m.reconciled
            &&& n.seeded == m.seeded
            &&& n.unclassified == m.unclassified
            &&& n.slot_held_seconds == m.slot_held_seconds
            &&& if reason == RejectReason::PoolCap {
                one_more(m.rejected, n.rejected, pool)
            } else {
                n.rejected == m.rejected
            }
            &&& if reason == RejectReason::GlobalCap {
                n.rejected_global == if m.rejected_global == u64::MAX {
                    0
                } else {
                    m.rejected_global + 1
                }
            } else {
                n.rejected_global == m.rejected_global
            }
            &&& if reason == RejectReason::PriorityYield {
                one_more(m.priority_yielded, n.priority_yielded, pool) && one_more(
                    m.priority_hold_open,
                    n.priority_hold_open,
                    pool,
                )
            } else {
                n.priority_yielded == m.priority_yielded && n.priority_hold_open
                    == m.priority_hold_open
            }
        }),
{
    let m = v.metrics->0;
    let reason = v.answer(mode, vk_hash, requester, now)->Err_0.reason;
    let r = v.recorded(pool, requester, now);
    let q = r.metrics->0;
    assert(v.objection(pool, requester, now) == Some(reason));
    assert(v.acquired(id, mode, vk_hash, requester, now) == r.counted_shed(pool, reason));
    assert(q == (MetricsView { priority_demand: q.priority_demand, ..m }));
    lemma_one_more(m.rejected, pool);
    lemma_one_more(m.priority_yielded, pool);
    lemma_one_more(m.priority_hold_open, pool);
}

/// A gate that does not enforce counts every request as admitted. One over a
/// cap is counted as one that would be turned away, one below the caps that
/// would yield as such, and any other as neither.
pub proof fn law_dry_run_is_counted(
    v: GateView,
    id: Seq<char>,
    mode: i32,
    vk_hash: Seq<u8>,
    requester: Seq<u8>,
    now: int,
    pool: PoolId,
)
    requires
        v.metrics is Some,
        !v.enforce,
        v.classifier.pool_of(mode, vk_hash) == Some(pool),
    ensures
        ({
            let m = v.metrics->0;
            let next = v.acquired(id, mode, vk_hash, requester, now);
            let n = next.metrics->0;
            &&& one_more(m.admitted, n.admitted, pool)
            &&& gauges_shown(m, next, pool)
            &&& same_but_admission(m, n)
            &&& if !below_caps(v, pool) {
                one_more(m.would_reject, n.would_reject, pool)
            } else {
                n.would_reject == m.would_reject
            }
            &&& if below_caps(v, pool) && v.priority_enable && is_behind(v, pool, requester, now) {
                one_more(m.priority_would_yield, n.priority_would_yield, pool)
            } else {
                n.priority_would_yield == m.priority_would_yield
            }
        }),
{
    let m = v.metrics->0;
    let slot = v.reserved_slot(pool, requester, now);
    lemma_one_more(m.admitted, pool);
    lemma_one_more(m.would_reject, pool);
    lemma_one_more(m.priority_would_yield, pool);
    assert(v.counts.at(pool) == share(v.counts, pool) && v.caps.at(pool) == share(
        v.caps,
        pool,
    )) by {
        match pool {
            PoolId::Range => {},
            PoolId::Agg => {},
        }
    }
    lemma_is_behind(v, pool, requester, now);
    let next = v.acquired(id, mode, vk_hash, requester, now);
    let entered = match v.objection(pool, requester, now) {
        None => v.entered(id, slot),
        Some(reason) => v.counted_would_shed(pool, reason).entered(id, slot),
    };
    lemma_entered_shown(v, id, slot);
    if let Some(reason) = v.objection(pool, requester, now) {
        lemma_entered_shown(v.counted_would_shed(pool, reason), id, slot);
        assert(next == entered.recorded(pool, requester, now).counted_admitted(pool));
    } else {
        assert(next == entered.cleared(pool, requester, now).counted_admitted(pool));
    }
    let e = entered.metrics->0;
    let n = next.metrics->0;
    assert(n == (MetricsView {
        admitted: e.admitted.plus(pool, 1),
        priority_demand: n.priority_demand,
        ..e
    }));
    assert(next.counts == entered.counts);
}

/// A request that belongs to no pool is counted as passed through, and as
/// nothing else.
pub proof fn law_passing_is_counted(
    v: GateView,
    id: Seq<char>,
    mode: i32,
    vk_hash: Seq<u8>,
    requester: Seq<u8>,
    now: int,
)
    requires
        v.metrics is Some,
        v.classifier.pool_of(mode, vk_hash) is None,
    ensures
        ({
            let m = v.metrics->0;
            let n = v.acquired(id, mode, vk_hash, requester, now).metrics->0;
            &&& n.unclassified == if m.unclassified == u64::MAX {
                0
            } else {
                m.unclassified + 1
            }
            &&& n == (MetricsView { unclassified: n.unclassified, ..m })
        }),
{
}

/// With priority on, the demand gauge of a pool shows how many proposers wait
/// for it after every request.
pub proof fn law_demand_gauge(
    v: GateView,
    id: Seq<char>,
    mode: i32,
    vk_hash: Seq<u8>,
    requester: Seq<u8>,
    now: int,
    pool: PoolId,
)
    requires
        v.metrics is Some,
        v.priority_enable,
        v.classifier.pool_of(mode, vk_hash) == Some(pool),
    ensures
        ({
            let next = v.acquired(id, mode, vk_hash, requester, now);
            let waiters = next.demand.dom().filter(
                |k: (PoolId, Seq<u8>)| k.0 == pool && waits(next, pool, k.1, now),
            );
            shows(
                v.metrics->0.priority_demand,
                next.metrics->0.priority_demand,
                pool,
                waiters.len() as i64,
            )
        }),
{
    let next = v.acquired(id, mode, vk_hash, requester, now);
    assert(next.demand.dom().filter(
        |k: (PoolId, Seq<u8>)| k.0 == pool && waits(next, pool, k.1, now),
    ) =~= crate::demand::waiting_keys(next.demand, pool, now, v.priority_ttl.nanos()));
    match pool {
        PoolId::Range => {},
        PoolId::Agg => {},
    }
}

/// The count of a series after `k` more, as long as it does not reach its end.
pub open spec fn grew(before: Option<u64>, after: Option<u64>, k: nat) -> bool {
    let base: nat = match before {
        Some(n) => n as nat,
        None => 0,
    };
    &&& k == 0 ==> after == before
    &&& k > 0 && base + k <= u64::MAX ==> after is Some && after->0 == base + k
}

/// What sweeps take is counted under `cause` and shown in flight, and as nothing
/// else.
proof fn lemma_dropped_counted(v: GateView, gone: Set<Seq<char>>, cause: Cause)
    requires
        v.sound(),
        v.metrics is Some,
    ensures
        taken_counted(v, v.dropped(gone, cause), cause),
        v.dropped(gone, cause).metrics->0.priority_demand == v.metrics->0.priority_demand,
{
    let m = v.metrics->0;
    let r = gone_in(v.slots, gone, PoolId::Range);
    let a = gone_in(v.slots, gone, PoolId::Agg);
    lemma_lost(v, gone, cause);
    lemma_grew(m.reaped.range, r);
    lemma_grew(m.reaped.agg, a);
    lemma_grew(m.reconciled.range, r);
    lemma_grew(m.reconciled.agg, a);
}

/// The slots that `next` lost are counted under `cause`, each in its pool and as
/// nothing else, and the in-flight gauges of the pools that lost slots follow.
pub open spec fn taken_counted(v: GateView, next: GateView, cause: Cause) -> bool {
    let m = v.metrics->0;
    let n = next.metrics->0;
    let r = lost(v, next, PoolId::Range).len();
    let a = lost(v, next, PoolId::Agg).len();
    &&& cause is Reaped ==> grew(m.reaped.range, n.reaped.range, r) && grew(
        m.reaped.agg,
        n.reaped.agg,
        a,
    ) && n.reconciled == m.reconciled
    &&& cause is Reconciled ==> grew(m.reconciled.range, n.reconciled.range, r) && grew(
        m.reconciled.agg,
        n.reconciled.agg,
        a,
    ) && n.reaped == m.reaped
    &&& same_but_sweeps(m, n)
    &&& n.inflight.range == if r > 0 {
        Some(next.counts.range as i64)
    } else {
        m.inflight.range
    }
    &&& n.inflight.agg == if a > 0 {
        Some(next.counts.agg as i64)
    } else {
        m.inflight.agg
    }
    &&& n.global_inflight == if r + a > 0 {
        (next.counts.range + next.counts.agg) as i64
    } else {
        m.global_inflight
    }
}

/// What the reaper takes is counted as reaped.
pub proof fn law_reaped_is_counted(v: GateView, now: int)
    requires
        v.sound(),
        v.metrics is Some,
    ensures
        taken_counted(v, v.reaped(now), Cause::Reaped),
{
    let gone = v.expired_ids(now);
    let freed = v.dropped(gone, Cause::Reaped);
    let next = v.reaped(now);
    lemma_dropped_counted(v, gone, Cause::Reaped);
    assert(next.slots == freed.slots);
    assert(next.counts == freed.counts);
    assert(lost(v, next, PoolId::Range) =~= lost(v, freed, PoolId::Range));
    assert(lost(v, next, PoolId::Agg) =~= lost(v, freed, PoolId::Agg));
    let f = freed.metrics->0;
    let n = next.metrics->0;
    assert(n == (MetricsView { priority_demand: n.priority_demand, ..f }));
}

/// What a snapshot takes is counted as reconciled.
pub proof fn law_reconciled_is_counted(
    v: GateView,
    live: Set<Seq<char>>,
    partial: bool,
    threshold: u32,
    now: int,
)
    requires
        v.sound(),
        v.metrics is Some,
    ensures
        taken_counted(v, v.reconciled(live, partial, threshold, now), Cause::Reconciled),
        v.reconciled(live, partial, threshold, now).metrics->0.priority_demand
            == v.metrics->0.priority_demand,
{
    let gone = v.gone_ids(live, partial, threshold, now);
    let swept = v.swept(v.slots.dom(), live, partial, now);
    let next = v.reconciled(live, partial, threshold, now);
    let plain = v.dropped(gone, Cause::Reconciled);
    lemma_dropped_counted(v, gone, Cause::Reconciled);
    lemma_swept_keeps(v, v.slots.dom(), live, partial, now);
    lemma_same_gone(v, swept, gone, PoolId::Range);
    lemma_same_gone(v, swept, gone, PoolId::Agg);
    assert(next.counts == plain.counts);
    assert(next.metrics == plain.metrics);
    assert(next.slots.dom() =~= plain.slots.dom());
    assert(lost(v, next, PoolId::Range) =~= lost(v, plain, PoolId::Range));
    assert(lost(v, next, PoolId::Agg) =~= lost(v, plain, PoolId::Agg));
}

/// States with the same ids and pools lose alike.
proof fn lemma_same_gone(v: GateView, w: GateView, gone: Set<Seq<char>>, pool: PoolId)
    requires
        v.slots.dom() == w.slots.dom(),
        forall|id: Seq<char>| #[trigger]
            v.slots.contains_key(id) ==> v.slots[id].pool == w.slots[id].pool,
    ensures
        gone_in(v.slots, gone, pool) == gone_in(w.slots, gone, pool),
{
    assert(v.slots.dom().filter(
        |id: Seq<char>| gone.contains(id) && v.slots[id].pool == pool,
    ) =~= w.slots.dom().filter(
        |id: Seq<char>| gone.contains(id) && w.slots[id].pool == pool,
    )) by {
        assert forall|id: Seq<char>| v.slots.dom().contains(id) implies v.slots[id].pool
            == w.slots[id].pool by {
            assert(v.slots.contains_key(id));
        }
    }
}

/// Everything but in-flight gauges, what sweeps take and the demand gauge.
pub open spec fn same_but_sweeps(m: MetricsView, n: MetricsView) -> bool {
    &&& n.admitted == m.admitted
    &&& n.rejected == m.rejected
    &&& n.rejected_global == m.rejected_global
    &&& n.would_reject == m.would_reject
    &&& n.seeded == m.seeded
    &&& n.unclassified == m.unclassified
    &&& n.priority_yielded == m.priority_yielded
    &&& n.priority_would_yield == m.priority_would_yield
    &&& n.priority_hold_open == m.priority_hold_open
    &&& n.slot_held_seconds == m.slot_held_seconds
}

/// A seeded slot is counted as seeded and a returned one as nothing; both are
/// shown in flight.
pub proof fn law_seed_and_release_are_counted(
    v: GateView,
    id: Seq<char>,
    pool: PoolId,
    requester: Option<Seq<u8>>,
    age: Option<Duration>,
    now: int,
)
    requires
        v.metrics is Some,
    ensures
        !v.slots.contains_key(id) ==> ({
            let m = v.metrics->0;
            let next = v.seeded(id, pool, requester, age, now);
            let n = next.metrics->0;
            &&& one_more(m.seeded, n.seeded, pool)
            &&& gauges_shown(m, next, pool)
            &&& n == (MetricsView {
                seeded: n.seeded,
                inflight: n.inflight,
                global_inflight: n.global_inflight,
                ..m
            })
        }),
        v.slots.contains_key(id) ==> ({
            let m = v.metrics->0;
            let next = v.released(id);
            let n = next.metrics->0;
            &&& gauges_shown(m, next, v.slots[id].pool)
            &&& n == (MetricsView {
                inflight: n.inflight,
                global_inflight: n.global_inflight,
                ..m
            })
        }),
{
    match pool {
        PoolId::Range => {},
        PoolId::Agg => {},
    }
    if v.slots.contains_key(id) {
        match v.slots[id].pool {
            PoolId::Range => {},
            PoolId::Agg => {},
        }
    }
}

/// After the reaper, the demand gauges of both pools show how many proposers
/// wait for them.
pub proof fn law_reaper_shows_demand(v: GateView, now: int)
    requires
        v.metrics is Some,
    ensures
        ({
            let next = v.reaped(now);
            let range = next.demand.dom().filter(
                |k: (PoolId, Seq<u8>)| k.0 == PoolId::Range && waits(next, PoolId::Range, k.1, now),
            );
            let agg = next.demand.dom().filter(
                |k: (PoolId, Seq<u8>)| k.0 == PoolId::Agg && waits(next, PoolId::Agg, k.1, now),
            );
            let shown = next.metrics->0.priority_demand;
            shown.range == Some(range.len() as i64) && shown.agg == Some(agg.len() as i64)
        }),
{
    let next = v.reaped(now);
    assert(next.demand.dom().filter(
        |k: (PoolId, Seq<u8>)| k.0 == PoolId::Range && waits(next, PoolId::Range, k.1, now),
    ) =~= crate::demand::waiting_keys(next.demand, PoolId::Range, now, v.priority_ttl.nanos()));
    assert(next.demand.dom().filter(
        |k: (PoolId, Seq<u8>)| k.0 == PoolId::Agg && waits(next, PoolId::Agg, k.1, now),
    ) =~= crate::demand::waiting_keys(next.demand, PoolId::Agg, now, v.priority_ttl.nanos()));
}

/// What is gone is what is missing.
pub proof fn lemma_left_over(v: GateView, next: GateView)
    requires
        v.slots.dom().finite(),
        next.slots.dom().subset_of(v.slots.dom()),
    ensures
        v.slots.dom().difference(next.slots.dom()).len() == v.slots.dom().len()
            - next.slots.dom().len(),
{
    let gone = v.slots.dom().difference(next.slots.dom());
    vstd::set_lib::lemma_len_subset(next.slots.dom(), v.slots.dom());
    vstd::set_lib::lemma_set_disjoint_lens(gone, next.slots.dom());
    assert(gone + next.slots.dom() =~= v.slots.dom());
}

/// A snapshot in numbers: every slot that was handed over is shown or is not,
/// what it takes is what is missing afterwards, a truncated one takes nothing,
/// and no slot changes its admission.
pub proof fn law_snapshot_in_numbers(
    v: GateView,
    live: Set<Seq<char>>,
    partial: bool,
    threshold: u32,
    now: int,
)
    requires
        v.sound(),
    ensures
        ({
            let next = v.reconciled(live, partial, threshold, now);
            let gone = v.gone_ids(live, partial, threshold, now);
            &&& v.present_ids(live).len() + v.absent_ids(live).len() == v.tracked_ids().len()
            &&& gone.len() == v.slots.dom().len() - next.slots.dom().len()
            &&& gone.subset_of(v.absent_ids(live))
            &&& partial ==> next.slots.dom() =~= v.slots.dom()
            &&& forall|id: Seq<char>| #[trigger]
                v.slots.contains_key(id) && v.slots[id].committed_at is None
                    ==> next.slots.contains_key(id) && next.slots[id] == v.slots[id]
            &&& forall|id: Seq<char>| #[trigger]
                next.slots.contains_key(id) ==> v.slots.contains_key(id) && same_admission(
                    v.slots[id],
                    next.slots[id],
                )
        }),
{
    let next = v.reconciled(live, partial, threshold, now);
    law_snapshot_keeps_books(v, live, partial, threshold, now);
    lemma_left_over(v, next);
    let present = v.present_ids(live);
    let absent = v.absent_ids(live);
    vstd::set_lib::lemma_len_subset(present, v.slots.dom());
    vstd::set_lib::lemma_len_subset(absent, v.slots.dom());
    vstd::set_lib::lemma_set_disjoint_lens(present, absent);
    assert(present + absent =~= v.tracked_ids());
}

} // verus!
