//! What holds of the admission gate as a whole.
use vstd::prelude::*;

use crate::gate::{lemma_gone_and_left, lemma_released_wf, lemma_swept_keeps, Cause,
    GateView};
use crate::pool::{PoolId, RejectReason};
use crate::slots::{lemma_slots_in_insert, lemma_slots_in_remove, lemma_slots_in_same, slots_in,
    SlotView};
use crate::time::Duration;

verus! {

/// A request that belongs to no pool is let through, and leaves counts, slots
/// and demand alone.
pub proof fn law_unclassified_passes(
    v: GateView,
    id: Seq<char>,
    mode: i32,
    vk_hash: Seq<u8>,
    requester: Seq<u8>,
    now: int,
)
    requires
        v.classifier.pool_of(mode, vk_hash) is None,
    ensures
        v.answer(mode, vk_hash, requester, now) is Ok,
        v.acquired(id, mode, vk_hash, requester, now).counts == v.counts,
        v.acquired(id, mode, vk_hash, requester, now).slots == v.slots,
        v.acquired(id, mode, vk_hash, requester, now).demand == v.demand,
{
}

/// A gate that does not enforce never turns a request away.
pub proof fn law_dry_run_never_rejects(
    v: GateView,
    mode: i32,
    vk_hash: Seq<u8>,
    requester: Seq<u8>,
    now: int,
)
    requires
        !v.enforce,
    ensures
        v.answer(mode, vk_hash, requester, now) is Ok,
{
}

/// A request that is turned away takes no slot and no count.
pub proof fn law_rejection_takes_nothing(
    v: GateView,
    id: Seq<char>,
    mode: i32,
    vk_hash: Seq<u8>,
    requester: Seq<u8>,
    now: int,
)
    requires
        v.answer(mode, vk_hash, requester, now) is Err,
    ensures
        v.enforce,
        v.acquired(id, mode, vk_hash, requester, now).counts == v.counts,
        v.acquired(id, mode, vk_hash, requester, now).slots == v.slots,
{
}

/// An enforcing gate admits a request of a pool only below the caps: afterwards
/// neither the pool's count nor the total exceeds its cap.
pub proof fn law_caps_hold(
    v: GateView,
    id: Seq<char>,
    mode: i32,
    vk_hash: Seq<u8>,
    requester: Seq<u8>,
    now: int,
)
    requires
        v.enforce,
        v.classifier.pool_of(mode, vk_hash) is Some,
        v.answer(mode, vk_hash, requester, now) is Ok,
    ensures
        ({
            let pool = v.classifier.pool_of(mode, vk_hash)->0;
            let next = v.acquired(id, mode, vk_hash, requester, now);
            &&& next.counts.at(pool) == v.counts.at(pool) + 1
            &&& next.counts.at(pool) <= v.caps.at(pool)
            &&& next.counts.sum() == v.counts.sum() + 1
            &&& v.global_cap matches Some(g) ==> next.counts.sum() <= g
            &&& next.slots.contains_key(id)
            &&& !next.slots[id].committed()
        }),
{
}

/// A slot that was just reserved for a new id and given back leaves counts and
/// slots as they were, and demand as the request left it. Giving it back once
/// more changes nothing.
pub proof fn law_release_undoes_acquire(
    v: GateView,
    id: Seq<char>,
    mode: i32,
    vk_hash: Seq<u8>,
    requester: Seq<u8>,
    now: int,
)
    requires
        v.countable(mode, vk_hash),
        !v.slots.contains_key(id),
        v.answer(mode, vk_hash, requester, now) is Ok,
    ensures
        v.acquired(id, mode, vk_hash, requester, now).released(id).counts == v.counts,
        v.acquired(id, mode, vk_hash, requester, now).released(id).slots == v.slots,
        v.acquired(id, mode, vk_hash, requester, now).released(id).demand == v.acquired(
            id,
            mode,
            vk_hash,
            requester,
            now,
        ).demand,
        v.acquired(id, mode, vk_hash, requester, now).released(id).released(id) == v.acquired(
            id,
            mode,
            vk_hash,
            requester,
            now,
        ).released(id),
{
    let next = v.acquired(id, mode, vk_hash, requester, now);
    if v.classifier.pool_of(mode, vk_hash) is Some {
        assert(next.released(id).slots =~= v.slots);
    }
}

/// Giving a slot back twice is giving it back once; an id that holds no slot
/// changes nothing.
pub proof fn law_release_is_idempotent(v: GateView, id: Seq<char>)
    ensures
        v.released(id).released(id) == v.released(id),
        !v.slots.contains_key(id) ==> v.released(id) == v,
        !v.released(id).slots.contains_key(id),
{
}

/// Count and slots cannot drift apart: giving back a slot that is held takes
/// that slot alone, and one off the count of its pool alone.
pub proof fn law_removal_takes_one_slot(v: GateView, id: Seq<char>)
    requires
        v.sound(),
        v.balanced(),
        v.slots.contains_key(id),
    ensures
        ({
            let pool = v.slots[id].pool;
            let next = v.released(id);
            &&& next.slots == v.slots.remove(id)
            &&& next.counts.at(pool) == v.counts.at(pool) - 1
            &&& forall|p: PoolId| p != pool ==> #[trigger] next.counts.at(p) == v.counts.at(p)
            &&& next.demand == v.demand
            &&& next.balanced()
        }),
{
    law_release_keeps_balance(v, id);
    lemma_released_wf(v, id);
}

/// Learning of a proof twice is learning of it once.
pub proof fn law_seed_is_idempotent(
    v: GateView,
    id: Seq<char>,
    pool: PoolId,
    requester: Option<Seq<u8>>,
    age: Option<Duration>,
    now: int,
    again: int,
)
    ensures
        v.seeded(id, pool, requester, age, now).seeded(id, pool, requester, age, again)
            == v.seeded(id, pool, requester, age, now),
{
}

/// A seeded slot shows the proof's real age, whatever the controller's own.
pub proof fn law_seed_keeps_age(
    v: GateView,
    id: Seq<char>,
    pool: PoolId,
    requester: Option<Seq<u8>>,
    age: Duration,
    now: int,
)
    requires
        !v.slots.contains_key(id),
    ensures
        ({
            let next = v.seeded(id, pool, requester, Some(age), now);
            &&& next.slots.contains_key(id)
            &&& next.slots[id].committed()
            &&& crate::time::elapsed(now, next.slots[id].admitted_at) == age.nanos()
        }),
{
}

/// Entering a slot under a new id keeps counts and slots in step.
proof fn lemma_entered_balanced(v: GateView, id: Seq<char>, slot: SlotView)
    requires
        v.sound(),
        v.counts.at(slot.pool) < usize::MAX,
        v.balanced(),
        !v.slots.contains_key(id),
    ensures
        v.entered(id, slot).balanced(),
{
    lemma_slots_in_insert(v.slots, id, slot, PoolId::Range);
    lemma_slots_in_insert(v.slots, id, slot, PoolId::Agg);
}

/// A request for a new id keeps counts and slots in step.
pub proof fn law_acquire_keeps_balance(
    v: GateView,
    id: Seq<char>,
    mode: i32,
    vk_hash: Seq<u8>,
    requester: Seq<u8>,
    now: int,
)
    requires
        v.sound(),
        v.countable(mode, vk_hash),
        v.balanced(),
        !v.slots.contains_key(id),
    ensures
        v.acquired(id, mode, vk_hash, requester, now).balanced(),
{
    if let Some(pool) = v.classifier.pool_of(mode, vk_hash) {
        let slot = v.reserved_slot(pool, requester, now);
        if let Some(reason) = v.objection(pool, requester, now) {
            if !v.enforce {
                lemma_entered_balanced(v.counted_would_shed(pool, reason), id, slot);
            }
        } else {
            lemma_entered_balanced(v, id, slot);
        }
    }
}

/// Learning of a proof keeps counts and slots in step.
pub proof fn law_seed_keeps_balance(
    v: GateView,
    id: Seq<char>,
    pool: PoolId,
    requester: Option<Seq<u8>>,
    age: Option<Duration>,
    now: int,
)
    requires
        v.sound(),
        v.counts.at(pool) < usize::MAX,
        v.balanced(),
    ensures
        v.seeded(id, pool, requester, age, now).balanced(),
{
    if !v.slots.contains_key(id) {
        lemma_entered_balanced(v, id, v.seeded_slot(pool, requester, age, now));
    }
}

/// Giving a slot back keeps counts and slots in step.
pub proof fn law_release_keeps_balance(v: GateView, id: Seq<char>)
    requires
        v.sound(),
        v.balanced(),
    ensures
        v.released(id).balanced(),
{
    if v.slots.contains_key(id) {
        lemma_slots_in_remove(v.slots, id, PoolId::Range);
        lemma_slots_in_remove(v.slots, id, PoolId::Agg);
    }
}

/// A liveness signal and a commit keep counts and slots in step.
pub proof fn law_signals_keep_balance(v: GateView, id: Seq<char>, now: int)
    requires
        v.balanced(),
    ensures
        v.touched(id, now).balanced(),
        v.committed(id, now).balanced(),
{
    if v.slots.contains_key(id) {
        let a = v.touched(id, now);
        let b = v.committed(id, now);
        assert(a.slots.dom() =~= v.slots.dom());
        assert(b.slots.dom() =~= v.slots.dom());
        lemma_slots_in_same(v.slots, a.slots, PoolId::Range);
        lemma_slots_in_same(v.slots, a.slots, PoolId::Agg);
        lemma_slots_in_same(v.slots, b.slots, PoolId::Range);
        lemma_slots_in_same(v.slots, b.slots, PoolId::Agg);
    }
}

/// Reaping keeps counts and slots in step.
pub proof fn law_reap_keeps_balance(v: GateView, now: int)
    requires
        v.sound(),
        v.balanced(),
    ensures
        v.reaped(now).balanced(),
{
    lemma_gone_and_left(v.slots, v.expired_ids(now), PoolId::Range);
    lemma_gone_and_left(v.slots, v.expired_ids(now), PoolId::Agg);
}

/// A snapshot keeps counts and slots in step.
pub proof fn law_reconcile_keeps_balance(
    v: GateView,
    live: Set<Seq<char>>,
    partial: bool,
    threshold: u32,
    now: int,
)
    requires
        v.sound(),
        v.balanced(),
    ensures
        v.reconciled(live, partial, threshold, now).balanced(),
{
    let swept = v.swept(v.slots.dom(), live, partial, now);
    let gone = v.gone_ids(live, partial, threshold, now);
    lemma_swept_keeps(v, v.slots.dom(), live, partial, now);
    assert(slots_in(swept.slots, PoolId::Range) == slots_in(v.slots, PoolId::Range));
    assert(slots_in(swept.slots, PoolId::Agg) == slots_in(v.slots, PoolId::Agg));
    lemma_gone_and_left(swept.slots, gone, PoolId::Range);
    lemma_gone_and_left(swept.slots, gone, PoolId::Agg);
}

/// A reserved slot belongs to its handler: neither the reaper nor a snapshot
/// touches it, however old it is.
pub proof fn law_reserved_is_untouched(
    v: GateView,
    id: Seq<char>,
    live: Set<Seq<char>>,
    partial: bool,
    threshold: u32,
    now: int,
)
    requires
        v.slots.contains_key(id),
        !v.slots[id].committed(),
    ensures
        v.reaped(now).slots.contains_key(id),
        v.reaped(now).slots[id] == v.slots[id],
        v.reconciled(live, partial, threshold, now).slots.contains_key(id),
        v.reconciled(live, partial, threshold, now).slots[id] == v.slots[id],
{
    assert(!v.expired_ids(now).contains(id));
    assert(!v.gone_ids(live, partial, threshold, now).contains(id));
}

/// The reaper takes back exactly the committed slots whose deadline has passed,
/// and leaves the others as they are.
pub proof fn law_reap_takes_expired(v: GateView, id: Seq<char>, now: int)
    requires
        v.slots.contains_key(id),
    ensures
        v.reaped(now).slots.contains_key(id) <==> !(v.slots[id].committed() && v.slots[id].deadline
            <= now),
        v.reaped(now).slots.contains_key(id) ==> v.reaped(now).slots[id] == v.slots[id],
{
    assert(v.expired_ids(now).contains(id) <==> v.expired(id, now));
}

/// A slot that a client polls is safe from the reaper for the whole TTL.
pub proof fn law_touch_spares_from_reaper(v: GateView, id: Seq<char>, at: int, now: int)
    requires
        v.slots.contains_key(id),
        now < at + v.ttl.nanos(),
    ensures
        v.touched(id, at).reaped(now).slots.contains_key(id),
        v.touched(id, at).slots[id].absent_streak == 0,
{
    let next = v.touched(id, at);
    assert(!next.expired_ids(now).contains(id));
}

/// A truncated snapshot takes nothing back.
pub proof fn law_partial_releases_nothing(
    v: GateView,
    live: Set<Seq<char>>,
    threshold: u32,
    now: int,
)
    ensures
        v.reconciled(live, true, threshold, now).slots.dom() == v.slots.dom(),
        v.gone_ids(live, true, threshold, now) == Set::<Seq<char>>::empty(),
        forall|id: Seq<char>| #[trigger]
            v.slots.contains_key(id) ==> v.reconciled(
                live,
                true,
                threshold,
                now,
            ).slots[id].absent_streak <= v.slots[id].absent_streak,
{
    let gone = v.gone_ids(live, true, threshold, now);
    let next = v.reconciled(live, true, threshold, now);
    assert(gone =~= Set::<Seq<char>>::empty());
    assert(next.slots.dom() =~= v.slots.dom());
    assert forall|id: Seq<char>| #[trigger] v.slots.contains_key(id) implies next.slots[id].absent_streak
        <= v.slots[id].absent_streak by {
        assert(next.slots.contains_key(id));
    }
}

/// A committed slot that a snapshot shows is kept: its streak starts anew, and
/// the reaper spares it on the same tick.
pub proof fn law_present_is_kept(
    v: GateView,
    id: Seq<char>,
    live: Set<Seq<char>>,
    partial: bool,
    threshold: u32,
    now: int,
)
    requires
        v.tracks(id),
        live.contains(id),
        v.ttl.nanos() > 0,
    ensures
        ({
            let next = v.reconciled(live, partial, threshold, now);
            &&& next.slots.contains_key(id)
            &&& next.slots[id].absent_streak == 0
            &&& next.slots[id].deadline == now + v.ttl.nanos()
            &&& next.reaped(now).slots.contains_key(id)
        }),
{
    let next = v.reconciled(live, partial, threshold, now);
    assert(!v.gone_ids(live, partial, threshold, now).contains(id));
    assert(!next.expired_ids(now).contains(id));
}

/// What a snapshot does to a committed slot that it does not show: a complete
/// snapshot past the grace counts, and the slot goes exactly when it has now
/// been missing often enough; anything else leaves the slot as it is.
pub proof fn law_absence_is_counted(
    v: GateView,
    id: Seq<char>,
    live: Set<Seq<char>>,
    partial: bool,
    threshold: u32,
    now: int,
)
    requires
        v.sound(),
        v.tracks(id),
        !live.contains(id),
    ensures
        ({
            let next = v.reconciled(live, partial, threshold, now);
            let counts = !partial && !v.in_grace(id, now);
            let streak = v.slots[id].absent_streak;
            &&& next.slots.contains_key(id) <==> !(counts && streak + 1 >= threshold)
            &&& next.slots.contains_key(id) && counts ==> next.slots[id].absent_streak == streak
                + 1
            &&& next.slots.contains_key(id) && !counts ==> next.slots[id] == v.slots[id]
        }),
{
    assert(v.slots[id].wf());
    assert(v.gone_ids(live, partial, threshold, now).contains(id) <==> v.gone(
        id,
        live,
        partial,
        threshold,
        now,
    ));
}

/// With a threshold of two or more, a single absent reply never releases a
/// slot that was alive before it.
pub proof fn law_single_absence_is_harmless(
    v: GateView,
    id: Seq<char>,
    live: Set<Seq<char>>,
    partial: bool,
    threshold: u32,
    now: int,
)
    requires
        v.sound(),
        v.slots.contains_key(id),
        v.slots[id].absent_streak == 0,
        threshold >= 2,
    ensures
        v.reconciled(live, partial, threshold, now).slots.contains_key(id),
{
    assert(v.slots[id].wf());
    assert(!v.gone_ids(live, partial, threshold, now).contains(id));
}

/// A complete snapshot: what it shows, and when it was taken.
pub struct Snapshot {
    pub live: Set<Seq<char>>,
    pub at: int,
}

/// The controller after complete snapshots, one after the other.
pub open spec fn after_snapshots(v: GateView, seen: Seq<Snapshot>, threshold: u32) -> GateView
    decreases seen.len(),
{
    if seen.len() == 0 {
        v
    } else {
        after_snapshots(v, seen.drop_last(), threshold).reconciled(
            seen.last().live,
            false,
            threshold,
            seen.last().at,
        )
    }
}

/// A committed slot past its grace is held through every run of absent complete
/// snapshots shorter than the threshold, and is released by the last of a run
/// that reaches it.
pub proof fn law_sustained_absence_releases(
    v: GateView,
    id: Seq<char>,
    seen: Seq<Snapshot>,
    threshold: u32,
)
    requires
        v.tracks(id),
        v.slots[id].absent_streak == 0,
        0 < seen.len() <= threshold,
        forall|i: int|
            0 <= i < seen.len() ==> {
                &&& !(#[trigger] seen[i]).live.contains(id)
                &&& crate::time::elapsed(seen[i].at, v.slots[id].committed_at->0)
                    >= v.commit_grace.nanos()
            },
    ensures
        after_snapshots(v, seen, threshold).slots.contains_key(id) <==> seen.len() < threshold,
        seen.len() < threshold ==> after_snapshots(v, seen, threshold).slots[id] == (SlotView {
            absent_streak: seen.len() as u32,
            ..v.slots[id]
        }),
        after_snapshots(v, seen, threshold).commit_grace == v.commit_grace,
    decreases seen.len(),
{
    let rest = seen.drop_last();
    let before = after_snapshots(v, rest, threshold);
    let last = seen.last();
    assert(seen[seen.len() - 1] == last);
    if rest.len() > 0 {
        assert forall|i: int| 0 <= i < rest.len() implies {
            &&& !(#[trigger] rest[i]).live.contains(id)
            &&& crate::time::elapsed(rest[i].at, v.slots[id].committed_at->0)
                >= v.commit_grace.nanos()
        } by {
            assert(rest[i] == seen[i]);
        }
        law_sustained_absence_releases(v, id, rest, threshold);
    }
    assert(before.slots.contains_key(id));
    assert(before.slots[id] == (SlotView { absent_streak: rest.len() as u32, ..v.slots[id] }));
    assert(before.commit_grace == v.commit_grace);
    assert(before.gone_ids(last.live, false, threshold, last.at).contains(id) <==> seen.len()
        >= threshold);
}

/// A slot that was just handed to the cluster is spared by every snapshot
/// within the grace.
pub proof fn law_grace_spares(
    v: GateView,
    id: Seq<char>,
    at: int,
    live: Set<Seq<char>>,
    partial: bool,
    threshold: u32,
    now: int,
)
    requires
        v.slots.contains_key(id),
        at <= now < at + v.commit_grace.nanos(),
    ensures
        v.committed(id, at).reconciled(live, partial, threshold, now).slots.contains_key(id),
        v.committed(id, at).reconciled(live, partial, threshold, now).slots[id].absent_streak == 0,
{
    let next = v.committed(id, at);
    assert(!next.gone_ids(live, partial, threshold, now).contains(id));
}

/// With priority off nobody waits and nobody yields.
pub proof fn law_priority_off(
    v: GateView,
    id: Seq<char>,
    mode: i32,
    vk_hash: Seq<u8>,
    requester: Seq<u8>,
    now: int,
)
    requires
        !v.priority_enable,
    ensures
        v.acquired(id, mode, vk_hash, requester, now).demand == v.demand,
        v.answer(mode, vk_hash, requester, now) matches Err(r) ==> r.reason
            != RejectReason::PriorityYield,
{
}

/// A free slot is held for a waiting proposer with a better rank: a request of
/// somebody else yields.
pub proof fn law_better_rank_goes_first(
    v: GateView,
    pool: PoolId,
    requester: Seq<u8>,
    waiter: Seq<u8>,
    now: int,
)
    requires
        v.priority_enable,
        v.counts.at(pool) < v.caps.at(pool),
        v.global_cap matches Some(g) ==> v.counts.sum() < g,
        waiter != requester,
        v.demand.contains_key((pool, waiter)),
        v.demand[(pool, waiter)].fresh(now, v.priority_ttl.nanos()),
        v.demand[(pool, waiter)].rank < v.rank(requester),
    ensures
        v.objection(pool, requester, now) == Some(RejectReason::PriorityYield),
{
    assert(v.goes_before((pool, waiter), pool, requester, now));
}

/// Among proposers of the same listed rank the one that waits for longer goes
/// first, and never yields to the other.
pub proof fn law_first_come_first_served(
    v: GateView,
    pool: PoolId,
    early: Seq<u8>,
    late: Seq<u8>,
    now: int,
)
    requires
        early != late,
        v.rank(early) == v.rank(late),
        v.rank(early) != u32::MAX,
        v.demand.contains_key((pool, early)),
        v.demand.contains_key((pool, late)),
        v.demand[(pool, early)].rank == v.rank(early),
        v.demand[(pool, late)].rank == v.rank(late),
        v.demand[(pool, early)].fresh(now, v.priority_ttl.nanos()),
        v.demand[(pool, late)].fresh(now, v.priority_ttl.nanos()),
        v.demand[(pool, early)].first_seen < v.demand[(pool, late)].first_seen,
    ensures
        v.goes_before((pool, early), pool, late, now),
        !v.goes_before((pool, late), pool, early, now),
{
}

/// Proposers without a rank never yield to each other.
pub proof fn law_unranked_do_not_yield(v: GateView, pool: PoolId, requester: Seq<u8>, now: int)
    requires
        v.rank(requester) == u32::MAX,
        forall|k: (PoolId, Seq<u8>)| #[trigger]
            v.demand.contains_key(k) && k.0 == pool ==> v.demand[k].rank == u32::MAX,
    ensures
        !v.out_ranked(pool, requester, now),
{
    assert forall|k: (PoolId, Seq<u8>)| !#[trigger] v.goes_before(k, pool, requester, now) by {
        if v.demand.contains_key(k) && k.0 == pool {
            assert(v.demand[k].rank == u32::MAX);
        }
    }
}

/// Demand that was not renewed within its TTL holds nothing open, and a reap
/// forgets it.
pub proof fn law_stale_demand_holds_nothing(
    v: GateView,
    pool: PoolId,
    requester: Seq<u8>,
    now: int,
)
    requires
        forall|k: (PoolId, Seq<u8>)| #[trigger]
            v.demand.contains_key(k) && k.0 == pool ==> !v.demand[k].fresh(
                now,
                v.priority_ttl.nanos(),
            ),
    ensures
        !v.out_ranked(pool, requester, now),
        forall|k: (PoolId, Seq<u8>)| k.0 == pool ==> !#[trigger] v.reaped(now).demand.contains_key(
            k,
        ),
{
    assert forall|k: (PoolId, Seq<u8>)| !#[trigger] v.goes_before(k, pool, requester, now) by {
        if v.demand.contains_key(k) && k.0 == pool {
            assert(!v.demand[k].fresh(now, v.priority_ttl.nanos()));
        }
    }
    assert forall|k: (PoolId, Seq<u8>)| k.0 == pool implies !#[trigger] v.reaped(
        now,
    ).demand.contains_key(k) by {
        if v.demand.contains_key(k) {
            assert(!v.demand[k].fresh(now, v.priority_ttl.nanos()));
        }
    }
}

/// A clean admission ends the wait of its proposer.
pub proof fn law_clean_admit_clears_demand(
    v: GateView,
    id: Seq<char>,
    mode: i32,
    vk_hash: Seq<u8>,
    requester: Seq<u8>,
    now: int,
)
    requires
        v.priority_enable,
        v.classifier.pool_of(mode, vk_hash) is Some,
        v.objection(v.classifier.pool_of(mode, vk_hash)->0, requester, now) is None,
    ensures
        v.acquired(id, mode, vk_hash, requester, now).demand == v.demand.remove(
            (v.classifier.pool_of(mode, vk_hash)->0, requester),
        ),
{
}

/// A proposer that is turned away again within the TTL keeps its place; one
/// that comes back later starts anew.
pub proof fn law_waiting_keeps_its_place(v: GateView, pool: PoolId, requester: Seq<u8>, now: int)
    requires
        v.sound(),
        v.priority_enable,
        crate::time::instant_ok(now),
        v.demand.contains_key((pool, requester)),
    ensures
        v.recorded(pool, requester, now).demand[(pool, requester)].first_seen
            == if v.demand[(pool, requester)].fresh(now, v.priority_ttl.nanos()) {
            v.demand[(pool, requester)].first_seen as int
        } else {
            now
        },
        v.recorded(pool, requester, now).demand[(pool, requester)].last_seen == now,
{
    assert(v.demand[(pool, requester)].wf());
}

/// Every in-flight gauge that is shown shows what is counted.
pub open spec fn gauges_true(v: GateView) -> bool {
    v.metrics matches Some(m) ==> {
        &&& m.inflight.range matches Some(n) ==> n == v.counts.range as i64
        &&& m.inflight.agg matches Some(n) ==> n == v.counts.agg as i64
        &&& m.global_inflight == v.counts.sum() as i64
    }
}

/// No operation lets the in-flight gauges drift from the counts.
pub proof fn law_gauges_follow_counts(
    v: GateView,
    id: Seq<char>,
    mode: i32,
    vk_hash: Seq<u8>,
    requester: Seq<u8>,
    pool: PoolId,
    age: Option<Duration>,
    now: int,
)
    requires
        gauges_true(v),
    ensures
        gauges_true(v.acquired(id, mode, vk_hash, requester, now)),
        gauges_true(v.seeded(id, pool, Some(requester), age, now)),
        gauges_true(v.released(id)),
        gauges_true(v.touched(id, now)),
        gauges_true(v.committed(id, now)),
{
}

/// Neither the reaper nor a snapshot lets the in-flight gauges drift from the
/// counts, and publishing ages leaves them alone.
pub proof fn law_sweeps_keep_gauges(
    v: GateView,
    live: Set<Seq<char>>,
    partial: bool,
    threshold: u32,
    now: int,
)
    requires
        v.sound(),
        gauges_true(v),
    ensures
        gauges_true(v.reaped(now)),
        gauges_true(v.reconciled(live, partial, threshold, now)),
        gauges_true(v.aged(now)),
{
    crate::gate::lemma_dropped_wf(v, v.expired_ids(now), Cause::Reaped);
    let swept = v.swept(v.slots.dom(), live, partial, now);
    let gone = v.gone_ids(live, partial, threshold, now);
    lemma_swept_keeps(v, v.slots.dom(), live, partial, now);
    assert(slots_in(swept.slots, PoolId::Range) <= v.counts.range);
    assert(slots_in(swept.slots, PoolId::Agg) <= v.counts.agg);
    lemma_gone_and_left(swept.slots, gone, PoolId::Range);
    lemma_gone_and_left(swept.slots, gone, PoolId::Agg);
}

} // verus!
