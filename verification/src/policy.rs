//! Whom the admission gate lets in, said of its state alone: counts, caps,
//! ranks and waiting times.
use vstd::prelude::*;

use crate::gate::GateView;
use crate::pool::{PerPool, PoolId, RejectReason, Rejection};
use crate::runs::{after, run, Event, Op};
use crate::slots::SlotView;
use crate::time::Duration;

verus! {

/// What is held for one of the two pools.
pub open spec fn share(p: PerPool, pool: PoolId) -> int {
    if pool is Range {
        p.range as int
    } else {
        p.agg as int
    }
}

/// A span in nanoseconds.
pub open spec fn length(d: Duration) -> int {
    d.secs * 1_000_000_000 + d.subsec_nanos
}

/// The rank that the settings list for a proposer: the last of all ranks for
/// one that they do not list.
pub open spec fn listed(v: GateView, who: Seq<u8>) -> int {
    if v.ranks.contains_key(who) {
        v.ranks[who] as int
    } else {
        0xffff_ffff
    }
}

/// `who` was turned away from `pool` so recently that it counts as waiting.
pub open spec fn waits(v: GateView, pool: PoolId, who: Seq<u8>, now: int) -> bool {
    v.demand.contains_key((pool, who)) && now - v.demand[(pool, who)].last_seen <= length(
        v.priority_ttl,
    )
}

/// Since when `who` has been waiting: since now, if it is not waiting yet.
pub open spec fn since(v: GateView, pool: PoolId, who: Seq<u8>, now: int) -> int {
    if waits(v, pool, who, now) {
        v.demand[(pool, who)].first_seen as int
    } else {
        now
    }
}

/// Neither the cap of `pool` nor the global cap is reached.
pub open spec fn below_caps(v: GateView, pool: PoolId) -> bool {
    &&& share(v.counts, pool) < share(v.caps, pool)
    &&& v.global_cap matches Some(g) ==> v.counts.range + v.counts.agg < g
}

/// Somebody else who waits for `pool` has a better rank than `requester`, or the
/// same listed rank and has waited for longer.
pub open spec fn is_behind(v: GateView, pool: PoolId, requester: Seq<u8>, now: int) -> bool {
    exists|w: Seq<u8>|
        {
            let d = v.demand[(pool, w)];
            &&& w != requester
            &&& #[trigger] waits(v, pool, w, now)
            &&& d.rank < listed(v, requester) || (d.rank == listed(v, requester) && d.rank
                != 0xffff_ffff && d.first_seen < since(v, pool, requester, now))
        }
}

/// A request is behind somebody exactly if somebody goes before it.
pub proof fn lemma_is_behind(v: GateView, pool: PoolId, requester: Seq<u8>, now: int)
    ensures
        is_behind(v, pool, requester, now) <==> v.out_ranked(pool, requester, now),
{
    lemma_plain(v, v.priority_ttl, requester);
    if is_behind(v, pool, requester, now) {
        let w = choose|w: Seq<u8>|
            {
                let d = v.demand[(pool, w)];
                &&& w != requester
                &&& #[trigger] waits(v, pool, w, now)
                &&& d.rank < listed(v, requester) || (d.rank == listed(v, requester) && d.rank
                    != 0xffff_ffff && d.first_seen < since(v, pool, requester, now))
            };
        assert(v.goes_before((pool, w), pool, requester, now));
    }
    if v.out_ranked(pool, requester, now) {
        let key = choose|key: (PoolId, Seq<u8>)| #[trigger]
            v.goes_before(key, pool, requester, now);
        assert(waits(v, pool, key.1, now));
    }
}

/// Spans are counted in nanoseconds, and the helpers of the state agree with
/// the plain fields.
proof fn lemma_plain(v: GateView, d: Duration, who: Seq<u8>)
    ensures
        d.nanos() == length(d),
        v.rank(who) == listed(v, who),
        forall|p: PoolId| #[trigger] v.counts.at(p) == share(v.counts, p),
        forall|p: PoolId| #[trigger] v.caps.at(p) == share(v.caps, p),
        v.counts.sum() == v.counts.range + v.counts.agg,
{
    assert forall|p: PoolId| #[trigger] v.counts.at(p) == share(v.counts, p) by {
        match p {
            PoolId::Range => {},
            PoolId::Agg => {},
        }
    }
    assert forall|p: PoolId| #[trigger] v.caps.at(p) == share(v.caps, p) by {
        match p {
            PoolId::Range => {},
            PoolId::Agg => {},
        }
    }
}

/// The answer is yes, and `id` holds a slot that its pool counts.
pub open spec fn let_in(
    v: GateView,
    id: Seq<char>,
    mode: i32,
    vk_hash: Seq<u8>,
    requester: Seq<u8>,
    now: int,
) -> bool {
    let next = v.acquired(id, mode, vk_hash, requester, now);
    &&& v.answer(mode, vk_hash, requester, now) == Ok::<(), Rejection>(())
    &&& next.slots.contains_key(id)
    &&& next.counts.range + next.counts.agg == v.counts.range + v.counts.agg + 1
}

/// Below the caps nothing is shed on a cap: a request for a pool below its cap,
/// with the total below the global cap, is let in when priority is off or
/// nobody else waits for the pool.
pub proof fn law_free_slot_is_given(
    v: GateView,
    id: Seq<char>,
    mode: i32,
    vk_hash: Seq<u8>,
    requester: Seq<u8>,
    now: int,
    pool: PoolId,
)
    requires
        v.classifier.pool_of(mode, vk_hash) == Some(pool),
        below_caps(v, pool),
        v.priority_enable ==> forall|w: Seq<u8>|
            w != requester ==> !#[trigger] waits(v, pool, w, now),
    ensures
        let_in(v, id, mode, vk_hash, requester, now),
{
    law_nobody_goes_before(v, id, mode, vk_hash, requester, now, pool);
}

/// Nobody yields to a worse rank: if everybody else who waits for the pool has
/// a worse rank, however long they have waited, a request below the caps is let
/// in.
pub proof fn law_worse_rank_never_goes_first(
    v: GateView,
    id: Seq<char>,
    mode: i32,
    vk_hash: Seq<u8>,
    requester: Seq<u8>,
    now: int,
    pool: PoolId,
)
    requires
        v.classifier.pool_of(mode, vk_hash) == Some(pool),
        below_caps(v, pool),
        forall|w: Seq<u8>|
            w != requester && #[trigger] waits(v, pool, w, now) ==> v.demand[(pool, w)].rank
                > listed(v, requester),
    ensures
        let_in(v, id, mode, vk_hash, requester, now),
{
    law_nobody_goes_before(v, id, mode, vk_hash, requester, now, pool);
}

/// A request below the caps is let in unless somebody else who waits for the
/// same pool has a better rank, or the same listed rank and has waited for
/// longer.
pub proof fn law_nobody_goes_before(
    v: GateView,
    id: Seq<char>,
    mode: i32,
    vk_hash: Seq<u8>,
    requester: Seq<u8>,
    now: int,
    pool: PoolId,
)
    requires
        v.classifier.pool_of(mode, vk_hash) == Some(pool),
        below_caps(v, pool),
        v.priority_enable ==> forall|w: Seq<u8>|
            w != requester && #[trigger] waits(v, pool, w, now) ==> {
                let d = v.demand[(pool, w)];
                ||| d.rank > listed(v, requester)
                ||| d.rank == listed(v, requester) && d.rank == 0xffff_ffff
                ||| d.rank == listed(v, requester) && d.first_seen >= since(
                    v,
                    pool,
                    requester,
                    now,
                )
            },
    ensures
        let_in(v, id, mode, vk_hash, requester, now),
{
    lemma_plain(v, v.priority_ttl, requester);
    assert(v.counts.at(pool) < v.caps.at(pool));
    assert(!(v.priority_enable && v.out_ranked(pool, requester, now))) by {
        if v.priority_enable && v.out_ranked(pool, requester, now) {
            let key = choose|key: (PoolId, Seq<u8>)| #[trigger]
                v.goes_before(key, pool, requester, now);
            assert(waits(v, pool, key.1, now));
        }
    }
}

/// A free slot is kept for whoever goes first: if somebody else waits for the
/// pool with a better rank, or with the same listed rank and for longer, an
/// enforcing gate turns the request away and says that it yields.
pub proof fn law_request_yields(
    v: GateView,
    mode: i32,
    vk_hash: Seq<u8>,
    requester: Seq<u8>,
    now: int,
    pool: PoolId,
    w: Seq<u8>,
)
    requires
        v.enforce,
        v.priority_enable,
        v.classifier.pool_of(mode, vk_hash) == Some(pool),
        below_caps(v, pool),
        w != requester,
        waits(v, pool, w, now),
        v.demand[(pool, w)].rank < listed(v, requester) || (v.demand[(pool, w)].rank == listed(
            v,
            requester,
        ) && v.demand[(pool, w)].rank != 0xffff_ffff && v.demand[(pool, w)].first_seen < since(
            v,
            pool,
            requester,
            now,
        )),
    ensures
        v.answer(mode, vk_hash, requester, now) == Err::<(), Rejection>(
            Rejection { pool, reason: RejectReason::PriorityYield },
        ),
{
    lemma_plain(v, v.priority_ttl, requester);
    assert(v.counts.at(pool) < v.caps.at(pool));
    assert(v.goes_before((pool, w), pool, requester, now));
}

/// A reached cap sheds, whoever asks: the pool's cap is named first, the global
/// cap when the pool has room.
pub proof fn law_reached_cap_sheds(
    v: GateView,
    mode: i32,
    vk_hash: Seq<u8>,
    requester: Seq<u8>,
    now: int,
    pool: PoolId,
)
    requires
        v.enforce,
        v.classifier.pool_of(mode, vk_hash) == Some(pool),
    ensures
        share(v.counts, pool) >= share(v.caps, pool) ==> v.answer(mode, vk_hash, requester, now)
            == Err::<(), Rejection>(Rejection { pool, reason: RejectReason::PoolCap }),
        share(v.counts, pool) < share(v.caps, pool) && (v.global_cap matches Some(g)
            && v.counts.range + v.counts.agg >= g) ==> v.answer(mode, vk_hash, requester, now)
            == Err::<(), Rejection>(Rejection { pool, reason: RejectReason::GlobalCap }),
{
    lemma_plain(v, v.priority_ttl, requester);
    assert(v.counts.at(pool) == share(v.counts, pool));
    assert(v.caps.at(pool) == share(v.caps, pool));
}

/// A request of a pool that is let in gets a slot of its own, reserved for it
/// from now on until the TTL has passed, and one in the count of its pool. No
/// other slot changes.
pub proof fn law_slot_of_a_request(
    v: GateView,
    id: Seq<char>,
    mode: i32,
    vk_hash: Seq<u8>,
    requester: Seq<u8>,
    now: int,
    pool: PoolId,
)
    requires
        v.countable(mode, vk_hash),
        v.classifier.pool_of(mode, vk_hash) == Some(pool),
        v.answer(mode, vk_hash, requester, now) is Ok,
    ensures
        ({
            let next = v.acquired(id, mode, vk_hash, requester, now);
            let slot = next.slots[id];
            &&& next.slots.contains_key(id)
            &&& slot.pool == pool
            &&& slot.requester == Some(requester)
            &&& slot.admitted_at == now
            &&& slot.deadline == now + length(v.ttl)
            &&& slot.committed_at is None
            &&& slot.absent_streak == 0
            &&& next.slots.remove(id) =~= v.slots.remove(id)
            &&& next.counts.range == v.counts.range + if pool is Range {
                1int
            } else {
                0int
            }
            &&& next.counts.agg == v.counts.agg + if pool is Agg {
                1int
            } else {
                0int
            }
        }),
{
    lemma_plain(v, v.ttl, requester);
    match pool {
        PoolId::Range => {},
        PoolId::Agg => {},
    }
}

/// Whoever is turned away waits from then on, under the rank that is listed for
/// it: it keeps its place if it was waiting, and starts at the end if it was
/// not. With priority off nobody waits. Nobody else's place changes.
pub proof fn law_turned_away_waits(
    v: GateView,
    id: Seq<char>,
    mode: i32,
    vk_hash: Seq<u8>,
    requester: Seq<u8>,
    now: int,
    pool: PoolId,
)
    requires
        v.sound(),
        crate::time::instant_ok(now),
        v.classifier.pool_of(mode, vk_hash) == Some(pool),
        v.answer(mode, vk_hash, requester, now) is Err,
    ensures
        ({
            let next = v.acquired(id, mode, vk_hash, requester, now);
            let d = next.demand[(pool, requester)];
            &&& !v.priority_enable ==> next.demand == v.demand
            &&& v.priority_enable ==> {
                &&& next.demand.contains_key((pool, requester))
                &&& d.rank == listed(v, requester)
                &&& d.last_seen == now
                &&& d.first_seen == since(v, pool, requester, now)
                &&& next.demand.remove((pool, requester)) =~= v.demand.remove((pool, requester))
            }
            &&& next.slots == v.slots
            &&& next.counts == v.counts
        }),
{
    lemma_plain(v, v.priority_ttl, requester);
    if v.demand.contains_key((pool, requester)) {
        assert(v.demand[(pool, requester)].wf());
    }
}

/// Below the caps, whoever is let in before everybody else stops waiting for
/// that pool, and nobody else does.
pub proof fn law_let_in_stops_waiting(
    v: GateView,
    id: Seq<char>,
    mode: i32,
    vk_hash: Seq<u8>,
    requester: Seq<u8>,
    now: int,
    pool: PoolId,
)
    requires
        v.enforce,
        v.classifier.pool_of(mode, vk_hash) == Some(pool),
        v.answer(mode, vk_hash, requester, now) is Ok,
    ensures
        ({
            let next = v.acquired(id, mode, vk_hash, requester, now);
            &&& v.priority_enable ==> !next.demand.contains_key((pool, requester))
            &&& next.demand.remove((pool, requester)) =~= v.demand.remove((pool, requester))
            &&& !v.priority_enable ==> next.demand == v.demand
        }),
{
}

/// A gate that does not enforce lets everybody in, over every cap.
pub proof fn law_dry_run_lets_in(
    v: GateView,
    id: Seq<char>,
    mode: i32,
    vk_hash: Seq<u8>,
    requester: Seq<u8>,
    now: int,
)
    requires
        !v.enforce,
        v.countable(mode, vk_hash),
        v.classifier.pool_of(mode, vk_hash) is Some,
    ensures
        let_in(v, id, mode, vk_hash, requester, now),
{
    lemma_plain(v, v.ttl, requester);
    let pool = v.classifier.pool_of(mode, vk_hash)->0;
    match pool {
        PoolId::Range => {},
        PoolId::Agg => {},
    }
}

/// What was in flight before the controller started gets a committed slot over
/// every cap, back-dated by its age, and one in the count of its pool; an id
/// that holds a slot is left alone.
pub proof fn law_slot_of_a_seed(
    v: GateView,
    id: Seq<char>,
    pool: PoolId,
    requester: Option<Seq<u8>>,
    age: Option<Duration>,
    now: int,
)
    requires
        share(v.counts, pool) < usize::MAX,
    ensures
        ({
            let next = v.seeded(id, pool, requester, age, now);
            let slot = next.slots[id];
            &&& v.slots.contains_key(id) ==> next == v
            &&& !v.slots.contains_key(id) ==> {
                &&& next.slots.contains_key(id)
                &&& slot.pool == pool
                &&& slot.requester == requester
                &&& slot.admitted_at == match age {
                    Some(a) => now - length(a),
                    None => now,
                }
                &&& slot.deadline == now + length(v.ttl)
                &&& slot.committed_at == Some(now)
                &&& slot.absent_streak == 0
                &&& next.slots.remove(id) =~= v.slots
                &&& next.demand == v.demand
                &&& next.counts.range == v.counts.range + if pool is Range {
                    1int
                } else {
                    0int
                }
                &&& next.counts.agg == v.counts.agg + if pool is Agg {
                    1int
                } else {
                    0int
                }
            }
        }),
{
    match pool {
        PoolId::Range => {},
        PoolId::Agg => {},
    }
}

/// A poll refreshes the deadline and ends the absence of its slot, and nothing
/// else. A commit records in addition that the slot was handed over, and when.
pub proof fn law_signals_refresh(v: GateView, id: Seq<char>, now: int)
    ensures
        ({
            let a = v.touched(id, now);
            let b = v.committed(id, now);
            &&& !v.slots.contains_key(id) ==> a == v && b == v
            &&& v.slots.contains_key(id) ==> {
                &&& a.slots.contains_key(id) && b.slots.contains_key(id)
                &&& a.slots[id].deadline == now + length(v.ttl)
                &&& b.slots[id].deadline == now + length(v.ttl)
                &&& a.slots[id].absent_streak == 0 && b.slots[id].absent_streak == 0
                &&& a.slots[id].committed_at == v.slots[id].committed_at
                &&& b.slots[id].committed_at == Some(now)
                &&& same_admission(v.slots[id], a.slots[id])
                &&& same_admission(v.slots[id], b.slots[id])
                &&& a.slots.remove(id) =~= v.slots.remove(id)
                &&& b.slots.remove(id) =~= v.slots.remove(id)
            }
            &&& a.counts == v.counts && b.counts == v.counts
            &&& a.demand == v.demand && b.demand == v.demand
            &&& a.metrics == v.metrics && b.metrics == v.metrics
        }),
{
}

/// Two states of a slot tell the same of who got it, where and when.
pub open spec fn same_admission(a: SlotView, b: SlotView) -> bool {
    &&& a.pool == b.pool
    &&& a.requester == b.requester
    &&& a.admitted_at == b.admitted_at
}

/// The admission of a slot is recorded once: no operation but a new request
/// under its id changes when a slot was got, by whom and in which pool.
pub proof fn law_admission_is_recorded_once(v: GateView, e: Event, id: Seq<char>)
    requires
        v.slots.contains_key(id),
        after(v, e).slots.contains_key(id),
        !(e.op matches Op::Acquire { id: asked, .. } && asked == id),
    ensures
        same_admission(v.slots[id], after(v, e).slots[id]),
{
}

/// No operation changes the settings.
pub proof fn law_settings_stay(v: GateView, e: Event)
    ensures
        ({
            let next = after(v, e);
            &&& next.caps == v.caps
            &&& next.global_cap == v.global_cap
            &&& next.enforce == v.enforce
            &&& next.ttl == v.ttl
            &&& next.commit_grace == v.commit_grace
            &&& next.classifier == v.classifier
            &&& next.ranks == v.ranks
            &&& next.priority_enable == v.priority_enable
            &&& next.priority_ttl == v.priority_ttl
            &&& v.metrics is Some <==> next.metrics is Some
        }),
{
}

/// Giving a slot back takes it out and one off its pool's count, and leaves
/// every other slot and all demand alone.
pub proof fn law_release_gives_back(v: GateView, id: Seq<char>)
    requires
        v.slots.contains_key(id) ==> share(v.counts, v.slots[id].pool) > 0,
    ensures
        ({
            let next = v.released(id);
            &&& next.slots =~= v.slots.remove(id)
            &&& next.demand == v.demand
            &&& !v.slots.contains_key(id) ==> next == v
            &&& v.slots.contains_key(id) ==> {
                &&& next.counts.range == v.counts.range - if v.slots[id].pool is Range {
                    1int
                } else {
                    0int
                }
                &&& next.counts.agg == v.counts.agg - if v.slots[id].pool is Agg {
                    1int
                } else {
                    0int
                }
            }
        }),
{
    if v.slots.contains_key(id) {
        match v.slots[id].pool {
            PoolId::Range => {},
            PoolId::Agg => {},
        }
    }
}

/// Whoever holds a slot through a run of operations without asking for it again
/// holds it as of the time at which it was got, in the same pool and under the
/// same name, however often it was polled, handed over or reconciled.
pub proof fn law_admission_outlasts_a_run(v: GateView, events: Seq<Event>, id: Seq<char>)
    requires
        forall|k: int|
            0 <= k <= events.len() ==> #[trigger] run(v, events.take(k)).slots.contains_key(id),
        forall|k: int|
            0 <= k < events.len() ==> !((#[trigger] events[k]).op matches Op::Acquire {
                id: asked,
                ..
            } && asked == id),
    ensures
        same_admission(v.slots[id], run(v, events).slots[id]),
    decreases events.len(),
{
    assert(events.take(events.len() as int) =~= events);
    assert(run(v, events.take(0)).slots.contains_key(id));
    if events.len() > 0 {
        let rest = events.drop_last();
        assert forall|k: int| 0 <= k <= rest.len() implies #[trigger] run(
            v,
            rest.take(k),
        ).slots.contains_key(id) by {
            assert(rest.take(k) =~= events.take(k));
        }
        law_admission_outlasts_a_run(v, rest, id);
        assert(rest.take(rest.len() as int) =~= rest);
        assert(run(v, rest.take(rest.len() as int)).slots.contains_key(id));
        assert(run(v, events.take(events.len() as int)).slots.contains_key(id));
        law_admission_is_recorded_once(run(v, rest), events.last(), id);
    }
}

/// A gate that does not enforce keeps book of waiting all the same: a request
/// over a cap or behind somebody waits like one that was turned away, and any
/// other stops waiting.
pub proof fn law_dry_run_waits(
    v: GateView,
    id: Seq<char>,
    mode: i32,
    vk_hash: Seq<u8>,
    requester: Seq<u8>,
    now: int,
    pool: PoolId,
)
    requires
        v.sound(),
        crate::time::instant_ok(now),
        !v.enforce,
        v.classifier.pool_of(mode, vk_hash) == Some(pool),
    ensures
        ({
            let next = v.acquired(id, mode, vk_hash, requester, now);
            let d = next.demand[(pool, requester)];
            &&& !v.priority_enable ==> next.demand == v.demand
            &&& next.demand.remove((pool, requester)) =~= v.demand.remove((pool, requester))
            &&& v.priority_enable && (!below_caps(v, pool) || is_behind(v, pool, requester, now))
                ==> {
                &&& next.demand.contains_key((pool, requester))
                &&& d.rank == listed(v, requester)
                &&& d.last_seen == now
                &&& d.first_seen == since(v, pool, requester, now)
            }
            &&& v.priority_enable && below_caps(v, pool) && !is_behind(v, pool, requester, now)
                ==> !next.demand.contains_key((pool, requester))
        }),
{
    lemma_plain(v, v.priority_ttl, requester);
    assert(v.counts.at(pool) == share(v.counts, pool));
    assert(v.caps.at(pool) == share(v.caps, pool));
    if v.demand.contains_key((pool, requester)) {
        assert(v.demand[(pool, requester)].wf());
    }
    lemma_is_behind(v, pool, requester, now);
}

/// Reading the clock is remembered, and changes nothing else.
pub proof fn law_reading_changes_nothing(v: GateView, now: Duration)
    ensures
        v.read(now).last == now,
        v.read(now).slots == v.slots,
        v.read(now).counts == v.counts,
        v.read(now).demand == v.demand,
        v.read(now).metrics == v.metrics,
{
}

/// When a request is turned away: by an enforcing gate alone, and there exactly
/// if a cap is reached or, with priority on, somebody goes before.
pub proof fn law_turned_away_exactly(
    v: GateView,
    mode: i32,
    vk_hash: Seq<u8>,
    requester: Seq<u8>,
    now: int,
)
    ensures
        v.answer(mode, vk_hash, requester, now) is Err <==> {
            &&& v.enforce
            &&& v.classifier.pool_of(mode, vk_hash) matches Some(pool)
            &&& !below_caps(v, pool) || (v.priority_enable && is_behind(v, pool, requester, now))
        },
        v.answer(mode, vk_hash, requester, now) matches Err(e) ==> v.classifier.pool_of(
            mode,
            vk_hash,
        ) == Some(e.pool),
{
    if let Some(pool) = v.classifier.pool_of(mode, vk_hash) {
        lemma_plain(v, v.ttl, requester);
        lemma_is_behind(v, pool, requester, now);
        assert(v.counts.at(pool) == share(v.counts, pool));
        assert(v.caps.at(pool) == share(v.caps, pool));
    }
}

} // verus!
