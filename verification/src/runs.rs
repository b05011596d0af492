//! What holds of the controller after any run of operations.
use vstd::prelude::*;

use crate::gate::{lemma_changed_wf, lemma_cleared_wf, lemma_dropped_wf, lemma_entered_wf,
    lemma_reaped_wf, lemma_reconciled_by_parts, lemma_recorded_wf, lemma_released_wf,
    lemma_swept_wf, staying, Cause, GateView};
use crate::laws::{law_acquire_keeps_balance, law_reap_keeps_balance, law_reconcile_keeps_balance,
    law_release_keeps_balance, law_seed_keeps_balance, law_signals_keep_balance};
use crate::pool::PoolId;
use crate::slots::{slots_in, SlotView};
use crate::time::{instant_ok, Duration, INSTANT_LIMIT};

verus! {

/// One operation.
pub enum Op {
    Acquire { id: Seq<char>, mode: i32, vk_hash: Seq<u8>, requester: Seq<u8> },
    Seed { id: Seq<char>, pool: PoolId, requester: Option<Seq<u8>>, age: Option<Duration> },
    Release { id: Seq<char> },
    Touch { id: Seq<char> },
    Commit { id: Seq<char> },
    /// The clock is read, as every operation that is not given the time does
    /// first.
    Read,
    Reap,
    Reconcile { live: Set<Seq<char>>, partial: bool, threshold: u32 },
    /// The ages of the slots are published.
    Publish,
}

/// An operation at a time on the controller's clock.
pub struct Event {
    pub op: Op,
    pub at: Duration,
}

/// The state after an operation.
pub open spec fn after(v: GateView, e: Event) -> GateView {
    let now = e.at.nanos();
    match e.op {
        Op::Acquire { id, mode, vk_hash, requester } => v.acquired(
            id,
            mode,
            vk_hash,
            requester,
            now,
        ),
        Op::Seed { id, pool, requester, age } => v.seeded(id, pool, requester, age, now),
        Op::Release { id } => v.released(id),
        Op::Touch { id } => v.touched(id, now),
        Op::Commit { id } => v.committed(id, now),
        Op::Read => v.read(e.at),
        Op::Reap => v.reaped(now),
        Op::Reconcile { live, partial, threshold } => v.reconciled(live, partial, threshold, now),
        Op::Publish => v.aged(now),
    }
}

/// The state after a run of operations.
pub open spec fn run(v: GateView, events: Seq<Event>) -> GateView
    decreases events.len(),
{
    if events.len() == 0 {
        v
    } else {
        after(run(v, events.drop_last()), events.last())
    }
}

/// An operation that counts a request finds room in the count of its pool.
pub open spec fn fits(v: GateView, e: Event) -> bool {
    match e.op {
        Op::Acquire { mode, vk_hash, .. } => v.countable(mode, vk_hash),
        Op::Seed { pool, .. } => v.counts.at(pool) < usize::MAX,
        _ => true,
    }
}

/// A request is for an id that holds no slot.
pub open spec fn fresh_id(v: GateView, e: Event) -> bool {
    e.op matches Op::Acquire { id, .. } ==> !v.slots.contains_key(id)
}

/// Spans are far shorter than the instants that are computed with.
proof fn lemma_span_bound(d: Duration)
    ensures
        0 <= d.nanos() < INSTANT_LIMIT / 4,
{
}

/// A request keeps the state sound.
proof fn lemma_acquired_wf(
    v: GateView,
    id: Seq<char>,
    mode: i32,
    vk_hash: Seq<u8>,
    requester: Seq<u8>,
    now: int,
)
    requires
        v.sound(),
        v.countable(mode, vk_hash),
        instant_ok(now),
        instant_ok(now + v.ttl.nanos()),
    ensures
        v.acquired(id, mode, vk_hash, requester, now).sound(),
        v.wf() && v.has_room() ==> v.acquired(id, mode, vk_hash, requester, now).wf(),
{
    if let Some(pool) = v.classifier.pool_of(mode, vk_hash) {
        let slot = v.reserved_slot(pool, requester, now);
        lemma_recorded_wf(v, pool, requester, now);
        if let Some(reason) = v.objection(pool, requester, now) {
            if !v.enforce {
                let w = v.counted_would_shed(pool, reason);
                lemma_entered_wf(w, id, slot);
                lemma_recorded_wf(w.entered(id, slot), pool, requester, now);
            }
        } else {
            lemma_entered_wf(v, id, slot);
            lemma_cleared_wf(v.entered(id, slot), pool, requester, now);
        }
    }
}

/// Every operation keeps the state sound: in particular no pool ever counts
/// fewer requests than it has slots. Where one more request can be counted, the
/// total still fits in a machine word.
pub proof fn law_operation_keeps_sound(v: GateView, e: Event)
    requires
        v.sound(),
        fits(v, e),
    ensures
        after(v, e).sound(),
        v.wf() && v.has_room() ==> after(v, e).wf(),
        v.wf() && !(e.op is Acquire || e.op is Seed) ==> after(v, e).wf(),
{
    let now = e.at.nanos();
    lemma_span_bound(e.at);
    lemma_span_bound(v.ttl);
    match e.op {
        Op::Acquire { id, mode, vk_hash, requester } => {
            lemma_acquired_wf(v, id, mode, vk_hash, requester, now);
        },
        Op::Seed { id, pool, requester, age } => {
            if let Some(a) = age {
                lemma_span_bound(a);
            }
            if !v.slots.contains_key(id) {
                lemma_entered_wf(v, id, v.seeded_slot(pool, requester, age, now));
            }
        },
        Op::Release { id } => {
            lemma_released_wf(v, id);
        },
        Op::Touch { id } => {
            if v.slots.contains_key(id) {
                assert(v.slots[id].wf());
                lemma_changed_wf(v, id, v.slots[id].live(now, v.ttl.nanos()));
            }
        },
        Op::Commit { id } => {
            if v.slots.contains_key(id) {
                assert(v.slots[id].wf());
                let slot = SlotView { committed_at: Some(now), ..v.slots[id] };
                lemma_changed_wf(v, id, slot.live(now, v.ttl.nanos()));
            }
        },
        Op::Read => {},
        Op::Reap => {
            lemma_reaped_wf(v, now);
        },
        Op::Reconcile { live, partial, threshold } => {
            let left = staying(v, live, partial, threshold, now);
            lemma_swept_wf(v, left, live, partial, threshold, now);
            lemma_dropped_wf(
                v.swept(left, live, partial, now),
                v.gone_ids(live, partial, threshold, now),
                Cause::Reconciled,
            );
            lemma_reconciled_by_parts(v, live, partial, threshold, now);
        },
        Op::Publish => {},
    }
}

/// Counts and slots never drift apart: whatever run of operations a balanced
/// controller goes through, each pool counts exactly its slots, as long as no
/// id is requested while it holds a slot.
pub proof fn law_run_keeps_balance(v: GateView, events: Seq<Event>)
    requires
        v.sound(),
        v.balanced(),
        forall|i: int|
            0 <= i < events.len() ==> {
                &&& fits(#[trigger] run(v, events.take(i)), events[i])
                &&& fresh_id(run(v, events.take(i)), events[i])
            },
    ensures
        run(v, events).sound(),
        run(v, events).balanced(),
    decreases events.len(),
{
    if events.len() > 0 {
        let rest = events.drop_last();
        let n = events.len() - 1;
        assert(events.take(n) =~= rest);
        assert forall|i: int| 0 <= i < rest.len() implies {
            &&& fits(#[trigger] run(v, rest.take(i)), rest[i])
            &&& fresh_id(run(v, rest.take(i)), rest[i])
        } by {
            assert(rest.take(i) =~= events.take(i));
            assert(fits(run(v, events.take(i)), events[i]));
        }
        law_run_keeps_balance(v, rest);
        let w = run(v, rest);
        let e = events.last();
        let now = e.at.nanos();
        assert(fits(run(v, events.take(n)), events[n]));
        assert(fits(w, e) && fresh_id(w, e));
        law_operation_keeps_sound(w, e);
        match e.op {
            Op::Acquire { id, mode, vk_hash, requester } => {
                law_acquire_keeps_balance(w, id, mode, vk_hash, requester, now);
            },
            Op::Seed { id, pool, requester, age } => {
                law_seed_keeps_balance(w, id, pool, requester, age, now);
            },
            _ => {
                law_operation_takes_only(w, e);
            },
        }
    }
}

/// No count exceeds its cap.
pub open spec fn within_caps(v: GateView) -> bool {
    &&& v.counts.range <= v.caps.range
    &&& v.counts.agg <= v.caps.agg
    &&& v.global_cap matches Some(g) ==> v.counts.sum() <= g
}

/// The settings stay what they are.
pub open spec fn same_policy(a: GateView, b: GateView) -> bool {
    &&& a.caps == b.caps
    &&& a.global_cap == b.global_cap
    &&& a.enforce == b.enforce
}

/// An operation that neither requests nor seeds takes slots back at most: no
/// count grows, so what is within the caps stays there, and counts stay in step
/// with slots.
pub proof fn law_operation_takes_only(v: GateView, e: Event)
    requires
        v.sound(),
        !(e.op is Acquire),
        !(e.op is Seed),
    ensures
        after(v, e).sound(),
        v.wf() ==> after(v, e).wf(),
        v.balanced() ==> after(v, e).balanced(),
        same_policy(v, after(v, e)),
        after(v, e).counts.range <= v.counts.range,
        after(v, e).counts.agg <= v.counts.agg,
        within_caps(v) ==> within_caps(after(v, e)),
{
    let now = e.at.nanos();
    law_operation_keeps_sound(v, e);
    match e.op {
        Op::Release { id } => {
            lemma_released_wf(v, id);
            if v.balanced() {
                law_release_keeps_balance(v, id);
            }
        },
        Op::Touch { id } => {
            if v.balanced() {
                law_signals_keep_balance(v, id, now);
            }
        },
        Op::Commit { id } => {
            if v.balanced() {
                law_signals_keep_balance(v, id, now);
            }
        },
        Op::Reap => {
            lemma_dropped_wf(v, v.expired_ids(now), Cause::Reaped);
            if v.balanced() {
                law_reap_keeps_balance(v, now);
            }
        },
        Op::Reconcile { live, partial, threshold } => {
            let left = staying(v, live, partial, threshold, now);
            lemma_span_bound(e.at);
            lemma_span_bound(v.ttl);
            lemma_swept_wf(v, left, live, partial, threshold, now);
            lemma_dropped_wf(
                v.swept(left, live, partial, now),
                v.gone_ids(live, partial, threshold, now),
                Cause::Reconciled,
            );
            lemma_reconciled_by_parts(v, live, partial, threshold, now);
            if v.balanced() {
                law_reconcile_keeps_balance(v, live, partial, threshold, now);
            }
        },
        _ => {},
    }
}

/// Whatever run of operations an enforcing controller within its caps goes
/// through, seeding aside, no count ever exceeds its cap.
pub proof fn law_run_stays_within_caps(v: GateView, events: Seq<Event>)
    requires
        v.sound(),
        v.enforce,
        within_caps(v),
        forall|i: int| 0 <= i < events.len() ==> !((#[trigger] events[i]).op is Seed),
    ensures
        run(v, events).sound(),
        same_policy(v, run(v, events)),
        within_caps(run(v, events)),
    decreases events.len(),
{
    if events.len() > 0 {
        let rest = events.drop_last();
        let n = events.len() - 1;
        assert forall|i: int| 0 <= i < rest.len() implies !((#[trigger] rest[i]).op is Seed) by {
            assert(rest[i] == events[i]);
        }
        law_run_stays_within_caps(v, rest);
        let w = run(v, rest);
        let e = events.last();
        assert(e == events[n]);
        law_operation_keeps_sound(w, e);
        lemma_operation_within_caps(w, e);
    }
}

/// The cap is an authoritative aggregate: whatever is asked of a new enforcing
/// controller, seeding aside, and however it answers, no pool and not all pools
/// together ever hold more than their cap.
pub proof fn law_caps_are_authoritative(v: GateView, events: Seq<Event>)
    requires
        v.unused(),
        v.enforce,
        forall|i: int| 0 <= i < events.len() ==> !((#[trigger] events[i]).op is Seed),
    ensures
        run(v, events).sound(),
        same_policy(v, run(v, events)),
        within_caps(run(v, events)),
{
    lemma_unused_wf(v);
    law_run_stays_within_caps(v, events);
}

/// A controller of which nothing was asked is sound.
proof fn lemma_unused_wf(v: GateView)
    requires
        v.unused(),
    ensures
        v.wf(),
{
    assert forall|p: PoolId| slots_in(v.slots, p) == 0 by {
        assert(v.slots.dom().filter(|id: Seq<char>| v.slots[id].pool == p) =~= Set::empty());
    }
}

/// No operation but seeding takes an enforcing controller over a cap.
proof fn lemma_operation_within_caps(v: GateView, e: Event)
    requires
        v.sound(),
        v.enforce,
        within_caps(v),
        !(e.op is Seed),
    ensures
        same_policy(v, after(v, e)),
        within_caps(after(v, e)),
{
    if !(e.op is Acquire) {
        law_operation_takes_only(v, e);
    }
}

} // verus!
