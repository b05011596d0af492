//! The state of the admission gate and what each operation makes of it.
use vstd::prelude::*;

use crate::classifier::ClassifierView;
use crate::demand::{fresh_demand, waiting, Demand};
use crate::metrics::MetricsView;
use crate::pool::{PerPool, PoolId, RejectReason, Rejection};
use crate::slots::{lemma_slots_in_insert, lemma_slots_in_remove, lemma_slots_in_same, slots_in,
    SlotView};
use crate::time::{age_secs, elapsed, instant_ok, Duration};

verus! {

/// Why the controller takes slots back by itself.
#[derive(Copy, Clone, PartialEq, Eq, Debug, Structural)]
pub enum Cause {
    /// The slot's deadline has passed.
    Reaped,
    /// The cluster no longer shows the proof.
    Reconciled,
}

/// Everything the controller knows and was told.
#[verifier::ext_equal]
pub struct GateView {
    pub caps: PerPool,
    pub global_cap: Option<usize>,
    pub enforce: bool,
    pub ttl: Duration,
    pub commit_grace: Duration,
    pub classifier: ClassifierView,
    pub ranks: Map<Seq<u8>, u32>,
    pub priority_enable: bool,
    pub priority_ttl: Duration,
    pub counts: PerPool,
    pub slots: Map<Seq<char>, SlotView>,
    pub demand: Map<(PoolId, Seq<u8>), Demand>,
    pub metrics: Option<MetricsView>,
    /// The latest reading of the clock.
    pub last: Duration,
}

/// How many slots of `pool` have an id in `gone`.
pub open spec fn gone_in(
    slots: Map<Seq<char>, SlotView>,
    gone: Set<Seq<char>>,
    pool: PoolId,
) -> nat {
    slots.dom().filter(|id: Seq<char>| gone.contains(id) && slots[id].pool == pool).len()
}

/// The number as a gauge value.
pub open spec fn gauge_value(n: int) -> i64 {
    n as i64
}

impl MetricsView {
    /// The metrics after `r` range and `a` aggregation slots were taken back,
    /// which left `counts` in flight.
    pub open spec fn dropped(self, r: nat, a: nat, counts: PerPool, cause: Cause) -> Self {
        let inflight = crate::metrics::PoolGauge {
            range: if r > 0 {
                Some(counts.range as i64)
            } else {
                self.inflight.range
            },
            agg: if a > 0 {
                Some(counts.agg as i64)
            } else {
                self.inflight.agg
            },
        };
        let global_inflight = if r + a > 0 {
            counts.sum() as i64
        } else {
            self.global_inflight
        };
        match cause {
            Cause::Reaped => MetricsView {
                inflight,
                global_inflight,
                reaped: self.reaped.plus(PoolId::Range, r).plus(PoolId::Agg, a),
                ..self
            },
            Cause::Reconciled => MetricsView {
                inflight,
                global_inflight,
                reconciled: self.reconciled.plus(PoolId::Range, r).plus(PoolId::Agg, a),
                ..self
            },
        }
    }

    /// The metrics after one slot of `pool` was taken back.
    pub open spec fn caused(self, pool: PoolId, cause: Cause) -> Self {
        match cause {
            Cause::Reaped => MetricsView { reaped: self.reaped.plus(pool, 1), ..self },
            Cause::Reconciled => MetricsView { reconciled: self.reconciled.plus(pool, 1), ..self },
        }
    }
}

/// Who holds a slot, as a label: `unknown` when nobody is recorded,
/// `unauthenticated` for the zero address, otherwise `0x` and the address in
/// lower-case hex.
pub open spec fn holder_label(requester: Option<Seq<u8>>) -> Seq<char> {
    match requester {
        None => "unknown"@,
        Some(r) => if r.len() == 0 {
            "unknown"@
        } else if forall|i: int| 0 <= i < r.len() ==> #[trigger] r[i] == 0 {
            "unauthenticated"@
        } else {
            "0x"@ + crate::hexadecimal::hex_text(r)
        },
    }
}

/// The series that a slot belongs to.
pub open spec fn holder(slot: SlotView) -> (PoolId, Seq<char>) {
    (slot.pool, holder_label(slot.requester))
}

/// `age` is the age of the oldest slot of the series `key`.
#[verifier::opaque]
pub open spec fn is_oldest(
    slots: Map<Seq<char>, SlotView>,
    key: (PoolId, Seq<char>),
    now: int,
    age: u64,
) -> bool {
    &&& exists|id: Seq<char>| #[trigger]
        slots.contains_key(id) && holder(slots[id]) == key && age_secs(now, slots[id].admitted_at)
            == age
    &&& forall|id: Seq<char>| #[trigger]
        slots.contains_key(id) && holder(slots[id]) == key ==> age_secs(
            now,
            slots[id].admitted_at,
        ) <= age
}

/// The age of the oldest slot of each series, in whole seconds.
pub open spec fn oldest_ages(slots: Map<Seq<char>, SlotView>, now: int) -> Map<
    (PoolId, Seq<char>),
    i64,
> {
    Map::new(
        |key: (PoolId, Seq<char>)|
            exists|id: Seq<char>| #[trigger] slots.contains_key(id) && holder(slots[id]) == key,
        |key: (PoolId, Seq<char>)| (choose|age: u64| is_oldest(slots, key, now, age)) as i64,
    )
}

impl GateView {
    /// The state is sound: the tables are finite, every instant is in range,
    /// and no pool counts fewer requests than it has slots.
    pub open spec fn sound(self) -> bool {
        &&& self.slots.dom().finite()
        &&& forall|id: Seq<char>| #[trigger] self.slots.contains_key(id) ==> self.slots[id].wf()
        &&& self.demand.dom().finite()
        &&& forall|k: (PoolId, Seq<u8>)| #[trigger]
            self.demand.contains_key(k) ==> self.demand[k].wf()
        &&& slots_in(self.slots, PoolId::Range) <= self.counts.range
        &&& slots_in(self.slots, PoolId::Agg) <= self.counts.agg
    }

    /// The state is sound, and the total fits in a machine word.
    pub open spec fn wf(self) -> bool {
        self.sound() && self.counts.sum() <= usize::MAX
    }

    /// The controller after its clock read `now`.
    pub open spec fn read(self, now: Duration) -> Self {
        GateView { last: now, ..self }
    }

    /// One more request can be counted.
    pub open spec fn has_room(self) -> bool {
        self.counts.sum() < usize::MAX
    }

    /// If the request is let in, its pool can count it. An enforcing controller
    /// lets in only below a cap, so there the count always fits.
    pub open spec fn countable(self, mode: i32, vk_hash: Seq<u8>) -> bool {
        self.enforce || (self.classifier.pool_of(mode, vk_hash) matches Some(pool)
            ==> self.counts.at(pool) < usize::MAX)
    }

    /// Nothing was asked of the controller yet.
    pub open spec fn unused(self) -> bool {
        &&& self.counts == PerPool { range: 0, agg: 0 }
        &&& self.slots.dom() =~= Set::empty()
        &&& self.demand.dom() =~= Set::empty()
    }

    /// Each pool counts exactly its slots.
    pub open spec fn balanced(self) -> bool {
        &&& slots_in(self.slots, PoolId::Range) == self.counts.range
        &&& slots_in(self.slots, PoolId::Agg) == self.counts.agg
    }

    /// The rank of a proposer; unlisted proposers come last.
    pub open spec fn rank(self, requester: Seq<u8>) -> u32 {
        if self.ranks.contains_key(requester) {
            self.ranks[requester]
        } else {
            u32::MAX
        }
    }

    /// When the current spell of waiting of `requester` began; `now` when it
    /// is not waiting.
    pub open spec fn waiting_since(self, pool: PoolId, requester: Seq<u8>, now: int) -> int {
        let key = (pool, requester);
        if self.demand.contains_key(key) && self.demand[key].fresh(now, self.priority_ttl.nanos()) {
            self.demand[key].first_seen as int
        } else {
            now
        }
    }

    /// The demand under `key` goes before a request of `requester`: another
    /// proposer that still waits for the same pool, with a better rank, or
    /// with the same listed rank and waiting for longer.
    pub open spec fn goes_before(
        self,
        key: (PoolId, Seq<u8>),
        pool: PoolId,
        requester: Seq<u8>,
        now: int,
    ) -> bool {
        let d = self.demand[key];
        let rank = self.rank(requester);
        &&& self.demand.contains_key(key)
        &&& key.0 == pool
        &&& key.1 != requester
        &&& d.fresh(now, self.priority_ttl.nanos())
        &&& (d.rank < rank || (d.rank == rank && rank != u32::MAX && d.first_seen
            < self.waiting_since(pool, requester, now)))
    }

    /// Some waiting proposer goes before `requester`.
    pub open spec fn out_ranked(self, pool: PoolId, requester: Seq<u8>, now: int) -> bool {
        exists|key: (PoolId, Seq<u8>)| #[trigger] self.goes_before(key, pool, requester, now)
    }

    /// What speaks against admitting a request, if anything does.
    pub open spec fn objection(self, pool: PoolId, requester: Seq<u8>, now: int) -> Option<
        RejectReason,
    > {
        if self.counts.at(pool) >= self.caps.at(pool) {
            Some(RejectReason::PoolCap)
        } else if self.global_cap is Some && self.counts.sum() >= self.global_cap->0 {
            Some(RejectReason::GlobalCap)
        } else if self.priority_enable && self.out_ranked(pool, requester, now) {
            Some(RejectReason::PriorityYield)
        } else {
            None
        }
    }

    /// The in-flight gauges show the count of `pool`.
    pub open spec fn gauged(self, pool: PoolId) -> Self {
        GateView {
            metrics: match self.metrics {
                Some(m) => Some(m.inflight_set(pool, self.counts.at(pool), self.counts.sum())),
                None => None,
            },
            ..self
        }
    }

    /// The demand gauge of `pool` shows who still waits at `now`.
    pub open spec fn demand_gauged(self, pool: PoolId, now: int) -> Self {
        GateView {
            metrics: match self.metrics {
                Some(m) => Some(
                    MetricsView {
                        priority_demand: m.priority_demand.with(
                            pool,
                            gauge_value(
                                waiting(self.demand, pool, now, self.priority_ttl.nanos()) as int,
                            ),
                        ),
                        ..m
                    },
                ),
                None => None,
            },
            ..self
        }
    }

    /// `requester` was turned away at `now` and waits. Waiting that had gone
    /// stale starts anew. With priority off nothing is recorded.
    pub open spec fn recorded(self, pool: PoolId, requester: Seq<u8>, now: int) -> Self {
        if !self.priority_enable {
            self
        } else {
            GateView {
                demand: self.demand.insert(
                    (pool, requester),
                    Demand {
                        rank: self.rank(requester),
                        first_seen: self.waiting_since(pool, requester, now) as i128,
                        last_seen: now as i128,
                    },
                ),
                ..self
            }.demand_gauged(pool, now)
        }
    }

    /// `requester` no longer waits. With priority off nothing is recorded.
    pub open spec fn cleared(self, pool: PoolId, requester: Seq<u8>, now: int) -> Self {
        if !self.priority_enable {
            self
        } else {
            GateView { demand: self.demand.remove((pool, requester)), ..self }.demand_gauged(
                pool,
                now,
            )
        }
    }

    /// `pool` counts one more, and `id` holds `slot`.
    pub open spec fn entered(self, id: Seq<char>, slot: SlotView) -> Self {
        let counted = GateView {
            counts: self.counts.with(slot.pool, (self.counts.at(slot.pool) + 1) as usize),
            ..self
        };
        GateView { slots: self.slots.insert(id, slot), ..counted.gauged(slot.pool) }
    }

    /// The slot that a request gets at `now`.
    pub open spec fn reserved_slot(self, pool: PoolId, requester: Seq<u8>, now: int) -> SlotView {
        SlotView {
            pool,
            requester: Some(requester),
            admitted_at: now,
            deadline: now + self.ttl.nanos(),
            committed_at: None,
            absent_streak: 0,
        }
    }

    /// A request is counted as admitted.
    pub open spec fn counted_admitted(self, pool: PoolId) -> Self {
        GateView {
            metrics: match self.metrics {
                Some(m) => Some(MetricsView { admitted: m.admitted.plus(pool, 1), ..m }),
                None => None,
            },
            ..self
        }
    }

    /// A request is counted as turned away.
    pub open spec fn counted_shed(self, pool: PoolId, reason: RejectReason) -> Self {
        GateView {
            metrics: match self.metrics {
                Some(m) => Some(m.shed(pool, reason)),
                None => None,
            },
            ..self
        }
    }

    /// A request is counted as let through over an objection.
    pub open spec fn counted_would_shed(self, pool: PoolId, reason: RejectReason) -> Self {
        GateView {
            metrics: match self.metrics {
                Some(m) => Some(m.would_shed(pool, reason)),
                None => None,
            },
            ..self
        }
    }

    /// A request is counted as passed through ungated.
    pub open spec fn counted_passed(self) -> Self {
        GateView {
            metrics: match self.metrics {
                Some(m) => Some(m.passed()),
                None => None,
            },
            ..self
        }
    }

    /// What the controller answers a request at `now`. Only an enforcing gate turns
    /// a request away, and only over an objection.
    pub open spec fn answer(
        self,
        mode: i32,
        vk_hash: Seq<u8>,
        requester: Seq<u8>,
        now: int,
    ) -> Result<(), Rejection> {
        match self.classifier.pool_of(mode, vk_hash) {
            None => Ok(()),
            Some(pool) => match self.objection(pool, requester, now) {
                None => Ok(()),
                Some(reason) => if self.enforce {
                    Err(Rejection { pool, reason })
                } else {
                    Ok(())
                },
            },
        }
    }

    /// The controller after a request of `requester` for proof `id` at `now`.
    pub open spec fn acquired(
        self,
        id: Seq<char>,
        mode: i32,
        vk_hash: Seq<u8>,
        requester: Seq<u8>,
        now: int,
    ) -> Self {
        match self.classifier.pool_of(mode, vk_hash) {
            None => self.counted_passed(),
            Some(pool) => {
                let slot = self.reserved_slot(pool, requester, now);
                match self.objection(pool, requester, now) {
                    None => self.entered(id, slot).cleared(pool, requester, now).counted_admitted(
                        pool,
                    ),
                    Some(reason) => if self.enforce {
                        self.recorded(pool, requester, now).counted_shed(pool, reason)
                    } else {
                        self.counted_would_shed(pool, reason).entered(id, slot).recorded(
                            pool,
                            requester,
                            now,
                        ).counted_admitted(pool)
                    },
                }
            },
        }
    }

    /// The slot of a proof that was in flight before the controller started.
    pub open spec fn seeded_slot(
        self,
        pool: PoolId,
        requester: Option<Seq<u8>>,
        age: Option<Duration>,
        now: int,
    ) -> SlotView {
        SlotView {
            pool,
            requester,
            admitted_at: match age {
                Some(a) => now - a.nanos(),
                None => now,
            },
            deadline: now + self.ttl.nanos(),
            committed_at: Some(now),
            absent_streak: 0,
        }
    }

    /// The controller after it learnt of a proof in flight. A tracked id is left
    /// alone.
    pub open spec fn seeded(
        self,
        id: Seq<char>,
        pool: PoolId,
        requester: Option<Seq<u8>>,
        age: Option<Duration>,
        now: int,
    ) -> Self {
        if self.slots.contains_key(id) {
            self
        } else {
            let next = self.entered(id, self.seeded_slot(pool, requester, age, now));
            GateView {
                metrics: match next.metrics {
                    Some(m) => Some(MetricsView { seeded: m.seeded.plus(pool, 1), ..m }),
                    None => None,
                },
                ..next
            }
        }
    }

    /// The controller after the slot of `id`, if any, was given back.
    pub open spec fn released(self, id: Seq<char>) -> Self {
        if !self.slots.contains_key(id) {
            self
        } else {
            let pool = self.slots[id].pool;
            GateView {
                counts: self.counts.with(pool, (self.counts.at(pool) - 1) as usize),
                slots: self.slots.remove(id),
                ..self
            }.gauged(pool)
        }
    }

    /// The controller after a liveness signal for `id` at `now`.
    pub open spec fn touched(self, id: Seq<char>, now: int) -> Self {
        if !self.slots.contains_key(id) {
            self
        } else {
            GateView {
                slots: self.slots.insert(id, self.slots[id].live(now, self.ttl.nanos())),
                ..self
            }
        }
    }

    /// The controller after `id` was handed to the cluster at `now`.
    pub open spec fn committed(self, id: Seq<char>, now: int) -> Self {
        if !self.slots.contains_key(id) {
            self
        } else {
            let slot = SlotView { committed_at: Some(now), ..self.slots[id] };
            GateView { slots: self.slots.insert(id, slot.live(now, self.ttl.nanos())), ..self }
        }
    }

    /// The controller after it took the slots in `gone` back.
    pub open spec fn dropped(self, gone: Set<Seq<char>>, cause: Cause) -> Self {
        let r = gone_in(self.slots, gone, PoolId::Range);
        let a = gone_in(self.slots, gone, PoolId::Agg);
        let counts = PerPool {
            range: (self.counts.range - r) as usize,
            agg: (self.counts.agg - a) as usize,
        };
        GateView {
            counts,
            slots: self.slots.remove_keys(gone),
            metrics: match self.metrics {
                Some(m) => Some(m.dropped(r, a, counts, cause)),
                None => None,
            },
            ..self
        }
    }

    /// The slot of `id` is committed and its deadline has passed.
    pub open spec fn expired(self, id: Seq<char>, now: int) -> bool {
        &&& self.slots.contains_key(id)
        &&& self.slots[id].committed()
        &&& self.slots[id].deadline <= now
    }

    /// The ids whose slots have expired.
    pub open spec fn expired_ids(self, now: int) -> Set<Seq<char>> {
        self.slots.dom().filter(|id: Seq<char>| self.expired(id, now))
    }

    /// The controller after it reclaimed expired slots and forgot stale demand.
    pub open spec fn reaped(self, now: int) -> Self {
        let freed = self.dropped(self.expired_ids(now), Cause::Reaped);
        GateView {
            demand: fresh_demand(self.demand, now, self.priority_ttl.nanos()),
            ..freed
        }.demand_gauged(PoolId::Range, now).demand_gauged(PoolId::Agg, now)
    }

    /// The slot of `id` is committed.
    pub open spec fn tracks(self, id: Seq<char>) -> bool {
        self.slots.contains_key(id) && self.slots[id].committed()
    }

    /// The slot of `id` was handed over so recently that its absence from the
    /// cluster's list means nothing yet.
    pub open spec fn in_grace(self, id: Seq<char>, now: int) -> bool {
        self.slots[id].committed_at is Some && elapsed(now, self.slots[id].committed_at->0)
            < self.commit_grace.nanos()
    }

    /// A snapshot that shows `live` counts as an absent observation of `id`.
    pub open spec fn missed(
        self,
        id: Seq<char>,
        live: Set<Seq<char>>,
        partial: bool,
        now: int,
    ) -> bool {
        self.tracks(id) && !live.contains(id) && !partial && !self.in_grace(id, now)
    }

    /// The slot of `id` after a snapshot that shows `live`.
    pub open spec fn swept_slot(
        self,
        id: Seq<char>,
        live: Set<Seq<char>>,
        partial: bool,
        now: int,
    ) -> SlotView {
        let slot = self.slots[id];
        if self.tracks(id) && live.contains(id) {
            slot.live(now, self.ttl.nanos())
        } else if self.missed(id, live, partial, now) {
            slot.absent()
        } else {
            slot
        }
    }

    /// The controller with the slots in `done` brought up to date by a snapshot.
    pub open spec fn swept(
        self,
        done: Set<Seq<char>>,
        live: Set<Seq<char>>,
        partial: bool,
        now: int,
    ) -> Self {
        GateView {
            slots: Map::new(
                |id: Seq<char>| self.slots.contains_key(id),
                |id: Seq<char>|
                    if done.contains(id) {
                        self.swept_slot(id, live, partial, now)
                    } else {
                        self.slots[id]
                    },
            ),
            ..self
        }
    }

    /// The slot of `id` has now been missing often enough to be taken back.
    pub open spec fn gone(
        self,
        id: Seq<char>,
        live: Set<Seq<char>>,
        partial: bool,
        threshold: u32,
        now: int,
    ) -> bool {
        self.missed(id, live, partial, now) && self.slots[id].absent_streak + 1 >= threshold
    }

    /// The ids that a snapshot takes back.
    pub open spec fn gone_ids(
        self,
        live: Set<Seq<char>>,
        partial: bool,
        threshold: u32,
        now: int,
    ) -> Set<Seq<char>> {
        self.slots.dom().filter(|id: Seq<char>| self.gone(id, live, partial, threshold, now))
    }

    /// The controller after a snapshot that shows `live`.
    pub open spec fn reconciled(
        self,
        live: Set<Seq<char>>,
        partial: bool,
        threshold: u32,
        now: int,
    ) -> Self {
        self.swept(self.slots.dom(), live, partial, now).dropped(
            self.gone_ids(live, partial, threshold, now),
            Cause::Reconciled,
        )
    }

    /// The committed ids.
    pub open spec fn tracked_ids(self) -> Set<Seq<char>> {
        self.slots.dom().filter(|id: Seq<char>| self.tracks(id))
    }

    /// The committed ids that `live` shows.
    pub open spec fn present_ids(self, live: Set<Seq<char>>) -> Set<Seq<char>> {
        self.slots.dom().filter(|id: Seq<char>| self.tracks(id) && live.contains(id))
    }

    /// The committed ids that `live` does not show.
    pub open spec fn absent_ids(self, live: Set<Seq<char>>) -> Set<Seq<char>> {
        self.slots.dom().filter(|id: Seq<char>| self.tracks(id) && !live.contains(id))
    }

    /// The controller after it published the ages of the slots.
    pub open spec fn aged(self, now: int) -> Self {
        GateView {
            metrics: match self.metrics {
                Some(m) => Some(
                    MetricsView { slot_held_seconds: oldest_ages(self.slots, now), ..m },
                ),
                None => None,
            },
            ..self
        }
    }
}

/// Each further id takes one more slot from its pool.
pub proof fn lemma_gone_in_insert(
    slots: Map<Seq<char>, SlotView>,
    gone: Set<Seq<char>>,
    id: Seq<char>,
    pool: PoolId,
)
    requires
        slots.dom().finite(),
        slots.contains_key(id),
        !gone.contains(id),
    ensures
        gone_in(slots, gone.insert(id), pool) == gone_in(slots, gone, pool) + if slots[id].pool
            == pool {
            1nat
        } else {
            0nat
        },
{
    let before = slots.dom().filter(|k: Seq<char>| gone.contains(k) && slots[k].pool == pool);
    let more = gone.insert(id);
    let after = slots.dom().filter(|k: Seq<char>| more.contains(k) && slots[k].pool == pool);
    slots.dom().lemma_len_filter(|k: Seq<char>| gone.contains(k) && slots[k].pool == pool);
    if slots[id].pool == pool {
        assert(after =~= before.insert(id));
    } else {
        assert(after =~= before);
    }
}

/// The slots of a pool are those that go and those that stay.
pub proof fn lemma_gone_and_left(
    slots: Map<Seq<char>, SlotView>,
    gone: Set<Seq<char>>,
    pool: PoolId,
)
    requires
        slots.dom().finite(),
    ensures
        slots_in(slots, pool) == slots_in(slots.remove_keys(gone), pool) + gone_in(
            slots,
            gone,
            pool,
        ),
{
    let rest = slots.remove_keys(gone);
    let all = slots.dom().filter(|k: Seq<char>| slots[k].pool == pool);
    let out = slots.dom().filter(|k: Seq<char>| gone.contains(k) && slots[k].pool == pool);
    let left = rest.dom().filter(|k: Seq<char>| rest[k].pool == pool);
    slots.dom().lemma_len_filter(|k: Seq<char>| slots[k].pool == pool);
    slots.dom().lemma_len_filter(|k: Seq<char>| gone.contains(k) && slots[k].pool == pool);
    assert(left =~= all.difference(out));
    assert(left.disjoint(out));
    assert(all =~= left.union(out));
    vstd::set_lib::lemma_set_disjoint_lens(left, out);
}

/// Entering a slot keeps the state sound.
pub proof fn lemma_entered_wf(v: GateView, id: Seq<char>, slot: SlotView)
    requires
        v.sound(),
        v.counts.at(slot.pool) < usize::MAX,
        slot.wf(),
    ensures
        v.entered(id, slot).sound(),
        v.has_room() ==> v.entered(id, slot).wf(),
{
    let next = v.entered(id, slot);
    let rest = v.slots.remove(id);
    assert(v.slots.insert(id, slot) =~= rest.insert(id, slot));
    assert forall|pool: PoolId| slots_in(next.slots, pool) <= next.counts.at(pool) by {
        lemma_slots_in_insert(rest, id, slot, pool);
        if v.slots.contains_key(id) {
            lemma_slots_in_remove(v.slots, id, pool);
        } else {
            assert(rest =~= v.slots);
        }
        assert(slots_in(v.slots, pool) <= v.counts.at(pool)) by {
            match pool {
                PoolId::Range => {},
                PoolId::Agg => {},
            }
        }
    }
    assert(slots_in(next.slots, PoolId::Range) <= next.counts.at(PoolId::Range));
    assert(slots_in(next.slots, PoolId::Agg) <= next.counts.at(PoolId::Agg));
    assert forall|k: Seq<char>| #[trigger] next.slots.contains_key(k) implies next.slots[k].wf() by {
        if k != id {
            assert(v.slots.contains_key(k));
        }
    }
}

/// Recording demand keeps the state sound.
pub proof fn lemma_recorded_wf(v: GateView, pool: PoolId, requester: Seq<u8>, now: int)
    requires
        v.sound(),
        instant_ok(now),
    ensures
        v.recorded(pool, requester, now).sound(),
        v.wf() ==> v.recorded(pool, requester, now).wf(),
{
    let next = v.recorded(pool, requester, now);
    if v.priority_enable {
        let key = (pool, requester);
        if v.demand.contains_key(key) {
            assert(v.demand[key].wf());
        }
        assert forall|k: (PoolId, Seq<u8>)| #[trigger]
            next.demand.contains_key(k) implies next.demand[k].wf() by {
            if k != key {
                assert(v.demand.contains_key(k));
            }
        }
    }
}

/// Forgetting demand keeps the state sound.
pub proof fn lemma_cleared_wf(v: GateView, pool: PoolId, requester: Seq<u8>, now: int)
    requires
        v.sound(),
    ensures
        v.cleared(pool, requester, now).sound(),
        v.wf() ==> v.cleared(pool, requester, now).wf(),
{
    let next = v.cleared(pool, requester, now);
    assert forall|k: (PoolId, Seq<u8>)| #[trigger]
        next.demand.contains_key(k) implies next.demand[k].wf() by {
        assert(v.demand.contains_key(k));
    }
}

/// Giving a slot back keeps the state sound.
pub proof fn lemma_released_wf(v: GateView, id: Seq<char>)
    requires
        v.sound(),
    ensures
        v.released(id).sound(),
        v.wf() ==> v.released(id).wf(),
        v.slots.contains_key(id) ==> v.counts.at(v.slots[id].pool) >= 1,
{
    let next = v.released(id);
    if v.slots.contains_key(id) {
        lemma_slots_in_remove(v.slots, id, PoolId::Range);
        lemma_slots_in_remove(v.slots, id, PoolId::Agg);
        assert forall|k: Seq<char>| #[trigger]
            next.slots.contains_key(k) implies next.slots[k].wf() by {
            assert(v.slots.contains_key(k));
        }
    }
}

/// A sound change of one slot that stays in its pool keeps the state sound.
pub proof fn lemma_changed_wf(v: GateView, id: Seq<char>, slot: SlotView)
    requires
        v.sound(),
        v.slots.contains_key(id),
        slot.pool == v.slots[id].pool,
        slot.wf(),
    ensures
        (GateView { slots: v.slots.insert(id, slot), ..v }).sound(),
        v.wf() ==> (GateView { slots: v.slots.insert(id, slot), ..v }).wf(),
{
    let next = GateView { slots: v.slots.insert(id, slot), ..v };
    assert(next.slots.dom() =~= v.slots.dom());
    lemma_slots_in_same(v.slots, next.slots, PoolId::Range);
    lemma_slots_in_same(v.slots, next.slots, PoolId::Agg);
    assert forall|k: Seq<char>| #[trigger] next.slots.contains_key(k) implies next.slots[k].wf() by {
        if k != id {
            assert(v.slots.contains_key(k));
        }
    }
}

/// Taking slots back keeps the state sound.
pub proof fn lemma_dropped_wf(v: GateView, gone: Set<Seq<char>>, cause: Cause)
    requires
        v.sound(),
    ensures
        v.dropped(gone, cause).sound(),
        v.wf() ==> v.dropped(gone, cause).wf(),
        gone_in(v.slots, gone, PoolId::Range) <= v.counts.range,
        gone_in(v.slots, gone, PoolId::Agg) <= v.counts.agg,
{
    let next = v.dropped(gone, cause);
    assert(next.slots.dom() =~= v.slots.dom().difference(gone));
    lemma_gone_and_left(v.slots, gone, PoolId::Range);
    lemma_gone_and_left(v.slots, gone, PoolId::Agg);
    assert forall|k: Seq<char>| #[trigger] next.slots.contains_key(k) implies next.slots[k].wf() by {
        assert(v.slots.contains_key(k));
    }
}

/// Taking nothing back changes nothing.
pub proof fn lemma_dropped_none(v: GateView, cause: Cause)
    ensures
        v.dropped(Set::empty(), cause) == v,
{
    let none = Set::<Seq<char>>::empty();
    lemma_gone_in_none(v.slots, PoolId::Range);
    lemma_gone_in_none(v.slots, PoolId::Agg);
    assert(v.slots.remove_keys(none) =~= v.slots);
}

/// No id takes no slot.
proof fn lemma_gone_in_none(slots: Map<Seq<char>, SlotView>, pool: PoolId)
    ensures
        gone_in(slots, Set::empty(), pool) == 0,
{
    let none = Set::<Seq<char>>::empty();
    assert(slots.dom().filter(|k: Seq<char>| none.contains(k) && slots[k].pool == pool) =~= none);
}

/// Taking one more slot back: what a single release and its count do.
pub proof fn lemma_dropped_one_more(
    v: GateView,
    gone: Set<Seq<char>>,
    id: Seq<char>,
    cause: Cause,
)
    requires
        v.sound(),
        v.slots.contains_key(id),
        !gone.contains(id),
    ensures
        ({
            let before = v.dropped(gone, cause);
            let one = before.released(id);
            let counted = GateView {
                metrics: match one.metrics {
                    Some(m) => Some(m.caused(v.slots[id].pool, cause)),
                    None => None,
                },
                ..one
            };
            &&& before.slots.contains_key(id)
            &&& before.slots[id] == v.slots[id]
            &&& counted == v.dropped(gone.insert(id), cause)
        }),
{
    let before = v.dropped(gone, cause);
    let after = v.dropped(gone.insert(id), cause);
    lemma_dropped_wf(v, gone, cause);
    lemma_dropped_wf(v, gone.insert(id), cause);
    lemma_gone_in_insert(v.slots, gone, id, PoolId::Range);
    lemma_gone_in_insert(v.slots, gone, id, PoolId::Agg);
    assert(before.slots.remove(id) =~= after.slots);
    let r = gone_in(v.slots, gone, PoolId::Range);
    let a = gone_in(v.slots, gone, PoolId::Agg);
    if let Some(m) = v.metrics {
        crate::metrics::lemma_counted_step(m.reaped.range, r);
        crate::metrics::lemma_counted_step(m.reaped.agg, a);
        crate::metrics::lemma_counted_step(m.reconciled.range, r);
        crate::metrics::lemma_counted_step(m.reconciled.agg, a);
    }
}

/// Bringing slots up to date with a snapshot keeps ids and pools.
pub proof fn lemma_swept_keeps(
    v: GateView,
    done: Set<Seq<char>>,
    live: Set<Seq<char>>,
    partial: bool,
    now: int,
)
    requires
        v.sound(),
    ensures
        v.swept(done, live, partial, now).slots.dom() == v.slots.dom(),
        forall|p: PoolId| #[trigger]
            slots_in(v.swept(done, live, partial, now).slots, p) == slots_in(v.slots, p),
{
    let next = v.swept(done, live, partial, now);
    assert(next.slots.dom() =~= v.slots.dom());
    assert forall|p: PoolId| #[trigger] slots_in(next.slots, p) == slots_in(v.slots, p) by {
        lemma_slots_in_same(v.slots, next.slots, p);
    }
}

/// Maps that agree on ids and pools lose alike.
proof fn lemma_gone_in_same(
    x: Map<Seq<char>, SlotView>,
    y: Map<Seq<char>, SlotView>,
    gone: Set<Seq<char>>,
    pool: PoolId,
)
    requires
        x.dom() == y.dom(),
        forall|id: Seq<char>| #[trigger] x.contains_key(id) ==> x[id].pool == y[id].pool,
    ensures
        gone_in(x, gone, pool) == gone_in(y, gone, pool),
{
    assert(x.dom().filter(|k: Seq<char>| gone.contains(k) && x[k].pool == pool) =~= y.dom().filter(
        |k: Seq<char>| gone.contains(k) && y[k].pool == pool,
    )) by {
        assert forall|k: Seq<char>| x.dom().contains(k) implies x[k].pool == y[k].pool by {
            assert(x.contains_key(k));
        }
    }
}

/// The ids that stay when a snapshot takes back what is gone.
pub open spec fn staying(
    v: GateView,
    live: Set<Seq<char>>,
    partial: bool,
    threshold: u32,
    now: int,
) -> Set<Seq<char>> {
    v.slots.dom().difference(v.gone_ids(live, partial, threshold, now))
}

/// It makes no difference whether a slot that is taken back was brought up to
/// date before.
pub proof fn lemma_reconciled_by_parts(
    v: GateView,
    live: Set<Seq<char>>,
    partial: bool,
    threshold: u32,
    now: int,
)
    requires
        v.sound(),
    ensures
        v.swept(staying(v, live, partial, threshold, now), live, partial, now).dropped(
            v.gone_ids(live, partial, threshold, now),
            Cause::Reconciled,
        ) == v.reconciled(live, partial, threshold, now),
{
    let gone = v.gone_ids(live, partial, threshold, now);
    let part = v.swept(staying(v, live, partial, threshold, now), live, partial, now);
    let full = v.swept(v.slots.dom(), live, partial, now);
    lemma_swept_keeps(v, v.slots.dom(), live, partial, now);
    lemma_swept_keeps(v, staying(v, live, partial, threshold, now), live, partial, now);
    lemma_gone_in_same(part.slots, full.slots, gone, PoolId::Range);
    lemma_gone_in_same(part.slots, full.slots, gone, PoolId::Agg);
    assert(part.slots.remove_keys(gone) =~= full.slots.remove_keys(gone));
}

/// Bringing slots that stay up to date keeps the state sound.
pub proof fn lemma_swept_wf(
    v: GateView,
    done: Set<Seq<char>>,
    live: Set<Seq<char>>,
    partial: bool,
    threshold: u32,
    now: int,
)
    requires
        v.sound(),
        0 <= now,
        instant_ok(now + v.ttl.nanos()),
        done.disjoint(v.gone_ids(live, partial, threshold, now)),
    ensures
        v.swept(done, live, partial, now).sound(),
        v.wf() ==> v.swept(done, live, partial, now).wf(),
{
    let next = v.swept(done, live, partial, now);
    lemma_swept_keeps(v, done, live, partial, now);
    assert(slots_in(next.slots, PoolId::Range) <= v.counts.range);
    assert(slots_in(next.slots, PoolId::Agg) <= v.counts.agg);
    assert forall|k: Seq<char>| #[trigger] next.slots.contains_key(k) implies next.slots[k].wf() by {
        assert(v.slots.contains_key(k));
        assert(v.slots[k].wf());
        if done.contains(k) {
            assert(!v.gone_ids(live, partial, threshold, now).contains(k));
            assert(!v.gone(k, live, partial, threshold, now));
        }
    }
}

/// Reaping keeps the state sound.
pub proof fn lemma_reaped_wf(v: GateView, now: int)
    requires
        v.sound(),
    ensures
        v.reaped(now).sound(),
        v.wf() ==> v.reaped(now).wf(),
{
    lemma_dropped_wf(v, v.expired_ids(now), Cause::Reaped);
    let next = v.reaped(now);
    assert(next.demand.dom().subset_of(v.demand.dom()));
    vstd::set_lib::lemma_set_subset_finite(v.demand.dom(), next.demand.dom());
    assert forall|k: (PoolId, Seq<u8>)| #[trigger]
        next.demand.contains_key(k) implies next.demand[k].wf() by {
        assert(v.demand.contains_key(k));
    }
}

} // verus!
