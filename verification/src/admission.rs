//! Per-proof-type concurrency admission gate.
//!
//! The gateway is the single fan-in to the shared cluster, so one in-memory
//! counter is an authoritative aggregate cap. Overflow is shed with a
//! retryable answer. The count is per process: more than one replica would
//! multiply the cap rather than share it.
//!
//! Unclassified requests are passed through ungated by design: this is a
//! protective throttle on known proof shapes, not an allowlist.
use vstd::prelude::*;

use dashmap::DashMap;

use crate::ages::{held_rows, tallies, tally, AgeRow};
use crate::classifier::Classifier;
use crate::demand::{demand_entries, demand_get, demand_insert, demand_new, demand_none,
    demand_remove, demand_retain_fresh, demand_rows, entry_key, entry_keys, waiting,
    waiting_keys, Demand};
use crate::gate::{lemma_changed_wf, lemma_cleared_wf, lemma_dropped_none, lemma_dropped_one_more,
    lemma_dropped_wf, lemma_entered_wf, lemma_reaped_wf, lemma_reconciled_by_parts,
    lemma_recorded_wf, lemma_released_wf, lemma_swept_wf, staying, Cause, GateView};
use crate::metrics::{AdmissionMetrics, MetricsView};
use crate::policy::{below_caps, is_behind, law_turned_away_exactly, same_admission};
use crate::pool::{PerPool, PoolId, RejectReason, Rejection};
use crate::slots::{bytes_view, slot_rows, slots_contains, slots_get, slots_ids, slots_in,
    slots_insert, slots_is_empty, slots_new, slots_remove, views, Slot, SlotView};
use crate::tables::{copy_bytes, lemma_filter_take, lemma_push_to_set, lemma_take_all, same_bytes,
    IdSet, RankTable};
use crate::time::{instant_ok, time_since, Clock, Duration};
use crate::upkeep::{law_reaper_takes, law_snapshot_in_numbers, lemma_left_over};

verus! {

/// What a single reconcile tick observed of the cluster's Pending set.
pub enum PendingObservation {
    /// A complete snapshot: the authoritative live set. Present committed slots
    /// are refreshed; absent ones advance their absence streak and are released
    /// once it reaches the threshold.
    Complete(IdSet),
    /// A truncated snapshot. A present sighting is trustworthy, but a slot that
    /// is missing may be on an unseen page, so absence is not concluded.
    Partial(IdSet),
    /// No usable snapshot this tick: every streak is left unchanged.
    Gap,
}

impl PendingObservation {
    /// The snapshot holds no id twice.
    pub open spec fn wf(self) -> bool {
        match self {
            PendingObservation::Complete(live) => live.wf(),
            PendingObservation::Partial(live) => live.wf(),
            PendingObservation::Gap => true,
        }
    }
}

/// How many ids a report lists at most.
pub const ID_SAMPLE_CAP: usize = 64;

/// `ids` lists different ids of `of`: all of them, or as many as a report may
/// list.
pub open spec fn is_sample(ids: Seq<String>, of: Set<Seq<char>>) -> bool {
    &&& views(ids).no_duplicates()
    &&& views(ids).to_set().subset_of(of)
    &&& ids.len() == if of.len() < ID_SAMPLE_CAP {
        of.len() as int
    } else {
        ID_SAMPLE_CAP as int
    }
}

/// What one reconcile pass observed and did, for the log.
#[derive(Debug, Clone)]
pub struct ReconcileReport {
    /// `complete`, `partial` or `skip`.
    pub kind: &'static str,
    /// Size of the Pending set seen this tick (0 for a skip).
    pub live: usize,
    /// COMMITTED slots examined.
    pub committed_tracked: usize,
    /// Committed slots that the Pending set shows.
    pub present: usize,
    /// Committed slots that it does not show.
    pub absent: usize,
    /// Slots released this tick.
    pub released: usize,
    /// Committed ids that the Pending set shows (bounded).
    pub present_ids: Vec<String>,
    /// Committed ids that it does not show (bounded).
    pub absent_ids: Vec<String>,
}

impl ReconcileReport {
    /// Nothing observed, nothing done.
    pub open spec fn is_blank(self) -> bool {
        &&& self.live == 0
        &&& self.committed_tracked == 0
        &&& self.present == 0
        &&& self.absent == 0
        &&& self.released == 0
        &&& self.present_ids@.len() == 0
        &&& self.absent_ids@.len() == 0
    }

    /// The report of a snapshot that shows `live`, on the controller `v` before it.
    pub open spec fn tells(
        self,
        v: GateView,
        live: Set<Seq<char>>,
        partial: bool,
        threshold: u32,
        now: int,
    ) -> bool {
        &&& self.kind@ == if partial {
            "partial"@
        } else {
            "complete"@
        }
        &&& self.live == live.len()
        &&& self.committed_tracked == v.tracked_ids().len()
        &&& self.present == v.present_ids(live).len()
        &&& self.absent == v.absent_ids(live).len()
        &&& self.released == v.gone_ids(live, partial, threshold, now).len()
        &&& is_sample(self.present_ids@, v.present_ids(live))
        &&& is_sample(self.absent_ids@, v.absent_ids(live))
    }
}

impl Default for ReconcileReport {
    fn default() -> (r: Self)
        ensures
            r.kind@ == ""@,
            r.is_blank(),
    {
        ReconcileReport {
            kind: "",
            live: 0,
            committed_tracked: 0,
            present: 0,
            absent: 0,
            released: 0,
            present_ids: Vec::new(),
            absent_ids: Vec::new(),
        }
    }
}

/// What a pass over the committed slots found.
struct Sweep {
    stale: Vec<String>,
    committed_tracked: usize,
    present: usize,
    absent: usize,
    present_ids: Vec<String>,
    absent_ids: Vec<String>,
}

/// Lists one more id of `of`, unless the list is full.
fn sample_push(ids: &mut Vec<String>, id: &String, Ghost(of): Ghost<Set<Seq<char>>>)
    requires
        of.finite(),
        is_sample(old(ids)@, of),
        !of.contains(id@),
    ensures
        is_sample(final(ids)@, of.insert(id@)),
{
    let ghost before = views(ids@);
    if ids.len() < ID_SAMPLE_CAP {
        ids.push(id.clone());
        proof {
            assert(views(ids@) =~= before.push(id@));
            lemma_push_to_set(before, id@);
            assert(!before.to_set().contains(id@));
            assert(!before.contains(id@));
        }
    }
}

/// `f` may answer `b` of a slot.
pub open spec fn says<F: Fn(&Slot) -> bool>(f: F, slot: SlotView, b: bool) -> bool {
    exists|s: &Slot| s@ == slot && #[trigger] call_ensures(f, (s,), b)
}

/// What makes the controller take slots back by itself.
#[derive(Copy, Clone)]
enum Sweeper {
    /// Committed slots whose deadline has passed at this instant.
    Expired(i128),
    /// Committed slots that one more absence brings to this threshold.
    Absent(u32),
}

impl Sweeper {
    /// A slot may be taken back.
    spec fn takes(self, slot: SlotView) -> bool {
        &&& slot.committed()
        &&& match self {
            Sweeper::Expired(now) => slot.deadline <= now,
            Sweeper::Absent(threshold) => slot.absent_streak + 1 >= threshold,
        }
    }

    fn allows(&self, slot: &Slot) -> (b: bool)
        ensures
            b == self.takes(slot@),
    {
        slot.is_committed() && match self {
            Sweeper::Expired(now) => slot.deadline <= *now,
            Sweeper::Absent(threshold) => *threshold == 0 || slot.absent_streak >= *threshold - 1,
        }
    }

    spec fn cause(self) -> Cause {
        match self {
            Sweeper::Expired(_) => Cause::Reaped,
            Sweeper::Absent(_) => Cause::Reconciled,
        }
    }

    fn get_cause(&self) -> (c: Cause)
        ensures
            c == self.cause(),
    {
        match self {
            Sweeper::Expired(_) => Cause::Reaped,
            Sweeper::Absent(_) => Cause::Reconciled,
        }
    }
}

/// Global per-proof-type concurrency gate. Single-instance, in-memory.
pub struct AdmissionController {
    caps: PerPool,
    /// `None`: pools are independent; `Some(n)`: at most `n` in flight in all.
    global_cap: Option<usize>,
    counts: PerPool,
    /// Reservations by proof id.
    slots: DashMap<String, Slot>,
    /// `false`: count and report, never reject.
    enforce: bool,
    /// Backstop lifetime of a committed slot without a liveness signal.
    ttl: Duration,
    /// How long after commit the absence of a proof means nothing.
    commit_grace: Duration,
    classifier: Classifier,
    metrics: Option<AdmissionMetrics>,
    priorities: RankTable,
    /// Outstanding demand, one entry per pool (whether it is the aggregation
    /// pool) and proposer: a proposer is a single priority actor, however many
    /// requests it pipelines.
    demand: DashMap<(bool, Vec<u8>), Demand>,
    priority_enable: bool,
    priority_ttl: Duration,
    clock: Clock,
    /// The latest reading of the clock.
    last: Duration,
}

/// The view of optional metrics.
pub open spec fn metrics_view(m: Option<AdmissionMetrics>) -> Option<MetricsView> {
    match m {
        Some(m) => Some(m@),
        None => None,
    }
}

impl View for AdmissionController {
    type V = GateView;

    closed spec fn view(&self) -> GateView {
        GateView {
            caps: self.caps,
            global_cap: self.global_cap,
            enforce: self.enforce,
            ttl: self.ttl,
            commit_grace: self.commit_grace,
            classifier: self.classifier@,
            ranks: self.priorities@,
            priority_enable: self.priority_enable,
            priority_ttl: self.priority_ttl,
            counts: self.counts,
            slots: slot_rows(self.slots),
            demand: demand_rows(self.demand),
            metrics: metrics_view(self.metrics),
            last: self.last,
        }
    }
}

impl AdmissionController {
    /// The rank table, the metrics and the latest reading are sound.
    pub closed spec fn parts_wf(&self) -> bool {
        &&& self.priorities.wf()
        &&& self.metrics matches Some(m) ==> m.wf()
        &&& self.last.subsec_nanos < 1_000_000_000
    }

    /// The controller is sound.
    pub open spec fn wf(&self) -> bool {
        self.parts_wf() && self@.wf()
    }

    pub fn new(
        classifier: Classifier,
        range_cap: usize,
        agg_cap: usize,
        global_cap: Option<usize>,
        enforce: bool,
        ttl: Duration,
        priorities: RankTable,
        priority_enable: bool,
        priority_ttl: Duration,
    ) -> (g: Self)
        requires
            priorities.wf(),
        ensures
            g.wf(),
            g@ == (GateView {
                caps: PerPool { range: range_cap, agg: agg_cap },
                global_cap,
                enforce,
                ttl,
                commit_grace: Duration { secs: 0, subsec_nanos: 0 },
                classifier: classifier@,
                ranks: priorities@,
                priority_enable,
                priority_ttl,
                counts: PerPool { range: 0, agg: 0 },
                slots: Map::empty(),
                demand: Map::empty(),
                metrics: None,
                last: Duration { secs: 0, subsec_nanos: 0 },
            }),
    {
        let g = AdmissionController {
            caps: PerPool { range: range_cap, agg: agg_cap },
            global_cap,
            counts: PerPool::default(),
            slots: slots_new(),
            enforce,
            ttl,
            commit_grace: Duration::zero(),
            classifier,
            metrics: None,
            priorities,
            demand: demand_new(),
            priority_enable,
            priority_ttl,
            clock: Clock::start(),
            last: Duration::zero(),
        };
        proof {
            assert(g@.slots =~= Map::empty());
            assert(g@.demand =~= Map::empty());
            assert forall|p: PoolId| slots_in(g@.slots, p) == 0 by {
                assert(g@.slots.dom().filter(|id: Seq<char>| g@.slots[id].pool == p)
                    =~= Set::empty());
            }
        }
        g
    }

    /// The same gate, with metrics.
    pub fn with_metrics(self, metrics: AdmissionMetrics) -> (g: Self)
        requires
            self.wf(),
            metrics.wf(),
        ensures
            g.wf(),
            g@ == (GateView { metrics: Some(metrics@), ..self@ }),
    {
        let mut g = self;
        g.metrics = Some(metrics);
        g
    }

    /// The same gate, with a post-commit grace.
    pub fn with_commit_grace(self, grace: Duration) -> (g: Self)
        requires
            self.wf(),
        ensures
            g.wf(),
            g@ == (GateView { commit_grace: grace, ..self@ }),
    {
        let mut g = self;
        g.commit_grace = grace;
        g
    }

    /// The metrics, if the controller has any.
    pub fn metrics(&self) -> (m: Option<&AdmissionMetrics>)
        requires
            self.wf(),
        ensures
            match m {
                Some(m) => self@.metrics == Some(m@) && m.wf(),
                None => self@.metrics is None,
            },
    {
        match &self.metrics {
            Some(m) => Some(m),
            None => None,
        }
    }

    /// The time on the controller's clock, for the operations at a given time.
    /// It never runs back.
    pub fn now(&mut self) -> (d: Duration)
        requires
            old(self).wf(),
        ensures
            final(self).wf(),
            final(self)@ == old(self)@.read(d),
            old(self)@.last.nanos() <= d.nanos(),
            d.subsec_nanos < 1_000_000_000,
    {
        let d = self.clock.now().longer(self.last);
        self.last = d;
        d
    }

    /// How many requests are in flight in a pool.
    pub fn in_flight(&self, pool: PoolId) -> (n: usize)
        ensures
            n == self@.counts.at(pool),
    {
        self.counts.get(pool)
    }

    /// Whether so many more requests can be counted.
    pub fn has_room_for(&self, more: usize) -> (b: bool)
        requires
            self.wf(),
        ensures
            b == (self@.counts.sum() + more <= usize::MAX),
    {
        self.counts.total() <= usize::MAX - more
    }

    /// Whether nobody waits.
    pub fn demand_is_empty(&self) -> (b: bool)
        ensures
            b == (self@.demand.dom() =~= Set::empty()),
    {
        demand_none(&self.demand)
    }

    /// Whether any slot is tracked. The reaper skips the cluster query when
    /// there is nothing to reconcile.
    pub fn has_tracked_slots(&self) -> (b: bool)
        ensures
            b == !(self@.slots.dom() =~= Set::empty()),
    {
        !slots_is_empty(&self.slots)
    }

    /// The pool of a request, without acquiring a slot.
    pub fn classify(&self, mode: i32, vk_hash: &[u8]) -> (p: Option<PoolId>)
        ensures
            p == self@.classifier.pool_of(mode, vk_hash@),
    {
        self.classifier.classify(mode, vk_hash)
    }

    /// Whether `proof_id` holds a slot.
    pub fn has_slot(&self, proof_id: &str) -> (b: bool)
        ensures
            b == self@.slots.contains_key(proof_id@),
    {
        slots_contains(&self.slots, proof_id)
    }

    /// The rank of a proposer; unlisted proposers come last.
    pub fn rank_of(&self, requester: &[u8]) -> (r: u32)
        requires
            self.wf(),
        ensures
            r == self@.rank(requester@),
    {
        match self.priorities.get(requester) {
            Some(r) => r,
            None => u32::MAX,
        }
    }

    fn set_gauges(&mut self, pool: PoolId)
        requires
            old(self).parts_wf(),
            old(self)@.counts.sum() <= usize::MAX,
        ensures
            final(self).parts_wf(),
            final(self)@ == old(self)@.gauged(pool),
    {
        let pool_val: usize = self.counts.get(pool);
        let total: usize = self.counts.total();
        if let Some(m) = &mut self.metrics {
            m.set_gauges(pool, pool_val, total);
        }
    }

    fn metric_admitted(&mut self, pool: PoolId)
        requires
            old(self).parts_wf(),
        ensures
            final(self).parts_wf(),
            final(self)@ == old(self)@.counted_admitted(pool),
    {
        if let Some(m) = &mut self.metrics {
            m.count_admitted(pool);
        }
    }

    fn metric_unclassified(&mut self)
        requires
            old(self).parts_wf(),
        ensures
            final(self).parts_wf(),
            final(self)@ == old(self)@.counted_passed(),
    {
        if let Some(m) = &mut self.metrics {
            m.count_unclassified();
        }
    }

    fn metric_reject(&mut self, pool: PoolId, reason: RejectReason)
        requires
            old(self).parts_wf(),
        ensures
            final(self).parts_wf(),
            final(self)@ == old(self)@.counted_shed(pool, reason),
    {
        if let Some(m) = &mut self.metrics {
            m.count_reject(pool, reason);
        }
    }

    fn metric_would(&mut self, pool: PoolId, reason: RejectReason)
        requires
            old(self).parts_wf(),
        ensures
            final(self).parts_wf(),
            final(self)@ == old(self)@.counted_would_shed(pool, reason),
    {
        if let Some(m) = &mut self.metrics {
            m.count_would(pool, reason);
        }
    }

    fn metric_cause(&mut self, pool: PoolId, cause: Cause)
        requires
            old(self).parts_wf(),
        ensures
            final(self).parts_wf(),
            final(self)@ == (GateView {
                metrics: match old(self)@.metrics {
                    Some(m) => Some(m.caused(pool, cause)),
                    None => None,
                },
                ..old(self)@
            }),
    {
        if let Some(m) = &mut self.metrics {
            match cause {
                Cause::Reaped => {
                    m.count_reaped(pool);
                },
                Cause::Reconciled => {
                    m.count_reconciled(pool);
                },
            }
        }
    }
}

impl AdmissionController {
    /// How many proposers wait for `pool`.
    fn count_waiting(&self, pool: PoolId, now: i128) -> (n: usize)
        requires
            self.wf(),
            instant_ok(now as int),
        ensures
            n == waiting(self@.demand, pool, now as int, self@.priority_ttl.nanos()),
    {
        let entries = demand_entries(&self.demand);
        let ghost rows = self@.demand;
        let ghost keys = entry_keys(entries@);
        let ghost ttl = self.priority_ttl.nanos();
        let ghost p = |k: (PoolId, Seq<u8>)| k.0 == pool && rows[k].fresh(now as int, ttl);
        let mut n: usize = 0;
        let mut i: usize = 0;
        proof {
            lemma_take_all(keys);
            assert(Set::<(PoolId, Seq<u8>)>::empty().filter(p) =~= Set::empty());
        }
        while i < entries.len()
            invariant
                i <= entries@.len(),
                keys == entry_keys(entries@),
                keys.no_duplicates(),
                keys.to_set() == rows.dom(),
                rows == self@.demand,
                self.wf(),
                instant_ok(now as int),
                ttl == self.priority_ttl.nanos(),
                p == (|k: (PoolId, Seq<u8>)| k.0 == pool && rows[k].fresh(now as int, ttl)),
                forall|j: int|
                    0 <= j < entries@.len() ==> (#[trigger] entries@[j]).2 == rows[entry_key(
                        entries@[j],
                    )],
                n <= i,
                n == keys.take(i as int).to_set().filter(p).len(),
            decreases entries@.len() - i,
        {
            proof {
                lemma_filter_take(keys, i as int, p);
                assert(keys[i as int] == entry_key(entries@[i as int]));
                assert(keys.to_set().contains(keys[i as int]));
                assert(rows.contains_key(keys[i as int]));
            }
            if entries[i].0 == pool && entries[i].2.is_fresh(now, self.priority_ttl) {
                n = n + 1;
            }
            i = i + 1;
        }
        proof {
            lemma_take_all(keys);
            assert(rows.dom().filter(p) =~= waiting_keys(rows, pool, now as int, ttl));
        }
        n
    }

    fn metric_demand_gauge(&mut self, pool: PoolId, now: i128)
        requires
            old(self).wf(),
            instant_ok(now as int),
        ensures
            final(self).wf(),
            final(self)@ == old(self)@.demand_gauged(pool, now as int),
    {
        if self.metrics.is_some() {
            let n: usize = self.count_waiting(pool, now);
            if let Some(m) = &mut self.metrics {
                m.set_demand(pool, n);
            }
        }
    }

    /// Is there a fresh demander for `pool` that goes before `requester`:
    /// strictly better rank, or equal rank and waiting for longer?
    fn out_ranked(&self, pool: PoolId, requester: &[u8], rank: u32, now: i128) -> (b: bool)
        requires
            self.wf(),
            instant_ok(now as int),
            rank == self@.rank(requester@),
        ensures
            b == self@.out_ranked(pool, requester@, now as int),
    {
        let first: i128 = match demand_get(&self.demand, pool, copy_bytes(requester)) {
            Some(d) => {
                assert(self@.demand.contains_key((pool, requester@)));
                if d.is_fresh(now, self.priority_ttl) {
                    d.first_seen
                } else {
                    now
                }
            },
            None => now,
        };
        assert(first == self@.waiting_since(pool, requester@, now as int));
        let entries = demand_entries(&self.demand);
        let ghost keys = entry_keys(entries@);
        let mut i: usize = 0;
        while i < entries.len()
            invariant
                i <= entries@.len(),
                keys == entry_keys(entries@),
                keys.to_set() == self@.demand.dom(),
                self.wf(),
                instant_ok(now as int),
                rank == self@.rank(requester@),
                first == self@.waiting_since(pool, requester@, now as int),
                forall|j: int|
                    0 <= j < entries@.len() ==> (#[trigger] entries@[j]).2
                        == self@.demand[entry_key(entries@[j])],
                forall|j: int|
                    0 <= j < i ==> !self@.goes_before(
                        #[trigger] keys[j],
                        pool,
                        requester@,
                        now as int,
                    ),
            decreases entries@.len() - i,
        {
            let ghost key = keys[i as int];
            proof {
                assert(key == entry_key(entries@[i as int]));
                assert(keys.to_set().contains(key));
                assert(self@.demand.contains_key(key));
            }
            let d = entries[i].2;
            if entries[i].0 == pool && !same_bytes(entries[i].1.as_slice(), requester)
                && d.is_fresh(now, self.priority_ttl) && (d.rank < rank || (d.rank == rank && rank
                != u32::MAX && d.first_seen < first)) {
                assert(self@.goes_before(key, pool, requester@, now as int));
                return true;
            }
            assert(!self@.goes_before(key, pool, requester@, now as int));
            i = i + 1;
        }
        assert forall|key: (PoolId, Seq<u8>)| !#[trigger] self@.goes_before(
            key,
            pool,
            requester@,
            now as int,
        ) by {
            if self@.demand.contains_key(key) {
                assert(keys.to_set().contains(key));
                let j = choose|j: int| 0 <= j < keys.len() && keys[j] == key;
                assert(!self@.goes_before(keys[j], pool, requester@, now as int));
            }
        }
        false
    }

    fn record_demand(&mut self, pool: PoolId, requester: &[u8], rank: u32, now: i128)
        requires
            old(self).wf(),
            instant_ok(now as int),
            rank == old(self)@.rank(requester@),
        ensures
            final(self).wf(),
            final(self)@ == old(self)@.recorded(pool, requester@, now as int),
    {
        if !self.priority_enable {
            return ;
        }
        proof {
            lemma_recorded_wf(self@, pool, requester@, now as int);
        }
        let first: i128 = match demand_get(&self.demand, pool, copy_bytes(requester)) {
            Some(d) => {
                assert(self@.demand.contains_key((pool, requester@)));
                if d.is_fresh(now, self.priority_ttl) {
                    d.first_seen
                } else {
                    now
                }
            },
            None => now,
        };
        demand_insert(
            &mut self.demand,
            pool,
            copy_bytes(requester),
            Demand { rank, first_seen: first, last_seen: now },
        );
        self.metric_demand_gauge(pool, now);
    }

    fn clear_demand(&mut self, pool: PoolId, requester: &[u8], now: i128)
        requires
            old(self).wf(),
            instant_ok(now as int),
        ensures
            final(self).wf(),
            final(self)@ == old(self)@.cleared(pool, requester@, now as int),
    {
        if !self.priority_enable {
            return ;
        }
        proof {
            lemma_cleared_wf(self@, pool, requester@, now as int);
        }
        demand_remove(&mut self.demand, pool, copy_bytes(requester));
        self.metric_demand_gauge(pool, now);
    }

    /// Counts one more in the slot's pool and stores the slot.
    fn enter(&mut self, id: &str, slot: Slot)
        requires
            old(self).wf(),
            old(self)@.has_room(),
            slot@.wf(),
        ensures
            final(self).wf(),
            final(self)@ == old(self)@.entered(id@, slot@),
    {
        proof {
            lemma_entered_wf(self@, id@, slot@);
        }
        let pool = slot.pool;
        let n: usize = self.counts.get(pool) + 1;
        *self.counts.get_mut(pool) = n;
        self.set_gauges(pool);
        slots_insert(&mut self.slots, id.to_owned(), slot);
    }
}

impl AdmissionController {
    /// Classifies a request, checks the caps and reserves a slot for
    /// `proof_id`.
    /// - `Ok(())` when admitted (a slot was reserved) or ungated (no slot).
    /// - `Err` only from an enforcing gate over an objection.
    ///
    /// The caller gives the slot back with [`release`](Self::release) if the
    /// request does not reach the cluster, and again (idempotently) on its
    /// terminal status.
    pub fn try_acquire(
        &mut self,
        proof_id: &str,
        mode: i32,
        vk_hash: &[u8],
        requester: &[u8],
    ) -> (r: Result<(), Rejection>)
        requires
            old(self).wf(),
            old(self)@.has_room(),
        ensures
            final(self).wf(),
            exists|now: Duration|
                {
                    let v = #[trigger] old(self)@.read(now);
                    &&& old(self)@.last.nanos() <= now.nanos()
                    &&& final(self)@ == v.acquired(
                        proof_id@,
                        mode,
                        vk_hash@,
                        requester@,
                        now.nanos(),
                    )
                    &&& r == v.answer(mode, vk_hash@, requester@, now.nanos())
                },
    {
        let now = self.now();
        self.try_acquire_at(proof_id, mode, vk_hash, requester, now)
    }

    /// [`try_acquire`](Self::try_acquire) at a given time.
    pub fn try_acquire_at(
        &mut self,
        proof_id: &str,
        mode: i32,
        vk_hash: &[u8],
        requester: &[u8],
        now: Duration,
    ) -> (r: Result<(), Rejection>)
        requires
            old(self).wf(),
            old(self)@.has_room(),
        ensures
            final(self).wf(),
            r == old(self)@.answer(mode, vk_hash@, requester@, now.nanos()),
            final(self)@ == old(self)@.acquired(
                proof_id@,
                mode,
                vk_hash@,
                requester@,
                now.nanos(),
            ),
            old(self)@.classifier.pool_of(mode, vk_hash@) is None ==> r is Ok && final(self)@.slots
                == old(self)@.slots && final(self)@.counts == old(self)@.counts,
            old(self)@.classifier.pool_of(mode, vk_hash@) matches Some(pool) ==> {
                &&& r is Err <==> old(self)@.enforce && (!below_caps(old(self)@, pool) || (
                old(self)@.priority_enable && is_behind(
                    old(self)@,
                    pool,
                    requester@,
                    now.nanos(),
                )))
                &&& r is Err ==> final(self)@.slots == old(self)@.slots && final(self)@.counts
                    == old(self)@.counts
                &&& r is Ok ==> final(self)@.slots.contains_key(proof_id@)
                    && final(self)@.slots[proof_id@].pool == pool
                    && final(self)@.slots[proof_id@].requester == Some(requester@)
                    && final(self)@.slots[proof_id@].admitted_at == now.nanos()
            },
    {
        proof {
            law_turned_away_exactly(self@, mode, vk_hash@, requester@, now.nanos());
        }
        let t: i128 = now.as_nanos();
        let pool = match self.classifier.classify(mode, vk_hash) {
            Some(pool) => pool,
            None => {
                self.metric_unclassified();
                return Ok(());
            },
        };
        let rank: u32 = self.rank_of(requester);
        let pool_over = self.counts.get(pool) >= self.caps.get(pool);
        let global_over = match self.global_cap {
            Some(g) => self.counts.total() >= g,
            None => false,
        };
        let reason = if pool_over {
            Some(RejectReason::PoolCap)
        } else if global_over {
            Some(RejectReason::GlobalCap)
        } else if self.priority_enable && self.out_ranked(pool, requester, rank, t) {
            Some(RejectReason::PriorityYield)
        } else {
            None
        };
        assert(reason == self@.objection(pool, requester@, now.nanos()));
        let slot = Slot {
            pool,
            requester: Some(copy_bytes(requester)),
            admitted_at: t,
            deadline: t + self.ttl.as_nanos(),
            committed_at: None,
            absent_streak: 0,
        };
        assert(slot@ == self@.reserved_slot(pool, requester@, now.nanos()));
        match reason {
            Some(reason) => {
                if self.enforce {
                    self.record_demand(pool, requester, rank, t);
                    self.metric_reject(pool, reason);
                    return Err(Rejection { pool, reason });
                }
                self.metric_would(pool, reason);
                self.enter(proof_id, slot);
                self.record_demand(pool, requester, rank, t);
            },
            None => {
                self.enter(proof_id, slot);
                self.clear_demand(pool, requester, t);
            },
        }
        self.metric_admitted(pool);
        Ok(())
    }

    /// Best-effort restart seed: tracks a proof that was in flight before this
    /// process started, whatever the caps say. A tracked id is left alone.
    ///
    /// A seeded slot is committed: the cluster already runs its proof.
    /// `requester` and `age` come from the cluster's record of the proof; the
    /// slot is back-dated by `age`, so that a restart does not reset it.
    pub fn seed(
        &mut self,
        proof_id: &str,
        pool: PoolId,
        requester: Option<Vec<u8>>,
        age: Option<Duration>,
    )
        requires
            old(self).wf(),
            old(self)@.has_room(),
        ensures
            final(self).wf(),
            exists|now: Duration|
                {
                    &&& old(self)@.last.nanos() <= now.nanos()
                    &&& final(self)@ == (#[trigger] old(self)@.read(now)).seeded(
                        proof_id@,
                        pool,
                        bytes_view(requester),
                        age,
                        now.nanos(),
                    )
                },
    {
        let now = self.now();
        self.seed_at(proof_id, pool, requester, age, now);
    }

    /// [`seed`](Self::seed) at a given time.
    pub fn seed_at(
        &mut self,
        proof_id: &str,
        pool: PoolId,
        requester: Option<Vec<u8>>,
        age: Option<Duration>,
        now: Duration,
    )
        requires
            old(self).wf(),
            old(self)@.has_room(),
        ensures
            final(self).wf(),
            final(self)@ == old(self)@.seeded(
                proof_id@,
                pool,
                bytes_view(requester),
                age,
                now.nanos(),
            ),
            final(self)@.slots.contains_key(proof_id@),
            old(self)@.slots.contains_key(proof_id@) ==> final(self)@ == old(self)@,
            !old(self)@.slots.contains_key(proof_id@) ==> final(self)@.slots[proof_id@].pool == pool
                && final(self)@.slots[proof_id@].committed_at is Some,
    {
        if slots_contains(&self.slots, proof_id) {
            return ;
        }
        let t: i128 = now.as_nanos();
        let admitted_at: i128 = match age {
            Some(a) => t - a.as_nanos(),
            None => t,
        };
        let slot = Slot {
            pool,
            requester,
            admitted_at,
            deadline: t + self.ttl.as_nanos(),
            committed_at: Some(t),
            absent_streak: 0,
        };
        self.enter(proof_id, slot);
        if let Some(m) = &mut self.metrics {
            m.count_seeded(pool);
        }
    }

    /// Removes the slot of `proof_id`, if `still_removable` says so of it, and
    /// takes it off its pool's count: the single way by which a count goes down.
    /// Returns the freed pool, or `None` if nothing was removed.
    pub fn remove_and_dec<F: Fn(&Slot) -> bool>(
        &mut self,
        proof_id: &str,
        still_removable: F,
    ) -> (p: Option<PoolId>)
        requires
            old(self).wf(),
            forall|s: &Slot| #[trigger] call_requires(still_removable, (s,)),
        ensures
            final(self).wf(),
            match p {
                Some(pool) => {
                    &&& old(self)@.slots.contains_key(proof_id@)
                    &&& pool == old(self)@.slots[proof_id@].pool
                    &&& says(still_removable, old(self)@.slots[proof_id@], true)
                    &&& final(self)@ == old(self)@.released(proof_id@)
                },
                None => {
                    &&& old(self)@.slots.contains_key(proof_id@) ==> says(
                        still_removable,
                        old(self)@.slots[proof_id@],
                        false,
                    )
                    &&& final(self)@ == old(self)@
                },
            },
    {
        proof {
            lemma_released_wf(self@, proof_id@);
        }
        match slots_get(&self.slots, proof_id) {
            Some(slot) => {
                if !still_removable(&slot) {
                    return None;
                }
            },
            None => {
                return None;
            },
        }
        match slots_remove(&mut self.slots, proof_id) {
            Some(slot) => {
                let pool = slot.pool;
                let n: usize = self.counts.get(pool) - 1;
                *self.counts.get_mut(pool) = n;
                self.set_gauges(pool);
                Some(pool)
            },
            None => None,
        }
    }

    /// Gives back the slot held by `proof_id`, if any. Idempotent.
    pub fn release(&mut self, proof_id: &str)
        requires
            old(self).wf(),
        ensures
            final(self).wf(),
            final(self)@ == old(self)@.released(proof_id@),
            final(self)@.slots == old(self)@.slots.remove(proof_id@),
    {
        assert(self@.released(proof_id@).slots =~= self@.slots.remove(proof_id@));
        if !slots_contains(&self.slots, proof_id) {
            return ;
        }
        let always = |_slot: &Slot| -> (b: bool)
            ensures
                b,
        {
            true
        };
        self.remove_and_dec(proof_id, always);
    }

    /// Refreshes a slot while its proof is polled: a liveness signal, which
    /// stops the reaper and the reconciler. No-op if the slot isn't tracked.
    pub fn touch(&mut self, proof_id: &str)
        requires
            old(self).wf(),
        ensures
            final(self).wf(),
            exists|now: Duration|
                {
                    &&& old(self)@.last.nanos() <= now.nanos()
                    &&& final(self)@ == (#[trigger] old(self)@.read(now)).touched(
                        proof_id@,
                        now.nanos(),
                    )
                },
    {
        let now = self.now();
        self.touch_at(proof_id, now);
    }

    /// [`touch`](Self::touch) at a given time.
    pub fn touch_at(&mut self, proof_id: &str, now: Duration)
        requires
            old(self).wf(),
        ensures
            final(self).wf(),
            final(self)@ == old(self)@.touched(proof_id@, now.nanos()),
            old(self)@.slots.contains_key(proof_id@) ==> {
                &&& final(self)@.slots.contains_key(proof_id@)
                &&& final(self)@.slots[proof_id@].deadline == now.nanos() + old(self)@.ttl.nanos()
                &&& final(self)@.slots[proof_id@].committed_at
                    == old(self)@.slots[proof_id@].committed_at
                &&& same_admission(old(self)@.slots[proof_id@], final(self)@.slots[proof_id@])
            },
    {
        if let Some(slot) = slots_get(&self.slots, proof_id) {
            assert(self@.slots.contains_key(proof_id@));
            let mut slot = slot;
            slot.observe_live(now.as_nanos(), self.ttl);
            proof {
                lemma_changed_wf(self@, proof_id@, slot@);
            }
            slots_insert(&mut self.slots, proof_id.to_owned(), slot);
        }
    }

    /// Marks a reserved slot as handed to the cluster at a given time, which
    /// is a liveness signal too. No-op if the slot is gone.
    pub fn mark_committed_at(&mut self, proof_id: &str, now: Duration)
        requires
            old(self).wf(),
        ensures
            final(self).wf(),
            final(self)@ == old(self)@.committed(proof_id@, now.nanos()),
            old(self)@.slots.contains_key(proof_id@) ==> {
                &&& final(self)@.slots.contains_key(proof_id@)
                &&& final(self)@.slots[proof_id@].deadline == now.nanos() + old(self)@.ttl.nanos()
                &&& final(self)@.slots[proof_id@].committed_at == Some(now.nanos())
                &&& same_admission(old(self)@.slots[proof_id@], final(self)@.slots[proof_id@])
            },
    {
        if let Some(slot) = slots_get(&self.slots, proof_id) {
            assert(self@.slots.contains_key(proof_id@));
            let t: i128 = now.as_nanos();
            let mut slot = slot;
            slot.committed_at = Some(t);
            slot.observe_live(t, self.ttl);
            proof {
                lemma_changed_wf(self@, proof_id@, slot@);
            }
            slots_insert(&mut self.slots, proof_id.to_owned(), slot);
        }
    }

    /// Marks a reserved slot as handed to the cluster.
    fn mark_committed(&mut self, proof_id: &str)
        requires
            old(self).wf(),
        ensures
            final(self).wf(),
            exists|now: Duration|
                {
                    &&& old(self)@.last.nanos() <= now.nanos()
                    &&& final(self)@ == (#[trigger] old(self)@.read(now)).committed(
                        proof_id@,
                        now.nanos(),
                    )
                },
    {
        let now = self.now();
        self.mark_committed_at(proof_id, now);
    }
}

impl AdmissionController {
    /// Takes back the slots of `ids`, which `why` allows, counting each under its
    /// cause.
    fn drop_slots(&mut self, ids: Vec<String>, why: Sweeper) -> (n: usize)
        requires
            old(self).wf(),
            views(ids@).no_duplicates(),
            views(ids@).to_set().subset_of(old(self)@.slots.dom()),
            forall|id: Seq<char>| #[trigger]
                views(ids@).contains(id) ==> why.takes(old(self)@.slots[id]),
        ensures
            final(self).wf(),
            final(self)@ == old(self)@.dropped(views(ids@).to_set(), why.cause()),
            n == ids@.len(),
    {
        let ghost start = self@;
        let ghost all = views(ids@);
        let cause = why.get_cause();
        let mut n: usize = 0;
        let mut i: usize = 0;
        proof {
            lemma_take_all(all);
            lemma_dropped_none(start, cause);
        }
        while i < ids.len()
            invariant
                i <= ids@.len(),
                all == views(ids@),
                all.no_duplicates(),
                all.to_set().subset_of(start.slots.dom()),
                cause == why.cause(),
                forall|id: Seq<char>| #[trigger]
                    all.contains(id) ==> why.takes(start.slots[id]),
                n == i,
                start.wf(),
                self.wf(),
                self@ == start.dropped(all.take(i as int).to_set(), cause),
            decreases ids@.len() - i,
        {
            let ghost done = all.take(i as int).to_set();
            proof {
                lemma_filter_take(all, i as int, |x: Seq<char>| true);
                assert(all.to_set().contains(all[i as int]));
                lemma_dropped_one_more(start, done, all[i as int], cause);
                lemma_dropped_wf(start, done.insert(all[i as int]), cause);
                assert(all.contains(all[i as int]));
            }
            let allowed = |slot: &Slot| -> (b: bool)
                ensures
                    b == why.takes(slot@),
            {
                why.allows(slot)
            };
            if let Some(pool) = self.remove_and_dec(ids[i].as_str(), allowed) {
                self.metric_cause(pool, cause);
                n = n + 1;
            }
            i = i + 1;
        }
        proof {
            lemma_take_all(all);
        }
        n
    }

    /// Backstop: takes back COMMITTED slots whose deadline has passed, and
    /// forgets stale demand. Returns how many slots it took back.
    ///
    /// The deadline is refreshed by client polls and by snapshots that show the
    /// proof, so this only catches slots whose liveness nothing can confirm.
    /// RESERVED slots are never reaped: their handler owns them, and taking one
    /// back would leave a live proof without a slot.
    pub fn reap(&mut self) -> (reclaimed: usize)
        requires
            old(self).wf(),
        ensures
            final(self).wf(),
            exists|now: Duration|
                {
                    let v = #[trigger] old(self)@.read(now);
                    &&& old(self)@.last.nanos() <= now.nanos()
                    &&& final(self)@ == v.reaped(now.nanos())
                    &&& reclaimed == v.expired_ids(now.nanos()).len()
                },
    {
        let now = self.now();
        self.reap_at(now)
    }

    /// [`reap`](Self::reap) at a given time.
    pub fn reap_at(&mut self, now: Duration) -> (reclaimed: usize)
        requires
            old(self).wf(),
        ensures
            final(self).wf(),
            final(self)@ == old(self)@.reaped(now.nanos()),
            reclaimed == old(self)@.expired_ids(now.nanos()).len(),
            reclaimed == old(self)@.slots.dom().len() - final(self)@.slots.dom().len(),
            forall|id: Seq<char>| #[trigger]
                final(self)@.slots.contains_key(id) <==> old(self)@.slots.contains_key(id) && !(
                old(self)@.slots[id].committed_at is Some && old(self)@.slots[id].deadline
                    <= now.nanos()),
    {
        let ghost start = self@;
        let t: i128 = now.as_nanos();
        proof {
            law_reaper_takes(start, now.nanos());
            lemma_left_over(start, start.reaped(now.nanos()));
        }
        let ids = slots_ids(&self.slots);
        let ghost all = views(ids@);
        let ghost p = |id: Seq<char>| start.expired(id, t as int);
        let mut stale: Vec<String> = Vec::new();
        let mut i: usize = 0;
        proof {
            lemma_take_all(all);
            assert(views(stale@).to_set() =~= all.take(0).to_set().filter(p));
        }
        while i < ids.len()
            invariant
                i <= ids@.len(),
                all == views(ids@),
                all.no_duplicates(),
                all.to_set() == start.slots.dom(),
                self@ == start,
                self.wf(),
                p == (|id: Seq<char>| start.expired(id, t as int)),
                views(stale@).no_duplicates(),
                views(stale@).to_set() == all.take(i as int).to_set().filter(p),
            decreases ids@.len() - i,
        {
            let ghost id = all[i as int];
            let ghost before = views(stale@);
            proof {
                lemma_filter_take(all, i as int, p);
                assert(all.to_set().contains(id));
            }
            if let Some(slot) = slots_get(&self.slots, ids[i].as_str()) {
                if slot.is_committed() && slot.deadline <= t {
                    assert(p(id));
                    stale.push(ids[i].clone());
                    proof {
                        assert(views(stale@) =~= before.push(id));
                        lemma_push_to_set(before, id);
                        assert(!before.to_set().contains(id));
                        assert(!before.contains(id));
                    }
                }
            }
            i = i + 1;
        }
        proof {
            lemma_take_all(all);
            assert(start.slots.dom().filter(p) =~= start.expired_ids(t as int));
            views(stale@).unique_seq_to_set();
            lemma_reaped_wf(start, t as int);
            assert forall|id: Seq<char>| #[trigger]
                views(stale@).contains(id) implies start.expired(id, t as int) by {
                assert(views(stale@).to_set().contains(id));
            }
        }
        let reclaimed: usize = self.drop_slots(stale, Sweeper::Expired(t));
        demand_retain_fresh(&mut self.demand, t, self.priority_ttl);
        proof {
            lemma_dropped_wf(start, start.expired_ids(t as int), Cause::Reaped);
            assert(start.reaped(t as int).demand == self@.demand);
        }
        self.metric_demand_gauge(PoolId::Range, t);
        self.metric_demand_gauge(PoolId::Agg, t);
        reclaimed
    }
}

impl AdmissionController {
    /// Brings the committed slots that stay up to date with a snapshot, and
    /// finds those that are gone.
    fn sweep(&mut self, live: &IdSet, partial: bool, threshold: u32, now: Duration) -> (s: Sweep)
        requires
            old(self).wf(),
            live.wf(),
        ensures
            final(self).wf(),
            final(self)@ == old(self)@.swept(
                staying(old(self)@, live@, partial, threshold, now.nanos()),
                live@,
                partial,
                now.nanos(),
            ),
            views(s.stale@).no_duplicates(),
            views(s.stale@).to_set() == old(self)@.gone_ids(
                live@,
                partial,
                threshold,
                now.nanos(),
            ),
            s.committed_tracked == old(self)@.tracked_ids().len(),
            s.present == old(self)@.present_ids(live@).len(),
            s.absent == old(self)@.absent_ids(live@).len(),
            is_sample(s.present_ids@, old(self)@.present_ids(live@)),
            is_sample(s.absent_ids@, old(self)@.absent_ids(live@)),
    {
        let ghost start = self@;
        let t: i128 = now.as_nanos();
        let ids = slots_ids(&self.slots);
        let ghost all = views(ids@);
        let ghost tracks = |id: Seq<char>| start.tracks(id);
        let ghost shown = |id: Seq<char>| start.tracks(id) && live@.contains(id);
        let ghost hidden = |id: Seq<char>| start.tracks(id) && !live@.contains(id);
        let ghost gone = |id: Seq<char>| start.gone(id, live@, partial, threshold, t as int);
        let ghost stays = |id: Seq<char>| !start.gone(id, live@, partial, threshold, t as int);
        let mut stale: Vec<String> = Vec::new();
        let mut committed_tracked: usize = 0;
        let mut present: usize = 0;
        let mut absent: usize = 0;
        let mut present_ids: Vec<String> = Vec::new();
        let mut absent_ids: Vec<String> = Vec::new();
        let mut i: usize = 0;
        proof {
            lemma_take_all(all);
            let none = Set::<Seq<char>>::empty();
            assert(none.filter(tracks) =~= none);
            assert(none.filter(shown) =~= none);
            assert(none.filter(hidden) =~= none);
            assert(none.filter(gone) =~= none);
            assert(none.filter(stays) =~= none);
            assert(views(stale@).to_set() =~= none);
            assert(views(present_ids@).to_set() =~= none);
            assert(views(absent_ids@).to_set() =~= none);
            assert(start.swept(none, live@, partial, t as int).slots =~= start.slots);
        }
        while i < ids.len()
            invariant
                i <= ids@.len(),
                all == views(ids@),
                all.no_duplicates(),
                all.to_set() == start.slots.dom(),
                start.wf(),
                self.wf(),
                live.wf(),
                t == now.nanos(),
                0 <= t,
                instant_ok(t as int),
                instant_ok(t + start.ttl.nanos()),
                tracks == (|id: Seq<char>| start.tracks(id)),
                shown == (|id: Seq<char>| start.tracks(id) && live@.contains(id)),
                hidden == (|id: Seq<char>| start.tracks(id) && !live@.contains(id)),
                gone == (|id: Seq<char>| start.gone(id, live@, partial, threshold, t as int)),
                stays == (|id: Seq<char>| !start.gone(id, live@, partial, threshold, t as int)),
                self@ == start.swept(
                    all.take(i as int).to_set().filter(stays),
                    live@,
                    partial,
                    t as int,
                ),
                views(stale@).no_duplicates(),
                views(stale@).to_set() == all.take(i as int).to_set().filter(gone),
                committed_tracked == all.take(i as int).to_set().filter(tracks).len(),
                present == all.take(i as int).to_set().filter(shown).len(),
                absent == all.take(i as int).to_set().filter(hidden).len(),
                is_sample(present_ids@, all.take(i as int).to_set().filter(shown)),
                is_sample(absent_ids@, all.take(i as int).to_set().filter(hidden)),
            decreases ids@.len() - i,
        {
            let ghost id = all[i as int];
            let ghost seen = all.take(i as int).to_set();
            let ghost next = all.take(i as int + 1).to_set();
            let ghost before = views(stale@);
            proof {
                lemma_filter_take(all, i as int, tracks);
                lemma_filter_take(all, i as int, shown);
                lemma_filter_take(all, i as int, hidden);
                lemma_filter_take(all, i as int, gone);
                lemma_filter_take(all, i as int, stays);
                assert(all.to_set().contains(id));
                assert(start.slots.contains_key(id));
                assert(start.slots[id].wf());
                assert(self@.slots.contains_key(id));
                assert(self@.slots[id] == start.slots[id]);
                assert(next.filter(stays).disjoint(
                    start.gone_ids(live@, partial, threshold, t as int),
                ));
                lemma_swept_wf(
                    start,
                    next.filter(stays),
                    live@,
                    partial,
                    threshold,
                    t as int,
                );
            }
            let ghost goal = start.swept(next.filter(stays), live@, partial, t as int);
            if let Some(slot) = slots_get(&self.slots, ids[i].as_str()) {
                let mut slot = slot;
                if slot.is_committed() {
                    committed_tracked = committed_tracked + 1;
                    if live.contains(&ids[i]) {
                        present = present + 1;
                        sample_push(&mut present_ids, &ids[i], Ghost(seen.filter(shown)));
                        slot.observe_live(t, self.ttl);
                        slots_insert(&mut self.slots, ids[i].clone(), slot);
                        assert(self@.slots =~= goal.slots);
                    } else {
                        absent = absent + 1;
                        sample_push(&mut absent_ids, &ids[i], Ghost(seen.filter(hidden)));
                        let in_grace = match slot.committed_at {
                            Some(c) => time_since(t, c) < self.commit_grace.as_nanos(),
                            None => false,
                        };
                        if !partial && !in_grace {
                            if slot.observe_absent() >= threshold {
                                assert(gone(id));
                                stale.push(ids[i].clone());
                                proof {
                                    assert(views(stale@) =~= before.push(id));
                                    lemma_push_to_set(before, id);
                                    assert(!before.to_set().contains(id));
                                    assert(!before.contains(id));
                                }
                            } else {
                                slots_insert(&mut self.slots, ids[i].clone(), slot);
                                assert(self@.slots =~= goal.slots);
                            }
                        }
                    }
                }
                assert(self@.slots =~= goal.slots);
            }
            i = i + 1;
        }
        proof {
            lemma_take_all(all);
            let dom = start.slots.dom();
            assert(dom.filter(tracks) =~= start.tracked_ids());
            assert(dom.filter(shown) =~= start.present_ids(live@));
            assert(dom.filter(hidden) =~= start.absent_ids(live@));
            assert(dom.filter(gone) =~= start.gone_ids(live@, partial, threshold, t as int));
            assert(dom.filter(stays) =~= staying(start, live@, partial, threshold, t as int));
        }
        Sweep { stale, committed_tracked, present, absent, present_ids, absent_ids }
    }

    /// Reconciles tracked slots against a snapshot of the cluster's Pending
    /// set: releases COMMITTED slots whose proof has been missing from
    /// `absent_observations` consecutive complete snapshots.
    ///
    /// A present sighting resets the streak and refreshes the deadline. A
    /// truncated snapshot never advances absence, and a gap leaves everything
    /// as it is; absence therefore counts observations, not time. A slot within
    /// the post-commit grace is spared like a reserved one.
    pub fn reconcile(&mut self, obs: PendingObservation, absent_observations: u32) -> (r:
        ReconcileReport)
        requires
            old(self).wf(),
            obs.wf(),
        ensures
            final(self).wf(),
            match obs {
                PendingObservation::Gap => {
                    &&& final(self)@ == old(self)@
                    &&& r.kind@ == "skip"@
                    &&& r.is_blank()
                },
                PendingObservation::Complete(live) => exists|now: Duration|
                    {
                        let v = #[trigger] old(self)@.read(now);
                        &&& old(self)@.last.nanos() <= now.nanos()
                        &&& final(self)@ == v.reconciled(
                            live@,
                            false,
                            absent_observations,
                            now.nanos(),
                        )
                        &&& r.tells(v, live@, false, absent_observations, now.nanos())
                    },
                PendingObservation::Partial(live) => exists|now: Duration|
                    {
                        let v = #[trigger] old(self)@.read(now);
                        &&& old(self)@.last.nanos() <= now.nanos()
                        &&& final(self)@ == v.reconciled(
                            live@,
                            true,
                            absent_observations,
                            now.nanos(),
                        )
                        &&& r.tells(v, live@, true, absent_observations, now.nanos())
                    },
            },
    {
        let now = match &obs {
            PendingObservation::Gap => self.last,
            _ => self.now(),
        };
        self.reconcile_at(obs, absent_observations, now)
    }

    /// [`reconcile`](Self::reconcile) at a given time.
    pub fn reconcile_at(
        &mut self,
        obs: PendingObservation,
        absent_observations: u32,
        now: Duration,
    ) -> (r: ReconcileReport)
        requires
            old(self).wf(),
            obs.wf(),
        ensures
            final(self).wf(),
            match obs {
                PendingObservation::Gap => {
                    &&& final(self)@ == old(self)@
                    &&& r.kind@ == "skip"@
                    &&& r.is_blank()
                },
                PendingObservation::Complete(live) => {
                    &&& final(self)@ == old(self)@.reconciled(
                        live@,
                        false,
                        absent_observations,
                        now.nanos(),
                    )
                    &&& r.tells(old(self)@, live@, false, absent_observations, now.nanos())
                },
                PendingObservation::Partial(live) => {
                    &&& final(self)@ == old(self)@.reconciled(
                        live@,
                        true,
                        absent_observations,
                        now.nanos(),
                    )
                    &&& r.tells(old(self)@, live@, true, absent_observations, now.nanos())
                },
            },
            r.present + r.absent == r.committed_tracked,
            r.released == old(self)@.slots.dom().len() - final(self)@.slots.dom().len(),
            obs is Partial ==> final(self)@.slots.dom() == old(self)@.slots.dom(),
            forall|id: Seq<char>| #[trigger]
                old(self)@.slots.contains_key(id) && old(self)@.slots[id].committed_at is None
                    ==> final(self)@.slots.contains_key(id) && final(self)@.slots[id]
                    == old(self)@.slots[id],
            forall|id: Seq<char>| #[trigger]
                final(self)@.slots.contains_key(id) ==> old(self)@.slots.contains_key(id)
                    && same_admission(old(self)@.slots[id], final(self)@.slots[id]),
    {
        let ghost start = self@;
        let (live, partial, kind) = match obs {
            PendingObservation::Gap => {
                let mut blank = ReconcileReport::default();
                blank.kind = "skip";
                return blank;
            },
            PendingObservation::Complete(live) => (live, false, "complete"),
            PendingObservation::Partial(live) => (live, true, "partial"),
        };
        proof {
            law_snapshot_in_numbers(start, live@, partial, absent_observations, now.nanos());
        }
        let s = self.sweep(&live, partial, absent_observations, now);
        proof {
            lemma_reconciled_by_parts(start, live@, partial, absent_observations, now.nanos());
            views(s.stale@).unique_seq_to_set();
            assert(views(s.stale@).to_set().subset_of(self@.slots.dom()));
        }
        let released: usize = self.drop_slots(s.stale, Sweeper::Absent(absent_observations));
        ReconcileReport {
            kind,
            live: live.len(),
            committed_tracked: s.committed_tracked,
            present: s.present,
            absent: s.absent,
            released,
            present_ids: s.present_ids,
            absent_ids: s.absent_ids,
        }
    }
}

impl AdmissionController {
    /// Publishes, per pool and requester, how long that requester's oldest slot
    /// has been held. Call it on the reconcile tick.
    ///
    /// It answers who holds the pool right now, and for how long; why a slot is
    /// held makes no difference. Series of requesters that hold nothing any
    /// more disappear.
    pub fn report_slot_ages(&mut self)
        requires
            old(self).wf(),
        ensures
            final(self).wf(),
            exists|now: Duration|
                {
                    &&& old(self)@.last.nanos() <= now.nanos()
                    &&& final(self)@ == (#[trigger] old(self)@.read(now)).aged(now.nanos())
                },
    {
        let now = self.now();
        self.report_slot_ages_at(now);
    }

    /// [`report_slot_ages`](Self::report_slot_ages) at a given time.
    pub fn report_slot_ages_at(&mut self, now: Duration)
        requires
            old(self).wf(),
        ensures
            final(self).wf(),
            final(self)@ == old(self)@.aged(now.nanos()),
    {
        if self.metrics.is_none() {
            return ;
        }
        let t: i128 = now.as_nanos();
        let ids = slots_ids(&self.slots);
        let ghost all = views(ids@);
        let ghost slots = self@.slots;
        let mut rows: Vec<AgeRow> = Vec::new();
        let mut i: usize = 0;
        proof {
            lemma_take_all(all);
            assert(slots.restrict(all.take(0).to_set()).dom() =~= Set::empty());
        }
        while i < ids.len()
            invariant
                i <= ids@.len(),
                all == views(ids@),
                all.no_duplicates(),
                all.to_set() == slots.dom(),
                slots == self@.slots,
                self.wf(),
                instant_ok(t as int),
                tallies(rows@, slots.restrict(all.take(i as int).to_set()), t as int),
            decreases ids@.len() - i,
        {
            let ghost id = all[i as int];
            let ghost seen = slots.restrict(all.take(i as int).to_set());
            proof {
                lemma_filter_take(all, i as int, |x: Seq<char>| true);
                assert(all.to_set().contains(id));
                assert(slots.contains_key(id));
                assert(slots.restrict(all.take(i as int + 1).to_set()) =~= seen.insert(
                    id,
                    slots[id],
                ));
            }
            if let Some(slot) = slots_get(&self.slots, ids[i].as_str()) {
                tally(&mut rows, &slot, t, Ghost(seen), Ghost(id));
            }
            i = i + 1;
        }
        proof {
            lemma_take_all(all);
            assert(slots.restrict(slots.dom()) =~= slots);
        }
        let held = held_rows(rows, Ghost(slots), Ghost(t as int));
        if let Some(m) = &mut self.metrics {
            m.set_held(held);
        }
    }

    /// A handle over a just-acquired slot.
    pub fn guard<'a>(&'a mut self, proof_id: &'a str) -> (g: SlotGuard<'a>)
        requires
            old(self).wf(),
        ensures
            *g.controller == *old(self),
            *final(self) == *final(g.controller),
            g.proof_id == proof_id,
    {
        SlotGuard { controller: self, proof_id }
    }
}

/// A slot reservation between admission and the hand-over to the cluster (see
/// [`AdmissionController::guard`]). Every way out of the handler either commits
/// it or abandons it.
pub struct SlotGuard<'a> {
    pub controller: &'a mut AdmissionController,
    pub proof_id: &'a str,
}

impl<'a> SlotGuard<'a> {
    /// Hands the slot over: the reservation outlives this scope and is COMMITTED
    /// from now on, so that snapshots of the cluster decide about it. Call it
    /// once the cluster leg has run, also when that failed: an errored create
    /// may still have registered the proof.
    pub fn commit(self)
        requires
            self.controller.wf(),
        ensures
            final(self.controller).wf(),
            exists|now: Duration|
                {
                    &&& old(self.controller)@.last.nanos() <= now.nanos()
                    &&& final(self.controller)@ == (#[trigger] old(self.controller)@.read(
                        now,
                    )).committed(self.proof_id@, now.nanos())
                },
    {
        self.controller.mark_committed(self.proof_id);
    }

    /// Gives the slot back.
    pub fn abandon(self)
        requires
            self.controller.wf(),
        ensures
            final(self.controller).wf(),
            final(self.controller)@ == old(self.controller)@.released(self.proof_id@),
    {
        self.controller.release(self.proof_id);
    }
}

/// A report lists every id if there are at most 64, and 64 different ones if
/// there are more.
pub proof fn law_sample(ids: Seq<String>, of: Set<Seq<char>>)
    requires
        of.finite(),
        is_sample(ids, of),
    ensures
        of.len() > 64 ==> ids.len() == 64,
        of.len() <= 64 ==> forall|id: Seq<char>| #[trigger]
            of.contains(id) ==> exists|i: int| 0 <= i < ids.len() && (#[trigger] ids[i])@ == id,
        forall|i: int| 0 <= i < ids.len() ==> of.contains((#[trigger] ids[i])@),
        forall|i: int, j: int|
            0 <= i < j < ids.len() ==> (#[trigger] ids[i])@ != (#[trigger] ids[j])@,
{
    let texts = views(ids);
    let listed = texts.to_set();
    assert forall|i: int| 0 <= i < ids.len() implies of.contains((#[trigger] ids[i])@) by {
        assert(texts[i] == ids[i]@);
        assert(listed.contains(texts[i]));
    }
    assert forall|i: int, j: int| 0 <= i < j < ids.len() implies (#[trigger] ids[i])@ != (
    #[trigger] ids[j])@ by {
        assert(texts[i] != texts[j]);
    }
    if of.len() <= 64 {
        texts.unique_seq_to_set();
        vstd::set_lib::lemma_subset_equality(listed, of);
        assert forall|id: Seq<char>| #[trigger] of.contains(id) implies exists|i: int|
            0 <= i < ids.len() && (#[trigger] ids[i])@ == id by {
            assert(listed.contains(id));
            let i = choose|i: int| 0 <= i < texts.len() && texts[i] == id;
            assert(ids[i]@ == id);
        }
    }
}

} // verus!
