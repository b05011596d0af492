//! What the controller counts: per-pool counters and gauges.
use vstd::prelude::*;

use prometheus_client::metrics::counter::Counter;
use prometheus_client::metrics::gauge::Gauge;

use crate::exposition::{counter_count, counter_family_inc, counter_family_new, counter_inc,
    counter_new, counter_series, encode_text, gauge_family_clear, gauge_family_new,
    gauge_family_set, gauge_level, gauge_new, gauge_series, gauge_set, is_exposition, label_views,
    next_count, plain, register_counter, register_counter_family, register_gauge,
    register_gauge_family, registered, scrape_new, single, CounterFamily, GaugeFamily, Labels,
    MetricView, Scrape};
use crate::pool::{PoolId, RejectReason};

verus! {

/// What a counter per pool shows. A pool that was never counted has no series.
pub struct PoolCounter {
    pub range: Option<u64>,
    pub agg: Option<u64>,
}

/// A counter `n` steps on; it wraps at 64 bits, and no step makes no series.
pub open spec fn counted(c: Option<u64>, n: nat) -> Option<u64> {
    if n == 0 {
        c
    } else {
        let base: nat = match c {
            Some(v) => v as nat,
            None => 0,
        };
        Some(((base + n) % 0x1_0000_0000_0000_0000) as u64)
    }
}

impl PoolCounter {
    /// A family without series.
    pub open spec fn none() -> Self {
        PoolCounter { range: None, agg: None }
    }

    pub open spec fn at(self, pool: PoolId) -> Option<u64> {
        match pool {
            PoolId::Range => self.range,
            PoolId::Agg => self.agg,
        }
    }

    /// The family with `n` more for `pool`.
    pub open spec fn plus(self, pool: PoolId, n: nat) -> Self {
        match pool {
            PoolId::Range => PoolCounter { range: counted(self.range, n), ..self },
            PoolId::Agg => PoolCounter { agg: counted(self.agg, n), ..self },
        }
    }
}

/// Counting one at a time is counting all at once.
pub proof fn lemma_counted_step(c: Option<u64>, n: nat)
    ensures
        counted(counted(c, n), 1) == counted(c, n + 1),
{
    let base: nat = match c {
        Some(v) => v as nat,
        None => 0,
    };
    let m: nat = 0x1_0000_0000_0000_0000;
    assert((((base + n) % m) + 1) % m == (base + n + 1) % m) by (nonlinear_arith)
        requires
            m == 0x1_0000_0000_0000_0000,
    ;
}

/// What a gauge per pool shows. A pool that was never set has no series.
pub struct PoolGauge {
    pub range: Option<i64>,
    pub agg: Option<i64>,
}

impl PoolGauge {
    /// A family without series.
    pub open spec fn none() -> Self {
        PoolGauge { range: None, agg: None }
    }

    pub open spec fn at(self, pool: PoolId) -> Option<i64> {
        match pool {
            PoolId::Range => self.range,
            PoolId::Agg => self.agg,
        }
    }

    /// The family with `v` for `pool`.
    pub open spec fn with(self, pool: PoolId, v: i64) -> Self {
        match pool {
            PoolId::Range => PoolGauge { range: Some(v), ..self },
            PoolId::Agg => PoolGauge { agg: Some(v), ..self },
        }
    }
}

/// How long the oldest slot of one requester in one pool has been held.
pub struct HeldRow {
    pub pool: PoolId,
    pub requester: String,
    pub seconds: i64,
}

impl HeldRow {
    /// Pool and requester label: what tells the series apart.
    pub open spec fn key(self) -> (PoolId, Seq<char>) {
        (self.pool, self.requester@)
    }
}

/// Whether `rows` has a series for `key`.
pub open spec fn held_has(rows: Seq<HeldRow>, key: (PoolId, Seq<char>)) -> bool {
    exists|i: int| 0 <= i < rows.len() && (#[trigger] rows[i]).key() == key
}

/// The place of the series for `key`.
pub open spec fn held_index(rows: Seq<HeldRow>, key: (PoolId, Seq<char>)) -> int {
    choose|i: int| 0 <= i < rows.len() && (#[trigger] rows[i]).key() == key
}

/// The series that `rows` hold.
pub open spec fn held_map(rows: Seq<HeldRow>) -> Map<(PoolId, Seq<char>), i64> {
    Map::new(
        |key: (PoolId, Seq<char>)| held_has(rows, key),
        |key: (PoolId, Seq<char>)| rows[held_index(rows, key)].seconds,
    )
}

/// No two rows are of the same series.
pub open spec fn held_unique(rows: Seq<HeldRow>) -> bool {
    forall|i: int, j: int|
        0 <= i < j < rows.len() ==> (#[trigger] rows[i]).key() != (#[trigger] rows[j]).key()
}

/// A row holds what the map of its rows says of its series.
pub proof fn lemma_held_row(rows: Seq<HeldRow>, i: int)
    requires
        held_unique(rows),
        0 <= i < rows.len(),
    ensures
        held_map(rows).contains_key(rows[i].key()),
        held_map(rows)[rows[i].key()] == rows[i].seconds,
{
    let key = rows[i].key();
    assert(held_has(rows, key));
    let j = held_index(rows, key);
    assert(rows[j].key() == key);
    assert(i == j);
}

/// The counters and gauges of the controller.
#[verifier::ext_equal]
pub struct MetricsView {
    pub inflight: PoolGauge,
    pub global_inflight: i64,
    pub admitted: PoolCounter,
    pub rejected: PoolCounter,
    pub rejected_global: u64,
    pub would_reject: PoolCounter,
    pub reaped: PoolCounter,
    pub reconciled: PoolCounter,
    pub seeded: PoolCounter,
    pub unclassified: u64,
    pub priority_yielded: PoolCounter,
    pub priority_would_yield: PoolCounter,
    pub priority_demand: PoolGauge,
    pub priority_hold_open: PoolCounter,
    pub slot_held_seconds: Map<(PoolId, Seq<char>), i64>,
}

impl MetricsView {
    /// Nothing counted yet.
    pub open spec fn fresh() -> Self {
        MetricsView {
            inflight: PoolGauge::none(),
            global_inflight: 0,
            admitted: PoolCounter::none(),
            rejected: PoolCounter::none(),
            rejected_global: 0,
            would_reject: PoolCounter::none(),
            reaped: PoolCounter::none(),
            reconciled: PoolCounter::none(),
            seeded: PoolCounter::none(),
            unclassified: 0,
            priority_yielded: PoolCounter::none(),
            priority_would_yield: PoolCounter::none(),
            priority_demand: PoolGauge::none(),
            priority_hold_open: PoolCounter::none(),
            slot_held_seconds: Map::empty(),
        }
    }

    /// The in-flight gauges after the count of `pool` changed.
    pub open spec fn inflight_set(self, pool: PoolId, pool_val: usize, total: int) -> Self {
        MetricsView {
            inflight: self.inflight.with(pool, pool_val as i64),
            global_inflight: total as i64,
            ..self
        }
    }

    /// A request turned away for `reason`.
    pub open spec fn shed(self, pool: PoolId, reason: RejectReason) -> Self {
        match reason {
            RejectReason::PoolCap => MetricsView { rejected: self.rejected.plus(pool, 1), ..self },
            RejectReason::GlobalCap => MetricsView {
                rejected_global: next_count(self.rejected_global),
                ..self
            },
            RejectReason::PriorityYield => MetricsView {
                priority_yielded: self.priority_yielded.plus(pool, 1),
                priority_hold_open: self.priority_hold_open.plus(pool, 1),
                ..self
            },
        }
    }

    /// A request let through that an enforcing gate would have turned away.
    pub open spec fn would_shed(self, pool: PoolId, reason: RejectReason) -> Self {
        match reason {
            RejectReason::PriorityYield => MetricsView {
                priority_would_yield: self.priority_would_yield.plus(pool, 1),
                ..self
            },
            _ => MetricsView { would_reject: self.would_reject.plus(pool, 1), ..self },
        }
    }

    /// A request passed through ungated.
    pub open spec fn passed(self) -> Self {
        MetricsView { unclassified: next_count(self.unclassified), ..self }
    }
}

/// The controller's counters and gauges, and the text that exposes them (see
/// `render`).
pub struct AdmissionMetrics {
    inflight: GaugeFamily,
    global_inflight: Gauge,
    admitted: CounterFamily,
    rejected: CounterFamily,
    rejected_global: Counter,
    would_reject: CounterFamily,
    reaped: CounterFamily,
    reconciled: CounterFamily,
    seeded: CounterFamily,
    unclassified: Counter,
    priority_yielded: CounterFamily,
    priority_would_yield: CounterFamily,
    priority_demand: GaugeFamily,
    priority_hold_open: CounterFamily,
    slot_held_seconds: GaugeFamily,
}

/// A family of counters, by pool.
pub open spec fn pool_counter(series: Map<Labels, u64>) -> PoolCounter {
    PoolCounter {
        range: series.get(pool_labels(PoolId::Range)),
        agg: series.get(pool_labels(PoolId::Agg)),
    }
}

/// A family of gauges, by pool.
pub open spec fn pool_gauge(series: Map<Labels, i64>) -> PoolGauge {
    PoolGauge {
        range: series.get(pool_labels(PoolId::Range)),
        agg: series.get(pool_labels(PoolId::Agg)),
    }
}

/// A family of gauges, by pool and holder.
pub open spec fn held_gauge(series: Map<Labels, i64>) -> Map<(PoolId, Seq<char>), i64> {
    Map::new(
        |key: (PoolId, Seq<char>)| series.contains_key(held_labels(key)),
        |key: (PoolId, Seq<char>)| series[held_labels(key)],
    )
}

/// Every series belongs to a pool.
pub open spec fn by_pool(dom: Set<Labels>) -> bool {
    forall|l: Labels| #[trigger]
        dom.contains(l) ==> l == pool_labels(PoolId::Range) || l == pool_labels(PoolId::Agg)
}

/// Every series belongs to a pool and a holder.
pub open spec fn by_holder(dom: Set<Labels>) -> bool {
    forall|l: Labels| #[trigger] dom.contains(l) ==> l == held_labels(held_key(l))
}

impl View for AdmissionMetrics {
    type V = MetricsView;

    closed spec fn view(&self) -> MetricsView {
        MetricsView {
            inflight: pool_gauge(gauge_series(self.inflight)),
            global_inflight: gauge_level(self.global_inflight),
            admitted: pool_counter(counter_series(self.admitted)),
            rejected: pool_counter(counter_series(self.rejected)),
            rejected_global: counter_count(self.rejected_global),
            would_reject: pool_counter(counter_series(self.would_reject)),
            reaped: pool_counter(counter_series(self.reaped)),
            reconciled: pool_counter(counter_series(self.reconciled)),
            seeded: pool_counter(counter_series(self.seeded)),
            unclassified: counter_count(self.unclassified),
            priority_yielded: pool_counter(counter_series(self.priority_yielded)),
            priority_would_yield: pool_counter(counter_series(self.priority_would_yield)),
            priority_demand: pool_gauge(gauge_series(self.priority_demand)),
            priority_hold_open: pool_counter(counter_series(self.priority_hold_open)),
            slot_held_seconds: held_gauge(gauge_series(self.slot_held_seconds)),
        }
    }
}

impl AdmissionMetrics {
    /// Every series carries the labels of its family.
    pub closed spec fn wf(self) -> bool {
        &&& by_pool(gauge_series(self.inflight).dom())
        &&& by_pool(counter_series(self.admitted).dom())
        &&& by_pool(counter_series(self.rejected).dom())
        &&& by_pool(counter_series(self.would_reject).dom())
        &&& by_pool(counter_series(self.reaped).dom())
        &&& by_pool(counter_series(self.reconciled).dom())
        &&& by_pool(counter_series(self.seeded).dom())
        &&& by_pool(counter_series(self.priority_yielded).dom())
        &&& by_pool(counter_series(self.priority_would_yield).dom())
        &&& by_pool(gauge_series(self.priority_demand).dom())
        &&& by_pool(counter_series(self.priority_hold_open).dom())
        &&& by_holder(gauge_series(self.slot_held_seconds).dom())
    }

    /// Counters and gauges that have counted nothing.
    pub fn new() -> (m: Self)
        ensures
            m.wf(),
            m@ == MetricsView::fresh(),
    {
        let m = AdmissionMetrics {
            inflight: gauge_family_new(),
            global_inflight: gauge_new(),
            admitted: counter_family_new(),
            rejected: counter_family_new(),
            rejected_global: counter_new(),
            would_reject: counter_family_new(),
            reaped: counter_family_new(),
            reconciled: counter_family_new(),
            seeded: counter_family_new(),
            unclassified: counter_new(),
            priority_yielded: counter_family_new(),
            priority_would_yield: counter_family_new(),
            priority_demand: gauge_family_new(),
            priority_hold_open: counter_family_new(),
            slot_held_seconds: gauge_family_new(),
        };
        assert(m@.slot_held_seconds =~= Map::empty());
        m
    }

    /// Publishes the in-flight count of `pool` and of all pools.
    pub fn set_gauges(&mut self, pool: PoolId, pool_val: usize, total: usize)
        requires
            old(self).wf(),
        ensures
            final(self).wf(),
            final(self)@ == old(self)@.inflight_set(pool, pool_val, total as int),
    {
        set_pool(&mut self.inflight, pool, pool_val as i64);
        gauge_set(&mut self.global_inflight, total as i64);
    }

    pub fn count_admitted(&mut self, pool: PoolId)
        requires
            old(self).wf(),
        ensures
            final(self).wf(),
            final(self)@ == (MetricsView {
                admitted: old(self)@.admitted.plus(pool, 1),
                ..old(self)@
            }),
    {
        inc_pool(&mut self.admitted, pool);
    }

    pub fn count_reaped(&mut self, pool: PoolId)
        requires
            old(self).wf(),
        ensures
            final(self).wf(),
            final(self)@ == (MetricsView { reaped: old(self)@.reaped.plus(pool, 1), ..old(self)@ }),
    {
        inc_pool(&mut self.reaped, pool);
    }

    pub fn count_reconciled(&mut self, pool: PoolId)
        requires
            old(self).wf(),
        ensures
            final(self).wf(),
            final(self)@ == (MetricsView {
                reconciled: old(self)@.reconciled.plus(pool, 1),
                ..old(self)@
            }),
    {
        inc_pool(&mut self.reconciled, pool);
    }

    pub fn count_seeded(&mut self, pool: PoolId)
        requires
            old(self).wf(),
        ensures
            final(self).wf(),
            final(self)@ == (MetricsView { seeded: old(self)@.seeded.plus(pool, 1), ..old(self)@ }),
    {
        inc_pool(&mut self.seeded, pool);
    }

    pub fn count_unclassified(&mut self)
        requires
            old(self).wf(),
        ensures
            final(self).wf(),
            final(self)@ == old(self)@.passed(),
    {
        counter_inc(&mut self.unclassified);
    }

    /// Counts a request turned away. A yield counts both as a yield and as a
    /// slot held open.
    pub fn count_reject(&mut self, pool: PoolId, reason: RejectReason)
        requires
            old(self).wf(),
        ensures
            final(self).wf(),
            final(self)@ == old(self)@.shed(pool, reason),
    {
        match reason {
            RejectReason::PoolCap => {
                inc_pool(&mut self.rejected, pool);
            },
            RejectReason::GlobalCap => {
                counter_inc(&mut self.rejected_global);
            },
            RejectReason::PriorityYield => {
                inc_pool(&mut self.priority_yielded, pool);
                inc_pool(&mut self.priority_hold_open, pool);
            },
        }
    }

    /// Counts a request let through that would have been turned away.
    pub fn count_would(&mut self, pool: PoolId, reason: RejectReason)
        requires
            old(self).wf(),
        ensures
            final(self).wf(),
            final(self)@ == old(self)@.would_shed(pool, reason),
    {
        match reason {
            RejectReason::PriorityYield => {
                inc_pool(&mut self.priority_would_yield, pool);
            },
            _ => {
                inc_pool(&mut self.would_reject, pool);
            },
        }
    }

    /// Publishes how many proposers wait for `pool`.
    pub fn set_demand(&mut self, pool: PoolId, n: usize)
        requires
            old(self).wf(),
        ensures
            final(self).wf(),
            final(self)@ == (MetricsView {
                priority_demand: old(self)@.priority_demand.with(pool, n as i64),
                ..old(self)@
            }),
    {
        set_pool(&mut self.priority_demand, pool, n as i64);
    }

    /// Replaces the held-slot series.
    pub fn set_held(&mut self, rows: Vec<HeldRow>)
        requires
            old(self).wf(),
            held_unique(rows@),
        ensures
            final(self).wf(),
            final(self)@ == (MetricsView { slot_held_seconds: held_map(rows@), ..old(self)@ }),
    {
        publish_held(&mut self.slot_held_seconds, &rows);
    }
}

impl Default for AdmissionMetrics {
    fn default() -> (m: Self)
        ensures
            m.wf(),
            m@ == MetricsView::fresh(),
    {
        AdmissionMetrics::new()
    }
}

/// The label of a per-pool series.
#[derive(Clone, Debug, Hash, PartialEq, Eq)]
pub struct PoolLabel {
    pub pool: String,
}

/// The labels of a held-slot series: pool and holder. The number of series is
/// the number of proposers that hold slots.
#[derive(Clone, Debug, Hash, PartialEq, Eq)]
pub struct PoolRequesterLabel {
    pub pool: String,
    pub requester: String,
}

/// The labels of the series of a pool.
pub open spec fn pool_labels(pool: PoolId) -> Labels {
    seq![("pool"@, pool.spec_label())]
}

/// The labels of the series of a pool and a holder.
pub open spec fn held_labels(key: (PoolId, Seq<char>)) -> Labels {
    seq![("pool"@, key.0.spec_label()), ("requester"@, key.1)]
}

impl PoolLabel {
    /// Names and values.
    pub fn pairs(&self) -> (v: Vec<(String, String)>)
        ensures
            label_views(v@) == seq![("pool"@, self.pool@)],
    {
        let mut v: Vec<(String, String)> = Vec::new();
        v.push(("pool".to_owned(), self.pool.clone()));
        assert(label_views(v@) =~= seq![("pool"@, self.pool@)]);
        v
    }
}

impl PoolRequesterLabel {
    /// Names and values.
    pub fn pairs(&self) -> (v: Vec<(String, String)>)
        ensures
            label_views(v@) == seq![("pool"@, self.pool@), ("requester"@, self.requester@)],
    {
        let mut v: Vec<(String, String)> = Vec::new();
        v.push(("pool".to_owned(), self.pool.clone()));
        v.push(("requester".to_owned(), self.requester.clone()));
        assert(label_views(v@) =~= seq![("pool"@, self.pool@), ("requester"@, self.requester@)]);
        v
    }
}

/// The pool that a series belongs to.
pub open spec fn labelled_pool(labels: Labels) -> PoolId {
    if labels == pool_labels(PoolId::Range) {
        PoolId::Range
    } else {
        PoolId::Agg
    }
}

/// Pools have different labels.
proof fn lemma_pool_labels_differ()
    ensures
        pool_labels(PoolId::Range) != pool_labels(PoolId::Agg),
        PoolId::Range.spec_label() != PoolId::Agg.spec_label(),
{
    reveal_strlit("range");
    reveal_strlit("agg");
    assert("range"@.len() == 5);
    assert("agg"@.len() == 3);
    assert(pool_labels(PoolId::Range)[0].1.len() == 5);
    assert(pool_labels(PoolId::Agg)[0].1.len() == 3);
}

impl PoolCounter {
    /// The series of the family.
    pub open spec fn series(self) -> Map<Labels, int> {
        Map::new(
            |l: Labels|
                (l == pool_labels(PoolId::Range) && self.range is Some) || (l == pool_labels(
                    PoolId::Agg,
                ) && self.agg is Some),
            |l: Labels| self.at(labelled_pool(l))->0 as int,
        )
    }
}

impl PoolGauge {
    /// The series of the family.
    pub open spec fn series(self) -> Map<Labels, int> {
        Map::new(
            |l: Labels|
                (l == pool_labels(PoolId::Range) && self.range is Some) || (l == pool_labels(
                    PoolId::Agg,
                ) && self.agg is Some),
            |l: Labels| self.at(labelled_pool(l))->0 as int,
        )
    }
}

/// The labels of a pool's series.
fn pool_pairs(pool: PoolId) -> (v: Vec<(String, String)>)
    ensures
        label_views(v@) == pool_labels(pool),
{
    let label = PoolLabel { pool: pool.label().to_owned() };
    label.pairs()
}

/// Counts one for `pool`.
fn inc_pool(f: &mut CounterFamily, pool: PoolId)
    requires
        by_pool(counter_series(*old(f)).dom()),
    ensures
        by_pool(counter_series(*final(f)).dom()),
        pool_counter(counter_series(*final(f))) == pool_counter(counter_series(*old(f))).plus(
            pool,
            1,
        ),
{
    counter_family_inc(f, pool_pairs(pool));
    proof {
        lemma_pool_labels_differ();
    }
}

/// Sets the gauge of `pool`.
fn set_pool(f: &mut GaugeFamily, pool: PoolId, v: i64)
    requires
        by_pool(gauge_series(*old(f)).dom()),
    ensures
        by_pool(gauge_series(*final(f)).dom()),
        pool_gauge(gauge_series(*final(f))) == pool_gauge(gauge_series(*old(f))).with(pool, v),
{
    gauge_family_set(f, pool_pairs(pool), v);
    proof {
        lemma_pool_labels_differ();
    }
}

/// A family of counters by pool shows nothing else.
proof fn lemma_counter_series(f: CounterFamily)
    requires
        by_pool(counter_series(f).dom()),
    ensures
        counter_series(f).map_values(|v: u64| v as int) == pool_counter(
            counter_series(f),
        ).series(),
{
    lemma_pool_labels_differ();
    assert(counter_series(f).map_values(|v: u64| v as int) =~= pool_counter(
        counter_series(f),
    ).series());
}

/// A family of gauges by pool shows nothing else.
proof fn lemma_gauge_series(f: GaugeFamily)
    requires
        by_pool(gauge_series(f).dom()),
    ensures
        gauge_series(f).map_values(|v: i64| v as int) == pool_gauge(gauge_series(f)).series(),
{
    lemma_pool_labels_differ();
    assert(gauge_series(f).map_values(|v: i64| v as int) =~= pool_gauge(gauge_series(f)).series());
}

/// The pool and holder that a held-slot series belongs to.
pub open spec fn held_key(labels: Labels) -> (PoolId, Seq<char>) {
    (
        if labels[0].1 == PoolId::Range.spec_label() {
            PoolId::Range
        } else {
            PoolId::Agg
        },
        labels[1].1,
    )
}

/// The held-slot series by their labels.
pub open spec fn held_series(held: Map<(PoolId, Seq<char>), i64>) -> Map<Labels, int> {
    Map::new(
        |l: Labels| l == held_labels(held_key(l)) && held.contains_key(held_key(l)),
        |l: Labels| held[held_key(l)] as int,
    )
}

/// The labels of a held-slot series tell its pool and holder.
proof fn lemma_held_key(key: (PoolId, Seq<char>))
    ensures
        held_key(held_labels(key)) == key,
{
    lemma_pool_labels_differ();
    let l = held_labels(key);
    assert(l[0].1 == key.0.spec_label());
    assert(l[1].1 == key.1);
}

/// A family of gauges by pool and holder shows nothing else.
proof fn lemma_held_series(f: GaugeFamily)
    requires
        by_holder(gauge_series(f).dom()),
    ensures
        gauge_series(f).map_values(|v: i64| v as int) == held_series(held_gauge(gauge_series(f))),
{
    let want = held_series(held_gauge(gauge_series(f)));
    let got = gauge_series(f).map_values(|v: i64| v as int);
    assert forall|l: Labels| #[trigger] got.contains_key(l) <==> want.contains_key(l) by {
        if gauge_series(f).contains_key(l) {
            assert(gauge_series(f).dom().contains(l));
        }
    }
    assert(got =~= want);
}

/// Replaces the held-slot series by those of `rows`, so that a holder that gave
/// everything back stops being shown.
fn publish_held(f: &mut GaugeFamily, rows: &Vec<HeldRow>)
    requires
        held_unique(rows@),
    ensures
        by_holder(gauge_series(*final(f)).dom()),
        held_gauge(gauge_series(*final(f))) == held_map(rows@),
{
    gauge_family_clear(f);
    let mut i: usize = 0;
    while i < rows.len()
        invariant
            i <= rows@.len(),
            held_unique(rows@),
            forall|l: Labels| #[trigger]
                gauge_series(*f).contains_key(l) <==> exists|j: int|
                    0 <= j < i && held_labels((#[trigger] rows@[j]).key()) == l,
            forall|j: int|
                0 <= j < i ==> gauge_series(*f)[held_labels((#[trigger] rows@[j]).key())]
                    == rows@[j].seconds,
        decreases rows@.len() - i,
    {
        let label = PoolRequesterLabel {
            pool: rows[i].pool.label().to_owned(),
            requester: rows[i].requester.clone(),
        };
        let ghost before = gauge_series(*f);
        gauge_family_set(f, label.pairs(), rows[i].seconds);
        proof {
            let key = rows@[i as int].key();
            assert(gauge_series(*f) == before.insert(held_labels(key), rows@[i as int].seconds));
            assert forall|j: int| 0 <= j < i + 1 implies gauge_series(*f)[held_labels(
                (#[trigger] rows@[j]).key(),
            )] == rows@[j].seconds by {
                if j < i {
                    assert(rows@[j].key() != key);
                    lemma_held_key(rows@[j].key());
                    lemma_held_key(key);
                }
            }
            assert forall|l: Labels| #[trigger]
                gauge_series(*f).contains_key(l) <==> exists|j: int|
                    0 <= j < i + 1 && held_labels((#[trigger] rows@[j]).key()) == l by {
                if before.contains_key(l) {
                    let j = choose|j: int|
                        0 <= j < i && held_labels((#[trigger] rows@[j]).key()) == l;
                    assert(held_labels(rows@[j].key()) == l);
                }
                if l == held_labels(key) {
                    assert(held_labels(rows@[i as int].key()) == l);
                }
            }
        }
        i = i + 1;
    }
    proof {
        let series = gauge_series(*f);
        let got = held_gauge(series);
        let want = held_map(rows@);
        assert forall|l: Labels| #[trigger] series.dom().contains(l) implies l == held_labels(
            held_key(l),
        ) by {
            assert(series.contains_key(l));
            let j = choose|j: int|
                0 <= j < rows@.len() && held_labels((#[trigger] rows@[j]).key()) == l;
            lemma_held_key(rows@[j].key());
        }
        assert forall|key: (PoolId, Seq<char>)| #[trigger] got.contains_key(key) <==> want.contains_key(
            key,
        ) by {
            lemma_held_key(key);
            if series.contains_key(held_labels(key)) {
                let j = choose|j: int|
                    0 <= j < rows@.len() && held_labels((#[trigger] rows@[j]).key())
                        == held_labels(key);
                lemma_held_key(rows@[j].key());
                lemma_held_row(rows@, j);
            }
            if held_has(rows@, key) {
                let j = held_index(rows@, key);
                assert(rows@[j].key() == key);
                assert(held_labels(rows@[j].key()) == held_labels(key));
            }
        }
        assert forall|key: (PoolId, Seq<char>)| #[trigger] got.contains_key(key) implies got[key]
            == want[key] by {
            assert(want.contains_key(key));
            let j = held_index(rows@, key);
            assert(rows@[j].key() == key);
        }
        assert(got =~= want);
    }
}

/// A counter per pool, as it is registered.
pub open spec fn pool_counter_metric(name: Seq<char>, help: Seq<char>, c: PoolCounter) -> MetricView {
    MetricView { name, help, gauge: false, labelled: true, series: c.series() }
}

/// A gauge per pool, as it is registered.
pub open spec fn pool_gauge_metric(name: Seq<char>, help: Seq<char>, g: PoolGauge) -> MetricView {
    MetricView { name, help, gauge: true, labelled: true, series: g.series() }
}

/// A counter without labels, as it is registered.
pub open spec fn counter_metric(name: Seq<char>, help: Seq<char>, v: u64) -> MetricView {
    MetricView { name, help, gauge: false, labelled: false, series: single(v as int) }
}

/// A gauge without labels, as it is registered.
pub open spec fn gauge_metric(name: Seq<char>, help: Seq<char>, v: i64) -> MetricView {
    MetricView { name, help, gauge: true, labelled: false, series: single(v as int) }
}

/// The held-slot gauges, as they are registered.
pub open spec fn held_metric(
    name: Seq<char>,
    help: Seq<char>,
    held: Map<(PoolId, Seq<char>), i64>,
) -> MetricView {
    MetricView { name, help, gauge: true, labelled: true, series: held_series(held) }
}

impl MetricsView {
    /// The metrics in the order in which they are exposed.
    pub open spec fn metrics(self) -> Seq<MetricView> {
        seq![
            pool_gauge_metric(
                "gateway_admission_inflight"@,
                "In-flight per pool"@,
                self.inflight,
            ),
            gauge_metric(
                "gateway_admission_global_inflight"@,
                "In-flight across all pools"@,
                self.global_inflight,
            ),
            pool_counter_metric(
                "gateway_admission_admitted"@,
                "Admitted, per pool"@,
                self.admitted,
            ),
            pool_counter_metric(
                "gateway_admission_rejected"@,
                "Rejected (pool cap), per pool"@,
                self.rejected,
            ),
            counter_metric(
                "gateway_admission_rejected_global"@,
                "Rejected (global cap)"@,
                self.rejected_global,
            ),
            pool_counter_metric(
                "gateway_admission_would_reject"@,
                "Dry-run over-cap admits, per pool"@,
                self.would_reject,
            ),
            pool_counter_metric(
                "gateway_admission_reaped"@,
                "Slots reclaimed by the reaper, per pool"@,
                self.reaped,
            ),
            pool_counter_metric(
                "gateway_admission_reconciled"@,
                "Slots released by the cluster-truth reconciler (proof no longer pending), per pool"@,
                self.reconciled,
            ),
            pool_counter_metric(
                "gateway_admission_seeded"@,
                "Slots seeded from cluster in-flight proofs at restart, per pool"@,
                self.seeded,
            ),
            counter_metric(
                "gateway_admission_unclassified"@,
                "Requests passed through ungated"@,
                self.unclassified,
            ),
            pool_counter_metric(
                "gateway_admission_priority_yielded"@,
                "Requests shed by yielding a free slot to a higher-priority proposer, per pool"@,
                self.priority_yielded,
            ),
            pool_counter_metric(
                "gateway_admission_priority_would_yield"@,
                "Dry-run: requests that WOULD have yielded, per pool"@,
                self.priority_would_yield,
            ),
            pool_gauge_metric(
                "gateway_admission_priority_demand"@,
                "Current fresh priority demanders, per pool"@,
                self.priority_demand,
            ),
            pool_counter_metric(
                "gateway_admission_priority_hold_open"@,
                "Yield events (a free slot held for a higher-priority proposer), per pool"@,
                self.priority_hold_open,
            ),
            held_metric(
                "gateway_admission_slot_held_seconds"@,
                "Age of the oldest slot each requester currently holds, per pool"@,
                self.slot_held_seconds,
            ),
        ]
    }
}

/// The body of a scrape: what was encoded, or nothing after an error.
pub fn scrape_body(encoded: Option<String>) -> (s: String)
    ensures
        match encoded {
            Some(text) => s@ == text@,
            None => s@.len() == 0,
        },
{
    match encoded {
        Some(text) => text,
        None => String::new(),
    }
}

impl AdmissionMetrics {
    /// Every metric under its name and help text.
    fn scrape(&self) -> (r: Scrape<'_>)
        requires
            self.wf(),
        ensures
            registered(r.registry) == self@.metrics(),
            plain(r.registry),
    {
        let mut r = scrape_new();
        register_gauge_family(
            &mut r,
            "gateway_admission_inflight",
            "In-flight per pool",
            &self.inflight,
        );
        register_gauge(
            &mut r,
            "gateway_admission_global_inflight",
            "In-flight across all pools",
            &self.global_inflight,
        );
        register_counter_family(
            &mut r,
            "gateway_admission_admitted",
            "Admitted, per pool",
            &self.admitted,
        );
        register_counter_family(
            &mut r,
            "gateway_admission_rejected",
            "Rejected (pool cap), per pool",
            &self.rejected,
        );
        register_counter(
            &mut r,
            "gateway_admission_rejected_global",
            "Rejected (global cap)",
            &self.rejected_global,
        );
        register_counter_family(
            &mut r,
            "gateway_admission_would_reject",
            "Dry-run over-cap admits, per pool",
            &self.would_reject,
        );
        register_counter_family(
            &mut r,
            "gateway_admission_reaped",
            "Slots reclaimed by the reaper, per pool",
            &self.reaped,
        );
        register_counter_family(
            &mut r,
            "gateway_admission_reconciled",
            "Slots released by the cluster-truth reconciler (proof no longer pending), per pool",
            &self.reconciled,
        );
        register_counter_family(
            &mut r,
            "gateway_admission_seeded",
            "Slots seeded from cluster in-flight proofs at restart, per pool",
            &self.seeded,
        );
        register_counter(
            &mut r,
            "gateway_admission_unclassified",
            "Requests passed through ungated",
            &self.unclassified,
        );
        register_counter_family(
            &mut r,
            "gateway_admission_priority_yielded",
            "Requests shed by yielding a free slot to a higher-priority proposer, per pool",
            &self.priority_yielded,
        );
        register_counter_family(
            &mut r,
            "gateway_admission_priority_would_yield",
            "Dry-run: requests that WOULD have yielded, per pool",
            &self.priority_would_yield,
        );
        register_gauge_family(
            &mut r,
            "gateway_admission_priority_demand",
            "Current fresh priority demanders, per pool",
            &self.priority_demand,
        );
        register_counter_family(
            &mut r,
            "gateway_admission_priority_hold_open",
            "Yield events (a free slot held for a higher-priority proposer), per pool",
            &self.priority_hold_open,
        );
        register_gauge_family(
            &mut r,
            "gateway_admission_slot_held_seconds",
            "Age of the oldest slot each requester currently holds, per pool",
            &self.slot_held_seconds,
        );
        proof {
            lemma_gauge_series(self.inflight);
            lemma_counter_series(self.admitted);
            lemma_counter_series(self.rejected);
            lemma_counter_series(self.would_reject);
            lemma_counter_series(self.reaped);
            lemma_counter_series(self.reconciled);
            lemma_counter_series(self.seeded);
            lemma_counter_series(self.priority_yielded);
            lemma_counter_series(self.priority_would_yield);
            lemma_gauge_series(self.priority_demand);
            lemma_counter_series(self.priority_hold_open);
            lemma_held_series(self.slot_held_seconds);
            assert(registered(r.registry) =~= self@.metrics());
        }
        r
    }

    /// The text that a scrape gets: every metric, series by series.
    pub fn render(&self) -> (s: String)
        requires
            self.wf(),
        ensures
            is_exposition(self@.metrics(), s@),
    {
        let r = self.scrape();
        scrape_body(encode_text(&r))
    }
}

/// The metric called `name` counts up and shows, for each pool that was ever
/// counted and for no other, what was counted.
pub open spec fn counts_pools(m: MetricView, name: Seq<char>, c: PoolCounter) -> bool {
    let range = seq![("pool"@, "range"@)];
    let agg = seq![("pool"@, "agg"@)];
    &&& m.name == name && !m.gauge && m.labelled
    &&& forall|l: Labels| #[trigger] m.series.contains_key(l) ==> l == range || l == agg
    &&& m.series.contains_key(range) <==> c.range is Some
    &&& m.series.contains_key(agg) <==> c.agg is Some
    &&& c.range matches Some(n) ==> m.series[range] == n
    &&& c.agg matches Some(n) ==> m.series[agg] == n
}

/// The metric called `name` is a gauge and shows, for each pool that was ever
/// set and for no other, what it was set to.
pub open spec fn gauges_pools(m: MetricView, name: Seq<char>, g: PoolGauge) -> bool {
    let range = seq![("pool"@, "range"@)];
    let agg = seq![("pool"@, "agg"@)];
    &&& m.name == name && m.gauge && m.labelled
    &&& forall|l: Labels| #[trigger] m.series.contains_key(l) ==> l == range || l == agg
    &&& m.series.contains_key(range) <==> g.range is Some
    &&& m.series.contains_key(agg) <==> g.agg is Some
    &&& g.range matches Some(n) ==> m.series[range] == n
    &&& g.agg matches Some(n) ==> m.series[agg] == n
}

/// The metric called `name` has one value and no labels.
pub open spec fn shows_one(m: MetricView, name: Seq<char>, gauge: bool, n: int) -> bool {
    let plain: Labels = Seq::empty();
    &&& m.name == name && m.gauge == gauge && !m.labelled
    &&& forall|l: Labels| #[trigger] m.series.contains_key(l) <==> l == plain
    &&& m.series[plain] == n
}

/// A counter per pool shows what it counted.
proof fn lemma_counts_pools(name: Seq<char>, help: Seq<char>, c: PoolCounter)
    ensures
        counts_pools(pool_counter_metric(name, help, c), name, c),
{
    lemma_pool_labels_differ();
    assert(seq![("pool"@, "range"@)] == pool_labels(PoolId::Range));
    assert(seq![("pool"@, "agg"@)] == pool_labels(PoolId::Agg));
}

/// A gauge per pool shows what it was set to.
proof fn lemma_gauges_pools(name: Seq<char>, help: Seq<char>, g: PoolGauge)
    ensures
        gauges_pools(pool_gauge_metric(name, help, g), name, g),
{
    lemma_pool_labels_differ();
    assert(seq![("pool"@, "range"@)] == pool_labels(PoolId::Range));
    assert(seq![("pool"@, "agg"@)] == pool_labels(PoolId::Agg));
}

/// Each metric is exposed under its own name, as a counter or a gauge, and shows
/// what was counted, pool by pool.
pub proof fn law_metrics_are_named(v: MetricsView)
    ensures
        v.metrics().len() == 15,
        gauges_pools(v.metrics()[0], "gateway_admission_inflight"@, v.inflight),
        shows_one(v.metrics()[1], "gateway_admission_global_inflight"@, true, v.global_inflight as int),
        counts_pools(v.metrics()[2], "gateway_admission_admitted"@, v.admitted),
        counts_pools(v.metrics()[3], "gateway_admission_rejected"@, v.rejected),
        shows_one(v.metrics()[4], "gateway_admission_rejected_global"@, false, v.rejected_global as int),
        counts_pools(v.metrics()[5], "gateway_admission_would_reject"@, v.would_reject),
        counts_pools(v.metrics()[6], "gateway_admission_reaped"@, v.reaped),
        counts_pools(v.metrics()[7], "gateway_admission_reconciled"@, v.reconciled),
        counts_pools(v.metrics()[8], "gateway_admission_seeded"@, v.seeded),
        shows_one(v.metrics()[9], "gateway_admission_unclassified"@, false, v.unclassified as int),
        counts_pools(v.metrics()[10], "gateway_admission_priority_yielded"@, v.priority_yielded),
        counts_pools(
            v.metrics()[11],
            "gateway_admission_priority_would_yield"@,
            v.priority_would_yield,
        ),
        gauges_pools(v.metrics()[12], "gateway_admission_priority_demand"@, v.priority_demand),
        counts_pools(
            v.metrics()[13],
            "gateway_admission_priority_hold_open"@,
            v.priority_hold_open,
        ),
        v.metrics()[14].name == "gateway_admission_slot_held_seconds"@,
        v.metrics()[14].gauge && v.metrics()[14].labelled,
{
    lemma_gauges_pools("gateway_admission_inflight"@, v.metrics()[0].help, v.inflight);
    lemma_counts_pools("gateway_admission_admitted"@, v.metrics()[2].help, v.admitted);
    lemma_counts_pools("gateway_admission_rejected"@, v.metrics()[3].help, v.rejected);
    lemma_counts_pools("gateway_admission_would_reject"@, v.metrics()[5].help, v.would_reject);
    lemma_counts_pools("gateway_admission_reaped"@, v.metrics()[6].help, v.reaped);
    lemma_counts_pools("gateway_admission_reconciled"@, v.metrics()[7].help, v.reconciled);
    lemma_counts_pools("gateway_admission_seeded"@, v.metrics()[8].help, v.seeded);
    lemma_counts_pools(
        "gateway_admission_priority_yielded"@,
        v.metrics()[10].help,
        v.priority_yielded,
    );
    lemma_counts_pools(
        "gateway_admission_priority_would_yield"@,
        v.metrics()[11].help,
        v.priority_would_yield,
    );
    lemma_gauges_pools(
        "gateway_admission_priority_demand"@,
        v.metrics()[12].help,
        v.priority_demand,
    );
    lemma_counts_pools(
        "gateway_admission_priority_hold_open"@,
        v.metrics()[13].help,
        v.priority_hold_open,
    );
}

/// Each holder's age is exposed under its pool and its name, and nothing else
/// is.
pub proof fn law_ages_are_named(v: MetricsView, who: Seq<char>, l: Labels)
    ensures
        ({
            let series = v.metrics()[14].series;
            let held = v.slot_held_seconds;
            let range = seq![("pool"@, "range"@), ("requester"@, who)];
            let agg = seq![("pool"@, "agg"@), ("requester"@, who)];
            &&& series.contains_key(range) <==> held.contains_key((PoolId::Range, who))
            &&& series.contains_key(agg) <==> held.contains_key((PoolId::Agg, who))
            &&& series.contains_key(range) ==> series[range] == held[(PoolId::Range, who)]
            &&& series.contains_key(agg) ==> series[agg] == held[(PoolId::Agg, who)]
            &&& series.contains_key(l) ==> l.len() == 2 && l[0].0 == "pool"@ && l[1].0
                == "requester"@
        }),
{
    let range = seq![("pool"@, "range"@), ("requester"@, who)];
    let agg = seq![("pool"@, "agg"@), ("requester"@, who)];
    assert(v.metrics()[14].series == held_series(v.slot_held_seconds));
    lemma_held_key((PoolId::Range, who));
    lemma_held_key((PoolId::Agg, who));
    assert(range =~= held_labels((PoolId::Range, who)));
    assert(agg =~= held_labels((PoolId::Agg, who)));
}

} // verus!
