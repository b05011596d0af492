//! The text format in which metrics are exposed.
use std::marker::PhantomData;

use vstd::prelude::*;

use prometheus_client::encoding::text::encode;
use prometheus_client::metrics::counter::Counter;
use prometheus_client::metrics::family::Family;
use prometheus_client::metrics::gauge::Gauge;
use prometheus_client::registry::Registry;

use crate::text::decimal_int;

verus! {

/// The labels of one series: names and values, in order.
pub type Labels = Seq<(Seq<char>, Seq<char>)>;

/// The texts of a label list.
pub open spec fn label_views(labels: Seq<(String, String)>) -> Labels {
    labels.map_values(|l: (String, String)| (l.0@, l.1@))
}

/// A metric as it is registered.
#[verifier::ext_equal]
pub struct MetricView {
    pub name: Seq<char>,
    pub help: Seq<char>,
    /// A gauge, otherwise a counter.
    pub gauge: bool,
    /// A family of labelled series, otherwise one series without labels.
    pub labelled: bool,
    pub series: Map<Labels, int>,
}

/// `name="value"` pairs, separated by commas.
pub open spec fn label_list(labels: Labels) -> Seq<char>
    decreases labels.len(),
{
    if labels.len() == 0 {
        Seq::empty()
    } else {
        let last = labels.last();
        let pair = last.0 + "=\""@ + last.1 + "\""@;
        if labels.len() == 1 {
            pair
        } else {
            label_list(labels.drop_last()) + ","@ + pair
        }
    }
}

impl MetricView {
    /// The line of one series.
    pub open spec fn sample(self, labels: Labels) -> Seq<char> {
        self.name + (if self.gauge {
            ""@
        } else {
            "_total"@
        }) + (if self.labelled {
            "{"@ + label_list(labels) + "}"@
        } else {
            ""@
        }) + " "@ + decimal_int(self.series[labels]) + "\n"@
    }

    /// The lines of some series, in order.
    pub open spec fn samples(self, order: Seq<Labels>) -> Seq<char>
        decreases order.len(),
    {
        if order.len() == 0 {
            Seq::empty()
        } else {
            self.samples(order.drop_last()) + self.sample(order.last())
        }
    }

    /// The lines that come before the samples.
    pub open spec fn header(self) -> Seq<char> {
        "# HELP "@ + self.name + " "@ + self.help + ".\n# TYPE "@ + self.name + " "@ + (
        if self.gauge {
            "gauge"@
        } else {
            "counter"@
        }) + "\n"@
    }

    /// `body` shows this metric: its header, then each of its series once, in
    /// some order.
    pub open spec fn shown_by(self, body: Seq<char>) -> bool {
        exists|order: Seq<Labels>|
            {
                &&& order.no_duplicates()
                &&& order.to_set() == self.series.dom()
                &&& body == self.header() + #[trigger] self.samples(order)
            }
    }
}

/// `text` shows the metrics one after the other and ends with the end marker.
pub open spec fn is_exposition(metrics: Seq<MetricView>, text: Seq<char>) -> bool {
    exists|bodies: Seq<Seq<char>>|
        {
            &&& bodies.len() == metrics.len()
            &&& forall|i: int|
                0 <= i < metrics.len() ==> (#[trigger] metrics[i]).shown_by(bodies[i])
            &&& text == (#[trigger] bodies.flatten()) + "# EOF\n"@
        }
}

#[verifier::external_type_specification]
#[verifier::external_body]
pub struct ExRegistry(Registry);

#[verifier::external_type_specification]
#[verifier::external_body]
#[verifier::reject_recursive_types(N)]
#[verifier::reject_recursive_types(A)]
pub struct ExCounter<N, A>(Counter<N, A>);

#[verifier::external_type_specification]
#[verifier::external_body]
#[verifier::reject_recursive_types(N)]
#[verifier::reject_recursive_types(A)]
pub struct ExGauge<N, A>(Gauge<N, A>);

/// A family of counters, by labels. The type of `Family` names a function
/// pointer, so it stands behind this one.
#[verifier::external_body]
pub struct CounterFamily {
    inner: Family<Vec<(String, String)>, Counter>,
}

/// A family of gauges, by labels.
#[verifier::external_body]
pub struct GaugeFamily {
    inner: Family<Vec<(String, String)>, Gauge>,
}

/// The series of a family of counters.
pub uninterp spec fn counter_series(f: CounterFamily) -> Map<Labels, u64>;

/// The series of a family of gauges.
pub uninterp spec fn gauge_series(f: GaugeFamily) -> Map<Labels, i64>;

/// The count of a counter.
pub uninterp spec fn counter_count(c: Counter) -> u64;

/// The value of a gauge.
pub uninterp spec fn gauge_level(g: Gauge) -> i64;

/// The metrics of a registry, in the order of their registration.
pub uninterp spec fn registered(r: Registry) -> Seq<MetricView>;

/// A registry without prefix, labels, collectors and sub-registries that holds
/// nothing but counters of 64 unsigned bits, gauges of 64 signed bits and
/// families of these.
pub uninterp spec fn plain(r: Registry) -> bool;

/// One more than `c`, wrapping at 64 bits.
pub open spec fn next_count(c: u64) -> u64 {
    ((c + 1) % 0x1_0000_0000_0000_0000) as u64
}

/// `Counter::default`: a counter at zero.
#[verifier::external_body]
pub(crate) fn counter_new() -> (c: Counter)
    ensures
        counter_count(c) == 0,
{
    Counter::default()
}

/// `Counter::inc`: counts one; the count wraps at 64 bits.
#[verifier::external_body]
pub(crate) fn counter_inc(c: &mut Counter)
    ensures
        counter_count(*final(c)) == next_count(counter_count(*old(c))),
{
    c.inc();
}

/// `Gauge::default`: a gauge at zero.
#[verifier::external_body]
pub(crate) fn gauge_new() -> (g: Gauge)
    ensures
        gauge_level(g) == 0,
{
    Gauge::default()
}

/// `Gauge::set`: the gauge shows `v`.
#[verifier::external_body]
pub(crate) fn gauge_set(g: &mut Gauge, v: i64)
    ensures
        gauge_level(*final(g)) == v,
{
    g.set(v);
}

/// `Family::default`: a family without series.
#[verifier::external_body]
pub(crate) fn counter_family_new() -> (f: CounterFamily)
    ensures
        counter_series(f).dom() =~= Set::empty(),
{
    CounterFamily { inner: Family::default() }
}

/// `Family::get_or_create`, then `Counter::inc`: counts one in the series,
/// which starts at zero, and wraps at 64 bits; no other series changes.
#[verifier::external_body]
pub(crate) fn counter_family_inc(f: &mut CounterFamily, labels: Vec<(String, String)>)
    ensures
        counter_series(*final(f)) == counter_series(*old(f)).insert(
            label_views(labels@),
            if counter_series(*old(f)).contains_key(label_views(labels@)) {
                next_count(counter_series(*old(f))[label_views(labels@)])
            } else {
                1
            },
        ),
{
    f.inner.get_or_create(&labels).inc();
}

/// `Family::default`: a family without series.
#[verifier::external_body]
pub(crate) fn gauge_family_new() -> (f: GaugeFamily)
    ensures
        gauge_series(f).dom() =~= Set::empty(),
{
    GaugeFamily { inner: Family::default() }
}

/// `Family::get_or_create`, then `Gauge::set`: the series shows `v`; no other
/// series changes.
#[verifier::external_body]
pub(crate) fn gauge_family_set(f: &mut GaugeFamily, labels: Vec<(String, String)>, v: i64)
    ensures
        gauge_series(*final(f)) == gauge_series(*old(f)).insert(label_views(labels@), v),
{
    f.inner.get_or_create(&labels).set(v);
}

/// `Family::clear`: the family has no series any more.
#[verifier::external_body]
pub(crate) fn gauge_family_clear(f: &mut GaugeFamily)
    ensures
        gauge_series(*final(f)).dom() =~= Set::empty(),
{
    f.inner.clear();
}

/// A registry for one scrape. It shares what it shows with its owner, so it
/// borrows it: nothing that it shows changes while it lives.
pub struct Scrape<'a> {
    pub(crate) registry: Registry,
    pub(crate) shown: PhantomData<&'a CounterFamily>,
}

/// `Registry::default`: a plain registry without metrics.
#[verifier::external_body]
pub(crate) fn scrape_new<'a>() -> (s: Scrape<'a>)
    ensures
        registered(s.registry).len() == 0,
        plain(s.registry),
{
    Scrape { registry: Registry::default(), shown: PhantomData }
}

/// `Registry::register` of a counter: it comes after the metrics registered so
/// far, and a plain registry stays plain.
#[verifier::external_body]
pub(crate) fn register_counter<'a>(s: &mut Scrape<'a>, name: &str, help: &str, c: &'a Counter)
    ensures
        registered(final(s).registry) == registered(old(s).registry).push(
            MetricView {
                name: name@,
                help: help@,
                gauge: false,
                labelled: false,
                series: single(counter_count(*c) as int),
            },
        ),
        plain(old(s).registry) ==> plain(final(s).registry),
{
    s.registry.register(name, help, c.clone());
}

/// `Registry::register` of a gauge, as with a counter.
#[verifier::external_body]
pub(crate) fn register_gauge<'a>(s: &mut Scrape<'a>, name: &str, help: &str, g: &'a Gauge)
    ensures
        registered(final(s).registry) == registered(old(s).registry).push(
            MetricView {
                name: name@,
                help: help@,
                gauge: true,
                labelled: false,
                series: single(gauge_level(*g) as int),
            },
        ),
        plain(old(s).registry) ==> plain(final(s).registry),
{
    s.registry.register(name, help, g.clone());
}

/// `Registry::register` of a family of counters, as with a counter.
#[verifier::external_body]
pub(crate) fn register_counter_family<'a>(
    s: &mut Scrape<'a>,
    name: &str,
    help: &str,
    f: &'a CounterFamily,
)
    ensures
        registered(final(s).registry) == registered(old(s).registry).push(
            MetricView {
                name: name@,
                help: help@,
                gauge: false,
                labelled: true,
                series: counter_series(*f).map_values(|v: u64| v as int),
            },
        ),
        plain(old(s).registry) ==> plain(final(s).registry),
{
    s.registry.register(name, help, f.inner.clone());
}

/// `Registry::register` of a family of gauges, as with a counter.
#[verifier::external_body]
pub(crate) fn register_gauge_family<'a>(
    s: &mut Scrape<'a>,
    name: &str,
    help: &str,
    f: &'a GaugeFamily,
)
    ensures
        registered(final(s).registry) == registered(old(s).registry).push(
            MetricView {
                name: name@,
                help: help@,
                gauge: true,
                labelled: true,
                series: gauge_series(*f).map_values(|v: i64| v as int),
            },
        ),
        plain(old(s).registry) ==> plain(final(s).registry),
{
    s.registry.register(name, help, f.inner.clone());
}

/// `prometheus_client::encoding::text::encode` of a plain registry into an empty
/// string: the text shows the registered metrics in the order of their
/// registration. The series of a family come in the order of a hash map, so
/// their order is left open. `None` stands for a formatting error: of counters
/// and signed gauges the encoder only passes on the errors of the string that
/// it writes to, and a string gives none.
#[verifier::external_body]
pub(crate) fn encode_text(s: &Scrape<'_>) -> (text: Option<String>)
    requires
        plain(s.registry),
    ensures
        text is Some,
        is_exposition(registered(s.registry), text->0@),
{
    let mut buf = String::new();
    encode(&mut buf, &s.registry).ok().map(|_| buf)
}

/// One series without labels.
pub open spec fn single(v: int) -> Map<Labels, int> {
    Map::<Labels, int>::empty().insert(Seq::empty(), v)
}

/// The line of a series stands in the lines of all series.
proof fn lemma_sample_in_samples(m: MetricView, order: Seq<Labels>, i: int)
    requires
        0 <= i < order.len(),
    ensures
        exists|a: Seq<char>, b: Seq<char>|
            m.samples(order) == #[trigger] (a + m.sample(order[i]) + b),
    decreases order.len(),
{
    let line = m.sample(order[i]);
    if i == order.len() - 1 {
        let a = m.samples(order.drop_last());
        assert(m.samples(order) =~= a + line + Seq::<char>::empty());
    } else {
        lemma_sample_in_samples(m, order.drop_last(), i);
        let (a, b) = choose|a: Seq<char>, b: Seq<char>|
            m.samples(order.drop_last()) == #[trigger] (a + line + b);
        assert(m.samples(order) =~= a + line + (b + m.sample(order.last())));
    }
}

/// Each part of a flattened sequence stands in it.
proof fn lemma_part_in_flatten(parts: Seq<Seq<char>>, i: int)
    requires
        0 <= i < parts.len(),
    ensures
        exists|a: Seq<char>, b: Seq<char>| parts.flatten() == #[trigger] (a + parts[i] + b),
    decreases parts.len(),
{
    if i == 0 {
        let b = parts.drop_first().flatten();
        assert(parts.flatten() =~= Seq::<char>::empty() + parts[0] + b);
    } else {
        let rest = parts.drop_first();
        lemma_part_in_flatten(rest, i - 1);
        let (a, b) = choose|a: Seq<char>, b: Seq<char>|
            rest.flatten() == #[trigger] (a + rest[i - 1] + b);
        assert(parts.flatten() =~= (parts[0] + a) + parts[i] + b);
    }
}

/// Every series of every metric has its line in the text.
pub proof fn law_series_is_shown(metrics: Seq<MetricView>, text: Seq<char>, i: int, labels: Labels)
    requires
        is_exposition(metrics, text),
        0 <= i < metrics.len(),
        metrics[i].series.contains_key(labels),
    ensures
        exists|a: Seq<char>, b: Seq<char>| text == #[trigger] (a + metrics[i].sample(labels) + b),
{
    let m = metrics[i];
    let line = m.sample(labels);
    let bodies = choose|bodies: Seq<Seq<char>>|
        {
            &&& bodies.len() == metrics.len()
            &&& forall|i: int|
                0 <= i < metrics.len() ==> (#[trigger] metrics[i]).shown_by(bodies[i])
            &&& text == (#[trigger] bodies.flatten()) + "# EOF\n"@
        };
    assert(m.shown_by(bodies[i]));
    let order = choose|order: Seq<Labels>|
        {
            &&& order.no_duplicates()
            &&& order.to_set() == m.series.dom()
            &&& bodies[i] == m.header() + #[trigger] m.samples(order)
        };
    assert(order.to_set().contains(labels));
    let k = choose|k: int| 0 <= k < order.len() && order[k] == labels;
    lemma_sample_in_samples(m, order, k);
    let (a1, b1) = choose|a: Seq<char>, b: Seq<char>|
        m.samples(order) == #[trigger] (a + line + b);
    lemma_part_in_flatten(bodies, i);
    let (a2, b2) = choose|a: Seq<char>, b: Seq<char>|
        bodies.flatten() == #[trigger] (a + bodies[i] + b);
    assert(text =~= (a2 + m.header() + a1) + line + (b1 + b2 + "# EOF\n"@));
}

} // verus!
