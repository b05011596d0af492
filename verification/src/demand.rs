//! Outstanding demand for pool slots, which drives priority.
use vstd::prelude::*;

use dashmap::DashMap;

use crate::pool::PoolId;
use crate::tables::copy_bytes;
use crate::time::{elapsed, instant_ok, time_since, Duration};

verus! {

/// A proposer's outstanding demand for a pool slot.
#[derive(Clone, Copy, Debug)]
pub struct Demand {
    pub rank: u32,
    /// When this spell of waiting began: first come, first served.
    pub first_seen: i128,
    /// When the proposer was last turned away.
    pub last_seen: i128,
}

impl Demand {
    /// Both instants are in range.
    pub open spec fn wf(self) -> bool {
        instant_ok(self.first_seen as int) && instant_ok(self.last_seen as int)
    }

    /// Still waiting at `now`: turned away no longer than `ttl` ago.
    pub open spec fn fresh(self, now: int, ttl: int) -> bool {
        elapsed(now, self.last_seen as int) <= ttl
    }

    /// Still waiting at `now`: turned away no longer than `ttl` ago.
    pub fn is_fresh(&self, now: i128, ttl: Duration) -> (b: bool)
        requires
            instant_ok(now as int),
            self.wf(),
        ensures
            b == self.fresh(now as int, ttl.nanos()),
    {
        time_since(now, self.last_seen) <= ttl.as_nanos()
    }
}

/// The demand that a map holds. A key is whether the pool is the aggregation
/// pool, and the proposer.
pub uninterp spec fn demand_table(m: DashMap<(bool, Vec<u8>), Demand>) -> Map<
    (bool, Seq<u8>),
    Demand,
>;

/// The plain form of a key.
pub open spec fn plain_key(k: (PoolId, Seq<u8>)) -> (bool, Seq<u8>) {
    (k.0 == PoolId::Agg, k.1)
}

/// The pool of a plain key.
pub open spec fn plain_pool(agg: bool) -> PoolId {
    if agg {
        PoolId::Agg
    } else {
        PoolId::Range
    }
}

/// The demand that a map holds, by pool and proposer.
pub open spec fn demand_rows(m: DashMap<(bool, Vec<u8>), Demand>) -> Map<
    (PoolId, Seq<u8>),
    Demand,
> {
    Map::new(
        |k: (PoolId, Seq<u8>)| demand_table(m).contains_key(plain_key(k)),
        |k: (PoolId, Seq<u8>)| demand_table(m)[plain_key(k)],
    )
}

/// The key of an entry.
pub open spec fn entry_key(e: (PoolId, Vec<u8>, Demand)) -> (PoolId, Seq<u8>) {
    (e.0, e.1@)
}

/// The keys of a list of entries.
pub open spec fn entry_keys(s: Seq<(PoolId, Vec<u8>, Demand)>) -> Seq<(PoolId, Seq<u8>)> {
    s.map_values(|e: (PoolId, Vec<u8>, Demand)| entry_key(e))
}

/// The plain keys of a list of entries.
pub open spec fn plain_keys(s: Seq<(bool, Vec<u8>, Demand)>) -> Seq<(bool, Seq<u8>)> {
    s.map_values(|e: (bool, Vec<u8>, Demand)| (e.0, e.1@))
}

/// `DashMap::new`: a map that holds nothing.
#[verifier::external_body]
fn table_new() -> (m: DashMap<(bool, Vec<u8>), Demand>)
    ensures
        demand_table(m).dom() =~= Set::empty(),
{
    DashMap::new()
}

/// `DashMap::insert`: the key holds the given demand afterwards, whatever it
/// held before; no other key changes.
#[verifier::external_body]
fn table_insert(
    m: &mut DashMap<(bool, Vec<u8>), Demand>,
    agg: bool,
    requester: Vec<u8>,
    d: Demand,
)
    ensures
        demand_table(*final(m)) == demand_table(*old(m)).insert((agg, requester@), d),
{
    m.insert((agg, requester), d);
}

/// `DashMap::get`: the demand that the key holds.
#[verifier::external_body]
fn table_get(m: &DashMap<(bool, Vec<u8>), Demand>, agg: bool, requester: Vec<u8>) -> (r: Option<
    Demand,
>)
    ensures
        match r {
            Some(d) => demand_table(*m).contains_key((agg, requester@)) && d == demand_table(
                *m,
            )[(agg, requester@)],
            None => !demand_table(*m).contains_key((agg, requester@)),
        },
{
    m.get(&(agg, requester)).map(|row| *row.value())
}

/// `DashMap::remove`: takes the key out of the map; no other key changes.
#[verifier::external_body]
fn table_remove(m: &mut DashMap<(bool, Vec<u8>), Demand>, agg: bool, requester: Vec<u8>)
    ensures
        demand_table(*final(m)) == demand_table(*old(m)).remove((agg, requester@)),
{
    m.remove(&(agg, requester));
}

/// `DashMap::iter`: walks every entry once, in no particular order. The keys
/// come out without repetition, are exactly the keys of the map, and each
/// comes with what it holds.
#[verifier::external_body]
fn table_entries(m: &DashMap<(bool, Vec<u8>), Demand>) -> (es: Vec<(bool, Vec<u8>, Demand)>)
    ensures
        plain_keys(es@).no_duplicates(),
        plain_keys(es@).to_set() == demand_table(*m).dom(),
        forall|i: int|
            0 <= i < es@.len() ==> (#[trigger] es@[i]).2 == demand_table(
                *m,
            )[(es@[i].0, es@[i].1@)],
{
    m.iter().map(|row| (row.key().0, row.key().1.clone(), *row.value())).collect()
}

/// `DashMap::retain`, with [`Demand::is_fresh`] as the predicate: keeps the
/// entries that are still fresh at `now` and drops the others.
#[verifier::external_body]
fn table_retain_fresh(m: &mut DashMap<(bool, Vec<u8>), Demand>, now: i128, ttl: Duration)
    requires
        instant_ok(now as int),
        forall|k: (bool, Seq<u8>)| #[trigger]
            demand_table(*old(m)).contains_key(k) ==> demand_table(*old(m))[k].wf(),
    ensures
        demand_table(*final(m)) == demand_table(*old(m)).restrict(
            Set::new(
                |k: (bool, Seq<u8>)| demand_table(*old(m))[k].fresh(now as int, ttl.nanos()),
            ),
        ),
{
    m.retain(|_, d| d.is_fresh(now, ttl));
}

/// `DashMap::is_empty`: whether the map holds nothing.
#[verifier::external_body]
fn table_is_empty(m: &DashMap<(bool, Vec<u8>), Demand>) -> (b: bool)
    ensures
        b == (demand_table(*m).dom() =~= Set::empty()),
{
    m.is_empty()
}

/// Whether a pool is the aggregation pool.
fn is_agg(pool: PoolId) -> (b: bool)
    ensures
        b == (pool == PoolId::Agg),
{
    match pool {
        PoolId::Range => false,
        PoolId::Agg => true,
    }
}

/// A map that holds nothing.
pub(crate) fn demand_new() -> (m: DashMap<(bool, Vec<u8>), Demand>)
    ensures
        demand_rows(m) == Map::<(PoolId, Seq<u8>), Demand>::empty(),
{
    let m = table_new();
    assert(demand_rows(m) =~= Map::<(PoolId, Seq<u8>), Demand>::empty());
    m
}

/// Stores demand under its pool and proposer.
pub(crate) fn demand_insert(
    m: &mut DashMap<(bool, Vec<u8>), Demand>,
    pool: PoolId,
    requester: Vec<u8>,
    d: Demand,
)
    ensures
        demand_rows(*final(m)) == demand_rows(*old(m)).insert((pool, requester@), d),
{
    let ghost before = demand_rows(*m);
    let ghost key = (pool, requester@);
    table_insert(m, is_agg(pool), requester, d);
    assert(demand_rows(*m) =~= before.insert(key, d));
}

/// The demand of a proposer for a pool.
pub(crate) fn demand_get(
    m: &DashMap<(bool, Vec<u8>), Demand>,
    pool: PoolId,
    requester: Vec<u8>,
) -> (r: Option<Demand>)
    ensures
        match r {
            Some(d) => demand_rows(*m).contains_key((pool, requester@)) && d == demand_rows(
                *m,
            )[(pool, requester@)],
            None => !demand_rows(*m).contains_key((pool, requester@)),
        },
{
    table_get(m, is_agg(pool), requester)
}

/// Forgets the demand of a proposer for a pool.
pub(crate) fn demand_remove(
    m: &mut DashMap<(bool, Vec<u8>), Demand>,
    pool: PoolId,
    requester: Vec<u8>,
)
    ensures
        demand_rows(*final(m)) == demand_rows(*old(m)).remove((pool, requester@)),
{
    let ghost before = demand_rows(*m);
    let ghost key = (pool, requester@);
    table_remove(m, is_agg(pool), requester);
    assert(demand_rows(*m) =~= before.remove(key));
}

/// Every entry once, in no particular order.
pub(crate) fn demand_entries(m: &DashMap<(bool, Vec<u8>), Demand>) -> (es: Vec<
    (PoolId, Vec<u8>, Demand),
>)
    ensures
        entry_keys(es@).no_duplicates(),
        entry_keys(es@).to_set() == demand_rows(*m).dom(),
        forall|i: int|
            0 <= i < es@.len() ==> (#[trigger] es@[i]).2 == demand_rows(*m)[entry_key(es@[i])],
{
    let plain = table_entries(m);
    let ghost keys = plain_keys(plain@);
    let mut es: Vec<(PoolId, Vec<u8>, Demand)> = Vec::new();
    let mut i: usize = 0;
    while i < plain.len()
        invariant
            i <= plain@.len(),
            es@.len() == i,
            forall|j: int|
                0 <= j < i ==> {
                    &&& (#[trigger] es@[j]).0 == plain_pool(plain@[j].0)
                    &&& es@[j].1@ == plain@[j].1@
                    &&& es@[j].2 == plain@[j].2
                },
        decreases plain@.len() - i,
    {
        let pool = if plain[i].0 {
            PoolId::Agg
        } else {
            PoolId::Range
        };
        es.push((pool, copy_bytes(plain[i].1.as_slice()), plain[i].2));
        i = i + 1;
    }
    proof {
        let got = entry_keys(es@);
        assert forall|j: int| 0 <= j < es@.len() implies plain_key(#[trigger] got[j])
            == keys[j] by {
            assert(es@[j].0 == plain_pool(plain@[j].0));
        }
        assert forall|a: int, b: int| 0 <= a < got.len() && 0 <= b < got.len() && a
            != b implies got[a] != got[b] by {
            assert(plain_key(got[a]) == keys[a]);
            assert(plain_key(got[b]) == keys[b]);
        }
        assert forall|k: (PoolId, Seq<u8>)|
            got.to_set().contains(k) <==> demand_rows(*m).dom().contains(k) by {
            if got.contains(k) {
                let j = choose|j: int| 0 <= j < got.len() && got[j] == k;
                assert(plain_key(got[j]) == keys[j]);
                assert(keys.to_set().contains(keys[j]));
            }
            if demand_rows(*m).dom().contains(k) {
                assert(keys.to_set().contains(plain_key(k)));
                let j = choose|j: int| 0 <= j < keys.len() && keys[j] == plain_key(k);
                assert(plain_key(got[j]) == keys[j]);
                assert(got[j].0 == k.0) by {
                    match k.0 {
                        PoolId::Range => {},
                        PoolId::Agg => {},
                    }
                }
                assert(got[j] == k);
            }
        }
        assert(got.to_set() =~= demand_rows(*m).dom());
        assert forall|j: int| 0 <= j < es@.len() implies (#[trigger] es@[j]).2 == demand_rows(
            *m,
        )[entry_key(es@[j])] by {
            assert(plain_key(got[j]) == keys[j]);
            assert(got.to_set().contains(got[j]));
            assert(plain@[j].2 == demand_table(*m)[(plain@[j].0, plain@[j].1@)]);
        }
    }
    es
}

/// Keeps the entries that are still fresh at `now` and drops the others.
pub(crate) fn demand_retain_fresh(
    m: &mut DashMap<(bool, Vec<u8>), Demand>,
    now: i128,
    ttl: Duration,
)
    requires
        instant_ok(now as int),
        forall|k: (PoolId, Seq<u8>)| #[trigger]
            demand_rows(*old(m)).contains_key(k) ==> demand_rows(*old(m))[k].wf(),
    ensures
        demand_rows(*final(m)) == fresh_demand(demand_rows(*old(m)), now as int, ttl.nanos()),
{
    let ghost before = *m;
    proof {
        assert forall|k: (bool, Seq<u8>)| #[trigger]
            demand_table(before).contains_key(k) implies demand_table(before)[k].wf() by {
            let row = (plain_pool(k.0), k.1);
            assert(plain_key(row) == k);
            assert(demand_rows(before).contains_key(row));
        }
    }
    table_retain_fresh(m, now, ttl);
    assert(demand_rows(*m) =~= fresh_demand(demand_rows(before), now as int, ttl.nanos()));
}

/// Whether nothing is held.
pub(crate) fn demand_none(m: &DashMap<(bool, Vec<u8>), Demand>) -> (b: bool)
    ensures
        b == (demand_rows(*m).dom() =~= Set::empty()),
{
    let b = table_is_empty(m);
    proof {
        if demand_rows(*m).dom() =~= Set::empty() {
            assert forall|k: (bool, Seq<u8>)| !demand_table(*m).dom().contains(k) by {
                let row = (plain_pool(k.0), k.1);
                assert(plain_key(row) == k);
                assert(!demand_rows(*m).dom().contains(row));
            }
            assert(demand_table(*m).dom() =~= Set::empty());
        } else if b {
            assert(demand_rows(*m).dom() =~= Set::empty());
        }
    }
    b
}

/// The entries that are still fresh at `now`.
pub open spec fn fresh_demand(
    rows: Map<(PoolId, Seq<u8>), Demand>,
    now: int,
    ttl: int,
) -> Map<(PoolId, Seq<u8>), Demand> {
    Map::new(
        |k: (PoolId, Seq<u8>)| rows.contains_key(k) && rows[k].fresh(now, ttl),
        |k: (PoolId, Seq<u8>)| rows[k],
    )
}

/// Who is still waiting for `pool` at `now`.
pub open spec fn waiting_keys(
    rows: Map<(PoolId, Seq<u8>), Demand>,
    pool: PoolId,
    now: int,
    ttl: int,
) -> Set<(PoolId, Seq<u8>)> {
    rows.dom().filter(|k: (PoolId, Seq<u8>)| k.0 == pool && rows[k].fresh(now, ttl))
}

/// How many proposers are still waiting for `pool` at `now`.
pub open spec fn waiting(
    rows: Map<(PoolId, Seq<u8>), Demand>,
    pool: PoolId,
    now: int,
    ttl: int,
) -> nat {
    waiting_keys(rows, pool, now, ttl).len()
}

} // verus!
