//! Tracked slot reservations and the concurrent map that holds them.
use vstd::prelude::*;

use dashmap::DashMap;

use crate::pool::PoolId;
use crate::time::{instant_ok, Duration};

verus! {

/// What is known of one reservation.
#[verifier::ext_equal]
pub struct SlotView {
    pub pool: PoolId,
    pub requester: Option<Seq<u8>>,
    pub admitted_at: int,
    pub deadline: int,
    pub committed_at: Option<int>,
    pub absent_streak: u32,
}

impl SlotView {
    /// Handed to the cluster, as opposed to still reserved by its handler.
    pub open spec fn committed(self) -> bool {
        self.committed_at is Some
    }

    /// The slot after a liveness signal at `now`.
    pub open spec fn live(self, now: int, ttl: int) -> Self {
        SlotView { absent_streak: 0, deadline: now + ttl, ..self }
    }

    /// The slot after one absent observation.
    pub open spec fn absent(self) -> Self {
        SlotView { absent_streak: (self.absent_streak + 1) as u32, ..self }
    }

    /// Every instant is in range and the streak can still grow.
    pub open spec fn wf(self) -> bool {
        &&& instant_ok(self.admitted_at)
        &&& instant_ok(self.deadline)
        &&& (self.committed_at matches Some(t) ==> instant_ok(t))
        &&& self.absent_streak < u32::MAX
    }
}

/// A tracked slot reservation.
///
/// A slot is RESERVED while `committed_at` is `None`: it belongs to the handler
/// of the request, and neither the reaper nor the reconciler touches it. It is
/// COMMITTED from the moment the request is handed to the cluster.
pub struct Slot {
    pub pool: PoolId,
    /// Who holds the slot; `None` when the cluster's record names nobody.
    pub requester: Option<Vec<u8>>,
    /// When the slot was acquired; never refreshed.
    pub admitted_at: i128,
    /// When the backstop reaper may reclaim the slot once it is committed.
    pub deadline: i128,
    /// When the request was handed to the cluster.
    pub committed_at: Option<i128>,
    /// Consecutive complete snapshots that did not show this proof.
    pub absent_streak: u32,
}

/// The view of optional bytes.
pub open spec fn bytes_view(b: Option<Vec<u8>>) -> Option<Seq<u8>> {
    match b {
        Some(v) => Some(v@),
        None => None,
    }
}

impl View for Slot {
    type V = SlotView;

    open spec fn view(&self) -> SlotView {
        SlotView {
            pool: self.pool,
            requester: bytes_view(self.requester),
            admitted_at: self.admitted_at as int,
            deadline: self.deadline as int,
            committed_at: match self.committed_at {
                Some(t) => Some(t as int),
                None => None,
            },
            absent_streak: self.absent_streak,
        }
    }
}

impl Slot {
    /// Apply a liveness signal: clear the absence streak and refresh the
    /// backstop deadline.
    pub fn observe_live(&mut self, now: i128, ttl: Duration)
        requires
            instant_ok(now as int),
        ensures
            final(self)@ == old(self)@.live(now as int, ttl.nanos()),
            final(self).requester == old(self).requester,
            final(self).admitted_at == old(self).admitted_at,
            final(self).pool == old(self).pool,
            final(self).committed_at == old(self).committed_at,
            final(self).absent_streak == 0,
            final(self).deadline == now + ttl.secs * 1_000_000_000 + ttl.subsec_nanos,
    {
        self.absent_streak = 0;
        self.deadline = now + ttl.as_nanos();
    }

    /// Record one absent observation and return the new streak.
    pub fn observe_absent(&mut self) -> (streak: u32)
        requires
            old(self).absent_streak < u32::MAX,
        ensures
            final(self)@ == old(self)@.absent(),
            streak == old(self).absent_streak + 1,
            final(self).absent_streak == streak,
            final(self).admitted_at == old(self).admitted_at,
            final(self).deadline == old(self).deadline,
            final(self).committed_at == old(self).committed_at,
    {
        self.absent_streak = self.absent_streak + 1;
        self.absent_streak
    }

    pub fn is_committed(&self) -> (b: bool)
        ensures
            b == self@.committed(),
    {
        self.committed_at.is_some()
    }

    /// A copy of the slot.
    pub fn duplicate(&self) -> (s: Self)
        ensures
            s@ == self@,
    {
        let requester = match &self.requester {
            Some(v) => {
                let copy = v.clone();
                assert(copy@ =~= v@);
                Some(copy)
            },
            None => None,
        };
        Slot {
            pool: self.pool,
            requester,
            admitted_at: self.admitted_at,
            deadline: self.deadline,
            committed_at: self.committed_at,
            absent_streak: self.absent_streak,
        }
    }
}

#[verifier::external_type_specification]
#[verifier::external_body]
#[verifier::reject_recursive_types(K)]
#[verifier::reject_recursive_types(V)]
#[verifier::reject_recursive_types(S)]
pub struct ExDashMap<K, V, S>(DashMap<K, V, S>);

/// The slots that a map holds, by proof id.
pub uninterp spec fn slot_rows(m: DashMap<String, Slot>) -> Map<Seq<char>, SlotView>;

/// `DashMap::new`: a map that holds nothing.
#[verifier::external_body]
pub(crate) fn slots_new() -> (m: DashMap<String, Slot>)
    ensures
        slot_rows(m).dom() =~= Set::empty(),
{
    DashMap::new()
}

/// `DashMap::insert`: the key holds the given slot afterwards, whatever it held
/// before; no other key changes.
#[verifier::external_body]
pub(crate) fn slots_insert(m: &mut DashMap<String, Slot>, id: String, slot: Slot)
    ensures
        slot_rows(*final(m)) == slot_rows(*old(m)).insert(id@, slot@),
{
    m.insert(id, slot);
}

/// `DashMap::contains_key`: whether the key holds a slot.
#[verifier::external_body]
pub(crate) fn slots_contains(m: &DashMap<String, Slot>, id: &str) -> (b: bool)
    ensures
        b == slot_rows(*m).contains_key(id@),
{
    m.contains_key(id)
}

/// `DashMap::get`: the slot that the key holds, copied out of the map.
#[verifier::external_body]
pub(crate) fn slots_get(m: &DashMap<String, Slot>, id: &str) -> (r: Option<Slot>)
    ensures
        match r {
            Some(slot) => slot_rows(*m).contains_key(id@) && slot@ == slot_rows(*m)[id@],
            None => !slot_rows(*m).contains_key(id@),
        },
{
    m.get(id).map(|row| row.value().duplicate())
}

/// `DashMap::remove`: takes the key out of the map and hands back its slot.
#[verifier::external_body]
pub(crate) fn slots_remove(m: &mut DashMap<String, Slot>, id: &str) -> (r: Option<Slot>)
    ensures
        slot_rows(*final(m)) == slot_rows(*old(m)).remove(id@),
        match r {
            Some(slot) => slot_rows(*old(m)).contains_key(id@) && slot@ == slot_rows(*old(m))[id@],
            None => !slot_rows(*old(m)).contains_key(id@),
        },
{
    m.remove(id).map(|row| row.1)
}

/// `DashMap::iter`: walks every entry once, in no particular order. The keys
/// come out without repetition and are exactly the keys of the map.
#[verifier::external_body]
pub(crate) fn slots_ids(m: &DashMap<String, Slot>) -> (ids: Vec<String>)
    ensures
        views(ids@).no_duplicates(),
        views(ids@).to_set() == slot_rows(*m).dom(),
{
    m.iter().map(|row| row.key().clone()).collect()
}

/// `DashMap::is_empty`: whether the map holds nothing.
#[verifier::external_body]
pub(crate) fn slots_is_empty(m: &DashMap<String, Slot>) -> (b: bool)
    ensures
        b == (slot_rows(*m).dom() =~= Set::empty()),
{
    m.is_empty()
}

/// The texts of a sequence of strings.
pub open spec fn views(ids: Seq<String>) -> Seq<Seq<char>> {
    ids.map_values(|s: String| s@)
}

/// How many of `slots` belong to `pool`.
pub open spec fn slots_in(slots: Map<Seq<char>, SlotView>, pool: PoolId) -> nat {
    slots.dom().filter(|id: Seq<char>| slots[id].pool == pool).len()
}

/// Adding a slot under a new id adds one to its pool and nothing to the other.
pub proof fn lemma_slots_in_insert(
    slots: Map<Seq<char>, SlotView>,
    id: Seq<char>,
    slot: SlotView,
    pool: PoolId,
)
    requires
        slots.dom().finite(),
        !slots.contains_key(id),
    ensures
        slots_in(slots.insert(id, slot), pool) == slots_in(slots, pool) + if slot.pool == pool {
            1nat
        } else {
            0nat
        },
{
    let before = slots.dom().filter(|k: Seq<char>| slots[k].pool == pool);
    let next = slots.insert(id, slot);
    let after = next.dom().filter(|k: Seq<char>| next[k].pool == pool);
    slots.dom().lemma_len_filter(|k: Seq<char>| slots[k].pool == pool);
    if slot.pool == pool {
        assert(after =~= before.insert(id));
    } else {
        assert(after =~= before);
    }
}

/// Taking a slot out takes one from its pool and nothing from the other.
pub proof fn lemma_slots_in_remove(slots: Map<Seq<char>, SlotView>, id: Seq<char>, pool: PoolId)
    requires
        slots.dom().finite(),
        slots.contains_key(id),
    ensures
        slots_in(slots, pool) == slots_in(slots.remove(id), pool) + if slots[id].pool == pool {
            1nat
        } else {
            0nat
        },
{
    let rest = slots.remove(id);
    lemma_slots_in_insert(rest, id, slots[id], pool);
    assert(rest.insert(id, slots[id]) =~= slots);
}

/// Maps that agree on ids and pools count alike.
pub proof fn lemma_slots_in_same(
    a: Map<Seq<char>, SlotView>,
    b: Map<Seq<char>, SlotView>,
    pool: PoolId,
)
    requires
        a.dom() == b.dom(),
        forall|id: Seq<char>| #[trigger] a.contains_key(id) ==> a[id].pool == b[id].pool,
    ensures
        slots_in(a, pool) == slots_in(b, pool),
{
    assert(a.dom().filter(|k: Seq<char>| a[k].pool == pool) =~= b.dom().filter(
        |k: Seq<char>| b[k].pool == pool,
    )) by {
        assert forall|k: Seq<char>|
            a.dom().contains(k) && a[k].pool == pool <==> b.dom().contains(k) && b[k].pool
                == pool by {
            if a.dom().contains(k) {
                assert(a.contains_key(k));
            }
        }
    }
}

} // verus!
