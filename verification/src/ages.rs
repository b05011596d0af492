//! Who holds slots, and for how long.
use vstd::prelude::*;

use crate::gate::{holder, holder_label, is_oldest, oldest_ages};
use crate::hexadecimal::encode;
use crate::metrics::{held_has, held_index, held_map, held_unique, HeldRow};
use crate::pool::PoolId;
use crate::slots::{Slot, SlotView};
use crate::text::joined;
use crate::time::{age_secs, instant_ok, whole_secs_since};

verus! {

/// Renders a slot's holder as a label.
///
/// The three forms tell an operator different things. An address carries its
/// `0x` prefix so that it can be pasted into a search that matches exactly. The
/// zero address is what an unauthenticated gateway hands every caller. Nobody
/// recorded at all is `unknown`.
pub fn requester_label(requester: Option<&[u8]>) -> (s: String)
    ensures
        s@ == holder_label(match requester {
            Some(r) => Some(r@),
            None => None,
        }),
{
    match requester {
        None => "unknown".to_owned(),
        Some(r) => {
            if r.len() == 0 {
                return "unknown".to_owned();
            }
            let mut i: usize = 0;
            while i < r.len()
                invariant
                    i <= r@.len(),
                    r@.len() > 0,
                    requester == Some(r),
                    forall|j: int| 0 <= j < i ==> #[trigger] r@[j] == 0,
                decreases r@.len() - i,
            {
                if r[i] != 0 {
                    assert(r@[i as int] != 0);
                    return joined("0x", encode(r).as_str());
                }
                i = i + 1;
            }
            "unauthenticated".to_owned()
        },
    }
}

/// The oldest slot of one series seen so far.
pub struct AgeRow {
    pub pool: PoolId,
    pub requester: String,
    pub secs: u64,
}

impl AgeRow {
    pub open spec fn key(self) -> (PoolId, Seq<char>) {
        (self.pool, self.requester@)
    }
}

/// `rows` hold the oldest slot of every series of `seen`, each series once.
pub open spec fn tallies(rows: Seq<AgeRow>, seen: Map<Seq<char>, SlotView>, now: int) -> bool {
    &&& forall|i: int, j: int|
        0 <= i < j < rows.len() ==> (#[trigger] rows[i]).key() != (#[trigger] rows[j]).key()
    &&& forall|i: int|
        0 <= i < rows.len() ==> is_oldest(
            seen,
            (#[trigger] rows[i]).key(),
            now,
            rows[i].secs,
        )
    &&& forall|id: Seq<char>| #[trigger]
        seen.contains_key(id) ==> exists|i: int|
            0 <= i < rows.len() && (#[trigger] rows[i]).key() == holder(seen[id])
}

/// Raising the age of the series of one more slot takes it into account.
proof fn lemma_tally_known(
    before: Seq<AgeRow>,
    after: Seq<AgeRow>,
    i: int,
    seen: Map<Seq<char>, SlotView>,
    id: Seq<char>,
    slot: SlotView,
    now: int,
)
    requires
        tallies(before, seen, now),
        !seen.contains_key(id),
        0 <= i < before.len(),
        after.len() == before.len(),
        before[i].key() == holder(slot),
        after[i].key() == holder(slot),
        after[i].secs == if before[i].secs < age_secs(now, slot.admitted_at) {
            age_secs(now, slot.admitted_at)
        } else {
            before[i].secs
        },
        forall|j: int| 0 <= j < before.len() && j != i ==> #[trigger] after[j] == before[j],
    ensures
        tallies(after, seen.insert(id, slot), now),
{
    let more = seen.insert(id, slot);
    assert(more.contains_key(id) && more[id] == slot);
    assert forall|j: int| 0 <= j < after.len() implies (#[trigger] after[j]).key()
        == before[j].key() by {}
    assert forall|j: int| 0 <= j < after.len() implies is_oldest(
        more,
        (#[trigger] after[j]).key(),
        now,
        after[j].secs,
    ) by {
        assert(is_oldest(seen, before[j].key(), now, before[j].secs));
        reveal(is_oldest);
        let w = choose|w: Seq<char>| #[trigger]
            seen.contains_key(w) && holder(seen[w]) == before[j].key() && age_secs(
                now,
                seen[w].admitted_at,
            ) == before[j].secs;
        assert(more.contains_key(w) && more[w] == seen[w]);
        if j < i {
            assert(before[j].key() != before[i].key());
        } else if j > i {
            assert(before[i].key() != before[j].key());
        }
        assert forall|x: Seq<char>| #[trigger]
            more.contains_key(x) && holder(more[x]) == after[j].key() implies age_secs(
            now,
            more[x].admitted_at,
        ) <= after[j].secs by {
            if x != id {
                assert(seen.contains_key(x));
            }
        }
    }
    assert forall|w: Seq<char>| #[trigger] more.contains_key(w) implies exists|j: int|
        0 <= j < after.len() && (#[trigger] after[j]).key() == holder(more[w]) by {
        if w == id {
            assert(after[i].key() == holder(slot));
        } else {
            assert(seen.contains_key(w));
            let j = choose|j: int|
                0 <= j < before.len() && (#[trigger] before[j]).key() == holder(seen[w]);
            assert(after[j].key() == holder(more[w]));
        }
    }
}

/// A row for a new series takes its slot into account.
proof fn lemma_tally_new(
    before: Seq<AgeRow>,
    row: AgeRow,
    seen: Map<Seq<char>, SlotView>,
    id: Seq<char>,
    slot: SlotView,
    now: int,
)
    requires
        tallies(before, seen, now),
        !seen.contains_key(id),
        row.key() == holder(slot),
        row.secs == age_secs(now, slot.admitted_at),
        forall|j: int| 0 <= j < before.len() ==> (#[trigger] before[j]).key() != holder(slot),
    ensures
        tallies(before.push(row), seen.insert(id, slot), now),
{
    let more = seen.insert(id, slot);
    let after = before.push(row);
    let n = before.len() as int;
    assert(more.contains_key(id) && more[id] == slot);
    assert(after[n] == row);
    assert forall|j: int| 0 <= j < n implies after[j] == #[trigger] before[j] by {}
    assert forall|j: int| 0 <= j < after.len() implies is_oldest(
        more,
        (#[trigger] after[j]).key(),
        now,
        after[j].secs,
    ) by {
        reveal(is_oldest);
        if j < n {
            assert(is_oldest(seen, before[j].key(), now, before[j].secs));
            let w = choose|w: Seq<char>| #[trigger]
                seen.contains_key(w) && holder(seen[w]) == before[j].key() && age_secs(
                    now,
                    seen[w].admitted_at,
                ) == before[j].secs;
            assert(more.contains_key(w) && more[w] == seen[w]);
        }
        assert forall|x: Seq<char>| #[trigger]
            more.contains_key(x) && holder(more[x]) == after[j].key() implies age_secs(
            now,
            more[x].admitted_at,
        ) <= after[j].secs by {
            if x != id {
                assert(seen.contains_key(x));
                let k = choose|k: int|
                    0 <= k < n && (#[trigger] before[k]).key() == holder(seen[x]);
                assert(before[k].key() != holder(slot));
            }
        }
    }
    assert forall|w: Seq<char>| #[trigger] more.contains_key(w) implies exists|j: int|
        0 <= j < after.len() && (#[trigger] after[j]).key() == holder(more[w]) by {
        if w == id {
            assert(after[n].key() == holder(slot));
        } else {
            assert(seen.contains_key(w));
            let j = choose|j: int|
                0 <= j < before.len() && (#[trigger] before[j]).key() == holder(seen[w]);
            assert(after[j].key() == holder(more[w]));
        }
    }
}

/// Takes one more slot into account.
pub(crate) fn tally(
    rows: &mut Vec<AgeRow>,
    slot: &Slot,
    now: i128,
    Ghost(seen): Ghost<Map<Seq<char>, SlotView>>,
    Ghost(id): Ghost<Seq<char>>,
)
    requires
        tallies(old(rows)@, seen, now as int),
        !seen.contains_key(id),
        slot@.wf(),
        instant_ok(now as int),
    ensures
        tallies(final(rows)@, seen.insert(id, slot@), now as int),
{
    let requester = requester_label(
        match &slot.requester {
            Some(r) => Some(r.as_slice()),
            None => None,
        },
    );
    let secs: u64 = whole_secs_since(now, slot.admitted_at);
    let ghost key = holder(slot@);
    let ghost before = rows@;
    assert(requester@ == key.1);
    let mut i: usize = 0;
    while i < rows.len() && !(rows[i].pool == slot.pool && rows[i].requester == requester)
        invariant
            i <= rows@.len(),
            rows@ == before,
            requester@ == key.1,
            slot.pool == key.0,
            forall|j: int| 0 <= j < i ==> (#[trigger] rows@[j]).key() != key,
        decreases rows@.len() - i,
    {
        assert(rows@[i as int].key() != key);
        i = i + 1;
    }
    if i < rows.len() {
        if rows[i].secs < secs {
            rows.set(i, AgeRow { pool: slot.pool, requester, secs });
        }
        proof {
            lemma_tally_known(before, rows@, i as int, seen, id, slot@, now as int);
        }
    } else {
        let row = AgeRow { pool: slot.pool, requester, secs };
        proof {
            lemma_tally_new(before, row, seen, id, slot@, now as int);
        }
        rows.push(row);
    }
}

/// Two ages that are both the oldest are the same.
proof fn lemma_oldest_unique(
    slots: Map<Seq<char>, SlotView>,
    key: (PoolId, Seq<char>),
    now: int,
    a: u64,
    b: u64,
)
    requires
        is_oldest(slots, key, now, a),
        is_oldest(slots, key, now, b),
    ensures
        a == b,
{
    reveal(is_oldest);
    let x = choose|id: Seq<char>| #[trigger]
        slots.contains_key(id) && holder(slots[id]) == key && age_secs(now, slots[id].admitted_at)
            == a;
    let y = choose|id: Seq<char>| #[trigger]
        slots.contains_key(id) && holder(slots[id]) == key && age_secs(now, slots[id].admitted_at)
            == b;
    assert(slots.contains_key(x));
    assert(slots.contains_key(y));
}

/// The series that a tally makes.
pub(crate) fn held_rows(rows: Vec<AgeRow>, Ghost(slots): Ghost<Map<Seq<char>, SlotView>>, Ghost(now): Ghost<
    int,
>) -> (held: Vec<HeldRow>)
    requires
        tallies(rows@, slots, now),
    ensures
        held_unique(held@),
        held_map(held@) == oldest_ages(slots, now),
{
    let mut held: Vec<HeldRow> = Vec::new();
    let mut i: usize = 0;
    while i < rows.len()
        invariant
            i <= rows@.len(),
            held@.len() == i,
            forall|j: int|
                0 <= j < i ==> (#[trigger] held@[j]).key() == rows@[j].key() && held@[j].seconds
                    == rows@[j].secs as i64,
        decreases rows@.len() - i,
    {
        held.push(
            HeldRow {
                pool: rows[i].pool,
                requester: rows[i].requester.clone(),
                seconds: rows[i].secs as i64,
            },
        );
        i = i + 1;
    }
    proof {
        assert forall|a: int, b: int| 0 <= a < b < held@.len() implies (#[trigger] held@[a]).key()
            != (#[trigger] held@[b]).key() by {
            assert(rows@[a].key() != rows@[b].key());
        }
        let want = oldest_ages(slots, now);
        assert forall|key: (PoolId, Seq<char>)| #[trigger]
            held_map(held@).contains_key(key) <==> want.contains_key(key) by {
            if held_has(held@, key) {
                let j = held_index(held@, key);
                assert(held@[j].key() == key);
                assert(is_oldest(slots, rows@[j].key(), now, rows@[j].secs));
                reveal(is_oldest);
            }
            if want.contains_key(key) {
                let id = choose|id: Seq<char>| #[trigger]
                    slots.contains_key(id) && holder(slots[id]) == key;
                assert(slots.contains_key(id));
                let j = choose|j: int|
                    0 <= j < rows@.len() && (#[trigger] rows@[j]).key() == holder(slots[id]);
                assert(held@[j].key() == key);
            }
        }
        assert forall|key: (PoolId, Seq<char>)| #[trigger]
            held_map(held@).contains_key(key) implies held_map(held@)[key] == want[key] by {
            let j = held_index(held@, key);
            assert(held@[j].key() == key);
            assert(is_oldest(slots, rows@[j].key(), now, rows@[j].secs));
            let age = choose|age: u64| is_oldest(slots, key, now, age);
            lemma_oldest_unique(slots, key, now, age, rows@[j].secs);
        }
        assert(held_map(held@) =~= want);
    }
    held
}

} // verus!
