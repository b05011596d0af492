//! Small tables without repetition: proposer ranks, byte strings, ids.
use vstd::prelude::*;

use crate::slots::views;

verus! {

/// Whether two byte strings are the same.
pub fn same_bytes(a: &[u8], b: &[u8]) -> (r: bool)
    ensures
        r == (a@ == b@),
{
    if a.len() != b.len() {
        return false;
    }
    let mut i: usize = 0;
    while i < a.len()
        invariant
            i <= a@.len() == b@.len(),
            forall|j: int| 0 <= j < i ==> a@[j] == b@[j],
        decreases a@.len() - i,
    {
        if a[i] != b[i] {
            return false;
        }
        i = i + 1;
    }
    assert(a@ =~= b@);
    true
}

/// A copy of a byte string.
pub fn copy_bytes(a: &[u8]) -> (v: Vec<u8>)
    ensures
        v@ == a@,
{
    let v = vstd::slice::slice_to_vec(a);
    assert(v@ =~= a@);
    v
}

/// The bytes of each element.
pub open spec fn byte_views(v: Seq<Vec<u8>>) -> Seq<Seq<u8>> {
    v.map_values(|b: Vec<u8>| b@)
}

/// Whether `v` holds `key`.
pub fn holds_bytes(v: &Vec<Vec<u8>>, key: &[u8]) -> (b: bool)
    ensures
        b == byte_views(v@).contains(key@),
{
    let mut i: usize = 0;
    while i < v.len()
        invariant
            i <= v@.len(),
            forall|j: int| 0 <= j < i ==> (#[trigger] v@[j])@ != key@,
        decreases v@.len() - i,
    {
        if same_bytes(v[i].as_slice(), key) {
            assert(byte_views(v@)[i as int] == key@);
            return true;
        }
        i = i + 1;
    }
    assert forall|j: int| 0 <= j < v@.len() implies byte_views(v@)[j] != key@ by {
        assert(v@[j]@ != key@);
    }
    false
}

/// Ranks by proposer address; every address is listed once.
pub struct RankTable {
    rows: Vec<(Vec<u8>, u32)>,
}

/// Where `key` stands among `rows`, if it is listed.
spec fn lists(rows: Seq<(Vec<u8>, u32)>, key: Seq<u8>) -> bool {
    exists|i: int| 0 <= i < rows.len() && (#[trigger] rows[i]).0@ == key
}

spec fn row_of(rows: Seq<(Vec<u8>, u32)>, key: Seq<u8>) -> int {
    choose|i: int| 0 <= i < rows.len() && (#[trigger] rows[i]).0@ == key
}

impl View for RankTable {
    type V = Map<Seq<u8>, u32>;

    closed spec fn view(&self) -> Map<Seq<u8>, u32> {
        Map::new(
            |key: Seq<u8>| lists(self.rows@, key),
            |key: Seq<u8>| self.rows@[row_of(self.rows@, key)].1,
        )
    }
}

impl RankTable {
    /// No address is listed twice.
    pub closed spec fn wf(self) -> bool {
        forall|i: int, j: int|
            0 <= i < j < self.rows@.len() ==> (#[trigger] self.rows@[i]).0@ != (
            #[trigger] self.rows@[j]).0@
    }

    /// A table that lists nobody.
    pub fn new() -> (t: Self)
        ensures
            t.wf(),
            t@ == Map::<Seq<u8>, u32>::empty(),
    {
        let t = RankTable { rows: Vec::new() };
        assert(t@ =~= Map::<Seq<u8>, u32>::empty());
        t
    }

    /// The rank of `key`, if it is listed.
    pub fn get(&self, key: &[u8]) -> (r: Option<u32>)
        requires
            self.wf(),
        ensures
            r == if self@.contains_key(key@) {
                Some(self@[key@])
            } else {
                None
            },
    {
        let mut i: usize = 0;
        while i < self.rows.len()
            invariant
                i <= self.rows@.len(),
                forall|j: int| 0 <= j < i ==> (#[trigger] self.rows@[j]).0@ != key@,
                self.wf(),
            decreases self.rows@.len() - i,
        {
            if same_bytes(self.rows[i].0.as_slice(), key) {
                proof {
                    let k = row_of(self.rows@, key@);
                    assert(self.rows@[i as int].0@ == key@);
                    assert(self.rows@[k].0@ == key@);
                    assert(k == i);
                }
                return Some(self.rows[i].1);
            }
            i = i + 1;
        }
        None
    }

    /// Lists `key` with `rank`, unless it is listed already.
    pub fn insert(&mut self, key: Vec<u8>, rank: u32) -> (added: bool)
        requires
            old(self).wf(),
        ensures
            final(self).wf(),
            added == !old(self)@.contains_key(key@),
            final(self)@ == if added {
                old(self)@.insert(key@, rank)
            } else {
                old(self)@
            },
    {
        if self.get(key.as_slice()).is_some() {
            return false;
        }
        let ghost before = *self;
        let ghost k0 = key@;
        assert forall|j: int| 0 <= j < before.rows@.len() implies (
        #[trigger] before.rows@[j]).0@ != k0 by {
            if before.rows@[j].0@ == k0 {
                assert(lists(before.rows@, k0));
            }
        }
        self.rows.push((key, rank));
        proof {
            let n = before.rows@.len() as int;
            assert(self.rows@ =~= before.rows@.push((key, rank)));
            assert forall|k: Seq<u8>| #[trigger]
                lists(self.rows@, k) <==> (lists(before.rows@, k) || k == k0) by {
                if lists(before.rows@, k) {
                    let i = row_of(before.rows@, k);
                    assert(self.rows@[i].0@ == k);
                }
                if k == k0 {
                    assert(self.rows@[n].0@ == k);
                }
                if lists(self.rows@, k) && k != k0 {
                    let i = row_of(self.rows@, k);
                    assert(i != n);
                    assert(before.rows@[i].0@ == k);
                }
            }
            assert forall|k: Seq<u8>| #[trigger] self@.contains_key(k) implies self@[k]
                == before@.insert(k0, rank)[k] by {
                let i = row_of(self.rows@, k);
                assert(self.rows@[i].0@ == k);
                if k == k0 {
                    assert(i == n);
                } else {
                    let j = row_of(before.rows@, k);
                    assert(lists(before.rows@, k));
                    assert(before.rows@[j].0@ == k);
                    assert(self.rows@[j].0@ == k);
                    assert(i == j);
                }
            }
            assert(self@ =~= before@.insert(k0, rank));
        }
        true
    }

    /// Whether nobody is listed.
    pub fn is_empty(&self) -> (b: bool)
        ensures
            b == (self@.dom() =~= Set::empty()),
    {
        let b = self.rows.len() == 0;
        proof {
            if !b {
                assert(self.rows@[0].0@ == self.rows@[0].0@);
                assert(lists(self.rows@, self.rows@[0].0@));
                assert(self@.dom().contains(self.rows@[0].0@));
            } else {
                assert(self@.dom() =~= Set::empty());
            }
        }
        b
    }
}

/// Proof ids without repetition.
pub struct IdSet {
    ids: Vec<String>,
}

impl View for IdSet {
    type V = Set<Seq<char>>;

    closed spec fn view(&self) -> Set<Seq<char>> {
        views(self.ids@).to_set()
    }
}

impl IdSet {
    /// No id is held twice.
    pub closed spec fn wf(self) -> bool {
        views(self.ids@).no_duplicates()
    }

    /// The empty set.
    pub fn new() -> (s: Self)
        ensures
            s.wf(),
            s@ == Set::<Seq<char>>::empty(),
    {
        let s = IdSet { ids: Vec::new() };
        assert(s@ =~= Set::<Seq<char>>::empty());
        s
    }

    /// The ids of a list, each once.
    pub fn from_ids(list: Vec<String>) -> (s: Self)
        ensures
            s.wf(),
            s@ == views(list@).to_set(),
    {
        let mut s = IdSet::new();
        let mut i: usize = 0;
        assert(views(list@).take(0).to_set() =~= Set::<Seq<char>>::empty());
        while i < list.len()
            invariant
                i <= list@.len(),
                s.wf(),
                s@ == views(list@).take(i as int).to_set(),
            decreases list@.len() - i,
        {
            let id = list[i].clone();
            proof {
                let all = views(list@);
                assert(all[i as int] == id@);
                assert(all.take(i as int + 1) =~= all.take(i as int).push(id@));
                lemma_push_to_set(all.take(i as int), id@);
            }
            s.insert(id);
            i = i + 1;
        }
        assert(views(list@).take(list@.len() as int) =~= views(list@));
        s
    }

    /// Whether `id` is held.
    pub fn contains(&self, id: &String) -> (b: bool)
        ensures
            b == self@.contains(id@),
    {
        let mut i: usize = 0;
        while i < self.ids.len()
            invariant
                i <= self.ids@.len(),
                forall|j: int| 0 <= j < i ==> (#[trigger] self.ids@[j])@ != id@,
            decreases self.ids@.len() - i,
        {
            if self.ids[i] == *id {
                assert(views(self.ids@)[i as int] == id@);
                return true;
            }
            i = i + 1;
        }
        assert forall|j: int| 0 <= j < self.ids@.len() implies views(self.ids@)[j] != id@ by {
            assert(self.ids@[j]@ != id@);
        }
        false
    }

    /// Adds `id`, unless it is held already.
    pub fn insert(&mut self, id: String) -> (added: bool)
        requires
            old(self).wf(),
        ensures
            final(self).wf(),
            added == !old(self)@.contains(id@),
            final(self)@ == old(self)@.insert(id@),
    {
        if self.contains(&id) {
            assert(self@.insert(id@) =~= self@);
            return false;
        }
        let ghost before = views(self.ids@);
        self.ids.push(id);
        proof {
            assert(views(self.ids@) =~= before.push(id@));
            lemma_push_to_set(before, id@);
            assert(!before.contains(id@));
        }
        true
    }

    /// How many ids are held.
    pub fn len(&self) -> (n: usize)
        requires
            self.wf(),
        ensures
            n == self@.len(),
    {
        proof {
            views(self.ids@).unique_seq_to_set();
        }
        self.ids.len()
    }

    /// At most `cap` of the ids.
    pub fn sample(&self, cap: usize) -> (r: Vec<String>)
        requires
            self.wf(),
        ensures
            views(r@).no_duplicates(),
            views(r@).to_set().subset_of(self@),
            r@.len() == if self@.len() < cap {
                self@.len() as int
            } else {
                cap as int
            },
    {
        proof {
            views(self.ids@).unique_seq_to_set();
        }
        let mut r: Vec<String> = Vec::new();
        let mut i: usize = 0;
        while i < self.ids.len() && i < cap
            invariant
                i <= self.ids@.len(),
                i <= cap,
                self.wf(),
                views(r@) == views(self.ids@).take(i as int),
            decreases self.ids@.len() - i,
        {
            assert(views(self.ids@).take(i as int + 1) =~= views(self.ids@).take(i as int).push(
                self.ids@[i as int]@,
            ));
            r.push(self.ids[i].clone());
            assert(views(r@) =~= views(self.ids@).take(i as int + 1));
            i = i + 1;
        }
        assert(views(r@).len() == i);
        assert forall|x: Seq<char>| views(r@).to_set().contains(x) implies self@.contains(x) by {
            let j = choose|j: int| 0 <= j < views(r@).len() && views(r@)[j] == x;
            assert(views(self.ids@)[j] == x);
        }
        r
    }
}

/// Pushing an element adds it to the set of elements.
pub proof fn lemma_push_to_set<A>(s: Seq<A>, a: A)
    ensures
        s.push(a).to_set() == s.to_set().insert(a),
{
    assert forall|x: A| s.push(a).to_set().contains(x) <==> s.to_set().insert(a).contains(x) by {
        if s.contains(x) {
            let i = choose|i: int| 0 <= i < s.len() && s[i] == x;
            assert(s.push(a)[i] == x);
        }
        if x == a {
            assert(s.push(a)[s.len() as int] == x);
        }
    }
    assert(s.push(a).to_set() =~= s.to_set().insert(a));
}

/// Walking a sequence without repetition: the elements seen so far that meet
/// `p` gain the next element exactly when it meets `p`.
pub proof fn lemma_filter_take<A>(s: Seq<A>, i: int, p: spec_fn(A) -> bool)
    requires
        s.no_duplicates(),
        0 <= i < s.len(),
    ensures
        s.take(i + 1).to_set() == s.take(i).to_set().insert(s[i]),
        !s.take(i).to_set().contains(s[i]),
        s.take(i).to_set().filter(p).finite(),
        s.take(i).to_set().filter(p).len() <= i,
        s.take(i + 1).to_set().filter(p) == if p(s[i]) {
            s.take(i).to_set().filter(p).insert(s[i])
        } else {
            s.take(i).to_set().filter(p)
        },
        s.take(i + 1).to_set().filter(p).len() == s.take(i).to_set().filter(p).len() + if p(s[i]) {
            1nat
        } else {
            0nat
        },
{
    let seen = s.take(i);
    assert(s.take(i + 1) =~= seen.push(s[i]));
    lemma_push_to_set(seen, s[i]);
    assert(!seen.contains(s[i])) by {
        if seen.contains(s[i]) {
            let j = choose|j: int| 0 <= j < seen.len() && seen[j] == s[i];
            assert(s[j] == s[i]);
        }
    }
    seen.lemma_cardinality_of_set();
    seen.to_set().lemma_len_filter(p);
    let before = seen.to_set().filter(p);
    let after = s.take(i + 1).to_set().filter(p);
    if p(s[i]) {
        assert(after =~= before.insert(s[i]));
    } else {
        assert(after =~= before);
    }
}

/// The elements of a whole sequence are those of its full prefix.
pub proof fn lemma_take_all<A>(s: Seq<A>)
    ensures
        s.take(s.len() as int) == s,
        s.take(0).to_set() == Set::<A>::empty(),
{
    assert(s.take(s.len() as int) =~= s);
    assert(s.take(0).to_set() =~= Set::<A>::empty());
}

} // verus!
