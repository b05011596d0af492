//! Which node keeps an artifact, and under which keys.
use vstd::prelude::*;
use vstd::string::*;

use crate::slots::views;
use crate::text::joined;

verus! {

/// What an artifact is.
#[derive(Copy, Clone, PartialEq, Eq, Debug, Structural)]
pub enum ArtifactType {
    Program,
    Stdin,
    Proof,
    /// Anything else that a store keeps.
    Other,
}

/// The offset basis of FNV.
pub const FNV_OFFSET: usize = 2166136261;

/// The prime of FNV.
pub const FNV_PRIME: usize = 16777619;

/// FNV-1a hash of bytes, modulo the machine's word: each byte goes in by
/// exclusive or, before a multiplication by the prime.
pub open spec fn hash_bytes(b: Seq<u8>) -> usize
    decreases b.len(),
{
    if b.len() == 0 {
        FNV_OFFSET
    } else {
        (hash_bytes(b.drop_last()) ^ (b.last() as usize)).wrapping_mul(FNV_PRIME)
    }
}

/// FNV-1a hash of a text's UTF-8 bytes.
pub fn hash_string(s: &str) -> (h: usize)
    ensures
        h == hash_bytes(s.spec_bytes()),
{
    let bytes = s.as_bytes();
    let mut h: usize = FNV_OFFSET;
    let mut i: usize = 0;
    assert(bytes@.take(0) =~= Seq::empty());
    while i < bytes.len()
        invariant
            i <= bytes@.len(),
            h == hash_bytes(bytes@.take(i as int)),
        decreases bytes@.len() - i,
    {
        assert(bytes@.take(i as int + 1).drop_last() =~= bytes@.take(i as int));
        h = (h ^ (bytes[i] as usize)).wrapping_mul(FNV_PRIME);
        i = i + 1;
    }
    assert(bytes@.take(bytes@.len() as int) =~= bytes@);
    h
}

/// The node of an artifact.
pub open spec fn node_of(id: Seq<char>, num_nodes: nat) -> int {
    (hash_bytes(vstd::utf8::encode_utf8(id)) as int) % (num_nodes as int)
}

/// The node of an artifact.
pub fn get_connection_idx(id: &str, num_redis_nodes: usize) -> (idx: usize)
    requires
        num_redis_nodes > 0,
    ensures
        idx == node_of(id@, num_redis_nodes as nat),
        idx < num_redis_nodes,
{
    hash_string(id) % num_redis_nodes
}

/// The node whose permit an artifact needs; `None` without nodes.
pub fn permit_node(id: &str, num_nodes: usize) -> (r: Option<usize>)
    ensures
        match r {
            Some(idx) => num_nodes > 0 && idx == node_of(id@, num_nodes as nat),
            None => num_nodes == 0,
        },
{
    if num_nodes == 0 {
        None
    } else {
        Some(get_connection_idx(id, num_nodes))
    }
}

/// The key of the hash that holds an artifact's chunks.
pub fn chunks_key(id: &str) -> (k: String)
    ensures
        k@ == id@ + ":chunks"@,
{
    joined(id, ":chunks")
}

/// The key of the set of references to an artifact.
pub fn refs_key(id: &str) -> (k: String)
    ensures
        k@ == "refs:"@ + id@,
{
    joined("refs:", id)
}

/// Whether an artifact with so many references left is to be deleted.
pub fn unreferenced(count: i64) -> (b: bool)
    ensures
        b == (count <= 0),
{
    count <= 0
}

/// The keys to delete on one node.
pub struct NodeGroup {
    pub node: usize,
    pub keys: Vec<String>,
}

/// The keys of the artifacts of `ids` that live on `node`, in order: each
/// artifact's own key and that of its chunks.
pub open spec fn node_keys(ids: Seq<Seq<char>>, num_nodes: nat, node: int) -> Seq<Seq<char>>
    decreases ids.len(),
{
    if ids.len() == 0 {
        Seq::empty()
    } else {
        let rest = node_keys(ids.drop_last(), num_nodes, node);
        let id = ids.last();
        if node_of(id, num_nodes) == node {
            rest.push(id).push(id + ":chunks"@)
        } else {
            rest
        }
    }
}

/// `groups` name each node once, and hold all keys of the artifacts of `ids`.
pub open spec fn is_grouping(groups: Seq<NodeGroup>, ids: Seq<Seq<char>>, num_nodes: nat) -> bool {
    &&& forall|i: int, j: int|
        0 <= i < j < groups.len() ==> (#[trigger] groups[i]).node != (#[trigger] groups[j]).node
    &&& forall|i: int|
        0 <= i < groups.len() ==> {
            &&& (#[trigger] groups[i]).node < num_nodes
            &&& views(groups[i].keys@) == node_keys(ids, num_nodes, groups[i].node as int)
            &&& groups[i].keys@.len() > 0
        }
    &&& forall|k: int|
        0 <= k < ids.len() ==> exists|i: int|
            0 <= i < groups.len() && (#[trigger] groups[i]).node == node_of(
                #[trigger] ids[k],
                num_nodes,
            )
}

/// Groups the keys of artifacts by the node that keeps them.
pub fn group_by_node(ids: &Vec<String>, num_nodes: usize) -> (groups: Vec<NodeGroup>)
    requires
        ids@.len() > 0 ==> num_nodes > 0,
    ensures
        is_grouping(groups@, views(ids@), num_nodes as nat),
{
    let mut groups: Vec<NodeGroup> = Vec::new();
    let ghost all = views(ids@);
    let mut i: usize = 0;
    assert(all.take(0) =~= Seq::empty());
    while i < ids.len()
        invariant
            i <= ids@.len(),
            all == views(ids@),
            ids@.len() > 0 ==> num_nodes > 0,
            is_grouping(groups@, all.take(i as int), num_nodes as nat),
        decreases ids@.len() - i,
    {
        let id = ids[i].as_str();
        let node: usize = get_connection_idx(id, num_nodes);
        let ghost seen = all.take(i as int);
        let ghost next = all.take(i as int + 1);
        let ghost before = groups@;
        proof {
            assert(next.drop_last() =~= seen);
            assert(next.last() == id@);
        }
        let mut g: usize = 0;
        while g < groups.len() && groups[g].node != node
            invariant
                g <= groups@.len(),
                groups@ == before,
                forall|j: int| 0 <= j < g ==> (#[trigger] groups@[j]).node != node,
            decreases groups@.len() - g,
        {
            g = g + 1;
        }
        if g == groups.len() {
            groups.push(NodeGroup { node, keys: Vec::new() });
            proof {
                lemma_no_keys(before, seen, num_nodes as nat, node as int);
            }
        }
        let ghost middle = groups@;
        assert(views(middle[g as int].keys@) =~= node_keys(seen, num_nodes as nat, node as int));
        let mut group = NodeGroup { node, keys: copy_strings(&groups[g].keys) };
        group.keys.push(id.to_owned());
        group.keys.push(chunks_key(id));
        assert(views(group.keys@) =~= views(middle[g as int].keys@).push(id@).push(
            id@ + ":chunks"@,
        ));
        groups.set(g, group);
        proof {
            assert forall|j: int| 0 <= j < groups@.len() implies {
                &&& (#[trigger] groups@[j]).node < num_nodes
                &&& views(groups@[j].keys@) == node_keys(
                    next,
                    num_nodes as nat,
                    groups@[j].node as int,
                )
                &&& groups@[j].keys@.len() > 0
            } by {
                if j != g {
                    assert(groups@[j] == before[j]);
                }
            }
            assert forall|a: int, b: int| 0 <= a < b < groups@.len() implies (
            #[trigger] groups@[a]).node != (#[trigger] groups@[b]).node by {
                assert(groups@[a].node == middle[a].node);
                assert(groups@[b].node == middle[b].node);
                if b < before.len() {
                    assert(before[a].node != before[b].node);
                } else {
                    assert(before[a].node != node);
                }
            }
            assert forall|k: int| 0 <= k < next.len() implies exists|j: int|
                0 <= j < groups@.len() && (#[trigger] groups@[j]).node == node_of(
                    #[trigger] next[k],
                    num_nodes as nat,
                ) by {
                if k < i {
                    assert(next[k] == seen[k]);
                    let j = choose|j: int|
                        0 <= j < before.len() && (#[trigger] before[j]).node == node_of(
                            seen[k],
                            num_nodes as nat,
                        );
                    assert(groups@[j].node == before[j].node);
                } else {
                    assert(groups@[g as int].node == node);
                }
            }
        }
        i = i + 1;
    }
    assert(all.take(all.len() as int) =~= all);
    groups
}

/// A node that no group names has no keys.
proof fn lemma_no_keys(groups: Seq<NodeGroup>, ids: Seq<Seq<char>>, num_nodes: nat, node: int)
    requires
        forall|k: int|
            0 <= k < ids.len() ==> exists|i: int|
                0 <= i < groups.len() && (#[trigger] groups[i]).node == node_of(
                    #[trigger] ids[k],
                    num_nodes,
                ),
        forall|j: int| 0 <= j < groups.len() ==> (#[trigger] groups[j]).node != node,
    ensures
        node_keys(ids, num_nodes, node).len() == 0,
    decreases ids.len(),
{
    if ids.len() > 0 {
        let n = ids.len() - 1;
        let rest = ids.drop_last();
        assert(node_of(ids[n], num_nodes) != node);
        assert forall|k: int| 0 <= k < rest.len() implies exists|i: int|
            0 <= i < groups.len() && (#[trigger] groups[i]).node == node_of(
                #[trigger] rest[k],
                num_nodes,
            ) by {
            assert(rest[k] == ids[k]);
        }
        lemma_no_keys(groups, rest, num_nodes, node);
    }
}

/// A copy of a list of strings.
fn copy_strings(v: &Vec<String>) -> (r: Vec<String>)
    ensures
        views(r@) == views(v@),
{
    let mut r: Vec<String> = Vec::new();
    let mut i: usize = 0;
    while i < v.len()
        invariant
            i <= v@.len(),
            views(r@) == views(v@).take(i as int),
        decreases v@.len() - i,
    {
        let ghost before = views(r@);
        r.push(v[i].clone());
        proof {
            assert(views(r@) =~= before.push(v@[i as int]@));
            assert(views(v@).take(i as int + 1) =~= before.push(v@[i as int]@));
        }
        i = i + 1;
    }
    assert(views(v@).take(v@.len() as int) =~= views(v@));
    r
}

/// Deleting a group deletes both keys of each of its artifacts: the artifact's
/// own and that of its chunks.
pub proof fn law_both_keys_grouped(
    groups: Seq<NodeGroup>,
    ids: Seq<Seq<char>>,
    num_nodes: nat,
    k: int,
)
    requires
        is_grouping(groups, ids, num_nodes),
        0 <= k < ids.len(),
    ensures
        exists|i: int|
            {
                &&& 0 <= i < groups.len()
                &&& (#[trigger] groups[i]).node == node_of(ids[k], num_nodes)
                &&& views(groups[i].keys@).contains(ids[k])
                &&& views(groups[i].keys@).contains(ids[k] + ":chunks"@)
            },
{
    let i = choose|i: int|
        0 <= i < groups.len() && (#[trigger] groups[i]).node == node_of(ids[k], num_nodes);
    lemma_keys_contain(ids, num_nodes, k);
    assert(groups[i].node == node_of(ids[k], num_nodes));
}

/// The keys of a node hold both keys of each artifact that lives there.
proof fn lemma_keys_contain(ids: Seq<Seq<char>>, num_nodes: nat, k: int)
    requires
        0 <= k < ids.len(),
    ensures
        node_keys(ids, num_nodes, node_of(ids[k], num_nodes)).contains(ids[k]),
        node_keys(ids, num_nodes, node_of(ids[k], num_nodes)).contains(ids[k] + ":chunks"@),
    decreases ids.len(),
{
    let node = node_of(ids[k], num_nodes);
    let keys = node_keys(ids, num_nodes, node);
    let rest = node_keys(ids.drop_last(), num_nodes, node);
    if k == ids.len() - 1 {
        assert(keys[rest.len() as int] == ids[k]);
        assert(keys[rest.len() as int + 1] == ids[k] + ":chunks"@);
    } else {
        lemma_keys_contain(ids.drop_last(), num_nodes, k);
        let a = choose|a: int| 0 <= a < rest.len() && rest[a] == ids[k];
        let b = choose|b: int| 0 <= b < rest.len() && rest[b] == ids[k] + ":chunks"@;
        assert(keys[a] == rest[a]);
        assert(keys[b] == rest[b]);
    }
}

/// The hash is FNV-1a: it starts from the offset basis, and each further byte
/// is mixed in by exclusive or, then multiplied away by the prime.
pub proof fn law_hash_is_fnv1a(b: Seq<u8>, x: u8)
    ensures
        hash_bytes(Seq::empty()) == 0x811c_9dc5,
        hash_bytes(b.push(x)) == ((hash_bytes(b) ^ (x as usize)) * 0x0100_0193) % (usize::MAX + 1),
{
    assert(b.push(x).drop_last() =~= b);
}

/// An artifact lives on one node, which is one of those that there are.
pub proof fn law_node_exists(id: Seq<char>, num_nodes: nat)
    requires
        num_nodes > 0,
    ensures
        0 <= node_of(id, num_nodes) < num_nodes,
        node_of(id, num_nodes) == hash_bytes(vstd::utf8::encode_utf8(id)) as int % num_nodes as int,
{
}

/// The keys of a node are those of artifacts that live there.
proof fn lemma_only_listed_keys(
    ids: Seq<Seq<char>>,
    num_nodes: nat,
    node: int,
    key: Seq<char>,
)
    requires
        node_keys(ids, num_nodes, node).contains(key),
    ensures
        exists|k: int|
            {
                &&& 0 <= k < ids.len()
                &&& node_of(#[trigger] ids[k], num_nodes) == node
                &&& key == ids[k] || key == ids[k] + ":chunks"@
            },
    decreases ids.len(),
{
    if ids.len() > 0 {
        let rest = node_keys(ids.drop_last(), num_nodes, node);
        let id = ids.last();
        if rest.contains(key) {
            lemma_only_listed_keys(ids.drop_last(), num_nodes, node, key);
            let k = choose|k: int|
                {
                    &&& 0 <= k < ids.drop_last().len()
                    &&& node_of(#[trigger] ids.drop_last()[k], num_nodes) == node
                    &&& key == ids.drop_last()[k] || key == ids.drop_last()[k] + ":chunks"@
                };
            assert(ids[k] == ids.drop_last()[k]);
        } else {
            let keys = node_keys(ids, num_nodes, node);
            let i = choose|i: int| 0 <= i < keys.len() && keys[i] == key;
            if i < rest.len() {
                assert(rest[i] == key);
            }
            assert(ids[ids.len() - 1] == id);
        }
    }
}

/// Deleting a group deletes nothing but the keys of listed artifacts that live
/// on its node, and no two groups are for the same node.
pub proof fn law_only_listed_keys_grouped(
    groups: Seq<NodeGroup>,
    ids: Seq<Seq<char>>,
    num_nodes: nat,
    i: int,
    key: Seq<char>,
)
    requires
        is_grouping(groups, ids, num_nodes),
        0 <= i < groups.len(),
        views(groups[i].keys@).contains(key),
    ensures
        groups[i].node < num_nodes,
        exists|k: int|
            {
                &&& 0 <= k < ids.len()
                &&& node_of(#[trigger] ids[k], num_nodes) == groups[i].node
                &&& key == ids[k] || key == ids[k] + ":chunks"@
            },
        forall|j: int|
            0 <= j < groups.len() && j != i ==> (#[trigger] groups[j]).node != groups[i].node,
{
    lemma_only_listed_keys(ids, num_nodes, groups[i].node as int, key);
    assert forall|j: int| 0 <= j < groups.len() && j != i implies (#[trigger] groups[j]).node
        != groups[i].node by {
        if j < i {
            assert(groups[j].node != groups[i].node);
        } else {
            assert(groups[i].node != groups[j].node);
        }
    }
}

} // verus!
