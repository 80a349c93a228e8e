//! Storage of DAG nodes: an in-memory store with child, parent and tip
//! indexes, and a buffered store that batches writes before they reach
//! the in-memory cache (and, through the caller, the disk).

use vstd::prelude::*;

use crate::dag::{vec_contains, vec_remove_value, view_nodes, DAGNode, DAGNodeView};
use crate::error::{text, QuDAGError};
use crate::ids::uuid_string;
use std::collections::HashMap;

verus! {

/// `s` with every occurrence of `x` removed.
pub open spec fn without(s: Seq<u128>, x: u128) -> Seq<u128>
    decreases s.len(),
{
    if s.len() == 0 {
        s
    } else {
        let r = without(s.drop_last(), x);
        if s.last() == x {
            r
        } else {
            r.push(s.last())
        }
    }
}

/// The sequences held by a map of vectors.
pub open spec fn seq_map(m: Map<u128, Vec<u128>>) -> Map<u128, Seq<u128>> {
    Map::new(|k: u128| m.contains_key(k), |k: u128| m[k]@)
}

/// The node values held by a map of nodes.
pub open spec fn node_map(m: Map<u128, DAGNode>) -> Map<u128, DAGNodeView> {
    Map::new(|k: u128| m.contains_key(k), |k: u128| m[k]@)
}

/// Child lists after `c` is recorded as a child of each of `ps`, in order.
pub open spec fn link_children(e: Map<u128, Seq<u128>>, ps: Seq<u128>, c: u128) -> Map<u128, Seq<u128>>
    decreases ps.len(),
{
    if ps.len() == 0 {
        e
    } else {
        let e2 = link_children(e, ps.drop_last(), c);
        let p = ps.last();
        e2.insert(
            p,
            if e2.contains_key(p) {
                e2[p]
            } else {
                Seq::empty()
            }.push(c),
        )
    }
}

/// Child lists after `c` is removed from the lists of each of `ps`.
pub open spec fn unlink_children(e: Map<u128, Seq<u128>>, ps: Seq<u128>, c: u128) -> Map<u128, Seq<u128>> {
    Map::new(
        |k: u128| e.contains_key(k),
        |k: u128|
            if ps.contains(k) {
                without(e[k], c)
            } else {
                e[k]
            },
    )
}

/// The parents among `ps` that are left without children once `c` goes.
pub open spec fn orphaned(e: Map<u128, Seq<u128>>, ps: Seq<u128>, c: u128) -> Set<u128> {
    Set::new(|p: u128| ps.contains(p) && e.contains_key(p) && without(e[p], c).len() == 0)
}

/// What a memory store holds: the nodes by identifier (and the order in
/// which they were stored), the child lists, the parent lists and the tips.
pub struct StorageView {
    pub nodes: Map<u128, DAGNodeView>,
    pub ids: Seq<u128>,
    pub edges: Map<u128, Seq<u128>>,
    pub reverse_edges: Map<u128, Seq<u128>>,
    pub tips: Set<u128>,
}

/// The store after adding node `n`: it is stored under its identifier,
/// becomes a child of each parent (known or not), records its parents
/// when it has any, and replaces its parents among the tips.
pub open spec fn stored_after_add(v: StorageView, n: DAGNodeView) -> StorageView {
    StorageView {
        nodes: v.nodes.insert(n.id, n),
        ids: v.ids.push(n.id),
        edges: link_children(v.edges, n.parents, n.id),
        reverse_edges: if n.parents.len() > 0 {
            v.reverse_edges.insert(n.id, n.parents)
        } else {
            v.reverse_edges
        },
        tips: v.tips.difference(n.parents.to_set()).insert(n.id),
    }
}

/// The parents recorded for `id` (empty when none).
pub open spec fn recorded_parents(v: StorageView, id: u128) -> Seq<u128> {
    if v.reverse_edges.contains_key(id) {
        v.reverse_edges[id]
    } else {
        Seq::empty()
    }
}

/// The store after removing node `id`: its own child list and parent list
/// go, it leaves its parents' child lists (a parent left without children
/// becomes a tip), it stops being a tip, and it leaves every parent list.
pub open spec fn stored_after_remove(v: StorageView, id: u128) -> StorageView {
    let e1 = v.edges.remove(id);
    let ps = recorded_parents(v, id);
    StorageView {
        nodes: v.nodes.remove(id),
        ids: without(v.ids, id),
        edges: unlink_children(e1, ps, id),
        reverse_edges: Map::new(
            |k: u128| v.reverse_edges.contains_key(k) && k != id,
            |k: u128| without(v.reverse_edges[k], id),
        ),
        tips: v.tips.union(orphaned(e1, ps, id)).remove(id),
    }
}

/// Storage statistics.
#[derive(Debug)]
pub struct StorageStats {
    pub node_count: usize,
    pub tip_count: usize,
    pub total_size_bytes: usize,
    pub storage_type: String,
}

/// Bytes a set of nodes takes: each node's data plus the node record itself.
pub open spec fn stored_bytes(nodes: Map<u128, DAGNodeView>, ids: Seq<u128>) -> nat
    decreases ids.len(),
{
    if ids.len() == 0 {
        0
    } else {
        stored_bytes(nodes, ids.drop_last()) + nodes[ids.last()].data.len() + vstd::layout::size_of::<
            DAGNode,
        >()
    }
}

// ---------------------------------------------------------------------
// Lemmas
// ---------------------------------------------------------------------

proof fn lemma_push_contains(s: Seq<u128>, a: u128, y: u128)
    ensures
        s.push(a).contains(y) <==> (s.contains(y) || a == y),
{
    let t = s.push(a);
    if t.contains(y) {
        let k = choose|k: int| 0 <= k < t.len() && t[k] == y;
        if k < s.len() {
            assert(s[k] == y);
        }
    }
    if s.contains(y) {
        let k = choose|k: int| 0 <= k < s.len() && s[k] == y;
        assert(t[k] == y);
    }
    if a == y {
        assert(t[s.len() as int] == y);
    }
}

proof fn lemma_without_contains(s: Seq<u128>, x: u128, y: u128)
    ensures
        without(s, x).contains(y) <==> (s.contains(y) && y != x),
    decreases s.len(),
{
    if s.len() > 0 {
        let d = s.drop_last();
        lemma_without_contains(d, x, y);
        assert(s =~= d.push(s.last()));
        lemma_push_contains(d, s.last(), y);
        if s.last() != x {
            lemma_push_contains(without(d, x), s.last(), y);
        }
    }
}

proof fn lemma_without_idempotent(s: Seq<u128>, x: u128)
    ensures
        without(without(s, x), x) == without(s, x),
    decreases s.len(),
{
    if s.len() > 0 {
        lemma_without_idempotent(s.drop_last(), x);
        let r = without(s.drop_last(), x);
        if s.last() != x {
            assert(r.push(s.last()).drop_last() =~= r);
        }
    }
}

proof fn lemma_without_absent(s: Seq<u128>, x: u128)
    requires
        !s.contains(x),
    ensures
        without(s, x) == s,
    decreases s.len(),
{
    if s.len() > 0 {
        assert(!s.drop_last().contains(x)) by {
            if s.drop_last().contains(x) {
                let k = choose|k: int| 0 <= k < s.drop_last().len() && s.drop_last()[k] == x;
                assert(s[k] == x);
            }
        }
        lemma_without_absent(s.drop_last(), x);
        assert(s.last() != x) by {
            assert(s[s.len() - 1] == s.last());
        }
        assert(s.drop_last().push(s.last()) =~= s);
    }
}

proof fn lemma_without_no_duplicates(s: Seq<u128>, x: u128)
    requires
        s.no_duplicates(),
    ensures
        without(s, x).no_duplicates(),
    decreases s.len(),
{
    if s.len() > 0 {
        let d = s.drop_last();
        assert(d.no_duplicates());
        lemma_without_no_duplicates(d, x);
        let r = without(d, x);
        if s.last() != x {
            lemma_without_contains(d, x, s.last());
            assert(!d.contains(s.last())) by {
                if d.contains(s.last()) {
                    let k = choose|k: int| 0 <= k < d.len() && d[k] == s.last();
                    assert(s[k] == s[s.len() - 1]);
                }
            }
            assert forall|i: int, j: int| 0 <= i < j < r.push(s.last()).len() implies r.push(s.last())[i]
                != r.push(s.last())[j] by {
                if j == r.len() {
                    assert(r.contains(r[i]));
                }
            }
        }
    }
}

proof fn lemma_stored_bytes_prefix(nodes: Map<u128, DAGNodeView>, ids: Seq<u128>, i: int)
    requires
        0 <= i < ids.len(),
    ensures
        stored_bytes(nodes, ids.subrange(0, i + 1)) == stored_bytes(nodes, ids.subrange(0, i))
            + nodes[ids[i]].data.len() + vstd::layout::size_of::<DAGNode>(),
{
    assert(ids.subrange(0, i + 1).drop_last() =~= ids.subrange(0, i));
}

proof fn lemma_stored_bytes_monotone(nodes: Map<u128, DAGNodeView>, ids: Seq<u128>, i: int)
    requires
        0 <= i <= ids.len(),
    ensures
        stored_bytes(nodes, ids.subrange(0, i)) <= stored_bytes(nodes, ids),
    decreases ids.len() - i,
{
    if i < ids.len() {
        lemma_stored_bytes_prefix(nodes, ids, i);
        lemma_stored_bytes_monotone(nodes, ids, i + 1);
    } else {
        assert(ids.subrange(0, i) =~= ids);
    }
}

// ---------------------------------------------------------------------
// Vector and map helpers
// ---------------------------------------------------------------------

/// A copy of `v` without the occurrences of `x`.
pub fn vec_without(v: &Vec<u128>, x: u128) -> (r: Vec<u128>)
    ensures
        r@ == without(v@, x),
{
    let mut r: Vec<u128> = Vec::new();
    let mut i: usize = 0;
    while i < v.len()
        invariant
            i <= v@.len(),
            r@ == without(v@.subrange(0, i as int), x),
        decreases v@.len() - i,
    {
        assert(v@.subrange(0, i + 1).drop_last() =~= v@.subrange(0, i as int));
        if v[i] != x {
            r.push(v[i]);
        }
        i = i + 1;
    }
    assert(v@.subrange(0, v@.len() as int) =~= v@);
    r
}

/// Adds `x` to a duplicate-free vector unless it is already there.
pub fn vec_insert_unique(v: &mut Vec<u128>, x: u128)
    requires
        old(v)@.no_duplicates(),
    ensures
        final(v)@.no_duplicates(),
        final(v)@.to_set() == old(v)@.to_set().insert(x),
{
    if !vec_contains(v, x) {
        let ghost before = v@;
        v.push(x);
        proof {
            assert forall|i: int, j: int| 0 <= i < j < v@.len() implies v@[i] != v@[j] by {
                if j == before.len() {
                    assert(before.contains(before[i]));
                }
            }
            assert forall|y: u128| #[trigger] v@.to_set().contains(y) <==> before.to_set().insert(x).contains(y) by {
                if v@.contains(y) {
                    let k = choose|k: int| 0 <= k < v@.len() && v@[k] == y;
                    if k < before.len() {
                        assert(before[k] == y);
                    }
                }
                if before.contains(y) {
                    let k = choose|k: int| 0 <= k < before.len() && before[k] == y;
                    assert(v@[k] == y);
                }
                if y == x {
                    assert(v@[before.len() as int] == y);
                }
            }
            assert(v@.to_set() =~= before.to_set().insert(x));
        }
    } else {
        assert(v@.to_set() =~= v@.to_set().insert(x));
    }
}

/// Removes every value of `gone` from a duplicate-free vector.
fn vec_remove_all(v: &mut Vec<u128>, gone: &Vec<u128>)
    requires
        old(v)@.no_duplicates(),
    ensures
        final(v)@.no_duplicates(),
        final(v)@.to_set() == old(v)@.to_set().difference(gone@.to_set()),
{
    let ghost t0 = v@.to_set();
    let mut k: usize = 0;
    while k < gone.len()
        invariant
            k <= gone@.len(),
            t0 == old(v)@.to_set(),
            v@.no_duplicates(),
            v@.to_set() == t0.difference(gone@.subrange(0, k as int).to_set()),
        decreases gone@.len() - k,
    {
        let ghost pre_v = v@;
        vec_remove_value(v, gone[k]);
        proof {
            let post = gone@.subrange(0, k + 1);
            let pre = gone@.subrange(0, k as int);
            assert(post =~= pre.push(gone@[k as int]));
            assert forall|y: u128| #[trigger] v@.to_set().contains(y) <==> t0.difference(post.to_set()).contains(y) by {
                lemma_push_contains(pre, gone@[k as int], y);
                assert(v@.contains(y) <==> (pre_v.contains(y) && y != gone@[k as int]));
                assert(pre_v.to_set().contains(y) <==> pre_v.contains(y));
            }
            assert(v@.to_set() =~= t0.difference(post.to_set()));
        }
        k = k + 1;
    }
    assert(gone@.subrange(0, gone@.len() as int) =~= gone@);
}

/// Replaces each list of `lists` stored under one of `keys` by the list
/// without `x`.
fn strip_from_lists(lists: &mut HashMap<u128, Vec<u128>>, keys: &Vec<u128>, x: u128)
    requires
        keys@.no_duplicates(),
    ensures
        seq_map(final(lists)@) == Map::new(
            |k: u128| seq_map(old(lists)@).contains_key(k),
            |k: u128|
                if keys@.contains(k) {
                    without(seq_map(old(lists)@)[k], x)
                } else {
                    seq_map(old(lists)@)[k]
                },
        ),
{
    broadcast use vstd::std_specs::hash::group_hash_axioms;

    let ghost r1 = seq_map(lists@);
    let mut i: usize = 0;
    while i < keys.len()
        invariant
            keys@.no_duplicates(),
            i <= keys@.len(),
            r1 == seq_map(old(lists)@),
            seq_map(lists@) == Map::new(
                |k: u128| r1.contains_key(k),
                |k: u128|
                    if keys@.subrange(0, i as int).contains(k) {
                        without(r1[k], x)
                    } else {
                        r1[k]
                    },
            ),
        decreases keys@.len() - i,
    {
        let k = keys[i];
        let ghost before = seq_map(lists@);
        let ghost pre = keys@.subrange(0, i as int);
        let ghost post = keys@.subrange(0, i + 1);
        proof {
            assert(post =~= pre.push(k));
            assert(!pre.contains(k)) by {
                if pre.contains(k) {
                    let j = choose|j: int| 0 <= j < pre.len() && pre[j] == k;
                    assert(keys@[j] == keys@[i as int]);
                }
            }
        }
        match lists.remove(&k) {
            Some(ps) => {
                proof {
                    assert(ps@ == before[k]);
                    assert(before[k] == r1[k]);
                }
                let kept = vec_without(&ps, x);
                lists.insert(k, kept);
                proof {
                    assert(seq_map(lists@) =~= before.insert(k, kept@));
                }
            },
            None => {
                proof {
                    assert(seq_map(lists@) =~= before);
                }
            },
        }
        proof {
            assert forall|q: u128| #[trigger] post.contains(q) <==> (pre.contains(q) || q == k) by {
                lemma_push_contains(pre, k, q);
            }
            assert(seq_map(lists@) =~= Map::new(
                |q: u128| r1.contains_key(q),
                |q: u128|
                    if post.contains(q) {
                        without(r1[q], x)
                    } else {
                        r1[q]
                    },
            ));
        }
        i = i + 1;
    }
    assert(keys@.subrange(0, keys@.len() as int) =~= keys@);
}

/// Records `child` as a child of each of `parents`, in order.
fn link_children_exec(edges: &mut HashMap<u128, Vec<u128>>, parents: &Vec<u128>, child: u128)
    ensures
        seq_map(final(edges)@) == link_children(seq_map(old(edges)@), parents@, child),
{
    broadcast use vstd::std_specs::hash::group_hash_axioms;

    let ghost e0 = seq_map(edges@);
    let mut i: usize = 0;
    while i < parents.len()
        invariant
            i <= parents@.len(),
            e0 == seq_map(old(edges)@),
            seq_map(edges@) == link_children(e0, parents@.subrange(0, i as int), child),
        decreases parents@.len() - i,
    {
        let p = parents[i];
        let ghost before = seq_map(edges@);
        let list = match edges.remove(&p) {
            Some(mut v) => {
                v.push(child);
                v
            },
            None => {
                let mut v: Vec<u128> = Vec::new();
                v.push(child);
                v
            },
        };
        edges.insert(p, list);
        proof {
            assert(parents@.subrange(0, i + 1).drop_last() =~= parents@.subrange(0, i as int));
            assert(seq_map(edges@) =~= before.insert(
                p,
                if before.contains_key(p) {
                    before[p]
                } else {
                    Seq::empty()
                }.push(child),
            ));
        }
        i = i + 1;
    }
    assert(parents@.subrange(0, parents@.len() as int) =~= parents@);
}

/// Removes `child` from the child lists of each of `parents`; a parent
/// left without children becomes a tip.
fn unlink_children_exec(
    edges: &mut HashMap<u128, Vec<u128>>,
    tips: &mut Vec<u128>,
    parents: &Vec<u128>,
    child: u128,
)
    requires
        old(tips)@.no_duplicates(),
    ensures
        seq_map(final(edges)@) == unlink_children(seq_map(old(edges)@), parents@, child),
        final(tips)@.no_duplicates(),
        final(tips)@.to_set() == old(tips)@.to_set().union(orphaned(seq_map(old(edges)@), parents@, child)),
{
    broadcast use vstd::std_specs::hash::group_hash_axioms;

    let ghost e0 = seq_map(edges@);
    let ghost t0 = tips@.to_set();
    let mut i: usize = 0;
    while i < parents.len()
        invariant
            i <= parents@.len(),
            e0 == seq_map(old(edges)@),
            t0 == old(tips)@.to_set(),
            tips@.no_duplicates(),
            seq_map(edges@) == unlink_children(e0, parents@.subrange(0, i as int), child),
            tips@.to_set() == t0.union(orphaned(e0, parents@.subrange(0, i as int), child)),
        decreases parents@.len() - i,
    {
        let p = parents[i];
        let ghost pre = parents@.subrange(0, i as int);
        let ghost post = parents@.subrange(0, i + 1);
        proof {
            assert(post =~= pre.push(p));
            assert forall|k: u128| #[trigger] post.contains(k) <==> (pre.contains(k) || k == p) by {
                if post.contains(k) {
                    let j = choose|j: int| 0 <= j < post.len() && post[j] == k;
                    if j < pre.len() {
                        assert(pre[j] == k);
                    }
                }
                if pre.contains(k) {
                    let j = choose|j: int| 0 <= j < pre.len() && pre[j] == k;
                    assert(post[j] == k);
                }
                if k == p {
                    assert(post[pre.len() as int] == k);
                }
            }
        }
        let ghost before = seq_map(edges@);
        let ghost tips_before = tips@.to_set();
        match edges.remove(&p) {
            Some(children) => {
                proof {
                    assert(before.contains_key(p));
                    assert(children@ == before[p]);
                    assert(e0.contains_key(p));
                    lemma_without_idempotent(e0[p], child);
                    assert(without(children@, child) == without(e0[p], child));
                }
                let kept = vec_without(&children, child);
                if kept.len() == 0 {
                    vec_insert_unique(tips, p);
                }
                edges.insert(p, kept);
                proof {
                    assert(seq_map(edges@) =~= before.insert(p, kept@));
                    assert(kept@ == without(e0[p], child));
                    assert(post.contains(p));
                    assert forall|q: u128| #[trigger] seq_map(edges@).contains_key(q) <==> unlink_children(
                        e0,
                        post,
                        child,
                    ).contains_key(q) by {
                        assert(before.contains_key(q) <==> e0.contains_key(q));
                    }
                    assert forall|q: u128| #[trigger] seq_map(edges@).contains_key(q) implies seq_map(edges@)[q]
                        == unlink_children(e0, post, child)[q] by {
                        if q != p {
                            assert(post.contains(q) == pre.contains(q));
                        }
                    }
                    assert(unlink_children(e0, post, child) =~= before.insert(p, kept@));
                    assert forall|q: u128| #[trigger] orphaned(e0, post, child).contains(q) <==> (orphaned(
                        e0,
                        pre,
                        child,
                    ).contains(q) || (q == p && kept@.len() == 0)) by {}
                    assert(tips@.to_set() =~= t0.union(orphaned(e0, post, child)));
                }
            },
            None => {
                proof {
                    assert(!before.contains_key(p));
                    assert(!e0.contains_key(p));
                    assert(seq_map(edges@) =~= before);
                    assert forall|q: u128| #[trigger] e0.contains_key(q) implies post.contains(q) == pre.contains(q) by {}
                    assert(unlink_children(e0, post, child) =~= unlink_children(e0, pre, child));
                    assert(orphaned(e0, post, child) =~= orphaned(e0, pre, child));
                    assert(tips@.to_set() =~= t0.union(orphaned(e0, post, child)));
                }
            },
        }
        i = i + 1;
    }
    assert(parents@.subrange(0, parents@.len() as int) =~= parents@);
}

// ---------------------------------------------------------------------
// Memory storage
// ---------------------------------------------------------------------

/// In-memory storage of DAG nodes with child, parent and tip indexes.
#[derive(Debug)]
pub struct MemoryStorage {
    nodes: HashMap<u128, DAGNode>,
    order: Vec<u128>,
    edges: HashMap<u128, Vec<u128>>,
    reverse_edges: HashMap<u128, Vec<u128>>,
    tips: Vec<u128>,
}

impl View for MemoryStorage {
    type V = StorageView;

    closed spec fn view(&self) -> StorageView {
        StorageView {
            nodes: node_map(self.nodes@),
            ids: self.order@,
            edges: seq_map(self.edges@),
            reverse_edges: seq_map(self.reverse_edges@),
            tips: self.tips@.to_set(),
        }
    }
}

/// Invariant of a store's value: identifiers listed once and exactly the
/// stored ones, nodes stored under their own identifier, parent lists only
/// for stored nodes.
pub open spec fn storage_view_wf(v: StorageView) -> bool {
    &&& v.ids.no_duplicates()
    &&& forall|k: u128| #[trigger] v.nodes.contains_key(k) <==> v.ids.contains(k)
    &&& forall|k: u128| #[trigger] v.nodes.contains_key(k) ==> v.nodes[k].id == k
    &&& forall|k: u128| #[trigger] v.reverse_edges.contains_key(k) ==> v.nodes.contains_key(k)
}

impl MemoryStorage {
    /// Well-formedness of the store.
    pub closed spec fn wf(&self) -> bool {
        &&& storage_view_wf(self@)
        &&& self.tips@.no_duplicates()
    }

    /// An empty store.
    pub fn new() -> (s: Self)
        ensures
            s.wf(),
            s@.nodes == Map::<u128, DAGNodeView>::empty(),
            s@.ids == Seq::<u128>::empty(),
            s@.edges == Map::<u128, Seq<u128>>::empty(),
            s@.reverse_edges == Map::<u128, Seq<u128>>::empty(),
            s@.tips == Set::<u128>::empty(),
    {
        broadcast use vstd::std_specs::hash::group_hash_axioms;

        let s = MemoryStorage {
            nodes: HashMap::new(),
            order: Vec::new(),
            edges: HashMap::new(),
            reverse_edges: HashMap::new(),
            tips: Vec::new(),
        };
        assert(s@.nodes =~= Map::<u128, DAGNodeView>::empty());
        assert(s@.edges =~= Map::<u128, Seq<u128>>::empty());
        assert(s@.reverse_edges =~= Map::<u128, Seq<u128>>::empty());
        assert(s@.tips =~= Set::<u128>::empty());
        s
    }

    /// Number of stored nodes.
    pub fn node_count(&self) -> (n: usize)
        requires
            self.wf(),
        ensures
            n == self@.nodes.len(),
    {
        broadcast use vstd::std_specs::hash::group_hash_axioms;

        assert(node_map(self.nodes@).dom() =~= self.nodes@.dom());
        self.nodes.len()
    }

    /// Stores a node; a node whose identifier is already stored is refused.
    pub fn add_node(&mut self, node: DAGNode) -> (r: Result<(), QuDAGError>)
        requires
            old(self).wf(),
        ensures
            final(self).wf(),
            old(self)@.nodes.contains_key(node@.id) ==> (r matches Err(e) && e is StorageError
                && final(self)@ == old(self)@),
            !old(self)@.nodes.contains_key(node@.id) ==> (r is Ok && final(self)@ == stored_after_add(
                old(self)@,
                node@,
            )),
    {
        broadcast use vstd::std_specs::hash::group_hash_axioms;

        let node_id = node.id;
        if self.nodes.contains_key(&node_id) {
            let msg = text("Node ").concat(uuid_string(node_id).as_str()).concat(" already exists");
            return Err(QuDAGError::StorageError(msg));
        }
        let ghost v0 = self@;
        let ghost nv = node@;
        let parents = node.parents.clone();
        assert(parents@ =~= node.parents@);
        self.nodes.insert(node_id, node);
        proof {
            assert(!v0.nodes.contains_key(node_id));
            assert(!v0.ids.contains(node_id));
        }
        let ghost order0 = self.order@;
        self.order.push(node_id);
        if parents.len() > 0 {
            let p2 = parents.clone();
            assert(p2@ =~= parents@);
            self.reverse_edges.insert(node_id, p2);
        }
        link_children_exec(&mut self.edges, &parents, node_id);
        vec_remove_all(&mut self.tips, &parents);
        vec_insert_unique(&mut self.tips, node_id);
        proof {
            let v = self@;
            let want = stored_after_add(v0, nv);
            assert(v.nodes =~= want.nodes);
            assert(v.ids =~= want.ids);
            assert(v.edges =~= want.edges);
            assert(v.reverse_edges =~= want.reverse_edges);
            assert(v.tips =~= want.tips);
            assert(v.ids.no_duplicates()) by {
                assert forall|a: int, b: int| 0 <= a < b < v.ids.len() implies v.ids[a] != v.ids[b] by {
                    if b == order0.len() {
                        assert(v0.ids.contains(v.ids[a]));
                    }
                }
            }
            assert forall|q: u128| #[trigger] v.nodes.contains_key(q) <==> v.ids.contains(q) by {
                if v.ids.contains(q) {
                    let j = choose|j: int| 0 <= j < v.ids.len() && v.ids[j] == q;
                    if j < order0.len() {
                        assert(order0[j] == q);
                    }
                }
                if v0.ids.contains(q) {
                    let j = choose|j: int| 0 <= j < order0.len() && order0[j] == q;
                    assert(v.ids[j] == q);
                }
                if q == node_id {
                    assert(v.ids[order0.len() as int] == q);
                }
            }
        }
        Ok(())
    }

    /// The node stored under `id`, if any.
    pub fn get_node(&self, id: u128) -> (r: Option<DAGNode>)
        requires
            self.wf(),
        ensures
            match r {
                Some(n) => self@.nodes.contains_key(id) && n@ == self@.nodes[id],
                None => !self@.nodes.contains_key(id),
            },
    {
        broadcast use vstd::std_specs::hash::group_hash_axioms;

        match self.nodes.get(&id) {
            Some(n) => Some(n.clone()),
            None => None,
        }
    }

    /// Whether a node is stored under `id`.
    pub fn contains_node(&self, id: u128) -> (b: bool)
        ensures
            b == self@.nodes.contains_key(id),
    {
        broadcast use vstd::std_specs::hash::group_hash_axioms;

        self.nodes.contains_key(&id)
    }

    /// All stored nodes, oldest first.
    pub fn get_all_nodes(&self) -> (r: Vec<DAGNode>)
        requires
            self.wf(),
        ensures
            r@.len() == self@.ids.len(),
            forall|i: int| 0 <= i < r@.len() ==> (#[trigger] r@[i])@ == self@.nodes[self@.ids[i]],
    {
        broadcast use vstd::std_specs::hash::group_hash_axioms;

        let mut out: Vec<DAGNode> = Vec::new();
        let mut i: usize = 0;
        while i < self.order.len()
            invariant
                self.wf(),
                i <= self.order@.len(),
                out@.len() == i,
                forall|j: int| 0 <= j < i ==> (#[trigger] out@[j])@ == self@.nodes[self@.ids[j]],
            decreases self.order@.len() - i,
        {
            let id = self.order[i];
            assert(self@.ids[i as int] == id);
            assert(self@.ids.contains(id));
            assert(self@.nodes.contains_key(id));
            match self.nodes.get(&id) {
                Some(n) => {
                    out.push(n.clone());
                },
                None => {
                    assert(false);
                },
            }
            i = i + 1;
        }
        out
    }

    /// The tips, each once.
    pub fn get_tips(&self) -> (r: Vec<u128>)
        requires
            self.wf(),
        ensures
            r@.no_duplicates(),
            r@.to_set() == self@.tips,
    {
        let r = self.tips.clone();
        assert(r@ =~= self.tips@);
        r
    }

    /// The children recorded for `id` (empty when none).
    pub fn get_children(&self, id: u128) -> (r: Vec<u128>)
        ensures
            r@ == if self@.edges.contains_key(id) {
                self@.edges[id]
            } else {
                Seq::empty()
            },
    {
        broadcast use vstd::std_specs::hash::group_hash_axioms;

        match self.edges.get(&id) {
            Some(v) => {
                let c = v.clone();
                assert(c@ =~= v@);
                c
            },
            None => Vec::new(),
        }
    }

    /// The parents recorded for `id` (empty when none).
    pub fn get_parents(&self, id: u128) -> (r: Vec<u128>)
        ensures
            r@ == recorded_parents(self@, id),
    {
        broadcast use vstd::std_specs::hash::group_hash_axioms;

        match self.reverse_edges.get(&id) {
            Some(v) => {
                let c = v.clone();
                assert(c@ =~= v@);
                c
            },
            None => Vec::new(),
        }
    }

    /// Removes the node stored under `id`; `false` when there is none.
    pub fn remove_node(&mut self, id: u128) -> (r: bool)
        requires
            old(self).wf(),
        ensures
            final(self).wf(),
            r == old(self)@.nodes.contains_key(id),
            r ==> final(self)@ == stored_after_remove(old(self)@, id),
            !r ==> final(self)@ == old(self)@,
    {
        broadcast use vstd::std_specs::hash::group_hash_axioms;

        if !self.nodes.contains_key(&id) {
            return false;
        }
        let ghost v0 = self@;
        self.nodes.remove(&id);
        self.order = vec_without(&self.order, id);
        proof {
            lemma_without_no_duplicates(v0.ids, id);
            assert forall|q: u128| #[trigger] self.order@.contains(q) <==> (v0.ids.contains(q) && q != id) by {
                lemma_without_contains(v0.ids, id, q);
            }
        }
        let ghost order1 = self.order@;
        let ghost e_before = seq_map(self.edges@);
        self.edges.remove(&id);
        let ghost e1 = seq_map(self.edges@);
        proof {
            assert(e1 =~= e_before.remove(id));
        }
        let parents: Vec<u128> = match self.reverse_edges.remove(&id) {
            Some(ps) => ps,
            None => Vec::new(),
        };
        proof {
            assert(parents@ == recorded_parents(v0, id));
        }
        unlink_children_exec(&mut self.edges, &mut self.tips, &parents, id);
        vec_remove_value(&mut self.tips, id);
        let ghost r_before = seq_map(self.reverse_edges@);
        let ghost r1 = v0.reverse_edges.remove(id);
        proof {
            assert(r_before =~= r1);
            assert forall|k: u128| #[trigger] r1.contains_key(k) implies order1.contains(k) by {
                assert(v0.reverse_edges.contains_key(k));
                assert(v0.nodes.contains_key(k));
                assert(v0.ids.contains(k));
            }
        }
        strip_from_lists(&mut self.reverse_edges, &self.order, id);
        proof {
            let v = self@;
            let want = stored_after_remove(v0, id);
            assert(v.nodes =~= want.nodes);
            assert(v.ids == want.ids);
            lemma_without_no_duplicates(v0.ids, id);
            assert forall|q: u128| #[trigger] v.nodes.contains_key(q) <==> v.ids.contains(q) by {
                lemma_without_contains(v0.ids, id, q);
            }
            assert(v.reverse_edges =~= want.reverse_edges);
            assert(v.edges =~= want.edges);
            assert(v.tips =~= want.tips);
        }
        true
    }
}

/// The empty store.
pub open spec fn empty_storage() -> StorageView {
    StorageView {
        nodes: Map::empty(),
        ids: Seq::empty(),
        edges: Map::empty(),
        reverse_edges: Map::empty(),
        tips: Set::empty(),
    }
}

/// The store after adding the nodes of `ns` one after the other.
pub open spec fn stored_after_adds(v: StorageView, ns: Seq<DAGNodeView>) -> StorageView
    decreases ns.len(),
{
    if ns.len() == 0 {
        v
    } else {
        stored_after_add(stored_after_adds(v, ns.drop_last()), ns.last())
    }
}

/// The identifiers of a list of nodes.
pub open spec fn node_ids(ns: Seq<DAGNodeView>) -> Seq<u128> {
    ns.map_values(|n: DAGNodeView| n.id)
}

/// Adding `ns` to `v` meets no identifier twice: the identifiers in `ns`
/// are distinct and none is stored in `v` yet.
pub open spec fn adds_cleanly(v: StorageView, ns: Seq<DAGNodeView>) -> bool {
    &&& node_ids(ns).no_duplicates()
    &&& forall|i: int| 0 <= i < ns.len() ==> !v.nodes.contains_key(#[trigger] ns[i].id)
}

/// A node just stored reads back as written; every other identifier reads
/// as before.
pub proof fn lemma_read_after_write(v: StorageView, n: DAGNodeView, k: u128)
    ensures
        stored_after_add(v, n).nodes.contains_key(n.id),
        stored_after_add(v, n).nodes[n.id] == n,
        k != n.id ==> stored_after_add(v, n).nodes.contains_key(k) == v.nodes.contains_key(k),
        k != n.id ==> stored_after_add(v, n).nodes[k] == v.nodes[k],
{
}

/// Removing a node right after storing it under a fresh identifier leaves
/// the stored nodes, and the order they were stored in, as they were.
pub proof fn lemma_remove_undoes_add(v: StorageView, n: DAGNodeView)
    requires
        storage_view_wf(v),
        !v.nodes.contains_key(n.id),
    ensures
        stored_after_remove(stored_after_add(v, n), n.id).nodes == v.nodes,
        stored_after_remove(stored_after_add(v, n), n.id).ids == v.ids,
{
    assert(v.nodes.insert(n.id, n).remove(n.id) =~= v.nodes);
    assert(v.ids.push(n.id).drop_last() =~= v.ids);
    assert(!v.ids.contains(n.id));
    lemma_without_absent(v.ids, n.id);
}

/// Storing distinct nodes one by one into an empty store lists their
/// identifiers in that order, each with its node.
proof fn lemma_adds_listing(ns: Seq<DAGNodeView>)
    requires
        node_ids(ns).no_duplicates(),
    ensures
        stored_after_adds(empty_storage(), ns).ids == node_ids(ns),
        forall|i: int|
            0 <= i < ns.len() ==> stored_after_adds(empty_storage(), ns).nodes[#[trigger] ns[i].id] == ns[i],
    decreases ns.len(),
{
    if ns.len() > 0 {
        let d = ns.drop_last();
        let t = node_ids(ns);
        assert(node_ids(d) =~= t.drop_last());
        assert(node_ids(d).no_duplicates()) by {
            assert forall|a: int, b: int| 0 <= a < b < node_ids(d).len() implies node_ids(d)[a] != node_ids(d)[b] by {
                assert(node_ids(d)[a] == t[a] && node_ids(d)[b] == t[b]);
            }
        }
        lemma_adds_listing(d);
        assert(t =~= node_ids(d).push(ns.last().id));
        let s = stored_after_adds(empty_storage(), ns);
        assert forall|i: int| 0 <= i < ns.len() implies s.nodes[#[trigger] ns[i].id] == ns[i] by {
            if i < d.len() {
                assert(ns[i] == d[i]);
                assert(t[i] == ns[i].id && t[ns.len() - 1] == ns.last().id);
            }
        }
    }
}

/// Backup and restore: the nodes of a store built by storing `ns`, listed
/// in storage order (as `get_all_nodes` lists them), are `ns` again, so
/// restoring that list into an empty store rebuilds the same store.
pub proof fn lemma_backup_restore(ns: Seq<DAGNodeView>)
    requires
        adds_cleanly(empty_storage(), ns),
    ensures
        ({
            let s = stored_after_adds(empty_storage(), ns);
            let listed = Seq::new(s.ids.len(), |i: int| s.nodes[s.ids[i]]);
            &&& listed == ns
            &&& adds_cleanly(empty_storage(), listed)
            &&& stored_after_adds(empty_storage(), listed) == s
        }),
{
    lemma_adds_listing(ns);
    let s = stored_after_adds(empty_storage(), ns);
    let listed = Seq::new(s.ids.len(), |i: int| s.nodes[s.ids[i]]);
    assert forall|i: int| 0 <= i < ns.len() implies listed[i] == ns[i] by {
        assert(s.ids[i] == node_ids(ns)[i]);
    }
    assert(listed =~= ns);
}

/// A store filled only by successful `add_node` calls is the store built
/// by adding its history cleanly: when a node with a new identifier is
/// added to the store built from `ns`, the result is the store built from
/// `ns` followed by that node, and that longer history still adds cleanly
/// (so `lemma_backup_restore` applies to it).
pub proof fn lemma_history_extends(ns: Seq<DAGNodeView>, n: DAGNodeView)
    requires
        adds_cleanly(empty_storage(), ns),
        !stored_after_adds(empty_storage(), ns).nodes.contains_key(n.id),
    ensures
        adds_cleanly(empty_storage(), ns.push(n)),
        stored_after_adds(empty_storage(), ns.push(n)) == stored_after_add(
            stored_after_adds(empty_storage(), ns),
            n,
        ),
{
    let ns2 = ns.push(n);
    assert(ns2.drop_last() =~= ns);
    lemma_adds_nodes(empty_storage(), ns, n.id);
    assert(node_ids(ns2) =~= node_ids(ns).push(n.id));
    assert(!node_ids(ns).contains(n.id));
    assert forall|i: int, j: int|
        0 <= i < node_ids(ns2).len() && 0 <= j < node_ids(ns2).len() && i != j implies node_ids(ns2)[i]
        != node_ids(ns2)[j] by {
        if i < ns.len() && j < ns.len() {
            assert(node_ids(ns2)[i] == node_ids(ns)[i] && node_ids(ns2)[j] == node_ids(ns)[j]);
        } else if i < ns.len() {
            assert(node_ids(ns2)[i] == node_ids(ns)[i]);
        } else if j < ns.len() {
            assert(node_ids(ns2)[j] == node_ids(ns)[j]);
        }
    }
    assert forall|i: int| 0 <= i < ns2.len() implies !empty_storage().nodes.contains_key(#[trigger] ns2[i].id) by {}
}

proof fn lemma_adds_nodes(v: StorageView, ns: Seq<DAGNodeView>, k: u128)
    ensures
        stored_after_adds(v, ns).nodes.contains_key(k) <==> (v.nodes.contains_key(k) || node_ids(ns).contains(
            k,
        )),
    decreases ns.len(),
{
    if ns.len() > 0 {
        lemma_adds_nodes(v, ns.drop_last(), k);
        assert(node_ids(ns) =~= node_ids(ns.drop_last()).push(ns.last().id));
        lemma_push_contains(node_ids(ns.drop_last()), ns.last().id, k);
    }
}

proof fn lemma_adds_cleanly_step(v: StorageView, ns: Seq<DAGNodeView>, n: DAGNodeView)
    requires
        adds_cleanly(v, ns),
    ensures
        adds_cleanly(v, ns.push(n)) <==> !stored_after_adds(v, ns).nodes.contains_key(n.id),
{
    lemma_adds_nodes(v, ns, n.id);
    let t = node_ids(ns);
    let u = node_ids(ns.push(n));
    assert(u =~= t.push(n.id));
    if !stored_after_adds(v, ns).nodes.contains_key(n.id) {
        assert forall|a: int, b: int| 0 <= a < b < u.len() implies u[a] != u[b] by {
            if b == t.len() {
                assert(t.contains(u[a]));
            } else {
                assert(u[a] == t[a] && u[b] == t[b]);
            }
        }
        assert forall|i: int| 0 <= i < ns.push(n).len() implies !v.nodes.contains_key(#[trigger] ns.push(n)[i].id) by {
            if i < ns.len() {
                assert(ns.push(n)[i] == ns[i]);
            }
        }
    } else {
        if v.nodes.contains_key(n.id) {
            assert(ns.push(n)[ns.len() as int] == n);
        } else {
            let j = choose|j: int| 0 <= j < t.len() && t[j] == n.id;
            assert(u[j] == u[t.len() as int]);
        }
    }
}

proof fn lemma_adds_cleanly_prefix(v: StorageView, ns: Seq<DAGNodeView>, j: int)
    requires
        0 <= j <= ns.len(),
        adds_cleanly(v, ns),
    ensures
        adds_cleanly(v, ns.take(j)),
{
    let t = node_ids(ns);
    let u = node_ids(ns.take(j));
    assert forall|a: int, b: int| 0 <= a < b < u.len() implies u[a] != u[b] by {
        assert(u[a] == t[a] && u[b] == t[b]);
    }
    assert forall|i: int| 0 <= i < ns.take(j).len() implies !v.nodes.contains_key(#[trigger] ns.take(j)[i].id) by {
        assert(ns.take(j)[i] == ns[i]);
    }
}

impl MemoryStorage {
    /// Node count, tip count, bytes held and the kind of store.
    pub fn get_stats(&self) -> (s: StorageStats)
        requires
            self.wf(),
            stored_bytes(self@.nodes, self@.ids) <= usize::MAX,
        ensures
            s.node_count == self@.nodes.len(),
            s.tip_count == self@.tips.len(),
            s.total_size_bytes == stored_bytes(self@.nodes, self@.ids),
            s.storage_type@ == "memory"@,
    {
        broadcast use vstd::std_specs::hash::group_hash_axioms;

        let record = std::mem::size_of::<DAGNode>();
        let mut total: usize = 0;
        let mut i: usize = 0;
        while i < self.order.len()
            invariant
                self.wf(),
                stored_bytes(self@.nodes, self@.ids) <= usize::MAX,
                record == vstd::layout::size_of::<DAGNode>(),
                i <= self@.ids.len(),
                total == stored_bytes(self@.nodes, self@.ids.subrange(0, i as int)),
            decreases self@.ids.len() - i,
        {
            let id = self.order[i];
            assert(self@.ids[i as int] == id);
            assert(self@.ids.contains(id));
            assert(self@.nodes.contains_key(id));
            proof {
                lemma_stored_bytes_prefix(self@.nodes, self@.ids, i as int);
                lemma_stored_bytes_monotone(self@.nodes, self@.ids, i + 1);
            }
            match self.nodes.get(&id) {
                Some(n) => {
                    total = total + n.data.len() + record;
                },
                None => {
                    assert(false);
                },
            }
            i = i + 1;
        }
        assert(self@.ids.subrange(0, self@.ids.len() as int) =~= self@.ids);
        proof {
            self.tips@.unique_seq_to_set();
            assert(node_map(self.nodes@).dom() =~= self.nodes@.dom());
        }
        StorageStats {
            node_count: self.nodes.len(),
            tip_count: self.tips.len(),
            total_size_bytes: total,
            storage_type: text("memory"),
        }
    }

    /// Nothing to compact in memory.
    pub fn compact(&mut self) -> (r: Result<(), QuDAGError>)
        ensures
            r is Ok,
            final(self)@ == old(self)@,
    {
        Ok(())
    }

    /// Empties the store.
    pub fn clear(&mut self)
        ensures
            final(self).wf(),
            final(self)@ == empty_storage(),
    {
        *self = MemoryStorage::new();
        assert(self@.ids =~= empty_storage().ids);
    }

    /// Adds the given nodes one by one, in order.  The first node whose
    /// identifier is already stored (or repeated in the list) stops the
    /// batch with an error; the nodes before it stay stored.
    pub fn add_nodes(&mut self, nodes: Vec<DAGNode>) -> (r: Result<(), QuDAGError>)
        requires
            old(self).wf(),
        ensures
            final(self).wf(),
            adds_cleanly(old(self)@, view_nodes(nodes@)) ==> (r is Ok && final(self)@ == stored_after_adds(
                old(self)@,
                view_nodes(nodes@),
            )),
            !adds_cleanly(old(self)@, view_nodes(nodes@)) ==> (r matches Err(e) && e is StorageError
                && exists|j: int|
                0 <= j < nodes@.len() && adds_cleanly(old(self)@, view_nodes(nodes@).take(j)) && !adds_cleanly(
                    old(self)@,
                    view_nodes(nodes@).take(j + 1),
                ) && final(self)@ == #[trigger] stored_after_adds(old(self)@, view_nodes(nodes@).take(j))),
    {
        let ghost v0 = self@;
        let ghost ns = view_nodes(nodes@);
        let ghost all = nodes@;
        let mut i: usize = 0;
        let n = nodes.len();
        proof {
            assert(ns.take(0) =~= Seq::<DAGNodeView>::empty());
            assert(node_ids(ns.take(0)) =~= Seq::<u128>::empty());
        }
        while i < n
            invariant
                n == all.len(),
                all == nodes@,
                ns == view_nodes(all),
                v0 == old(self)@,
                i <= n,
                self.wf(),
                self@ == stored_after_adds(v0, ns.take(i as int)),
                adds_cleanly(v0, ns.take(i as int)),
            decreases n - i,
        {
            let node = nodes[i].clone();
            proof {
                assert(node@ == all[i as int]@);
                assert(ns.take(i + 1).drop_last() =~= ns.take(i as int));
                assert(ns.take(i + 1).last() == node@);
                lemma_adds_nodes(v0, ns.take(i as int), node@.id);
                assert(node_ids(ns.take(i + 1)) =~= node_ids(ns.take(i as int)).push(node@.id));
                lemma_adds_cleanly_step(v0, ns.take(i as int), node@);
            }
            let ghost nv = node@;
            match self.add_node(node) {
                Ok(()) => {
                    proof {
                        assert(ns.take(i + 1) =~= ns.take(i as int).push(nv));
                    }
                },
                Err(e) => {
                    proof {
                        assert(ns.take(i + 1) =~= ns.take(i as int).push(nv));
                        assert(!adds_cleanly(v0, ns.take(i + 1)));
                        if adds_cleanly(v0, ns) {
                            lemma_adds_cleanly_prefix(v0, ns, i + 1);
                        }
                        assert(self@ == stored_after_adds(v0, ns.take(i as int)));
                    }
                    return Err(e);
                },
            }
            i = i + 1;
        }
        proof {
            assert(ns.take(n as int) =~= ns);
        }
        Ok(())
    }

    /// Replaces the contents by the given nodes, added one by one in order.
    pub fn restore_nodes(&mut self, nodes: Vec<DAGNode>) -> (r: Result<(), QuDAGError>)
        ensures
            final(self).wf(),
            adds_cleanly(empty_storage(), view_nodes(nodes@)) ==> (r is Ok && final(self)@
                == stored_after_adds(empty_storage(), view_nodes(nodes@))),
            !adds_cleanly(empty_storage(), view_nodes(nodes@)) ==> (r matches Err(e) && e is StorageError
                && exists|j: int|
                0 <= j < nodes@.len() && adds_cleanly(empty_storage(), view_nodes(nodes@).take(j))
                    && !adds_cleanly(empty_storage(), view_nodes(nodes@).take(j + 1)) && final(self)@
                    == #[trigger] stored_after_adds(empty_storage(), view_nodes(nodes@).take(j))),
    {
        self.clear();
        self.add_nodes(nodes)
    }
}

// ---------------------------------------------------------------------
// Buffered (persistent) storage
// ---------------------------------------------------------------------

/// Number of buffered writes that triggers a flush.
pub const DEFAULT_FLUSH_THRESHOLD: usize = 100;

/// Position of the node with identifier `id` in `b`, if any.
pub open spec fn buffered_at(b: Seq<DAGNodeView>, id: u128) -> int {
    choose|i: int| 0 <= i < b.len() && b[i].id == id
}

/// `b` holds a node with identifier `id`.
pub open spec fn buffered(b: Seq<DAGNodeView>, id: u128) -> bool {
    exists|i: int| 0 <= i < b.len() && b[i].id == id
}

/// The buffer after writing `n`: it replaces a buffered node with the same
/// identifier, or joins the end.
pub open spec fn buffer_put(b: Seq<DAGNodeView>, n: DAGNodeView) -> Seq<DAGNodeView> {
    if buffered(b, n.id) {
        b.update(buffered_at(b, n.id), n)
    } else {
        b.push(n)
    }
}

/// The buffer without the node with identifier `id`.
pub open spec fn buffer_drop(b: Seq<DAGNodeView>, id: u128) -> Seq<DAGNodeView>
    decreases b.len(),
{
    if b.len() == 0 {
        b
    } else {
        let r = buffer_drop(b.drop_last(), id);
        if b.last().id == id {
            r
        } else {
            r.push(b.last())
        }
    }
}

/// Bytes the buffered nodes take, counted as the store counts them.
pub open spec fn buffer_bytes(b: Seq<DAGNodeView>) -> nat
    decreases b.len(),
{
    if b.len() == 0 {
        0
    } else {
        buffer_bytes(b.drop_last()) + b.last().data.len() + vstd::layout::size_of::<DAGNode>()
    }
}

/// Storage that buffers writes and moves them into an in-memory cache in
/// batches; the caller persists the cache whenever a batch moves.
#[derive(Debug)]
pub struct PersistentStorage {
    memory_cache: MemoryStorage,
    write_buffer: Vec<DAGNode>,
    flush_threshold: usize,
}

impl PersistentStorage {
    /// The cache.
    pub closed spec fn spec_cache(&self) -> StorageView {
        self.memory_cache@
    }

    /// The buffered nodes, oldest first.
    pub closed spec fn spec_buffer(&self) -> Seq<DAGNodeView> {
        view_nodes(self.write_buffer@)
    }

    /// The buffer size that triggers a flush.
    pub closed spec fn spec_threshold(&self) -> usize {
        self.flush_threshold
    }

    /// The cache is well formed and each identifier is buffered once.
    pub closed spec fn wf(&self) -> bool {
        &&& self.memory_cache.wf()
        &&& node_ids(self.spec_buffer()).no_duplicates()
    }

    /// An empty store that flushes every hundred writes.
    pub fn new() -> (s: Self)
        ensures
            s.wf(),
            s.spec_cache() == empty_storage(),
            s.spec_buffer() == Seq::<DAGNodeView>::empty(),
            s.spec_threshold() == DEFAULT_FLUSH_THRESHOLD,
    {
        let mut cache = MemoryStorage::new();
        cache.clear();
        let s = PersistentStorage { memory_cache: cache, write_buffer: Vec::new(), flush_threshold: DEFAULT_FLUSH_THRESHOLD };
        assert(s.spec_buffer() =~= Seq::<DAGNodeView>::empty());
        assert(node_ids(s.spec_buffer()) =~= Seq::<u128>::empty());
        s
    }

    /// The in-memory cache.
    pub fn memory_cache(&self) -> (c: &MemoryStorage)
        ensures
            c@ == self.spec_cache(),
            self.wf() ==> c.wf(),
    {
        &self.memory_cache
    }

    fn find_buffered(&self, id: u128) -> (r: Option<usize>)
        requires
            self.wf(),
        ensures
            match r {
                Some(i) => i < self.spec_buffer().len() && self.spec_buffer()[i as int].id == id && buffered(
                    self.spec_buffer(),
                    id,
                ) && buffered_at(self.spec_buffer(), id) == i,
                None => !buffered(self.spec_buffer(), id),
            },
    {
        let mut i: usize = 0;
        while i < self.write_buffer.len()
            invariant
                self.wf(),
                i <= self.write_buffer@.len(),
                forall|j: int| 0 <= j < i ==> self.spec_buffer()[j].id != id,
            decreases self.write_buffer@.len() - i,
        {
            if self.write_buffer[i].id == id {
                proof {
                    let b = self.spec_buffer();
                    let c = buffered_at(b, id);
                    assert(b[i as int].id == id);
                    assert(node_ids(b)[c] == node_ids(b)[i as int]);
                }
                return Some(i);
            }
            i = i + 1;
        }
        None
    }

    /// Moves the buffered nodes into the cache, oldest first.  `Ok(true)`
    /// means the cache changed and should be persisted; `Ok(false)` that
    /// the buffer was empty.  The buffer is emptied either way.
    pub fn flush_buffer(&mut self) -> (r: Result<bool, QuDAGError>)
        requires
            old(self).wf(),
        ensures
            final(self).wf(),
            final(self).spec_buffer() == Seq::<DAGNodeView>::empty(),
            final(self).spec_threshold() == old(self).spec_threshold(),
            old(self).spec_buffer().len() == 0 ==> (r == Ok::<bool, QuDAGError>(false) && final(self).spec_cache()
                == old(self).spec_cache()),
            old(self).spec_buffer().len() > 0 && adds_cleanly(old(self).spec_cache(), old(self).spec_buffer())
                ==> (r == Ok::<bool, QuDAGError>(true) && final(self).spec_cache() == stored_after_adds(
                old(self).spec_cache(),
                old(self).spec_buffer(),
            )),
            old(self).spec_buffer().len() > 0 && !adds_cleanly(old(self).spec_cache(), old(self).spec_buffer())
                ==> (r matches Err(e) && e is StorageError && exists|j: int|
                0 <= j < old(self).spec_buffer().len() && adds_cleanly(
                    old(self).spec_cache(),
                    old(self).spec_buffer().take(j),
                ) && !adds_cleanly(old(self).spec_cache(), old(self).spec_buffer().take(j + 1))
                    && final(self).spec_cache() == #[trigger] stored_after_adds(
                    old(self).spec_cache(),
                    old(self).spec_buffer().take(j),
                )),
    {
        let mut buffer: Vec<DAGNode> = Vec::new();
        std::mem::swap(&mut buffer, &mut self.write_buffer);
        proof {
            assert(self.spec_buffer() =~= Seq::<DAGNodeView>::empty());
            assert(node_ids(self.spec_buffer()) =~= Seq::<u128>::empty());
        }
        if buffer.len() == 0 {
            return Ok(false);
        }
        match self.memory_cache.add_nodes(buffer) {
            Ok(()) => Ok(true),
            Err(e) => Err(e),
        }
    }

    /// Buffers a node (replacing a buffered node with the same identifier);
    /// when the buffer reaches the threshold it is flushed.  `Ok(true)`
    /// means a flush moved nodes into the cache.
    pub fn add_node(&mut self, node: DAGNode) -> (r: Result<bool, QuDAGError>)
        requires
            old(self).wf(),
        ensures
            final(self).wf(),
            final(self).spec_threshold() == old(self).spec_threshold(),
            ({
                let b = buffer_put(old(self).spec_buffer(), node@);
                &&& b.len() < old(self).spec_threshold() ==> (r == Ok::<bool, QuDAGError>(false)
                    && final(self).spec_buffer() == b && final(self).spec_cache() == old(self).spec_cache())
                &&& b.len() >= old(self).spec_threshold() ==> final(self).spec_buffer() == Seq::<
                    DAGNodeView,
                >::empty()
                &&& b.len() >= old(self).spec_threshold() && adds_cleanly(old(self).spec_cache(), b) ==> (r
                    == Ok::<bool, QuDAGError>(true) && final(self).spec_cache() == stored_after_adds(
                    old(self).spec_cache(),
                    b,
                ))
                &&& b.len() >= old(self).spec_threshold() && !adds_cleanly(old(self).spec_cache(), b) ==> (r
                    matches Err(e) && e is StorageError)
            }),
    {
        let ghost b0 = self.spec_buffer();
        let ghost nv = node@;
        match self.find_buffered(node.id) {
            Some(i) => {
                self.write_buffer.set(i, node);
                proof {
                    let b = self.spec_buffer();
                    assert(b =~= b0.update(i as int, nv));
                    assert(node_ids(b) =~= node_ids(b0));
                }
            },
            None => {
                self.write_buffer.push(node);
                proof {
                    let b = self.spec_buffer();
                    assert(b =~= b0.push(nv));
                    assert(node_ids(b) =~= node_ids(b0).push(nv.id));
                    assert forall|a: int, c: int| 0 <= a < c < node_ids(b).len() implies node_ids(b)[a]
                        != node_ids(b)[c] by {
                        if c == b0.len() {
                            assert(node_ids(b)[a] == b0[a].id);
                        }
                    }
                }
            },
        }
        if self.write_buffer.len() >= self.flush_threshold {
            self.flush_buffer()
        } else {
            Ok(false)
        }
    }

    /// The node with identifier `id`: a buffered one first, else the cached one.
    pub fn get_node(&self, id: u128) -> (r: Option<DAGNode>)
        requires
            self.wf(),
        ensures
            buffered(self.spec_buffer(), id) ==> (r matches Some(n) && n@ == self.spec_buffer()[buffered_at(
                self.spec_buffer(),
                id,
            )]),
            !buffered(self.spec_buffer(), id) ==> match r {
                Some(n) => self.spec_cache().nodes.contains_key(id) && n@ == self.spec_cache().nodes[id],
                None => !self.spec_cache().nodes.contains_key(id),
            },
    {
        match self.find_buffered(id) {
            Some(i) => Some(self.write_buffer[i].clone()),
            None => self.memory_cache.get_node(id),
        }
    }

    /// Whether a node with identifier `id` is buffered or cached.
    pub fn contains_node(&self, id: u128) -> (b: bool)
        requires
            self.wf(),
        ensures
            b == (buffered(self.spec_buffer(), id) || self.spec_cache().nodes.contains_key(id)),
    {
        match self.find_buffered(id) {
            Some(_) => true,
            None => self.memory_cache.contains_node(id),
        }
    }

    /// Drops a buffered node with identifier `id` and removes it from the
    /// cache; the result says whether the cache held it.
    pub fn remove_node(&mut self, id: u128) -> (r: bool)
        requires
            old(self).wf(),
        ensures
            final(self).wf(),
            final(self).spec_threshold() == old(self).spec_threshold(),
            final(self).spec_buffer() == buffer_drop(old(self).spec_buffer(), id),
            r == old(self).spec_cache().nodes.contains_key(id),
            r ==> final(self).spec_cache() == stored_after_remove(old(self).spec_cache(), id),
            !r ==> final(self).spec_cache() == old(self).spec_cache(),
    {
        let ghost b0 = self.spec_buffer();
        let mut kept: Vec<DAGNode> = Vec::new();
        let mut i: usize = 0;
        while i < self.write_buffer.len()
            invariant
                b0 == self.spec_buffer(),
                node_ids(b0).no_duplicates(),
                i <= b0.len(),
                view_nodes(kept@) == buffer_drop(b0.subrange(0, i as int), id),
                forall|k: int| 0 <= k < kept@.len() ==> node_ids(b0.subrange(0, i as int)).contains(#[trigger] kept@[k].id),
                node_ids(view_nodes(kept@)).no_duplicates(),
            decreases b0.len() - i,
        {
            let ghost pre = b0.subrange(0, i as int);
            assert(b0.subrange(0, i + 1).drop_last() =~= pre);
            if self.write_buffer[i].id != id {
                let c = self.write_buffer[i].clone();
                let ghost kv = view_nodes(kept@);
                kept.push(c);
                proof {
                    assert(view_nodes(kept@) =~= kv.push(b0[i as int]));
                    assert forall|k: int| 0 <= k < kept@.len() implies node_ids(b0.subrange(0, i + 1)).contains(
                        #[trigger] kept@[k].id,
                    ) by {
                        if k < kv.len() {
                            let w = choose|w: int| 0 <= w < node_ids(pre).len() && node_ids(pre)[w] == kept@[k].id;
                            assert(node_ids(b0.subrange(0, i + 1))[w] == kept@[k].id);
                        } else {
                            assert(node_ids(b0.subrange(0, i + 1))[i as int] == kept@[k].id);
                        }
                    }
                    let u = node_ids(view_nodes(kept@));
                    assert forall|a: int, c2: int| 0 <= a < c2 < u.len() implies u[a] != u[c2] by {
                        if c2 == kv.len() {
                            let w = choose|w: int| 0 <= w < node_ids(pre).len() && node_ids(pre)[w] == kept@[a].id;
                            assert(node_ids(pre)[w] == node_ids(b0)[w]);
                            if u[a] == u[c2] {
                                assert(node_ids(b0)[w] == node_ids(b0)[i as int]);
                            }
                        } else {
                            assert(u[a] == node_ids(kv)[a] && u[c2] == node_ids(kv)[c2]);
                        }
                    }
                }
            } else {
                proof {
                    assert forall|k: int| 0 <= k < kept@.len() implies node_ids(b0.subrange(0, i + 1)).contains(
                        #[trigger] kept@[k].id,
                    ) by {
                        let w = choose|w: int| 0 <= w < node_ids(pre).len() && node_ids(pre)[w] == kept@[k].id;
                        assert(node_ids(b0.subrange(0, i + 1))[w] == kept@[k].id);
                    }
                }
            }
            i = i + 1;
        }
        assert(b0.subrange(0, b0.len() as int) =~= b0);
        self.write_buffer = kept;
        self.memory_cache.remove_node(id)
    }

    /// All nodes: the cached ones, oldest first, then the buffered ones.
    pub fn get_all_nodes(&self) -> (r: Vec<DAGNode>)
        requires
            self.wf(),
        ensures
            r@.len() == self.spec_cache().ids.len() + self.spec_buffer().len(),
            forall|i: int|
                0 <= i < self.spec_cache().ids.len() ==> (#[trigger] r@[i])@ == self.spec_cache().nodes[self.spec_cache().ids[i]],
            forall|i: int|
                self.spec_cache().ids.len() <= i < r@.len() ==> (#[trigger] r@[i])@ == self.spec_buffer()[i
                    - self.spec_cache().ids.len()],
    {
        let mut out = self.memory_cache.get_all_nodes();
        let ghost n0 = out@.len();
        let mut i: usize = 0;
        while i < self.write_buffer.len()
            invariant
                self.wf(),
                n0 == self.spec_cache().ids.len(),
                i <= self.write_buffer@.len(),
                out@.len() == n0 + i,
                forall|k: int| 0 <= k < n0 ==> (#[trigger] out@[k])@ == self.spec_cache().nodes[self.spec_cache().ids[k]],
                forall|k: int| n0 <= k < n0 + i ==> (#[trigger] out@[k])@ == self.spec_buffer()[k - n0],
            decreases self.write_buffer@.len() - i,
        {
            out.push(self.write_buffer[i].clone());
            i = i + 1;
        }
        out
    }

    /// The cache's tips.
    pub fn get_tips(&self) -> (r: Vec<u128>)
        requires
            self.wf(),
        ensures
            r@.no_duplicates(),
            r@.to_set() == self.spec_cache().tips,
    {
        self.memory_cache.get_tips()
    }

    /// The cache's children of `id`.
    pub fn get_children(&self, id: u128) -> (r: Vec<u128>)
        ensures
            r@ == if self.spec_cache().edges.contains_key(id) {
                self.spec_cache().edges[id]
            } else {
                Seq::empty()
            },
    {
        self.memory_cache.get_children(id)
    }

    /// The cache's parents of `id`.
    pub fn get_parents(&self, id: u128) -> (r: Vec<u128>)
        ensures
            r@ == recorded_parents(self.spec_cache(), id),
    {
        self.memory_cache.get_parents(id)
    }

    /// Cache statistics with the buffered nodes added in.
    pub fn get_stats(&self) -> (s: StorageStats)
        requires
            self.wf(),
            stored_bytes(self.spec_cache().nodes, self.spec_cache().ids) + buffer_bytes(self.spec_buffer())
                <= usize::MAX,
            self.spec_cache().nodes.len() + self.spec_buffer().len() <= usize::MAX,
        ensures
            s.node_count == self.spec_cache().nodes.len() + self.spec_buffer().len(),
            s.tip_count == self.spec_cache().tips.len(),
            s.total_size_bytes == stored_bytes(self.spec_cache().nodes, self.spec_cache().ids) + buffer_bytes(
                self.spec_buffer(),
            ),
            s.storage_type@ == "persistent"@,
    {
        let stats = self.memory_cache.get_stats();
        let record = std::mem::size_of::<DAGNode>();
        let mut extra: usize = 0;
        let mut i: usize = 0;
        let ghost b = self.spec_buffer();
        let ghost base = stats.total_size_bytes as int;
        while i < self.write_buffer.len()
            invariant
                b == self.spec_buffer(),
                record == vstd::layout::size_of::<DAGNode>(),
                i <= b.len(),
                0 <= base,
                base + buffer_bytes(b) <= usize::MAX,
                extra == buffer_bytes(b.subrange(0, i as int)),
            decreases b.len() - i,
        {
            proof {
                assert(b.subrange(0, i + 1).drop_last() =~= b.subrange(0, i as int));
                lemma_buffer_bytes_monotone(b, i + 1);
                assert(self.write_buffer@[i as int].data@.len() == b[i as int].data.len());
                assert(buffer_bytes(b.subrange(0, i + 1)) == extra + b[i as int].data.len() + record);
            }
            extra = extra + self.write_buffer[i].data.len() + record;
            i = i + 1;
        }
        assert(b.subrange(0, b.len() as int) =~= b);
        StorageStats {
            node_count: stats.node_count + self.write_buffer.len(),
            tip_count: stats.tip_count,
            total_size_bytes: stats.total_size_bytes + extra,
            storage_type: text("persistent"),
        }
    }

    /// Flushes the buffer into the cache.
    pub fn compact(&mut self) -> (r: Result<(), QuDAGError>)
        requires
            old(self).wf(),
        ensures
            final(self).wf(),
            final(self).spec_buffer() == Seq::<DAGNodeView>::empty(),
            adds_cleanly(old(self).spec_cache(), old(self).spec_buffer()) ==> (r is Ok && final(self).spec_cache()
                == stored_after_adds(old(self).spec_cache(), old(self).spec_buffer())),
            !adds_cleanly(old(self).spec_cache(), old(self).spec_buffer()) ==> (r matches Err(e) && e is StorageError),
    {
        let ghost b = self.spec_buffer();
        proof {
            if b.len() == 0 {
                assert(b.take(0) =~= b);
                assert(node_ids(b) =~= Seq::<u128>::empty());
            }
        }
        match self.flush_buffer() {
            Ok(_) => Ok(()),
            Err(e) => Err(e),
        }
    }

    /// Empties the buffer and replaces the cache by the given nodes.
    pub fn restore_nodes(&mut self, nodes: Vec<DAGNode>) -> (r: Result<(), QuDAGError>)
        requires
            old(self).wf(),
        ensures
            final(self).wf(),
            final(self).spec_buffer() == Seq::<DAGNodeView>::empty(),
            adds_cleanly(empty_storage(), view_nodes(nodes@)) ==> (r is Ok && final(self).spec_cache()
                == stored_after_adds(empty_storage(), view_nodes(nodes@))),
            !adds_cleanly(empty_storage(), view_nodes(nodes@)) ==> (r matches Err(e) && e is StorageError),
    {
        self.write_buffer = Vec::new();
        proof {
            assert(self.spec_buffer() =~= Seq::<DAGNodeView>::empty());
            assert(node_ids(self.spec_buffer()) =~= Seq::<u128>::empty());
        }
        self.memory_cache.restore_nodes(nodes)
    }
}

proof fn lemma_buffer_bytes_monotone(b: Seq<DAGNodeView>, i: int)
    requires
        0 <= i <= b.len(),
    ensures
        buffer_bytes(b.subrange(0, i)) <= buffer_bytes(b),
    decreases b.len() - i,
{
    if i < b.len() {
        assert(b.subrange(0, i + 1).drop_last() =~= b.subrange(0, i));
        lemma_buffer_bytes_monotone(b, i + 1);
    } else {
        assert(b.subrange(0, i) =~= b);
    }
}


impl Default for MemoryStorage {
    fn default() -> (s: Self)
        ensures
            s.wf(),
            s@ == empty_storage(),
    {
        let s = MemoryStorage::new();
        assert(s@ == empty_storage());
        s
    }
}

} // verus!
