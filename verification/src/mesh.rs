//! Neural mesh connectivity: kinds of connections and the rules that pick
//! the nodes a new agent connects to.  Candidate nodes are numbered in the
//! order the mesh lists them.

use vstd::prelude::*;

verus! {

/// Types of connections.
#[derive(Debug, Clone, Copy, PartialEq, Eq, Structural)]
pub enum ConnectionType {
    Direct,
    Rewired,
    Preferential,
    Hierarchical,
}

/// Connection strength utilities (strengths themselves are real numbers
/// handled by the caller).
#[derive(Debug, Clone, Copy)]
pub struct ConnectionStrength;

/// The ring-lattice neighbours at distances `1..=m`, in order: for each
/// distance the one ahead, then the one behind when it differs.
pub open spec fn lattice_upto(n: nat, m: nat) -> Seq<nat>
    decreases m,
{
    if m == 0 {
        Seq::empty()
    } else {
        let r = lattice_upto(n, (m - 1) as nat);
        let ahead = m % n;
        let behind = ((n - m) as nat) % n;
        if ahead != behind {
            r + seq![ahead, behind]
        } else {
            r.push(ahead)
        }
    }
}

/// Small-world lattice: among `n` candidates, the neighbours within
/// `min(k, n) / 2` steps around the ring.
pub open spec fn lattice_targets(n: nat, k: nat) -> Seq<nat> {
    lattice_upto(n, (if k < n { k } else { n }) / 2)
}

/// The ring-lattice neighbours a new node takes among `n` other nodes
/// when each node should have about `k` neighbours.
pub fn ring_lattice_targets(n: usize, k: usize) -> (r: Vec<usize>)
    requires
        n > 0,
    ensures
        r@.map_values(|x: usize| x as nat) == lattice_targets(n as nat, k as nat),
{
    let k_actual = if k < n {
        k
    } else {
        n
    };
    let half = k_actual / 2;
    let mut r: Vec<usize> = Vec::new();
    let mut i: usize = 1;
    while i <= half
        invariant
            n > 0,
            half <= n / 2,
            1 <= i <= half + 1,
            r@.map_values(|x: usize| x as nat) == lattice_upto(n as nat, (i - 1) as nat),
        decreases half + 1 - i,
    {
        let ahead = i % n;
        let behind = (n - i) % n;
        let ghost before = r@.map_values(|x: usize| x as nat);
        r.push(ahead);
        if ahead != behind {
            r.push(behind);
            assert(r@.map_values(|x: usize| x as nat) =~= before + seq![ahead as nat, behind as nat]);
        } else {
            assert(r@.map_values(|x: usize| x as nat) =~= before.push(ahead as nat));
        }
        i = i + 1;
    }
    r
}

/// Positions of the nodes at hierarchy level `lv`, in order.
pub open spec fn indices_at_level(levels: Seq<Option<usize>>, lv: int) -> Seq<nat>
    decreases levels.len(),
{
    if levels.len() == 0 {
        Seq::empty()
    } else {
        let r = indices_at_level(levels.drop_last(), lv);
        if levels.last() == Some(lv as usize) && 0 <= lv <= usize::MAX {
            r.push((levels.len() - 1) as nat)
        } else {
            r
        }
    }
}

/// Hierarchical connections of a node at level `level` in a hierarchy of
/// `levels` levels: the first node one level up (when not at the top),
/// then up to `branching` nodes one level down (when not at the bottom).
pub open spec fn hierarchy_targets_spec(
    level: nat,
    levels: nat,
    branching: nat,
    node_levels: Seq<Option<usize>>,
) -> Seq<nat> {
    let ups = indices_at_level(node_levels, level - 1);
    let downs = indices_at_level(node_levels, (level + 1) as int);
    let parent: Seq<nat> = if level > 0 && ups.len() > 0 {
        seq![ups[0]]
    } else {
        Seq::empty()
    };
    let children: Seq<nat> = if level + 1 < levels {
        downs.take(if branching < downs.len() { branching as int } else { downs.len() as int })
    } else {
        Seq::empty()
    };
    parent + children
}

/// The nodes a node at `level` connects to in a hierarchy.
pub fn hierarchy_targets(level: usize, levels: usize, branching: usize, node_levels: &Vec<Option<usize>>) -> (r:
    Vec<usize>)
    requires
        levels > 0,
    ensures
        r@.map_values(|x: usize| x as nat) == hierarchy_targets_spec(
            level as nat,
            levels as nat,
            branching as nat,
            node_levels@,
        ),
{
    let ghost ls = node_levels@;
    let mut r: Vec<usize> = Vec::new();
    let ghost ups = indices_at_level(ls, level - 1);
    let ghost downs = indices_at_level(ls, level + 1);
    if level > 0 {
        match first_at_level(node_levels, level - 1) {
            Some(p) => {
                r.push(p);
            },
            None => {},
        }
    }
    let ghost parent_part = r@.map_values(|x: usize| x as nat);
    proof {
        assert(parent_part =~= (if level > 0 && ups.len() > 0 {
            seq![ups[0]]
        } else {
            Seq::<nat>::empty()
        }));
    }
    if level < levels - 1 {
        let down = level + 1;
        let mut count: usize = 0;
        let mut i: usize = 0;
        while i < node_levels.len() && count < branching
            invariant
                ls == node_levels@,
                down == level + 1,
                i <= ls.len(),
                count <= branching,
                count == indices_at_level(ls.subrange(0, i as int), down as int).len(),
                r@.map_values(|x: usize| x as nat) == parent_part + indices_at_level(
                    ls.subrange(0, i as int),
                    down as int,
                ),
            decreases ls.len() - i,
        {
            assert(ls.subrange(0, i + 1).drop_last() =~= ls.subrange(0, i as int));
            if node_levels[i] == Some(down) {
                let ghost before = r@.map_values(|x: usize| x as nat);
                r.push(i);
                count = count + 1;
                assert(r@.map_values(|x: usize| x as nat) =~= before.push(i as nat));
            }
            i = i + 1;
        }
        proof {
            let got = indices_at_level(ls.subrange(0, i as int), down as int);
            lemma_indices_prefix(ls, down as int, i as int);
            if count < branching {
                assert(ls.subrange(0, ls.len() as int) =~= ls);
                assert(got =~= downs);
            } else {
                assert(got =~= downs.take(branching as int));
            }
        }
    }
    r
}

/// Position of the first node at level `lv`.
fn first_at_level(node_levels: &Vec<Option<usize>>, lv: usize) -> (r: Option<usize>)
    ensures
        match r {
            Some(i) => indices_at_level(node_levels@, lv as int).len() > 0 && indices_at_level(
                node_levels@,
                lv as int,
            )[0] == i,
            None => indices_at_level(node_levels@, lv as int).len() == 0,
        },
{
    let ghost ls = node_levels@;
    let mut i: usize = 0;
    while i < node_levels.len()
        invariant
            ls == node_levels@,
            i <= ls.len(),
            indices_at_level(ls.subrange(0, i as int), lv as int).len() == 0,
        decreases ls.len() - i,
    {
        assert(ls.subrange(0, i + 1).drop_last() =~= ls.subrange(0, i as int));
        if node_levels[i] == Some(lv) {
            proof {
                lemma_indices_prefix(ls, lv as int, i + 1);
                let sub = indices_at_level(ls.subrange(0, i + 1), lv as int);
                let full = indices_at_level(ls, lv as int);
                assert(sub =~= seq![i as nat]);
                assert(full.take(1) == sub);
                assert(full[0] == full.take(1)[0]);
            }
            return Some(i);
        }
        i = i + 1;
    }
    proof {
        assert(ls.subrange(0, ls.len() as int) =~= ls);
    }
    None
}

/// The positions found in a prefix are a prefix of the positions.
proof fn lemma_indices_prefix(ls: Seq<Option<usize>>, lv: int, j: int)
    requires
        0 <= j <= ls.len(),
    ensures
        indices_at_level(ls.subrange(0, j), lv) == indices_at_level(ls, lv).take(
            indices_at_level(ls.subrange(0, j), lv).len() as int,
        ),
        indices_at_level(ls.subrange(0, j), lv).len() <= indices_at_level(ls, lv).len(),
        forall|k: int|
            indices_at_level(ls.subrange(0, j), lv).len() <= k < indices_at_level(ls, lv).len() ==> #[trigger] indices_at_level(ls, lv)[k] >= j,
    decreases ls.len() - j,
{
    if j == ls.len() {
        assert(ls.subrange(0, j) =~= ls);
        assert(indices_at_level(ls, lv).take(indices_at_level(ls, lv).len() as int) =~= indices_at_level(ls, lv));
    } else {
        lemma_indices_prefix(ls.drop_last(), lv, j);
        assert(ls.drop_last().subrange(0, j) =~= ls.subrange(0, j));
        lemma_indices_bound(ls.drop_last(), lv);
        let a = indices_at_level(ls.subrange(0, j), lv);
        let d = indices_at_level(ls.drop_last(), lv);
        let f = indices_at_level(ls, lv);
        assert(f.take(a.len() as int) =~= d.take(a.len() as int));
    }
}

proof fn lemma_indices_bound(ls: Seq<Option<usize>>, lv: int)
    ensures
        forall|k: int| 0 <= k < indices_at_level(ls, lv).len() ==> #[trigger] indices_at_level(ls, lv)[k] < ls.len(),
    decreases ls.len(),
{
    if ls.len() > 0 {
        lemma_indices_bound(ls.drop_last(), lv);
        let d = indices_at_level(ls.drop_last(), lv);
        let f = indices_at_level(ls, lv);
        assert forall|k: int| 0 <= k < f.len() implies #[trigger] f[k] < ls.len() by {
            if k < d.len() {
                assert(f[k] == d[k]);
            }
        }
    }
}

/// Running sum of the first `j` degrees.
pub open spec fn degree_prefix(ds: Seq<usize>, j: int) -> nat
    decreases j,
{
    if j <= 0 {
        0
    } else {
        degree_prefix(ds, j - 1) + ds[j - 1] as nat
    }
}

/// One draw of preferential attachment: with `r` drawn below the total
/// degree, the first candidate whose running degree sum exceeds `r` and
/// that is not yet connected.
pub fn preferential_pick(degrees: &Vec<usize>, connected: &Vec<bool>, r: usize) -> (pick: Option<usize>)
    requires
        connected@.len() == degrees@.len(),
        degree_prefix(degrees@, degrees@.len() as int) <= usize::MAX,
    ensures
        match pick {
            Some(i) => i < degrees@.len() && degree_prefix(degrees@, i + 1) > r && !connected@[i as int]
                && forall|j: int| 0 <= j < i ==> !(degree_prefix(degrees@, j + 1) > r && !connected@[j]),
            None => forall|j: int|
                0 <= j < degrees@.len() ==> !(degree_prefix(degrees@, j + 1) > r && !connected@[j]),
        },
{
    let mut cumulative: usize = 0;
    let mut i: usize = 0;
    while i < degrees.len()
        invariant
            connected@.len() == degrees@.len(),
            degree_prefix(degrees@, degrees@.len() as int) <= usize::MAX,
            i <= degrees@.len(),
            cumulative == degree_prefix(degrees@, i as int),
            forall|j: int| 0 <= j < i ==> !(degree_prefix(degrees@, j + 1) > r && !connected@[j]),
        decreases degrees@.len() - i,
    {
        proof {
            lemma_degree_prefix_monotone(degrees@, i + 1, degrees@.len() as int);
        }
        cumulative = cumulative + degrees[i];
        if cumulative > r && !connected[i] {
            return Some(i);
        }
        i = i + 1;
    }
    None
}

proof fn lemma_degree_prefix_monotone(ds: Seq<usize>, a: int, b: int)
    requires
        0 <= a <= b,
    ensures
        degree_prefix(ds, a) <= degree_prefix(ds, b),
    decreases b - a,
{
    if a < b {
        lemma_degree_prefix_monotone(ds, a, b - 1);
    }
}


/// The recorded predecessor of node `x` on the best route found so far;
/// nodes outside the table have none.
pub open spec fn prev_of(prev: Seq<Option<usize>>, x: usize) -> Option<usize> {
    if x < prev.len() {
        prev[x as int]
    } else {
        None
    }
}

/// Where `k` predecessor steps back from `to` lead.
pub open spec fn walk_back(prev: Seq<Option<usize>>, to: usize, k: nat) -> Option<usize>
    decreases k,
{
    if k == 0 {
        Some(to)
    } else {
        match walk_back(prev, to, (k - 1) as nat) {
            Some(x) => prev_of(prev, x),
            None => None,
        }
    }
}

/// After `m >= 1` steps back from `to` the walk has run out of
/// predecessors or reached `from`.
pub open spec fn walk_ends(prev: Seq<Option<usize>>, from: usize, to: usize, m: nat) -> bool {
    m >= 1 && (walk_back(prev, to, m) is None || walk_back(prev, to, m) == Some(from))
}

/// `m` is the first step at which the walk back ends.
pub open spec fn walk_ends_first(prev: Seq<Option<usize>>, from: usize, to: usize, m: nat) -> bool {
    walk_ends(prev, from, to, m) && forall|j: nat| 1 <= j < m ==> !#[trigger] walk_ends(prev, from, to, j)
}

/// The nodes visited walking back from `to` for `m` steps, with `from`
/// added when the walk reached it.
pub open spec fn walked_nodes(prev: Seq<Option<usize>>, from: usize, to: usize, m: nat) -> Seq<usize> {
    let steps = Seq::new(m, |i: int| walk_back(prev, to, i as nat)->0);
    if walk_back(prev, to, m) == Some(from) {
        steps.push(from)
    } else {
        steps
    }
}

/// The route `from .. to` read off the predecessor table when the walk back
/// that ends at step `m` finishes at `from`; none otherwise.
pub open spec fn route_of(prev: Seq<Option<usize>>, from: usize, to: usize, m: nat) -> Option<Seq<usize>> {
    let w = walked_nodes(prev, from, to, m);
    if w.last() == from {
        Some(w.reverse())
    } else {
        None
    }
}

/// A route read off a predecessor table starts at `from`, ends at `to`,
/// and each of its nodes after the first has the node before it as its
/// recorded predecessor.
pub proof fn lemma_route_links(prev: Seq<Option<usize>>, from: usize, to: usize, m: nat, p: Seq<usize>)
    requires
        walk_ends_first(prev, from, to, m),
        route_of(prev, from, to, m) == Some(p),
    ensures
        p.len() >= 1,
        p[0] == from,
        p.last() == to,
        forall|i: int| 0 <= i < p.len() - 1 ==> prev_of(prev, #[trigger] p[i + 1]) == Some(p[i]),
{
    let w = walked_nodes(prev, from, to, m);
    assert(p == w.reverse());
    assert forall|j: nat| j < m implies (#[trigger] walk_back(prev, to, j)) is Some by {
        lemma_walk_some_before_end(prev, from, to, m, j);
    }
    assert(w[0] == to);
    assert forall|i: int| 0 <= i < p.len() - 1 implies prev_of(prev, #[trigger] p[i + 1]) == Some(p[i]) by {
        let j = w.len() - 2 - i;
        assert(p[i + 1] == w[j] && p[i] == w[j + 1]);
        assert(walk_back(prev, to, j as nat) is Some);
        assert(walk_back(prev, to, (j + 1) as nat) == match walk_back(prev, to, j as nat) {
            Some(x) => prev_of(prev, x),
            None => None,
        });
        if j + 1 < m {
            assert(walk_back(prev, to, (j + 1) as nat) is Some);
        }
    }
}

/// Before the first step at which the walk back ends, it is still on a node.
proof fn lemma_walk_some_before_end(prev: Seq<Option<usize>>, from: usize, to: usize, m: nat, j: nat)
    requires
        walk_ends_first(prev, from, to, m),
        j < m,
    ensures
        walk_back(prev, to, j) is Some,
    decreases j,
{
    if j > 0 {
        lemma_walk_some_before_end(prev, from, to, m, (j - 1) as nat);
        assert(!walk_ends(prev, from, to, j));
    }
}

/// Reads the route from `from` to `to` off a predecessor table (as left by
/// a shortest-path search): walk back from `to` until the predecessor is
/// `from` or there is none, then reverse.  `None` when the walk does not
/// finish at `from`.
pub fn reconstruct_path(previous: &Vec<Option<usize>>, from: usize, to: usize) -> (r: Option<Vec<usize>>)
    requires
        exists|m: nat| walk_ends(previous@, from, to, m),
    ensures
        exists|m: nat|
            walk_ends_first(previous@, from, to, m) && match r {
                Some(p) => route_of(previous@, from, to, m) == Some(p@),
                None => route_of(previous@, from, to, m) is None,
            },
{
    let ghost bound = choose|m: nat| walk_ends(previous@, from, to, m);
    let mut path: Vec<usize> = Vec::new();
    let mut node: usize = to;
    let ghost mut k: nat = 0;
    loop
        invariant_except_break
            walk_back(previous@, to, k) == Some(node),
            path@ == Seq::new(k, |i: int| walk_back(previous@, to, i as nat)->0),
            forall|j: nat| 1 <= j <= k ==> !#[trigger] walk_ends(previous@, from, to, j),
            walk_ends(previous@, from, to, bound),
            k < bound,
        ensures
            k >= 1,
            walk_ends_first(previous@, from, to, k),
            path@ == walked_nodes(previous@, from, to, k),
        decreases bound - k,
    {
        path.push(node);
        let next: Option<usize> = if node < previous.len() {
            previous[node]
        } else {
            None
        };
        let ghost before = path@;
        proof {
            k = k + 1;
            assert(before =~= Seq::new(k, |i: int| walk_back(previous@, to, i as nat)->0));
        }
        match next {
            None => {
                break;
            },
            Some(p) => {
                if p == from {
                    path.push(from);
                    break;
                }
                node = p;
            },
        }
    }
    let last = path[path.len() - 1];
    if last == from {
        let mut out: Vec<usize> = Vec::new();
        let mut i: usize = path.len();
        while i > 0
            invariant
                i <= path@.len(),
                out@ == path@.subrange(i as int, path@.len() as int).reverse(),
            decreases i,
        {
            i = i - 1;
            out.push(path[i]);
            assert(out@ =~= path@.subrange(i as int, path@.len() as int).reverse());
        }
        assert(path@.subrange(0, path@.len() as int) =~= path@);
        Some(out)
    } else {
        None
    }
}

/// Whether walking back from `to` along the predecessor table stops (runs
/// out of predecessors or reaches `from`) within one step more than the
/// table has entries; a longer walk has entered a cycle.
pub fn walk_back_ends(previous: &Vec<Option<usize>>, from: usize, to: usize) -> (b: bool)
    ensures
        b == exists|m: nat| m <= previous@.len() + 1 && #[trigger] walk_ends(previous@, from, to, m),
{
    let n = previous.len();
    let mut node: usize = to;
    let mut k: u128 = 0;
    while k <= n as u128
        invariant
            n == previous@.len(),
            k <= n + 1,
            walk_back(previous@, to, k as nat) == Some(node),
            forall|j: nat| j <= k ==> !#[trigger] walk_ends(previous@, from, to, j),
        decreases n + 1 - k,
    {
        let next: Option<usize> = if node < n {
            previous[node]
        } else {
            None
        };
        assert(walk_back(previous@, to, (k + 1) as nat) == next);
        match next {
            None => {
                assert(walk_ends(previous@, from, to, (k + 1) as nat));
                return true;
            },
            Some(p) => {
                if p == from {
                    assert(walk_ends(previous@, from, to, (k + 1) as nat));
                    return true;
                }
                node = p;
            },
        }
        k = k + 1;
    }
    false
}

/// The route from `from` to `to` read off a predecessor table, when the
/// walk back from `to` stops within one step more than the table has
/// entries (see `reconstruct_path`); `None` when it does not, or when it
/// stops without reaching `from`.
pub fn route_from_table(previous: &Vec<Option<usize>>, from: usize, to: usize) -> (r: Option<Vec<usize>>)
    ensures
        (exists|m: nat| m <= previous@.len() + 1 && #[trigger] walk_ends(previous@, from, to, m)) ==> exists|m: nat|
            walk_ends_first(previous@, from, to, m) && match r {
                Some(p) => route_of(previous@, from, to, m) == Some(p@),
                None => route_of(previous@, from, to, m) is None,
            },
        !(exists|m: nat| m <= previous@.len() + 1 && #[trigger] walk_ends(previous@, from, to, m)) ==> r is None,
{
    if walk_back_ends(previous, from, to) {
        reconstruct_path(previous, from, to)
    } else {
        None
    }
}

/// Whether a link to `to` of kind `kind` is already among `links` (target
/// and kind of each link of equal strength); a mesh node keeps one link per
/// target, kind and strength, so a rewired link may stand beside a direct
/// one to the same target.
pub fn link_present(links: &Vec<(u128, ConnectionType)>, to: u128, kind: ConnectionType) -> (b: bool)
    ensures
        b == links@.contains((to, kind)),
{
    let mut i: usize = 0;
    while i < links.len()
        invariant
            i <= links@.len(),
            forall|j: int| 0 <= j < i ==> links@[j] != (to, kind),
        decreases links@.len() - i,
    {
        let (t, k) = links[i];
        if t == to && k == kind {
            assert(links@[i as int] == (to, kind));
            return true;
        }
        i = i + 1;
    }
    false
}

} // verus!
