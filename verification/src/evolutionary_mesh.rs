//! Evolutionary mesh: the topologies the swarm mesh is wired in and who
//! connects to whom in each.  Nodes are numbered `0..n` in the order the
//! mesh lists them; the random source of the mesh yields the
//! default value, so every topology is deterministic.

use vstd::prelude::*;

verus! {

/// Mesh topology for evolutionary optimization.
#[derive(Debug, Clone, Copy, PartialEq, Eq, Structural)]
pub enum MeshTopology {
    FullyConnected,
    Ring,
    Star,
    Grid,
    SmallWorld,
    ScaleFree,
    Adaptive,
}

/// Kinds of learning events.
#[derive(Debug, Clone, Copy, PartialEq, Eq, Structural)]
pub enum LearningEventType {
    Discovery,
    Optimization,
    Cooperation,
    Specialization,
    Failure,
    Recovery,
}

/// The mesh's source of random values, which yields `T::default()`.
pub fn random<T: Default>() -> (r: T)
    ensures
        call_ensures(T::default, (), r),
{
    T::default()
}

/// `s` is the integer square root of `n`.
pub open spec fn is_isqrt(n: nat, s: nat) -> bool {
    s * s <= n && n < (s + 1) * (s + 1)
}

proof fn lemma_square_le(x: int, n: int)
    requires
        x > 0,
        n >= 0,
        x <= n / x,
    ensures
        x * x <= n,
{
    vstd::arithmetic::div_mod::lemma_fundamental_div_mod(n, x);
    vstd::arithmetic::mul::lemma_mul_inequality(x, n / x, x);
    assert(x * (n / x) == (n / x) * x) by (nonlinear_arith);
    assert(n % x >= 0) by (nonlinear_arith)
        requires
            x > 0,
    ;
}

proof fn lemma_square_gt(x: int, n: int)
    requires
        x > 0,
        n >= 0,
        x > n / x,
    ensures
        n < x * x,
{
    vstd::arithmetic::div_mod::lemma_fundamental_div_mod(n, x);
    vstd::arithmetic::mul::lemma_mul_inequality(n / x + 1, x, x);
    assert((n / x + 1) * x == x * (n / x) + x) by (nonlinear_arith);
    assert(n % x < x) by (nonlinear_arith)
        requires
            x > 0,
    ;
}

/// Integer square root (the side of the grid).
pub fn isqrt(n: usize) -> (s: usize)
    ensures
        is_isqrt(n as nat, s as nat),
{
    let mut s: usize = 0;
    while s < n && (s + 1) <= n / (s + 1)
        invariant
            s <= n,
            s * s <= n,
        decreases n - s,
    {
        proof {
            lemma_square_le((s + 1) as int, n as int);
        }
        s = s + 1;
    }
    proof {
        if s < n {
            lemma_square_gt((s + 1) as int, n as int);
        } else {
            assert(n < (s + 1) * (s + 1)) by (nonlinear_arith)
                requires
                    s >= n,
                    s * s <= n,
            ;
        }
    }
    s
}

/// The grid neighbours of node `i` in a grid of side `s`: the right
/// neighbour within the row, then the one below when it exists.
pub open spec fn grid_targets(n: nat, s: nat, i: nat) -> Seq<nat> {
    let right: Seq<nat> = if i % s < s - 1 {
        seq![i + 1]
    } else {
        Seq::empty()
    };
    let below: Seq<nat> = if i / s < s - 1 && i + s < n {
        seq![i + s]
    } else {
        Seq::empty()
    };
    right + below
}

/// The nodes that node `i` connects to, in order, when `n` nodes are wired
/// in topology `t`.
pub open spec fn topology_targets(t: MeshTopology, n: nat, i: nat) -> Seq<nat> {
    match t {
        MeshTopology::FullyConnected => Seq::new(
            (n - 1) as nat,
            |j: int|
                if j < i {
                    j as nat
                } else {
                    (j + 1) as nat
                },
        ),
        MeshTopology::Ring => if i == 0 {
            seq![1nat % n, (n - 1) as nat]
        } else {
            seq![(i - 1) as nat, (i + 1) % n]
        },
        MeshTopology::Star => if i == 0 {
            Seq::new((n - 1) as nat, |j: int| (j + 1) as nat)
        } else {
            seq![0nat]
        },
        MeshTopology::Grid => {
            let s = choose|s: nat| is_isqrt(n, s);
            grid_targets(n, s, i)
        },
        MeshTopology::SmallWorld => seq![(i + 1) % n],
        MeshTopology::ScaleFree => if n <= 2 {
            Seq::empty()
        } else if i == 0 {
            seq![1nat, 2nat]
        } else if i == 1 {
            seq![0nat, 2nat]
        } else if i == 2 {
            seq![0nat, 1nat]
        } else {
            seq![0nat, 0nat]
        },
        MeshTopology::Adaptive => if i == 0 {
            Seq::empty()
        } else {
            Seq::new(if n - 1 < 3 { (n - 1) as nat } else { 3nat }, |j: int| 0nat)
        },
    }
}

/// A grid of `n` nodes is wired only when its last row ends at the right
/// edge (otherwise the last node's right neighbour would not exist).
pub open spec fn grid_fits(n: nat) -> bool {
    n == 0 || n % (choose|s: nat| is_isqrt(n, s)) == 0
}

/// The integer square root is unique.
pub proof fn lemma_isqrt_unique(n: nat, s: nat, t: nat)
    requires
        is_isqrt(n, s),
        is_isqrt(n, t),
    ensures
        s == t,
{
    if s < t {
        assert((s + 1) * (s + 1) <= t * t) by (nonlinear_arith)
            requires
                s + 1 <= t,
        ;
    } else if t < s {
        assert((t + 1) * (t + 1) <= s * s) by (nonlinear_arith)
            requires
                t + 1 <= s,
        ;
    }
}

/// The targets of every node: entry `i` lists, in order, the nodes that
/// node `i` connects to.
pub fn topology_links(t: MeshTopology, n: usize) -> (links: Vec<Vec<usize>>)
    requires
        t == MeshTopology::Grid ==> grid_fits(n as nat),
    ensures
        links@.len() == n,
        forall|i: int|
            0 <= i < n ==> (#[trigger] links@[i])@.map_values(|x: usize| x as nat) == topology_targets(
                t,
                n as nat,
                i as nat,
            ),
{
    let s = isqrt(n);
    proof {
        if n > 0 {
            let c = choose|c: nat| is_isqrt(n as nat, c);
            assert(is_isqrt(n as nat, s as nat));
            lemma_isqrt_unique(n as nat, s as nat, c);
        }
    }
    let mut links: Vec<Vec<usize>> = Vec::new();
    let mut i: usize = 0;
    while i < n
        invariant
            i <= n,
            links@.len() == i,
            is_isqrt(n as nat, s as nat),
            n > 0 ==> s == choose|c: nat| is_isqrt(n as nat, c),
            t == MeshTopology::Grid ==> grid_fits(n as nat),
            forall|k: int|
                0 <= k < i ==> (#[trigger] links@[k])@.map_values(|x: usize| x as nat) == topology_targets(
                    t,
                    n as nat,
                    k as nat,
                ),
        decreases n - i,
    {
        let mut row: Vec<usize> = Vec::new();
        match t {
            MeshTopology::FullyConnected => {
                let mut j: usize = 0;
                while j < n
                    invariant
                        j <= n,
                        i < n,
                        row@.len() == if j <= i { j as int } else { j - 1 },
                        forall|m: int|
                            0 <= m < row@.len() ==> row@[m] == if m < i { m } else { m + 1 },
                    decreases n - j,
                {
                    if j != i {
                        row.push(j);
                    }
                    j = j + 1;
                }
            },
            MeshTopology::Ring => {
                if i == 0 {
                    row.push(1 % n);
                    row.push(n - 1);
                } else {
                    row.push(i - 1);
                    row.push((i + 1) % n);
                }
            },
            MeshTopology::Star => {
                if i == 0 {
                    let mut j: usize = 1;
                    while j < n
                        invariant
                            1 <= j <= n,
                            row@.len() == j - 1,
                            forall|m: int| 0 <= m < row@.len() ==> row@[m] == m + 1,
                        decreases n - j,
                    {
                        row.push(j);
                        j = j + 1;
                    }
                } else {
                    row.push(0);
                }
            },
            MeshTopology::Grid => {
                proof {
                    assert(s > 0) by (nonlinear_arith)
                        requires
                            n > 0,
                            n < (s + 1) * (s + 1),
                    ;
                }
                if i % s < s - 1 {
                    proof {
                        assert(n % s == 0);
                        assert(i + 1 < n) by (nonlinear_arith)
                            requires
                                i < n,
                                n % s == 0,
                                i % s < s - 1,
                                s > 0,
                        ;
                    }
                    row.push(i + 1);
                }
                if i / s < s - 1 && s < n - i {
                    row.push(i + s);
                }
            },
            MeshTopology::SmallWorld => {
                row.push((i + 1) % n);
            },
            MeshTopology::ScaleFree => {
                if n > 2 {
                    if i == 0 {
                        row.push(1);
                        row.push(2);
                    } else if i == 1 {
                        row.push(0);
                        row.push(2);
                    } else if i == 2 {
                        row.push(0);
                        row.push(1);
                    } else {
                        row.push(0);
                        row.push(0);
                    }
                }
            },
            MeshTopology::Adaptive => {
                if i != 0 {
                    let count: usize = if n - 1 < 3 {
                        n - 1
                    } else {
                        3
                    };
                    let mut c: usize = 0;
                    while c < count
                        invariant
                            c <= count,
                            row@.len() == c,
                            forall|m: int| 0 <= m < row@.len() ==> row@[m] == 0,
                        decreases count - c,
                    {
                        row.push(0);
                        c = c + 1;
                    }
                }
            },
        }
        proof {
            assert(row@.map_values(|x: usize| x as nat) =~= topology_targets(t, n as nat, i as nat));
        }
        links.push(row);
        i = i + 1;
    }
    links
}

/// In a star the hub (node 0) links to every other node and to no other
/// target, each other node links to the hub alone, and every link is
/// matched by one back.
pub proof fn lemma_star_links(n: nat, i: nat, j: nat)
    requires
        n >= 1,
        i < n,
        j < n,
    ensures
        topology_targets(MeshTopology::Star, n, 0).len() == n - 1,
        1 <= j ==> topology_targets(MeshTopology::Star, n, 0).contains(j),
        !topology_targets(MeshTopology::Star, n, 0).contains(0),
        1 <= i ==> topology_targets(MeshTopology::Star, n, i) =~= seq![0nat],
        topology_targets(MeshTopology::Star, n, i).contains(j) <==> topology_targets(
            MeshTopology::Star,
            n,
            j,
        ).contains(i),
{
    let hub = topology_targets(MeshTopology::Star, n, 0);
    if 1 <= j {
        assert(hub[j - 1] == j);
    }
    if 1 <= i {
        assert(hub[i - 1] == i);
    }
    if hub.contains(0) {
        let k = choose|k: int| 0 <= k < hub.len() && hub[k] == 0;
        assert(hub[k] == k + 1);
    }
    let single = seq![0nat];
    assert forall|x: nat| single.contains(x) <==> x == 0 by {
        if x == 0 {
            assert(single[0] == x);
        }
    }
    if 1 <= i {
        assert(topology_targets(MeshTopology::Star, n, i) == single);
    }
    if 1 <= j {
        assert(topology_targets(MeshTopology::Star, n, j) == single);
    }
}

/// In a fully connected mesh every node links to every other node and
/// not to itself, so every link is matched by one back.
pub proof fn lemma_fully_connected_links(n: nat, i: nat, j: nat)
    requires
        i < n,
        j < n,
    ensures
        topology_targets(MeshTopology::FullyConnected, n, i).len() == n - 1,
        topology_targets(MeshTopology::FullyConnected, n, i).contains(j) <==> j != i,
        topology_targets(MeshTopology::FullyConnected, n, i).contains(j) <==> topology_targets(
            MeshTopology::FullyConnected,
            n,
            j,
        ).contains(i),
{
    let ti = topology_targets(MeshTopology::FullyConnected, n, i);
    let tj = topology_targets(MeshTopology::FullyConnected, n, j);
    if j != i {
        if j < i {
            assert(ti[j as int] == j);
        } else {
            assert(ti[j - 1] == j);
        }
        if i < j {
            assert(tj[i as int] == i);
        } else {
            assert(tj[i - 1] == i);
        }
    }
    if ti.contains(i) {
        let k = choose|k: int| 0 <= k < ti.len() && ti[k] == i;
    }
    if tj.contains(j) {
        let k = choose|k: int| 0 <= k < tj.len() && tj[k] == j;
    }
}

/// In a ring of at least three nodes each node links to its two
/// neighbours, and every link is matched by one back.
pub proof fn lemma_ring_links(n: nat, i: nat, j: nat)
    requires
        n >= 3,
        i < n,
        j < n,
    ensures
        topology_targets(MeshTopology::Ring, n, i).contains(j) <==> (j == (i + 1) % n || i == (j + 1) % n),
        topology_targets(MeshTopology::Ring, n, i).contains(j) <==> topology_targets(MeshTopology::Ring, n, j).contains(
            i,
        ),
{
    let ti = topology_targets(MeshTopology::Ring, n, i);
    let tj = topology_targets(MeshTopology::Ring, n, j);
    assert(ti.len() == 2 && tj.len() == 2);
    assert(ti.contains(j) <==> (ti[0] == j || ti[1] == j)) by {
        if ti.contains(j) {
            let k = choose|k: int| 0 <= k < ti.len() && ti[k] == j;
        }
    }
    assert(tj.contains(i) <==> (tj[0] == i || tj[1] == i)) by {
        if tj.contains(i) {
            let k = choose|k: int| 0 <= k < tj.len() && tj[k] == i;
        }
    }
    assert(1nat % n == 1) by (nonlinear_arith)
        requires
            n >= 3,
    ;
    if i + 1 < n {
        assert((i + 1) % n == i + 1) by (nonlinear_arith)
            requires
                i + 1 < n,
        ;
    } else {
        assert((i + 1) % n == 0) by (nonlinear_arith)
            requires
                i + 1 == n,
                n >= 3,
        ;
    }
    if j + 1 < n {
        assert((j + 1) % n == j + 1) by (nonlinear_arith)
            requires
                j + 1 < n,
        ;
    } else {
        assert((j + 1) % n == 0) by (nonlinear_arith)
            requires
                j + 1 == n,
                n >= 3,
        ;
    }
}

} // verus!
