//! Grouping of nodes into clusters: the simplified k-means and
//! hierarchical algorithms, splitting a cluster in two and moving members
//! between clusters.  A cluster's members are node identifiers, each once.

use vstd::prelude::*;

use crate::coordinator::{contains_text, texts};
use crate::peer::str_eq;

verus! {

/// `s` with `t` added at the end unless already present.
pub open spec fn distinct_push(s: Seq<Seq<char>>, t: Seq<char>) -> Seq<Seq<char>> {
    if s.contains(t) {
        s
    } else {
        s.push(t)
    }
}

/// Members of k-means cluster `c`: the identifiers at positions congruent
/// to `c` modulo `k`, each once, in order of first appearance.
pub open spec fn kmeans_members(ids: Seq<Seq<char>>, k: nat, c: nat) -> Seq<Seq<char>>
    decreases ids.len(),
{
    if ids.len() == 0 {
        Seq::empty()
    } else {
        let r = kmeans_members(ids.drop_last(), k, c);
        if (ids.len() - 1) % (k as int) == c {
            distinct_push(r, ids.last())
        } else {
            r
        }
    }
}

/// The k-means clusters `0..upto` that have at least `min` members, with
/// their numbers.
pub open spec fn kmeans_kept(ids: Seq<Seq<char>>, k: nat, min: nat, upto: nat) -> Seq<(nat, Seq<Seq<char>>)>
    decreases upto,
{
    if upto == 0 {
        Seq::empty()
    } else {
        let r = kmeans_kept(ids, k, min, (upto - 1) as nat);
        let m = kmeans_members(ids, k, (upto - 1) as nat);
        if m.len() >= min {
            r.push(((upto - 1) as nat, m))
        } else {
            r
        }
    }
}

/// Number of k-means clusters: the requested number, or as many as fit
/// the minimum size, at most one per node and at least one.
pub open spec fn kmeans_count(n: nat, min: nat, max_clusters: Option<usize>) -> nat {
    let k: nat = match max_clusters {
        Some(m) => m as nat,
        None => n / min,
    };
    let k2: nat = if k < n { k } else { n };
    if k2 < 1 { 1 } else { k2 }
}

/// Hierarchical grouping state after the identifiers `ids`: the full
/// clusters so far and the one being filled.
pub open spec fn hierarchical_state(ids: Seq<Seq<char>>, max: nat) -> (Seq<Seq<Seq<char>>>, Seq<Seq<char>>)
    decreases ids.len(),
{
    if ids.len() == 0 {
        (Seq::empty(), Seq::empty())
    } else {
        let (done, cur) = hierarchical_state(ids.drop_last(), max);
        let cur2 = distinct_push(cur, ids.last());
        if cur2.len() >= max {
            (done.push(cur2), Seq::empty())
        } else {
            (done, cur2)
        }
    }
}

/// The hierarchical clusters: every full cluster, then the last one when
/// it reached the minimum size; cluster `j` is numbered `j`.
pub open spec fn hierarchical_clusters_spec(ids: Seq<Seq<char>>, min: nat, max: nat) -> Seq<Seq<Seq<char>>> {
    let (done, cur) = hierarchical_state(ids, max);
    if cur.len() >= min {
        done.push(cur)
    } else {
        done
    }
}

/// Adds `s` to a list of distinct identifiers unless already there.
pub fn push_distinct(list: &mut Vec<String>, s: &String)
    ensures
        texts(final(list)@) == distinct_push(texts(old(list)@), s@),
{
    if !contains_text(list, s) {
        let ghost before = texts(list@);
        list.push(s.clone());
        assert(texts(list@) =~= before.push(s@));
    }
}

/// The members of k-means cluster `c`.
fn kmeans_cluster(ids: &Vec<String>, k: usize, c: usize) -> (m: Vec<String>)
    requires
        k > 0,
    ensures
        texts(m@) == kmeans_members(texts(ids@), k as nat, c as nat),
{
    let mut m: Vec<String> = Vec::new();
    let mut i: usize = 0;
    while i < ids.len()
        invariant
            k > 0,
            i <= ids@.len(),
            texts(m@) == kmeans_members(texts(ids@.subrange(0, i as int)), k as nat, c as nat),
        decreases ids@.len() - i,
    {
        assert(texts(ids@.subrange(0, i + 1)).drop_last() =~= texts(ids@.subrange(0, i as int)));
        assert(texts(ids@.subrange(0, i + 1)).last() == ids@[i as int]@);
        if i % k == c {
            push_distinct(&mut m, &ids[i]);
        }
        i = i + 1;
    }
    assert(ids@.subrange(0, ids@.len() as int) =~= ids@);
    m
}

/// Simplified k-means: node `i` joins cluster `i mod k`; clusters with
/// fewer than `min_cluster_size` members are dropped.  Each result is a
/// cluster's number and its members.
pub fn kmeans_clusters(ids: &Vec<String>, min_cluster_size: usize, max_clusters: Option<usize>) -> (r: Vec<
    (usize, Vec<String>),
>)
    requires
        max_clusters is Some || min_cluster_size > 0,
    ensures
        ({
            let k = kmeans_count(ids@.len(), min_cluster_size as nat, max_clusters);
            let want = kmeans_kept(texts(ids@), k, min_cluster_size as nat, k);
            &&& r@.len() == want.len()
            &&& forall|j: int|
                0 <= j < r@.len() ==> (#[trigger] r@[j]).0 == want[j].0 && texts(r@[j].1@) == want[j].1
        }),
{
    let n = ids.len();
    let k0: usize = match max_clusters {
        Some(m) => m,
        None => n / min_cluster_size,
    };
    let k1: usize = if k0 < n {
        k0
    } else {
        n
    };
    let k: usize = if k1 < 1 {
        1
    } else {
        k1
    };
    let ghost want_k = kmeans_count(ids@.len(), min_cluster_size as nat, max_clusters);
    assert(k == want_k);
    let mut r: Vec<(usize, Vec<String>)> = Vec::new();
    let mut c: usize = 0;
    while c < k
        invariant
            k > 0,
            c <= k,
            k == want_k,
            r@.len() == kmeans_kept(texts(ids@), k as nat, min_cluster_size as nat, c as nat).len(),
            forall|j: int|
                0 <= j < r@.len() ==> (#[trigger] r@[j]).0 == kmeans_kept(
                    texts(ids@),
                    k as nat,
                    min_cluster_size as nat,
                    c as nat,
                )[j].0 && texts(r@[j].1@) == kmeans_kept(
                    texts(ids@),
                    k as nat,
                    min_cluster_size as nat,
                    c as nat,
                )[j].1,
        decreases k - c,
    {
        let m = kmeans_cluster(ids, k, c);
        if m.len() >= min_cluster_size {
            r.push((c, m));
        }
        c = c + 1;
    }
    r
}

/// Simplified hierarchical clustering: nodes fill clusters in order; a
/// cluster closes when it reaches `max_cluster_size` members; a last,
/// unfilled cluster is kept only with at least `min_cluster_size` members.
/// Cluster `j` of the result is numbered `j`.
pub fn hierarchical_clusters(ids: &Vec<String>, min_cluster_size: usize, max_cluster_size: usize) -> (r: Vec<
    Vec<String>,
>)
    ensures
        r@.len() == hierarchical_clusters_spec(texts(ids@), min_cluster_size as nat, max_cluster_size as nat).len(),
        forall|j: int|
            0 <= j < r@.len() ==> texts((#[trigger] r@[j])@) == hierarchical_clusters_spec(
                texts(ids@),
                min_cluster_size as nat,
                max_cluster_size as nat,
            )[j],
{
    let mut done: Vec<Vec<String>> = Vec::new();
    let mut cur: Vec<String> = Vec::new();
    let mut i: usize = 0;
    while i < ids.len()
        invariant
            i <= ids@.len(),
            ({
                let (d, c) = hierarchical_state(texts(ids@.subrange(0, i as int)), max_cluster_size as nat);
                &&& done@.len() == d.len()
                &&& forall|j: int| 0 <= j < done@.len() ==> texts((#[trigger] done@[j])@) == d[j]
                &&& texts(cur@) == c
            }),
        decreases ids@.len() - i,
    {
        assert(texts(ids@.subrange(0, i + 1)).drop_last() =~= texts(ids@.subrange(0, i as int)));
        assert(texts(ids@.subrange(0, i + 1)).last() == ids@[i as int]@);
        push_distinct(&mut cur, &ids[i]);
        if cur.len() >= max_cluster_size {
            let full = cur;
            cur = Vec::new();
            done.push(full);
            assert(texts(cur@) =~= Seq::<Seq<char>>::empty());
        }
        i = i + 1;
    }
    assert(ids@.subrange(0, ids@.len() as int) =~= ids@);
    if cur.len() >= min_cluster_size {
        done.push(cur);
    }
    done
}

/// Splits a cluster's members at the middle: the first half (rounded
/// down) and the rest.
pub fn split_members(members: &Vec<String>) -> (halves: (Vec<String>, Vec<String>))
    ensures
        halves.0@ == members@.subrange(0, members@.len() as int / 2),
        halves.1@ == members@.subrange(members@.len() as int / 2, members@.len() as int),
{
    let mid = members.len() / 2;
    let mut first: Vec<String> = Vec::new();
    let mut second: Vec<String> = Vec::new();
    let mut i: usize = 0;
    while i < members.len()
        invariant
            mid == members@.len() / 2,
            i <= members@.len(),
            first@ == members@.subrange(0, if i < mid { i as int } else { mid as int }),
            second@ == members@.subrange(mid as int, if i < mid { mid as int } else { i as int }),
        decreases members@.len() - i,
    {
        if i < mid {
            first.push(members[i].clone());
        } else {
            second.push(members[i].clone());
        }
        i = i + 1;
        assert(first@ =~= members@.subrange(0, if i < mid { i as int } else { mid as int }));
        assert(second@ =~= members@.subrange(mid as int, if i < mid { mid as int } else { i as int }));
    }
    (first, second)
}

/// Takes the first `count` members out of a cluster (all of them when it
/// has fewer) and returns them.
pub fn take_members(members: &mut Vec<String>, count: usize) -> (taken: Vec<String>)
    ensures
        taken@ == old(members)@.take(if count < old(members)@.len() { count as int } else { old(members)@.len() as int }),
        final(members)@ == old(members)@.skip(if count < old(members)@.len() { count as int } else { old(members)@.len() as int }),
{
    let n = if count < members.len() {
        count
    } else {
        members.len()
    };
    let ghost all = members@;
    let mut taken: Vec<String> = Vec::new();
    let mut rest: Vec<String> = Vec::new();
    let mut i: usize = 0;
    while i < members.len()
        invariant
            members@ == all,
            n <= all.len(),
            i <= all.len(),
            taken@ == all.subrange(0, if i < n { i as int } else { n as int }),
            rest@ == all.subrange(n as int, if i < n { n as int } else { i as int }),
        decreases all.len() - i,
    {
        if i < n {
            taken.push(members[i].clone());
        } else {
            rest.push(members[i].clone());
        }
        i = i + 1;
        assert(taken@ =~= all.subrange(0, if i < n { i as int } else { n as int }));
        assert(rest@ =~= all.subrange(n as int, if i < n { n as int } else { i as int }));
    }
    *members = rest;
    assert(taken@ =~= all.take(n as int));
    assert(members@ =~= all.skip(n as int));
    taken
}

/// Adds migrating members to a cluster, each identifier once.
pub fn add_members(members: &mut Vec<String>, incoming: &Vec<String>)
    ensures
        texts(final(members)@) == add_all_distinct(texts(old(members)@), texts(incoming@)),
{
    let mut i: usize = 0;
    while i < incoming.len()
        invariant
            i <= incoming@.len(),
            texts(members@) == add_all_distinct(texts(old(members)@), texts(incoming@.subrange(0, i as int))),
        decreases incoming@.len() - i,
    {
        assert(texts(incoming@.subrange(0, i + 1)).drop_last() =~= texts(incoming@.subrange(0, i as int)));
        assert(texts(incoming@.subrange(0, i + 1)).last() == incoming@[i as int]@);
        push_distinct(members, &incoming[i]);
        i = i + 1;
    }
    assert(incoming@.subrange(0, incoming@.len() as int) =~= incoming@);
}

/// `s` with each of `ts` added in order, skipping those already present.
pub open spec fn add_all_distinct(s: Seq<Seq<char>>, ts: Seq<Seq<char>>) -> Seq<Seq<char>>
    decreases ts.len(),
{
    if ts.len() == 0 {
        s
    } else {
        distinct_push(add_all_distinct(s, ts.drop_last()), ts.last())
    }
}

/// Adding distinct identifiers keeps a list of identifiers duplicate-free
/// and adds exactly the new ones.
pub proof fn lemma_distinct_push(s: Seq<Seq<char>>, t: Seq<char>)
    requires
        s.no_duplicates(),
    ensures
        distinct_push(s, t).no_duplicates(),
        distinct_push(s, t).to_set() == s.to_set().insert(t),
{
    let r = distinct_push(s, t);
    if !s.contains(t) {
        assert forall|a: int, b: int| 0 <= a < r.len() && 0 <= b < r.len() && a != b implies r[a] != r[b] by {
            if a == s.len() {
                assert(s.contains(r[b]));
            } else if b == s.len() {
                assert(s.contains(r[a]));
            }
        }
        assert forall|x: Seq<char>| r.to_set().contains(x) <==> s.to_set().insert(t).contains(x) by {
            if r.contains(x) {
                let k = choose|k: int| 0 <= k < r.len() && r[k] == x;
                if k < s.len() {
                    assert(s[k] == x);
                }
            }
            if s.contains(x) {
                let k = choose|k: int| 0 <= k < s.len() && s[k] == x;
                assert(r[k] == x);
            }
            if x == t {
                assert(r[s.len() as int] == x);
            }
        }
    }
    assert(r.to_set() =~= s.to_set().insert(t));
}


/// Members of every k-means cluster are distinct.
pub proof fn lemma_kmeans_members_distinct(ids: Seq<Seq<char>>, k: nat, c: nat)
    ensures
        kmeans_members(ids, k, c).no_duplicates(),
    decreases ids.len(),
{
    if ids.len() > 0 {
        lemma_kmeans_members_distinct(ids.drop_last(), k, c);
        lemma_distinct_push(kmeans_members(ids.drop_last(), k, c), ids.last());
    }
}

/// Every cluster of the hierarchical grouping, full or being filled, has
/// distinct members.
pub proof fn lemma_hierarchical_members_distinct(ids: Seq<Seq<char>>, max: nat)
    ensures
        forall|j: int|
            0 <= j < hierarchical_state(ids, max).0.len() ==> (#[trigger] hierarchical_state(ids, max).0[j]).no_duplicates(),
        hierarchical_state(ids, max).1.no_duplicates(),
    decreases ids.len(),
{
    if ids.len() > 0 {
        lemma_hierarchical_members_distinct(ids.drop_last(), max);
        let (done, cur) = hierarchical_state(ids.drop_last(), max);
        lemma_distinct_push(cur, ids.last());
        let cur2 = distinct_push(cur, ids.last());
        if cur2.len() >= max {
            assert forall|j: int| 0 <= j < done.push(cur2).len() implies (#[trigger] done.push(cur2)[j]).no_duplicates() by {
                if j < done.len() {
                    assert(done.push(cur2)[j] == done[j]);
                }
            }
            assert(Seq::<Seq<char>>::empty().no_duplicates());
        }
    }
}

/// Adding migrating members keeps a cluster's members distinct.
pub proof fn lemma_add_all_distinct(s: Seq<Seq<char>>, ts: Seq<Seq<char>>)
    requires
        s.no_duplicates(),
    ensures
        add_all_distinct(s, ts).no_duplicates(),
    decreases ts.len(),
{
    if ts.len() > 0 {
        lemma_add_all_distinct(s, ts.drop_last());
        lemma_distinct_push(add_all_distinct(s, ts.drop_last()), ts.last());
    }
}

/// The identifiers of the two halves of cluster `id`: `<id>_1` and `<id>_2`.
pub fn split_cluster_ids(id: &str) -> (ids: (String, String))
    ensures
        ids.0@ == id@ + "_1"@,
        ids.1@ == id@ + "_2"@,
{
    (id.to_owned().concat("_1"), id.to_owned().concat("_2"))
}

/// Position of the first cluster whose identifier is `id`, if any.
pub fn cluster_position(ids: &Vec<String>, id: &str) -> (r: Option<usize>)
    ensures
        match r {
            Some(i) => i < ids@.len() && ids@[i as int]@ == id@ && forall|j: int|
                0 <= j < i ==> (#[trigger] ids@[j])@ != id@,
            None => forall|j: int| 0 <= j < ids@.len() ==> (#[trigger] ids@[j])@ != id@,
        },
{
    let mut i: usize = 0;
    while i < ids.len()
        invariant
            i <= ids@.len(),
            forall|j: int| 0 <= j < i ==> (#[trigger] ids@[j])@ != id@,
        decreases ids@.len() - i,
    {
        if str_eq(ids[i].as_str(), id) {
            return Some(i);
        }
        i = i + 1;
    }
    None
}

/// With no requested number of clusters, k-means makes as many clusters as
/// whole groups of `min` nodes fit in the `n` nodes (at least one): the
/// count `k` satisfies `k * min <= n < (k + 1) * min` when `min <= n`, and
/// is one when fewer than `min` nodes are given.
pub proof fn lemma_kmeans_count_fits_minimum(n: nat, min: nat)
    requires
        min > 0,
    ensures
        min <= n ==> kmeans_count(n, min, None) * min <= n && n < (kmeans_count(n, min, None) + 1) * min,
        n < min ==> kmeans_count(n, min, None) == 1,
        kmeans_count(n, min, None) >= 1,
{
    let q = n / min;
    assert(q * min <= n && n < (q + 1) * min) by (nonlinear_arith)
        requires
            min > 0,
            q == n / min,
    ;
    if min <= n {
        assert(q >= 1) by (nonlinear_arith)
            requires
                min > 0,
                min <= n,
                q == n / min,
        ;
        assert(q <= n) by (nonlinear_arith)
            requires
                min > 0,
                q * min <= n,
        ;
    } else {
        assert(q == 0) by (nonlinear_arith)
            requires
                min > 0,
                n < min,
                q == n / min,
        ;
    }
}

/// K-means cluster `c` holds exactly the identifiers found at positions
/// congruent to `c` modulo `k`.
pub proof fn lemma_kmeans_members_by_position(ids: Seq<Seq<char>>, k: nat, c: nat, x: Seq<char>)
    requires
        k > 0,
    ensures
        kmeans_members(ids, k, c).contains(x) <==> exists|i: int| 0 <= i < ids.len() && i % (k as int) == c && #[trigger] ids[i] == x,
    decreases ids.len(),
{
    if ids.len() > 0 {
        let init = ids.drop_last();
        lemma_kmeans_members_by_position(init, k, c, x);
        let r = kmeans_members(init, k, c);
        let last = ids.last();
        let n1 = ids.len() - 1;
        assert(distinct_push(r, last).contains(x) <==> (r.contains(x) || last == x)) by {
            if !r.contains(last) {
                let d = r.push(last);
                if d.contains(x) {
                    let p = choose|p: int| 0 <= p < d.len() && d[p] == x;
                    if p < r.len() {
                        assert(r[p] == x);
                    }
                }
                if r.contains(x) {
                    let p = choose|p: int| 0 <= p < r.len() && r[p] == x;
                    assert(d[p] == x);
                }
                assert(d[r.len() as int] == last);
            }
        }
        if exists|i: int| 0 <= i < ids.len() && i % (k as int) == c && #[trigger] ids[i] == x {
            let i = choose|i: int| 0 <= i < ids.len() && i % (k as int) == c && #[trigger] ids[i] == x;
            if i < n1 {
                assert(init[i] == x);
            }
        }
        if exists|i: int| 0 <= i < init.len() && i % (k as int) == c && #[trigger] init[i] == x {
            let i = choose|i: int| 0 <= i < init.len() && i % (k as int) == c && #[trigger] init[i] == x;
            assert(ids[i] == x);
        }
        if n1 % (k as int) == c && last == x {
            assert(ids[n1] == x);
        }
    }
}

} // verus!
