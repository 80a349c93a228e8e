//! DAG (directed acyclic graph) of transactions: nodes, edges, tips,
//! validation and graph queries.

use vstd::prelude::*;

use crate::bytes::{ids_be_bytes, push_bytes, push_u128_be, push_u64_le, u128_be_bytes, u64_le_bytes};
use crate::crypto::{blake3_digest, blake3_hash, PostQuantumSignature, SignatureView};
use crate::error::{text, QuDAGError};
use crate::ids::{uuid_string, uuid_text};
use std::collections::HashMap;
use std::collections::HashSet;

verus! {

/// A node in the DAG.  Identifiers are UUIDs held as `u128`.
#[derive(Debug)]
pub struct DAGNode {
    pub id: u128,
    pub data: Vec<u8>,
    pub parents: Vec<u128>,
    pub timestamp: u64,
    pub signature: Option<PostQuantumSignature>,
    pub hash: Vec<u8>,
    pub nonce: u64,
}

/// Mathematical value of a [`DAGNode`].
pub struct DAGNodeView {
    pub id: u128,
    pub data: Seq<u8>,
    pub parents: Seq<u128>,
    pub timestamp: u64,
    pub signature: Option<SignatureView>,
    pub hash: Seq<u8>,
    pub nonce: u64,
}

impl View for DAGNode {
    type V = DAGNodeView;

    open spec fn view(&self) -> DAGNodeView {
        DAGNodeView {
            id: self.id,
            data: self.data@,
            parents: self.parents@,
            timestamp: self.timestamp,
            signature: match self.signature {
                Some(s) => Some(s@),
                None => None,
            },
            hash: self.hash@,
            nonce: self.nonce,
        }
    }
}

/// The bytes that a node's hash covers: id, data, timestamp, nonce, parents.
pub open spec fn node_hash_input(
    id: u128,
    data: Seq<u8>,
    timestamp: u64,
    nonce: u64,
    parents: Seq<u128>,
) -> Seq<u8> {
    u128_be_bytes(id) + data + u64_le_bytes(timestamp) + u64_le_bytes(nonce) + ids_be_bytes(parents)
}

/// The hash a node with these fields must carry.
pub open spec fn spec_node_hash(n: DAGNodeView) -> Seq<u8> {
    blake3_digest(node_hash_input(n.id, n.data, n.timestamp, n.nonce, n.parents))
}

/// Sum of the first (at most four) hash bytes, wrapping at 2^32.
pub open spec fn spec_work_done(hash: Seq<u8>) -> u32
    decreases hash.len(),
{
    if hash.len() == 0 {
        0
    } else {
        let n = if hash.len() > 4 { 4int } else { hash.len() as int };
        let prefix = hash.subrange(0, n);
        ((spec_work_done(prefix.drop_last()) as int + prefix.last() as int) % 0x1_0000_0000) as u32
    }
}

impl DAGNode {
    /// Creates a node with the given timestamp and computes its hash.
    pub fn with_timestamp(id: u128, data: Vec<u8>, parents: Vec<u128>, timestamp: u64) -> (node: Self)
        ensures
            node@.id == id,
            node@.data == data@,
            node@.parents == parents@,
            node@.timestamp == timestamp,
            node@.signature is None,
            node@.nonce == 0,
            node@.hash == spec_node_hash(node@),
    {
        let mut node = DAGNode {
            id,
            data,
            parents,
            timestamp,
            signature: None,
            hash: Vec::new(),
            nonce: 0,
        };
        node.hash = node.compute_hash();
        node
    }

    /// Creates a node stamped with the current wall-clock time.
    pub fn new(id: u128, data: Vec<u8>, parents: Vec<u128>) -> (node: Self)
        ensures
            node@.id == id,
            node@.data == data@,
            node@.parents == parents@,
            node@.signature is None,
            node@.nonce == 0,
            node@.hash == spec_node_hash(node@),
    {
        let timestamp = crate::clock::now_unix_secs();
        Self::with_timestamp(id, data, parents, timestamp)
    }

    /// Creates a genesis node (no parents) with a fresh random identifier.
    pub fn genesis(data: Vec<u8>) -> (node: Self)
        ensures
            node@.data == data@,
            node@.parents.len() == 0,
            node@.signature is None,
            node@.nonce == 0,
            node@.hash == spec_node_hash(node@),
    {
        let id = crate::ids::new_uuid();
        Self::new(id, data, Vec::new())
    }

    /// Computes the BLAKE3 hash over id, data, timestamp, nonce and parents.
    pub fn compute_hash(&self) -> (hash: Vec<u8>)
        ensures
            hash@ == spec_node_hash(self@),
            hash@.len() == 32,
    {
        let mut input: Vec<u8> = Vec::new();
        push_u128_be(&mut input, self.id);
        push_bytes(&mut input, self.data.as_slice());
        push_u64_le(&mut input, self.timestamp);
        push_u64_le(&mut input, self.nonce);
        let mut i: usize = 0;
        while i < self.parents.len()
            invariant
                i <= self.parents@.len(),
                input@ == u128_be_bytes(self.id) + self.data@ + u64_le_bytes(self.timestamp)
                    + u64_le_bytes(self.nonce) + ids_be_bytes(self.parents@.subrange(0, i as int)),
            decreases self.parents@.len() - i,
        {
            let ghost before = self.parents@.subrange(0, i as int);
            push_u128_be(&mut input, self.parents[i]);
            i = i + 1;
            assert(self.parents@.subrange(0, i as int).drop_last() =~= before);
        }
        assert(self.parents@.subrange(0, self.parents@.len() as int) =~= self.parents@);
        blake3_hash(input.as_slice())
    }

    /// True when the stored hash matches the node's contents.
    pub fn verify_hash(&self) -> (ok: bool)
        ensures
            ok == (self@.hash == spec_node_hash(self@)),
    {
        let computed = self.compute_hash();
        bytes_eq(&self.hash, &computed)
    }

    /// Attaches a signature.
    pub fn sign(&mut self, signature: PostQuantumSignature)
        ensures
            final(self)@ == (DAGNodeView { signature: Some(signature@), ..old(self)@ }),
    {
        self.signature = Some(signature);
    }

    /// A genesis node has no parents.
    pub fn is_genesis(&self) -> (g: bool)
        ensures
            g == (self@.parents.len() == 0),
    {
        self.parents.len() == 0
    }

    /// The node's payload.
    pub fn data(&self) -> (d: &[u8])
        ensures
            d@ == self@.data,
    {
        self.data.as_slice()
    }

    /// The node's parents.
    pub fn parents(&self) -> (p: &[u128])
        ensures
            p@ == self@.parents,
    {
        self.parents.as_slice()
    }

    /// The node's signature, if any.
    pub fn signature(&self) -> (s: Option<&PostQuantumSignature>)
        ensures
            match s {
                Some(x) => self@.signature == Some(x@),
                None => self@.signature is None,
            },
    {
        match &self.signature {
            Some(s) => Some(s),
            None => None,
        }
    }

    /// Sum of the first four hash bytes, wrapping (proof-of-work measure).
    pub fn work_done(&self) -> (w: u32)
        ensures
            w == spec_work_done(self@.hash),
    {
        let n: usize = if self.hash.len() > 4 { 4 } else { self.hash.len() };
        let mut acc: u32 = 0;
        let mut i: usize = 0;
        while i < n
            invariant
                n <= 4,
                n as int == if self.hash@.len() > 4 { 4int } else { self.hash@.len() as int },
                i <= n,
                acc == spec_work_done(self.hash@.subrange(0, i as int)),
            decreases n - i,
        {
            let ghost pre = self.hash@.subrange(0, i as int);
            let ghost next = self.hash@.subrange(0, i + 1);
            assert(next.drop_last() =~= pre);
            assert(next.subrange(0, next.len() as int) =~= next);
            acc = acc.wrapping_add(self.hash[i] as u32);
            i = i + 1;
        }
        proof {
            let h = self.hash@;
            if h.len() > 4 {
                lemma_work_done_prefix(h);
            } else {
                assert(h.subrange(0, h.len() as int) =~= h);
            }
        }
        acc
    }
}

proof fn lemma_work_done_prefix(h: Seq<u8>)
    requires
        h.len() > 4,
    ensures
        spec_work_done(h) == spec_work_done(h.subrange(0, 4)),
{
    let p = h.subrange(0, 4);
    assert(p.subrange(0, 4) =~= p);
}

impl Clone for DAGNode {
    fn clone(&self) -> (res: Self)
        ensures
            res@ == self@,
    {
        let data = self.data.clone();
        let parents = self.parents.clone();
        let hash = self.hash.clone();
        assert(data@ =~= self.data@);
        assert(parents@ =~= self.parents@);
        assert(hash@ =~= self.hash@);
        let signature = match &self.signature {
            Some(s) => Some(s.clone()),
            None => None,
        };
        DAGNode {
            id: self.id,
            data,
            parents,
            timestamp: self.timestamp,
            signature,
            hash,
            nonce: self.nonce,
        }
    }
}

/// Byte-wise equality of two byte vectors.
pub fn bytes_eq(a: &Vec<u8>, b: &Vec<u8>) -> (eq: bool)
    ensures
        eq == (a@ == b@),
{
    if a.len() != b.len() {
        return false;
    }
    let mut i: usize = 0;
    while i < a.len()
        invariant
            a@.len() == b@.len(),
            i <= a@.len(),
            forall|k: int| 0 <= k < i ==> a@[k] == b@[k],
        decreases a@.len() - i,
    {
        if a[i] != b[i] {
            return false;
        }
        i = i + 1;
    }
    assert(a@ =~= b@);
    true
}

// ---------------------------------------------------------------------
// Graph model
// ---------------------------------------------------------------------

/// Views of a sequence of nodes.
pub open spec fn view_nodes(ns: Seq<DAGNode>) -> Seq<DAGNodeView> {
    ns.map_values(|n: DAGNode| n@)
}

/// Some node in `ns` carries identifier `id`.
pub open spec fn has_id(ns: Seq<DAGNodeView>, id: u128) -> bool {
    exists|i: int| 0 <= i < ns.len() && #[trigger] ns[i].id == id
}

/// Some node strictly before position `j` carries identifier `id`.
pub open spec fn id_before(ns: Seq<DAGNodeView>, id: u128, j: int) -> bool {
    exists|i: int| 0 <= i < j && #[trigger] ns[i].id == id
}

/// No two nodes share an identifier.
pub open spec fn unique_ids(ns: Seq<DAGNodeView>) -> bool {
    forall|i: int, j: int| 0 <= i < ns.len() && 0 <= j < ns.len() && i != j ==> ns[i].id != ns[j].id
}

/// Every parent of a node was added before it (this is what makes the graph acyclic).
pub open spec fn parents_precede(ns: Seq<DAGNodeView>) -> bool {
    forall|j: int, k: int|
        0 <= j < ns.len() && 0 <= k < ns[j].parents.len() ==> id_before(ns, #[trigger] ns[j].parents[k], j)
}

/// `child` repeated once for every occurrence of `p` in `ps`.
pub open spec fn occurrences(ps: Seq<u128>, p: u128, child: u128) -> Seq<u128>
    decreases ps.len(),
{
    if ps.len() == 0 {
        Seq::empty()
    } else {
        occurrences(ps.drop_last(), p, child) + if ps.last() == p {
            seq![child]
        } else {
            Seq::empty()
        }
    }
}

/// The children of `p`, in insertion order, once per parent link.
pub open spec fn children_in(ns: Seq<DAGNodeView>, p: u128) -> Seq<u128>
    decreases ns.len(),
{
    if ns.len() == 0 {
        Seq::empty()
    } else {
        children_in(ns.drop_last(), p) + occurrences(ns.last().parents, p, ns.last().id)
    }
}

/// The parents recorded for `id` (empty when `id` is not a node).
pub open spec fn parents_in(ns: Seq<DAGNodeView>, id: u128) -> Seq<u128> {
    if has_id(ns, id) {
        ns[choose|i: int| 0 <= i < ns.len() && ns[i].id == id].parents
    } else {
        Seq::empty()
    }
}

/// A tip is a node with no children.
pub open spec fn is_tip(ns: Seq<DAGNodeView>, id: u128) -> bool {
    has_id(ns, id) && children_in(ns, id).len() == 0
}

/// The checks a node's own fields and its links to `ns` must pass: the
/// stored hash is right, it has at most `max_parents` parents, each parent
/// is in `ns`, and it is stamped at least `min_diff` seconds after each
/// parent.
pub open spec fn spec_node_checks(
    max_parents: int,
    min_diff: int,
    ns: Seq<DAGNodeView>,
    n: DAGNodeView,
) -> bool {
    &&& n.hash == spec_node_hash(n)
    &&& n.parents.len() <= max_parents
    &&& forall|k: int| 0 <= k < n.parents.len() ==> has_id(ns, #[trigger] n.parents[k])
    &&& forall|k: int, i: int|
        0 <= k < n.parents.len() && 0 <= i < ns.len() && #[trigger] ns[i].id == #[trigger] n.parents[k]
            ==> n.timestamp >= ns[i].timestamp + min_diff
}

/// The checks a node must pass before it may join the DAG `ns`: those of
/// `spec_node_checks`, and its identifier is new.
pub open spec fn spec_validates(
    max_parents: int,
    min_diff: int,
    ns: Seq<DAGNodeView>,
    n: DAGNodeView,
) -> bool {
    &&& spec_node_checks(max_parents, min_diff, ns, n)
    &&& !has_id(ns, n.id)
}

/// The character of decimal digit `d`.
pub open spec fn digit_char(d: nat) -> char {
    (48 + d) as char
}

/// The decimal text of `n`, without leading zeros.
pub open spec fn decimal_text(n: nat) -> Seq<char>
    decreases n,
{
    if n < 10 {
        seq![digit_char(n)]
    } else {
        decimal_text(n / 10).push(digit_char(n % 10))
    }
}

/// `k` is the first parent of `n` that is not in `ns`.
pub open spec fn first_missing_parent(ns: Seq<DAGNodeView>, n: DAGNodeView, k: int) -> bool {
    &&& 0 <= k < n.parents.len()
    &&& !has_id(ns, n.parents[k])
    &&& forall|j: int| 0 <= j < k ==> has_id(ns, #[trigger] n.parents[j])
}

/// The message of the first of the `spec_node_checks` that `n` fails.
pub open spec fn check_message(max_parents: nat, ns: Seq<DAGNodeView>, n: DAGNodeView, m: Seq<char>) -> bool {
    if n.hash != spec_node_hash(n) {
        m == "Invalid node hash"@
    } else if n.parents.len() > max_parents {
        m == "Too many parents: "@ + decimal_text(n.parents.len()) + " > "@ + decimal_text(max_parents)
    } else if exists|k: int| first_missing_parent(ns, n, k) {
        exists|k: int|
            first_missing_parent(ns, n, k) && m == "Parent "@ + uuid_text(#[trigger] n.parents[k])
                + " does not exist"@
    } else {
        m == "Node timestamp must be after parent timestamps"@
    }
}

/// The maximum number of parents.
pub const DEFAULT_MAX_PARENTS: usize = 10;

/// Minimum number of seconds a child is stamped after each of its parents;
/// a child may share its parents' second.
pub const DEFAULT_MIN_TIMESTAMP_DIFF: u64 = 0;

/// The decimal text of `n`.
pub fn decimal(n: usize) -> (s: String)
    ensures
        s@ == decimal_text(n as nat),
    decreases n,
{
    let d = digit_text(n % 10);
    if n < 10 {
        d
    } else {
        let head = decimal(n / 10);
        head.concat(d.as_str())
    }
}

/// The one-character text of digit `d`.
fn digit_text(d: usize) -> (s: String)
    requires
        d < 10,
    ensures
        s@ == seq![digit_char(d as nat)],
{
    proof {
        reveal_strlit("0");
        reveal_strlit("1");
        reveal_strlit("2");
        reveal_strlit("3");
        reveal_strlit("4");
        reveal_strlit("5");
        reveal_strlit("6");
        reveal_strlit("7");
        reveal_strlit("8");
        reveal_strlit("9");
    }
    let s = if d == 0 {
        text("0")
    } else if d == 1 {
        text("1")
    } else if d == 2 {
        text("2")
    } else if d == 3 {
        text("3")
    } else if d == 4 {
        text("4")
    } else if d == 5 {
        text("5")
    } else if d == 6 {
        text("6")
    } else if d == 7 {
        text("7")
    } else if d == 8 {
        text("8")
    } else {
        text("9")
    };
    assert(s@ =~= seq![digit_char(d as nat)]);
    s
}

proof fn lemma_occurrences_empty(ps: Seq<u128>, p: u128, c: u128)
    ensures
        (occurrences(ps, p, c).len() == 0) <==> !ps.contains(p),
    decreases ps.len(),
{
    if ps.len() > 0 {
        lemma_occurrences_empty(ps.drop_last(), p, c);
        if ps.last() == p {
            assert(ps.contains(p)) by {
                assert(ps[ps.len() - 1] == p);
            }
        } else {
            if ps.contains(p) {
                let i = choose|i: int| 0 <= i < ps.len() && ps[i] == p;
                assert(ps.drop_last()[i] == p);
            }
            if ps.drop_last().contains(p) {
                let i = choose|i: int| 0 <= i < ps.drop_last().len() && ps.drop_last()[i] == p;
                assert(ps[i] == p);
            }
        }
    }
}

proof fn lemma_occurrences_all_child(ps: Seq<u128>, p: u128, c: u128)
    ensures
        forall|i: int| 0 <= i < occurrences(ps, p, c).len() ==> occurrences(ps, p, c)[i] == c,
    decreases ps.len(),
{
    if ps.len() > 0 {
        lemma_occurrences_all_child(ps.drop_last(), p, c);
        let a = occurrences(ps.drop_last(), p, c);
        let b = if ps.last() == p {
            seq![c]
        } else {
            Seq::<u128>::empty()
        };
        assert(occurrences(ps, p, c) == a + b);
        assert forall|i: int| 0 <= i < occurrences(ps, p, c).len() implies occurrences(ps, p, c)[i] == c by {
            if i < a.len() {
                assert((a + b)[i] == a[i]);
            } else {
                assert((a + b)[i] == b[i - a.len()]);
            }
        }
    }
}

proof fn lemma_children_push(ns: Seq<DAGNodeView>, n: DAGNodeView, q: u128)
    ensures
        children_in(ns.push(n), q) == children_in(ns, q) + occurrences(n.parents, q, n.id),
{
    assert(ns.push(n).drop_last() =~= ns);
}

proof fn lemma_occurrences_step(ps: Seq<u128>, i: int, q: u128, c: u128)
    requires
        0 <= i < ps.len(),
    ensures
        occurrences(ps.subrange(0, i + 1), q, c) == occurrences(ps.subrange(0, i), q, c) + if ps[i]
            == q {
            seq![c]
        } else {
            Seq::<u128>::empty()
        },
{
    assert(ps.subrange(0, i + 1).drop_last() =~= ps.subrange(0, i));
}

/// A node that nobody names as a parent has no children.
proof fn lemma_children_absent(ns: Seq<DAGNodeView>, q: u128)
    requires
        forall|j: int| 0 <= j < ns.len() ==> !(#[trigger] ns[j].parents).contains(q),
    ensures
        children_in(ns, q).len() == 0,
    decreases ns.len(),
{
    if ns.len() > 0 {
        let init = ns.drop_last();
        assert forall|j: int| 0 <= j < init.len() implies !(#[trigger] init[j].parents).contains(q) by {
            assert(init[j] == ns[j]);
        }
        lemma_children_absent(init, q);
        lemma_occurrences_empty(ns.last().parents, q, ns.last().id);
    }
}

// ---------------------------------------------------------------------
// Validation
// ---------------------------------------------------------------------

/// DAG validation rules.
#[derive(Debug)]
pub struct DAGValidation {
    max_parents: usize,
    min_timestamp_diff: u64,
}

impl DAGValidation {
    /// Every rule set has the default limits.
    #[verifier::type_invariant]
    spec fn default_limits(self) -> bool {
        self.max_parents == DEFAULT_MAX_PARENTS && self.min_timestamp_diff == DEFAULT_MIN_TIMESTAMP_DIFF
    }

    /// The largest number of parents a node may have.
    pub closed spec fn spec_max_parents(&self) -> int {
        self.max_parents as int
    }

    /// The minimum gap, in seconds, between a parent's and a child's timestamp.
    pub closed spec fn spec_min_diff(&self) -> int {
        self.min_timestamp_diff as int
    }

    /// The default rules: at most 10 parents, and a child stamped no
    /// earlier than each of its parents.
    pub fn new() -> (v: Self)
        ensures
            v.spec_max_parents() == 10,
            v.spec_min_diff() == 0,
    {
        DAGValidation { max_parents: DEFAULT_MAX_PARENTS, min_timestamp_diff: DEFAULT_MIN_TIMESTAMP_DIFF }
    }

    /// Checks a node's hash, parent count, parents and timestamps against
    /// `dag`, failing with the message of the first check it fails.
    fn check_node(&self, node: &DAGNode, dag: &DAGNetwork) -> (r: Result<(), QuDAGError>)
        requires
            dag.wf(),
        ensures
            r is Ok <==> spec_node_checks(self.spec_max_parents(), self.spec_min_diff(), dag.spec_nodes(), node@),
            r matches Err(e) ==> e matches QuDAGError::ValidationError(m) && check_message(
                self.spec_max_parents() as nat,
                dag.spec_nodes(),
                node@,
                m@,
            ),
    {
        let ghost ns = dag.spec_nodes();
        if !node.verify_hash() {
            return Err(QuDAGError::validation("Invalid node hash"));
        }
        if node.parents.len() > self.max_parents {
            let msg = text("Too many parents: ").concat(decimal(node.parents.len()).as_str()).concat(
                " > ",
            ).concat(decimal(self.max_parents).as_str());
            return Err(QuDAGError::ValidationError(msg));
        }
        let mut k: usize = 0;
        while k < node.parents.len()
            invariant
                dag.wf(),
                ns == dag.spec_nodes(),
                k <= node.parents@.len(),
                forall|j: int| 0 <= j < k ==> has_id(ns, #[trigger] node.parents@[j]),
                node@.hash == spec_node_hash(node@),
                node.parents@.len() <= self.max_parents,
            decreases node.parents@.len() - k,
        {
            let p = node.parents[k];
            if dag.find_index(p).is_none() {
                let msg = text("Parent ").concat(uuid_string(p).as_str()).concat(" does not exist");
                assert(first_missing_parent(ns, node@, k as int));
                assert(first_missing_parent(ns, node@, k as int) && msg@ == "Parent "@ + uuid_text(
                    node@.parents[k as int],
                ) + " does not exist"@);
                return Err(QuDAGError::ValidationError(msg));
            }
            k = k + 1;
        }
        assert forall|k2: int| !first_missing_parent(ns, node@, k2) by {}
        let mut k: usize = 0;
        while k < node.parents.len()
            invariant
                dag.wf(),
                ns == dag.spec_nodes(),
                k <= node.parents@.len(),
                forall|j: int| 0 <= j < node.parents@.len() ==> has_id(ns, #[trigger] node.parents@[j]),
                forall|j: int, i: int|
                    0 <= j < k && 0 <= i < ns.len() && #[trigger] ns[i].id == #[trigger] node.parents@[j]
                        ==> node.timestamp >= ns[i].timestamp + self.min_timestamp_diff,
                node@.hash == spec_node_hash(node@),
                node.parents@.len() <= self.max_parents,
            decreases node.parents@.len() - k,
        {
            let p = node.parents[k];
            match dag.find_index(p) {
                Some(i) => {
                    let parent_ts = dag.nodes[i].timestamp;
                    if (node.timestamp as u128) < (parent_ts as u128) + (self.min_timestamp_diff as u128) {
                        assert forall|k2: int| !first_missing_parent(ns, node@, k2) by {
                            if 0 <= k2 < node@.parents.len() {
                                assert(has_id(ns, node.parents@[k2]));
                            }
                        }
                        return Err(QuDAGError::validation("Node timestamp must be after parent timestamps"));
                    }
                    proof {
                        assert forall|j: int, i2: int|
                            0 <= j < k + 1 && 0 <= i2 < ns.len() && #[trigger] ns[i2].id
                                == #[trigger] node.parents@[j] implies node.timestamp >= ns[i2].timestamp
                            + self.min_timestamp_diff by {
                            if j == k {
                                assert(i2 == i);
                            }
                        }
                    }
                },
                None => {
                    proof {
                        assert(has_id(ns, node.parents@[k as int]));
                    }
                },
            }
            k = k + 1;
        }
        Ok(())
    }

    /// Checks that `node` may be added to `dag`: its hash is right, it has
    /// few enough parents, each parent exists and is not stamped after it,
    /// and the node is not already present.  An error carries the message
    /// of the first check that fails.
    pub fn validate_node(&self, node: &DAGNode, dag: &DAGNetwork) -> (r: Result<(), QuDAGError>)
        requires
            dag.wf(),
        ensures
            r is Ok <==> spec_validates(self.spec_max_parents(), self.spec_min_diff(), dag.spec_nodes(), node@),
            r matches Err(e) ==> e matches QuDAGError::ValidationError(m) && if spec_node_checks(
                self.spec_max_parents(),
                self.spec_min_diff(),
                dag.spec_nodes(),
                node@,
            ) {
                m@ == "Node "@ + uuid_text(node.id) + " already exists"@
            } else {
                check_message(self.spec_max_parents() as nat, dag.spec_nodes(), node@, m@)
            },
    {
        match self.check_node(node, dag) {
            Err(e) => {
                return Err(e);
            },
            Ok(()) => {},
        }
        if dag.find_index(node.id).is_some() {
            let msg = text("Node ").concat(uuid_string(node.id).as_str()).concat(" already exists");
            return Err(QuDAGError::ValidationError(msg));
        }
        Ok(())
    }
}

// ---------------------------------------------------------------------
// The DAG network
// ---------------------------------------------------------------------

/// DAG statistics.
#[derive(Debug, Clone, Copy)]
pub struct DAGStats {
    pub node_count: usize,
    pub tip_count: usize,
    pub genesis_count: usize,
}

/// Number of genesis nodes (nodes without parents) in `ns`.
pub open spec fn genesis_count(ns: Seq<DAGNodeView>) -> nat
    decreases ns.len(),
{
    if ns.len() == 0 {
        0
    } else {
        genesis_count(ns.drop_last()) + if ns.last().parents.len() == 0 {
            1nat
        } else {
            0nat
        }
    }
}

/// A DAG of nodes with parent links, child links and the current tips.
#[derive(Debug)]
pub struct DAGNetwork {
    nodes: Vec<DAGNode>,
    edges: HashMap<u128, Vec<u128>>,
    reverse_edges: HashMap<u128, Vec<u128>>,
    tips: Vec<u128>,
    validator: DAGValidation,
}

impl DAGNetwork {
    /// The nodes, in insertion order.
    pub closed spec fn spec_nodes(&self) -> Seq<DAGNodeView> {
        view_nodes(self.nodes@)
    }

    /// The current tips, each once.
    pub closed spec fn spec_tips(&self) -> Seq<u128> {
        self.tips@
    }

    /// Well-formedness: unique ids, parents added before children, every
    /// stored node passing the node checks against the DAG, and the child, parent and tip indexes agree
    /// with the nodes.
    pub closed spec fn wf(&self) -> bool {
        let ns = self.spec_nodes();
        &&& unique_ids(ns)
        &&& parents_precede(ns)
        &&& forall|i: int| 0 <= i < ns.len() ==> (#[trigger] ns[i]).hash == spec_node_hash(ns[i])
        &&& forall|i: int|
            0 <= i < ns.len() ==> spec_node_checks(
                DEFAULT_MAX_PARENTS as int,
                DEFAULT_MIN_TIMESTAMP_DIFF as int,
                ns,
                #[trigger] ns[i],
            )
        &&& forall|q: u128|
            (#[trigger] self.edges@.contains_key(q)) <==> children_in(ns, q).len() > 0
        &&& forall|q: u128|
            #[trigger] self.edges@.contains_key(q) ==> self.edges@[q]@ == children_in(ns, q)
        &&& forall|q: u128|
            (#[trigger] self.reverse_edges@.contains_key(q)) <==> parents_in(ns, q).len() > 0
        &&& forall|q: u128|
            #[trigger] self.reverse_edges@.contains_key(q) ==> self.reverse_edges@[q]@ == parents_in(ns, q)
        &&& self.tips@.no_duplicates()
        &&& forall|q: u128| (#[trigger] self.tips@.contains(q)) <==> is_tip(ns, q)
        &&& self.validator.max_parents == DEFAULT_MAX_PARENTS
        &&& self.validator.min_timestamp_diff == DEFAULT_MIN_TIMESTAMP_DIFF
    }

    /// Creates an empty DAG.
    pub fn new() -> (dag: Self)
        ensures
            dag.wf(),
            dag.spec_nodes().len() == 0,
    {
        broadcast use vstd::std_specs::hash::group_hash_axioms;
        let dag = DAGNetwork {
            nodes: Vec::new(),
            edges: HashMap::new(),
            reverse_edges: HashMap::new(),
            tips: Vec::new(),
            validator: DAGValidation::new(),
        };
        assert(dag.spec_nodes() =~= Seq::<DAGNodeView>::empty());
        dag
    }

    /// Position of the node with identifier `id`, if present.
    pub fn find_index(&self, id: u128) -> (r: Option<usize>)
        requires
            self.wf(),
        ensures
            match r {
                Some(i) => i < self.spec_nodes().len() && self.spec_nodes()[i as int].id == id,
                None => !has_id(self.spec_nodes(), id),
            },
    {
        let mut i: usize = 0;
        while i < self.nodes.len()
            invariant
                i <= self.nodes@.len(),
                forall|j: int| 0 <= j < i ==> self.spec_nodes()[j].id != id,
            decreases self.nodes@.len() - i,
        {
            if self.nodes[i].id == id {
                return Some(i);
            }
            i = i + 1;
        }
        None
    }

    /// Looks a node up by identifier.
    pub fn get_node(&self, id: u128) -> (r: Option<DAGNode>)
        requires
            self.wf(),
        ensures
            match r {
                Some(n) => has_id(self.spec_nodes(), id) && n@ == parents_node(self.spec_nodes(), id),
                None => !has_id(self.spec_nodes(), id),
            },
    {
        match self.find_index(id) {
            Some(i) => {
                proof {
                    lemma_choose_unique(self.spec_nodes(), id, i as int);
                }
                Some(self.nodes[i].clone())
            },
            None => None,
        }
    }

    /// All nodes, in insertion order.
    pub fn get_all_nodes(&self) -> (r: Vec<DAGNode>)
        ensures
            view_nodes(r@) == self.spec_nodes(),
    {
        let mut out: Vec<DAGNode> = Vec::new();
        let mut i: usize = 0;
        while i < self.nodes.len()
            invariant
                i <= self.nodes@.len(),
                view_nodes(out@) =~= self.spec_nodes().subrange(0, i as int),
            decreases self.nodes@.len() - i,
        {
            let ghost prev = out@;
            let c = self.nodes[i].clone();
            out.push(c);
            assert(view_nodes(out@) =~= view_nodes(prev).push(self.spec_nodes()[i as int]));
            i = i + 1;
            assert(view_nodes(out@) =~= self.spec_nodes().subrange(0, i as int));
        }
        out
    }

    /// Children of a node, once per parent link, in insertion order.
    pub fn get_children(&self, id: u128) -> (r: Vec<u128>)
        requires
            self.wf(),
        ensures
            r@ == children_in(self.spec_nodes(), id),
    {
        broadcast use vstd::std_specs::hash::group_hash_axioms;
        match self.edges.get(&id) {
            Some(v) => {
                let c = v.clone();
                assert(c@ =~= v@);
                c
            },
            None => Vec::new(),
        }
    }

    /// Parents of a node (empty when the node is unknown).
    pub fn get_parents(&self, id: u128) -> (r: Vec<u128>)
        requires
            self.wf(),
        ensures
            r@ == parents_in(self.spec_nodes(), id),
    {
        broadcast use vstd::std_specs::hash::group_hash_axioms;
        match self.reverse_edges.get(&id) {
            Some(v) => {
                let c = v.clone();
                assert(c@ =~= v@);
                c
            },
            None => Vec::new(),
        }
    }

    /// Current tips: the nodes with no children, each once.
    pub fn get_tips(&self) -> (r: Vec<u128>)
        requires
            self.wf(),
        ensures
            r@.no_duplicates(),
            forall|q: u128| r@.contains(q) <==> is_tip(self.spec_nodes(), q),
    {
        let c = self.tips.clone();
        assert(c@ =~= self.tips@);
        c
    }

    /// Node, tip and genesis counts.
    pub fn get_stats(&self) -> (s: DAGStats)
        requires
            self.wf(),
        ensures
            s.node_count == self.spec_nodes().len(),
            s.tip_count == self.spec_tips().len(),
            s.genesis_count == genesis_count(self.spec_nodes()),
    {
        let mut g: usize = 0;
        let mut i: usize = 0;
        while i < self.nodes.len()
            invariant
                i <= self.nodes@.len(),
                g == genesis_count(self.spec_nodes().subrange(0, i as int)),
                g <= i,
            decreases self.nodes@.len() - i,
        {
            assert(self.spec_nodes().subrange(0, i + 1).drop_last() =~= self.spec_nodes().subrange(0, i as int));
            if self.nodes[i].is_genesis() {
                g = g + 1;
            }
            i = i + 1;
        }
        assert(self.spec_nodes().subrange(0, self.nodes@.len() as int) =~= self.spec_nodes());
        DAGStats { node_count: self.nodes.len(), tip_count: self.tips.len(), genesis_count: g }
    }
}

/// The node stored under `id`.
pub open spec fn parents_node(ns: Seq<DAGNodeView>, id: u128) -> DAGNodeView {
    ns[choose|i: int| 0 <= i < ns.len() && ns[i].id == id]
}

proof fn lemma_choose_unique(ns: Seq<DAGNodeView>, id: u128, i: int)
    requires
        unique_ids(ns),
        0 <= i < ns.len(),
        ns[i].id == id,
    ensures
        (choose|j: int| 0 <= j < ns.len() && ns[j].id == id) == i,
        has_id(ns, id),
        parents_node(ns, id) == ns[i],
        parents_in(ns, id) == ns[i].parents,
{
    let j = choose|j: int| 0 <= j < ns.len() && ns[j].id == id;
    assert(0 <= j < ns.len() && ns[j].id == id);
}


/// Membership test on a vector of identifiers.
pub fn vec_contains(v: &Vec<u128>, x: u128) -> (b: bool)
    ensures
        b == v@.contains(x),
{
    let mut i: usize = 0;
    while i < v.len()
        invariant
            i <= v@.len(),
            forall|j: int| 0 <= j < i ==> v@[j] != x,
        decreases v@.len() - i,
    {
        if v[i] == x {
            return true;
        }
        i = i + 1;
    }
    false
}

/// Removes `x` from a duplicate-free vector, if present.
pub fn vec_remove_value(v: &mut Vec<u128>, x: u128)
    requires
        old(v)@.no_duplicates(),
    ensures
        final(v)@.no_duplicates(),
        forall|y: u128| #[trigger] final(v)@.contains(y) <==> (old(v)@.contains(y) && y != x),
{
    let ghost old_v = v@;
    let mut i: usize = 0;
    while i < v.len()
        invariant
            v@ == old_v,
            old_v == old(v)@,
            old_v.no_duplicates(),
            i <= v@.len(),
            forall|j: int| 0 <= j < i ==> v@[j] != x,
        decreases v@.len() - i,
    {
        if v[i] == x {
            let ghost before = v@;
            v.remove(i);
            assert(v@ =~= before.subrange(0, i as int) + before.subrange(i + 1, before.len() as int));
            assert forall|k: int| 0 <= k < v@.len() implies #[trigger] v@[k] == (if k < i {
                old_v[k]
            } else {
                old_v[k + 1]
            }) by {
                if k < i {
                    assert(v@[k] == before.subrange(0, i as int)[k]);
                } else {
                    assert(v@[k] == before.subrange(i + 1, before.len() as int)[k - i]);
                }
            }
            assert forall|y: u128| #[trigger] v@.contains(y) <==> (old_v.contains(y) && y != x) by {
                if v@.contains(y) {
                    let k = choose|k: int| 0 <= k < v@.len() && v@[k] == y;
                    if k < i {
                        assert(old_v[k] == y);
                    } else {
                        assert(old_v[k + 1] == y);
                    }
                }
                if old_v.contains(y) && y != x {
                    let k = choose|k: int| 0 <= k < old_v.len() && old_v[k] == y;
                    if k < i {
                        assert(v@[k] == y);
                    } else {
                        assert(k != i);
                        assert(v@[k - 1] == y);
                    }
                }
            }
            assert(v@.no_duplicates()) by {
                assert forall|a: int, b: int| 0 <= a < v@.len() && 0 <= b < v@.len() && a != b implies v@[a]
                    != v@[b] by {
                    let a2 = if a < i { a } else { a + 1 };
                    let b2 = if b < i { b } else { b + 1 };
                    assert(v@[a] == old_v[a2]);
                    assert(v@[b] == old_v[b2]);
                }
            }
            return;
        }
        i = i + 1;
    }
}

impl DAGNetwork {
    /// Adds a node after validating it: its parents gain it as a child,
    /// it records its parents, the parents stop being tips and the node
    /// becomes one.  A node that fails validation leaves the DAG unchanged.
    pub fn add_node(&mut self, node: DAGNode) -> (r: Result<(), QuDAGError>)
        requires
            old(self).wf(),
        ensures
            final(self).wf(),
            r is Ok <==> spec_validates(
                DEFAULT_MAX_PARENTS as int,
                DEFAULT_MIN_TIMESTAMP_DIFF as int,
                old(self).spec_nodes(),
                node@,
            ),
            r is Ok ==> final(self).spec_nodes() == old(self).spec_nodes().push(node@),
            r is Err ==> final(self).spec_nodes() == old(self).spec_nodes(),
            r matches Err(e) ==> e is ValidationError,
    {
        broadcast use vstd::std_specs::hash::group_hash_axioms;
        let check = self.validator.validate_node(&node, self);
        match check {
            Err(e) => {
                return Err(e);
            },
            Ok(()) => {},
        }
        let node_id = node.id;
        let parents = node.parents.clone();
        assert(parents@ =~= node.parents@);
        let ghost ns = self.spec_nodes();
        let ghost nv = node@;
        let ghost old_edges = self.edges@;
        let ghost old_rev = self.reverse_edges@;
        let ghost old_tips = self.tips@;
        proof {
            lemma_new_id_not_parent(ns, nv);
        }
        self.nodes.push(node);
        assert(self.spec_nodes() =~= ns.push(nv));
        let mut i: usize = 0;
        while i < parents.len()
            invariant
                self.spec_nodes() == ns.push(nv),
                parents@ == nv.parents,
                node_id == nv.id,
                i <= parents@.len(),
                !has_id(ns, node_id),
                forall|q: u128| #[trigger] old_edges.contains_key(q) <==> children_in(ns, q).len() > 0,
                forall|q: u128| #[trigger] old_edges.contains_key(q) ==> old_edges[q]@ == children_in(ns, q),
                forall|q: u128| !(#[trigger] old_rev.contains_key(q)) || has_id(ns, q),
                forall|q: u128|
                    (#[trigger] self.edges@.contains_key(q)) <==> (children_in(ns, q) + occurrences(
                        parents@.subrange(0, i as int),
                        q,
                        node_id,
                    )).len() > 0,
                forall|q: u128|
                    #[trigger] self.edges@.contains_key(q) ==> self.edges@[q]@ == children_in(ns, q)
                        + occurrences(parents@.subrange(0, i as int), q, node_id),
                forall|q: u128| q != node_id ==> (#[trigger] self.reverse_edges@.contains_key(q) <==> old_rev.contains_key(q)),
                forall|q: u128| q != node_id && #[trigger] self.reverse_edges@.contains_key(q) ==> self.reverse_edges@[q] == old_rev[q],
                self.reverse_edges@.contains_key(node_id) <==> i > 0,
                self.reverse_edges@.contains_key(node_id) ==> self.reverse_edges@[node_id]@ == parents@.subrange(0, i as int),
                self.tips@.no_duplicates(),
                forall|q: u128| #[trigger] self.tips@.contains(q) <==> (old_tips.contains(q) && !parents@.subrange(0, i as int).contains(q)),
                self.validator.max_parents == DEFAULT_MAX_PARENTS,
                self.validator.min_timestamp_diff == DEFAULT_MIN_TIMESTAMP_DIFF,
            decreases parents@.len() - i,
        {
            let p = parents[i];
            let ghost sub = parents@.subrange(0, i as int);
            let ghost sub2 = parents@.subrange(0, i + 1);
            proof {
                assert forall|q: u128| occurrences(sub2, q, node_id) == occurrences(sub, q, node_id) + if p == q {
                    seq![node_id]
                } else {
                    Seq::<u128>::empty()
                } by {
                    lemma_occurrences_step(parents@, i as int, q, node_id);
                }
            }
            let mut ch = match self.edges.remove(&p) {
                Some(v) => v,
                None => Vec::new(),
            };
            let ghost ch_before = ch@;
            ch.push(node_id);
            self.edges.insert(p, ch);
            let mut ps = match self.reverse_edges.remove(&node_id) {
                Some(v) => v,
                None => Vec::new(),
            };
            ps.push(p);
            self.reverse_edges.insert(node_id, ps);
            vec_remove_value(&mut self.tips, p);
            i = i + 1;
            proof {
                assert(sub2 =~= sub.push(p));
                assert forall|q: u128| #[trigger] self.tips@.contains(q) <==> (old_tips.contains(q)
                    && !parents@.subrange(0, i as int).contains(q)) by {
                    if sub2.contains(q) && q != p {
                        let k = choose|k: int| 0 <= k < sub2.len() && sub2[k] == q;
                        assert(sub[k] == q);
                    }
                    if sub.contains(q) {
                        let k = choose|k: int| 0 <= k < sub.len() && sub[k] == q;
                        assert(sub2[k] == q);
                    }
                    if q == p {
                        assert(sub2[i - 1] == q);
                    }
                }
                assert forall|q: u128| (#[trigger] self.edges@.contains_key(q)) <==> (children_in(ns, q)
                    + occurrences(parents@.subrange(0, i as int), q, node_id)).len() > 0 by {}
                assert forall|q: u128| #[trigger] self.edges@.contains_key(q) implies self.edges@[q]@ == children_in(ns, q)
                    + occurrences(parents@.subrange(0, i as int), q, node_id) by {
                    if q == p {
                        assert(self.edges@[q]@ =~= ch_before.push(node_id));
                        assert(children_in(ns, q) + occurrences(sub2, q, node_id) =~= (children_in(ns, q)
                            + occurrences(sub, q, node_id)).push(node_id));
                    }
                }
            }
        }
        assert(parents@.subrange(0, parents@.len() as int) =~= parents@);
        if !vec_contains(&self.tips, node_id) {
            let ghost before = self.tips@;
            self.tips.push(node_id);
            proof {
                assert forall|a: int, b: int| 0 <= a < self.tips@.len() && 0 <= b < self.tips@.len() && a != b
                    implies self.tips@[a] != self.tips@[b] by {
                    if a == before.len() {
                        assert(self.tips@[b] == before[b]);
                        assert(before[b] != node_id);
                    } else if b == before.len() {
                        assert(self.tips@[a] == before[a]);
                        assert(before[a] != node_id);
                    } else {
                        assert(self.tips@[a] == before[a] && self.tips@[b] == before[b]);
                    }
                }
                assert forall|q: u128| #[trigger] self.tips@.contains(q) <==> (before.contains(q) || q == node_id) by {
                    if self.tips@.contains(q) && q != node_id {
                        let k = choose|k: int| 0 <= k < self.tips@.len() && self.tips@[k] == q;
                        assert(before[k] == q);
                    }
                    if before.contains(q) {
                        let k = choose|k: int| 0 <= k < before.len() && before[k] == q;
                        assert(self.tips@[k] == q);
                    }
                    if q == node_id {
                        assert(self.tips@[before.len() as int] == q);
                    }
                }
            }
        }
        proof {
            lemma_add_node_wf(self, ns, nv, old_edges, old_rev, old_tips);
        }
        Ok(())
    }
}

/// A fresh identifier is nobody's parent yet.
proof fn lemma_new_id_not_parent(ns: Seq<DAGNodeView>, nv: DAGNodeView)
    requires
        parents_precede(ns),
        !has_id(ns, nv.id),
        forall|k: int| 0 <= k < nv.parents.len() ==> has_id(ns, #[trigger] nv.parents[k]),
    ensures
        children_in(ns, nv.id).len() == 0,
        !nv.parents.contains(nv.id),
{
    assert forall|j: int| 0 <= j < ns.len() implies !(#[trigger] ns[j].parents).contains(nv.id) by {
        if ns[j].parents.contains(nv.id) {
            let k = choose|k: int| 0 <= k < ns[j].parents.len() && ns[j].parents[k] == nv.id;
            assert(id_before(ns, ns[j].parents[k], j));
            let i = choose|i: int| 0 <= i < j && #[trigger] ns[i].id == ns[j].parents[k];
            assert(has_id(ns, nv.id));
        }
    }
    lemma_children_absent(ns, nv.id);
    if nv.parents.contains(nv.id) {
        let k = choose|k: int| 0 <= k < nv.parents.len() && nv.parents[k] == nv.id;
        assert(has_id(ns, nv.parents[k]));
    }
}

/// A node's checks against `ns` still hold once `nv` is appended, when
/// the node does not name `nv` as a parent.
proof fn lemma_checks_extend(ns: Seq<DAGNodeView>, nv: DAGNodeView, x: DAGNodeView)
    requires
        spec_node_checks(DEFAULT_MAX_PARENTS as int, DEFAULT_MIN_TIMESTAMP_DIFF as int, ns, x),
        forall|k: int| 0 <= k < x.parents.len() ==> x.parents[k] != nv.id,
    ensures
        spec_node_checks(DEFAULT_MAX_PARENTS as int, DEFAULT_MIN_TIMESTAMP_DIFF as int, ns.push(nv), x),
{
    let ns2 = ns.push(nv);
    assert forall|k: int| 0 <= k < x.parents.len() implies has_id(ns2, #[trigger] x.parents[k]) by {
        let i = choose|i: int| 0 <= i < ns.len() && #[trigger] ns[i].id == x.parents[k];
        assert(ns2[i] == ns[i]);
    }
    assert forall|k: int, i: int|
        0 <= k < x.parents.len() && 0 <= i < ns2.len() && #[trigger] ns2[i].id == #[trigger] x.parents[k]
            implies x.timestamp >= ns2[i].timestamp + DEFAULT_MIN_TIMESTAMP_DIFF by {
        assert(i != ns.len());
        assert(ns2[i] == ns[i]);
    }
}

proof fn lemma_add_node_wf(
    dag: &DAGNetwork,
    ns: Seq<DAGNodeView>,
    nv: DAGNodeView,
    old_edges: Map<u128, Vec<u128>>,
    old_rev: Map<u128, Vec<u128>>,
    old_tips: Seq<u128>,
)
    requires
        dag.spec_nodes() == ns.push(nv),
        unique_ids(ns),
        parents_precede(ns),
        forall|i: int| 0 <= i < ns.len() ==> (#[trigger] ns[i]).hash == spec_node_hash(ns[i]),
        forall|i: int|
            0 <= i < ns.len() ==> spec_node_checks(
                DEFAULT_MAX_PARENTS as int,
                DEFAULT_MIN_TIMESTAMP_DIFF as int,
                ns,
                #[trigger] ns[i],
            ),
        forall|q: u128| (#[trigger] old_rev.contains_key(q)) <==> parents_in(ns, q).len() > 0,
        forall|q: u128| #[trigger] old_rev.contains_key(q) ==> old_rev[q]@ == parents_in(ns, q),
        forall|q: u128| (#[trigger] old_tips.contains(q)) <==> is_tip(ns, q),
        spec_validates(DEFAULT_MAX_PARENTS as int, DEFAULT_MIN_TIMESTAMP_DIFF as int, ns, nv),
        children_in(ns, nv.id).len() == 0,
        !nv.parents.contains(nv.id),
        forall|q: u128|
            (#[trigger] dag.edges@.contains_key(q)) <==> (children_in(ns, q) + occurrences(nv.parents, q, nv.id)).len() > 0,
        forall|q: u128|
            #[trigger] dag.edges@.contains_key(q) ==> dag.edges@[q]@ == children_in(ns, q) + occurrences(nv.parents, q, nv.id),
        forall|q: u128| q != nv.id ==> (#[trigger] dag.reverse_edges@.contains_key(q) <==> old_rev.contains_key(q)),
        forall|q: u128| q != nv.id && #[trigger] dag.reverse_edges@.contains_key(q) ==> dag.reverse_edges@[q] == old_rev[q],
        dag.reverse_edges@.contains_key(nv.id) <==> nv.parents.len() > 0,
        dag.reverse_edges@.contains_key(nv.id) ==> dag.reverse_edges@[nv.id]@ == nv.parents,
        dag.tips@.no_duplicates(),
        forall|q: u128| #[trigger] dag.tips@.contains(q) <==> ((old_tips.contains(q) && !nv.parents.contains(q)) || q == nv.id),
        dag.validator.max_parents == DEFAULT_MAX_PARENTS,
        dag.validator.min_timestamp_diff == DEFAULT_MIN_TIMESTAMP_DIFF,
    ensures
        dag.wf(),
{
    let ns2 = ns.push(nv);
    let n = ns.len() as int;
    assert(ns2[n] == nv);
    assert forall|i: int| 0 <= i < n implies #[trigger] ns2[i] == ns[i] by {}
    assert(unique_ids(ns2)) by {
        assert forall|i: int, j: int| 0 <= i < ns2.len() && 0 <= j < ns2.len() && i != j implies ns2[i].id != ns2[j].id by {
            if i == n {
                assert(ns2[j] == ns[j]);
            } else if j == n {
                assert(ns2[i] == ns[i]);
            } else {
                assert(ns2[i] == ns[i] && ns2[j] == ns[j]);
            }
        }
    }
    assert(parents_precede(ns2)) by {
        assert forall|j: int, k: int| 0 <= j < ns2.len() && 0 <= k < ns2[j].parents.len() implies id_before(
            ns2,
            #[trigger] ns2[j].parents[k],
            j,
        ) by {
            if j == n {
                assert(has_id(ns, nv.parents[k]));
                let i = choose|i: int| 0 <= i < ns.len() && #[trigger] ns[i].id == nv.parents[k];
                assert(ns2[i].id == nv.parents[k]);
            } else {
                assert(ns2[j] == ns[j]);
                assert(id_before(ns, ns[j].parents[k], j));
                let i = choose|i: int| 0 <= i < j && #[trigger] ns[i].id == ns[j].parents[k];
                assert(ns2[i].id == ns2[j].parents[k]);
            }
        }
    }
    assert forall|i: int| 0 <= i < ns2.len() implies (#[trigger] ns2[i]).hash == spec_node_hash(ns2[i]) by {
        if i < n {
            assert(ns2[i] == ns[i]);
        }
    }
    assert forall|i: int| 0 <= i < ns2.len() implies spec_node_checks(
        DEFAULT_MAX_PARENTS as int,
        DEFAULT_MIN_TIMESTAMP_DIFF as int,
        ns2,
        #[trigger] ns2[i],
    ) by {
        if i < n {
            assert(ns2[i] == ns[i]);
            assert forall|k: int| 0 <= k < ns[i].parents.len() implies ns[i].parents[k] != nv.id by {
                assert(has_id(ns, ns[i].parents[k]));
            }
            lemma_checks_extend(ns, nv, ns[i]);
        } else {
            assert forall|k: int| 0 <= k < nv.parents.len() implies nv.parents[k] != nv.id by {
                assert(nv.parents.contains(nv.parents[k]));
            }
            lemma_checks_extend(ns, nv, nv);
        }
    }
    assert forall|q: u128| children_in(ns2, q) == children_in(ns, q) + occurrences(nv.parents, q, nv.id) by {
        lemma_children_push(ns, nv, q);
    }
    // parents index
    assert forall|q: u128| q != nv.id implies parents_in(ns2, q) == parents_in(ns, q) by {
        if has_id(ns, q) {
            let i = choose|i: int| 0 <= i < ns.len() && #[trigger] ns[i].id == q;
            lemma_choose_unique(ns, q, i);
            assert(ns2[i].id == q);
            lemma_choose_unique(ns2, q, i);
        } else {
            if has_id(ns2, q) {
                let i = choose|i: int| 0 <= i < ns2.len() && #[trigger] ns2[i].id == q;
                assert(i != n);
                assert(ns[i].id == q);
            }
        }
    }
    lemma_choose_unique(ns2, nv.id, n);
    assert forall|q: u128| (#[trigger] dag.reverse_edges@.contains_key(q)) <==> parents_in(ns2, q).len() > 0 by {}
    assert forall|q: u128| #[trigger] dag.reverse_edges@.contains_key(q) implies dag.reverse_edges@[q]@ == parents_in(ns2, q) by {}
    // tips
    assert forall|q: u128| (#[trigger] dag.tips@.contains(q)) <==> is_tip(ns2, q) by {
        lemma_occurrences_empty(nv.parents, q, nv.id);
        if q == nv.id {
            assert(has_id(ns2, q));
        } else {
            if has_id(ns2, q) {
                let i = choose|i: int| 0 <= i < ns2.len() && #[trigger] ns2[i].id == q;
                assert(ns[i].id == q);
            }
            if has_id(ns, q) {
                let i = choose|i: int| 0 <= i < ns.len() && #[trigger] ns[i].id == q;
                assert(ns2[i].id == q);
            }
        }
    }
}


// ---------------------------------------------------------------------
// Topological order (Kahn's algorithm)
// ---------------------------------------------------------------------

/// Number of occurrences of `x` in `s`.
pub open spec fn count_val(s: Seq<u128>, x: u128) -> nat
    decreases s.len(),
{
    if s.len() == 0 {
        0
    } else {
        count_val(s.drop_last(), x) + if s.last() == x {
            1nat
        } else {
            0nat
        }
    }
}

/// Number of entries of `ps` not yet in `done`.
pub open spec fn unprocessed(ps: Seq<u128>, done: Seq<u128>) -> nat
    decreases ps.len(),
{
    if ps.len() == 0 {
        0
    } else {
        unprocessed(ps.drop_last(), done) + if done.contains(ps.last()) {
            0nat
        } else {
            1nat
        }
    }
}

/// `order` lists every node exactly once, each after all of its parents.
pub open spec fn is_topological_order(ns: Seq<DAGNodeView>, order: Seq<u128>) -> bool {
    &&& order.no_duplicates()
    &&& order.len() == ns.len()
    &&& forall|q: u128| order.contains(q) <==> has_id(ns, q)
    &&& forall|j: int, k: int|
        0 <= j < order.len() && 0 <= k < parents_in(ns, order[j]).len() ==> order.subrange(0, j).contains(
            #[trigger] parents_in(ns, order[j])[k],
        )
}

proof fn lemma_count_concat(a: Seq<u128>, b: Seq<u128>, x: u128)
    ensures
        count_val(a + b, x) == count_val(a, x) + count_val(b, x),
    decreases b.len(),
{
    if b.len() == 0 {
        assert(a + b =~= a);
    } else {
        lemma_count_concat(a, b.drop_last(), x);
        assert((a + b).drop_last() =~= a + b.drop_last());
    }
}

proof fn lemma_count_absent(s: Seq<u128>, x: u128)
    requires
        !s.contains(x),
    ensures
        count_val(s, x) == 0,
    decreases s.len(),
{
    if s.len() > 0 {
        assert(!s.drop_last().contains(x)) by {
            if s.drop_last().contains(x) {
                let k = choose|k: int| 0 <= k < s.drop_last().len() && s.drop_last()[k] == x;
                assert(s[k] == x);
            }
        }
        lemma_count_absent(s.drop_last(), x);
        assert(s.last() != x) by {
            if s.last() == x {
                assert(s[s.len() - 1] == x);
            }
        }
    }
}

proof fn lemma_count_occurrences(ps: Seq<u128>, u: u128, c: u128, x: u128)
    ensures
        count_val(occurrences(ps, u, c), x) == if x == c {
            count_val(ps, u)
        } else {
            0
        },
    decreases ps.len(),
{
    if ps.len() > 0 {
        lemma_count_occurrences(ps.drop_last(), u, c, x);
        let tail = if ps.last() == u {
            seq![c]
        } else {
            Seq::<u128>::empty()
        };
        lemma_count_concat(occurrences(ps.drop_last(), u, c), tail, x);
        if ps.last() == u {
            assert(tail.drop_last() =~= Seq::<u128>::empty());
            assert(count_val(tail.drop_last(), x) == 0);
            assert(tail.last() == c);
            assert(count_val(tail, x) == if c == x {
                1nat
            } else {
                0nat
            });
        } else {
            assert(count_val(tail, x) == 0);
        }
        assert(occurrences(ps, u, c) == occurrences(ps.drop_last(), u, c) + tail);
    }
}

/// Every child listed for `u` is a node of `ns`.
proof fn lemma_children_are_nodes(ns: Seq<DAGNodeView>, u: u128, x: u128)
    requires
        children_in(ns, u).contains(x),
    ensures
        has_id(ns, x),
    decreases ns.len(),
{
    let init = ns.drop_last();
    let occ = occurrences(ns.last().parents, u, ns.last().id);
    let k = choose|k: int| 0 <= k < children_in(ns, u).len() && children_in(ns, u)[k] == x;
    if k < children_in(init, u).len() {
        assert((children_in(init, u) + occ)[k] == children_in(init, u)[k]);
        lemma_children_are_nodes(init, u, x);
        let i = choose|i: int| 0 <= i < init.len() && #[trigger] init[i].id == x;
        assert(ns[i].id == x);
    } else {
        assert((children_in(init, u) + occ)[k] == occ[k - children_in(init, u).len()]);
        lemma_occurrences_all_child(ns.last().parents, u, ns.last().id);
        assert(ns[ns.len() - 1].id == x);
    }
}

/// A node is listed among `u`'s children once per time it names `u` as a parent.
proof fn lemma_count_children(ns: Seq<DAGNodeView>, u: u128, i: int)
    requires
        unique_ids(ns),
        0 <= i < ns.len(),
    ensures
        count_val(children_in(ns, u), ns[i].id) == count_val(ns[i].parents, u),
    decreases ns.len(),
{
    let init = ns.drop_last();
    let last = ns.last();
    let x = ns[i].id;
    lemma_count_concat(children_in(init, u), occurrences(last.parents, u, last.id), x);
    lemma_count_occurrences(last.parents, u, last.id, x);
    if i == ns.len() - 1 {
        assert(!children_in(init, u).contains(x)) by {
            if children_in(init, u).contains(x) {
                lemma_children_are_nodes(init, u, x);
                let j = choose|j: int| 0 <= j < init.len() && #[trigger] init[j].id == x;
                assert(ns[j].id == x);
            }
        }
        lemma_count_absent(children_in(init, u), x);
    } else {
        assert(unique_ids(init)) by {
            assert forall|a: int, b: int| 0 <= a < init.len() && 0 <= b < init.len() && a != b implies init[a].id
                != init[b].id by {
                assert(init[a] == ns[a] && init[b] == ns[b]);
            }
        }
        assert(init[i] == ns[i]);
        lemma_count_children(init, u, i);
        assert(last.id != x);
    }
}

proof fn lemma_unprocessed_push(ps: Seq<u128>, done: Seq<u128>, u: u128)
    requires
        !done.contains(u),
    ensures
        unprocessed(ps, done) == unprocessed(ps, done.push(u)) + count_val(ps, u),
    decreases ps.len(),
{
    if ps.len() > 0 {
        lemma_unprocessed_push(ps.drop_last(), done, u);
        let y = ps.last();
        if done.push(u).contains(y) && y != u {
            let k = choose|k: int| 0 <= k < done.push(u).len() && done.push(u)[k] == y;
            assert(done[k] == y);
        }
        if done.contains(y) {
            let k = choose|k: int| 0 <= k < done.len() && done[k] == y;
            assert(done.push(u)[k] == y);
        }
        if y == u {
            assert(done.push(u)[done.len() as int] == u);
        }
    }
}

proof fn lemma_unprocessed_zero(ps: Seq<u128>, done: Seq<u128>)
    ensures
        (unprocessed(ps, done) == 0) <==> (forall|k: int| 0 <= k < ps.len() ==> done.contains(#[trigger] ps[k])),
    decreases ps.len(),
{
    if ps.len() > 0 {
        lemma_unprocessed_zero(ps.drop_last(), done);
        if unprocessed(ps, done) == 0 {
            assert forall|k: int| 0 <= k < ps.len() implies done.contains(#[trigger] ps[k]) by {
                if k < ps.len() - 1 {
                    assert(ps.drop_last()[k] == ps[k]);
                }
            }
        }
        if forall|k: int| 0 <= k < ps.len() ==> done.contains(#[trigger] ps[k]) {
            assert forall|k: int| 0 <= k < ps.drop_last().len() implies done.contains(#[trigger] ps.drop_last()[k]) by {
                assert(ps.drop_last()[k] == ps[k]);
            }
            assert(done.contains(ps[ps.len() - 1]));
        }
    }
}

proof fn lemma_count_prefix_step(s: Seq<u128>, t: int, x: u128)
    requires
        0 <= t < s.len(),
    ensures
        count_val(s.subrange(0, t + 1), x) == count_val(s.subrange(0, t), x) + if s[t] == x {
            1nat
        } else {
            0nat
        },
        count_val(s.subrange(0, t + 1), x) <= count_val(s, x),
{
    assert(s.subrange(0, t + 1).drop_last() =~= s.subrange(0, t));
    lemma_count_concat(s.subrange(0, t + 1), s.subrange(t + 1, s.len() as int), x);
    assert(s.subrange(0, t + 1) + s.subrange(t + 1, s.len() as int) =~= s);
}

/// A duplicate-free list drawn from the node identifiers has at most as
/// many entries as there are nodes, and exactly as many if it names them all.
proof fn lemma_ids_len(ns: Seq<DAGNodeView>, s: Seq<u128>)
    requires
        unique_ids(ns),
        s.no_duplicates(),
        forall|q: u128| s.contains(q) ==> has_id(ns, q),
    ensures
        s.len() <= ns.len(),
        (forall|q: u128| has_id(ns, q) ==> s.contains(q)) ==> s.len() == ns.len(),
{
    broadcast use vstd::seq_lib::seq_to_set_is_finite;
    let ids = ns.map_values(|n: DAGNodeView| n.id);
    assert(ids.no_duplicates()) by {
        assert forall|a: int, b: int| 0 <= a < ids.len() && 0 <= b < ids.len() && a != b implies ids[a] != ids[b] by {}
    }
    ids.unique_seq_to_set();
    s.unique_seq_to_set();
    assert forall|q: u128| s.to_set().contains(q) implies ids.to_set().contains(q) by {
        assert(s.contains(q));
        let i = choose|i: int| 0 <= i < ns.len() && #[trigger] ns[i].id == q;
        assert(ids[i] == q);
    }
    vstd::set_lib::lemma_len_subset(s.to_set(), ids.to_set());
    if forall|q: u128| has_id(ns, q) ==> s.contains(q) {
        assert forall|q: u128| ids.to_set().contains(q) implies s.to_set().contains(q) by {
            assert(ids.contains(q));
            let i = choose|i: int| 0 <= i < ids.len() && ids[i] == q;
            assert(ns[i].id == q);
        }
        vstd::set_lib::lemma_len_subset(ids.to_set(), s.to_set());
    }
}

impl DAGNetwork {
    /// Lists the nodes in topological order with Kahn's algorithm: nodes
    /// without parents first, then each node once all of its parents have
    /// been listed.  Because every parent is added before its children, the
    /// DAG has no cycle and the order always covers every node.
    #[verifier::rlimit(60)]
    pub fn get_topological_order(&self) -> (r: Result<Vec<u128>, QuDAGError>)
        requires
            self.wf(),
        ensures
            r matches Ok(order) && is_topological_order(self.spec_nodes(), order@),
    {
        broadcast use vstd::std_specs::hash::group_hash_axioms;
        let ghost ns = self.spec_nodes();
        let n = self.nodes.len();
        let mut in_degree: HashMap<u128, usize> = HashMap::new();
        let mut queue: std::collections::VecDeque<u128> = std::collections::VecDeque::new();
        let mut result: Vec<u128> = Vec::new();
        let mut i: usize = 0;
        while i < n
            invariant
                self.wf(),
                ns == self.spec_nodes(),
                n == ns.len(),
                i <= n,
                result@.len() == 0,
                forall|q: u128| #[trigger] in_degree@.contains_key(q) <==> id_before(ns, q, i as int),
                forall|j: int| 0 <= j < i ==> in_degree@[#[trigger] ns[j].id] == ns[j].parents.len(),
                queue@.no_duplicates(),
                forall|q: u128| #[trigger] queue@.contains(q) <==> (id_before(ns, q, i as int) && in_degree@[q] == 0),
            decreases n - i,
        {
            let node_id = self.nodes[i].id;
            let parents = self.get_parents(node_id);
            proof {
                lemma_choose_unique(ns, node_id, i as int);
            }
            let degree = parents.len();
            let ghost q_before = queue@;
            in_degree.insert(node_id, degree);
            if degree == 0 {
                queue.push_back(node_id);
            }
            proof {
                assert forall|q: u128| #[trigger] in_degree@.contains_key(q) <==> id_before(ns, q, i + 1) by {
                    if id_before(ns, q, i + 1) && q != node_id {
                        let j = choose|j: int| 0 <= j < i + 1 && #[trigger] ns[j].id == q;
                        assert(j != i);
                    }
                    if q == node_id {
                        assert(ns[i as int].id == q);
                    }
                }
                assert forall|j: int| 0 <= j < i + 1 implies in_degree@[#[trigger] ns[j].id] == ns[j].parents.len() by {
                    if j < i {
                        assert(ns[j].id != node_id);
                    }
                }
                assert(!id_before(ns, node_id, i as int)) by {
                    if id_before(ns, node_id, i as int) {
                        let j = choose|j: int| 0 <= j < i && #[trigger] ns[j].id == node_id;
                    }
                }
                assert(!q_before.contains(node_id));
                assert forall|q: u128| #[trigger] queue@.contains(q) <==> (id_before(ns, q, i + 1) && in_degree@[q] == 0) by {
                    if q != node_id {
                        if id_before(ns, q, i + 1) {
                            let j = choose|j: int| 0 <= j < i + 1 && #[trigger] ns[j].id == q;
                            assert(j != i);
                        }
                        if degree == 0 {
                            if queue@.contains(q) {
                                let k = choose|k: int| 0 <= k < queue@.len() && queue@[k] == q;
                                assert(k < q_before.len());
                                assert(q_before[k] == q);
                            }
                            if q_before.contains(q) {
                                let k = choose|k: int| 0 <= k < q_before.len() && q_before[k] == q;
                                assert(queue@[k] == q);
                            }
                        }
                    } else {
                        assert(ns[i as int].id == q);
                        if degree == 0 {
                            assert(queue@[q_before.len() as int] == q);
                        } else {
                            assert(in_degree@[q] != 0);
                        }
                    }
                }
                if degree == 0 {
                    assert(queue@.no_duplicates()) by {
                        assert forall|a: int, b: int| 0 <= a < queue@.len() && 0 <= b < queue@.len() && a != b implies queue@[a]
                            != queue@[b] by {
                            if a == q_before.len() {
                                assert(queue@[b] == q_before[b]);
                            } else if b == q_before.len() {
                                assert(queue@[a] == q_before[a]);
                            } else {
                                assert(queue@[a] == q_before[a] && queue@[b] == q_before[b]);
                            }
                        }
                    }
                }
            }
            i = i + 1;
        }
        proof {
            assert forall|q: u128| id_before(ns, q, n as int) <==> has_id(ns, q) by {}
            assert forall|j: int, q: u128| 0 <= j < n && ns[j].id == q implies in_degree@[q]
                == unprocessed(parents_in(ns, q), result@) by {
                lemma_choose_unique(ns, q, j);
                lemma_unprocessed_all(ns[j].parents, result@);
                assert(in_degree@[ns[j].id] == ns[j].parents.len());
            }
            assert forall|q: u128| #[trigger] queue@.contains(q) implies forall|k: int| 0 <= k < parents_in(ns, q).len() ==> result@.contains(
                #[trigger] parents_in(ns, q)[k],
            ) by {
                let j = choose|j: int| 0 <= j < n && #[trigger] ns[j].id == q;
                lemma_choose_unique(ns, q, j);
            }
            assert(result@ + queue@ =~= queue@);
        }
        loop
            invariant
                self.wf(),
                ns == self.spec_nodes(),
                n == ns.len(),
                forall|q: u128| #[trigger] in_degree@.contains_key(q) <==> has_id(ns, q),
                forall|q: u128| has_id(ns, q) ==> #[trigger] in_degree@[q] == unprocessed(parents_in(ns, q), result@),
                (result@ + queue@).no_duplicates(),
                forall|q: u128| #[trigger] (result@ + queue@).contains(q) ==> has_id(ns, q),
                forall|q: u128| has_id(ns, q) ==> (in_degree@[q] == 0 <==> #[trigger] (result@ + queue@).contains(q)),
                forall|q: u128| #[trigger] queue@.contains(q) ==> forall|k: int| 0 <= k < parents_in(ns, q).len() ==> result@.contains(
                    #[trigger] parents_in(ns, q)[k],
                ),
                forall|j: int, k: int|
                    0 <= j < result@.len() && 0 <= k < parents_in(ns, result@[j]).len() ==> result@.subrange(0, j).contains(
                        #[trigger] parents_in(ns, result@[j])[k],
                    ),
            ensures
                queue@.len() == 0,
                forall|q: u128| #[trigger] in_degree@.contains_key(q) <==> has_id(ns, q),
                forall|q: u128| has_id(ns, q) ==> #[trigger] in_degree@[q] == unprocessed(parents_in(ns, q), result@),
                result@.no_duplicates(),
                forall|q: u128| #[trigger] result@.contains(q) ==> has_id(ns, q),
                forall|q: u128| has_id(ns, q) ==> (in_degree@[q] == 0 <==> #[trigger] result@.contains(q)),
                forall|j: int, k: int|
                    0 <= j < result@.len() && 0 <= k < parents_in(ns, result@[j]).len() ==> result@.subrange(0, j).contains(
                        #[trigger] parents_in(ns, result@[j])[k],
                    ),
            decreases n - result@.len(),
        {
            let ghost res_before = result@;
            let ghost q_before = queue@;
            proof {
                lemma_ids_len(ns, result@ + queue@);
            }
            let popped = queue.pop_front();
            let node_id = match popped {
                Some(u) => u,
                None => {
                    proof {
                        assert(result@ + queue@ =~= result@);
                    }
                    break;
                },
            };
            result.push(node_id);
            let ghost done_old = res_before;
            proof {
                assert(q_before[0] == node_id);
                assert((res_before + q_before)[res_before.len() as int] == node_id);
                assert((res_before + q_before).contains(node_id));
                assert(!res_before.contains(node_id)) by {
                    if res_before.contains(node_id) {
                        let k = choose|k: int| 0 <= k < res_before.len() && res_before[k] == node_id;
                        assert((res_before + q_before)[k] == node_id);
                    }
                }
                assert(result@ + queue@ =~= res_before + q_before);
                // the popped node's parents are all already listed
                assert(has_id(ns, node_id));
                assert(q_before.contains(node_id));
                assert forall|q: u128| #[trigger] queue@.contains(q) implies forall|k: int| 0 <= k < parents_in(ns, q).len() ==> result@.contains(
                    #[trigger] parents_in(ns, q)[k],
                ) by {
                    let k0 = choose|k0: int| 0 <= k0 < queue@.len() && queue@[k0] == q;
                    assert(q_before[k0 + 1] == q);
                    assert(q_before.contains(q));
                    assert forall|k: int| 0 <= k < parents_in(ns, q).len() implies result@.contains(
                        #[trigger] parents_in(ns, q)[k],
                    ) by {
                        assert(res_before.contains(parents_in(ns, q)[k]));
                        let m = choose|m: int| 0 <= m < res_before.len() && res_before[m] == parents_in(ns, q)[k];
                        assert(result@[m] == parents_in(ns, q)[k]);
                    }
                }
                assert forall|j: int, k: int|
                    0 <= j < result@.len() && 0 <= k < parents_in(ns, result@[j]).len() implies result@.subrange(0, j).contains(
                        #[trigger] parents_in(ns, result@[j])[k],
                    ) by {
                    if j < res_before.len() {
                        assert(result@.subrange(0, j) =~= res_before.subrange(0, j));
                    } else {
                        assert(result@.subrange(0, j) =~= res_before);
                    }
                }
            }
            let children = self.get_children(node_id);
            let ghost kids = children@;
            proof {
                assert forall|q: u128| has_id(ns, q) implies #[trigger] in_degree@[q] + count_val(kids.subrange(0, 0), q)
                    == unprocessed(parents_in(ns, q), done_old) by {
                    assert(kids.subrange(0, 0) =~= Seq::<u128>::empty());
                }
            }
            let mut t: usize = 0;
            while t < children.len()
                invariant
                    self.wf(),
                    ns == self.spec_nodes(),
                    n == ns.len(),
                    kids == children@,
                    kids == children_in(ns, node_id),
                    t <= kids.len(),
                    result@ == done_old.push(node_id),
                    !done_old.contains(node_id),
                    has_id(ns, node_id),
                    forall|q: u128| #[trigger] in_degree@.contains_key(q) <==> has_id(ns, q),
                    forall|q: u128| has_id(ns, q) ==> #[trigger] in_degree@[q] + count_val(kids.subrange(0, t as int), q)
                        == unprocessed(parents_in(ns, q), done_old),
                    (result@ + queue@).no_duplicates(),
                    forall|q: u128| #[trigger] (result@ + queue@).contains(q) ==> has_id(ns, q),
                    forall|q: u128| has_id(ns, q) ==> (in_degree@[q] == 0 <==> #[trigger] (result@ + queue@).contains(q)),
                    forall|q: u128| #[trigger] queue@.contains(q) ==> forall|k: int| 0 <= k < parents_in(ns, q).len() ==> result@.contains(
                        #[trigger] parents_in(ns, q)[k],
                    ),
                    forall|j: int, k: int|
                        0 <= j < result@.len() && 0 <= k < parents_in(ns, result@[j]).len() ==> result@.subrange(0, j).contains(
                            #[trigger] parents_in(ns, result@[j])[k],
                        ),
                decreases kids.len() - t,
            {
                let child_id = children[t];
                proof {
                    assert(kids.contains(child_id)) by {
                        assert(kids[t as int] == child_id);
                    }
                    lemma_children_are_nodes(ns, node_id, child_id);
                    let ci = choose|ci: int| 0 <= ci < ns.len() && #[trigger] ns[ci].id == child_id;
                    lemma_choose_unique(ns, child_id, ci);
                    lemma_count_children(ns, node_id, ci);
                    lemma_count_prefix_step(kids, t as int, child_id);
                    lemma_unprocessed_push(parents_in(ns, child_id), done_old, node_id);
                }
                let d = match in_degree.get(&child_id) {
                    Some(d) => *d,
                    None => 0,
                };
                let ghost res_q_before = result@ + queue@;
                let ghost queue_before = queue@;
                let ghost deg_before = in_degree@;
                in_degree.insert(child_id, d - 1);
                if d - 1 == 0 {
                    queue.push_back(child_id);
                }
                t = t + 1;
                proof {
                    assert forall|q: u128| has_id(ns, q) implies #[trigger] in_degree@[q] + count_val(kids.subrange(0, t as int), q)
                        == unprocessed(parents_in(ns, q), done_old) by {
                        lemma_count_prefix_step(kids, t - 1, q);
                    }
                    assert(!res_q_before.contains(child_id));
                    if d - 1 == 0 {
                        assert(result@ + queue@ =~= res_q_before.push(child_id));
                        assert((result@ + queue@).no_duplicates()) by {
                            assert forall|a: int, b: int| 0 <= a < (result@ + queue@).len() && 0 <= b < (result@ + queue@).len()
                                && a != b implies (result@ + queue@)[a] != (result@ + queue@)[b] by {
                                if a == res_q_before.len() {
                                    assert((result@ + queue@)[b] == res_q_before[b]);
                                } else if b == res_q_before.len() {
                                    assert((result@ + queue@)[a] == res_q_before[a]);
                                } else {
                                    assert((result@ + queue@)[a] == res_q_before[a]);
                                    assert((result@ + queue@)[b] == res_q_before[b]);
                                }
                            }
                        }
                        lemma_unprocessed_zero(parents_in(ns, child_id), result@);
                        assert forall|q: u128| #[trigger] (result@ + queue@).contains(q) <==> (res_q_before.contains(q) || q == child_id) by {
                            if (result@ + queue@).contains(q) && q != child_id {
                                let k = choose|k: int| 0 <= k < (result@ + queue@).len() && (result@ + queue@)[k] == q;
                                assert(res_q_before[k] == q);
                            }
                            if res_q_before.contains(q) {
                                let k = choose|k: int| 0 <= k < res_q_before.len() && res_q_before[k] == q;
                                assert((result@ + queue@)[k] == q);
                            }
                            if q == child_id {
                                assert((result@ + queue@)[res_q_before.len() as int] == q);
                            }
                        }
                        assert forall|q: u128| #[trigger] queue@.contains(q) implies forall|k: int| 0 <= k < parents_in(ns, q).len() ==> result@.contains(
                            #[trigger] parents_in(ns, q)[k],
                        ) by {
                            if q != child_id {
                                let k = choose|k: int| 0 <= k < queue@.len() && queue@[k] == q;
                                assert(queue_before[k] == q);
                                assert(queue_before.contains(q));
                            } else {
                                assert(in_degree@[child_id] == 0);
                                assert(unprocessed(parents_in(ns, child_id), result@) == 0);
                            }
                        }
                    } else {
                        assert(result@ + queue@ == res_q_before);
                    }
                }
            }
            proof {
                assert(kids.subrange(0, kids.len() as int) =~= kids);
                assert forall|q: u128| has_id(ns, q) implies #[trigger] in_degree@[q] == unprocessed(parents_in(ns, q), result@) by {
                    let ci = choose|ci: int| 0 <= ci < ns.len() && #[trigger] ns[ci].id == q;
                    lemma_choose_unique(ns, q, ci);
                    lemma_count_children(ns, node_id, ci);
                    lemma_unprocessed_push(parents_in(ns, q), done_old, node_id);
                }
            }
        }
        proof {
            // every node has been listed: induction over insertion order
            assert forall|j: int| 0 <= j < n implies result@.contains(#[trigger] ns[j].id) by {
                lemma_all_listed(ns, result@, in_degree@, j);
            }
            lemma_ids_len(ns, result@);
            assert forall|q: u128| has_id(ns, q) implies result@.contains(q) by {
                let j = choose|j: int| 0 <= j < ns.len() && #[trigger] ns[j].id == q;
                assert(result@.contains(ns[j].id));
            }
        }
        if result.len() != n {
            return Err(QuDAGError::ValidationError(text("DAG contains cycles")));
        }
        Ok(result)
    }

    /// The DAG is valid when a topological order exists; for a DAG built
    /// by `add_node` it always does.
    pub fn is_valid(&self) -> (b: bool)
        requires
            self.wf(),
        ensures
            b,
    {
        self.get_topological_order().is_ok()
    }
}

proof fn lemma_unprocessed_all(ps: Seq<u128>, done: Seq<u128>)
    requires
        done.len() == 0,
    ensures
        unprocessed(ps, done) == ps.len(),
    decreases ps.len(),
{
    if ps.len() > 0 {
        lemma_unprocessed_all(ps.drop_last(), done);
    }
}

/// Once no node with every parent listed is left unlisted, every node is listed.
proof fn lemma_all_listed(ns: Seq<DAGNodeView>, result: Seq<u128>, deg: Map<u128, usize>, j: int)
    requires
        unique_ids(ns),
        parents_precede(ns),
        0 <= j < ns.len(),
        forall|q: u128| has_id(ns, q) ==> #[trigger] deg[q] == unprocessed(parents_in(ns, q), result),
        forall|q: u128| has_id(ns, q) ==> (deg[q] == 0 <==> #[trigger] result.contains(q)),
    ensures
        result.contains(ns[j].id),
    decreases j,
{
    let q = ns[j].id;
    lemma_choose_unique(ns, q, j);
    assert forall|k: int| 0 <= k < ns[j].parents.len() implies result.contains(#[trigger] ns[j].parents[k]) by {
        assert(id_before(ns, ns[j].parents[k], j));
        let i = choose|i: int| 0 <= i < j && #[trigger] ns[i].id == ns[j].parents[k];
        lemma_all_listed(ns, result, deg, i);
    }
    lemma_unprocessed_zero(ns[j].parents, result);
}


impl DAGValidation {
    /// Validates the whole DAG: it must be acyclic and every stored node
    /// must pass the node checks (hash, parent count, parents present,
    /// timestamps) against the DAG.  Every DAG built by `add_node` passes.
    pub fn validate_dag(&self, dag: &DAGNetwork) -> (r: Result<(), QuDAGError>)
        requires
            dag.wf(),
        ensures
            r is Ok,
            forall|i: int|
                0 <= i < dag.spec_nodes().len() ==> spec_node_checks(
                    self.spec_max_parents(),
                    self.spec_min_diff(),
                    dag.spec_nodes(),
                    #[trigger] dag.spec_nodes()[i],
                ),
    {
        proof {
            use_type_invariant(self);
        }
        if !dag.is_valid() {
            return Err(QuDAGError::validation("DAG contains cycles"));
        }
        let nodes = dag.get_all_nodes();
        let ghost ns = dag.spec_nodes();
        let mut i: usize = 0;
        while i < nodes.len()
            invariant
                dag.wf(),
                ns == dag.spec_nodes(),
                view_nodes(nodes@) == ns,
                i <= nodes@.len(),
                self.spec_max_parents() == DEFAULT_MAX_PARENTS,
                self.spec_min_diff() == DEFAULT_MIN_TIMESTAMP_DIFF,
            decreases nodes@.len() - i,
        {
            assert(nodes@[i as int]@ == ns[i as int]);
            let r = self.check_node(&nodes[i], dag);
            if r.is_err() {
                return r;
            }
            i = i + 1;
        }
        Ok(())
    }
}


// ---------------------------------------------------------------------
// Ancestors and descendants
// ---------------------------------------------------------------------

/// One step along the graph: to the parents (`up`) or to the children.
pub open spec fn step(ns: Seq<DAGNodeView>, up: bool, x: u128) -> Seq<u128> {
    if up {
        parents_in(ns, x)
    } else {
        children_in(ns, x)
    }
}

/// `p` is a walk whose consecutive entries are linked by `step`.
pub open spec fn is_walk(ns: Seq<DAGNodeView>, up: bool, p: Seq<u128>) -> bool {
    &&& p.len() >= 1
    &&& forall|k: int| 0 <= k < p.len() - 1 ==> #[trigger] step(ns, up, p[k]).contains(p[k + 1])
}

/// `b` can be reached from `a` by following zero or more steps.
pub open spec fn reachable(ns: Seq<DAGNodeView>, up: bool, a: u128, b: u128) -> bool {
    exists|p: Seq<u128>| #[trigger] is_walk(ns, up, p) && p[0] == a && p.last() == b
}

/// The proper ancestors (`up`) or descendants of `id`.
pub open spec fn related(ns: Seq<DAGNodeView>, up: bool, id: u128, q: u128) -> bool {
    q != id && reachable(ns, up, id, q)
}

proof fn lemma_walk_extend(ns: Seq<DAGNodeView>, up: bool, a: u128, x: u128, y: u128)
    requires
        reachable(ns, up, a, x),
        step(ns, up, x).contains(y),
    ensures
        reachable(ns, up, a, y),
{
    let p = choose|p: Seq<u128>| #[trigger] is_walk(ns, up, p) && p[0] == a && p.last() == x;
    let p2 = p.push(y);
    assert forall|k: int| 0 <= k < p2.len() - 1 implies #[trigger] step(ns, up, p2[k]).contains(p2[k + 1]) by {
        if k < p.len() - 1 {
            assert(p2[k] == p[k] && p2[k + 1] == p[k + 1]);
        } else {
            assert(p2[k] == x && p2[k + 1] == y);
        }
    }
    assert(is_walk(ns, up, p2));
}

proof fn lemma_reach_self(ns: Seq<DAGNodeView>, up: bool, a: u128)
    ensures
        reachable(ns, up, a, a),
{
    let p = seq![a];
    assert(is_walk(ns, up, p));
}

/// A set containing `a` and closed under `step` holds everything reachable from `a`.
proof fn lemma_closed_contains_reachable(ns: Seq<DAGNodeView>, up: bool, a: u128, s: Set<u128>, b: u128)
    requires
        s.contains(a),
        forall|x: u128, y: u128| s.contains(x) && #[trigger] step(ns, up, x).contains(y) ==> s.contains(y),
        reachable(ns, up, a, b),
    ensures
        s.contains(b),
{
    let p = choose|p: Seq<u128>| #[trigger] is_walk(ns, up, p) && p[0] == a && p.last() == b;
    assert forall|k: int| 0 <= k < p.len() implies s.contains(#[trigger] p[k]) by {
        lemma_walk_prefix_in(ns, up, a, s, p, k);
    }
    assert(s.contains(p[p.len() - 1]));
}

proof fn lemma_walk_prefix_in(ns: Seq<DAGNodeView>, up: bool, a: u128, s: Set<u128>, p: Seq<u128>, k: int)
    requires
        s.contains(a),
        forall|x: u128, y: u128| s.contains(x) && #[trigger] step(ns, up, x).contains(y) ==> s.contains(y),
        is_walk(ns, up, p),
        p[0] == a,
        0 <= k < p.len(),
    ensures
        s.contains(p[k]),
    decreases k,
{
    if k > 0 {
        lemma_walk_prefix_in(ns, up, a, s, p, k - 1);
        assert(step(ns, up, p[k - 1]).contains(p[(k - 1) + 1]));
    }
}

/// Every identifier one step away from anything is a node.
proof fn lemma_step_nodes(ns: Seq<DAGNodeView>, up: bool, x: u128, y: u128)
    requires
        unique_ids(ns),
        parents_precede(ns),
        step(ns, up, x).contains(y),
    ensures
        has_id(ns, y),
{
    if up {
        let j = choose|j: int| 0 <= j < ns.len() && ns[j].id == x;
        lemma_choose_unique(ns, x, j);
        let k = choose|k: int| 0 <= k < ns[j].parents.len() && ns[j].parents[k] == y;
        assert(id_before(ns, ns[j].parents[k], j));
        let i = choose|i: int| 0 <= i < j && #[trigger] ns[i].id == ns[j].parents[k];
    } else {
        lemma_children_are_nodes(ns, x, y);
    }
}

/// `x` is listed among the children of `y` exactly when some node with
/// identifier `x` names `y` as a parent.
proof fn lemma_children_contains(ns: Seq<DAGNodeView>, y: u128, x: u128)
    ensures
        children_in(ns, y).contains(x) <==> exists|j: int|
            0 <= j < ns.len() && #[trigger] ns[j].id == x && ns[j].parents.contains(y),
    decreases ns.len(),
{
    if ns.len() > 0 {
        let init = ns.drop_last();
        let last = ns.last();
        let occ = occurrences(last.parents, y, last.id);
        let c0 = children_in(init, y);
        lemma_children_contains(init, y, x);
        lemma_occurrences_empty(last.parents, y, last.id);
        lemma_occurrences_all_child(last.parents, y, last.id);
        assert(children_in(ns, y) == c0 + occ);
        if children_in(ns, y).contains(x) {
            let k = choose|k: int| 0 <= k < children_in(ns, y).len() && children_in(ns, y)[k] == x;
            if k < c0.len() {
                assert((c0 + occ)[k] == c0[k]);
                let j = choose|j: int| 0 <= j < init.len() && #[trigger] init[j].id == x && init[j].parents.contains(y);
                assert(ns[j] == init[j]);
            } else {
                assert((c0 + occ)[k] == occ[k - c0.len()]);
                assert(ns[ns.len() - 1] == last);
            }
        }
        if exists|j: int| 0 <= j < ns.len() && #[trigger] ns[j].id == x && ns[j].parents.contains(y) {
            let j = choose|j: int| 0 <= j < ns.len() && #[trigger] ns[j].id == x && ns[j].parents.contains(y);
            if j < init.len() {
                assert(init[j] == ns[j]);
                let k = choose|k: int| 0 <= k < c0.len() && c0[k] == x;
                assert((c0 + occ)[k] == c0[k]);
            } else {
                assert(ns[j] == last);
                assert(occ.len() > 0);
                assert((c0 + occ)[c0.len() as int] == occ[0]);
            }
        }
    }
}

/// With distinct identifiers, `y` is a parent of `x` exactly when `x` is a
/// child of `y`.
proof fn lemma_step_dual(ns: Seq<DAGNodeView>, x: u128, y: u128)
    requires
        unique_ids(ns),
    ensures
        step(ns, true, x).contains(y) <==> step(ns, false, y).contains(x),
{
    lemma_children_contains(ns, y, x);
    if has_id(ns, x) {
        let i = choose|i: int| 0 <= i < ns.len() && #[trigger] ns[i].id == x;
        lemma_choose_unique(ns, x, i);
        if step(ns, false, y).contains(x) {
            let j = choose|j: int| 0 <= j < ns.len() && #[trigger] ns[j].id == x && ns[j].parents.contains(y);
            assert(i == j);
        }
    } else {
        assert(parents_in(ns, x) =~= Seq::<u128>::empty());
        if step(ns, false, y).contains(x) {
            let j = choose|j: int| 0 <= j < ns.len() && #[trigger] ns[j].id == x && ns[j].parents.contains(y);
        }
    }
}

/// A walk read backwards is a walk in the other direction.
proof fn lemma_reverse_walk(ns: Seq<DAGNodeView>, up: bool, a: u128, b: u128)
    requires
        unique_ids(ns),
        reachable(ns, up, a, b),
    ensures
        reachable(ns, !up, b, a),
{
    let p = choose|p: Seq<u128>| #[trigger] is_walk(ns, up, p) && p[0] == a && p.last() == b;
    let r = p.reverse();
    let down = !up;
    assert forall|k: int| 0 <= k < r.len() - 1 implies #[trigger] step(ns, down, r[k]).contains(r[k + 1]) by {
        let m = p.len() - 2 - k;
        assert(step(ns, up, p[m]).contains(p[m + 1]));
        assert(r[k] == p[m + 1] && r[k + 1] == p[m]);
        if up {
            lemma_step_dual(ns, p[m], p[m + 1]);
        } else {
            lemma_step_dual(ns, p[m + 1], p[m]);
        }
    }
    assert(is_walk(ns, down, r));
    assert(r[0] == b && r.last() == a);
}

/// `q` is an ancestor of `id` exactly when `id` is a descendant of `q`:
/// what `get_ancestors` reports and what `get_descendants` reports agree.
pub proof fn lemma_ancestors_descendants_dual(dag: &DAGNetwork, id: u128, q: u128)
    requires
        dag.wf(),
    ensures
        related(dag.spec_nodes(), true, id, q) <==> related(dag.spec_nodes(), false, q, id),
{
    let ns = dag.spec_nodes();
    if reachable(ns, true, id, q) {
        lemma_reverse_walk(ns, true, id, q);
    }
    if reachable(ns, false, q, id) {
        lemma_reverse_walk(ns, false, q, id);
    }
}

impl DAGNetwork {
    /// Everything reachable from `id` by following parent links (`up`) or
    /// child links, excluding `id` itself (breadth-first search).
    fn related_nodes(&self, id: u128, up: bool) -> (r: HashSet<u128>)
        requires
            self.wf(),
        ensures
            forall|q: u128| r@.contains(q) <==> related(self.spec_nodes(), up, id, q),
    {
        broadcast use vstd::std_specs::hash::group_hash_axioms;
        broadcast use vstd::seq_lib::seq_to_set_is_finite;
        let ghost ns = self.spec_nodes();
        let ghost bound = ns.map_values(|n: DAGNodeView| n.id).to_set().insert(id);
        let mut visited: HashSet<u128> = HashSet::new();
        let mut queue: std::collections::VecDeque<u128> = std::collections::VecDeque::new();
        queue.push_back(id);
        proof {
            lemma_reach_self(ns, up, id);
            assert(queue@[0] == id);
        }
        loop
            invariant
                self.wf(),
                ns == self.spec_nodes(),
                bound == ns.map_values(|n: DAGNodeView| n.id).to_set().insert(id),
                bound.finite(),
                visited@.subset_of(bound),
                forall|x: u128| #[trigger] queue@.contains(x) ==> bound.contains(x),
                visited@.contains(id) || queue@.contains(id),
                forall|x: u128| visited@.contains(x) ==> reachable(ns, up, id, x),
                forall|x: u128| #[trigger] queue@.contains(x) ==> reachable(ns, up, id, x),
                forall|x: u128, y: u128|
                    visited@.contains(x) && #[trigger] step(ns, up, x).contains(y) ==> visited@.contains(y)
                        || queue@.contains(y),
            ensures
                visited@.contains(id),
                forall|x: u128| visited@.contains(x) ==> reachable(ns, up, id, x),
                forall|x: u128, y: u128|
                    visited@.contains(x) && #[trigger] step(ns, up, x).contains(y) ==> visited@.contains(y),
            decreases bound.len() - visited@.len(), queue@.len(),
        {
            proof {
                vstd::set_lib::lemma_len_subset(visited@, bound);
            }
            let ghost q_before = queue@;
            let current = match queue.pop_front() {
                Some(c) => c,
                None => {
                    break;
                },
            };
            proof {
                assert(q_before.contains(current)) by {
                    assert(q_before[0] == current);
                }
                assert forall|x: u128| #[trigger] queue@.contains(x) implies q_before.contains(x) by {
                    let k = choose|k: int| 0 <= k < queue@.len() && queue@[k] == x;
                    assert(q_before[k + 1] == x);
                }
                assert forall|x: u128| #[trigger] q_before.contains(x) implies queue@.contains(x) || x == current by {
                    let k = choose|k: int| 0 <= k < q_before.len() && q_before[k] == x;
                    if k > 0 {
                        assert(queue@[k - 1] == x);
                    }
                }
            }
            if visited.contains(&current) {
                continue;
            }
            let ghost vis_before = visited@;
            visited.insert(current);
            assert(visited@.len() == vis_before.len() + 1);
            let next = if up {
                self.get_parents(current)
            } else {
                self.get_children(current)
            };
            proof {
                assert(next@ == step(ns, up, current));
            }
            let ghost q_mid = queue@;
            let mut t: usize = 0;
            while t < next.len()
                invariant
                    self.wf(),
                    ns == self.spec_nodes(),
                    next@ == step(ns, up, current),
                    t <= next@.len(),
                    queue@ == q_mid + next@.subrange(0, t as int),
                decreases next@.len() - t,
            {
                queue.push_back(next[t]);
                t = t + 1;
                assert(queue@ =~= q_mid + next@.subrange(0, t as int));
            }
            proof {
                assert(next@.subrange(0, next@.len() as int) =~= next@);
                assert forall|x: u128| #[trigger] queue@.contains(x) <==> (q_mid.contains(x) || next@.contains(x)) by {
                    if queue@.contains(x) {
                        let k = choose|k: int| 0 <= k < queue@.len() && queue@[k] == x;
                        if k < q_mid.len() {
                            assert(q_mid[k] == x);
                        } else {
                            assert(next@[k - q_mid.len()] == x);
                        }
                    }
                    if q_mid.contains(x) {
                        let k = choose|k: int| 0 <= k < q_mid.len() && q_mid[k] == x;
                        assert(queue@[k] == x);
                    }
                    if next@.contains(x) {
                        let k = choose|k: int| 0 <= k < next@.len() && next@[k] == x;
                        assert(queue@[q_mid.len() + k] == x);
                    }
                }
                assert forall|x: u128| #[trigger] queue@.contains(x) implies bound.contains(x) by {
                    if next@.contains(x) {
                        lemma_step_nodes(ns, up, current, x);
                        let j = choose|j: int| 0 <= j < ns.len() && #[trigger] ns[j].id == x;
                        assert(ns.map_values(|n: DAGNodeView| n.id)[j] == x);
                    }
                }
                assert forall|x: u128| #[trigger] queue@.contains(x) implies reachable(ns, up, id, x) by {
                    if next@.contains(x) {
                        lemma_walk_extend(ns, up, id, current, x);
                    }
                }
                assert(bound.contains(current));
                assert(visited@.subset_of(bound));
                vstd::set_lib::lemma_len_subset(visited@, bound);
            }
        }
        let ghost closed = visited@;
        proof {
            assert forall|q: u128| reachable(ns, up, id, q) implies closed.contains(q) by {
                lemma_closed_contains_reachable(ns, up, id, closed, q);
            }
        }
        visited.remove(&id);
        visited
    }

    /// All proper ancestors of `id`: nodes reachable by following parent links.
    pub fn get_ancestors(&self, id: u128) -> (r: Result<HashSet<u128>, QuDAGError>)
        requires
            self.wf(),
        ensures
            r matches Ok(s) && forall|q: u128| s@.contains(q) <==> related(self.spec_nodes(), true, id, q),
    {
        Ok(self.related_nodes(id, true))
    }

    /// All proper descendants of `id`: nodes reachable by following child links.
    pub fn get_descendants(&self, id: u128) -> (r: Result<HashSet<u128>, QuDAGError>)
        requires
            self.wf(),
        ensures
            r matches Ok(s) && forall|q: u128| s@.contains(q) <==> related(self.spec_nodes(), false, id, q),
    {
        Ok(self.related_nodes(id, false))
    }
}


impl Default for DAGValidation {
    fn default() -> (v: Self)
        ensures
            v.spec_max_parents() == 10,
            v.spec_min_diff() == 0,
    {
        DAGValidation::new()
    }
}

impl Default for DAGNetwork {
    fn default() -> (dag: Self)
        ensures
            dag.wf(),
            dag.spec_nodes().len() == 0,
    {
        DAGNetwork::new()
    }
}

/// The genesis count is the number of stored nodes without parents,
/// wherever they stand in insertion order.
pub proof fn lemma_genesis_count_counts_parentless(ns: Seq<DAGNodeView>)
    ensures
        genesis_count(ns) == ns.filter(|n: DAGNodeView| n.parents.len() == 0).len(),
        genesis_count(ns) <= ns.len(),
    decreases ns.len(),
{
    reveal(Seq::filter);
    if ns.len() > 0 {
        lemma_genesis_count_counts_parentless(ns.drop_last());
    }
}

/// Appending a node adds one to the genesis count exactly when the node
/// has no parents, whatever came before it.
pub proof fn lemma_genesis_count_push(ns: Seq<DAGNodeView>, n: DAGNodeView)
    ensures
        genesis_count(ns.push(n)) == genesis_count(ns) + if n.parents.len() == 0 {
            1int
        } else {
            0int
        },
{
    assert(ns.push(n).drop_last() =~= ns);
}

} // verus!
