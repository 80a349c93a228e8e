//! What a peer offers the network.

use vstd::prelude::*;

use crate::clock::now_unix_secs;
use crate::error::text;

verus! {

/// Peer capabilities in the network.
#[derive(Debug, Clone, Copy, PartialEq, Eq, Structural)]
pub struct PeerCapabilities {
    pub dag_sync: bool,
    pub consensus: bool,
    pub quantum_crypto: bool,
    pub relay: bool,
    pub storage: bool,
    pub compute: bool,
    pub max_connections: u32,
    pub bandwidth_limit: Option<u64>,
}

impl Default for PeerCapabilities {
    fn default() -> (c: Self)
        ensures
            c == (PeerCapabilities {
                dag_sync: true,
                consensus: true,
                quantum_crypto: true,
                relay: false,
                storage: false,
                compute: false,
                max_connections: 50,
                bandwidth_limit: None,
            }),
    {
        PeerCapabilities {
            dag_sync: true,
            consensus: true,
            quantum_crypto: true,
            relay: false,
            storage: false,
            compute: false,
            max_connections: 50,
            bandwidth_limit: None,
        }
    }
}

/// Whether two strings have the same characters.
pub fn str_eq(a: &str, b: &str) -> (eq: bool)
    ensures
        eq == (a@ == b@),
{
    let n = a.unicode_len();
    if n != b.unicode_len() {
        return false;
    }
    let mut i: usize = 0;
    while i < n
        invariant
            n == a@.len(),
            n == b@.len(),
            i <= n,
            forall|k: int| 0 <= k < i ==> a@[k] == b@[k],
        decreases n - i,
    {
        if a.get_char(i) != b.get_char(i) {
            return false;
        }
        i = i + 1;
    }
    assert(a@ =~= b@);
    true
}

/// The capability flag named by `name`, if it names one.
pub open spec fn capability_flag(c: PeerCapabilities, name: Seq<char>) -> bool {
    if name == "dag_sync"@ {
        c.dag_sync
    } else if name == "consensus"@ {
        c.consensus
    } else if name == "quantum_crypto"@ {
        c.quantum_crypto
    } else if name == "relay"@ {
        c.relay
    } else if name == "storage"@ {
        c.storage
    } else if name == "compute"@ {
        c.compute
    } else {
        false
    }
}

impl PeerCapabilities {
    /// Whether the named capability is offered; unknown names are not.
    pub fn supports_capability(&self, capability: &str) -> (b: bool)
        ensures
            b == capability_flag(*self, capability@),
    {
        if str_eq(capability, "dag_sync") {
            self.dag_sync
        } else if str_eq(capability, "consensus") {
            self.consensus
        } else if str_eq(capability, "quantum_crypto") {
            self.quantum_crypto
        } else if str_eq(capability, "relay") {
            self.relay
        } else if str_eq(capability, "storage") {
            self.storage
        } else if str_eq(capability, "compute") {
            self.compute
        } else {
            false
        }
    }
}


/// A peer last seen at `last_seen` counts as active at time `now` when it
/// was seen at most `max_age_secs` before (a time ahead of `now` counts as
/// just seen).
pub open spec fn active_at(last_seen: u64, now: u64, max_age_secs: u64) -> bool {
    (if now >= last_seen { now - last_seen } else { 0 }) <= max_age_secs
}

/// Whether a peer last seen at `last_seen` is active at time `now`.
pub fn is_active_at(last_seen: u64, now: u64, max_age_secs: u64) -> (b: bool)
    ensures
        b == active_at(last_seen, now, max_age_secs),
{
    now.saturating_sub(last_seen) <= max_age_secs
}

/// Whether a peer last seen at `last_seen` (seconds since the epoch) is
/// active now, by the system clock.
pub fn is_active(last_seen: u64, max_age_secs: u64) -> (b: bool)
    ensures
        exists|now: u64| b == active_at(last_seen, now, max_age_secs),
{
    let now = now_unix_secs();
    is_active_at(last_seen, now, max_age_secs)
}

/// Capability flag number `f`, in the order `dag_sync`, `consensus`,
/// `quantum_crypto`, `relay`, `storage`, `compute`.
pub open spec fn flag_of(c: PeerCapabilities, f: int) -> bool {
    if f == 0 {
        c.dag_sync
    } else if f == 1 {
        c.consensus
    } else if f == 2 {
        c.quantum_crypto
    } else if f == 3 {
        c.relay
    } else if f == 4 {
        c.storage
    } else {
        c.compute
    }
}

/// The names of the capability flags, in flag order.
pub open spec fn flag_names() -> Seq<Seq<char>> {
    seq!["dag_sync"@, "consensus"@, "quantum_crypto"@, "relay"@, "storage"@, "compute"@]
}

/// How many of `caps` offer capability flag `f`.
pub open spec fn count_flag(caps: Seq<PeerCapabilities>, f: int) -> nat
    decreases caps.len(),
{
    if caps.len() == 0 {
        0
    } else {
        count_flag(caps.drop_last(), f) + if flag_of(caps.last(), f) { 1nat } else { 0nat }
    }
}

/// The flags `0..upto` that at least one of `caps` offers, with their
/// names and how many offer them.
pub open spec fn offered_counts(caps: Seq<PeerCapabilities>, upto: int) -> Seq<(Seq<char>, nat)>
    decreases upto,
{
    if upto <= 0 {
        Seq::empty()
    } else {
        let r = offered_counts(caps, upto - 1);
        let n = count_flag(caps, upto - 1);
        if n > 0 {
            r.push((flag_names()[upto - 1], n))
        } else {
            r
        }
    }
}

/// For each capability that some peer offers, its name and the number of
/// peers offering it, in flag order.
pub fn capability_counts(caps: &Vec<PeerCapabilities>) -> (r: Vec<(String, usize)>)
    ensures
        r@.len() == offered_counts(caps@, 6).len(),
        forall|j: int|
            0 <= j < r@.len() ==> (#[trigger] r@[j]).0@ == offered_counts(caps@, 6)[j].0 && r@[j].1
                == offered_counts(caps@, 6)[j].1,
{
    let n = caps.len();
    let mut counts: Vec<usize> = vec![0, 0, 0, 0, 0, 0];
    let mut i: usize = 0;
    while i < n
        invariant
            n == caps@.len(),
            i <= caps@.len(),
            counts@.len() == 6,
            forall|f: int| 0 <= f < 6 ==> #[trigger] counts@[f] == count_flag(caps@.subrange(0, i as int), f),
            forall|f: int| 0 <= f < 6 ==> #[trigger] counts@[f] <= i,
        decreases caps@.len() - i,
    {
        let c = caps[i];
        let ghost sub = caps@.subrange(0, i + 1);
        assert(sub.drop_last() =~= caps@.subrange(0, i as int));
        let flags = [c.dag_sync, c.consensus, c.quantum_crypto, c.relay, c.storage, c.compute];
        let mut f: usize = 0;
        while f < 6
            invariant
                f <= 6,
                i < n,
                n == caps@.len(),
                c == caps@[i as int],
                sub == caps@.subrange(0, i + 1),
                sub.drop_last() == caps@.subrange(0, i as int),
                flags@ == seq![c.dag_sync, c.consensus, c.quantum_crypto, c.relay, c.storage, c.compute],
                counts@.len() == 6,
                forall|g: int| 0 <= g < f ==> #[trigger] counts@[g] == count_flag(sub, g),
                forall|g: int| f <= g < 6 ==> #[trigger] counts@[g] == count_flag(sub.drop_last(), g),
                forall|g: int| 0 <= g < f ==> #[trigger] counts@[g] <= i + 1,
                forall|g: int| f <= g < 6 ==> #[trigger] counts@[g] <= i,
            decreases 6 - f,
        {
            assert(sub.last() == c);
            assert(flags@[f as int] == flag_of(c, f as int));
            assert(counts@[f as int] <= i);
            if flags[f] {
                let v = counts[f] + 1;
                counts.set(f, v);
            }
            f = f + 1;
        }
        i = i + 1;
    }
    assert(caps@.subrange(0, caps@.len() as int) =~= caps@);
    let names = [
        text("dag_sync"),
        text("consensus"),
        text("quantum_crypto"),
        text("relay"),
        text("storage"),
        text("compute"),
    ];
    let mut r: Vec<(String, usize)> = Vec::new();
    let mut f: usize = 0;
    while f < 6
        invariant
            f <= 6,
            counts@.len() == 6,
            forall|g: int| 0 <= g < 6 ==> #[trigger] counts@[g] == count_flag(caps@, g),
            forall|g: int| 0 <= g < 6 ==> (#[trigger] names@[g])@ == flag_names()[g],
            r@.len() == offered_counts(caps@, f as int).len(),
            forall|j: int|
                0 <= j < r@.len() ==> (#[trigger] r@[j]).0@ == offered_counts(caps@, f as int)[j].0 && r@[j].1
                    == offered_counts(caps@, f as int)[j].1,
        decreases 6 - f,
    {
        if counts[f] > 0 {
            r.push((names[f].clone(), counts[f]));
        }
        f = f + 1;
    }
    r
}

} // verus!
