//! Peer-to-peer integration state: connected peers and the queue of
//! events the integration reports.  The transport itself is the caller's.

use vstd::prelude::*;

use crate::error::text;
use crate::ids::{new_uuid, uuid_string, uuid_text};
use crate::peer::str_eq;
use std::collections::VecDeque;

verus! {

/// Message types for neural mesh communication.
#[derive(Debug, Clone, Copy, PartialEq, Eq, Structural)]
pub enum MessageType {
    Thought,
    AgentCoordination,
    SwarmSync,
    ConsensusProposal,
    ConsensusVote,
    HealthCheck,
    MetricsUpdate,
    Command,
    Response,
}

/// The message type a command-line name stands for: `thought`,
/// `coordination` and `swarm` name theirs; any other name is a command.
pub open spec fn message_type_named(name: Seq<char>) -> MessageType {
    if name == "thought"@ {
        MessageType::Thought
    } else if name == "coordination"@ {
        MessageType::AgentCoordination
    } else if name == "swarm"@ {
        MessageType::SwarmSync
    } else {
        MessageType::Command
    }
}

/// The message type named on the command line.
pub fn parse_message_type(name: &str) -> (t: MessageType)
    ensures
        t == message_type_named(name@),
{
    if str_eq(name, "thought") {
        MessageType::Thought
    } else if str_eq(name, "coordination") {
        MessageType::AgentCoordination
    } else if str_eq(name, "swarm") {
        MessageType::SwarmSync
    } else {
        MessageType::Command
    }
}

/// Neural message format for mesh communication.
#[derive(Debug, Clone)]
pub struct NeuralMessage {
    pub id: String,
    pub msg_type: MessageType,
    pub source: String,
    pub destination: String,
    pub payload: Vec<u8>,
    pub timestamp: u64,
    pub priority: u8,
    pub ttl: u32,
}

/// A connected peer.  Times are milliseconds on the caller's clock.
#[derive(Debug)]
pub struct PeerConnection {
    pub peer_id: String,
    pub address: String,
    pub quantum_secure: bool,
    pub shadow_address: Option<String>,
    pub circuit_id: Option<String>,
    pub connected_at: u64,
    pub last_activity: u64,
}

/// A copy of an optional string.
fn clone_opt(o: &Option<String>) -> (r: Option<String>)
    ensures
        r == *o,
{
    match o {
        Some(s) => Some(s.clone()),
        None => None,
    }
}

impl Clone for PeerConnection {
    fn clone(&self) -> (res: Self)
        ensures
            res == *self,
    {
        PeerConnection {
            peer_id: self.peer_id.clone(),
            address: self.address.clone(),
            quantum_secure: self.quantum_secure,
            shadow_address: clone_opt(&self.shadow_address),
            circuit_id: clone_opt(&self.circuit_id),
            connected_at: self.connected_at,
            last_activity: self.last_activity,
        }
    }
}

/// P2P integration configuration.
#[derive(Debug, Clone)]
pub struct P2PIntegrationConfig {
    pub quantum_resistant: bool,
    pub onion_routing: bool,
    pub shadow_addresses: bool,
    pub traffic_obfuscation: bool,
    pub max_peers: usize,
    pub listen_addrs: Vec<String>,
    pub bootstrap_peers: Vec<String>,
    pub nat_traversal: bool,
}

impl Default for P2PIntegrationConfig {
    fn default() -> (c: Self)
        ensures
            c.quantum_resistant && c.onion_routing && c.shadow_addresses && c.traffic_obfuscation,
            c.max_peers == 50,
            c.listen_addrs@.len() == 1,
            c.listen_addrs@[0]@ == "/ip4/0.0.0.0/tcp/9000"@,
            c.bootstrap_peers@.len() == 0,
            c.nat_traversal,
    {
        let mut listen_addrs: Vec<String> = Vec::new();
        listen_addrs.push(text("/ip4/0.0.0.0/tcp/9000"));
        P2PIntegrationConfig {
            quantum_resistant: true,
            onion_routing: true,
            shadow_addresses: true,
            traffic_obfuscation: true,
            max_peers: 50,
            listen_addrs,
            bootstrap_peers: Vec::new(),
            nat_traversal: true,
        }
    }
}

/// P2P integration events.
#[derive(Debug, Clone)]
pub enum P2PIntegrationEvent {
    PeerConnected { peer_id: String, address: String },
    PeerDisconnected { peer_id: String },
    MessageReceived { from: String, message: NeuralMessage },
    CircuitEstablished { circuit_id: String, hops: Vec<String> },
    ShadowAddressRotated { old: String, new: String },
    NatTraversalSuccess { peer_id: String, method: String },
    QuantumKeyExchanged { peer_id: String, security_level: String },
}

/// Connected peers and pending events.
#[derive(Debug)]
pub struct P2PIntegration {
    config: P2PIntegrationConfig,
    events: VecDeque<P2PIntegrationEvent>,
    active_peers: Vec<PeerConnection>,
}

/// The identifiers of a list of connections.
pub open spec fn connection_ids(ps: Seq<PeerConnection>) -> Seq<Seq<char>> {
    ps.map_values(|p: PeerConnection| p.peer_id@)
}

/// The connections without the one identified by `id`.
pub open spec fn connections_without(ps: Seq<PeerConnection>, id: Seq<char>) -> Seq<PeerConnection>
    decreases ps.len(),
{
    if ps.len() == 0 {
        ps
    } else {
        let r = connections_without(ps.drop_last(), id);
        if ps.last().peer_id@ == id {
            r
        } else {
            r.push(ps.last())
        }
    }
}

impl P2PIntegration {
    /// The connected peers, each identifier once.
    pub closed spec fn spec_peers(&self) -> Seq<PeerConnection> {
        self.active_peers@
    }

    /// Events not yet received, oldest first.
    pub closed spec fn spec_events(&self) -> Seq<P2PIntegrationEvent> {
        self.events@
    }

    /// Whether new connections are marked quantum secure.
    pub closed spec fn spec_quantum_resistant(&self) -> bool {
        self.config.quantum_resistant
    }

    /// A fresh integration with no peers and no events.
    pub fn new(config: P2PIntegrationConfig) -> (p: Self)
        ensures
            p.spec_peers().len() == 0,
            p.spec_events().len() == 0,
            p.spec_quantum_resistant() == config.quantum_resistant,
    {
        P2PIntegration { config, events: VecDeque::new(), active_peers: Vec::new() }
    }

    /// Records a connection to `peer_addr` under a fresh `peer-<uuid>`
    /// identifier (replacing a connection with the same identifier) and
    /// reports it as an event; returns the identifier.
    pub fn connect_peer(&mut self, peer_addr: &str, now_ms: u64) -> (peer_id: String)
        ensures
            exists|u: u128| peer_id@ == "peer-"@ + #[trigger] uuid_text(u),
            connection_ids(final(self).spec_peers()) == connection_ids(
                connections_without(old(self).spec_peers(), peer_id@),
            ).push(peer_id@),
            final(self).spec_peers().len() > 0,
            final(self).spec_peers().drop_last() == connections_without(old(self).spec_peers(), peer_id@),
            final(self).spec_peers().last().peer_id@ == peer_id@,
            final(self).spec_peers().last().address@ == peer_addr@,
            final(self).spec_peers().last().quantum_secure == old(self).spec_quantum_resistant(),
            final(self).spec_peers().last().shadow_address is None,
            final(self).spec_peers().last().circuit_id is None,
            final(self).spec_peers().last().connected_at == now_ms,
            final(self).spec_peers().last().last_activity == now_ms,
            final(self).spec_events().len() == old(self).spec_events().len() + 1,
            final(self).spec_events().drop_last() == old(self).spec_events(),
            final(self).spec_events().last() matches P2PIntegrationEvent::PeerConnected { peer_id: p, address: a }
                && p@ == peer_id@ && a@ == peer_addr@,
            final(self).spec_quantum_resistant() == old(self).spec_quantum_resistant(),
    {
        let u = new_uuid();
        self.connect_peer_with(peer_addr, now_ms, u)
    }

    /// Records a connection to `peer_addr` under the identifier
    /// `peer-<u>` (`u` as a UUID; replacing a connection with the same
    /// identifier) and reports it as an event; returns the identifier.
    pub fn connect_peer_with(&mut self, peer_addr: &str, now_ms: u64, u: u128) -> (peer_id: String)
        ensures
            peer_id@ == "peer-"@ + uuid_text(u),
            connection_ids(final(self).spec_peers()) == connection_ids(
                connections_without(old(self).spec_peers(), peer_id@),
            ).push(peer_id@),
            final(self).spec_peers().len() > 0,
            final(self).spec_peers().drop_last() == connections_without(old(self).spec_peers(), peer_id@),
            final(self).spec_peers().last().peer_id@ == peer_id@,
            final(self).spec_peers().last().address@ == peer_addr@,
            final(self).spec_peers().last().quantum_secure == old(self).spec_quantum_resistant(),
            final(self).spec_peers().last().shadow_address is None,
            final(self).spec_peers().last().circuit_id is None,
            final(self).spec_peers().last().connected_at == now_ms,
            final(self).spec_peers().last().last_activity == now_ms,
            final(self).spec_events().len() == old(self).spec_events().len() + 1,
            final(self).spec_events().drop_last() == old(self).spec_events(),
            final(self).spec_events().last() matches P2PIntegrationEvent::PeerConnected { peer_id: p, address: a }
                && p@ == peer_id@ && a@ == peer_addr@,
            final(self).spec_quantum_resistant() == old(self).spec_quantum_resistant(),
    {
        let peer_id = text("peer-").concat(uuid_string(u).as_str());
        assert(peer_id@ == "peer-"@ + uuid_text(u));
        self.remove_connection(&peer_id);
        let conn = PeerConnection {
            peer_id: peer_id.clone(),
            address: text(peer_addr),
            quantum_secure: self.config.quantum_resistant,
            shadow_address: None,
            circuit_id: None,
            connected_at: now_ms,
            last_activity: now_ms,
        };
        let ghost before = self.active_peers@;
        self.active_peers.push(conn);
        assert(connection_ids(self.active_peers@) =~= connection_ids(before).push(peer_id@));
        assert(self.active_peers@.drop_last() =~= before);
        let ghost ev_before = self.events@;
        self.events.push_back(P2PIntegrationEvent::PeerConnected { peer_id: peer_id.clone(), address: text(peer_addr) });
        assert(self.events@.drop_last() =~= ev_before);
        peer_id
    }

    /// Drops the connection identified by `peer_id`; whether there was one.
    fn remove_connection(&mut self, peer_id: &String) -> (found: bool)
        ensures
            final(self).spec_peers() == connections_without(old(self).spec_peers(), peer_id@),
            found == connection_ids(old(self).spec_peers()).contains(peer_id@),
            final(self).spec_events() == old(self).spec_events(),
            final(self).spec_quantum_resistant() == old(self).spec_quantum_resistant(),
    {
        let ghost ps = self.active_peers@;
        let mut kept: Vec<PeerConnection> = Vec::new();
        let mut found = false;
        let mut i: usize = 0;
        while i < self.active_peers.len()
            invariant
                ps == self.active_peers@,
                i <= ps.len(),
                kept@ == connections_without(ps.subrange(0, i as int), peer_id@),
                found == connection_ids(ps.subrange(0, i as int)).contains(peer_id@),
            decreases ps.len() - i,
        {
            let ghost pre = ps.subrange(0, i as int);
            assert(ps.subrange(0, i + 1).drop_last() =~= pre);
            assert(connection_ids(ps.subrange(0, i + 1)) =~= connection_ids(pre).push(ps[i as int].peer_id@));
            proof {
                let t = connection_ids(pre);
                let u = connection_ids(ps.subrange(0, i + 1));
                assert(u.contains(peer_id@) <==> (t.contains(peer_id@) || ps[i as int].peer_id@ == peer_id@)) by {
                    if u.contains(peer_id@) {
                        let k = choose|k: int| 0 <= k < u.len() && u[k] == peer_id@;
                        if k < t.len() {
                            assert(t[k] == peer_id@);
                        }
                    }
                    if t.contains(peer_id@) {
                        let k = choose|k: int| 0 <= k < t.len() && t[k] == peer_id@;
                        assert(u[k] == peer_id@);
                    }
                    if ps[i as int].peer_id@ == peer_id@ {
                        assert(u[t.len() as int] == peer_id@);
                    }
                }
            }
            if str_eq(self.active_peers[i].peer_id.as_str(), peer_id.as_str()) {
                found = true;
            } else {
                let c = self.active_peers[i].clone();
                kept.push(c);
            }
            i = i + 1;
        }
        assert(ps.subrange(0, ps.len() as int) =~= ps);
        self.active_peers = kept;
        found
    }

    /// Drops the connection identified by `peer_id` and reports it; an
    /// unknown identifier is an error.
    pub fn disconnect_peer(&mut self, peer_id: &str) -> (r: Result<(), String>)
        ensures
            final(self).spec_peers() == connections_without(old(self).spec_peers(), peer_id@),
            final(self).spec_quantum_resistant() == old(self).spec_quantum_resistant(),
            connection_ids(old(self).spec_peers()).contains(peer_id@) ==> (r is Ok && final(self).spec_events()
                .drop_last() == old(self).spec_events() && final(self).spec_events().len() == old(self).spec_events().len() + 1
                && (final(self).spec_events().last() matches P2PIntegrationEvent::PeerDisconnected { peer_id: p }
                && p@ == peer_id@)),
            !connection_ids(old(self).spec_peers()).contains(peer_id@) ==> (r matches Err(m) && m@ == "Peer "@
                + peer_id@ + " not found"@ && final(self).spec_events() == old(self).spec_events()),
    {
        let id = text(peer_id);
        if self.remove_connection(&id) {
            let ghost ev_before = self.events@;
            self.events.push_back(P2PIntegrationEvent::PeerDisconnected { peer_id: id });
            assert(self.events@.drop_last() =~= ev_before);
            Ok(())
        } else {
            Err(text("Peer ").concat(peer_id).concat(" not found"))
        }
    }

    /// The identifiers of the connected peers.
    pub fn list_peers(&self) -> (ids: Vec<String>)
        ensures
            ids@.map_values(|s: String| s@) == connection_ids(self.spec_peers()),
    {
        let mut ids: Vec<String> = Vec::new();
        let mut i: usize = 0;
        while i < self.active_peers.len()
            invariant
                i <= self.active_peers@.len(),
                ids@.map_values(|s: String| s@) == connection_ids(self.active_peers@.subrange(0, i as int)),
            decreases self.active_peers@.len() - i,
        {
            let ghost before = ids@.map_values(|s: String| s@);
            ids.push(self.active_peers[i].peer_id.clone());
            assert(ids@.map_values(|s: String| s@) =~= before.push(self.active_peers@[i as int].peer_id@));
            assert(connection_ids(self.active_peers@.subrange(0, i + 1)) =~= connection_ids(
                self.active_peers@.subrange(0, i as int),
            ).push(self.active_peers@[i as int].peer_id@));
            i = i + 1;
        }
        assert(self.active_peers@.subrange(0, self.active_peers@.len() as int) =~= self.active_peers@);
        ids
    }

    /// Number of connected peers.
    pub fn peer_count(&self) -> (n: usize)
        ensures
            n == self.spec_peers().len(),
    {
        self.active_peers.len()
    }

    /// The oldest unreceived event, if any.
    pub fn try_recv_event(&mut self) -> (e: Option<P2PIntegrationEvent>)
        ensures
            old(self).spec_events().len() == 0 ==> e is None && final(self).spec_events() == old(self).spec_events(),
            old(self).spec_events().len() > 0 ==> e == Some(old(self).spec_events()[0]) && final(self).spec_events()
                == old(self).spec_events().drop_first(),
            final(self).spec_peers() == old(self).spec_peers(),
            final(self).spec_quantum_resistant() == old(self).spec_quantum_resistant(),
    {
        self.events.pop_front()
    }

    /// A fresh `local-<uuid>` identifier for this node.
    pub fn local_peer_id(&self) -> (id: String)
        ensures
            exists|u: u128| id@ == "local-"@ + #[trigger] uuid_text(u),
    {
        let u = new_uuid();
        let id = text("local-").concat(uuid_string(u).as_str());
        assert(id@ == "local-"@ + uuid_text(u));
        id
    }
}

} // verus!
