//! Synaptic mesh core: a DAG ledger with QR-Avalanche style vote
//! finalization, the cryptographic plumbing around it, storage,
//! metrics and the mesh-topology rules used by the agent swarm.

pub mod agent;
pub mod bytes;
pub mod cli;
pub mod clustering;
pub mod clock;
pub mod cognition;
pub mod consensus;
pub mod coordinator;
pub mod crypto;
pub mod dag;
pub mod distributed;
pub mod error;
pub mod evolutionary_mesh;
pub mod hexfmt;
pub mod memory;
pub mod mesh;
pub mod ids;
pub mod metrics;
pub mod neural_error;
pub mod node;
pub mod p2p_integration;
pub mod peer;
pub mod self_organizing;
pub mod storage;
pub mod swarm;
pub mod swarm_intelligence;
