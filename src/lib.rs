//! Single-decree Paxos: the acceptor state machine, the proposer's two-phase
//! drive, ballot ordering and quorum arithmetic, each stated and proved.

pub mod acceptor;
pub mod ballot;
pub mod cluster;
pub mod consensus;
pub mod messages;
pub mod proposer;
pub mod safety;

pub use acceptor::Acceptor;
pub use ballot::BallotNum;
pub use cluster::LocalCluster;
pub use messages::{Phase1Reply, Phase1Request, Phase2Reply, Phase2Request};
pub use proposer::{quorum_threshold, tally_phase1, tally_phase2, value_to_propose, Proposer, Transport};
