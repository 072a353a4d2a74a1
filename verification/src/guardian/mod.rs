//! The agent that watches the volume from beside the data path: detectors give
//! evidence, the agent turns it into advisories.
pub mod agent;
pub mod entropy;
pub mod failure;
pub mod workload;

pub use agent::{Advisory, AdvisoryKind, Agent, AgentAction, AgentConfig};
pub use entropy::{entropy_bits_per_byte, EntropyWatcher};
pub use failure::RiskBand;
pub use workload::StreamClass;
