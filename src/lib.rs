//! Assembly of a round-indexed DAG of certified consensus nodes: ingest of
//! certified nodes, bookkeeping of pending and missing ancestors, promotion
//! cascades, fetch requests for missing nodes and serving of node requests.

pub mod dag;
pub mod digest_set;
pub mod driver;
pub mod laws;
pub mod missing;
pub mod model;
pub mod types;

pub use dag::DagStore;
pub use driver::{AckMessage, DagDriver, NodeMessage, RequestMessage};
pub use missing::{MissingDagNodeData, MissingView};
pub use model::{DriverView, PendingView};
pub use types::{CertifiedNode, CertifiedNodeAck, CertifiedNodeRequest, Digest, NodeView, Parent, PeerId, Round};
