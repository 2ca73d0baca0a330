//! Verified core of a retrieval-augmented chat service: document chunking,
//! retrieval-context assembly, job and prompt construction, stream relaying,
//! upload validation and vector-store batching.

pub mod chunking;
pub mod text;
pub mod ids;
pub mod store;
pub mod context;
pub mod ingest;
pub mod jobs;
pub mod relay;
