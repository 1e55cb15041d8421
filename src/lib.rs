//! Full-text search over every historical state of files edited in recording
//! sessions. Each file's history is a list of deltas; the index holds one
//! document per delta with the file's content as of that delta, and answers
//! ranked, project-scoped, time-filtered and paginated queries.

pub mod codec;
pub mod delta;
pub mod index;
pub mod lemmas;
pub mod query;
pub mod text;

pub use delta::{reconstruct, Delta, Operation, ReconstructionError};
pub use index::{Deltas, OpenError, Session, SessionFile};
pub use query::{SearchError, SearchQuery, SearchResult};
