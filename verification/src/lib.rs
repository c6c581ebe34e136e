//! Statistics over a transaction DAG. Every transaction names up to two
//! parents and carries a timestamp; the transaction with id 1 is the
//! root. The library parses the text of a transaction database, builds
//! the mapping from parents to children, and computes three averages:
//! the breadth-first depth of the reachable transactions, the
//! transactions per depth, and the references that a transaction
//! receives.

pub mod format;
pub mod graph;
pub mod laws;
pub mod metrics;
pub mod parser;
pub mod paths;
pub mod record;
pub mod render;
pub mod sums;
mod traversal;

pub use format::{FormatError, FormatErrorKind};
pub use graph::build_graph;
pub use metrics::{
    calculate_average_depth, calculate_average_in_references, calculate_average_txs_per_depth, Ratio,
};
pub use parser::parse_database;
pub use record::{count_transactions_at_depth, TransactionNode};
