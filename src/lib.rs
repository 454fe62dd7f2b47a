//! Coordinate algebra for a categorical state space: partition coordinates
//! (n, l, m, spin) with their capacity law and linear-index bijection, ternary
//! tree addresses, and a bounded history ledger.

pub mod error;
pub mod history;
pub mod partition_coord;
pub mod partition_ops;
pub mod ternary_addr;
pub mod ternary_ops;

pub use error::{PartitionCoordError, TernaryAddrError};
pub use history::History;
pub use partition_coord::{PartitionCoord, Spin};
pub use ternary_addr::TernaryAddr;
