//! Shared vocabulary for pairwise sequence alignment: matrix positions and
//! their partial order, alignment paths, run-length encoded edit scripts,
//! cost models, and the records exchanged between a benchmark driver and
//! the aligners it runs.

pub mod cigar;
pub mod cost;
pub mod error;
pub mod job;
pub mod path;
pub mod pos;
pub mod size;

pub use cigar::{Cigar, CigarElem, CigarOp};
pub use cost::{Cost, CostModel};
pub use error::{Error, ErrorClass};
pub use job::{Algorithm, Job, JobOutput, JobResult, Nanos};
pub use path::Path;
pub use pos::{Base, Pos, Sequence, I};
pub use size::{parse_size, parse_size_bytes, Bytes};
