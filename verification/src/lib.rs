//! Snapshots of atomistic simulations: reading and writing dumps, cutting
//! snapshots down and widening them, and finding the clusters of atoms that
//! lie within a cutoff of one another.
//!
//! Every quantity is a whole number of units that the caller chooses, the
//! same for lengths, cutoffs and property values: a dump that speaks of
//! `1.5` is handed over as `1_500_000` where a millionth is the unit.

pub mod clusterizer;
pub mod crater;
pub mod dump_file;
pub mod dump_snapshot;
pub mod parser;
pub mod round_trip;
pub mod run_dir;
pub mod spatial;
pub mod supercell;
pub mod text;
pub mod xyz;

pub use clusterizer::{clusterize_snapshot, get_cluster_counts, get_max_cluster};
pub use crater::{crater_candidates_snapshot, crater_snapshot};
pub use dump_file::{DumpFile, DumpLine, DumpParsingError};
pub use dump_snapshot::{
    copy_snapshot, copy_snapshot_with_indices, copy_snapshot_with_indices_with_keys,
    copy_snapshot_with_keys, DumpSnapshot, SymBox,
};
pub use parser::{ParseError, Parser, ParserIterator, Token};
pub use run_dir::RunDir;
pub use xyz::{Point3, XYZ};
