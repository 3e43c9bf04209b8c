//! Lacing of pangenome block graphs.
//!
//! Blocks are loaded as [`translate::BlockGraph`] values, folded one at a
//! time into a [`graph::CombinedGraph`] under a node-id translation, their
//! locus-tagged paths are grouped and reconciled by coordinate range, and
//! the combined graph is serialized deterministically.

pub mod bytes;
pub mod graph;
pub mod lace;
pub mod laws;
pub mod name;
pub mod pipeline;
pub mod reconcile;
pub mod serialize;
pub mod translate;

