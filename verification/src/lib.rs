//! Analysis of RNA (and DNA) secondary structures.
//!
//! A secondary structure is held as a paired-sites array: entry `i` is the
//! 1-based position of the partner of site `i`, or `0` when the site is
//! unpaired. The crate converts between that array and an extended
//! dot-bracket string with up to thirty bracket classes, classifies
//! structures as pseudoknotted or not, computes mountain metrics, and reads
//! and writes the connect (CT), dot-bracket (DBN) and Rfam Stockholm text
//! forms.

pub mod alphabet;
pub mod combinatorics;
pub mod read_rfam;
pub mod secondary_structure_io;
pub mod io;
pub mod distance_metrics;
pub mod secondary_structure;
pub mod model;
pub mod text;
