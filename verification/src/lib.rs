//! Verified core of a video duplicate finder: perceptual-hash distances,
//! majority-vote averaging, coarse-hash grouping, cluster selection and the
//! text formats the tool reads and writes.

mod bits;
pub mod text;
pub mod phash;
pub mod coarse;
pub mod cluster;
pub mod chroma;
pub mod meta;
pub mod util;
pub mod scan;
pub mod cli;
pub mod interact;
pub mod db;
