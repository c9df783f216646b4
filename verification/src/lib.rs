//! Classification, grouping and selection of release artifacts, and
//! extraction of a single metadata entry from a compressed tar archive.
//!
//! A release listing is a sequence of `(filename, url)` pairs. Filenames
//! follow one of two grammars (standalone and full builds); each parsed
//! descriptor carries four identity fields and, for full builds, a build
//! configuration drawn from a closed set. Standalone descriptors are paired
//! with the best-ranked full descriptor of the same group, and the metadata
//! document is pulled out of that full artifact's zstd-compressed tar
//! archive.

pub mod classify;
pub mod metadata;
pub mod model;
pub mod pipeline;
pub mod select;
pub mod tar;
