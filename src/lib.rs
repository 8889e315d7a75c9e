//! Downloads the objects of a storage bucket into a staging directory under
//! flat, collision-free file names, then packs the staged files into
//! size-bounded archives.
//!
//! The library holds the decisions: which keys to stage and under which
//! names, how to page through a bucket listing, how to split the staged files
//! into groups that stay under the size threshold, and how the archives are
//! named. Network and file I/O stand outside it.

pub mod archive;
pub mod grouping;
pub mod listing;
pub mod naming;
