//! Decoder and patch engine for directory-level binary differential patches.
//!
//! A patch is one container file: a header, two tables of paths, a list of
//! copy instructions ("covers") and a compressed stream of literal bytes.
//! [`utils`] decodes the container from a byte buffer; [`patchers`] replays the
//! covers against the old files and the literal stream to rebuild every new
//! file.
pub mod utils;
pub mod patchers;
