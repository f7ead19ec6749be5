//! Reading and editing the per-host blocks of an ssh client configuration file.
//!
//! `parser` reads a configuration text into its records, `editor` rewrites the blocks of one
//! host in place or appends a fresh block, and `laws` states and proves what those two
//! guarantee together. All of it works on text in memory; reading and writing the file is
//! left to the caller.
pub mod editor;
pub mod laws;
pub mod parser;
pub mod record;
pub mod text;
