//! Routing of bulk-downloaded student submissions into per-filter-list
//! output folders.
//!
//! The library holds the decision logic of the pipeline, verified over
//! plain values: loading filter lists with comment stripping
//! ([`filter`]), matching submission directory names against filter
//! entries and planning one extraction per matched entry ([`router`]),
//! planning the expansion of an archive's entries under a destination
//! ([`expand`]), planning the post-pass removal of junk and build-output
//! directories ([`cleanup`]), and resolving the run's locations from
//! command-line arguments ([`config`]). The character-level groundwork —
//! trimming, substring search, file-name stems and extensions — is in
//! [`text`]. All filesystem, archive and console I/O stays with the
//! caller, which hands listings in and carries planned steps out.
pub mod cleanup;
pub mod config;
pub mod expand;
pub mod filter;
pub mod router;
pub mod text;
