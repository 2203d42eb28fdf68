//! slipcheck — audit package archives for path traversal, symlink escapes,
//! setuid bits and absolute paths *before* extraction.
//!
//! Formats are decoded by pure readers ([`tar`], [`zip`], [`gzip`] on top of
//! [`inflate`]); every entry is then fed to the format-agnostic
//! [`audit::Auditor`], which knows nothing about bytes on disk — only entry
//! names, kinds, modes and link targets. What holds across functions is
//! stated and proved in the `*_laws` modules.
use vstd::prelude::*;

pub mod audit;
pub mod audit_laws;
pub mod bits;
pub mod bytes;
pub mod cli;
pub mod cli_laws;
pub mod code_laws;
pub mod entry;
pub mod findings;
pub mod format;
pub mod gzip;
pub mod gzip_laws;
pub mod huffman;
pub mod inflate;
pub mod inflate_laws;
pub mod json;
pub mod link_laws;
pub mod paths;
pub mod paths_laws;
pub mod report;
pub mod report_laws;
pub mod scan;
pub mod scan_laws;
pub mod tar;
pub mod tar_laws;
pub mod tar_layout;
pub mod text;
pub mod zip;
pub mod zip_laws;
pub mod zip_layout;

verus! {

/// Crate version, single source of truth for `--version` and JSON output.
pub const VERSION: &'static str = "0.1.0";

} // verus!
