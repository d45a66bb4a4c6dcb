//! A language server for Composer manifests.
pub mod answers;
pub mod backend;
pub mod budget;
pub mod cache_laws;
pub mod composer;
pub mod entries;
pub mod extension;
pub mod fallback;
pub mod installed;
pub mod json;
pub mod packagist;
pub mod platform;
pub mod position;
pub mod recovery;
pub mod scanner;
pub mod settings;
pub mod sharing;
pub mod text;
pub mod tree;
pub mod version;
pub mod version_cache;

use vstd::prelude::*;

verus! {

/// The release of the language server.
pub const SERVER_VERSION: &'static str = "0.2.5";

} // verus!
