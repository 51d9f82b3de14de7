//! A flat-file content store: a directory tree of text files turned into an index of typed
//! content nodes that can be queried by path, identifier, language and kind, and kept in step
//! with the files on disk.
use crate::cms::site::{default_url, SiteBuilder};
use vstd::prelude::*;

pub mod cms;
pub mod database;
pub mod keyed;
pub mod text;
pub mod watcher;

verus! {

/// A builder of an empty site.
pub fn site() -> (r: SiteBuilder)
    ensures
        r@.dir.len() == 0,
        r@.url == default_url(),
        r@.models.len() == 0,
{
    SiteBuilder::new()
}

} // verus!
