pub mod distance;
pub mod resolve;
pub mod score;
pub mod text;

pub use resolve::{
    collect_hits, find_best_match, list_to_m3u_fuzzy, list_to_m3u_fuzzy_parallel, merge_parts,
    resolve_chunk,
};
pub use text::split_user_list;

use vstd::prelude::*;

verus! {

/// Why a whole run stops: the input list could not be read, a catalog
/// entry could not be canonicalized, or the catalog holds no candidate at
/// all. None of these is recoverable within a run.
#[derive(Clone, Copy, Debug, PartialEq, Eq, Structural)]
pub enum RunError {
    InputListUnreadable,
    CatalogPathUnresolvable,
    EmptyCatalog,
}

/// One local audio file discovered while scanning the catalog directory.
///
/// `name` is the file stem (no extension), `extension_name` may be empty,
/// `dominant_dir` is the containing directory, and `absolute_path` is the
/// fully resolved path of the file.
pub struct Song {
    pub name: String,
    pub dominant_dir: String,
    pub extension_name: String,
    pub absolute_path: String,
}

impl Song {
    pub fn new(
        name: String,
        dominant_dir: String,
        extension_name: String,
        absolute_path: String,
    ) -> (r: Song)
        ensures
            r.name == name,
            r.dominant_dir == dominant_dir,
            r.extension_name == extension_name,
            r.absolute_path == absolute_path,
    {
        Song { name, dominant_dir, extension_name, absolute_path }
    }
}

} // verus!
