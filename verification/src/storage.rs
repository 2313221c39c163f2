//! Pure pieces of the storage layer: the shapes the loaders hand back
//! and the file names under the application's state directory.  All
//! file and directory I/O lives outside the library; these helpers
//! only assemble paths from a state directory the caller resolved.

use std::collections::HashMap;

use vstd::prelude::*;
use vstd::string::StringExecFns;

use crate::domain::Session;

verus! {

/// Version tag of the category-tags state file.
pub const CATEGORY_TAGS_VERSION: u8 = 1;

/// Sessions loaded from the time log, with the next free session id.
#[derive(Debug)]
pub struct LoadedSessions {
    pub sessions: Vec<Session>,
    pub next_session_id: usize,
}

/// Free-form tags per category id, as persisted between runs.
#[derive(Debug, Clone)]
pub struct CategoryTagsState {
    pub version: u8,
    pub tags_by_category: HashMap<u64, Vec<String>>,
}

impl Default for CategoryTagsState {
    /// An empty tag state at the current schema version.
    fn default() -> (r: Self)
        ensures
            r.version == CATEGORY_TAGS_VERSION,
            r.tags_by_category@.len() == 0,
    {
        CategoryTagsState { version: CATEGORY_TAGS_VERSION, tags_by_category: HashMap::new() }
    }
}

/// The active-session file inside the given state directory.
pub fn get_active_session_path(state_dir: &str) -> (r: String)
    ensures
        r@ == state_dir@ + "/active_session.json"@,
{
    let mut s = state_dir.to_owned();
    s.append("/active_session.json");
    s
}

/// The sand-state file inside the given state directory.
pub fn get_sand_state_path(state_dir: &str) -> (r: String)
    ensures
        r@ == state_dir@ + "/sand_state.json"@,
{
    let mut s = state_dir.to_owned();
    s.append("/sand_state.json");
    s
}

/// The category-tags file inside the given state directory.
pub fn get_category_tags_path(state_dir: &str) -> (r: String)
    ensures
        r@ == state_dir@ + "/category_tags.json"@,
{
    let mut s = state_dir.to_owned();
    s.append("/category_tags.json");
    s
}

} // verus!
