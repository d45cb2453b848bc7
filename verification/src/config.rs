//! Optional user-level configuration: extra directories and files to add on
//! top of the built-in defaults. Reading and parsing the file is left to the
//! program around the library.
use vstd::prelude::*;

use crate::file_map::FileMap;

verus! {

/// Extra directories and files to add on top of the built-in defaults.
#[derive(Debug, Clone, PartialEq, Eq)]
pub struct UserConfig {
    /// Additional directories to create inside the project root.
    pub dirs: Vec<String>,
    /// Additional files to write, keyed by path relative to the project root.
    ///
    /// An entry whose key matches a built-in file overrides it.
    pub files: FileMap,
}

impl UserConfig {
    /// Name of the config file, looked up in the user's home directory.
    pub const FILE_NAME: &'static str = ".ruststruct.json";

    /// Returns `true` when the config adds nothing to the defaults.
    pub fn is_empty(&self) -> (res: bool)
        ensures
            res == (self.dirs@.len() == 0 && self.files.map() == Map::<Seq<char>, Seq<char>>::empty()),
    {
        self.dirs.len() == 0 && self.files.is_empty()
    }
}

impl Default for UserConfig {
    /// A config that adds nothing.
    fn default() -> (res: UserConfig)
        ensures
            res.dirs@.len() == 0,
            res.files@.len() == 0,
            res.files.map() == Map::<Seq<char>, Seq<char>>::empty(),
    {
        UserConfig { dirs: Vec::new(), files: FileMap::new() }
    }
}

} // verus!
