//! The file that a store keeps its bytes in.

use vstd::prelude::*;

verus! {

/// A file, known by its path. Reading and writing it is the caller's part.
pub struct FileManager {
    path: String,
}

impl FileManager {
    /// The path as a sequence of characters.
    pub closed spec fn view_path(&self) -> Seq<char> {
        self.path@
    }

    /// The file at `path`.
    pub fn new(path: &str) -> (manager: Self)
        ensures
            manager.view_path() == path@,
    {
        FileManager { path: path.to_owned() }
    }

    /// The path of the file.
    pub fn path(&self) -> (path: &str)
        ensures
            path@ == self.view_path(),
    {
        self.path.as_str()
    }
}

} // verus!
