use vstd::prelude::*;

verus! {

/// Where a scene is kept: the path of its file.
pub struct Storage {
    path: String,
}

impl Storage {
    /// The path of the file.
    pub closed spec fn spec_path(&self) -> Seq<char> {
        self.path@
    }

    /// Create a new storage for the file at `path`.
    pub fn new(path: &str) -> (r: Storage)
        ensures
            r.spec_path() == path@,
    {
        Storage { path: path.to_owned() }
    }

    /// Get a list of saved scenes: there is the one, named "Default".
    pub fn list_scenes(self) -> (names: Vec<String>)
        ensures
            names@.len() == 1,
            names@[0]@ == "Default"@,
    {
        let mut names: Vec<String> = Vec::new();
        names.push("Default".to_owned());
        names
    }

    /// The path of the file.
    pub fn path(&self) -> (p: &str)
        ensures
            p@ == self.spec_path(),
    {
        self.path.as_str()
    }
}

} // verus!
