use vstd::prelude::*;

use crate::node::same_text;

verus! {

/// What a file-writing node last opened: the path and whether it appends. A write to another
/// path, or with the other mode, has to open the file again.
#[derive(Debug)]
pub struct FileTarget {
    pub current_path: Option<String>,
    pub current_append: Option<bool>,
}

impl FileTarget {
    /// Nothing opened yet.
    pub fn new() -> (r: Self)
        ensures
            r.current_path is None,
            r.current_append is None,
    {
        FileTarget { current_path: None, current_append: None }
    }

    /// Whether a write to `path` in mode `append` needs the file opened first.
    pub fn needs_open(&self, path: &str, append: bool) -> (r: bool)
        ensures
            r == !(self.current_path is Some && self.current_path.unwrap()@ == path@
                && self.current_append == Some(append)),
    {
        let same_path = match &self.current_path {
            Some(current) => same_text(current.as_str(), path),
            None => false,
        };
        !same_path || self.current_append != Some(append)
    }

    /// Records that `path` is now open in mode `append`.
    pub fn opened(&mut self, path: &str, append: bool)
        ensures
            final(self).current_path is Some,
            final(self).current_path.unwrap()@ == path@,
            final(self).current_append == Some(append),
    {
        self.current_path = Some(path.to_owned());
        self.current_append = Some(append);
    }
}

} // verus!
