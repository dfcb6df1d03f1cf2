//! The provider that serves a folder of the real filesystem: what it decides
//! before the filesystem is asked.

use crate::error::VfsError;
use crate::grammar::{canonical, has_parent_segment};
use crate::path::VfsPath;
use vstd::prelude::*;
use vstd::string::*;

verus! {

/// A folder of the real filesystem under which paths are resolved.
#[derive(Debug)]
pub struct PhysicalMount {
    folder: String,
}

impl View for PhysicalMount {
    type V = Seq<char>;

    /// The text of the folder.
    closed spec fn view(&self) -> Seq<char> {
        self.folder@
    }
}

impl PhysicalMount {
    /// A provider for `folder`. The caller has asked the filesystem whether
    /// `folder` is a directory that exists, and says so in `is_dir`; a folder
    /// that is none is refused.
    pub fn new(folder: &str, is_dir: bool) -> (made: Result<Self, VfsError>)
        ensures
            match made {
                Ok(mount) => is_dir && mount@ == folder@,
                Err(error) => !is_dir && error == VfsError::InvalidInput,
            },
    {
        if is_dir {
            Ok(PhysicalMount { folder: folder.to_owned() })
        } else {
            Err(VfsError::InvalidInput)
        }
    }

    /// The folder that the provider serves.
    pub fn folder(&self) -> (text: &str)
        ensures
            text@ == self@,
    {
        self.folder.as_str()
    }

    /// The place in the real filesystem that `path` stands for: the folder,
    /// followed by the canonical form of the path. A path with a `..` segment
    /// stands for no place.
    pub fn locate(&self, path: VfsPath<'_>) -> (place: Result<String, VfsError>)
        ensures
            match place {
                Ok(text) => !has_parent_segment(path@) && text@ == self@ + canonical(path@),
                Err(error) => has_parent_segment(path@) && error == VfsError::InvalidPath,
            },
    {
        match path.validate() {
            Err(error) => Err(error),
            Ok(checked) => {
                let relative = checked.canonicalize();
                let mut text = self.folder.clone();
                text.append(relative.as_path().to_str());
                Ok(text)
            },
        }
    }
}

} // verus!
