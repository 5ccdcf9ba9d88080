//! A JPEG file, its optional RAW sibling, and what is to be deleted of them.
use vstd::prelude::*;

verus! {

/// What to delete of a photo pair.
#[derive(Debug, Clone, Copy, PartialEq, Eq, Structural)]
pub enum DeletionAction {
    KeepBoth,
    DeleteRaw,
    DeleteJpeg,
    DeleteBoth,
}

impl Default for DeletionAction {
    fn default() -> (r: Self)
        ensures
            r == DeletionAction::KeepBoth,
    {
        DeletionAction::KeepBoth
    }
}

impl DeletionAction {
    pub open spec fn label_spec(self) -> Seq<char> {
        match self {
            DeletionAction::KeepBoth => "Keep Both"@,
            DeletionAction::DeleteRaw => "Delete RAW"@,
            DeletionAction::DeleteJpeg => "Delete JPEG"@,
            DeletionAction::DeleteBoth => "Delete Both"@,
        }
    }

    /// The name shown for the action.
    pub fn label(&self) -> (r: &'static str)
        ensures
            r@ == self.label_spec(),
    {
        proof {
            reveal_strlit("Keep Both");
            reveal_strlit("Delete RAW");
            reveal_strlit("Delete JPEG");
            reveal_strlit("Delete Both");
        }
        match self {
            DeletionAction::KeepBoth => "Keep Both",
            DeletionAction::DeleteRaw => "Delete RAW",
            DeletionAction::DeleteJpeg => "Delete JPEG",
            DeletionAction::DeleteBoth => "Delete Both",
        }
    }

    /// The action removes the RAW file, where there is one.
    pub open spec fn removes_raw(self) -> bool {
        self == DeletionAction::DeleteRaw || self == DeletionAction::DeleteBoth
    }

    /// The action removes the JPEG file.
    pub open spec fn removes_jpeg(self) -> bool {
        self == DeletionAction::DeleteJpeg || self == DeletionAction::DeleteBoth
    }
}

/// A JPEG file and the RAW file of the same base name, if any. Paths are
/// held as text.
#[derive(Debug, Clone)]
pub struct PhotoPair {
    pub basename: String,
    pub jpeg_path: String,
    pub raw_path: Option<String>,
    pub action: DeletionAction,
}

impl PhotoPair {
    /// A pair whose action is to keep both files.
    pub fn new(basename: String, jpeg_path: String, raw_path: Option<String>) -> (r: Self)
        ensures
            r.basename == basename,
            r.jpeg_path == jpeg_path,
            r.raw_path == raw_path,
            r.action == DeletionAction::KeepBoth,
    {
        PhotoPair { basename, jpeg_path, raw_path, action: DeletionAction::KeepBoth }
    }

    pub fn has_raw(&self) -> (r: bool)
        ensures
            r == self.raw_path.is_some(),
    {
        self.raw_path.is_some()
    }
}

} // verus!
