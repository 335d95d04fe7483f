//! Migration: move one eligible flat module to its destination root file.

use vstd::prelude::*;

use crate::fs_model::Fs;
use crate::fs_model::FsKind;
use crate::fs_model::FsPath;
use crate::fs_model::is_dir_at;
use crate::fs_model::is_file_at;

verus! {

/// Applies one candidate move to a snapshot.
pub struct ModuleMigrator;

impl ModuleMigrator {
    /// Moves the file at `src` to the free spot `dst`, atomically in the
    /// model: the source entry disappears and the destination appears as a
    /// file, nothing else changes. The destination's parent must already be
    /// a directory — for every candidate the scanner emits it is the
    /// sibling directory — and a well-formed snapshot keeps every deeper
    /// ancestor present too, so after the move every proper ancestor of
    /// `dst` provably exists as a directory: ensuring the ancestors is a
    /// silent success, and the move itself is one atomic rename.
    pub fn migrate(&self, fs: &mut Fs, src: &FsPath, dst: &FsPath)
        requires
            old(fs).wf(),
            is_file_at(old(fs)@, src@),
            !old(fs)@.contains_key(dst@),
            dst@.len() > 0,
            dst@.len() == 1 || is_dir_at(old(fs)@, dst@.drop_last()),
        ensures
            final(fs).wf(),
            final(fs)@ == old(fs)@.remove(src@).insert(dst@, FsKind::File),
            forall|k: int| 1 <= k < dst@.len() ==> is_dir_at(final(fs)@, #[trigger] dst@.take(k)),
    {
        fs.relocate(src, dst);
    }
}

} // verus!
