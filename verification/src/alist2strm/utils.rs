//! Decisions about local files: when a companion file is downloaded again,
//! and how far empty directories are removed upwards.
use vstd::prelude::*;
use crate::alist2strm::path::AlistPath;
use crate::outside::{path_eq, path_eq_spec, path_parent, path_parent_spec};

verus! {

/// A local companion file is stale when it is smaller than the remote file,
/// or when its modification time (in whole seconds since the Unix epoch, read
/// as `i64`) is not later than the remote one.
pub open spec fn companion_stale_spec(local_len: u64, local_modified_secs: Option<u64>, remote: AlistPath) -> bool {
    if local_len < remote.size {
        true
    } else {
        match local_modified_secs {
            Some(secs) => (secs as i64) <= remote.modified_timestamp,
            None => false,
        }
    }
}

/// Law: a companion file is stale exactly when it is smaller than the remote
/// file, or when its modification time is known and not later than the
/// remote one, whatever its length.
pub proof fn law_companion_stale(local_len: u64, local_modified_secs: Option<u64>, remote: AlistPath)
    ensures
        companion_stale_spec(local_len, local_modified_secs, remote) <==> (local_len < remote.size || (
            local_modified_secs matches Some(secs) && (secs as i64) <= remote.modified_timestamp)),
{
}

/// Whether a local companion file must be downloaded again, from its length
/// and its modification time (`None` when the file system cannot tell it).
pub fn companion_file_is_stale(local_len: u64, local_modified_secs: Option<u64>, remote_path: &AlistPath) -> (res: bool)
    ensures
        res == companion_stale_spec(local_len, local_modified_secs, *remote_path),
{
    if local_len < remote_path.size {
        return true;
    }
    match local_modified_secs {
        Some(secs) => (secs as i64) <= remote_path.modified_timestamp,
        None => false,
    }
}

/// What happens to a directory while empty directories are removed upwards.
#[derive(Clone, Debug)]
pub enum ParentStep {
    /// Stop: the target directory is reached, or the directory is not empty.
    Stop,
    /// Read the directory and ask again with whether it has entries.
    ReadEntries,
    /// Remove the directory, then go on with `next` (its parent), if any.
    Remove { next: Option<String> },
}

/// The target directory itself is never removed (nor read), nor a directory
/// that has entries; after a removal the parent directory is next.
pub open spec fn parent_step_ok(dir: Seq<char>, target_dir: Seq<char>, has_entries: Option<bool>, step: ParentStep) -> bool {
    if path_eq_spec(dir, target_dir) {
        step is Stop
    } else {
        match has_entries {
            None => step is ReadEntries,
            Some(true) => step is Stop,
            Some(false) => match step {
                ParentStep::Remove { next } => match next {
                    Some(p) => path_parent_spec(dir) == Some(p@),
                    None => path_parent_spec(dir) is None,
                },
                _ => false,
            },
        }
    }
}

/// The decision for one directory on the way up: `has_entries` is `None`
/// until the directory has been read.
pub fn parent_step(dir: &str, target_dir: &str, has_entries: Option<bool>) -> (res: ParentStep)
    ensures
        parent_step_ok(dir@, target_dir@, has_entries, res),
{
    if path_eq(dir, target_dir) {
        return ParentStep::Stop;
    }
    match has_entries {
        None => ParentStep::ReadEntries,
        Some(true) => ParentStep::Stop,
        Some(false) => ParentStep::Remove { next: path_parent(dir) },
    }
}

/// The kind of a directory entry met while local files are collected.
#[derive(Clone, Copy, Debug, PartialEq, Eq)]
pub enum EntryKind {
    Dir,
    File,
    Other,
}

/// The state of a scan of the local files under a target directory: the
/// directories still to read (a stack) and the files found so far, each path
/// once (by `Path`'s `==`). In flat mode only the target directory is read.
pub struct LocalScan {
    flatten: bool,
    pending: Vec<String>,
    files: Vec<String>,
}

/// The texts of a list of paths.
pub open spec fn path_views(v: Seq<String>) -> Seq<Seq<char>> {
    v.map_values(|s: String| s@)
}

/// No path is equal (as a path) to one before it.
pub open spec fn distinct_paths(files: Seq<Seq<char>>) -> bool {
    forall|i: int, j: int| 0 <= i < j < files.len() ==> !path_eq_spec(#[trigger] files[i], #[trigger] files[j])
}

/// Whether a path equal (as a path) to `p` is among the files.
pub open spec fn has_path(files: Seq<Seq<char>>, p: Seq<char>) -> bool {
    exists|i: int| 0 <= i < files.len() && path_eq_spec(#[trigger] files[i], p)
}

impl LocalScan {
    /// Each file is kept once.
    #[verifier::type_invariant]
    spec fn files_distinct(&self) -> bool {
        distinct_paths(path_views(self.files@))
    }

    pub closed spec fn flatten_view(&self) -> bool {
        self.flatten
    }

    pub closed spec fn pending_view(&self) -> Seq<Seq<char>> {
        path_views(self.pending@)
    }

    pub closed spec fn files_view(&self) -> Seq<Seq<char>> {
        path_views(self.files@)
    }

    /// A scan that starts at the target directory, with no file found yet.
    pub fn new(target_dir: String, flatten: bool) -> (res: LocalScan)
        ensures
            res.flatten_view() == flatten,
            res.pending_view() == seq![target_dir@],
            res.files_view() == Seq::<Seq<char>>::empty(),
            distinct_paths(res.files_view()),
    {
        let mut pending = Vec::new();
        pending.push(target_dir);
        let files: Vec<String> = Vec::new();
        assert(path_views(files@) =~= Seq::<Seq<char>>::empty());
        let res = LocalScan { flatten, pending, files };
        assert(res.pending_view() =~= seq![target_dir@]);
        assert(res.files_view() =~= Seq::<Seq<char>>::empty());
        res
    }

    /// The next directory to read: the last one put on the stack.
    pub fn next_dir(&mut self) -> (res: Option<String>)
        ensures
            final(self).flatten_view() == old(self).flatten_view(),
            final(self).files_view() == old(self).files_view(),
            old(self).pending_view().len() == 0 ==> res is None && final(self).pending_view() == old(self).pending_view(),
            old(self).pending_view().len() > 0 ==> (res matches Some(d) && d@ == old(self).pending_view().last()
                && final(self).pending_view() == old(self).pending_view().drop_last()),
    {
        proof {
            use_type_invariant(&*self);
        }
        let mut pending: Vec<String> = Vec::new();
        std::mem::swap(&mut pending, &mut self.pending);
        let res = pending.pop();
        self.pending = pending;
        proof {
            assert(path_views(self.pending@) =~= path_views(old(self).pending@).drop_last()
                || old(self).pending@.len() == 0);
        }
        res
    }

    /// Takes in one entry of the directory just read: a file is kept unless
    /// an equal path already is; a directory is put on the stack unless the
    /// scan is flat; anything else is ignored.
    pub fn visit(&mut self, path: String, kind: EntryKind)
        ensures
            final(self).flatten_view() == old(self).flatten_view(),
            distinct_paths(final(self).files_view()),
            final(self).files_view() == (if kind == EntryKind::File && !has_path(old(self).files_view(), path@) {
                old(self).files_view().push(path@)
            } else {
                old(self).files_view()
            }),
            final(self).pending_view() == (if kind == EntryKind::Dir && !old(self).flatten_view() {
                old(self).pending_view().push(path@)
            } else {
                old(self).pending_view()
            }),
    {
        proof {
            use_type_invariant(&*self);
        }
        match kind {
            EntryKind::File => {
                let mut i: usize = 0;
                let mut found = false;
                while i < self.files.len()
                    invariant
                        i <= self.files.len(),
                        found == exists|k: int| 0 <= k < i && path_eq_spec(#[trigger] path_views(self.files@)[k], path@),
                    decreases self.files.len() - i,
                {
                    assert(path_views(self.files@)[i as int] == self.files@[i as int]@);
                    if path_eq(self.files[i].as_str(), path.as_str()) {
                        found = true;
                    }
                    i = i + 1;
                }
                if !found {
                    let ghost before = self.files@;
                    let mut files: Vec<String> = Vec::new();
                    std::mem::swap(&mut files, &mut self.files);
                    files.push(path);
                    proof {
                        assert(path_views(files@) =~= path_views(before).push(path@));
                        let fs = path_views(files@);
                        assert forall|a: int, b: int| 0 <= a < b < fs.len()
                            implies !path_eq_spec(#[trigger] fs[a], #[trigger] fs[b]) by {
                            if b == fs.len() - 1 {
                                assert(fs[a] == path_views(before)[a]);
                            } else {
                                assert(fs[a] == path_views(before)[a]);
                                assert(fs[b] == path_views(before)[b]);
                            }
                        }
                    }
                    self.files = files;
                }
            },
            EntryKind::Dir => {
                if !self.flatten {
                    let ghost before = self.pending@;
                    let mut pending: Vec<String> = Vec::new();
                    std::mem::swap(&mut pending, &mut self.pending);
                    pending.push(path);
                    self.pending = pending;
                    proof {
                        assert(path_views(self.pending@) =~= path_views(before).push(path@));
                    }
                }
            },
            EntryKind::Other => {},
        }
    }

    /// The files found.
    pub fn into_files(self) -> (res: Vec<String>)
        ensures
            path_views(res@) == self.files_view(),
    {
        self.files
    }
}

} // verus!
