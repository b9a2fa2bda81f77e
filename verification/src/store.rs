//! The destination side of a copy: the files and directories that exist
//! under the destination root.
//!
//! A [`DirStore`] holds files as an association list from path to bytes
//! and directories as a list of paths; its view is the pair of the map
//! from file path to contents and the set of directory paths. The copy
//! engine reads sizes from it, creates directories tolerating ones that
//! already exist, and writes or removes files; every operation states the
//! new view in terms of the old one.

use vstd::prelude::*;
use crate::paths::FsPath;

verus! {

/// The mathematical contents of a destination: file contents by path,
/// and the set of directories.
#[verifier::ext_equal]
pub struct StoreView {
    pub files: Map<Seq<Seq<char>>, Seq<u8>>,
    pub dirs: Set<Seq<Seq<char>>>,
}

/// The map an association list of files denotes; a later entry for the
/// same path would win, though a well-formed store never holds one.
pub open spec fn files_map(s: Seq<(FsPath, Vec<u8>)>) -> Map<Seq<Seq<char>>, Seq<u8>>
    decreases s,
{
    if s.len() == 0 {
        Map::<Seq<Seq<char>>, Seq<u8>>::empty()
    } else {
        files_map(s.drop_last()).insert(s.last().0@, s.last().1@)
    }
}

/// The set of directory paths a list denotes.
pub open spec fn dirs_set(s: Seq<FsPath>) -> Set<Seq<Seq<char>>>
    decreases s,
{
    if s.len() == 0 {
        Set::<Seq<Seq<char>>>::empty()
    } else {
        dirs_set(s.drop_last()).insert(s.last()@)
    }
}

/// No two entries name the same file.
pub open spec fn unique_keys(s: Seq<(FsPath, Vec<u8>)>) -> bool {
    forall|i: int, j: int| 0 <= i < j < s.len() ==> s[i].0@ != s[j].0@
}

/// What the association list's map holds, entry by entry.
pub proof fn lemma_files_map_props(s: Seq<(FsPath, Vec<u8>)>)
    requires
        unique_keys(s),
    ensures
        forall|p: Seq<Seq<char>>| #[trigger] files_map(s).contains_key(p) ==> exists|i: int|
            0 <= i < s.len() && s[i].0@ == p,
        forall|i: int|
            0 <= i < s.len() ==> files_map(s).contains_key(#[trigger] s[i].0@) && files_map(
                s,
            )[s[i].0@] == s[i].1@,
    decreases s.len(),
{
    if s.len() > 0 {
        let t = s.drop_last();
        assert(unique_keys(t)) by {
            assert(forall|i: int| 0 <= i < t.len() ==> t[i] == s[i]);
        }
        lemma_files_map_props(t);
        assert(forall|i: int| 0 <= i < t.len() ==> t[i] == s[i]);
        assert forall|p: Seq<Seq<char>>| #[trigger] files_map(s).contains_key(p) implies exists|
            i: int,
        | 0 <= i < s.len() && s[i].0@ == p by {
            if p == s.last().0@ {
                assert(s[s.len() - 1].0@ == p);
            } else {
                assert(files_map(t).contains_key(p));
            }
        }
        assert forall|i: int| 0 <= i < s.len() implies files_map(s).contains_key(
            #[trigger] s[i].0@,
        ) && files_map(s)[s[i].0@] == s[i].1@ by {
            if i < s.len() - 1 {
                assert(s[i].0@ != s.last().0@);
                assert(files_map(t).contains_key(s[i].0@) && files_map(t)[s[i].0@] == s[i].1@);
            }
        }
    }
}

/// What the directory list's set holds.
pub proof fn lemma_dirs_set_props(s: Seq<FsPath>)
    ensures
        forall|p: Seq<Seq<char>>| #[trigger] dirs_set(s).contains(p) ==> exists|i: int|
            0 <= i < s.len() && s[i]@ == p,
        forall|i: int| 0 <= i < s.len() ==> dirs_set(s).contains(#[trigger] s[i]@),
    decreases s.len(),
{
    if s.len() > 0 {
        let t = s.drop_last();
        lemma_dirs_set_props(t);
        assert(forall|i: int| 0 <= i < t.len() ==> t[i] == s[i]);
        assert forall|p: Seq<Seq<char>>| #[trigger] dirs_set(s).contains(p) implies exists|i: int|
            0 <= i < s.len() && s[i]@ == p by {
            if p == s.last()@ {
                assert(s[s.len() - 1]@ == p);
            } else {
                assert(dirs_set(t).contains(p));
            }
        }
    }
}

/// Removing entry `i` removes exactly its key from the map.
pub proof fn lemma_files_map_remove(s: Seq<(FsPath, Vec<u8>)>, i: int)
    requires
        unique_keys(s),
        0 <= i < s.len(),
    ensures
        unique_keys(s.remove(i)),
        files_map(s.remove(i)) == files_map(s).remove(s[i].0@),
    decreases s.len(),
{
    let r = s.remove(i);
    assert(unique_keys(r)) by {
        assert(forall|k: int| 0 <= k < i ==> r[k] == s[k]);
        assert(forall|k: int| i <= k < r.len() ==> r[k] == s[k + 1]);
    }
    if i == s.len() - 1 {
        assert(r =~= s.drop_last());
        lemma_files_map_props(s.drop_last());
        assert(!files_map(s.drop_last()).contains_key(s[i].0@)) by {
            if files_map(s.drop_last()).contains_key(s[i].0@) {
                let j = choose|j: int|
                    0 <= j < s.drop_last().len() && s.drop_last()[j].0@ == s[i].0@;
                assert(s[j].0@ == s[i].0@);
            }
        }
        assert(files_map(r) =~= files_map(s).remove(s[i].0@));
    } else {
        let t = s.drop_last();
        assert(unique_keys(t)) by {
            assert(forall|k: int| 0 <= k < t.len() ==> t[k] == s[k]);
        }
        lemma_files_map_remove(t, i);
        assert(r.drop_last() =~= t.remove(i));
        assert(r.last() == s.last());
        assert(files_map(r) == files_map(t.remove(i)).insert(s.last().0@, s.last().1@));
        assert(s[i].0@ != s.last().0@);
        assert(files_map(t).remove(s[i].0@).insert(s.last().0@, s.last().1@) =~= files_map(
            t,
        ).insert(s.last().0@, s.last().1@).remove(s[i].0@));
        assert(files_map(r) =~= files_map(s).remove(s[i].0@));
    }
}

/// The destination's contents.
pub struct DirStore {
    files: Vec<(FsPath, Vec<u8>)>,
    dirs: Vec<FsPath>,
}

impl View for DirStore {
    type V = StoreView;

    closed spec fn view(&self) -> StoreView {
        StoreView { files: files_map(self.files@), dirs: dirs_set(self.dirs@) }
    }
}

impl DirStore {
    /// Well-formedness: no path is listed twice among the files.
    pub closed spec fn wf(&self) -> bool {
        unique_keys(self.files@)
    }

    /// An empty destination.
    pub fn new() -> (r: DirStore)
        ensures
            r.wf(),
            r@.files == Map::<Seq<Seq<char>>, Seq<u8>>::empty(),
            r@.dirs == Set::<Seq<Seq<char>>>::empty(),
    {
        let r = DirStore { files: Vec::new(), dirs: Vec::new() };
        proof {
            assert(r@.files =~= Map::<Seq<Seq<char>>, Seq<u8>>::empty());
            assert(r@.dirs =~= Set::<Seq<Seq<char>>>::empty());
        }
        r
    }

    /// The size of the file at `p`, or `None` when no such file exists.
    pub fn file_size(&self, p: &FsPath) -> (r: Option<usize>)
        requires
            self.wf(),
        ensures
            match r {
                Some(l) => self@.files.contains_key(p@) && self@.files[p@].len() == l,
                None => !self@.files.contains_key(p@),
            },
    {
        let n = self.files.len();
        for i in 0..n
            invariant
                n == self.files.len(),
                self.wf(),
                forall|j: int| 0 <= j < i ==> self.files@[j].0@ != p@,
        {
            if self.files[i].0.same_path(p) {
                proof {
                    lemma_files_map_props(self.files@);
                }
                return Some(self.files[i].1.len());
            }
        }
        proof {
            lemma_files_map_props(self.files@);
            if self@.files.contains_key(p@) {
                let j = choose|j: int| 0 <= j < self.files@.len() && self.files@[j].0@ == p@;
                assert(false);
            }
        }
        None
    }

    /// The bytes of the file at `p`, or `None` when no such file exists.
    pub fn file_bytes(&self, p: &FsPath) -> (r: Option<&Vec<u8>>)
        requires
            self.wf(),
        ensures
            match r {
                Some(b) => self@.files.contains_key(p@) && self@.files[p@] == b@,
                None => !self@.files.contains_key(p@),
            },
    {
        let n = self.files.len();
        for i in 0..n
            invariant
                n == self.files.len(),
                self.wf(),
                forall|j: int| 0 <= j < i ==> self.files@[j].0@ != p@,
        {
            if self.files[i].0.same_path(p) {
                proof {
                    lemma_files_map_props(self.files@);
                }
                return Some(&self.files[i].1);
            }
        }
        proof {
            lemma_files_map_props(self.files@);
            if self@.files.contains_key(p@) {
                let j = choose|j: int| 0 <= j < self.files@.len() && self.files@[j].0@ == p@;
                assert(false);
            }
        }
        None
    }

    /// Whether the directory `p` exists.
    pub fn has_dir(&self, p: &FsPath) -> (r: bool)
        ensures
            r == self@.dirs.contains(p@),
    {
        let n = self.dirs.len();
        for i in 0..n
            invariant
                n == self.dirs.len(),
                forall|j: int| 0 <= j < i ==> self.dirs@[j]@ != p@,
        {
            if self.dirs[i].same_path(p) {
                proof {
                    lemma_dirs_set_props(self.dirs@);
                }
                return true;
            }
        }
        proof {
            lemma_dirs_set_props(self.dirs@);
            if self@.dirs.contains(p@) {
                let j = choose|j: int| 0 <= j < self.dirs@.len() && self.dirs@[j]@ == p@;
                assert(false);
            }
        }
        false
    }

    /// Creates the directory `p`; one that already exists is left as it
    /// is, as the engine tolerates.
    pub fn create_dir(&mut self, p: &FsPath)
        requires
            old(self).wf(),
        ensures
            final(self).wf(),
            final(self)@.files == old(self)@.files,
            final(self)@.dirs == old(self)@.dirs.insert(p@),
    {
        let ghost before = self.dirs@;
        self.dirs.push(p.copy_of());
        proof {
            assert(self.dirs@.drop_last() =~= before);
        }
    }

    /// Writes a file that does not yet exist.
    pub fn write_new_file(&mut self, p: &FsPath, bytes: Vec<u8>)
        requires
            old(self).wf(),
            !old(self)@.files.contains_key(p@),
        ensures
            final(self).wf(),
            final(self)@.files == old(self)@.files.insert(p@, bytes@),
            final(self)@.dirs == old(self)@.dirs,
    {
        proof {
            lemma_files_map_props(self.files@);
        }
        let ghost before = self.files@;
        self.files.push((p.copy_of(), bytes));
        proof {
            assert(self.files@.drop_last() =~= before);
            assert(unique_keys(self.files@)) by {
                assert(forall|j: int| 0 <= j < before.len() ==> self.files@[j] == before[j]);
                assert(forall|j: int| 0 <= j < before.len() ==> before[j].0@ != p@);
            }
        }
    }

    /// Removes the file at `p`, as the engine does before it re-copies a
    /// stale destination file.
    pub fn remove_file(&mut self, p: &FsPath)
        requires
            old(self).wf(),
            old(self)@.files.contains_key(p@),
        ensures
            final(self).wf(),
            final(self)@.files == old(self)@.files.remove(p@),
            final(self)@.dirs == old(self)@.dirs,
    {
        let n = self.files.len();
        for i in 0..n
            invariant
                n == self.files.len(),
                self.wf(),
                *self == *old(self),
                forall|j: int| 0 <= j < i ==> self.files@[j].0@ != p@,
        {
            if self.files[i].0.same_path(p) {
                proof {
                    lemma_files_map_remove(self.files@, i as int);
                }
                self.files.remove(i);
                return;
            }
        }
        proof {
            lemma_files_map_props(self.files@);
            let j = choose|j: int| 0 <= j < self.files@.len() && self.files@[j].0@ == p@;
            assert(false);
        }
    }
}

} // verus!
