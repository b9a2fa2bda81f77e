//! Filesystem paths as sequences of name components.
//!
//! The engine compares paths for identity and extends them one component at
//! a time while it descends a tree; both operations are stated over the
//! path's view, a sequence of character sequences.

use vstd::prelude::*;

verus! {

/// A filesystem path, held as its list of name components.
pub struct FsPath {
    parts: Vec<String>,
}

impl View for FsPath {
    type V = Seq<Seq<char>>;

    closed spec fn view(&self) -> Seq<Seq<char>> {
        self.parts@.map_values(|s: String| s@)
    }
}

impl FsPath {
    /// The empty path, root of every join.
    pub fn empty() -> (r: FsPath)
        ensures
            r@ == Seq::<Seq<char>>::empty(),
    {
        let r = FsPath { parts: Vec::new() };
        proof {
            assert(r@ =~= Seq::<Seq<char>>::empty());
        }
        r
    }

    /// Builds a path from its components.
    pub fn from_parts(parts: Vec<String>) -> (r: FsPath)
        ensures
            r@ == parts@.map_values(|s: String| s@),
    {
        FsPath { parts }
    }

    /// The number of components.
    pub fn depth(&self) -> (r: usize)
        ensures
            r == self@.len(),
    {
        self.parts.len()
    }

    /// An exact copy.
    pub fn copy_of(&self) -> (r: FsPath)
        ensures
            r@ == self@,
    {
        let mut parts: Vec<String> = Vec::new();
        let n = self.parts.len();
        for i in 0..n
            invariant
                n == self.parts.len(),
                parts@.len() == i,
                forall|j: int| 0 <= j < i ==> parts@[j]@ == self.parts@[j]@,
        {
            parts.push(self.parts[i].clone());
        }
        let r = FsPath { parts };
        proof {
            assert(r@ =~= self@);
        }
        r
    }

    /// The path one component deeper: `self` followed by `name`.
    pub fn child(&self, name: &String) -> (r: FsPath)
        ensures
            r@ == self@.push(name@),
    {
        let mut r = self.copy_of();
        r.parts.push(name.clone());
        proof {
            assert(r@ =~= self@.push(name@));
        }
        r
    }

    /// This path followed by all components of `rest`.
    pub fn concat(&self, rest: &FsPath) -> (r: FsPath)
        ensures
            r@ == self@ + rest@,
    {
        let mut r = self.copy_of();
        let n = rest.parts.len();
        for i in 0..n
            invariant
                n == rest.parts.len(),
                r.parts@.len() == self@.len() + i,
                forall|j: int| 0 <= j < self@.len() ==> r@[j] == self@[j],
                forall|j: int| 0 <= j < i ==> r@[self@.len() + j] == rest@[j],
        {
            r.parts.push(rest.parts[i].clone());
        }
        proof {
            assert(r@ =~= self@ + rest@);
        }
        r
    }

    /// Gives the components up, for a caller that assembles a real path.
    pub fn into_parts(self) -> (r: Vec<String>)
        ensures
            r@.map_values(|s: String| s@) == self@,
    {
        self.parts
    }

    /// Whether two paths name the same location, component by component.
    pub fn same_path(&self, other: &FsPath) -> (r: bool)
        ensures
            r == (self@ == other@),
    {
        if self.parts.len() != other.parts.len() {
            proof {
                assert(self@.len() != other@.len());
            }
            return false;
        }
        let n = self.parts.len();
        for i in 0..n
            invariant
                n == self.parts.len(),
                n == other.parts.len(),
                forall|j: int| 0 <= j < i ==> self@[j] == other@[j],
        {
            if !(self.parts[i] == other.parts[i]) {
                proof {
                    assert(self@[i as int] != other@[i as int]);
                }
                return false;
            }
        }
        proof {
            assert(self@ =~= other@);
        }
        true
    }
}

} // verus!
