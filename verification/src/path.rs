//! Filesystem paths as the engines see them: a root (the drive or `/`, empty
//! for a relative path) followed by the path's ordinary components, one per
//! directory level. Parent, file name, prefix and equality are all component
//! operations, exactly as `std::path::Path` defines them.

use vstd::prelude::*;

verus! {

/// A path split into its root and its components.
#[derive(Debug, Clone)]
pub struct FsPath {
    /// `"/"` on Unix, `"C:\\"` (prefix and root directory together) on
    /// Windows, empty for a relative path.
    pub root: String,
    /// The components below the root, outermost first.
    pub parts: Vec<String>,
}

/// The mathematical form of a path: its root followed by its components.
pub type PathSeq = Seq<Seq<char>>;

/// A path's components as character sequences.
pub open spec fn parts_view(parts: Seq<String>) -> Seq<Seq<char>> {
    Seq::new(parts.len(), |i: int| parts[i]@)
}

impl View for FsPath {
    type V = PathSeq;

    open spec fn view(&self) -> PathSeq {
        seq![self.root@] + parts_view(self.parts@)
    }
}

/// The parent of a path: the path without its last component, or none for a
/// bare root.
pub open spec fn parent_of(p: PathSeq) -> Option<PathSeq> {
    if p.len() <= 1 {
        None
    } else {
        Some(p.drop_last())
    }
}

/// The last component of a path, unless the path is a bare root or ends in `..`.
pub open spec fn file_name_of(p: PathSeq) -> Option<Seq<char>> {
    if p.len() <= 1 || p.last() == ".."@ {
        None
    } else {
        Some(p.last())
    }
}

/// Component-wise prefix: `base` is `p` itself or one of its ancestors.
pub open spec fn path_starts_with(p: PathSeq, base: PathSeq) -> bool {
    base.len() <= p.len() && p.subrange(0, base.len() as int) =~~= base
}

/// Whether `d` is `p` or one of its ancestors (any prefix of at least the root).
pub open spec fn is_prefix_path(d: PathSeq, p: PathSeq) -> bool {
    1 <= d.len() <= p.len() && p.subrange(0, d.len() as int) =~~= d
}

/// Exact equality of two strings.
pub fn string_eq(a: &String, b: &String) -> (r: bool)
    ensures
        r == (a@ == b@),
{
    *a == *b
}

impl FsPath {
    /// A path made of a root and components.
    pub fn new(root: String, parts: Vec<String>) -> (p: FsPath)
        ensures
            p.root == root,
            p.parts == parts,
    {
        FsPath { root, parts }
    }

    /// The number of components below the root.
    pub fn depth(&self) -> (n: usize)
        ensures
            n == self@.len() - 1,
    {
        self.parts.len()
    }

    /// Component-wise equality.
    pub fn same_as(&self, other: &FsPath) -> (r: bool)
        ensures
            r == (self@ == other@),
    {
        if !string_eq(&self.root, &other.root) {
            proof {
                assert(self@[0] == self.root@);
                assert(other@[0] == other.root@);
            }
            return false;
        }
        let n = self.parts.len();
        if n != other.parts.len() {
            proof {
                assert(self@.len() != other@.len());
            }
            return false;
        }
        let mut i: usize = 0;
        while i < n
            invariant
                n == self.parts.len(),
                n == other.parts.len(),
                i <= n,
                self.root@ == other.root@,
                forall|k: int| 0 <= k < i ==> self.parts@[k]@ == other.parts@[k]@,
            decreases n - i,
        {
            if !string_eq(&self.parts[i], &other.parts[i]) {
                proof {
                    assert(self@[i + 1] == self.parts@[i as int]@);
                    assert(other@[i + 1] == other.parts@[i as int]@);
                }
                return false;
            }
            i = i + 1;
        }
        assert(self@ =~= other@);
        true
    }

    /// A separate copy of this path.
    pub fn copied(&self) -> (r: FsPath)
        ensures
            r@ == self@,
    {
        let mut parts: Vec<String> = Vec::new();
        let n = self.parts.len();
        let mut i: usize = 0;
        while i < n
            invariant
                n == self.parts.len(),
                i <= n,
                parts@.len() == i,
                forall|k: int| 0 <= k < i ==> parts@[k]@ == self.parts@[k]@,
            decreases n - i,
        {
            parts.push(self.parts[i].clone());
            i = i + 1;
        }
        let r = FsPath { root: self.root.clone(), parts };
        assert(r@ =~= self@);
        r
    }

    /// The parent directory, or `None` for a bare root (or an empty relative path).
    pub fn parent(&self) -> (r: Option<FsPath>)
        ensures
            match r {
                Some(q) => parent_of(self@) == Some(q@),
                None => parent_of(self@) is None,
            },
    {
        let n = self.parts.len();
        if n == 0 {
            return None;
        }
        let mut parts: Vec<String> = Vec::new();
        let mut i: usize = 0;
        while i < n - 1
            invariant
                n == self.parts.len(),
                n >= 1,
                i <= n - 1,
                parts@.len() == i,
                forall|k: int| 0 <= k < i ==> parts@[k]@ == self.parts@[k]@,
            decreases n - 1 - i,
        {
            parts.push(self.parts[i].clone());
            i = i + 1;
        }
        let q = FsPath { root: self.root.clone(), parts };
        assert(q@ =~= self@.drop_last());
        Some(q)
    }

    /// The final component, unless the path is a bare root or ends in `..`.
    pub fn file_name(&self) -> (r: Option<&String>)
        ensures
            match r {
                Some(s) => file_name_of(self@) == Some(s@),
                None => file_name_of(self@) is None,
            },
    {
        let n = self.parts.len();
        if n == 0 {
            return None;
        }
        let last = &self.parts[n - 1];
        proof {
            assert(self@.last() == last@);
        }
        if crate::text::str_eq(last.as_str(), "..") {
            None
        } else {
            Some(last)
        }
    }

    /// Component-wise prefix test, as `Path::starts_with`.
    pub fn starts_with(&self, base: &FsPath) -> (r: bool)
        ensures
            r == path_starts_with(self@, base@),
    {
        let n = base.parts.len();
        if n > self.parts.len() {
            return false;
        }
        if !string_eq(&self.root, &base.root) {
            proof {
                assert(self@[0] == self.root@);
                assert(base@[0] == base.root@);
                assert(self@.subrange(0, base@.len() as int)[0] == self@[0]);
            }
            return false;
        }
        let mut i: usize = 0;
        while i < n
            invariant
                n == base.parts.len(),
                n <= self.parts.len(),
                i <= n,
                self.root@ == base.root@,
                forall|k: int| 0 <= k < i ==> self.parts@[k]@ == base.parts@[k]@,
            decreases n - i,
        {
            if !string_eq(&self.parts[i], &base.parts[i]) {
                proof {
                    assert(self@.subrange(0, base@.len() as int)[i + 1] == self.parts@[i as int]@);
                    assert(base@[i + 1] == base.parts@[i as int]@);
                }
                return false;
            }
            i = i + 1;
        }
        proof {
            let s = self@.subrange(0, base@.len() as int);
            assert forall|k: int| 0 <= k < s.len() implies s[k] =~~= base@[k] by {
                if k > 0 {
                    assert(self.parts@[k - 1]@ == base.parts@[k - 1]@);
                }
            }
            assert(s =~~= base@);
        }
        true
    }
}

} // verus!
