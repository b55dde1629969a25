//! Absolute paths as sequences of name components.

use vstd::prelude::*;

verus! {

/// An absolute path, held as its name components from the root down.
pub struct FsPath {
    pub parts: Vec<Vec<u8>>,
}

impl View for FsPath {
    type V = Seq<Seq<u8>>;

    open spec fn view(&self) -> Seq<Seq<u8>> {
        self.parts@.map_values(|p: Vec<u8>| p@)
    }
}

/// `base` is `p` itself or one of its ancestors.
pub open spec fn is_prefix(base: Seq<Seq<u8>>, p: Seq<Seq<u8>>) -> bool {
    base.len() <= p.len() && p.subrange(0, base.len() as int) == base
}

/// Byte-wise equality of two names.
pub fn bytes_equal(a: &Vec<u8>, b: &Vec<u8>) -> (r: bool)
    ensures
        r == (a@ == b@),
{
    if a.len() != b.len() {
        return false;
    }
    let mut i: usize = 0;
    while i < a.len()
        invariant
            a@.len() == b@.len(),
            i <= a@.len(),
            a@.subrange(0, i as int) == b@.subrange(0, i as int),
        decreases a@.len() - i,
    {
        if a[i] != b[i] {
            assert(a@[i as int] != b@[i as int]);
            return false;
        }
        assert(a@.subrange(0, i + 1) =~= a@.subrange(0, i as int).push(a@[i as int]));
        assert(b@.subrange(0, i + 1) =~= b@.subrange(0, i as int).push(b@[i as int]));
        i = i + 1;
    }
    assert(a@ =~= a@.subrange(0, i as int));
    assert(b@ =~= b@.subrange(0, i as int));
    true
}

/// A fresh copy of a byte buffer.
pub fn copy_bytes(a: &Vec<u8>) -> (r: Vec<u8>)
    ensures
        r@ == a@,
{
    let mut r: Vec<u8> = Vec::new();
    let mut i: usize = 0;
    while i < a.len()
        invariant
            i <= a@.len(),
            r@ == a@.subrange(0, i as int),
        decreases a@.len() - i,
    {
        r.push(a[i]);
        assert(a@.subrange(0, i + 1) =~= a@.subrange(0, i as int).push(a@[i as int]));
        i = i + 1;
    }
    assert(a@ =~= a@.subrange(0, i as int));
    r
}

impl FsPath {
    /// The path with the given components.
    pub fn new(parts: Vec<Vec<u8>>) -> (r: FsPath)
        ensures
            r@ == parts@.map_values(|p: Vec<u8>| p@),
    {
        FsPath { parts }
    }

    /// Number of components.
    pub fn depth(&self) -> (r: usize)
        ensures
            r == self@.len(),
    {
        self.parts.len()
    }

    /// A fresh copy of this path.
    pub fn copy(&self) -> (r: FsPath)
        ensures
            r@ == self@,
    {
        let mut parts: Vec<Vec<u8>> = Vec::new();
        let mut i: usize = 0;
        while i < self.parts.len()
            invariant
                i <= self@.len(),
                parts@.len() == i,
                forall|j: int| 0 <= j < i ==> #[trigger] parts@[j]@ == self@[j],
            decreases self@.len() - i,
        {
            let c = copy_bytes(&self.parts[i]);
            parts.push(c);
            i = i + 1;
        }
        let r = FsPath { parts };
        assert(r@ =~= self@);
        r
    }

    /// Whether both paths have the same components.
    pub fn same(&self, other: &FsPath) -> (r: bool)
        ensures
            r == (self@ == other@),
    {
        if self.parts.len() != other.parts.len() {
            return false;
        }
        assert(self@.subrange(0, self@.len() as int) =~= self@);
        self.starts_with(other)
    }

    /// Whether `base` is this path or one of its ancestors.
    pub fn starts_with(&self, base: &FsPath) -> (r: bool)
        ensures
            r == is_prefix(base@, self@),
    {
        let n = base.parts.len();
        if n > self.parts.len() {
            return false;
        }
        let mut i: usize = 0;
        while i < n
            invariant
                n == base@.len(),
                n <= self@.len(),
                i <= n,
                self@.subrange(0, i as int) == base@.subrange(0, i as int),
            decreases n - i,
        {
            if !bytes_equal(&self.parts[i], &base.parts[i]) {
                assert(self@.subrange(0, n as int)[i as int] != base@[i as int]);
                return false;
            }
            assert(self@.subrange(0, i + 1) =~= self@.subrange(0, i as int).push(self@[i as int]));
            assert(base@.subrange(0, i + 1) =~= base@.subrange(0, i as int).push(base@[i as int]));
            i = i + 1;
        }
        assert(base@ =~= base@.subrange(0, n as int));
        true
    }

    /// The path of the entry `name` inside this directory.
    pub fn join(&self, name: &Vec<u8>) -> (r: FsPath)
        ensures
            r@ == self@.push(name@),
    {
        let mut r = self.copy();
        let c = copy_bytes(name);
        r.parts.push(c);
        assert(r@ =~= self@.push(name@));
        r
    }
}

/// The admission predicate for a new watch root: a candidate (already made
/// absolute) is refused when the process's working directory lies inside it.
pub fn check_path(desired: &FsPath, cwd: &FsPath) -> (r: Result<(), ()>)
    ensures
        r is Err <==> is_prefix(desired@, cwd@),
{
    if cwd.starts_with(desired) {
        Err(())
    } else {
        Ok(())
    }
}

} // verus!
