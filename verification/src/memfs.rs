use vstd::prelude::*;

verus! {

/// Why a single directory creation failed.
pub enum CreateErrorKind {
    /// The target directory already exists; creation does not recreate.
    AlreadyExists,
    /// The parent of the target does not exist; creation makes exactly
    /// one new directory level and never fills in missing ancestors.
    ParentMissing,
}

/// A failed directory creation: the path that was attempted and why it
/// failed.  The first failure aborts a whole walk.
pub struct CreateError {
    pub path: Vec<String>,
    pub kind: CreateErrorKind,
}

/// An in-memory directory store.  A directory is a path kept as its
/// sequence of name segments; the store remembers which paths exist.
/// A fresh store holds one directory, the root, at the empty path.
pub struct MemFs {
    pub dirs: Vec<Vec<String>>,
}

impl MemFs {
    /// The path `p` exists as a directory in this store.
    pub open spec fn has_dir(self, p: Seq<Seq<char>>) -> bool {
        exists|i: int| 0 <= i < self.dirs@.len() && (#[trigger] self.dirs@[i]).deep_view() == p
    }

    /// A fresh store holding only the root directory (the empty path).
    pub fn new() -> (r: MemFs)
        ensures
            forall|p: Seq<Seq<char>>| #[trigger] r.has_dir(p) <==> p === Seq::<Seq<char>>::empty(),
    {
        let mut dirs: Vec<Vec<String>> = Vec::new();
        dirs.push(Vec::new());
        let r = MemFs { dirs };
        proof {
            assert(r.dirs@[0].deep_view() =~= Seq::<Seq<char>>::empty());
        }
        r
    }

    /// How many directory records the store holds.
    pub fn dir_count(&self) -> (r: usize)
        ensures
            r == self.dirs@.len(),
    {
        self.dirs.len()
    }

    /// Whether the directory at `p` exists.
    pub fn contains_dir(&self, p: &Vec<String>) -> (r: bool)
        ensures
            r == self.has_dir(p.deep_view()),
    {
        let mut i: usize = 0;
        while i < self.dirs.len()
            invariant
                i <= self.dirs@.len(),
                forall|j: int| 0 <= j < i ==> (#[trigger] self.dirs@[j]).deep_view() != p.deep_view(),
            decreases self.dirs@.len() - i,
        {
            if path_eq(&self.dirs[i], p) {
                return true;
            }
            i += 1;
        }
        false
    }

    /// Create the single directory at `p`.  Creation makes exactly one
    /// new level: it fails if `p` already exists or if the parent of
    /// `p` does not exist, and on failure the store is unchanged and
    /// the error carries the attempted path.
    pub fn create_dir(&mut self, p: &Vec<String>) -> (r: Result<(), CreateError>)
        requires
            p@.len() > 0,
        ensures
            (r is Ok) <==> (old(self).has_dir(p.deep_view().drop_last())
                && !old(self).has_dir(p.deep_view())),
            r is Ok ==> forall|q: Seq<Seq<char>>|
                #[trigger] final(self).has_dir(q) <==> (old(self).has_dir(q) || q === p.deep_view()),
            r matches Err(e) ==> {
                &&& *final(self) == *old(self)
                &&& e.path.deep_view() == p.deep_view()
                &&& (e.kind is AlreadyExists <==> old(self).has_dir(p.deep_view()))
                &&& (e.kind is ParentMissing <==> (!old(self).has_dir(p.deep_view())
                    && !old(self).has_dir(p.deep_view().drop_last())))
            },
    {
        if self.contains_dir(p) {
            return Err(CreateError { path: clone_path(p), kind: CreateErrorKind::AlreadyExists });
        }
        let parent = parent_path(p);
        if !self.contains_dir(&parent) {
            return Err(CreateError { path: clone_path(p), kind: CreateErrorKind::ParentMissing });
        }
        let ghost before = self.dirs@;
        self.dirs.push(clone_path(p));
        proof {
            assert forall|q: Seq<Seq<char>>|
                #[trigger] self.has_dir(q) <==> (old(self).has_dir(q) || q === p.deep_view())
            by {
                if self.has_dir(q) {
                    let i = choose|i: int|
                        0 <= i < self.dirs@.len() && (#[trigger] self.dirs@[i]).deep_view() == q;
                    if i < before.len() {
                        assert(old(self).has_dir(q));
                    }
                }
                if old(self).has_dir(q) {
                    let i = choose|i: int|
                        0 <= i < before.len() && (#[trigger] before[i]).deep_view() == q;
                    assert(self.dirs@[i].deep_view() == q);
                }
                if q === p.deep_view() {
                    assert(self.dirs@[before.len() as int].deep_view() == q);
                }
            }
        }
        Ok(())
    }
}

/// Whether two paths have the same segments.
pub fn path_eq(a: &Vec<String>, b: &Vec<String>) -> (r: bool)
    ensures
        r == (a.deep_view() == b.deep_view()),
{
    if a.len() != b.len() {
        proof {
            assert(a.deep_view().len() == a@.len());
            assert(b.deep_view().len() == b@.len());
        }
        return false;
    }
    let mut i: usize = 0;
    while i < a.len()
        invariant
            i <= a@.len(),
            a@.len() == b@.len(),
            forall|j: int| 0 <= j < i ==> a.deep_view()[j] == b.deep_view()[j],
        decreases a@.len() - i,
    {
        if !(a[i] == b[i]) {
            proof {
                assert(a.deep_view()[i as int] != b.deep_view()[i as int]);
            }
            return false;
        }
        i += 1;
    }
    proof {
        assert(a.deep_view() =~= b.deep_view());
    }
    true
}

/// A copy of a path with the same segments.
pub fn clone_path(p: &Vec<String>) -> (r: Vec<String>)
    ensures
        r.deep_view() == p.deep_view(),
        r@.len() == p@.len(),
{
    let mut r: Vec<String> = Vec::new();
    let mut i: usize = 0;
    while i < p.len()
        invariant
            i <= p@.len(),
            r@.len() == i,
            forall|j: int| 0 <= j < i ==> r.deep_view()[j] == p.deep_view()[j],
        decreases p@.len() - i,
    {
        r.push(p[i].clone());
        i += 1;
    }
    proof {
        assert(r.deep_view() =~= p.deep_view());
    }
    r
}

/// The parent of a path: all segments but the last.
pub fn parent_path(p: &Vec<String>) -> (r: Vec<String>)
    requires
        p@.len() > 0,
    ensures
        r.deep_view() == p.deep_view().drop_last(),
{
    let mut r: Vec<String> = Vec::new();
    let mut i: usize = 0;
    while i < p.len() - 1
        invariant
            p@.len() > 0,
            i <= p@.len() - 1,
            r@.len() == i,
            forall|j: int| 0 <= j < i ==> r.deep_view()[j] == p.deep_view()[j],
        decreases p@.len() - i,
    {
        r.push(p[i].clone());
        i += 1;
    }
    proof {
        assert(r.deep_view() =~= p.deep_view().drop_last());
    }
    r
}

/// A path followed by all the segments of another.
pub fn append_path(p: &Vec<String>, rest: &Vec<String>) -> (r: Vec<String>)
    ensures
        r.deep_view() == p.deep_view() + rest.deep_view(),
        r@.len() == p@.len() + rest@.len(),
{
    let mut r = clone_path(p);
    let mut i: usize = 0;
    while i < rest.len()
        invariant
            i <= rest@.len(),
            r@.len() == p@.len() + i,
            forall|j: int| 0 <= j < p@.len() ==> r.deep_view()[j] == p.deep_view()[j],
            forall|j: int| 0 <= j < i ==> r.deep_view()[p@.len() + j] == rest.deep_view()[j],
        decreases rest@.len() - i,
    {
        r.push(rest[i].clone());
        i += 1;
    }
    proof {
        assert(r.deep_view() =~= p.deep_view() + rest.deep_view());
    }
    r
}

/// A path extended by one more segment.
pub fn push_segment(p: &Vec<String>, name: &String) -> (r: Vec<String>)
    ensures
        r.deep_view() == p.deep_view().push(name@),
        r@.len() == p@.len() + 1,
{
    let mut r = clone_path(p);
    r.push(name.clone());
    proof {
        assert(r.deep_view() =~= p.deep_view().push(name@));
    }
    r
}

} // verus!
