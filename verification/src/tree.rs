use vstd::prelude::*;
use vstd::string::StrSliceExecFns;

verus! {

/// One named entry of a directory tree: the name of a directory to
/// create and, optionally, the subtree to create inside it.
pub struct DirEntry {
    pub name: String,
    pub child: Option<DirNode>,
}

/// A directory tree: a finite mapping from names to optional subtrees,
/// kept as a vector of entries.  An entry whose `child` is `None` is a
/// leaf directory; an entry whose `child` is `Some` carries the
/// directories to create inside it.
pub struct DirNode {
    pub entries: Vec<DirEntry>,
}

/// A name is usable as a single path segment: it is non-empty, holds no
/// path separator, and is neither `.` nor `..`.
pub open spec fn valid_name(s: Seq<char>) -> bool {
    &&& s.len() > 0
    &&& forall|k: int| 0 <= k < s.len() ==> s[k] != '/' && s[k] != '\\'
    &&& s != seq!['.']
    &&& s != seq!['.', '.']
}

/// The entry's name is a usable path segment and its subtree, if any,
/// is well formed.
pub open spec fn entry_wf(e: DirEntry) -> bool
    decreases e, 0int,
{
    &&& valid_name(e.name@)
    &&& match e.child {
        Some(c) => node_wf(c),
        None => true,
    }
}

/// Every name in the tree is a usable path segment and sibling names
/// are distinct.
pub open spec fn node_wf(n: DirNode) -> bool
    decreases n, 1int,
{
    &&& forall|i: int| 0 <= i < n.entries@.len() ==> entry_wf(#[trigger] n.entries@[i])
    &&& forall|i: int, j: int|
        0 <= i < j < n.entries@.len() ==> n.entries@[i].name@ != n.entries@[j].name@
}

/// The chain of names `c` leads from this entry to some node of its
/// subtree: `c` starts with the entry's own name and, if longer, walks
/// on into the entry's child.
pub open spec fn entry_has_chain(e: DirEntry, c: Seq<Seq<char>>) -> bool
    decreases e, 0int,
{
    &&& c.len() > 0
    &&& c[0] == e.name@
    &&& (c.len() == 1 || (e.child is Some && node_has_chain(e.child->0, c.drop_first())))
}

/// The chain of names `c` leads from `n` to some node of the subtree
/// rooted at one of the first `k` entries of `n`.
pub open spec fn node_has_chain_upto(n: DirNode, k: int, c: Seq<Seq<char>>) -> bool
    decreases n, 0int,
{
    exists|i: int| 0 <= i < k && i < n.entries@.len() && entry_has_chain(#[trigger] n.entries@[i], c)
}

/// The chain of names `c` leads from `n` to some node of the tree: the
/// tree asks for a directory at relative path `c`.
pub open spec fn node_has_chain(n: DirNode, c: Seq<Seq<char>>) -> bool
    decreases n, 1int,
{
    node_has_chain_upto(n, n.entries@.len() as int, c)
}

/// The absolute path `p` is one of the directories the tree asks for
/// under `base`: `p` extends `base` by a chain of names of the tree.
pub open spec fn implied_path(base: Seq<Seq<char>>, n: DirNode, p: Seq<Seq<char>>) -> bool {
    &&& p.len() > base.len()
    &&& p.subrange(0, base.len() as int) == base
    &&& node_has_chain(n, p.subrange(base.len() as int, p.len() as int))
}

/// As `implied_path`, but restricted to the subtrees of the first `k`
/// entries of `n`.
pub open spec fn implied_path_upto(base: Seq<Seq<char>>, n: DirNode, k: int, p: Seq<Seq<char>>) -> bool {
    &&& p.len() > base.len()
    &&& p.subrange(0, base.len() as int) == base
    &&& node_has_chain_upto(n, k, p.subrange(base.len() as int, p.len() as int))
}

/// A tree asks for a path under `base` exactly when it asks for it
/// under the restriction to all of its entries.
pub proof fn lemma_implied_full(base: Seq<Seq<char>>, n: DirNode, q: Seq<Seq<char>>)
    ensures
        implied_path(base, n, q) <==> implied_path_upto(base, n, n.entries@.len() as int, q),
{
}

/// Restricting to more entries asks for more paths.
pub proof fn lemma_upto_mono(base: Seq<Seq<char>>, n: DirNode, k1: int, k2: int, q: Seq<Seq<char>>)
    requires
        k1 <= k2,
        implied_path_upto(base, n, k1, q),
    ensures
        implied_path_upto(base, n, k2, q),
{
    let c = q.subrange(base.len() as int, q.len() as int);
    let j = choose|j: int|
        0 <= j < k1 && j < n.entries@.len() && entry_has_chain(#[trigger] n.entries@[j], c);
    assert(entry_has_chain(n.entries@[j], c));
}

/// A path asked for under the first `k` entries carries, right after
/// `base`, the name of one of those entries.
pub proof fn lemma_upto_head(base: Seq<Seq<char>>, n: DirNode, k: int, q: Seq<Seq<char>>)
    requires
        implied_path_upto(base, n, k, q),
    ensures
        exists|j: int|
            0 <= j < k && j < n.entries@.len() && q[base.len() as int] == #[trigger] n.entries@[j].name@,
{
    let c = q.subrange(base.len() as int, q.len() as int);
    let j = choose|j: int|
        0 <= j < k && j < n.entries@.len() && entry_has_chain(#[trigger] n.entries@[j], c);
    assert(q[base.len() as int] == c[0]);
    assert(q[base.len() as int] == n.entries@[j].name@);
}

/// Taking in one more entry asks for exactly the paths of the earlier
/// entries, the entry's own directory, and the paths of its subtree.
pub proof fn lemma_upto_step(base: Seq<Seq<char>>, n: DirNode, i: int, q: Seq<Seq<char>>)
    requires
        0 <= i < n.entries@.len(),
    ensures
        implied_path_upto(base, n, i + 1, q) <==> {
            ||| implied_path_upto(base, n, i, q)
            ||| q == base.push(n.entries@[i].name@)
            ||| (n.entries@[i].child is Some && implied_path(
                base.push(n.entries@[i].name@),
                n.entries@[i].child->0,
                q,
            ))
        },
{
    let e = n.entries@[i];
    let cp = base.push(e.name@);
    if implied_path_upto(base, n, i + 1, q) {
        let c = q.subrange(base.len() as int, q.len() as int);
        let j = choose|j: int|
            0 <= j < i + 1 && j < n.entries@.len() && entry_has_chain(#[trigger] n.entries@[j], c);
        if j < i {
            assert(entry_has_chain(n.entries@[j], c));
            assert(implied_path_upto(base, n, i, q));
        } else {
            assert(entry_has_chain(e, c));
            if c.len() == 1 {
                assert(q =~= cp);
            } else {
                assert(e.child is Some && node_has_chain(e.child->0, c.drop_first()));
                assert(q.subrange(0, cp.len() as int) =~= cp);
                assert(q.subrange(cp.len() as int, q.len() as int) =~= c.drop_first());
                assert(implied_path(cp, e.child->0, q));
            }
        }
    }
    if implied_path_upto(base, n, i, q) {
        lemma_upto_mono(base, n, i, i + 1, q);
    }
    if q == base.push(e.name@) {
        let c = q.subrange(base.len() as int, q.len() as int);
        assert(c =~= seq![e.name@]);
        assert(entry_has_chain(e, c));
        assert(q.subrange(0, base.len() as int) =~= base);
        assert(implied_path_upto(base, n, i + 1, q));
    }
    if n.entries@[i].child is Some && implied_path(cp, e.child->0, q) {
        let c = q.subrange(base.len() as int, q.len() as int);
        assert(q.subrange(0, base.len() as int) =~= base);
        assert(q[base.len() as int] == cp[base.len() as int]);
        assert(c.len() > 1);
        assert(c[0] == e.name@);
        assert(c.drop_first() =~= q.subrange(cp.len() as int, q.len() as int));
        assert(entry_has_chain(e, c));
        assert(implied_path_upto(base, n, i + 1, q));
    }
}

/// Paths asked for by the first `i` entries never collide with entry
/// `i`'s own directory nor with the paths of its subtree: sibling
/// names are distinct, and the name right after `base` tells the
/// entries apart.
pub proof fn lemma_upto_not_new(base: Seq<Seq<char>>, n: DirNode, i: int, q: Seq<Seq<char>>)
    requires
        node_wf(n),
        0 <= i < n.entries@.len(),
        implied_path_upto(base, n, i, q),
    ensures
        q != base.push(n.entries@[i].name@),
        !(n.entries@[i].child is Some && implied_path(
            base.push(n.entries@[i].name@),
            n.entries@[i].child->0,
            q,
        )),
{
    let cp = base.push(n.entries@[i].name@);
    lemma_upto_head(base, n, i, q);
    let j = choose|j: int|
        0 <= j < i && j < n.entries@.len() && q[base.len() as int] == #[trigger] n.entries@[j].name@;
    assert(n.entries@[j].name@ != n.entries@[i].name@);
    assert(cp[base.len() as int] == n.entries@[i].name@);
    if q == cp {
        assert(false);
    }
    if n.entries@[i].child is Some && implied_path(cp, n.entries@[i].child->0, q) {
        assert(q.subrange(0, cp.len() as int)[base.len() as int] == q[base.len() as int]);
        assert(false);
    }
}

/// A chain the tree asks for, put after `base`, is one of the tree's
/// paths under `base`.
pub proof fn lemma_chain_under_base(base: Seq<Seq<char>>, n: DirNode, c: Seq<Seq<char>>)
    requires
        node_has_chain(n, c),
    ensures
        c.len() > 0,
        implied_path(base, n, base + c),
{
    let j = choose|j: int|
        0 <= j < n.entries@.len() && entry_has_chain(#[trigger] n.entries@[j], c);
    assert(c.len() > 0);
    assert((base + c).subrange(0, base.len() as int) =~= base);
    assert((base + c).subrange(base.len() as int, (base + c).len() as int) =~= c);
}

/// Whether `name` is usable as a single path segment.  A name that
/// holds a separator, or is `.` or `..`, could walk the tree out of
/// its base directory and is rejected before anything is created.
pub fn name_ok(name: &String) -> (r: bool)
    ensures
        r == valid_name(name@),
{
    let s = name.as_str();
    let n = s.unicode_len();
    if n == 0 {
        return false;
    }
    if n == 1 && s.get_char(0) == '.' {
        proof {
            assert(name@ =~= seq!['.']);
        }
        return false;
    }
    if n == 2 && s.get_char(0) == '.' && s.get_char(1) == '.' {
        proof {
            assert(name@ =~= seq!['.', '.']);
        }
        return false;
    }
    proof {
        if name@ == seq!['.'] {
            assert(name@[0] == '.');
            assert(false);
        }
        if name@ == seq!['.', '.'] {
            assert(name@[0] == '.' && name@[1] == '.');
            assert(false);
        }
    }
    let mut k: usize = 0;
    while k < n
        invariant
            k <= n,
            n == name@.len(),
            s@ == name@,
            name@.len() > 0,
            name@ != seq!['.'],
            name@ != seq!['.', '.'],
            forall|j: int| 0 <= j < k ==> name@[j] != '/' && name@[j] != '\\',
        decreases n - k,
    {
        let c = s.get_char(k);
        if c == '/' || c == '\\' {
            return false;
        }
        k += 1;
    }
    true
}

impl DirNode {
    /// An empty tree, asking for no directories at all.
    pub fn new() -> (r: DirNode)
        ensures
            r.entries@.len() == 0,
            node_wf(r),
    {
        DirNode { entries: Vec::new() }
    }

    /// Whether every name in the tree is a usable path segment and no
    /// two siblings share a name.  A caller checks this once, before
    /// any directory is created.
    pub fn is_well_formed(&self) -> (r: bool)
        ensures
            r == node_wf(*self),
        decreases *self,
    {
        let n = self.entries.len();
        let mut i: usize = 0;
        while i < n
            invariant
                n == self.entries@.len(),
                i <= n,
                forall|k: int| 0 <= k < i ==> entry_wf(#[trigger] self.entries@[k]),
                forall|k1: int, k2: int|
                    0 <= k1 < k2 < i ==> self.entries@[k1].name@ != self.entries@[k2].name@,
            decreases n - i,
        {
            if !name_ok(&self.entries[i].name) {
                proof {
                    assert(!entry_wf(self.entries@[i as int]));
                }
                return false;
            }
            let mut j: usize = 0;
            while j < i
                invariant
                    i < n,
                    n == self.entries@.len(),
                    j <= i,
                    forall|k: int|
                        0 <= k < j ==> self.entries@[k].name@ != self.entries@[i as int].name@,
                decreases i - j,
            {
                if self.entries[j].name == self.entries[i].name {
                    return false;
                }
                j += 1;
            }
            match &self.entries[i].child {
                Some(c) => {
                    if !c.is_well_formed() {
                        proof {
                            assert(!entry_wf(self.entries@[i as int]));
                        }
                        return false;
                    }
                },
                None => {},
            }
            proof {
                assert(entry_wf(self.entries@[i as int]));
            }
            i += 1;
        }
        true
    }
}

} // verus!
