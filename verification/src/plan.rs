use vstd::prelude::*;

use crate::memfs::append_path;
use crate::memfs::push_segment;
use crate::memfs::CreateError;
use crate::memfs::MemFs;
use crate::tree::lemma_chain_under_base;
use crate::tree::DirNode;
use crate::tree::entry_has_chain;
use crate::tree::entry_wf;
use crate::tree::implied_path;
use crate::tree::implied_path_upto;
use crate::tree::lemma_implied_full;
use crate::tree::lemma_upto_mono;
use crate::tree::lemma_upto_not_new;
use crate::tree::lemma_upto_step;
use crate::tree::node_has_chain;
use crate::tree::node_wf;

verus! {

/// Append to `out` one path for every directory the tree asks for
/// under `base`, each entry's own directory before the paths of its
/// subtree.  The appended paths are exactly the asked-for ones, none
/// repeats, and each one's parent is `base` itself or appears earlier
/// among the appended paths.
fn push_paths(base: &Vec<String>, node: &DirNode, out: &mut Vec<Vec<String>>)
    requires
        node_wf(*node),
    ensures
        final(out)@.len() >= old(out)@.len(),
        forall|k: int| 0 <= k < old(out)@.len() ==> final(out)@[k] == old(out)@[k],
        forall|k: int|
            old(out)@.len() <= k < final(out)@.len() ==> implied_path(
                base.deep_view(),
                *node,
                (#[trigger] final(out)@[k]).deep_view(),
            ),
        forall|q: Seq<Seq<char>>| #[trigger]
            implied_path(base.deep_view(), *node, q) ==> exists|k: int|
                old(out)@.len() <= k < final(out)@.len() && final(out)@[k].deep_view() == q,
        forall|k1: int, k2: int|
            old(out)@.len() <= k1 < k2 < final(out)@.len() ==> final(out)@[k1].deep_view()
                != final(out)@[k2].deep_view(),
        forall|k: int|
            old(out)@.len() <= k < final(out)@.len() ==> ((#[trigger] final(out)@[k]).deep_view().drop_last()
                == base.deep_view() || exists|j: int|
                old(out)@.len() <= j < k && final(out)@[j].deep_view()
                    == final(out)@[k].deep_view().drop_last()),
    decreases *node,
{
    let ghost b = base.deep_view();
    let ghost len0 = out@.len() as int;
    let n = node.entries.len();
    let mut i: usize = 0;
    while i < n
        invariant
            node_wf(*node),
            n == node.entries@.len(),
            b == base.deep_view(),
            len0 == old(out)@.len(),
            i <= n,
            out@.len() >= len0,
            forall|k: int| 0 <= k < len0 ==> out@[k] == old(out)@[k],
            forall|k: int|
                len0 <= k < out@.len() ==> implied_path_upto(
                    b,
                    *node,
                    i as int,
                    (#[trigger] out@[k]).deep_view(),
                ),
            forall|q: Seq<Seq<char>>| #[trigger]
                implied_path_upto(b, *node, i as int, q) ==> exists|k: int|
                    len0 <= k < out@.len() && out@[k].deep_view() == q,
            forall|k1: int, k2: int|
                len0 <= k1 < k2 < out@.len() ==> out@[k1].deep_view() != out@[k2].deep_view(),
            forall|k: int|
                len0 <= k < out@.len() ==> ((#[trigger] out@[k]).deep_view().drop_last() == b
                    || exists|j: int|
                    len0 <= j < k && out@[j].deep_view() == out@[k].deep_view().drop_last()),
        decreases n - i,
    {
        let nm = &node.entries[i].name;
        let child_path = push_segment(base, nm);
        let ghost cp = b.push(node.entries@[i as int].name@);
        let ghost mid = out@;
        let ghost idx = out@.len() as int;
        proof {
            assert(entry_wf(node.entries@[i as int]));
            assert(child_path.deep_view() == cp);
            assert(cp.drop_last() =~= b);
        }
        out.push(push_segment(base, nm));
        proof {
            assert(out@[idx].deep_view() == cp);
            assert forall|k1: int, k2: int|
                len0 <= k1 < k2 < out@.len() implies out@[k1].deep_view()
                != out@[k2].deep_view() by {
                if k2 == idx {
                    lemma_upto_not_new(b, *node, i as int, out@[k1].deep_view());
                }
            }
            assert forall|k: int|
                len0 <= k < out@.len() implies ((#[trigger] out@[k]).deep_view().drop_last() == b
                || exists|j: int|
                len0 <= j < k && out@[j].deep_view() == out@[k].deep_view().drop_last()) by {
                if k < idx {
                    assert(out@[k] == mid[k]);
                    if mid[k].deep_view().drop_last() != b {
                        let j = choose|j: int|
                            len0 <= j < k && mid[j].deep_view() == mid[k].deep_view().drop_last();
                        assert(out@[j].deep_view() == out@[k].deep_view().drop_last());
                    }
                } else {
                    assert(out@[k].deep_view() == cp);
                }
            }
        }
        match &node.entries[i].child {
            None => {
                proof {
                    assert forall|k: int|
                        len0 <= k < out@.len() implies implied_path_upto(
                        b,
                        *node,
                        i as int + 1,
                        (#[trigger] out@[k]).deep_view(),
                    ) by {
                        lemma_upto_step(b, *node, i as int, out@[k].deep_view());
                    }
                    assert forall|q: Seq<Seq<char>>| #[trigger]
                        implied_path_upto(b, *node, i as int + 1, q) implies exists|k: int|
                        len0 <= k < out@.len() && out@[k].deep_view() == q by {
                        lemma_upto_step(b, *node, i as int, q);
                        if implied_path_upto(b, *node, i as int, q) {
                            let k = choose|k: int|
                                len0 <= k < mid.len() && mid[k].deep_view() == q;
                            assert(out@[k] == mid[k]);
                            assert(out@[k].deep_view() == q);
                        } else if q == cp {
                            assert(out@[idx].deep_view() == q);
                        }
                    }
                }
            },
            Some(t) => {
                let ghost mid2 = out@;
                push_paths(&child_path, t, out);
                proof {
                    assert(out@[idx].deep_view() == cp);
                    assert forall|k: int|
                        len0 <= k < out@.len() implies implied_path_upto(
                        b,
                        *node,
                        i as int + 1,
                        (#[trigger] out@[k]).deep_view(),
                    ) by {
                        lemma_upto_step(b, *node, i as int, out@[k].deep_view());
                        if k < idx {
                            assert(out@[k] == mid2[k]);
                        }
                    }
                    assert forall|q: Seq<Seq<char>>| #[trigger]
                        implied_path_upto(b, *node, i as int + 1, q) implies exists|k: int|
                        len0 <= k < out@.len() && out@[k].deep_view() == q by {
                        lemma_upto_step(b, *node, i as int, q);
                        if implied_path_upto(b, *node, i as int, q) {
                            let k = choose|k: int|
                                len0 <= k < mid.len() && mid[k].deep_view() == q;
                            assert(out@[k] == mid2[k]);
                            assert(out@[k].deep_view() == q);
                        } else if q == cp {
                            assert(out@[idx].deep_view() == q);
                        } else {
                            assert(implied_path(cp, node.entries@[i as int].child->0, q));
                            assert(implied_path(child_path.deep_view(), *t, q));
                            let k = choose|k: int|
                                mid2.len() <= k < out@.len() && out@[k].deep_view() == q;
                            assert(len0 <= k < out@.len());
                        }
                    }
                    assert forall|k1: int, k2: int|
                        len0 <= k1 < k2 < out@.len() implies out@[k1].deep_view()
                        != out@[k2].deep_view() by {
                        if k2 < mid2.len() {
                            assert(out@[k1] == mid2[k1] && out@[k2] == mid2[k2]);
                        } else if k1 < mid2.len() {
                            assert(out@[k1] == mid2[k1]);
                            assert(implied_path(cp, node.entries@[i as int].child->0, out@[k2].deep_view()));
                            if k1 < idx {
                                lemma_upto_not_new(b, *node, i as int, out@[k1].deep_view());
                            } else {
                                assert(out@[k1].deep_view() == cp);
                                assert(out@[k2].deep_view().len() > cp.len());
                            }
                        }
                    }
                    assert forall|k: int|
                        len0 <= k < out@.len() implies ((#[trigger] out@[k]).deep_view().drop_last()
                        == b || exists|j: int|
                        len0 <= j < k && out@[j].deep_view() == out@[k].deep_view().drop_last()) by {
                        if k < mid2.len() {
                            assert(out@[k] == mid2[k]);
                            if k < idx && out@[k].deep_view().drop_last() != b {
                                let j = choose|j: int|
                                    len0 <= j < k && mid[j].deep_view() == mid[k].deep_view().drop_last();
                                assert(out@[j].deep_view() == out@[k].deep_view().drop_last());
                            }
                        } else {
                            if out@[k].deep_view().drop_last() == cp {
                                assert(out@[idx].deep_view() == out@[k].deep_view().drop_last());
                            } else {
                                let j = choose|j: int|
                                    mid2.len() <= j < k && out@[j].deep_view() == out@[k].deep_view().drop_last();
                                assert(len0 <= j < k);
                            }
                        }
                    }
                }
            },
        }
        i += 1;
    }
    proof {
        assert forall|k: int|
            len0 <= k < out@.len() implies implied_path(
            b,
            *node,
            (#[trigger] out@[k]).deep_view(),
        ) by {
            lemma_upto_mono(b, *node, i as int, n as int, out@[k].deep_view());
            lemma_implied_full(b, *node, out@[k].deep_view());
        }
        assert forall|q: Seq<Seq<char>>| #[trigger]
            implied_path(b, *node, q) implies exists|k: int|
            len0 <= k < out@.len() && out@[k].deep_view() == q by {
            lemma_implied_full(b, *node, q);
        }
    }
}

/// The directories the tree asks for, as paths of name segments
/// relative to the base directory, in an order fit for creation: the
/// listed paths are exactly the asked-for ones, none repeats, and each
/// path is a single segment or is preceded by its parent.  A caller
/// that creates the listed directories in this order therefore always
/// works under an already created parent and never revisits a path.
pub fn creation_paths(node: &DirNode) -> (r: Vec<Vec<String>>)
    requires
        node_wf(*node),
    ensures
        forall|k: int|
            0 <= k < r@.len() ==> node_has_chain(*node, (#[trigger] r@[k]).deep_view()),
        forall|c: Seq<Seq<char>>| #[trigger]
            node_has_chain(*node, c) ==> exists|k: int|
                0 <= k < r@.len() && r@[k].deep_view() == c,
        forall|k1: int, k2: int|
            0 <= k1 < k2 < r@.len() ==> r@[k1].deep_view() != r@[k2].deep_view(),
        forall|k: int| 0 <= k < r@.len() ==> (#[trigger] r@[k]).deep_view().len() > 0,
        forall|k: int|
            0 <= k < r@.len() ==> ((#[trigger] r@[k]).deep_view().len() == 1 || exists|j: int|
                0 <= j < k && r@[j].deep_view() == r@[k].deep_view().drop_last()),
{
    let base: Vec<String> = Vec::new();
    let mut out: Vec<Vec<String>> = Vec::new();
    push_paths(&base, node, &mut out);
    proof {
        let b = base.deep_view();
        assert(b =~= Seq::<Seq<char>>::empty());
        assert forall|k: int|
            0 <= k < out@.len() implies node_has_chain(
            *node,
            (#[trigger] out@[k]).deep_view(),
        ) by {
            let q = out@[k].deep_view();
            assert(implied_path(b, *node, q));
            assert(q.subrange(0, q.len() as int) =~= q);
        }
        assert forall|c: Seq<Seq<char>>| #[trigger]
            node_has_chain(*node, c) implies exists|k: int|
            0 <= k < out@.len() && out@[k].deep_view() == c by {
            let j = choose|j: int|
                0 <= j < node.entries@.len() && entry_has_chain(#[trigger] node.entries@[j], c);
            assert(c.len() > 0);
            assert(c.subrange(0, 0) =~= Seq::<Seq<char>>::empty());
            assert(c.subrange(0, c.len() as int) =~= c);
            assert(implied_path(b, *node, c));
        }
        assert forall|k: int|
            0 <= k < out@.len() implies ((#[trigger] out@[k]).deep_view().len() == 1 || exists|
            j: int,
        |
            0 <= j < k && out@[j].deep_view() == out@[k].deep_view().drop_last()) by {
            if out@[k].deep_view().drop_last() == b {
                assert(out@[k].deep_view().len() == 1);
            }
        }
    }
    out
}

/// Create, in order, every directory that `creation_paths` lists,
/// joined under `base`: the very loop a caller performs against a
/// real filesystem.  Under an existing `base` holding none of the
/// asked-for directories, every single creation succeeds — each path
/// comes after its parent and no path repeats — and the store gains
/// exactly what `materialize` creates on the same inputs.
pub fn create_planned(fs: &mut MemFs, base: &Vec<String>, node: &DirNode) -> (r: Result<
    (),
    CreateError,
>)
    requires
        node_wf(*node),
        old(fs).has_dir(base.deep_view()),
        forall|q: Seq<Seq<char>>| #[trigger]
            implied_path(base.deep_view(), *node, q) ==> !old(fs).has_dir(q),
    ensures
        r is Ok,
        forall|q: Seq<Seq<char>>| #[trigger]
            final(fs).has_dir(q) <==> (old(fs).has_dir(q) || implied_path(
                base.deep_view(),
                *node,
                q,
            )),
{
    let ghost b = base.deep_view();
    let ghost fs0 = *fs;
    let paths = creation_paths(node);
    let m = paths.len();
    let mut k: usize = 0;
    while k < m
        invariant
            node_wf(*node),
            b == base.deep_view(),
            fs0 == *old(fs),
            fs0.has_dir(b),
            forall|q: Seq<Seq<char>>| #[trigger] implied_path(b, *node, q) ==> !fs0.has_dir(q),
            m == paths@.len(),
            k <= m,
            forall|k2: int|
                0 <= k2 < m ==> node_has_chain(*node, (#[trigger] paths@[k2]).deep_view()),
            forall|c: Seq<Seq<char>>| #[trigger]
                node_has_chain(*node, c) ==> exists|k2: int|
                    0 <= k2 < m && paths@[k2].deep_view() == c,
            forall|k1: int, k2: int|
                0 <= k1 < k2 < m ==> paths@[k1].deep_view() != paths@[k2].deep_view(),
            forall|k2: int| 0 <= k2 < m ==> (#[trigger] paths@[k2]).deep_view().len() > 0,
            forall|k2: int|
                0 <= k2 < m ==> ((#[trigger] paths@[k2]).deep_view().len() == 1 || exists|j: int|
                    0 <= j < k2 && paths@[j].deep_view() == paths@[k2].deep_view().drop_last()),
            forall|q: Seq<Seq<char>>| #[trigger]
                fs.has_dir(q) <==> (fs0.has_dir(q) || exists|j: int|
                    0 <= j < k && q == b + (#[trigger] paths@[j]).deep_view()),
        decreases m - k,
    {
        let target = append_path(base, &paths[k]);
        let ghost c = paths@[k as int].deep_view();
        proof {
            assert(target.deep_view() == b + c);
            lemma_chain_under_base(b, *node, c);
            assert(!fs0.has_dir(b + c));
            assert forall|j: int|
                0 <= j < k implies b + (#[trigger] paths@[j]).deep_view() != b + c by {
                let pj = paths@[j].deep_view();
                if b + pj == b + c {
                    assert(pj =~= (b + pj).subrange(b.len() as int, (b + pj).len() as int));
                    assert(c =~= (b + c).subrange(b.len() as int, (b + c).len() as int));
                    assert(pj == c);
                }
            }
            assert(!fs.has_dir(b + c));
            if c.len() == 1 {
                assert((b + c).drop_last() =~= b);
                assert(fs.has_dir((b + c).drop_last()));
            } else {
                let j = choose|j: int|
                    0 <= j < k as int && paths@[j].deep_view() == paths@[k as int].deep_view().drop_last();
                assert((b + c).drop_last() =~= b + paths@[j].deep_view());
                assert(fs.has_dir(b + paths@[j].deep_view()));
                assert(fs.has_dir((b + c).drop_last()));
            }
        }
        match fs.create_dir(&target) {
            Err(e) => {
                proof {
                    assert(false);
                }
                return Err(e);
            },
            Ok(()) => {
                proof {
                    assert forall|q: Seq<Seq<char>>| #[trigger]
                        fs.has_dir(q) <==> (fs0.has_dir(q) || exists|j: int|
                            0 <= j < k + 1 && q == b + (#[trigger] paths@[j]).deep_view()) by {
                        if q == b + c {
                            assert(q == b + paths@[k as int].deep_view());
                        }
                        if exists|j: int|
                            0 <= j < k + 1 && q == b + (#[trigger] paths@[j]).deep_view() {
                            let j = choose|j: int|
                                0 <= j < k + 1 && q == b + (#[trigger] paths@[j]).deep_view();
                            if j < k {
                                assert(exists|j2: int|
                                    0 <= j2 < k && q == b + (#[trigger] paths@[j2]).deep_view());
                            }
                        }
                    }
                }
            },
        }
        k += 1;
    }
    proof {
        assert forall|q: Seq<Seq<char>>| #[trigger]
            fs.has_dir(q) <==> (fs0.has_dir(q) || implied_path(b, *node, q)) by {
            if fs.has_dir(q) && !fs0.has_dir(q) {
                let j = choose|j: int| 0 <= j < k && q == b + (#[trigger] paths@[j]).deep_view();
                lemma_chain_under_base(b, *node, paths@[j].deep_view());
            }
            if implied_path(b, *node, q) {
                let c2 = q.subrange(b.len() as int, q.len() as int);
                assert(node_has_chain(*node, c2));
                let j = choose|j: int| 0 <= j < m && paths@[j].deep_view() == c2;
                assert(q =~= b + c2);
                assert(q == b + paths@[j].deep_view());
                assert(fs.has_dir(q));
            }
        }
    }
    Ok(())
}

} // verus!
