use vstd::prelude::*;

use crate::memfs::CreateError;
use crate::memfs::MemFs;
use crate::memfs::push_segment;
use crate::tree::DirNode;
use crate::tree::entry_wf;
use crate::tree::implied_path;
use crate::tree::implied_path_upto;
use crate::tree::lemma_implied_full;
use crate::tree::lemma_upto_head;
use crate::tree::lemma_upto_mono;
use crate::tree::lemma_upto_step;
use crate::tree::node_wf;

verus! {

/// Create every directory the tree asks for under `base`, one per
/// node, walking each entry's own directory before its subtree and
/// stopping at the first failure.
///
/// On success the store gains exactly the directories the tree asks
/// for.  Success comes precisely when `base` itself exists (or the
/// tree is empty) and none of the asked-for directories already
/// exists; creation never recreates an existing directory and never
/// fills in missing ancestors, so a missing `base` fails on the first
/// entry with nothing created.  On failure the error carries the path
/// whose creation failed, and only directories the tree asks for can
/// have been created before the failure.
pub fn materialize(fs: &mut MemFs, base: &Vec<String>, node: &DirNode) -> (r: Result<
    (),
    CreateError,
>)
    requires
        node_wf(*node),
    ensures
        forall|q: Seq<Seq<char>>| #[trigger] old(fs).has_dir(q) ==> final(fs).has_dir(q),
        forall|q: Seq<Seq<char>>| #[trigger]
            final(fs).has_dir(q) ==> old(fs).has_dir(q) || implied_path(
                base.deep_view(),
                *node,
                q,
            ),
        (r is Ok) <==> ((node.entries@.len() == 0 || old(fs).has_dir(base.deep_view())) && (
        forall|q: Seq<Seq<char>>| #[trigger]
            implied_path(base.deep_view(), *node, q) ==> !old(fs).has_dir(q))),
        r is Ok ==> (forall|q: Seq<Seq<char>>| #[trigger]
            final(fs).has_dir(q) <==> (old(fs).has_dir(q) || implied_path(
                base.deep_view(),
                *node,
                q,
            ))),
        r matches Err(e) ==> {
            &&& implied_path(base.deep_view(), *node, e.path.deep_view())
            &&& (e.kind is AlreadyExists ==> old(fs).has_dir(e.path.deep_view()))
            &&& (e.kind is ParentMissing ==> !old(fs).has_dir(base.deep_view()))
        },
        !old(fs).has_dir(base.deep_view()) ==> *final(fs) == *old(fs),
        node.entries@.len() == 0 ==> r is Ok && *final(fs) == *old(fs),
    decreases *node,
{
    let ghost b = base.deep_view();
    let ghost fs0 = *fs;
    let n = node.entries.len();
    let mut i: usize = 0;
    while i < n
        invariant
            node_wf(*node),
            n == node.entries@.len(),
            b == base.deep_view(),
            fs0 == *old(fs),
            i <= n,
            forall|q: Seq<Seq<char>>| #[trigger]
                fs.has_dir(q) <==> (fs0.has_dir(q) || implied_path_upto(b, *node, i as int, q)),
            forall|q: Seq<Seq<char>>| #[trigger]
                implied_path_upto(b, *node, i as int, q) ==> !fs0.has_dir(q),
            i > 0 ==> fs0.has_dir(b),
            i == 0 ==> *fs == fs0,
            !fs0.has_dir(b) ==> *fs == fs0,
        decreases n - i,
    {
        let nm = &node.entries[i].name;
        let child_path = push_segment(base, nm);
        let ghost cp = b.push(node.entries@[i as int].name@);
        proof {
            assert(entry_wf(node.entries@[i as int]));
            assert(nm@ == node.entries@[i as int].name@);
            assert(child_path.deep_view() == cp);
        }
        match fs.create_dir(&child_path) {
            Err(e) => {
                proof {
                    lemma_upto_step(b, *node, i as int, cp);
                    lemma_upto_mono(b, *node, i as int + 1, n as int, cp);
                    lemma_implied_full(b, *node, cp);
                    if e.kind is AlreadyExists {
                        // the target exists now; it cannot be one of the
                        // directories this walk created, whose head names
                        // are those of earlier siblings
                        assert(fs.has_dir(cp));
                        if implied_path_upto(b, *node, i as int, cp) {
                            lemma_upto_head(b, *node, i as int, cp);
                            let j = choose|j: int|
                                0 <= j < i && j < node.entries@.len() && cp[b.len() as int]
                                    == #[trigger] node.entries@[j].name@;
                            assert(node.entries@[j].name@ == node.entries@[i as int].name@);
                            assert(false);
                        }
                        assert(fs0.has_dir(cp));
                    } else {
                        // the parent of the target is `base` itself
                        assert(cp.drop_last() =~= b);
                        assert(!fs.has_dir(b));
                        assert(!fs0.has_dir(b));
                        assert(i == 0);
                    }
                    assert forall|q: Seq<Seq<char>>| #[trigger]
                        fs.has_dir(q) implies fs0.has_dir(q) || implied_path(b, *node, q) by {
                        if implied_path_upto(b, *node, i as int, q) {
                            lemma_upto_mono(b, *node, i as int, n as int, q);
                            lemma_implied_full(b, *node, q);
                        }
                    }
                    assert forall|q: Seq<Seq<char>>| #[trigger]
                        fs0.has_dir(q) implies fs.has_dir(q) by {
                        assert(fs.has_dir(q) == (fs0.has_dir(q) || implied_path_upto(
                            b,
                            *node,
                            i as int,
                            q,
                        )));
                    }
                }
                return Err(e);
            },
            Ok(()) => {
                proof {
                    assert(cp.drop_last() =~= b);
                    if implied_path_upto(b, *node, i as int, b) {
                        assert(b.len() > b.len());
                    }
                    assert(fs0.has_dir(b));
                    assert(!fs0.has_dir(cp));
                }
                let ghost fs_mid = *fs;
                match &node.entries[i].child {
                    None => {
                        proof {
                            assert forall|q: Seq<Seq<char>>| #[trigger]
                                fs.has_dir(q) <==> (fs0.has_dir(q) || implied_path_upto(
                                b,
                                *node,
                                i as int + 1,
                                q,
                            )) by {
                                lemma_upto_step(b, *node, i as int, q);
                            }
                            assert forall|q: Seq<Seq<char>>| #[trigger]
                                implied_path_upto(b, *node, i as int + 1, q) implies !fs0.has_dir(
                                q,
                            ) by {
                                lemma_upto_step(b, *node, i as int, q);
                            }
                        }
                    },
                    Some(t) => {
                        let r2 = materialize(fs, &child_path, t);
                        match r2 {
                            Err(e2) => {
                                proof {
                                    assert(fs_mid.has_dir(cp));
                                    assert(e2.kind is AlreadyExists);
                                    let ep = e2.path.deep_view();
                                    assert(fs_mid.has_dir(ep));
                                    assert(ep.subrange(0, cp.len() as int) == cp);
                                    assert(ep[b.len() as int] == cp[b.len() as int]);
                                    if implied_path_upto(b, *node, i as int, ep) {
                                        lemma_upto_head(b, *node, i as int, ep);
                                        let j = choose|j: int|
                                            0 <= j < i && j < node.entries@.len() && ep[b.len() as int]
                                                == #[trigger] node.entries@[j].name@;
                                        assert(node.entries@[j].name@
                                            == node.entries@[i as int].name@);
                                        assert(false);
                                    }
                                    assert(ep != cp);
                                    assert(fs0.has_dir(ep));
                                    lemma_upto_step(b, *node, i as int, ep);
                                    lemma_upto_mono(b, *node, i as int + 1, n as int, ep);
                                    lemma_implied_full(b, *node, ep);
                                    assert forall|q: Seq<Seq<char>>| #[trigger]
                                        fs.has_dir(q) implies fs0.has_dir(q) || implied_path(
                                        b,
                                        *node,
                                        q,
                                    ) by {
                                        if fs_mid.has_dir(q) {
                                            if implied_path_upto(b, *node, i as int, q) {
                                                lemma_upto_mono(b, *node, i as int, n as int, q);
                                                lemma_implied_full(b, *node, q);
                                            } else if q == cp {
                                                lemma_upto_step(b, *node, i as int, q);
                                                lemma_upto_mono(b, *node, i as int + 1, n as int, q);
                                                lemma_implied_full(b, *node, q);
                                            }
                                        } else {
                                            lemma_upto_step(b, *node, i as int, q);
                                            lemma_upto_mono(b, *node, i as int + 1, n as int, q);
                                            lemma_implied_full(b, *node, q);
                                        }
                                    }
                                    assert forall|q: Seq<Seq<char>>| #[trigger]
                                        fs0.has_dir(q) implies fs.has_dir(q) by {
                                        assert(fs_mid.has_dir(q));
                                    }
                                }
                                return Err(e2);
                            },
                            Ok(()) => {
                                proof {
                                    assert forall|q: Seq<Seq<char>>| #[trigger]
                                        fs.has_dir(q) <==> (fs0.has_dir(q) || implied_path_upto(
                                        b,
                                        *node,
                                        i as int + 1,
                                        q,
                                    )) by {
                                        lemma_upto_step(b, *node, i as int, q);
                                    }
                                    assert forall|q: Seq<Seq<char>>| #[trigger]
                                        implied_path_upto(b, *node, i as int + 1, q) implies !fs0
                                        .has_dir(q) by {
                                        lemma_upto_step(b, *node, i as int, q);
                                        if implied_path(cp, node.entries@[i as int].child->0, q) {
                                            assert(!fs_mid.has_dir(q));
                                        }
                                    }
                                }
                            },
                        }
                    },
                }
            },
        }
        i += 1;
    }
    proof {
        assert forall|q: Seq<Seq<char>>| #[trigger]
            implied_path(b, *node, q) <==> implied_path_upto(b, *node, n as int, q) by {
            lemma_implied_full(b, *node, q);
        }
    }
    Ok(())
}

} // verus!

