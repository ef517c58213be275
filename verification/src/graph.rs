//! The commit graph snapshot.
//!
//! A repository snapshot holds every relevant commit as plain values: its
//! hash for display, its parent commits, its commit time, and its message
//! body. Commits are indexed in topological order — every parent stands
//! before its children — which makes every ancestry walk terminate.

use vstd::prelude::*;

verus! {

/// One commit of the snapshot. `parents` holds the indices of the parent
/// commits in order; the first entry is the first parent, the line that
/// "actually landed" on a branch.
#[derive(Debug)]
pub struct Commit {
    pub hash: String,
    pub parents: Vec<usize>,
    pub time: i64,
    pub body: String,
}

/// Topological well-formedness: every parent has a smaller index than its
/// child.
pub open spec fn graph_wf(c: Seq<Commit>) -> bool {
    forall|i: int, j: int|
        0 <= i < c.len() && 0 <= j < c[i].parents@.len() ==> (#[trigger] c[i].parents@[j] as int)
            < i
}

/// `j` is reachable from `root` (inclusive) along parent edges, using only
/// intermediate commits with index at least `lo`. With `lo == 0` this is
/// plain ancestry: `j` is `root` itself or an ancestor of it.
pub open spec fn reach_cut(c: Seq<Commit>, root: int, j: int, lo: int) -> bool
    decreases root - j,
{
    j == root || exists|k: int|
        j < k <= root && lo <= k < c.len() && #[trigger] c[k].parents@.contains(j as usize)
            && reach_cut(c, root, k, lo)
}

/// Ancestry of `root`, inclusive.
pub open spec fn is_ancestor_of(c: Seq<Commit>, root: int, j: int) -> bool {
    reach_cut(c, root, j, 0)
}

/// Lowering the cut from `i + 1` to `i` adds exactly the parents of `i`,
/// when `i` itself is reachable above the cut.
proof fn lemma_reach_cut_step(c: Seq<Commit>, root: int, j: int, i: int)
    requires
        graph_wf(c),
        0 <= i < c.len(),
        root < c.len(),
    ensures
        reach_cut(c, root, j, i) <==> (reach_cut(c, root, j, i + 1) || (c[i].parents@.contains(
            j as usize,
        ) && j < i && reach_cut(c, root, i, i + 1))),
    decreases root - j,
{
    if reach_cut(c, root, j, i) {
        if j == root {
        } else {
            let k = choose|k: int|
                j < k <= root && i <= k < c.len() && #[trigger] c[k].parents@.contains(j as usize)
                    && reach_cut(c, root, k, i);
            lemma_reach_cut_step(c, root, k, i);
            if k == i {
                assert(c[i].parents@.contains(j as usize));
            } else {
                // k >= i + 1, so the step at k cannot go through i's parents
                assert(reach_cut(c, root, k, i + 1));
                assert(reach_cut(c, root, j, i + 1));
            }
        }
    }
    if reach_cut(c, root, j, i + 1) {
        if j == root {
        } else {
            let k = choose|k: int|
                j < k <= root && i + 1 <= k < c.len() && #[trigger] c[k].parents@.contains(
                    j as usize,
                ) && reach_cut(c, root, k, i + 1);
            lemma_reach_cut_step(c, root, k, i);
            assert(reach_cut(c, root, k, i));
            assert(reach_cut(c, root, j, i));
        }
    }
    if c[i].parents@.contains(j as usize) && j < i && reach_cut(c, root, i, i + 1) {
        lemma_reach_cut_step(c, root, i, i);
        assert(reach_cut(c, root, i, i));
        if i == root {
            assert(reach_cut(c, root, j, i));
        } else {
            assert(reach_cut(c, root, j, i));
        }
    }
}

/// Above the top cut nothing is reachable but `root` itself.
proof fn lemma_reach_cut_top(c: Seq<Commit>, root: int, j: int)
    requires
        root < c.len(),
    ensures
        reach_cut(c, root, j, root + 1) <==> j == root,
{
    if reach_cut(c, root, j, root + 1) && j != root {
        let k = choose|k: int|
            j < k <= root && root + 1 <= k < c.len() && #[trigger] c[k].parents@.contains(
                j as usize,
            ) && reach_cut(c, root, k, root + 1);
        assert(false);
    }
}

/// Marks every commit reachable from `root` along parent edges, `root`
/// itself included: the set a supplied root commit hides from every walk.
pub fn mark_ancestors(commits: &Vec<Commit>, root: usize) -> (r: Vec<bool>)
    requires
        graph_wf(commits@),
        root < commits.len(),
    ensures
        r.len() == commits.len(),
        forall|j: int| 0 <= j < r.len() ==> r[j] == is_ancestor_of(commits@, root as int, j),
{
    let n = commits.len();
    let mut marked: Vec<bool> = vec![false; n];
    marked[root] = true;
    proof {
        assert forall|j: int| 0 <= j < n implies marked[j] == reach_cut(
            commits@,
            root as int,
            j,
            root + 1,
        ) by {
            lemma_reach_cut_top(commits@, root as int, j);
        }
    }
    let mut i: usize = root + 1;
    while i > 0
        invariant
            graph_wf(commits@),
            root < commits.len(),
            i <= root + 1,
            n == commits.len(),
            marked.len() == n,
            forall|j: int|
                0 <= j < n ==> marked[j] == reach_cut(commits@, root as int, j, i as int),
        decreases i,
    {
        i = i - 1;
        let ghost m0 = marked@;
        if marked[i] {
            let ghost ps = commits@[i as int].parents@;
            let np = commits[i].parents.len();
            let mut t: usize = 0;
            proof {
                assert(ps.subrange(0, 0) =~= Seq::<usize>::empty());
            }
            while t < np
                invariant
                    graph_wf(commits@),
                    root < commits.len(),
                    i < n,
                    n == commits.len(),
                    np == ps.len(),
                    ps == commits@[i as int].parents@,
                    t <= np,
                    marked.len() == n,
                    m0.len() == n,
                    forall|j: int|
                        0 <= j < n ==> marked[j] == (m0[j] || ps.subrange(0, t as int).contains(
                            j as usize,
                        )),
                decreases np - t,
            {
                let p = commits[i].parents[t];
                assert((ps[t as int] as int) < i < n);
                let ghost mk0 = marked@;
                let ghost told = t as int;
                marked[p] = true;
                t = t + 1;
                proof {
                    assert(marked@ == mk0.update(p as int, true));
                    assert(t as int == told + 1);
                    assert(ps.subrange(0, t as int) =~= ps.subrange(0, told).push(ps[told]));
                    assert forall|j: int|
                        0 <= j < n implies marked[j] == (m0[j] || ps.subrange(0, t as int).contains(
                        j as usize,
                    )) by {
                        if j == p as int {
                            assert(ps.subrange(0, t as int)[told] == j as usize);
                            assert(ps.subrange(0, t as int).contains(j as usize));
                            assert(marked[j]);
                        } else {
                            assert(marked[j] == mk0[j]);
                            assert(mk0[j] == (m0[j] || ps.subrange(0, told).contains(j as usize)));
                            if ps.subrange(0, told).contains(j as usize) {
                                let u = choose|u: int|
                                    0 <= u < told && #[trigger] ps.subrange(0, told)[u]
                                        == j as usize;
                                assert(ps.subrange(0, t as int)[u] == j as usize);
                                assert(ps.subrange(0, t as int).contains(j as usize));
                            }
                            if ps.subrange(0, t as int).contains(j as usize) {
                                let u = choose|u: int|
                                    0 <= u < t && #[trigger] ps.subrange(0, t as int)[u]
                                        == j as usize;
                                if u == told {
                                    assert(false);
                                }
                                assert(ps.subrange(0, told)[u] == j as usize);
                                assert(ps.subrange(0, told).contains(j as usize));
                            }
                        }
                    }
                }
            }
            proof {
                assert(ps.subrange(0, np as int) =~= ps);
            }
        }
        proof {
            assert forall|j: int| 0 <= j < n implies marked[j] == reach_cut(
                commits@,
                root as int,
                j,
                i as int,
            ) by {
                lemma_reach_cut_step(commits@, root as int, j, i as int);
                if m0[j] && !(j == root as int) {
                }
            }
        }
    }
    marked
}

} // verus!
