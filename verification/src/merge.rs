//! What merging two sets does to the forest, to its representatives and to
//! the size and the sum of each set.
use vstd::prelude::*;
use vstd::set_lib::*;
use crate::aggregate::{lemma_bounded_set_len, lemma_value_sum_disjoint_union};
use crate::climb::{lemma_root_facts, lemma_roots_determined};
use crate::model::Forest;

verus! {

/// The representative of `i` once the set represented by `qr` has been merged
/// into the set represented by `pr`.
pub open spec fn root_after_merge(f: Forest, pr: int, qr: int, i: int) -> int {
    if f.root_of(i) == qr {
        pr
    } else {
        f.root_of(i)
    }
}

/// Merging keeps the forest free of circles.
proof fn lemma_merged_acyclic(f: Forest, p: int, q: int)
    requires
        f.wf(),
        f.has(p),
        f.has(q),
    ensures
        f.merged(p, q).acyclic(),
{
    lemma_root_facts(f);
    let pr = f.root_of(p);
    let qr = f.root_of(q);
    let g = f.merged(p, q);
    if pr != qr {
        let rank = choose|rank: Seq<nat>| f.ranked_by(rank);
        let top: nat = if rank[pr] > rank[qr] {
            rank[pr]
        } else {
            rank[qr] + 1
        };
        let lifted = rank.update(pr, top);
        assert forall|i: int| g.has(i) && !g.is_root(i) implies lifted[i] < lifted[#[trigger] g.parent[i]] by {
            if i != qr {
                assert(g.parent[i] == f.parent[i]);
                assert(rank[i] < rank[f.parent[i]]);
            }
        }
        assert(g.ranked_by(lifted));
    }
}

/// Merging keeps parent links and child lists in step.
proof fn lemma_merged_linked(f: Forest, p: int, q: int)
    requires
        f.wf(),
        f.has(p),
        f.has(q),
    ensures
        f.merged(p, q).linked(),
{
    lemma_root_facts(f);
    let pr = f.root_of(p);
    let qr = f.root_of(q);
    let g = f.merged(p, q);
    if pr != qr {
        let old_kids = f.children[pr];
        assert forall|i: int| g.has(i) implies g.has(#[trigger] g.parent[i]) by {
            if i != qr {
                assert(g.parent[i] == f.parent[i]);
            }
        }
        assert forall|i: int, j: int| g.has(i) && 0 <= j < g.children[i].len() implies {
            let c = #[trigger] g.children[i][j];
            g.has(c) && c != i && g.parent[c] == i
        } by {
            if i == pr && j == old_kids.len() {
            } else {
                let c = f.children[i][j];
                assert(g.children[i][j] == c);
                assert(f.parent[c] == i);
            }
        }
        assert forall|c: int| g.has(c) && !g.is_root(c) implies g.children[#[trigger] g.parent[c]].contains(c) by {
            if c == qr {
                assert(g.children[pr][old_kids.len() as int] == qr);
            } else {
                let u = f.parent[c];
                assert(g.parent[c] == u);
                assert(f.children[u].contains(c));
                let j = choose|j: int| 0 <= j < f.children[u].len() && f.children[u][j] == c;
                assert(g.children[u][j] == c);
            }
        }
        assert forall|i: int| g.has(i) implies (#[trigger] g.children[i]).no_duplicates() by {
            assert(f.children[i].no_duplicates());
            if i == pr {
                assert forall|j: int| 0 <= j < old_kids.len() implies old_kids[j] != qr by {
                    assert(f.parent[f.children[pr][j]] == pr);
                }
            }
        }
    }
}

/// Merging keeps the forest well formed.
pub proof fn lemma_merged_wf(f: Forest, p: int, q: int)
    requires
        f.wf(),
        f.has(p),
        f.has(q),
    ensures
        f.merged(p, q).wf(),
        f.merged(p, q).len() == f.len(),
{
    lemma_root_facts(f);
    lemma_merged_acyclic(f, p, q);
    lemma_merged_linked(f, p, q);
}

/// Merging relabels the members of the absorbed set and nobody else.
pub proof fn lemma_merged_roots(f: Forest, p: int, q: int)
    requires
        f.wf(),
        f.has(p),
        f.has(q),
    ensures
        forall|i: int|
            f.has(i) ==> #[trigger] f.merged(p, q).root_of(i) == root_after_merge(
                f,
                f.root_of(p),
                f.root_of(q),
                i,
            ),
{
    lemma_root_facts(f);
    lemma_merged_wf(f, p, q);
    let pr = f.root_of(p);
    let qr = f.root_of(q);
    let g = f.merged(p, q);
    if pr != qr {
        let label = Seq::new(f.len(), |i: int| root_after_merge(f, pr, qr, i));
        assert forall|x: int| g.has(x) implies #[trigger] label[x] == label[g.parent[x]] by {
            if x != qr {
                assert(g.parent[x] == f.parent[x]);
                assert(f.root_of(f.parent[x]) == f.root_of(x));
            }
        }
        assert forall|r: int| g.has(r) && g.is_root(r) implies #[trigger] label[r] == r by {
            assert(f.is_root(r));
            assert(f.root_of(r) == r);
        }
        lemma_roots_determined(g, label);
    }
}

/// After a merge of two different sets, the merged set has the members of
/// both, and its size and sum are the sums of theirs; no other set changes.
pub proof fn lemma_merged_sets(f: Forest, p: int, q: int)
    requires
        f.wf(),
        f.has(p),
        f.has(q),
        !f.same_set(p, q),
    ensures
        f.merged(p, q).members(f.root_of(p)) == f.members(f.root_of(p)).union(
            f.members(f.root_of(q)),
        ),
        f.merged(p, q).set_size(p) == f.set_size(p) + f.set_size(q),
        f.merged(p, q).set_sum(p) == f.set_sum(p) + f.set_sum(q),
        forall|r: int|
            r != f.root_of(p) && r != f.root_of(q) ==> #[trigger] f.merged(p, q).members(r)
                == f.members(r),
{
    lemma_root_facts(f);
    lemma_merged_roots(f, p, q);
    let pr = f.root_of(p);
    let qr = f.root_of(q);
    let g = f.merged(p, q);
    let joined = f.members(pr).union(f.members(qr));
    assert(g.members(pr) =~= joined);
    assert(g.root_of(p) == pr);
    lemma_bounded_set_len(f.members(pr), f.len());
    lemma_bounded_set_len(f.members(qr), f.len());
    assert(f.members(pr).disjoint(f.members(qr)));
    lemma_set_disjoint_lens(f.members(pr), f.members(qr));
    lemma_value_sum_disjoint_union(f.members(pr), f.members(qr), f.len());
    assert forall|r: int| r != pr && r != qr implies #[trigger] g.members(r) == f.members(r) by {
        assert(g.members(r) =~= f.members(r));
    }
}

} // verus!
