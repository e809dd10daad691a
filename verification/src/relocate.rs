//! What moving a single element does to the forest, to its representatives
//! and to the size and the sum of each set.
use vstd::prelude::*;
use crate::aggregate::{
    lemma_bounded_set_len,
    lemma_value_sum_insert,
    lemma_value_sum_remove,
    value_of,
    value_sum,
};
use crate::climb::{lemma_root_facts, lemma_roots_determined};
use crate::model::Forest;

verus! {

/// The representative of `i` once `p` has been moved under the root `qr`.
pub open spec fn root_after_move(f: Forest, p: int, qr: int, i: int) -> int {
    if i == p {
        qr
    } else if f.root_of(i) == f.root_of(p) {
        f.heir(p)
    } else {
        f.root_of(i)
    }
}

/// What the links around `p` look like when `p` is about to leave its set
/// for the set of `q`.
pub open spec fn around(f: Forest, p: int, q: int) -> bool {
    let qr = f.root_of(q);
    let up = f.parent[p];
    let kids = f.children[p];
    &&& f.has(qr) && f.is_root(qr) && qr != p && qr != up
    &&& f.has(up)
    &&& forall|j: int|
        0 <= j < kids.len() ==> {
            let c = #[trigger] kids[j];
            c != qr && c != up && c != p && f.has(c) && f.parent[c] == p
        }
    &&& forall|i: int| f.has(i) && i != p && #[trigger] f.parent[i] == p ==> kids.contains(i)
    &&& forall|j: int| 0 <= j < f.children[qr].len() ==> #[trigger] f.children[qr][j] != p
    &&& up != p ==> {
        let slot = f.children[up].index_of(p);
        0 <= slot < f.children[up].len() && f.children[up][slot] == p
    }
}

/// The links around an element that is about to move are as `around` says.
pub proof fn lemma_around(f: Forest, p: int, q: int)
    requires
        f.wf(),
        f.has(p),
        f.has(q),
        !f.same_set(p, q),
    ensures
        around(f, p, q),
{
    lemma_root_facts(f);
    let qr = f.root_of(q);
    let up = f.parent[p];
    let kids = f.children[p];
    let rank = choose|rank: Seq<nat>| f.ranked_by(rank);
    assert(f.root_of(up) == f.root_of(p));
    assert forall|j: int| 0 <= j < kids.len() implies {
        let c = #[trigger] kids[j];
        c != qr && c != up && c != p && f.has(c) && f.parent[c] == p
    } by {
        let c = f.children[p][j];
        assert(f.parent[c] == p);
        assert(f.root_of(c) == f.root_of(p));
        if up != p {
            assert(rank[p] < rank[f.parent[p]]);
            assert(rank[c] < rank[f.parent[c]]);
        }
    }
    assert forall|j: int| 0 <= j < f.children[qr].len() implies #[trigger] f.children[qr][j]
        != p by {
        assert(f.parent[f.children[qr][j]] == qr);
    }
    if up != p {
        assert(f.children[f.parent[p]].contains(p));
    }
}

/// Moving an element keeps the forest free of circles.
proof fn lemma_moved_acyclic(f: Forest, p: int, q: int)
    requires
        f.wf(),
        f.has(p),
        f.has(q),
        !f.same_set(p, q),
    ensures
        f.moved(p, q).acyclic(),
{
    lemma_around(f, p, q);
    let qr = f.root_of(q);
    let up = f.parent[p];
    let kids = f.children[p];
    let g = f.moved(p, q);
    let rank = choose|rank: Seq<nat>| f.ranked_by(rank);
    let first = kids[0];
    let promoted = if kids.len() > 0 {
        rank.update(first, rank[p])
    } else {
        rank
    };
    let top: nat = if rank[qr] > 0 {
        rank[qr]
    } else {
        1
    };
    let settled = promoted.update(p, 0).update(qr, top);
    assert forall|i: int| g.has(i) && !g.is_root(i) implies settled[i] < settled[#[trigger] g.parent[i]] by {
        assert(g.parent[i] == f.parent_after_move(p, qr, i));
        if i == p {
        } else if f.parent[i] != p {
            let u = f.parent[i];
            assert(rank[i] < rank[u]);
            if kids.len() > 0 {
                assert(f.parent[kids[0]] == p);
                assert(rank[first] < rank[f.parent[first]]);
            }
        } else {
            assert(kids.contains(i));
            assert(f.parent[kids[0]] == p);
            assert(rank[i] < rank[f.parent[i]]);
            if i == first {
                assert(rank[p] < rank[f.parent[p]]);
            }
        }
    }
    assert(g.ranked_by(settled));
}

/// After a move every child in a list has the owner of the list as parent.
proof fn lemma_moved_children_point_up(f: Forest, p: int, q: int)
    requires
        f.wf(),
        f.has(p),
        f.has(q),
        !f.same_set(p, q),
    ensures
        forall|i: int, j: int|
            f.has(i) && 0 <= j < f.moved(p, q).children[i].len() ==> {
                let c = #[trigger] f.moved(p, q).children[i][j];
                f.has(c) && c != i && f.moved(p, q).parent[c] == i
            },
{
    lemma_around(f, p, q);
    let qr = f.root_of(q);
    let up = f.parent[p];
    let kids = f.children[p];
    let g = f.moved(p, q);
    assert forall|i: int, j: int| f.has(i) && 0 <= j < g.children[i].len() implies {
        let c = #[trigger] g.children[i][j];
        f.has(c) && c != i && g.parent[c] == i
    } by {
        let c = g.children[i][j];
        let own = f.children[i];
        assert(g.children[i] == f.children_after_move(p, qr, i));
        if i == p {
        } else if i == qr {
            if j < own.len() {
                assert(c == f.children[i][j]);
            }
        } else if kids.len() > 0 && i == kids[0] {
            if j < own.len() {
                assert(c == f.children[i][j]);
            } else {
                let k = j - own.len() + 1;
                assert(c == kids[k]);
                assert(kids.no_duplicates());
            }
        } else if i == up {
            let slot = own.index_of(p);
            assert(own.no_duplicates());
            if kids.len() > 0 {
                if j != slot {
                    assert(c == f.children[i][j]);
                }
            } else {
                if j < slot {
                    assert(c == f.children[i][j]);
                } else {
                    assert(c == f.children[i][j + 1]);
                }
            }
        } else {
            assert(c == f.children[i][j]);
        }
        assert(g.parent[c] == f.parent_after_move(p, qr, c));
    }
}

/// After a move every element that has a parent stands in that parent's list.
proof fn lemma_moved_parents_list_children(f: Forest, p: int, q: int)
    requires
        f.wf(),
        f.has(p),
        f.has(q),
        !f.same_set(p, q),
    ensures
        forall|c: int|
            f.has(c) && !f.moved(p, q).is_root(c) ==> f.moved(p, q).children[#[trigger] f.moved(
                p,
                q,
            ).parent[c]].contains(c),
{
    lemma_around(f, p, q);
    let qr = f.root_of(q);
    let up = f.parent[p];
    let kids = f.children[p];
    let g = f.moved(p, q);
    assert forall|c: int| f.has(c) && !g.is_root(c) implies g.children[#[trigger] g.parent[c]].contains(
        c,
    ) by {
        let u = g.parent[c];
        assert(u == f.parent_after_move(p, qr, c));
        assert(f.has(u));
        assert(g.children[u] == f.children_after_move(p, qr, u));
        if c == p {
            assert(g.children[u][f.children[qr].len() as int] == c);
        } else if f.parent[c] != p {
            let own = f.children[u];
            assert(own.contains(c));
            let j = choose|j: int| 0 <= j < own.len() && own[j] == c;
            if u == qr {
                assert(g.children[u][j] == c);
            } else if kids.len() > 0 && u == kids[0] {
                assert(g.children[u][j] == c);
            } else if u == up {
                let slot = own.index_of(p);
                if kids.len() > 0 {
                    assert(g.children[u][j] == c);
                } else if j < slot {
                    assert(g.children[u][j] == c);
                } else {
                    assert(g.children[u][j - 1] == c);
                }
            } else {
                assert(g.children[u][j] == c);
            }
        } else {
            assert(kids.contains(c));
            let j = choose|j: int| 0 <= j < kids.len() && kids[j] == c;
            if c != kids[0] {
                let own = f.children[kids[0]];
                assert(g.children[u][own.len() + j - 1] == c);
            } else {
                let slot = f.children[up].index_of(p);
                assert(g.children[u][slot] == c);
            }
        }
    }
}

/// After a move no child list names an element twice.
proof fn lemma_moved_lists_distinct(f: Forest, p: int, q: int)
    requires
        f.wf(),
        f.has(p),
        f.has(q),
        !f.same_set(p, q),
    ensures
        forall|i: int| f.has(i) ==> (#[trigger] f.moved(p, q).children[i]).no_duplicates(),
{
    lemma_around(f, p, q);
    let qr = f.root_of(q);
    let up = f.parent[p];
    let kids = f.children[p];
    let g = f.moved(p, q);
    assert forall|i: int| f.has(i) implies (#[trigger] g.children[i]).no_duplicates() by {
        let own = f.children[i];
        let now = g.children[i];
        assert(now == f.children_after_move(p, qr, i));
        assert(own.no_duplicates());
        assert(kids.no_duplicates());
        if i == p {
        } else if i == qr {
        } else if kids.len() > 0 && i == kids[0] {
            assert forall|a: int, b: int| 0 <= a < now.len() && 0 <= b < now.len() && a != b implies now[a]
                != now[b] by {
                let va = if a < own.len() {
                    f.children[i][a]
                } else {
                    kids[a - own.len() + 1]
                };
                let vb = if b < own.len() {
                    f.children[i][b]
                } else {
                    kids[b - own.len() + 1]
                };
                assert(now[a] == va && now[b] == vb);
            }
        } else if i == up {
            let slot = own.index_of(p);
            if kids.len() > 0 {
                assert forall|a: int, b: int|
                    0 <= a < now.len() && 0 <= b < now.len() && a != b implies now[a] != now[b] by {
                    if a != slot {
                        assert(now[a] == f.children[i][a]);
                    }
                    if b != slot {
                        assert(now[b] == f.children[i][b]);
                    }
                }
            } else {
                assert forall|a: int, b: int|
                    0 <= a < now.len() && 0 <= b < now.len() && a != b implies now[a] != now[b] by {
                    let sa = if a < slot {
                        a
                    } else {
                        a + 1
                    };
                    let sb = if b < slot {
                        b
                    } else {
                        b + 1
                    };
                    assert(now[a] == own[sa] && now[b] == own[sb]);
                }
            }
        } else {
        }
    }
}

/// Moving a single element keeps the forest well formed.
pub proof fn lemma_moved_wf(f: Forest, p: int, q: int)
    requires
        f.wf(),
        f.has(p),
        f.has(q),
    ensures
        f.moved(p, q).wf(),
        f.moved(p, q).len() == f.len(),
{
    if !f.same_set(p, q) {
        lemma_around(f, p, q);
        lemma_moved_acyclic(f, p, q);
        lemma_moved_children_point_up(f, p, q);
        lemma_moved_parents_list_children(f, p, q);
        lemma_moved_lists_distinct(f, p, q);
        let g = f.moved(p, q);
        let qr = f.root_of(q);
        assert forall|i: int| g.has(i) implies g.has(#[trigger] g.parent[i]) by {
            assert(g.parent[i] == f.parent_after_move(p, qr, i));
        }
    }
}

/// Before the move, the heir of `p` represents no set but that of `p`.
pub proof fn lemma_heir_is_new(f: Forest, p: int, q: int)
    requires
        f.wf(),
        f.has(p),
        f.has(q),
        !f.same_set(p, q),
    ensures
        f.has(f.heir(p)),
        forall|i: int| f.has(i) && f.root_of(i) != f.root_of(p) ==> #[trigger] f.root_of(i) != f.heir(p),
{
    lemma_root_facts(f);
    lemma_around(f, p, q);
    if f.is_root(p) && f.children[p].len() > 0 {
        let first = f.children[p][0];
        assert(f.parent[first] == p);
        assert(!f.is_root(first));
    }
}

/// A move relabels the moved element with its new root, and those it leaves
/// behind with their heir; nobody else is relabelled.
pub proof fn lemma_moved_roots(f: Forest, p: int, q: int)
    requires
        f.wf(),
        f.has(p),
        f.has(q),
        !f.same_set(p, q),
    ensures
        forall|i: int|
            f.has(i) ==> #[trigger] f.moved(p, q).root_of(i) == root_after_move(
                f,
                p,
                f.root_of(q),
                i,
            ),
{
    lemma_root_facts(f);
    lemma_around(f, p, q);
    lemma_moved_wf(f, p, q);
    let pr = f.root_of(p);
    let qr = f.root_of(q);
    let kids = f.children[p];
    let g = f.moved(p, q);
    let label = Seq::new(f.len(), |i: int| root_after_move(f, p, qr, i));
    assert forall|x: int| g.has(x) implies #[trigger] label[x] == label[g.parent[x]] by {
        let u = g.parent[x];
        assert(u == f.parent_after_move(p, qr, x));
        assert(f.root_of(f.parent[x]) == f.root_of(x));
        if x != p && f.parent[x] == p {
            assert(kids.contains(x));
            assert(f.parent[kids[0]] == p);
            assert(f.root_of(f.parent[kids[0]]) == f.root_of(kids[0]));
            assert(f.root_of(f.parent[p]) == pr);
        }
    }
    assert forall|r: int| g.has(r) && g.is_root(r) implies #[trigger] label[r] == r by {
        assert(r == f.parent_after_move(p, qr, r));
        if f.parent[r] == p {
            assert(kids.contains(r));
            assert(f.root_of(f.parent[r]) == f.root_of(r));
        } else {
            assert(f.is_root(r));
            assert(f.root_of(r) == r);
        }
    }
    lemma_roots_determined(g, label);
}

/// After a move the target set has gained the moved element and the set it
/// left has lost it, in members, size and sum; no other set changes.
pub proof fn lemma_moved_sets(f: Forest, p: int, q: int)
    requires
        f.wf(),
        f.has(p),
        f.has(q),
        !f.same_set(p, q),
    ensures
        f.moved(p, q).members(f.root_of(q)) == f.members(f.root_of(q)).insert(p),
        f.moved(p, q).set_size(p) == f.set_size(q) + 1,
        f.moved(p, q).set_sum(p) == f.set_sum(q) + value_of(p),
        f.set_size(p) >= 1,
        f.set_sum(p) >= value_of(p),
        f.heir(p) != p ==> {
            &&& f.moved(p, q).members(f.heir(p)) == f.members(f.root_of(p)).remove(p)
            &&& f.moved(p, q).members(f.heir(p)).len() == f.set_size(p) - 1
            &&& value_sum(f.moved(p, q).members(f.heir(p)), f.len()) == f.set_sum(p) - value_of(p)
        },
        f.heir(p) == p ==> f.members(p) == Set::<int>::empty().insert(p),
        forall|r: int|
            r != f.root_of(p) && r != f.root_of(q) && r != f.heir(p) ==> #[trigger] f.moved(
                p,
                q,
            ).members(r) == f.members(r),
{
    lemma_root_facts(f);
    lemma_around(f, p, q);
    lemma_moved_roots(f, p, q);
    let pr = f.root_of(p);
    let qr = f.root_of(q);
    let kids = f.children[p];
    let heir = f.heir(p);
    let g = f.moved(p, q);
    let n = f.len();
    assert(g.members(qr) =~= f.members(qr).insert(p));
    lemma_bounded_set_len(f.members(qr), n);
    lemma_bounded_set_len(f.members(pr), n);
    lemma_value_sum_insert(f.members(qr), p, n);
    lemma_value_sum_remove(f.members(pr), p, n);
    assert(g.root_of(p) == qr);
    assert(f.members(pr).contains(p));
    if heir != p {
        assert(g.members(heir) =~= f.members(pr).remove(p));
    } else {
        assert forall|i: int| f.has(i) && i != p implies f.root_of(i) != p by {
            if f.root_of(i) == p {
                lemma_leaf_root_is_alone(f, p, i, n);
            }
        }
        assert(f.members(p) =~= Set::<int>::empty().insert(p));
    }
    assert forall|r: int| r != pr && r != qr && r != heir implies #[trigger] g.members(r)
        == f.members(r) by {
        assert(g.members(r) =~= f.members(r));
    }
}

/// A climb that ends at a root without children never left it.
proof fn lemma_leaf_root_is_alone(f: Forest, r: int, i: int, k: nat)
    requires
        f.linked(),
        f.has(r),
        f.has(i),
        f.children[r].len() == 0,
        f.ancestor(i, k) == r,
    ensures
        i == r,
    decreases k,
{
    if k > 0 && i != r {
        lemma_leaf_root_is_alone(f, r, f.parent[i], (k - 1) as nat);
        assert(f.parent[i] == r);
        assert(f.children[f.parent[i]].contains(i));
    }
}

} // verus!
