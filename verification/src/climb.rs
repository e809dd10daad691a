//! Following parent links: why the climb ends, where it ends, and how the
//! representatives of a forest are told from its links alone.
use vstd::prelude::*;
use vstd::set_lib::*;
use crate::aggregate::lemma_bounded_set_len;
use crate::model::Forest;

verus! {

/// The elements that `rank` puts strictly above `x`.
pub open spec fn above(f: Forest, rank: Seq<nat>, x: int) -> Set<int> {
    Set::new(|j: int| f.has(j) && rank[j] > rank[x])
}

/// Climbing from a root goes nowhere.
pub proof fn lemma_root_stays(f: Forest, r: int, k: nat)
    requires
        f.is_root(r),
    ensures
        f.ancestor(r, k) == r,
    decreases k,
{
    if k > 0 {
        lemma_root_stays(f, r, (k - 1) as nat);
    }
}

/// Climbing `a + b` links is climbing `a` links and then `b` more.
pub proof fn lemma_ancestor_add(f: Forest, i: int, a: nat, b: nat)
    ensures
        f.ancestor(i, a + b) == f.ancestor(f.ancestor(i, a), b),
    decreases a,
{
    if a > 0 {
        lemma_ancestor_add(f, f.parent[i], (a - 1) as nat, b);
    }
}

/// Every link leads to an element with fewer elements above it, so a climb of
/// as many links as there are elements above its start ends at a root.
proof fn lemma_climb_by_rank(f: Forest, rank: Seq<nat>, i: int, k: nat)
    requires
        f.linked(),
        f.ranked_by(rank),
        f.has(i),
        above(f, rank, i).len() <= k,
    ensures
        f.has(f.ancestor(i, k)),
        f.is_root(f.ancestor(i, k)),
    decreases k,
{
    if f.is_root(i) {
        lemma_root_stays(f, i, k);
    } else {
        let u = f.parent[i];
        let over_i = above(f, rank, i);
        let over_u = above(f, rank, u);
        lemma_bounded_set_len(over_i, f.len());
        assert(over_i.contains(u));
        assert(over_u.subset_of(over_i.remove(u)));
        lemma_len_subset(over_u, over_i.remove(u));
        lemma_climb_by_rank(f, rank, u, (k - 1) as nat);
    }
}

/// In a well-formed forest the climb from any element reaches a root after
/// fewer links than there are elements, and that root is its representative.
pub proof fn lemma_climb_terminates(f: Forest, i: int)
    requires
        f.wf(),
        f.has(i),
    ensures
        f.has(f.root_of(i)),
        f.is_root(f.root_of(i)),
        f.ancestor(i, (f.len() - 1) as nat) == f.root_of(i),
        exists|k: nat| k < f.len() && f.is_root(#[trigger] f.ancestor(i, k)),
{
    let rank = choose|rank: Seq<nat>| f.ranked_by(rank);
    let over = above(f, rank, i);
    let most = (f.len() - 1) as nat;
    lemma_bounded_set_len(over.insert(i), f.len());
    assert(!over.contains(i));
    lemma_bounded_set_len(over, f.len());
    lemma_climb_by_rank(f, rank, i, most);
    lemma_ancestor_add(f, i, most, 1);
    assert(f.ancestor(f.ancestor(i, most), 1) == f.ancestor(i, most)) by {
        lemma_root_stays(f, f.ancestor(i, most), 1);
    }
    assert(most + 1 == f.len());
}

/// An element and its parent have the same representative.
pub proof fn lemma_parent_same_root(f: Forest, i: int)
    requires
        f.wf(),
        f.has(i),
    ensures
        f.root_of(f.parent[i]) == f.root_of(i),
{
    let most = (f.len() - 1) as nat;
    lemma_climb_terminates(f, f.parent[i]);
    assert(f.ancestor(i, f.len()) == f.ancestor(f.parent[i], most));
}

/// What holds of every element of a well-formed forest and its representative.
pub proof fn lemma_root_facts(f: Forest)
    requires
        f.wf(),
    ensures
        forall|i: int|
            f.has(i) ==> {
                let r = #[trigger] f.root_of(i);
                &&& f.has(r)
                &&& f.is_root(r)
                &&& (f.is_root(i) ==> r == i)
            },
        forall|i: int| f.has(i) ==> f.root_of(#[trigger] f.parent[i]) == f.root_of(i),
        forall|i: int, j: int|
            f.has(i) && 0 <= j < f.children[i].len() ==> f.root_of(#[trigger] f.children[i][j])
                == f.root_of(i),
{
    assert forall|i: int| f.has(i) implies {
        let r = #[trigger] f.root_of(i);
        &&& f.has(r)
        &&& f.is_root(r)
        &&& (f.is_root(i) ==> r == i)
    } by {
        lemma_climb_terminates(f, i);
        if f.is_root(i) {
            lemma_root_stays(f, i, f.len());
        }
    }
    assert forall|i: int| f.has(i) implies f.root_of(#[trigger] f.parent[i]) == f.root_of(i) by {
        lemma_parent_same_root(f, i);
    }
    assert forall|i: int, j: int| f.has(i) && 0 <= j < f.children[i].len() implies f.root_of(
        #[trigger] f.children[i][j],
    ) == f.root_of(i) by {
        lemma_parent_same_root(f, f.children[i][j]);
    }
}

/// If a climb of `k` links from `i` ends at a root, a labelling that is
/// constant along links and labels each root with itself labels `i` with it.
proof fn lemma_label_follows_climb(f: Forest, label: Seq<int>, i: int, k: nat)
    requires
        f.linked(),
        label.len() == f.len(),
        forall|r: int| f.has(r) && f.is_root(r) ==> #[trigger] label[r] == r,
        forall|x: int| f.has(x) ==> #[trigger] label[x] == label[f.parent[x]],
        f.has(i),
        f.is_root(f.ancestor(i, k)),
        f.has(f.ancestor(i, k)),
    ensures
        label[i] == f.ancestor(i, k),
    decreases k,
{
    if k > 0 {
        lemma_label_follows_climb(f, label, f.parent[i], (k - 1) as nat);
    }
}

/// The representatives are the only labelling that is constant along parent
/// links and labels each root with itself.
pub proof fn lemma_roots_determined(f: Forest, label: Seq<int>)
    requires
        f.wf(),
        label.len() == f.len(),
        forall|r: int| f.has(r) && f.is_root(r) ==> #[trigger] label[r] == r,
        forall|x: int| f.has(x) ==> #[trigger] label[x] == label[f.parent[x]],
    ensures
        forall|i: int| f.has(i) ==> #[trigger] f.root_of(i) == label[i],
{
    assert forall|i: int| f.has(i) implies #[trigger] f.root_of(i) == label[i] by {
        lemma_climb_terminates(f, i);
        lemma_label_follows_climb(f, label, i, f.len());
    }
}

} // verus!
