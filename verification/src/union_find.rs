//! The executable forest: a flat arena of parent links, child lists and the
//! size and sum that each root caches for its set.
use vstd::prelude::*;
use crate::aggregate::{
    lemma_bounded_set_len,
    lemma_value_sum_bound,
    total_value,
    value_of,
    value_sum,
};
use crate::climb::{
    lemma_ancestor_add,
    lemma_climb_terminates,
    lemma_root_facts,
    lemma_root_stays,
};
use crate::laws::lemma_singletons;
use crate::merge::{lemma_merged_roots, lemma_merged_sets, lemma_merged_wf, root_after_merge};
use crate::model::Forest;
use crate::relocate::{
    lemma_around,
    lemma_moved_roots,
    lemma_moved_sets,
    lemma_moved_wf,
    root_after_move,
};

verus! {

/// A disjoint-set forest over the elements `0 .. n`, where element `i` is
/// worth `i + 1`. Every root caches the size and the sum of its set.
pub struct UnionFind {
    parents: Vec<usize>,
    children: Vec<Vec<usize>>,
    size: Vec<usize>,
    sum: Vec<u64>,
}

/// One child list as a sequence of identifiers.
pub open spec fn list_view(list: Vec<usize>) -> Seq<int> {
    Seq::new(list@.len(), |j: int| list@[j] as int)
}

/// The place of `x` in `list`, which holds it.
fn position(list: &Vec<usize>, x: usize) -> (slot: usize)
    requires
        list@.contains(x),
    ensures
        slot < list@.len(),
        list@[slot as int] == x,
        forall|j: int| 0 <= j < slot ==> list@[j] != x,
{
    let end = list.len();
    let mut slot: usize = 0;
    while list[slot] != x
        invariant
            end == list@.len(),
            slot < list@.len(),
            list@.contains(x),
            forall|j: int| 0 <= j < slot ==> list@[j] != x,
        decreases list@.len() - slot,
    {
        proof {
            let at = choose|j: int| 0 <= j < list@.len() && list@[j] == x;
            assert(at > slot);
        }
        slot += 1;
    }
    slot
}

impl View for UnionFind {
    type V = Forest;

    closed spec fn view(&self) -> Forest {
        Forest {
            parent: Seq::new(self.parents@.len(), |i: int| self.parents@[i] as int),
            children: Seq::new(self.children@.len(), |i: int| list_view(self.children@[i])),
        }
    }
}

impl UnionFind {
    /// The invariant of the structure: the links form a well-formed forest,
    /// every root holds the size and the sum of its set, and the sum of all
    /// values fits the type of the sums.
    pub closed spec fn wf(&self) -> bool {
        &&& self.children@.len() == self.parents@.len()
        &&& self.size@.len() == self.parents@.len()
        &&& self.sum@.len() == self.parents@.len()
        &&& self@.wf()
        &&& self.parents@.len() <= usize::MAX
        &&& total_value(self.parents@.len()) <= u64::MAX
        &&& forall|r: int|
            self@.has(r) && #[trigger] self@.is_root(r) ==> {
                &&& self.size@[r] == self@.members(r).len()
                &&& self.sum@[r] == value_sum(self@.members(r), self@.len())
            }
    }

    /// The size that the element `r` caches; it counts where `r` is a root.
    pub closed spec fn cached_size(&self, r: int) -> int {
        self.size@[r] as int
    }

    /// The sum that the element `r` caches; it counts where `r` is a root.
    pub closed spec fn cached_sum(&self, r: int) -> int {
        self.sum@[r] as int
    }

    /// The links of a well-formed structure form a well-formed forest.
    pub proof fn lemma_forest_wf(&self)
        requires
            self.wf(),
        ensures
            self@.wf(),
            self@.len() <= usize::MAX,
    {
    }

    /// In a well-formed structure the links form a well-formed forest, and
    /// every root caches the number of the elements that it represents and the
    /// sum of their values.
    pub proof fn lemma_roots_cache_their_sets(&self, r: int)
        requires
            self.wf(),
            self@.has(r),
            self@.is_root(r),
        ensures
            self@.wf(),
            self.cached_size(r) == self@.members(r).len(),
            self.cached_sum(r) == value_sum(self@.members(r), self@.len()),
            forall|i: int| self@.members(r).contains(i) <==> self@.has(i) && self@.root_of(i) == r,
    {
    }

    /// Whether a forest of `size` elements can be built: whether the sum of
    /// all their values fits the type of the sums.
    pub fn supports(size: usize) -> (ok: bool)
        ensures
            ok == (total_value(size as nat) <= u64::MAX),
    {
        proof {
            crate::aggregate::lemma_total_value_closed_form(size as nat);
        }
        let n: u128 = size as u128;
        let limit: u128 = u64::MAX as u128;
        assert(n * (n + 1) <= 0xffff_ffff_ffff_ffff * 0x1_0000_0000_0000_0000) by (nonlinear_arith)
            requires
                0 <= n <= 0xffff_ffff_ffff_ffff,
        ;
        let twice: u128 = n * (n + 1);
        twice / 2 <= limit
    }

    /// Builds the forest of `size` singleton sets.
    pub fn new(size: usize) -> (forest: UnionFind)
        requires
            total_value(size as nat) <= u64::MAX,
        ensures
            forest.wf(),
            forest@ == Forest::singletons(size as nat),
    {
        let mut parents: Vec<usize> = Vec::new();
        let mut children: Vec<Vec<usize>> = Vec::new();
        let mut sizes: Vec<usize> = Vec::new();
        let mut sums: Vec<u64> = Vec::new();
        let mut i: usize = 0;
        while i < size
            invariant
                i <= size,
                parents@.len() == i,
                children@.len() == i,
                sizes@.len() == i,
                sums@.len() == i,
                forall|k: int| 0 <= k < i ==> #[trigger] parents@[k] == k,
                forall|k: int| 0 <= k < i ==> (#[trigger] children@[k])@.len() == 0,
                forall|k: int| 0 <= k < i ==> #[trigger] sizes@[k] == 1,
                forall|k: int| 0 <= k < i ==> #[trigger] sums@[k] == value_of(k),
            decreases size - i,
        {
            parents.push(i);
            children.push(Vec::new());
            sizes.push(1);
            sums.push((i as u64) + 1);
            i += 1;
        }
        let forest = UnionFind { parents, children, size: sizes, sum: sums };
        proof {
            let f = forest@;
            let n = size as nat;
            assert(f.parent =~= Forest::singletons(n).parent);
            assert(f.children =~~= Forest::singletons(n).children);
            assert forall|r: int| f.has(r) && #[trigger] f.is_root(r) implies {
                &&& forest.size@[r] == f.members(r).len()
                &&& forest.sum@[r] == value_sum(f.members(r), f.len())
            } by {
                lemma_singletons(n, r);
            }
            if n > 0 {
                lemma_singletons(n, 0);
            } else {
                assert(f.ranked_by(Seq::empty()));
            }
        }
        forest
    }

    /// The number of elements.
    pub fn len(&self) -> (n: usize)
        ensures
            n == self@.len(),
    {
        self.parents.len()
    }

    /// Finds the representative of the set of `index` by following parent links.
    pub fn find(&self, index: usize) -> (root: usize)
        requires
            self.wf(),
            self@.has(index as int),
        ensures
            root == self@.root_of(index as int),
            self@.has(root as int),
            self@.is_root(root as int),
    {
        let mut current = index;
        let ghost steps: nat = 0;
        proof {
            lemma_climb_terminates(self@, index as int);
        }
        while self.parents[current] != current
            invariant
                self.wf(),
                self@.has(index as int),
                self@.has(current as int),
                steps < self@.len(),
                self@.ancestor(index as int, steps) == current,
                self@.is_root(self@.ancestor(index as int, (self@.len() - 1) as nat)),
            decreases self@.len() - steps,
        {
            proof {
                lemma_ancestor_add(self@, index as int, steps, 1);
                assert(self@.ancestor(current as int, 1) == self@.parent[current as int]) by {
                    reveal_with_fuel(Forest::ancestor, 2);
                }
                assert(steps + 1 < self@.len());
                steps = steps + 1;
            }
            current = self.parents[current];
        }
        proof {
            let rest = (self@.len() - steps) as nat;
            lemma_ancestor_add(self@, index as int, steps, rest);
            lemma_root_stays(self@, current as int, rest);
            assert(steps + rest == self@.len());
        }
        current
    }

    /// Merges the set of `q` into the set of `p`: the root of `q` becomes the
    /// youngest child of the root of `p`. Nothing changes when both already
    /// share a set.
    pub fn union(&mut self, p: usize, q: usize)
        requires
            old(self).wf(),
            old(self)@.has(p as int),
            old(self)@.has(q as int),
        ensures
            final(self).wf(),
            final(self)@ == old(self)@.merged(p as int, q as int),
            old(self)@.same_set(p as int, q as int) ==> *final(self) == *old(self),
            forall|i: int|
                old(self)@.has(i) ==> #[trigger] final(self)@.root_of(i) == root_after_merge(
                    old(self)@,
                    old(self)@.root_of(p as int),
                    old(self)@.root_of(q as int),
                    i,
                ),
            !old(self)@.same_set(p as int, q as int) ==> {
                &&& final(self)@.set_size(p as int) == old(self)@.set_size(p as int) + old(
                    self,
                )@.set_size(q as int)
                &&& final(self)@.set_sum(p as int) == old(self)@.set_sum(p as int) + old(
                    self,
                )@.set_sum(q as int)
            },
    {
        let p_root = self.find(p);
        let q_root = self.find(q);
        if p_root == q_root {
            return ;
        }
        let ghost before = *self;
        proof {
            before.lemma_merge_fits(p as int, q as int);
            lemma_merged_roots(before@, p as int, q as int);
            lemma_merged_sets(before@, p as int, q as int);
        }
        let added_size = self.size[q_root];
        let added_sum = self.sum[q_root];
        self.parents[q_root] = p_root;
        self.children[p_root].push(q_root);
        self.size[p_root] += added_size;
        self.sum[p_root] += added_sum;
        proof {
            before.lemma_merge_refines(*self, p as int, q as int, p_root, q_root);
        }
    }

    /// The cached size and sum of two different sets can be added up.
    proof fn lemma_merge_fits(self, p: int, q: int)
        requires
            self.wf(),
            self@.has(p),
            self@.has(q),
            !self@.same_set(p, q),
        ensures
            self.size@[self@.root_of(p)] + self.size@[self@.root_of(q)] <= usize::MAX,
            self.sum@[self@.root_of(p)] + self.sum@[self@.root_of(q)] <= u64::MAX,
    {
        let f = self@;
        let g = f.merged(p, q);
        let pr = f.root_of(p);
        let qr = f.root_of(q);
        lemma_root_facts(f);
        lemma_merged_roots(f, p, q);
        lemma_merged_sets(f, p, q);
        lemma_bounded_set_len(g.members(pr), f.len());
        lemma_value_sum_bound(g.members(pr), f.len());
        assert(f.is_root(pr) && f.is_root(qr));
        assert(g.len() == f.len());
        assert(g.root_of(p) == pr);
    }

    /// The four updates of a merge lead to the merged forest, with the cached
    /// sizes and sums in order.
    proof fn lemma_merge_refines(self, next: UnionFind, p: int, q: int, pr: usize, qr: usize)
        requires
            self.wf(),
            self@.has(p),
            self@.has(q),
            pr != qr,
            pr == self@.root_of(p),
            qr == self@.root_of(q),
            next.parents@.len() == self.parents@.len(),
            next.children@.len() == self.children@.len(),
            next.size@.len() == self.size@.len(),
            next.sum@.len() == self.sum@.len(),
            next.parents@[qr as int] == pr,
            next.children@[pr as int]@ =~= self.children@[pr as int]@.push(qr),
            next.size@[pr as int] == self.size@[pr as int] + self.size@[qr as int],
            next.sum@[pr as int] == self.sum@[pr as int] + self.sum@[qr as int],
            forall|i: int|
                0 <= i < self.parents@.len() && i != qr ==> next.parents@[i] == self.parents@[i],
            forall|i: int|
                0 <= i < self.parents@.len() && i != pr ==> {
                    &&& next.children@[i] == self.children@[i]
                    &&& next.size@[i] == self.size@[i]
                    &&& next.sum@[i] == self.sum@[i]
                },
        ensures
            next.wf(),
            next@ == self@.merged(p, q),
    {
        let before = self@;
        let after = before.merged(p, q);
        let n = before.len();
        lemma_root_facts(before);
        lemma_merged_wf(before, p, q);
        lemma_merged_roots(before, p, q);
        lemma_merged_sets(before, p, q);
        assert(next@.parent =~= after.parent);
        assert forall|i: int| 0 <= i < n implies next@.children[i] =~= after.children[i] by {
            if i != pr {
                assert(next.children@[i] == self.children@[i]);
            }
        }
        assert(next@.children =~= after.children);
        assert(next@ == after);
        assert forall|r: int| after.has(r) && #[trigger] after.is_root(r) implies {
            &&& next.size@[r] == after.members(r).len()
            &&& next.sum@[r] == value_sum(after.members(r), n)
        } by {
            assert(before.is_root(r));
            assert(r != qr);
            if r != pr {
                assert(after.members(r) == before.members(r));
            }
        }
    }

    /// Moves the single element `p` into the set of `q`, as a new leaf under
    /// its root. The oldest child of `p` inherits its other children and its
    /// place in the tree. Nothing changes when both already share a set.
    pub fn move_number(&mut self, p: usize, q: usize)
        requires
            old(self).wf(),
            old(self)@.has(p as int),
            old(self)@.has(q as int),
        ensures
            final(self).wf(),
            final(self)@ == old(self)@.moved(p as int, q as int),
            old(self)@.same_set(p as int, q as int) ==> *final(self) == *old(self),
            !old(self)@.same_set(p as int, q as int) ==> {
                &&& forall|i: int|
                    old(self)@.has(i) ==> #[trigger] final(self)@.root_of(i) == root_after_move(
                        old(self)@,
                        p as int,
                        old(self)@.root_of(q as int),
                        i,
                    )
                &&& final(self)@.set_size(p as int) == old(self)@.set_size(q as int) + 1
                &&& final(self)@.set_sum(p as int) == old(self)@.set_sum(q as int) + value_of(
                    p as int,
                )
            },
    {
        let p_root = self.find(p);
        let q_root = self.find(q);
        if p_root == q_root {
            return ;
        }
        let ghost before = *self;
        let ghost kids = before.children@[p as int]@;
        proof {
            before.lemma_move_fits(p as int, q as int);
            lemma_moved_roots(before@, p as int, q as int);
            lemma_moved_sets(before@, p as int, q as int);
        }
        let up = self.parents[p];
        let worth = (p as u64) + 1;
        let count = self.children[p].len();
        let mut slot: usize = 0;
        if count > 0 {
            let first = self.children[p][0];
            let mut k: usize = 1;
            while k < count
                invariant
                    1 <= k <= count,
                    count == kids.len(),
                    kids == before.children@[p as int]@,
                    before.detachable(p, q_root),
                    first == kids[0],
                    self.parents@.len() == before.parents@.len(),
                    self.children@.len() == before.children@.len(),
                    self.size == before.size,
                    self.sum == before.sum,
                    forall|j: int| 1 <= j < k ==> self.parents@[(#[trigger] kids[j]) as int] == first,
                    forall|i: int|
                        0 <= i < before.parents@.len() && before.parents@[i] != p
                            ==> #[trigger] self.parents@[i] == before.parents@[i],
                    self.parents@[p as int] == before.parents@[p as int],
                    self.parents@[first as int] == p,
                    forall|i: int|
                        0 <= i < before.children@.len() && i != first ==> #[trigger] self.children@[i]
                            == before.children@[i],
                    self.children@[first as int]@ =~= before.children@[first as int]@ + kids.subrange(
                        1,
                        k as int,
                    ),
                decreases count - k,
            {
                let child = self.children[p][k];
                assert(child == kids[k as int]);
                self.parents[child] = first;
                self.children[first].push(child);
                k += 1;
            }
            if up == p {
                self.parents[first] = first;
                self.size[first] = self.size[p] - 1;
                self.sum[first] = self.sum[p] - worth;
            } else {
                self.parents[first] = up;
                slot = position(&self.children[up], p);
                self.children[up][slot] = first;
            }
        } else if up != p {
            slot = position(&self.children[up], p);
            self.children[up].remove(slot);
        }
        if up != p {
            self.size[p_root] -= 1;
            self.sum[p_root] -= worth;
        }
        self.children[p].clear();
        self.parents[p] = q_root;
        self.children[q_root].push(p);
        self.size[q_root] += 1;
        self.sum[q_root] += worth;
        proof {
            before.lemma_move_refines(*self, p, q as int, q_root, slot);
        }
    }

    /// What the code of a move relies on: the elements around `p` are in
    /// range and distinct, and the cached sizes and sums can take the change.
    spec fn detachable(self, p: usize, qr: usize) -> bool {
        let n = self.parents@.len();
        let up = self.parents@[p as int];
        let kids = self.children@[p as int]@;
        let pr = self@.root_of(p as int);
        &&& p < n && qr < n && up < n && 0 <= pr < n
        &&& self.children@.len() == n && self.size@.len() == n && self.sum@.len() == n
        &&& qr != p && qr != up && qr != pr
        &&& (up == p ==> pr == p)
        &&& forall|j: int|
            0 <= j < kids.len() ==> {
                let c = #[trigger] kids[j];
                c < n && c != p && c != qr && c != up && self.parents@[c as int] == p
            }
        &&& forall|i: int, j: int| 0 <= i < j < kids.len() ==> kids[i] != kids[j]
        &&& up != p ==> self.children@[up as int]@.contains(p)
        &&& self.size@[pr] >= 1
        &&& self.sum@[pr] >= p + 1
        &&& self.size@[qr as int] + 1 <= usize::MAX
        &&& self.sum@[qr as int] + p + 1 <= u64::MAX
    }

    /// The cached sizes and sums can take the change that a move brings.
    proof fn lemma_move_counts(self, p: int, q: int)
        requires
            self.wf(),
            self@.has(p),
            self@.has(q),
            !self@.same_set(p, q),
        ensures
            self.size@[self@.root_of(p)] >= 1,
            self.sum@[self@.root_of(p)] >= p + 1,
            self.size@[self@.root_of(q)] + 1 <= usize::MAX,
            self.sum@[self@.root_of(q)] + p + 1 <= u64::MAX,
    {
        let f = self@;
        let g = f.moved(p, q);
        let pr = f.root_of(p);
        let qr = f.root_of(q);
        lemma_root_facts(f);
        lemma_moved_wf(f, p, q);
        lemma_moved_roots(f, p, q);
        lemma_moved_sets(f, p, q);
        lemma_bounded_set_len(g.members(qr), f.len());
        lemma_value_sum_bound(g.members(qr), f.len());
        assert(f.is_root(pr) && f.is_root(qr));
        assert(g.root_of(p) == qr);
        assert(g.len() == f.len());
    }

    /// The children of an element that is about to move are in range, distinct
    /// from each other and from the elements around them.
    proof fn lemma_move_kids(self, p: int, q: int)
        requires
            self.wf(),
            self@.has(p),
            self@.has(q),
            !self@.same_set(p, q),
        ensures
            forall|j: int|
                0 <= j < self.children@[p]@.len() ==> {
                    let c = #[trigger] self.children@[p]@[j];
                    &&& c < self.parents@.len()
                    &&& c != p
                    &&& c != self@.root_of(q)
                    &&& c != self.parents@[p]
                    &&& self.parents@[c as int] == p
                },
            forall|i: int, j: int|
                0 <= i < j < self.children@[p]@.len() ==> self.children@[p]@[i]
                    != self.children@[p]@[j],
            self.parents@[p] != p ==> self.children@[self.parents@[p] as int]@.contains(p as usize),
    {
        let f = self@;
        let qr = f.root_of(q);
        let up = f.parent[p];
        let kids = self.children@[p]@;
        lemma_around(f, p, q);
        assert forall|j: int| 0 <= j < kids.len() implies {
            let c = #[trigger] kids[j];
            c < f.len() && c != p && c != qr && c != up && self.parents@[c as int] == p
        } by {
            assert(f.children[p][j] == kids[j]);
        }
        assert forall|i: int, j: int| 0 <= i < j < kids.len() implies kids[i] != kids[j] by {
            assert(f.children[p].no_duplicates());
            assert(f.children[p][i] == kids[i]);
            assert(f.children[p][j] == kids[j]);
        }
        if up != p {
            let at = f.children[up].index_of(p);
            assert(f.children[up][at] == p);
            assert(self.children@[up]@[at] == p as usize);
        }
    }

    /// An element that is to leave its set for another can be detached.
    proof fn lemma_move_fits(self, p: int, q: int)
        requires
            self.wf(),
            self@.has(p),
            self@.has(q),
            !self@.same_set(p, q),
        ensures
            self.detachable(p as usize, self@.root_of(q) as usize),
    {
        lemma_root_facts(self@);
        lemma_around(self@, p, q);
        self.lemma_move_counts(p, q);
        self.lemma_move_kids(p, q);
    }

    /// What the code of a move does to the parent links.
    spec fn parents_moved(self, next: UnionFind, p: usize, qr: usize) -> bool {
        let kids = self.children@[p as int]@;
        let up = self.parents@[p as int];
        &&& next.parents@.len() == self.parents@.len()
        &&& next.parents@[p as int] == qr
        &&& kids.len() > 0 ==> next.parents@[kids[0] as int] == (if up == p {
            kids[0]
        } else {
            up
        })
        &&& forall|j: int| 1 <= j < kids.len() ==> next.parents@[(#[trigger] kids[j]) as int] == kids[0]
        &&& forall|i: int|
            0 <= i < self.parents@.len() && i != p && self.parents@[i] != p
                ==> #[trigger] next.parents@[i] == self.parents@[i]
    }

    /// What the code of a move does to the child lists.
    spec fn children_moved(self, next: UnionFind, p: usize, qr: usize, slot: usize) -> bool {
        let kids = self.children@[p as int]@;
        let up = self.parents@[p as int];
        let own = self.children@[up as int]@;
        &&& next.children@.len() == self.children@.len()
        &&& next.children@[p as int]@.len() == 0
        &&& next.children@[qr as int]@ =~= self.children@[qr as int]@.push(p)
        &&& kids.len() > 0 ==> next.children@[kids[0] as int]@ =~= self.children@[kids[0] as int]@
            + kids.subrange(1, kids.len() as int)
        &&& up != p ==> {
            &&& slot < own.len()
            &&& own[slot as int] == p
            &&& next.children@[up as int]@ =~= (if kids.len() > 0 {
                own.update(slot as int, kids[0])
            } else {
                own.remove(slot as int)
            })
        }
        &&& forall|i: int|
            0 <= i < self.parents@.len() && i != p && i != qr && i != up && !(kids.len() > 0 && i
                == kids[0]) ==> #[trigger] next.children@[i] == self.children@[i]
    }

    /// What the code of a move does to the cached sizes and sums.
    spec fn counts_moved(self, next: UnionFind, p: usize, qr: usize) -> bool {
        let heir = self@.heir(p as int);
        let pr = self@.root_of(p as int);
        &&& next.size@.len() == self.size@.len()
        &&& next.sum@.len() == self.sum@.len()
        &&& next.size@[qr as int] == self.size@[qr as int] + 1
        &&& next.sum@[qr as int] == self.sum@[qr as int] + p + 1
        &&& heir != p ==> {
            &&& next.size@[heir] == self.size@[pr] - 1
            &&& next.sum@[heir] == self.sum@[pr] - (p + 1)
        }
        &&& forall|i: int|
            0 <= i < self.parents@.len() && i != qr && i != heir ==> {
                &&& #[trigger] next.size@[i] == self.size@[i]
                &&& next.sum@[i] == self.sum@[i]
            }
    }

    /// The parent links that the code of a move leaves are those of the model.
    proof fn lemma_move_parents(self, next: UnionFind, p: usize, q: int, qr: usize)
        requires
            self.wf(),
            self@.has(p as int),
            self@.has(q),
            !self@.same_set(p as int, q),
            qr == self@.root_of(q),
            self.parents_moved(next, p, qr),
        ensures
            next@.parent == self@.moved(p as int, q).parent,
    {
        let f = self@;
        let g = f.moved(p as int, q);
        let kids = f.children[p as int];
        let raw_kids = self.children@[p as int]@;
        lemma_around(f, p as int, q);
        assert forall|i: int| 0 <= i < f.len() implies next@.parent[i] == g.parent[i] by {
            assert(g.parent[i] == f.parent_after_move(p as int, qr as int, i));
            if i != p && f.parent[i] == p {
                assert(kids.contains(i));
                let j = choose|j: int| 0 <= j < kids.len() && kids[j] == i;
                assert(raw_kids[j] == i);
                assert(kids[0] == raw_kids[0]);
                if j >= 1 {
                    assert(kids.no_duplicates());
                    assert(kids[j] != kids[0]);
                    assert(next.parents@[raw_kids[j] as int] == raw_kids[0]);
                }
            } else if i != p {
                assert(next.parents@[i] == self.parents@[i]);
            }
        }
        assert(next@.parent =~= g.parent);
    }

    /// The child lists that the code of a move leaves are those of the model.
    proof fn lemma_move_children(self, next: UnionFind, p: usize, q: int, qr: usize, slot: usize)
        requires
            self.wf(),
            self@.has(p as int),
            self@.has(q),
            !self@.same_set(p as int, q),
            qr == self@.root_of(q),
            self.children_moved(next, p, qr, slot),
        ensures
            next@.children == self@.moved(p as int, q).children,
    {
        let f = self@;
        let g = f.moved(p as int, q);
        let n = f.len();
        let up = f.parent[p as int];
        let kids = f.children[p as int];
        let raw_kids = self.children@[p as int]@;
        lemma_around(f, p as int, q);
        assert forall|i: int| 0 <= i < n implies next@.children[i] =~= g.children[i] by {
            let now = next.children@[i]@;
            let own = self.children@[i]@;
            assert(f.children[i] == list_view(self.children@[i]));
            assert(next@.children[i] == list_view(next.children@[i]));
            assert(g.children[i] == f.children_after_move(p as int, qr as int, i));
            if i == p {
            } else if i == qr {
            } else if kids.len() > 0 && i == kids[0] {
                assert(kids[0] == raw_kids[0]);
                assert(now =~= own + raw_kids.subrange(1, raw_kids.len() as int));
                assert(next@.children[i].len() == g.children[i].len());
                assert forall|j: int| 0 <= j < now.len() implies now[j] as int == g.children[i][j] by {
                    if j >= own.len() {
                        assert(kids.skip(1)[j - own.len()] == raw_kids[j - own.len() + 1]);
                    } else {
                        assert(f.children[i][j] == own[j]);
                    }
                }
            } else if i == up {
                assert(f.children[i].no_duplicates());
                assert(f.children[i][slot as int] == p);
                assert(f.children[i].index_of(p as int) == slot);
                if kids.len() > 0 {
                    assert(kids[0] == raw_kids[0]);
                    assert(now =~= own.update(slot as int, raw_kids[0]));
                } else {
                    assert(now =~= own.remove(slot as int));
                }
            } else {
                assert(next.children@[i] == self.children@[i]);
            }
        }
        assert(next@.children =~= g.children);
    }

    /// The sizes and sums that the code of a move leaves are those of the sets
    /// of the moved forest.
    proof fn lemma_move_counts_refine(self, next: UnionFind, p: usize, q: int, qr: usize)
        requires
            self.wf(),
            self@.has(p as int),
            self@.has(q),
            !self@.same_set(p as int, q),
            qr == self@.root_of(q),
            next@ == self@.moved(p as int, q),
            self.counts_moved(next, p, qr),
        ensures
            forall|r: int|
                next@.has(r) && #[trigger] next@.is_root(r) ==> {
                    &&& next.size@[r] == next@.members(r).len()
                    &&& next.sum@[r] == value_sum(next@.members(r), next@.len())
                },
    {
        let f = self@;
        let g = f.moved(p as int, q);
        let n = f.len();
        let kids = f.children[p as int];
        let heir = f.heir(p as int);
        let pr = f.root_of(p as int);
        lemma_root_facts(f);
        lemma_around(f, p as int, q);
        lemma_moved_wf(f, p as int, q);
        lemma_moved_roots(f, p as int, q);
        lemma_moved_sets(f, p as int, q);
        assert(f.is_root(pr) && f.is_root(qr as int));
        assert(self.size@[pr] == f.members(pr).len());
        assert(self.sum@[pr] == value_sum(f.members(pr), n));
        assert(self.size@[qr as int] == f.members(qr as int).len());
        assert(self.sum@[qr as int] == value_sum(f.members(qr as int), n));
        assert(g.root_of(p as int) == qr);
        assert forall|r: int| g.has(r) && #[trigger] g.is_root(r) implies {
            &&& next.size@[r] == g.members(r).len()
            &&& next.sum@[r] == value_sum(g.members(r), n)
        } by {
            assert(r == f.parent_after_move(p as int, qr as int, r));
            assert(r != p);
            if r == qr {
                assert(g.members(r).len() == g.set_size(p as int));
                assert(value_sum(g.members(r), n) == g.set_sum(p as int));
            } else if r == heir {
            } else {
                if f.parent[r] == p {
                    assert(kids.contains(r));
                    assert(kids.len() > 0);
                    assert(r == kids[0]);
                    assert(f.is_root(p as int));
                    assert(false);
                }
                assert(f.is_root(r));
                assert(r != pr);
                assert(g.members(r) == f.members(r));
                assert(next.size@[r] == self.size@[r]);
                assert(next.sum@[r] == self.sum@[r]);
            }
        }
    }

    /// The updates of a move lead to the forest that the model describes, with
    /// the cached sizes and sums in order.
    proof fn lemma_move_refines(self, next: UnionFind, p: usize, q: int, qr: usize, slot: usize)
        requires
            self.wf(),
            self@.has(p as int),
            self@.has(q),
            !self@.same_set(p as int, q),
            qr == self@.root_of(q),
            self.parents_moved(next, p, qr),
            self.children_moved(next, p, qr, slot),
            self.counts_moved(next, p, qr),
        ensures
            next.wf(),
            next@ == self@.moved(p as int, q),
    {
        self.lemma_move_parents(next, p, q, qr);
        self.lemma_move_children(next, p, q, qr, slot);
        lemma_moved_wf(self@, p as int, q);
        self.lemma_move_counts_refine(next, p, q, qr);
    }

    /// The size and the sum of the set of `p`.
    pub fn size_sum(&self, p: usize) -> (result: (u64, u64))
        requires
            self.wf(),
            self@.has(p as int),
        ensures
            result.0 == self@.set_size(p as int),
            result.1 == self@.set_sum(p as int),
    {
        let root = self.find(p);
        (self.size[root] as u64, self.sum[root])
    }
}

} // verus!
