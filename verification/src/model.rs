//! The mathematical model of the forest: parent links, child lists, and what
//! the two mutating operations do to them.
use vstd::prelude::*;
use crate::aggregate::value_sum;

verus! {

/// A forest over the elements `0 .. len()`, given by each element's parent and
/// each element's list of direct children, oldest first.
pub struct Forest {
    pub parent: Seq<int>,
    pub children: Seq<Seq<int>>,
}

impl Forest {
    /// The number of elements.
    pub open spec fn len(self) -> nat {
        self.parent.len()
    }

    /// Whether `i` identifies an element.
    pub open spec fn has(self, i: int) -> bool {
        0 <= i < self.parent.len()
    }

    /// A root is its own parent.
    pub open spec fn is_root(self, i: int) -> bool {
        self.parent[i] == i
    }

    /// The element reached from `i` by following `k` parent links.
    pub open spec fn ancestor(self, i: int, k: nat) -> int
        decreases k,
    {
        if k == 0 {
            i
        } else {
            self.ancestor(self.parent[i], (k - 1) as nat)
        }
    }

    /// The representative of the set of `i`: where `len()` parent links lead.
    pub open spec fn root_of(self, i: int) -> int {
        self.ancestor(i, self.len())
    }

    /// Whether two elements lie in one set.
    pub open spec fn same_set(self, i: int, j: int) -> bool {
        self.root_of(i) == self.root_of(j)
    }

    /// The elements whose representative is `r`.
    pub open spec fn members(self, r: int) -> Set<int> {
        Set::new(|i: int| self.has(i) && self.root_of(i) == r)
    }

    /// The number of elements in the set of `p`.
    pub open spec fn set_size(self, p: int) -> nat {
        self.members(self.root_of(p)).len()
    }

    /// The sum of the values of the elements in the set of `p`.
    pub open spec fn set_sum(self, p: int) -> nat {
        value_sum(self.members(self.root_of(p)), self.len())
    }

    /// `rank` grows strictly along every parent link.
    pub open spec fn ranked_by(self, rank: Seq<nat>) -> bool {
        &&& rank.len() == self.len()
        &&& forall|i: int|
            self.has(i) && !self.is_root(i) ==> rank[i] < rank[#[trigger] self.parent[i]]
    }

    /// No chain of parent links runs in a circle.
    pub open spec fn acyclic(self) -> bool {
        exists|rank: Seq<nat>| self.ranked_by(rank)
    }

    /// Parent links stay inside the forest, and the child lists mirror them:
    /// each list holds exactly the elements whose parent is its owner, once each.
    pub open spec fn linked(self) -> bool {
        &&& self.children.len() == self.parent.len()
        &&& forall|i: int| self.has(i) ==> self.has(#[trigger] self.parent[i])
        &&& forall|i: int, j: int|
            self.has(i) && 0 <= j < self.children[i].len() ==> {
                let c = #[trigger] self.children[i][j];
                self.has(c) && c != i && self.parent[c] == i
            }
        &&& forall|c: int|
            self.has(c) && !self.is_root(c) ==> self.children[#[trigger] self.parent[c]].contains(c)
        &&& forall|i: int| self.has(i) ==> (#[trigger] self.children[i]).no_duplicates()
    }

    /// The forest invariant.
    pub open spec fn wf(self) -> bool {
        self.linked() && self.acyclic()
    }

    /// The forest of `n` singleton sets.
    pub open spec fn singletons(n: nat) -> Forest {
        Forest { parent: Seq::new(n, |i: int| i), children: Seq::new(n, |i: int| Seq::empty()) }
    }

    /// The forest after the set of `q` has been merged into the set of `p`:
    /// the root of `q` becomes the youngest child of the root of `p`.
    pub open spec fn merged(self, p: int, q: int) -> Forest {
        let pr = self.root_of(p);
        let qr = self.root_of(q);
        if pr == qr {
            self
        } else {
            Forest {
                parent: self.parent.update(qr, pr),
                children: self.children.update(pr, self.children[pr].push(qr)),
            }
        }
    }

    /// The parent of `i` after the single element `p` has left for the root `qr`.
    /// The oldest child of `p` inherits the place of `p` and its other children.
    pub open spec fn parent_after_move(self, p: int, qr: int, i: int) -> int {
        let kids = self.children[p];
        let up = self.parent[p];
        if i == p {
            qr
        } else if self.parent[i] != p {
            self.parent[i]
        } else if i != kids[0] {
            kids[0]
        } else if up == p {
            i
        } else {
            up
        }
    }

    /// The children of `i` after the single element `p` has left for the root `qr`.
    pub open spec fn children_after_move(self, p: int, qr: int, i: int) -> Seq<int> {
        let kids = self.children[p];
        let up = self.parent[p];
        if i == p {
            Seq::empty()
        } else if i == qr {
            self.children[i].push(p)
        } else if kids.len() > 0 && i == kids[0] {
            self.children[i] + kids.skip(1)
        } else if i == up {
            let slot = self.children[i].index_of(p);
            if kids.len() > 0 {
                self.children[i].update(slot, kids[0])
            } else {
                self.children[i].remove(slot)
            }
        } else {
            self.children[i]
        }
    }

    /// The forest after the single element `p` has been moved into the set of
    /// `q`, as a new leaf under its root.
    pub open spec fn moved(self, p: int, q: int) -> Forest {
        let pr = self.root_of(p);
        let qr = self.root_of(q);
        if pr == qr {
            self
        } else {
            Forest {
                parent: Seq::new(self.len(), |i: int| self.parent_after_move(p, qr, i)),
                children: Seq::new(self.len(), |i: int| self.children_after_move(p, qr, i)),
            }
        }
    }

    /// Who represents, after `p` has left, those that stay behind in its old set.
    pub open spec fn heir(self, p: int) -> int {
        if !self.is_root(p) {
            self.root_of(p)
        } else if self.children[p].len() > 0 {
            self.children[p][0]
        } else {
            p
        }
    }
}

} // verus!
