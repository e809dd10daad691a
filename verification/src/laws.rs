//! Laws of the forest that relate several operations.
use vstd::prelude::*;
use crate::aggregate::{lemma_value_sum_empty, lemma_value_sum_insert, value_of};
use crate::climb::{lemma_climb_terminates, lemma_root_facts, lemma_root_stays};
use crate::commands::Command;
use crate::merge::{lemma_merged_roots, lemma_merged_sets, lemma_merged_wf};
use crate::model::Forest;
use crate::relocate::{lemma_heir_is_new, lemma_moved_roots, lemma_moved_sets, lemma_moved_wf};

verus! {

/// A fresh forest is well formed, and every element is alone in its set: it
/// represents itself, its set has size one and sums to its own value.
pub proof fn lemma_singletons(n: nat, p: int)
    requires
        0 <= p < n,
    ensures
        Forest::singletons(n).wf(),
        Forest::singletons(n).root_of(p) == p,
        Forest::singletons(n).members(p) == Set::<int>::empty().insert(p),
        Forest::singletons(n).set_size(p) == 1,
        Forest::singletons(n).set_sum(p) == value_of(p),
{
    let f = Forest::singletons(n);
    assert(f.ranked_by(Seq::new(n, |i: int| 0nat)));
    assert forall|i: int| f.has(i) implies f.root_of(i) == i by {
        lemma_root_stays(f, i, n);
    }
    assert(f.members(p) =~= Set::<int>::empty().insert(p));
    lemma_value_sum_empty(n);
    lemma_value_sum_insert(Set::empty(), p, n);
}

/// Merging the sets of two elements that already share a set, or moving an
/// element into its own set, changes nothing: not the forest, and so neither
/// the size nor the sum of the set of any element.
pub proof fn lemma_same_set_changes_nothing(f: Forest, p: int, q: int, x: int)
    requires
        f.same_set(p, q),
    ensures
        f.merged(p, q) == f,
        f.moved(p, q) == f,
        f.merged(p, q).set_size(x) == f.set_size(x),
        f.merged(p, q).set_sum(x) == f.set_sum(x),
        f.moved(p, q).set_size(x) == f.set_size(x),
        f.moved(p, q).set_sum(x) == f.set_sum(x),
{
}

/// After a merge the two elements share a set.
pub proof fn lemma_merged_same_set(f: Forest, p: int, q: int)
    requires
        f.wf(),
        f.has(p),
        f.has(q),
    ensures
        f.merged(p, q).same_set(p, q),
{
    lemma_root_facts(f);
    lemma_merged_roots(f, p, q);
}

/// Merging twice in a row is merging once.
pub proof fn lemma_merged_twice(f: Forest, p: int, q: int)
    requires
        f.wf(),
        f.has(p),
        f.has(q),
    ensures
        f.merged(p, q).merged(p, q) == f.merged(p, q),
{
    lemma_merged_same_set(f, p, q);
}

/// After a move the moved element shares the set of the element it was moved
/// to, and every other pair of elements is together exactly if it was before.
pub proof fn lemma_moved_partition(f: Forest, p: int, q: int, x: int, y: int)
    requires
        f.wf(),
        f.has(p),
        f.has(q),
        f.has(x),
        f.has(y),
        x != p,
        y != p,
    ensures
        f.moved(p, q).same_set(p, q),
        f.moved(p, q).same_set(x, y) == f.same_set(x, y),
{
    lemma_root_facts(f);
    if !f.same_set(p, q) {
        lemma_moved_roots(f, p, q);
        lemma_heir_is_new(f, p, q);
    }
}

/// What a query reports after a merge of two different sets: the merged set
/// has the size and the sum of both together, every other set is as it was.
pub proof fn lemma_merged_queries(f: Forest, p: int, q: int, x: int)
    requires
        f.wf(),
        f.has(p),
        f.has(q),
        f.has(x),
        !f.same_set(p, q),
    ensures
        f.same_set(x, p) || f.same_set(x, q) ==> {
            &&& f.merged(p, q).set_size(x) == f.set_size(p) + f.set_size(q)
            &&& f.merged(p, q).set_sum(x) == f.set_sum(p) + f.set_sum(q)
        },
        !f.same_set(x, p) && !f.same_set(x, q) ==> {
            &&& f.merged(p, q).set_size(x) == f.set_size(x)
            &&& f.merged(p, q).set_sum(x) == f.set_sum(x)
        },
{
    lemma_root_facts(f);
    lemma_merged_wf(f, p, q);
    lemma_merged_roots(f, p, q);
    lemma_merged_sets(f, p, q);
    assert(f.merged(p, q).root_of(p) == f.root_of(p));
}

/// What a query reports after a move between two different sets: the set
/// that the element joined has gained it, the set that it left has lost it,
/// and every other set is as it was.
pub proof fn lemma_moved_queries(f: Forest, p: int, q: int, x: int)
    requires
        f.wf(),
        f.has(p),
        f.has(q),
        f.has(x),
        !f.same_set(p, q),
    ensures
        x == p || f.same_set(x, q) ==> {
            &&& f.moved(p, q).set_size(x) == f.set_size(q) + 1
            &&& f.moved(p, q).set_sum(x) == f.set_sum(q) + value_of(p)
        },
        x != p && f.same_set(x, p) ==> {
            &&& f.moved(p, q).set_size(x) == f.set_size(p) - 1
            &&& f.moved(p, q).set_sum(x) == f.set_sum(p) - value_of(p)
        },
        !f.same_set(x, p) && !f.same_set(x, q) ==> {
            &&& f.moved(p, q).set_size(x) == f.set_size(x)
            &&& f.moved(p, q).set_sum(x) == f.set_sum(x)
        },
{
    lemma_root_facts(f);
    lemma_moved_wf(f, p, q);
    lemma_moved_roots(f, p, q);
    lemma_moved_sets(f, p, q);
    lemma_heir_is_new(f, p, q);
    let g = f.moved(p, q);
    assert(g.root_of(p) == f.root_of(q));
    if x != p && f.same_set(x, p) {
        assert(f.members(f.root_of(p)).contains(x));
        assert(g.root_of(x) == f.heir(p));
    }
}

/// The forest that a sequence of operations, first to last, makes of `f`.
pub open spec fn replay(f: Forest, commands: Seq<Command>) -> Forest
    decreases commands.len(),
{
    if commands.len() == 0 {
        f
    } else {
        commands.last().effect(replay(f, commands.drop_last()))
    }
}

/// Whatever operations are performed on a well-formed forest, in whatever
/// order, it stays well formed and keeps its elements.
pub proof fn lemma_replay_wf(f: Forest, commands: Seq<Command>)
    requires
        f.wf(),
        forall|k: int| 0 <= k < commands.len() ==> (#[trigger] commands[k]).fits(f.len()),
    ensures
        replay(f, commands).wf(),
        replay(f, commands).len() == f.len(),
    decreases commands.len(),
{
    if commands.len() > 0 {
        let before = replay(f, commands.drop_last());
        assert forall|k: int| 0 <= k < commands.drop_last().len() implies (
        #[trigger] commands.drop_last()[k]).fits(f.len()) by {
            assert(commands.drop_last()[k] == commands[k]);
        }
        lemma_replay_wf(f, commands.drop_last());
        assert(commands.last() == commands[commands.len() - 1]);
        match commands.last() {
            Command::Union { p, q } => {
                lemma_merged_wf(before, p as int, q as int);
            },
            Command::Move { p, q } => {
                lemma_moved_wf(before, p as int, q as int);
            },
            Command::Query { p } => {},
            Command::Skip => {},
        }
    }
}

/// After any sequence of operations on a fresh forest of `n` elements, the
/// climb along parent links from any element reaches a root after fewer than
/// `n` links: no circle ever forms.
pub proof fn lemma_no_circle_ever(n: nat, commands: Seq<Command>, i: int)
    requires
        0 <= i < n,
        forall|k: int| 0 <= k < commands.len() ==> (#[trigger] commands[k]).fits(n),
    ensures
        exists|steps: nat|
            steps < n && replay(Forest::singletons(n), commands).is_root(
                #[trigger] replay(Forest::singletons(n), commands).ancestor(i, steps),
            ),
{
    lemma_singletons(n, i);
    lemma_replay_wf(Forest::singletons(n), commands);
    lemma_climb_terminates(replay(Forest::singletons(n), commands), i);
}

} // verus!
