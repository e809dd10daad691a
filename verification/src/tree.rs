//! A binary search tree of keys. Equal keys may be stored more than once; the
//! tree is not rebalanced.
use vstd::prelude::*;
use vstd::multiset::Multiset;
use crate::order::{is_less, is_same, lemma_strict_total_order, less, well_ordered};

verus! {

/// A link to a subtree, or to nothing.
pub type ChildNode<T> = Option<Box<Node<T>>>;

/// One node of the tree: a key, and the subtrees of the keys before it and of
/// the keys not before it.
pub struct Node<T> where T: Copy + Clone + PartialEq + PartialOrd + Eq + Ord {
    key: T,
    left: ChildNode<T>,
    right: ChildNode<T>,
}

/// A binary search tree of keys of type `T`.
pub struct AVLTree<T> where T: Copy + Clone + PartialEq + PartialOrd + Eq + Ord {
    root: ChildNode<T>,
}

/// The keys stored below a link, each as often as it is stored.
pub closed spec fn keys_of<T>(link: ChildNode<T>) -> Multiset<T> where
    T: Copy + Clone + PartialEq + PartialOrd + Eq + Ord,

    decreases link,
{
    match link {
        None => Multiset::empty(),
        Some(node) => keys_of(node.left).add(keys_of(node.right)).insert(node.key),
    }
}

/// Whether, at every node below a link, the keys to the left come before the
/// node's key and the keys to the right do not.
pub closed spec fn ordered<T>(link: ChildNode<T>) -> bool where
    T: Copy + Clone + PartialEq + PartialOrd + Eq + Ord,

    decreases link,
{
    match link {
        None => true,
        Some(node) => {
            &&& ordered(node.left)
            &&& ordered(node.right)
            &&& forall|k: T| #[trigger] keys_of(node.left).contains(k) ==> less(k, node.key)
            &&& forall|k: T| #[trigger] keys_of(node.right).contains(k) ==> !less(k, node.key)
        },
    }
}

/// Makes a link to a new node without subtrees.
fn create_child<T>(key: T) -> (link: ChildNode<T>) where
    T: Copy + Clone + PartialEq + PartialOrd + Eq + Ord,

    ensures
        ordered(link),
        keys_of(link) == Multiset::<T>::empty().insert(key),
{
    let link = Some(Box::new(Node { key, left: None, right: None }));
    proof {
        reveal_with_fuel(keys_of, 2);
        reveal_with_fuel(ordered, 2);
        assert(keys_of(link) =~= Multiset::<T>::empty().insert(key));
    }
    link
}

impl<T> Node<T> where T: Copy + Clone + PartialEq + PartialOrd + Eq + Ord {
    /// The key of this node.
    pub closed spec fn key_value(&self) -> T {
        self.key
    }

    /// The keys stored in this node and below it.
    pub closed spec fn keys(&self) -> Multiset<T> {
        keys_of(self.left).add(keys_of(self.right)).insert(self.key)
    }

    /// Reads the key of this node.
    pub fn key(&self) -> (key: T)
        ensures
            key == self.key_value(),
    {
        self.key
    }
}

impl<T> View for AVLTree<T> where T: Copy + Clone + PartialEq + PartialOrd + Eq + Ord {
    type V = Multiset<T>;

    closed spec fn view(&self) -> Multiset<T> {
        keys_of(self.root)
    }
}

impl<T> AVLTree<T> where T: Copy + Clone + PartialEq + PartialOrd + Eq + Ord {
    /// The invariant of the tree: it is a search tree.
    pub closed spec fn wf(&self) -> bool {
        ordered(self.root)
    }

    /// Makes an empty tree.
    pub fn new() -> (tree: Self)
        ensures
            tree.wf(),
            tree@ == Multiset::<T>::empty(),
    {
        AVLTree { root: None }
    }

    /// Looks for a node that holds `key`: the one nearest to the root, if
    /// there are several.
    pub fn search(&self, key: T) -> (found: Option<&Node<T>>)
        requires
            well_ordered::<T>(),
            self.wf(),
        ensures
            found.is_some() == self@.contains(key),
            found matches Some(node) ==> node.key_value() == key && node.keys().subset_of(self@),
    {
        let mut link = &self.root;
        loop
            invariant
                well_ordered::<T>(),
                ordered(*link),
                keys_of(*link).contains(key) == self@.contains(key),
                keys_of(*link).subset_of(self@),
            decreases *link,
        {
            proof {
                lemma_strict_total_order::<T>();
            }
            match link {
                None => {
                    return None;
                },
                Some(node) => {
                    if is_same(&node.key, &key) {
                        return Some(node);
                    }
                    if is_less(&key, &node.key) {
                        assert(!keys_of(node.right).contains(key));
                        link = &node.left;
                    } else {
                        assert(!keys_of(node.left).contains(key));
                        link = &node.right;
                    }
                },
            }
        }
    }

    /// Stores `key` in the tree, once more if it is there already.
    pub fn insert(&mut self, key: T)
        requires
            well_ordered::<T>(),
            old(self).wf(),
        ensures
            final(self).wf(),
            final(self)@ == old(self)@.insert(key),
    {
        insert_into(&mut self.root, key);
    }

    /// Takes `key` out of the tree, once. Nothing changes when it is not there.
    pub fn delete(&mut self, key: T)
        requires
            well_ordered::<T>(),
            old(self).wf(),
        ensures
            final(self).wf(),
            final(self)@ == old(self)@.remove(key),
    {
        delete_from(&mut self.root, key);
    }
}

/// Stores `key` below a link.
fn insert_into<T>(link: &mut ChildNode<T>, key: T) where
    T: Copy + Clone + PartialEq + PartialOrd + Eq + Ord,

    requires
        well_ordered::<T>(),
        ordered(*old(link)),
    ensures
        ordered(*final(link)),
        keys_of(*final(link)) == keys_of(*old(link)).insert(key),
    decreases *old(link),
{
    proof {
        lemma_strict_total_order::<T>();
    }
    match link {
        None => {
            *link = create_child(key);
        },
        Some(node) => {
            if is_less(&key, &node.key) {
                let ghost below = keys_of(node.left);
                insert_into(&mut node.left, key);
                assert forall|k: T| #[trigger] keys_of(node.left).contains(k) implies less(
                    k,
                    node.key,
                ) by {
                    assert(k == key || below.contains(k));
                }
            } else {
                let ghost below = keys_of(node.right);
                insert_into(&mut node.right, key);
                assert forall|k: T| #[trigger] keys_of(node.right).contains(k) implies !less(
                    k,
                    node.key,
                ) by {
                    assert(k == key || below.contains(k));
                }
            }
        },
    }
    proof {
        assert(keys_of(*link) =~= keys_of(*old(link)).insert(key));
    }
}

/// The least key below a link that leads to a node: the key of its leftmost node.
fn minimum<T>(link: &ChildNode<T>) -> (least: T) where
    T: Copy + Clone + PartialEq + PartialOrd + Eq + Ord,

    requires
        well_ordered::<T>(),
        link.is_some(),
        ordered(*link),
    ensures
        keys_of(*link).contains(least),
        forall|k: T| #[trigger] keys_of(*link).contains(k) ==> !less(k, least),
{
    proof {
        lemma_strict_total_order::<T>();
    }
    let mut current = link;
    loop
        invariant
            well_ordered::<T>(),
            current.is_some(),
            ordered(*current),
            keys_of(*current).subset_of(keys_of(*link)),
            forall|k: T, m: T|
                #[trigger] keys_of(*link).contains(k) && #[trigger] keys_of(*current).contains(m)
                    ==> keys_of(*current).contains(k) || !less(k, m),
        decreases *current,
    {
        let node = current.as_ref().unwrap();
        proof {
            lemma_strict_total_order::<T>();
        }
        if node.left.is_none() {
            proof {
                reveal_with_fuel(keys_of, 2);
                assert(keys_of(*current).contains(node.key));
                assert forall|k: T| #[trigger] keys_of(*link).contains(k) implies !less(
                    k,
                    node.key,
                ) by {
                    if keys_of(*current).contains(k) {
                        assert(k == node.key || keys_of(node.right).contains(k));
                    }
                }
            }
            return node.key;
        }
        proof {
            assert forall|k: T, m: T| #[trigger]
                keys_of(*link).contains(k) && #[trigger] keys_of(node.left).contains(
                    m,
                ) implies keys_of(node.left).contains(k) || !less(k, m) by {
                assert(keys_of(*current).contains(m));
                if keys_of(*current).contains(k) && !keys_of(node.left).contains(k) {
                    assert(k == node.key || keys_of(node.right).contains(k));
                }
            }
        }
        current = &node.left;
    }
}

/// The key that follows the key of a node among the keys below it: the least
/// key of its right subtree, which must not be empty.
fn successor<T>(node: &Node<T>) -> (next: T) where
    T: Copy + Clone + PartialEq + PartialOrd + Eq + Ord,

    requires
        well_ordered::<T>(),
        node.right.is_some(),
        ordered(node.right),
    ensures
        keys_of(node.right).contains(next),
        forall|k: T| #[trigger] keys_of(node.right).contains(k) ==> !less(k, next),
{
    minimum(&node.right)
}

/// Takes `key` out from below a link, once.
fn delete_from<T>(link: &mut ChildNode<T>, key: T) where
    T: Copy + Clone + PartialEq + PartialOrd + Eq + Ord,

    requires
        well_ordered::<T>(),
        ordered(*old(link)),
    ensures
        ordered(*final(link)),
        keys_of(*final(link)) == keys_of(*old(link)).remove(key),
    decreases *old(link),
{
    proof {
        lemma_strict_total_order::<T>();
    }
    let taken = link.take();
    match taken {
        None => {
            proof {
                assert(keys_of(*link) =~= keys_of(*old(link)).remove(key));
            }
        },
        Some(mut node) => {
            let ghost left_keys = keys_of(node.left);
            let ghost right_keys = keys_of(node.right);
            let ghost old_key = node.key;
            if is_same(&node.key, &key) {
                if node.left.is_none() {
                    *link = node.right;
                } else if node.right.is_none() {
                    *link = node.left;
                } else {
                    let heir = successor(&node);
                    delete_from(&mut node.right, heir);
                    node.key = heir;
                    proof {
                        assert forall|k: T| #[trigger] keys_of(node.left).contains(k) implies less(
                            k,
                            heir,
                        ) by {
                            assert(less(k, old_key));
                            assert(right_keys.contains(heir));
                        }
                        assert forall|k: T| #[trigger] keys_of(node.right).contains(k) implies !less(
                            k,
                            heir,
                        ) by {
                            assert(right_keys.contains(k));
                        }
                    }
                    *link = Some(node);
                }
            } else if is_less(&key, &node.key) {
                delete_from(&mut node.left, key);
                proof {
                    assert(!right_keys.contains(key));
                    assert forall|k: T| #[trigger] keys_of(node.left).contains(k) implies less(
                        k,
                        node.key,
                    ) by {
                        assert(left_keys.contains(k));
                    }
                }
                *link = Some(node);
            } else {
                delete_from(&mut node.right, key);
                proof {
                    assert(!left_keys.contains(key));
                    assert forall|k: T| #[trigger] keys_of(node.right).contains(k) implies !less(
                        k,
                        node.key,
                    ) by {
                        assert(right_keys.contains(k));
                    }
                }
                *link = Some(node);
            }
            proof {
                reveal_with_fuel(keys_of, 2);
                assert(keys_of(*link) =~= keys_of(*old(link)).remove(key));
            }
        },
    }
}

} // verus!
