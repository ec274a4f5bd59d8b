//! The state-space tree: an arena of nodes, each holding one value and
//! the identifiers of every parent known to reach it. Node values and
//! identifiers never change after insertion; parent lists are append-only,
//! so the structure is a DAG presented as a tree with extra parents.

use vstd::prelude::*;

verus! {

/// The error returned when a node identifier is not in the arena.
#[derive(PartialEq, Eq, Structural, Clone, Copy, Hash, Debug)]
pub struct KeyError(pub usize);

pub type KeyResult<V> = Result<V, KeyError>;

#[derive(Debug)]
pub struct Node<T> {
    value: T,
    parents: Vec<usize>,
}

/// The mathematical shape of a node.
#[verifier::ext_equal]
pub ghost struct NodeModel<T> {
    pub value: T,
    pub parents: Seq<usize>,
}

/// The mathematical shape of a tree: the node arena and the root's index.
#[verifier::ext_equal]
pub ghost struct TreeModel<T> {
    pub nodes: Seq<NodeModel<T>>,
    pub root: usize,
}

impl<T> TreeModel<T> {
    /// Every identifier stored anywhere in the tree addresses a node.
    pub open spec fn wf(self) -> bool {
        &&& self.root < self.nodes.len()
        &&& forall|i: int, j: int|
            0 <= i < self.nodes.len() && 0 <= j < (#[trigger] self.nodes[i]).parents.len()
                ==> (#[trigger] self.nodes[i].parents[j]) < self.nodes.len()
    }

    /// The tree with one more node, child of `parent`.
    pub open spec fn insert_model(self, parent: usize, value: T) -> TreeModel<T> {
        TreeModel {
            nodes: self.nodes.push(NodeModel { value, parents: seq![parent] }),
            root: self.root,
        }
    }

    /// The tree with `parent` recorded as an additional parent of `child`.
    pub open spec fn connect_model(self, parent: usize, child: usize) -> TreeModel<T> {
        TreeModel {
            nodes: self.nodes.update(
                child as int,
                NodeModel {
                    value: self.nodes[child as int].value,
                    parents: self.nodes[child as int].parents.push(parent),
                },
            ),
            root: self.root,
        }
    }
}

#[derive(Debug)]
pub struct Tree<T> {
    nodes: Vec<Node<T>>,
    root: usize,
}

impl<T> View for Tree<T> {
    type V = TreeModel<T>;

    closed spec fn view(&self) -> TreeModel<T> {
        TreeModel {
            nodes: Seq::new(
                self.nodes@.len(),
                |i: int|
                    if 0 <= i < self.nodes@.len() {
                        NodeModel { value: self.nodes@[i].value, parents: self.nodes@[i].parents@ }
                    } else {
                        arbitrary()
                    },
            ),
            root: self.root,
        }
    }
}

impl<T> Tree<T> {
    /// A tree holding only a root node with the given value.
    pub fn new(value: T) -> (r: Self)
        ensures
            r@.nodes.len() == 1,
            r@.nodes[0].value == value,
            r@.nodes[0].parents == Seq::<usize>::empty(),
            r@.root == 0,
            r@.wf(),
    {
        let mut nodes: Vec<Node<T>> = Vec::new();
        nodes.push(Node { value, parents: Vec::new() });
        Tree { nodes, root: 0 }
    }

    /// The number of nodes in the arena.
    pub fn len(&self) -> (r: usize)
        ensures
            r == self@.nodes.len(),
    {
        self.nodes.len()
    }

    /// The root node's identifier.
    pub fn root(&self) -> (r: usize)
        ensures
            r == self@.root,
    {
        self.root
    }

    /// The value held by a node, or `KeyError` for a stale identifier.
    pub fn get_value(&self, key: usize) -> (r: KeyResult<&T>)
        ensures
            match r {
                Ok(v) => key < self@.nodes.len() && *v == self@.nodes[key as int].value,
                Err(e) => key >= self@.nodes.len() && e == KeyError(key),
            },
    {
        if key < self.nodes.len() {
            Ok(&self.nodes[key].value)
        } else {
            Err(KeyError(key))
        }
    }

    /// The parents recorded for a node, or `KeyError` for a stale
    /// identifier.
    pub fn parents_of(&self, key: usize) -> (r: KeyResult<&Vec<usize>>)
        ensures
            match r {
                Ok(v) => key < self@.nodes.len() && v@ == self@.nodes[key as int].parents,
                Err(e) => key >= self@.nodes.len() && e == KeyError(key),
            },
    {
        if key < self.nodes.len() {
            Ok(&self.nodes[key].parents)
        } else {
            Err(KeyError(key))
        }
    }

    /// Adds a node holding `value` as a child of `parent`, returning the
    /// new node's identifier: the next free index.
    pub fn insert_child_of(&mut self, parent: usize, value: T) -> (r: KeyResult<usize>)
        ensures
            match r {
                Ok(key) => parent < old(self)@.nodes.len() && key == old(self)@.nodes.len()
                    && final(self)@ == old(self)@.insert_model(parent, value)
                    && final(self)@.nodes.len() <= usize::MAX,
                Err(e) => parent >= old(self)@.nodes.len() && e == KeyError(parent) && *final(self)
                    == *old(self),
            },
    {
        if parent >= self.nodes.len() {
            return Err(KeyError(parent));
        }
        let key = self.nodes.len();
        let mut parents: Vec<usize> = Vec::new();
        parents.push(parent);
        self.nodes.push(Node { value, parents });
        let n = self.nodes.len();
        proof {
            assert(final(self)@.nodes =~= old(self)@.insert_model(parent, value).nodes);
            assert(final(self)@ =~= old(self)@.insert_model(parent, value));
        }
        Ok(key)
    }

    /// Records `parent` as an additional parent of `child`: the same
    /// state was reached along another path.
    pub fn connect(&mut self, parent: usize, child: usize) -> (r: KeyResult<()>)
        ensures
            match r {
                Ok(_) => parent < old(self)@.nodes.len() && child < old(self)@.nodes.len()
                    && final(self)@ == old(self)@.connect_model(parent, child),
                Err(e) => *final(self) == *old(self) && (parent >= old(self)@.nodes.len() && e
                    == KeyError(parent) || (parent < old(self)@.nodes.len() && child >= old(
                    self,
                )@.nodes.len() && e == KeyError(child))),
            },
    {
        if parent >= self.nodes.len() {
            return Err(KeyError(parent));
        }
        if child >= self.nodes.len() {
            return Err(KeyError(child));
        }
        let node = &mut self.nodes[child];
        node.parents.push(parent);
        proof {
            assert(final(self)@.nodes =~= old(self)@.connect_model(parent, child).nodes);
            assert(final(self)@ =~= old(self)@.connect_model(parent, child));
        }
        Ok(())
    }
}

impl<T: Default> Default for Tree<T> {
    /// A tree holding only a root node with the default value.
    fn default() -> (r: Self)
        ensures
            r@.nodes.len() == 1,
            r@.nodes[0].parents == Seq::<usize>::empty(),
            r@.root == 0,
            r@.wf(),
            call_ensures(T::default, (), r@.nodes[0].value),
    {
        Tree::new(T::default())
    }
}

impl<T: Clone> Clone for Tree<T> {
    /// A copy with the same structure; each value is a clone of the
    /// original's.
    fn clone(&self) -> (r: Self)
        ensures
            r@.root == self@.root,
            r@.nodes.len() == self@.nodes.len(),
            forall|i: int|
                0 <= i < r@.nodes.len() ==> (#[trigger] r@.nodes[i]).parents == self@.nodes[i].parents
                    && vstd::pervasive::cloned::<T>(self@.nodes[i].value, r@.nodes[i].value),
    {
        let mut nodes: Vec<Node<T>> = Vec::new();
        let mut k: usize = 0;
        while k < self.nodes.len()
            invariant
                k <= self.nodes@.len(),
                nodes@.len() == k,
                forall|i: int|
                    0 <= i < k ==> (#[trigger] nodes@[i]).parents@ == self.nodes@[i].parents@
                        && vstd::pervasive::cloned::<T>(self.nodes@[i].value, nodes@[i].value),
            decreases self.nodes@.len() - k,
        {
            let value = self.nodes[k].value.clone();
            let parents = clone_usize_vec(&self.nodes[k].parents);
            nodes.push(Node { value, parents });
            k = k + 1;
        }
        Tree { nodes, root: self.root }
    }
}

/// Copies a vector of identifiers.
fn clone_usize_vec(v: &Vec<usize>) -> (r: Vec<usize>)
    ensures
        r@ == v@,
{
    let mut r: Vec<usize> = Vec::new();
    let mut k: usize = 0;
    while k < v.len()
        invariant
            k <= v@.len(),
            r@ == v@.subrange(0, k as int),
        decreases v@.len() - k,
    {
        r.push(v[k]);
        proof {
            assert(r@ =~= v@.subrange(0, k + 1));
        }
        k = k + 1;
    }
    proof {
        assert(v@.subrange(0, v@.len() as int) =~= v@);
    }
    r
}

} // verus!
