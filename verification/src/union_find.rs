//! The executable disjoint-set structure.
//!
//! Elements live in an arena of nodes; a lookup table maps each registered
//! value to the index of its node, and a node refers to its parent by index.
//! The contracts speak of the structure through its view, a [`Forest`].

use crate::forest::{Entry, Forest};
use std::collections::HashMap;
use std::hash::Hash;
use vstd::prelude::*;
use vstd::std_specs::hash::{obeys_key_model, spec_hash_map_len};

verus! {

/// Whether values of type `T` can serve as elements: equality and hashing
/// are those of a lookup key, and a clone equals the value it was made from.
pub open spec fn element_type<T: Clone>() -> bool {
    &&& obeys_key_model::<T>()
    &&& forall|a: T, b: T| #[trigger] cloned::<T>(a, b) ==> a == b
}

/// The node of one element.
struct SubSet<T> {
    rank: usize,
    value: T,
    parent: Option<usize>,
}

impl<T> SubSet<T> {
    /// The node of a singleton set: rank 0 and no parent.
    fn new(value: T) -> (node: SubSet<T>)
        ensures
            node == (SubSet { rank: 0, value, parent: None }),
    {
        SubSet { rank: 0, value: value, parent: None }
    }

    /// This node with another parent.
    spec fn with_parent(self, parent: Option<usize>) -> Self {
        SubSet { rank: self.rank, value: self.value, parent }
    }

    /// This node with another rank.
    spec fn with_rank(self, rank: usize) -> Self {
        SubSet { rank, value: self.value, parent: self.parent }
    }
}

/// The forest that a lookup table and an arena of nodes stand for.
spec fn model<T>(elements: Map<T, usize>, nodes: Seq<SubSet<T>>) -> Forest<T> {
    Forest {
        entries: Map::new(
            |v: T| elements.contains_key(v),
            |v: T|
                {
                    let node = nodes[elements[v] as int];
                    Entry {
                        rank: node.rank as nat,
                        parent: match node.parent {
                            Some(p) => Some(nodes[p as int].value),
                            None => None,
                        },
                    }
                },
        ),
    }
}

/// Whether table and arena fit together: the table maps every registered
/// value to the node that holds it, every node is registered, and every
/// parent index is the index of a node.
spec fn coherent<T>(elements: Map<T, usize>, nodes: Seq<SubSet<T>>) -> bool {
    &&& forall|v: T| #[trigger]
        elements.contains_key(v) ==> elements[v] < nodes.len() && nodes[elements[v] as int].value
            == v
    &&& forall|i: int|
        0 <= i < nodes.len() ==> elements.contains_key((#[trigger] nodes[i]).value)
            && elements[nodes[i].value] == i
    &&& forall|i: int|
        0 <= i < nodes.len() ==> match (#[trigger] nodes[i]).parent {
            Some(p) => p < nodes.len(),
            None => true,
        }
}

/// Replacing the parent of a node replaces the parent of its element.
proof fn lemma_model_parent<T>(
    elements: Map<T, usize>,
    nodes: Seq<SubSet<T>>,
    child: int,
    parent: Option<usize>,
)
    requires
        coherent(elements, nodes),
        0 <= child < nodes.len(),
        parent is Some ==> parent.unwrap() < nodes.len(),
    ensures
        coherent(elements, nodes.update(child, nodes[child].with_parent(parent))),
        model(elements, nodes.update(child, nodes[child].with_parent(parent))) == model(
            elements,
            nodes,
        ).with_parent(
            nodes[child].value,
            match parent {
                Some(p) => Some(nodes[p as int].value),
                None => None,
            },
        ),
{
}

/// Replacing the rank of a node replaces the rank of its element.
proof fn lemma_model_rank<T>(
    elements: Map<T, usize>,
    nodes: Seq<SubSet<T>>,
    at: int,
    rank: usize,
)
    requires
        coherent(elements, nodes),
        0 <= at < nodes.len(),
    ensures
        coherent(elements, nodes.update(at, nodes[at].with_rank(rank))),
        model(elements, nodes.update(at, nodes[at].with_rank(rank))) == model(
            elements,
            nodes,
        ).with_rank(nodes[at].value, rank as nat),
{
}

/// Gives the node at `child` another parent.
fn set_parent<T>(nodes: &mut Vec<SubSet<T>>, child: usize, parent: Option<usize>)
    requires
        child < old(nodes).len(),
    ensures
        final(nodes)@ == old(nodes)@.update(
            child as int,
            old(nodes)@[child as int].with_parent(parent),
        ),
    no_unwind
{
    nodes[child].parent = parent;
}

/// Gives the node at `at` another rank.
fn set_rank<T>(nodes: &mut Vec<SubSet<T>>, at: usize, rank: usize)
    requires
        at < old(nodes).len(),
    ensures
        final(nodes)@ == old(nodes)@.update(at as int, old(nodes)@[at as int].with_rank(rank)),
    no_unwind
{
    nodes[at].rank = rank;
}

/// Replaces the node at `index`, which holds `value`, by the node of a
/// singleton, and takes their parent from the nodes that had it as parent.
fn start_over<T>(
    Ghost(elements): Ghost<Map<T, usize>>,
    nodes: &mut Vec<SubSet<T>>,
    index: usize,
    value: T,
)
    requires
        coherent(elements, old(nodes)@),
        elements.contains_key(value),
        elements[value] == index,
    ensures
        coherent(elements, final(nodes)@),
        model(elements, final(nodes)@) == model(elements, old(nodes)@).make_set(value),
{
    let ghost before = nodes@;
    let mut at: usize = 0;
    while at < nodes.len()
        invariant
            index < nodes.len(),
            nodes.len() == before.len(),
            at <= nodes.len(),
            forall|i: int|
                0 <= i < at ==> #[trigger] nodes[i] == if before[i].parent == Some(index) {
                    before[i].with_parent(None)
                } else {
                    before[i]
                },
            forall|i: int| at <= i < nodes.len() ==> #[trigger] nodes[i] == before[i],
        decreases nodes.len() - at,
    {
        let child = match nodes[at].parent {
            Some(parent) => parent == index,
            None => false,
        };
        if child {
            set_parent(nodes, at, None);
        }
        at += 1;
    }
    nodes[index] = SubSet::new(value);
}

/// Adds the node of a singleton that holds `value`, which is not registered
/// yet, and enters it in the table.
fn append<T: Eq + Hash + Clone>(
    elements: &mut HashMap<T, usize>,
    nodes: &mut Vec<SubSet<T>>,
    value: T,
)
    requires
        element_type::<T>(),
        coherent(old(elements)@, old(nodes)@),
        !old(elements)@.contains_key(value),
    ensures
        coherent(final(elements)@, final(nodes)@),
        model(final(elements)@, final(nodes)@) == model(old(elements)@, old(nodes)@).make_set(
            value,
        ),
{
    let index = nodes.len();
    let key = value.clone();
    assert(cloned(value, key));
    nodes.push(SubSet::new(value));
    elements.insert(key, index);
}

/// A collection of disjoint sets over elements of type `T`.
///
/// [`make_set`](DisjointSet::make_set) registers an element as a set of its
/// own, [`find`](DisjointSet::find) names the representative of the set an
/// element is in, and [`union`](DisjointSet::union) merges two sets.
#[verifier::reject_recursive_types(T)]
pub struct DisjointSet<T: Eq + Hash + Clone> {
    elements: HashMap<T, usize>,
    nodes: Vec<SubSet<T>>,
}

impl<T: Eq + Hash + Clone> View for DisjointSet<T> {
    type V = Forest<T>;

    open spec fn view(&self) -> Forest<T> {
        self.forest()
    }
}

impl<T: Eq + Hash + Clone> DisjointSet<T> {
    #[verifier::type_invariant]
    spec fn valid(self) -> bool {
        &&& element_type::<T>()
        &&& coherent(self.elements@, self.nodes@)
        &&& model(self.elements@, self.nodes@).well_formed()
    }

    /// The forest this structure stands for.
    pub closed spec fn forest(self) -> Forest<T> {
        model(self.elements@, self.nodes@)
    }

    /// An empty structure: no element is registered.
    pub fn new() -> (set: DisjointSet<T>)
        requires
            element_type::<T>(),
        ensures
            set@ == Forest::<T>::empty(),
            set@.well_formed(),
    {
        proof {
            Forest::<T>::lemma_empty();
            assert(model(Map::<T, usize>::empty(), Seq::<SubSet<T>>::empty()).entries
                =~= Forest::<T>::empty().entries);
        }
        DisjointSet { elements: HashMap::new(), nodes: Vec::new() }
    }

    /// Registers `value` as a set of its own.
    ///
    /// If `value` is registered already it starts over: it leaves the set
    /// it was in, its rank is 0 again, and the elements that had it as
    /// their parent become the roots of their own trees. Starting over
    /// takes a pass over all nodes; a first registration does not.
    pub fn make_set(&mut self, value: T)
        ensures
            old(self)@.well_formed(),
            final(self)@.well_formed(),
            final(self)@ == old(self)@.make_set(value),
    {
        proof {
            use_type_invariant(&*self);
            self@.lemma_make_set(value);
            Forest::<T>::lemma_empty();
            assert(model(Map::<T, usize>::empty(), Seq::<SubSet<T>>::empty()).entries
                =~= Forest::<T>::empty().entries);
        }
        // Growing the table and the arena is done on the parts, outside the
        // structure, which holds nothing meanwhile.
        let mut taken = DisjointSet { elements: HashMap::new(), nodes: Vec::new() };
        core::mem::swap(self, &mut taken);
        let DisjointSet { mut elements, mut nodes } = taken;
        let known = match elements.get(&value) {
            Some(index) => Some(*index),
            None => None,
        };
        match known {
            Some(index) => start_over(Ghost(elements@), &mut nodes, index, value),
            None => append(&mut elements, &mut nodes, value),
        }
        *self = DisjointSet { elements, nodes };
    }

    /// The rank recorded for `value`, or `None` if `value` is not
    /// registered.
    ///
    /// The rank of a root bounds the height of its tree; the rank of any
    /// other element is the rank it had when it stopped being a root.
    pub fn rank(&self, value: &T) -> (rank: Option<usize>)
        ensures
            self@.well_formed(),
            match rank {
                Some(r) => self@.contains(*value) && r == self@.rank(*value),
                None => !self@.contains(*value),
            },
    {
        proof {
            use_type_invariant(self);
        }
        match self.elements.get(value) {
            Some(index) => Some(self.nodes[*index].rank),
            None => None,
        }
    }

    /// The parent of `value`: the element one step closer to the
    /// representative. `None` if `value` is a representative or is not
    /// registered.
    pub fn parent(&self, value: &T) -> (parent: Option<T>)
        ensures
            self@.well_formed(),
            parent == if self@.contains(*value) {
                self@.parent(*value)
            } else {
                None
            },
    {
        proof {
            use_type_invariant(self);
        }
        match self.elements.get(value) {
            Some(index) => match self.nodes[*index].parent {
                Some(above) => {
                    let parent = self.nodes[above].value.clone();
                    assert(cloned(self.nodes[above as int].value, parent));
                    Some(parent)
                },
                None => None,
            },
            None => None,
        }
    }

    /// The index of the root above the node at `start`.
    fn climb(&self, start: usize) -> (root: usize)
        requires
            start < self.nodes.len(),
        ensures
            root < self.nodes.len(),
            self.nodes[root as int].parent is None,
            self.nodes[root as int].value == self@.root(self.nodes[start as int].value),
    {
        let ghost forest = self@;
        let mut root = start;
        loop
            invariant
                start < self.nodes.len(),
                root < self.nodes.len(),
                forest == self@,
                forest.root(self.nodes[root as int].value) == forest.root(
                    self.nodes[start as int].value,
                ),
            ensures
                self.nodes[root as int].parent is None,
            decreases forest.size() - self.nodes[root as int].rank,
        {
            proof {
                use_type_invariant(self);
                forest.lemma_step(self.nodes[root as int].value);
            }
            match self.nodes[root].parent {
                Some(parent) => {
                    proof {
                        forest.lemma_rank_below_size(self.nodes[parent as int].value);
                    }
                    root = parent;
                },
                None => {
                    break;
                },
            }
        }
        proof {
            use_type_invariant(self);
        }
        root
    }

    /// Makes every node on the way from `start` up to its root, the root
    /// excepted, a child of that root.
    fn shorten(&mut self, start: usize, root: usize)
        requires
            start < old(self).nodes.len(),
            root < old(self).nodes.len(),
            old(self).nodes[root as int].value == old(self)@.root(
                old(self).nodes[start as int].value,
            ),
        ensures
            final(self)@ == old(self)@.compress(old(self).nodes[start as int].value),
            final(self).elements@ == old(self).elements@,
            final(self).nodes.len() == old(self).nodes.len(),
            forall|i: int|
                0 <= i < final(self).nodes.len() ==> (#[trigger] final(self).nodes[i]).value
                    == old(self).nodes[i].value,
    {
        let ghost before = self@;
        let ghost first = self.nodes[start as int].value;
        let ghost top = self.nodes[root as int].value;
        let mut current = start;
        proof {
            use_type_invariant(&*self);
            before.lemma_compress_ends(first);
        }
        while current != root
            invariant
                before == old(self)@,
                before.well_formed(),
                before.contains(first),
                top == before.root(first),
                current < self.nodes.len(),
                root < self.nodes.len(),
                before.on_path(first, self.nodes[current as int].value),
                self.nodes[root as int].value == top,
                self@ == before.compress_below(
                    first,
                    before.rank(self.nodes[current as int].value),
                ),
                self.elements@ == old(self).elements@,
                self.nodes.len() == old(self).nodes.len(),
                forall|i: int|
                    0 <= i < self.nodes.len() ==> (#[trigger] self.nodes[i]).value == old(
                        self,
                    ).nodes[i].value,
            decreases before.size() - before.rank(self.nodes[current as int].value),
        {
            let ghost here = self.nodes[current as int].value;
            proof {
                use_type_invariant(&*self);
                before.lemma_on_path(first, here);
                before.lemma_compress_step(first, here);
                before.lemma_compress_below(first, before.rank(before.parent(here).unwrap()));
                before.lemma_rank_below_size(before.parent(here).unwrap());
            }
            let next = self.nodes[current].parent.unwrap();
            proof {
                lemma_model_parent(self.elements@, self.nodes@, current as int, Some(root));
            }
            set_parent(&mut self.nodes, current, Some(root));
            current = next;
        }
        proof {
            before.lemma_compress_ends(first);
        }
    }

    /// Looks `value` up, compresses the path from it, and gives the index
    /// of the root of its tree.
    fn find_index(&mut self, value: &T) -> (found: Option<usize>)
        ensures
            old(self)@.well_formed(),
            final(self)@.well_formed(),
            final(self)@ == old(self)@.after_find(*value),
            found is Some <==> old(self)@.contains(*value),
            found is Some ==> {
                let root = found.unwrap();
                &&& root < final(self).nodes.len()
                &&& final(self).nodes[root as int].value == old(self)@.root(*value)
            },
            final(self).elements@ == old(self).elements@,
            final(self).nodes.len() == old(self).nodes.len(),
            forall|i: int|
                0 <= i < final(self).nodes.len() ==> (#[trigger] final(self).nodes[i]).value
                    == old(self).nodes[i].value,
    {
        proof {
            use_type_invariant(&*self);
        }
        let start = match self.elements.get(value) {
            Some(index) => *index,
            None => {
                return None;
            },
        };
        let root = self.climb(start);
        self.shorten(start, root);
        proof {
            use_type_invariant(&*self);
        }
        Some(root)
    }

    /// The representative of the set that holds `value`, or `None` if
    /// `value` is not registered.
    ///
    /// Every element on the path from `value` to the representative becomes
    /// a child of the representative; no set changes.
    pub fn find(&mut self, value: T) -> (representative: Option<T>)
        ensures
            old(self)@.well_formed(),
            final(self)@.well_formed(),
            representative == old(self)@.find(value),
            final(self)@ == old(self)@.after_find(value),
    {
        match self.find_index(&value) {
            Some(root) => {
                proof {
                    use_type_invariant(&*self);
                }
                let representative = self.nodes[root].value.clone();
                assert(cloned(self.nodes[root as int].value, representative));
                Some(representative)
            },
            None => None,
        }
    }

    /// Merges the set that holds `value_one` with the set that holds
    /// `value_two`, by rank.
    ///
    /// Returns `None` if either value is not registered. If both are in one
    /// set already, returns its representative. Otherwise the root of lower
    /// rank becomes a child of the other root (on equal ranks, the root of
    /// `value_two` becomes a child of the root of `value_one`, whose rank
    /// grows by one), and the call returns the root that was absorbed: the
    /// one that is no longer a representative.
    ///
    /// The values are looked up in turn, as by [`find`](DisjointSet::find):
    /// the path from `value_one` is compressed if it is registered, and the
    /// path from `value_two` if both are.
    pub fn union(&mut self, value_one: T, value_two: T) -> (absorbed: Option<T>)
        ensures
            old(self)@.well_formed(),
            final(self)@.well_formed(),
            absorbed == old(self)@.union(value_one, value_two),
            final(self)@ == old(self)@.after_union(value_one, value_two),
    {
        let ghost before = self@;
        let root_one = match self.find_index(&value_one) {
            Some(root) => root,
            None => {
                return None;
            },
        };
        proof {
            before.lemma_compress(value_one);
        }
        let root_two = match self.find_index(&value_two) {
            Some(root) => root,
            None => {
                return None;
            },
        };
        let ghost second = self@;
        let ghost top_one = before.root(value_one);
        let ghost top_two = before.root(value_two);
        proof {
            use_type_invariant(&*self);
            before.lemma_compress_both(value_one, value_two);
            before.lemma_root(value_one);
            before.lemma_root(value_two);
        }
        if root_one == root_two {
            let shared = self.nodes[root_one].value.clone();
            assert(cloned(self.nodes[root_one as int].value, shared));
            return Some(shared);
        }
        let rank_one = self.nodes[root_one].rank;
        let rank_two = self.nodes[root_two].rank;
        proof {
            second.lemma_link(top_one, top_two);
        }
        if rank_one < rank_two {
            proof {
                lemma_model_parent(self.elements@, self.nodes@, root_one as int, Some(root_two));
            }
            set_parent(&mut self.nodes, root_one, Some(root_two));
            let absorbed = self.nodes[root_one].value.clone();
            assert(cloned(self.nodes[root_one as int].value, absorbed));
            Some(absorbed)
        } else if rank_one > rank_two {
            proof {
                lemma_model_parent(self.elements@, self.nodes@, root_two as int, Some(root_one));
            }
            set_parent(&mut self.nodes, root_two, Some(root_one));
            let absorbed = self.nodes[root_two].value.clone();
            assert(cloned(self.nodes[root_two as int].value, absorbed));
            Some(absorbed)
        } else {
            // The rank is raised before the link is made, so that the new
            // parent outranks its child as soon as it is one.
            let ghost raised = second.with_rank(top_one, (rank_one + 1) as nat);
            proof {
                second.lemma_rank_below_size(top_one);
                assert(second.entries.dom() =~= self.elements@.dom());
                assert(second.size() == spec_hash_map_len(&self.elements));
                second.lemma_promote(top_one, top_two);
                lemma_model_rank(
                    self.elements@,
                    self.nodes@,
                    root_one as int,
                    (rank_one + 1) as usize,
                );
            }
            set_rank(&mut self.nodes, root_one, rank_one + 1);
            proof {
                lemma_model_parent(self.elements@, self.nodes@, root_two as int, Some(root_one));
                assert(raised.with_parent(top_two, Some(top_one)).entries =~= second.link(
                    top_one,
                    top_two,
                ).entries);
            }
            set_parent(&mut self.nodes, root_two, Some(root_one));
            let absorbed = self.nodes[root_two].value.clone();
            assert(cloned(self.nodes[root_two as int].value, absorbed));
            Some(absorbed)
        }
    }
}

} // verus!
