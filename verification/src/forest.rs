//! The mathematical model of a disjoint-set structure.
//!
//! A [`Forest`] records, for every registered element, a rank and an optional
//! parent. Elements without a parent are roots; every other element reaches
//! exactly one root by following parent links, and that root is the
//! representative of its set.

use vstd::prelude::*;

verus! {

/// What a forest records for one element.
pub struct Entry<T> {
    /// Approximate height of the tree below the element, as of the last time
    /// it was a root.
    pub rank: nat,
    /// The element one step closer to the root, or `None` for a root.
    pub parent: Option<T>,
}

/// One call on a disjoint-set structure.
pub enum Call<T> {
    /// Registering an element as a set of its own.
    MakeSet(T),
    /// Looking up the representative of an element.
    Find(T),
    /// Merging the sets of two elements.
    Union(T, T),
}

/// How many of `calls` register an element.
pub open spec fn registrations<T>(calls: Seq<Call<T>>) -> nat
    decreases calls.len(),
{
    if calls.len() == 0 {
        0
    } else if calls.last() is MakeSet {
        registrations(calls.drop_last()) + 1
    } else {
        registrations(calls.drop_last())
    }
}

/// The state of a disjoint-set structure over elements of type `T`.
#[verifier::ext_equal]
#[verifier::reject_recursive_types(T)]
pub struct Forest<T> {
    pub entries: Map<T, Entry<T>>,
}

impl<T> Forest<T> {
    /// The forest in which nothing is registered.
    pub open spec fn empty() -> Self {
        Forest { entries: Map::empty() }
    }

    /// Whether `v` is registered.
    pub open spec fn contains(self, v: T) -> bool {
        self.entries.contains_key(v)
    }

    /// The number of registered elements.
    pub open spec fn size(self) -> nat {
        self.entries.dom().len()
    }

    /// The rank recorded for `v`.
    pub open spec fn rank(self, v: T) -> nat {
        self.entries[v].rank
    }

    /// The parent recorded for `v`.
    pub open spec fn parent(self, v: T) -> Option<T> {
        self.entries[v].parent
    }

    /// Whether `v` is registered and has no parent.
    pub open spec fn is_root(self, v: T) -> bool {
        self.contains(v) && self.parent(v) is None
    }

    /// The elements with rank at least `k`.
    pub open spec fn crowd(self, k: nat) -> Set<T> {
        self.entries.dom().filter(|v: T| self.rank(v) >= k)
    }

    /// High ranks are rare: if any element has rank `k` or more, then at
    /// least `k` elements rank below `k`.
    pub open spec fn sparse(self) -> bool {
        forall|k: nat| #[trigger] self.crowd(k).len() > 0 ==> self.crowd(k).len() + k <= self.size()
    }

    /// Every parent is registered and outranks its child.
    pub open spec fn ordered(self) -> bool {
        forall|v: T| #[trigger]
            self.contains(v) ==> match self.parent(v) {
                Some(p) => self.contains(p) && self.rank(v) < self.rank(p),
                None => true,
            }
    }

    /// The invariant of the structure: finitely many elements, links that
    /// lead upwards in rank (so that there are no cycles), and sparse high
    /// ranks (so that every rank is below the number of elements).
    pub open spec fn well_formed(self) -> bool {
        &&& self.entries.dom().finite()
        &&& self.ordered()
        &&& self.sparse()
    }

    /// The representative of the set holding `v`: the element reached from
    /// `v` by following parent links until there is none. It is defined for
    /// the registered elements of a well-formed forest.
    pub open spec fn root(self, v: T) -> T
        decreases self.size() - self.rank(v),
        when self.well_formed() && self.contains(v)
        via Self::climb_ends
    {
        match self.parent(v) {
            Some(p) => self.root(p),
            None => v,
        }
    }

    /// Whether `x` lies on the way from `v` to its root, both ends included.
    /// It is defined where [`root`](Forest::root) is.
    pub open spec fn on_path(self, v: T, x: T) -> bool
        decreases self.size() - self.rank(v),
        when self.well_formed() && self.contains(v)
        via Self::walk_ends
    {
        v == x || match self.parent(v) {
            Some(p) => self.on_path(p, x),
            None => false,
        }
    }

    #[via_fn]
    proof fn climb_ends(self, v: T) {
        if self.parent(v) is Some {
            self.lemma_rank_below_size(self.parent(v).unwrap());
        }
    }

    #[via_fn]
    proof fn walk_ends(self, v: T, x: T) {
        if self.parent(v) is Some {
            self.lemma_rank_below_size(self.parent(v).unwrap());
        }
    }

    /// Whether `a` and `b` are registered and in the same set.
    pub open spec fn same_set(self, a: T, b: T) -> bool {
        self.contains(a) && self.contains(b) && self.root(a) == self.root(b)
    }

    /// Whether `other` registers the same elements as `self`, with the same
    /// ranks and the same representatives. Such forests differ at most in
    /// how long the paths to the roots are.
    pub open spec fn equivalent(self, other: Self) -> bool {
        &&& other.entries.dom() == self.entries.dom()
        &&& forall|v: T|
            self.contains(v) ==> other.rank(v) == self.rank(v) && #[trigger] other.root(v)
                == self.root(v)
    }

    /// The registered elements that are roots.
    pub open spec fn roots(self) -> Set<T> {
        self.entries.dom().filter(|v: T| self.is_root(v))
    }

    /// The representatives of all registered elements.
    pub open spec fn representatives(self) -> Set<T> {
        self.entries.dom().map(|v: T| self.root(v))
    }

    /// The forest with the parent of `v` replaced.
    pub open spec fn with_parent(self, v: T, p: Option<T>) -> Self {
        Forest { entries: self.entries.insert(v, Entry { rank: self.rank(v), parent: p }) }
    }

    /// The forest with the rank of `v` replaced.
    pub open spec fn with_rank(self, v: T, r: nat) -> Self {
        Forest { entries: self.entries.insert(v, Entry { rank: r, parent: self.parent(v) }) }
    }

    /// Path compression from `v`: every element on the way from `v` to its
    /// root, except the root itself, becomes a child of the root.
    pub open spec fn compress(self, v: T) -> Self {
        Forest {
            entries: Map::new(
                |x: T| self.contains(x),
                |x: T|
                    if self.on_path(v, x) && !self.is_root(x) {
                        Entry { rank: self.rank(x), parent: Some(self.root(v)) }
                    } else {
                        self.entries[x]
                    },
            ),
        }
    }

    /// Path compression from `a` and from `b`: every element on the way
    /// from either to its root, except the root itself, becomes a child of
    /// its root. This is what compressing from `a` and then from `b` comes
    /// to.
    pub open spec fn compress_both(self, a: T, b: T) -> Self {
        Forest {
            entries: Map::new(
                |x: T| self.contains(x),
                |x: T|
                    if (self.on_path(a, x) || self.on_path(b, x)) && !self.is_root(x) {
                        Entry { rank: self.rank(x), parent: Some(self.root(x)) }
                    } else {
                        self.entries[x]
                    },
            ),
        }
    }

    /// The forest after `v` is registered as a new singleton set. If `v` was
    /// registered before, its old entry is gone: `v` starts over with rank 0
    /// and no parent, and the elements that had `v` as their parent have no
    /// parent any more.
    pub open spec fn make_set(self, v: T) -> Self {
        Forest {
            entries: Map::new(
                |x: T| x == v || self.contains(x),
                |x: T|
                    if x == v {
                        Entry { rank: 0, parent: None }
                    } else if self.parent(x) == Some(v) {
                        Entry { rank: self.rank(x), parent: None }
                    } else {
                        self.entries[x]
                    },
            ),
        }
    }

    /// What looking up `v` yields: its representative, if `v` is registered.
    pub open spec fn find(self, v: T) -> Option<T> {
        if self.contains(v) {
            Some(self.root(v))
        } else {
            None
        }
    }

    /// The forest after looking up `v`: the path from `v` is compressed.
    pub open spec fn after_find(self, v: T) -> Self {
        if self.contains(v) {
            self.compress(v)
        } else {
            self
        }
    }

    /// Of two distinct roots about to be merged, the one that stops being a
    /// root: the one of lower rank, and `b` when the ranks are equal.
    pub open spec fn absorbed(self, a: T, b: T) -> T {
        if self.rank(a) < self.rank(b) {
            a
        } else {
            b
        }
    }

    /// The forest after the trees of the distinct roots `a` and `b` are
    /// merged by rank: the root of lower rank becomes a child of the other;
    /// on a tie `b` becomes a child of `a`, and the rank of `a` grows by one.
    pub open spec fn link(self, a: T, b: T) -> Self {
        if self.rank(a) < self.rank(b) {
            self.with_parent(a, Some(b))
        } else if self.rank(a) > self.rank(b) {
            self.with_parent(b, Some(a))
        } else {
            self.with_parent(b, Some(a)).with_rank(a, self.rank(a) + 1)
        }
    }

    /// What merging the sets of `a` and `b` yields: nothing if either is
    /// unregistered; the common representative if they are in one set
    /// already; otherwise the representative that was absorbed.
    pub open spec fn union(self, a: T, b: T) -> Option<T> {
        if self.contains(a) && self.contains(b) {
            if self.root(a) == self.root(b) {
                Some(self.root(a))
            } else {
                Some(self.absorbed(self.root(a), self.root(b)))
            }
        } else {
            None
        }
    }

    /// The forest after merging the sets of `a` and `b`. The two are looked
    /// up in turn, so the path from `a` is compressed if `a` is registered,
    /// and the path from `b` as well if both are. Only if both are
    /// registered and in different sets are their roots linked.
    pub open spec fn after_union(self, a: T, b: T) -> Self {
        if !self.contains(a) {
            self
        } else if !self.contains(b) {
            self.compress(a)
        } else if self.root(a) == self.root(b) {
            self.compress_both(a, b)
        } else {
            self.compress_both(a, b).link(self.root(a), self.root(b))
        }
    }

    /// The forest after one call.
    pub open spec fn after(self, call: Call<T>) -> Self {
        match call {
            Call::MakeSet(v) => self.make_set(v),
            Call::Find(v) => self.after_find(v),
            Call::Union(a, b) => self.after_union(a, b),
        }
    }

    /// The forest after a sequence of calls, made first to last.
    pub open spec fn after_all(self, calls: Seq<Call<T>>) -> Self
        decreases calls.len(),
    {
        if calls.len() == 0 {
            self
        } else {
            self.after_all(calls.drop_last()).after(calls.last())
        }
    }

    /// Whether none of `calls`, made on this forest first to last, registers
    /// an element that is registered already when the call is made.
    pub open spec fn registers_once(self, calls: Seq<Call<T>>) -> bool {
        forall|i: int|
            0 <= i < calls.len() ==> match #[trigger] calls[i] {
                Call::MakeSet(v) => !self.after_all(calls.take(i)).contains(v),
                _ => true,
            }
    }
}

} // verus!
