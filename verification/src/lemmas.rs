//! How a well-formed forest behaves under single steps: the facts the
//! executable structure and the public laws are proved from.

use crate::forest::{Entry, Forest};
use vstd::prelude::*;

verus! {

impl<T> Forest<T> {
    /// The empty forest is well-formed.
    pub proof fn lemma_empty()
        ensures
            Self::empty().well_formed(),
    {
        let empty = Self::empty();
        assert forall|k: nat| #[trigger] empty.crowd(k).len() > 0 implies empty.crowd(k).len() + k
            <= empty.size() by {
            assert(empty.crowd(k) == Set::<T>::empty());
        }
    }

    /// Every rank is below the number of elements.
    pub proof fn lemma_rank_below_size(self, v: T)
        requires
            self.well_formed(),
            self.contains(v),
        ensures
            self.rank(v) < self.size(),
    {
        let k = self.rank(v);
        assert(self.crowd(k).contains(v));
        assert(self.crowd(k).len() > 0);
    }

    /// The root of an element, one step at a time.
    pub proof fn lemma_step(self, v: T)
        requires
            self.well_formed(),
            self.contains(v),
        ensures
            self.parent(v) is None ==> self.root(v) == v,
            self.parent(v) is Some ==> {
                let p = self.parent(v).unwrap();
                &&& self.contains(p)
                &&& self.rank(v) < self.rank(p)
                &&& self.root(v) == self.root(p)
            },
    {
    }

    /// The root of a registered element is a root, and outranks every other
    /// element of its tree.
    pub proof fn lemma_root(self, v: T)
        requires
            self.well_formed(),
            self.contains(v),
        ensures
            self.is_root(self.root(v)),
            self.root(self.root(v)) == self.root(v),
            self.is_root(v) <==> self.root(v) == v,
            !self.is_root(v) ==> self.rank(v) < self.rank(self.root(v)),
        decreases self.size() - self.rank(v),
    {
        if self.parent(v) is Some {
            let p = self.parent(v).unwrap();
            self.lemma_rank_below_size(p);
            self.lemma_root(p);
        }
    }

    /// What lies on the way from a registered element to its root is
    /// registered, has the same root, and ranks above the element.
    pub proof fn lemma_on_path(self, v: T, x: T)
        requires
            self.well_formed(),
            self.contains(v),
            self.on_path(v, x),
        ensures
            self.contains(x),
            self.root(x) == self.root(v),
            x == v || self.rank(v) < self.rank(x),
        decreases self.size() - self.rank(v),
    {
        if x != v {
            let p = self.parent(v).unwrap();
            self.lemma_rank_below_size(p);
            self.lemma_on_path(p, x);
        }
    }

    /// The way from an element to its root is ordered by rank: of two
    /// elements on it, the one that ranks higher lies on the way from the
    /// other.
    pub proof fn lemma_path_ordered(self, v: T, low: T, high: T)
        requires
            self.well_formed(),
            self.contains(v),
            self.on_path(v, low),
            self.on_path(v, high),
            self.rank(low) <= self.rank(high),
        ensures
            self.on_path(low, high),
        decreases self.size() - self.rank(v),
    {
        self.lemma_on_path(v, low);
        if v != low {
            let p = self.parent(v).unwrap();
            self.lemma_rank_below_size(p);
            self.lemma_path_ordered(p, low, high);
        }
    }

    /// Giving an element a parent that outranks it keeps the forest
    /// well-formed.
    pub proof fn lemma_attach(self, v: T, p: T)
        requires
            self.well_formed(),
            self.contains(v),
            self.contains(p),
            self.rank(v) < self.rank(p),
        ensures
            self.with_parent(v, Some(p)).well_formed(),
    {
        let after = self.with_parent(v, Some(p));
        assert forall|x: T| #[trigger] after.contains(x) implies match after.parent(x) {
            Some(q) => after.contains(q) && after.rank(x) < after.rank(q),
            None => true,
        } by {
            assert(self.contains(x));
        }
        assert forall|k: nat| #[trigger] after.crowd(k).len() > 0 implies after.crowd(k).len() + k
            <= after.size() by {
            assert(after.crowd(k) == self.crowd(k));
        }
    }

    /// A root may rise by one rank when another element shares its rank.
    pub proof fn lemma_promote(self, a: T, b: T)
        requires
            self.well_formed(),
            self.is_root(a),
            self.contains(b),
            a != b,
            self.rank(a) == self.rank(b),
        ensures
            self.with_rank(a, self.rank(a) + 1).well_formed(),
    {
        let r = self.rank(a);
        let after = self.with_rank(a, r + 1);
        assert forall|x: T| #[trigger] after.contains(x) implies match after.parent(x) {
            Some(q) => after.contains(q) && after.rank(x) < after.rank(q),
            None => true,
        } by {
            assert(self.contains(x));
        }
        assert forall|k: nat| #[trigger] after.crowd(k).len() > 0 implies after.crowd(k).len() + k
            <= after.size() by {
            if k == r + 1 {
                let upper = self.crowd(k);
                let lower = self.crowd(r);
                assert(after.crowd(k) == upper.insert(a));
                vstd::set_lib::lemma_len_subset(upper.insert(a).insert(b), lower);
            } else {
                assert(after.crowd(k) == self.crowd(k));
            }
        }
    }

    /// Registering an element, for the first time or again, keeps the forest
    /// well-formed.
    pub proof fn lemma_make_set(self, v: T)
        requires
            self.well_formed(),
        ensures
            self.make_set(v).well_formed(),
    {
        let after = self.make_set(v);
        assert(after.entries.dom() == self.entries.dom().insert(v));
        assert forall|k: nat| #[trigger] after.crowd(k).len() > 0 implies after.crowd(k).len() + k
            <= after.size() by {
            if k == 0 {
                assert(after.crowd(k) == after.entries.dom());
            } else {
                assert(after.crowd(k) == self.crowd(k).remove(v));
            }
        }
    }

    /// Making a non-root element a child of its own root changes no root.
    pub proof fn lemma_shortcut(self, x: T, y: T)
        requires
            self.well_formed(),
            self.contains(x),
            !self.is_root(x),
            self.contains(y),
        ensures
            self.with_parent(x, Some(self.root(x))).well_formed(),
            self.with_parent(x, Some(self.root(x))).root(y) == self.root(y),
        decreases self.size() - self.rank(y),
    {
        let r = self.root(x);
        let after = self.with_parent(x, Some(r));
        self.lemma_root(x);
        self.lemma_attach(x, r);
        after.lemma_step(y);
        if y != x && self.parent(y) is Some {
            let p = self.parent(y).unwrap();
            self.lemma_rank_below_size(p);
            self.lemma_shortcut(x, p);
        }
    }

    /// Raising the rank of a root, where that is allowed, changes no root.
    pub proof fn lemma_promote_roots(self, a: T, b: T, y: T)
        requires
            self.well_formed(),
            self.is_root(a),
            self.contains(b),
            a != b,
            self.rank(a) == self.rank(b),
            self.contains(y),
        ensures
            self.with_rank(a, self.rank(a) + 1).root(y) == self.root(y),
        decreases self.size() - self.rank(y),
    {
        self.lemma_promote(a, b);
        if self.parent(y) is Some {
            let p = self.parent(y).unwrap();
            self.lemma_rank_below_size(p);
            self.lemma_promote_roots(a, b, p);
        }
    }

    /// Making the root `b` a child of a root `a` that outranks it moves the
    /// elements of the tree of `b` to the tree of `a`, and no others.
    pub proof fn lemma_graft(self, a: T, b: T, y: T)
        requires
            self.well_formed(),
            self.is_root(a),
            self.is_root(b),
            self.rank(b) < self.rank(a),
            self.contains(y),
        ensures
            self.with_parent(b, Some(a)).well_formed(),
            self.with_parent(b, Some(a)).root(y) == if self.root(y) == b {
                a
            } else {
                self.root(y)
            },
        decreases self.size() - self.rank(y),
    {
        let after = self.with_parent(b, Some(a));
        self.lemma_attach(b, a);
        after.lemma_step(y);
        if y != b && self.parent(y) is Some {
            let p = self.parent(y).unwrap();
            self.lemma_rank_below_size(p);
            self.lemma_graft(a, b, p);
        }
    }

    /// Path compression from `v`, as far as it concerns the elements ranked
    /// below `limit`: every such element on the way from `v` to its root,
    /// except the root itself, becomes a child of the root.
    pub open spec fn compress_below(self, v: T, limit: nat) -> Self {
        Forest {
            entries: Map::new(
                |x: T| self.contains(x),
                |x: T|
                    if self.on_path(v, x) && !self.is_root(x) && self.rank(x) < limit {
                        Entry { rank: self.rank(x), parent: Some(self.root(v)) }
                    } else {
                        self.entries[x]
                    },
            ),
        }
    }

    /// Path compression below any limit keeps the forest well-formed and
    /// equivalent.
    pub proof fn lemma_compress_below(self, v: T, limit: nat)
        requires
            self.well_formed(),
            self.contains(v),
        ensures
            self.compress_below(v, limit).well_formed(),
            self.equivalent(self.compress_below(v, limit)),
        decreases self.size() - self.rank(v),
    {
        let after = self.compress_below(v, limit);
        if self.parent(v) is None {
            assert(after.entries =~= self.entries);
        } else {
            let p = self.parent(v).unwrap();
            let above = self.compress_below(p, limit);
            self.lemma_rank_below_size(p);
            self.lemma_compress_below(p, limit);
            if self.on_path(p, v) {
                self.lemma_on_path(p, v);
            }
            if self.rank(v) < limit {
                assert(after.entries =~= above.with_parent(v, Some(self.root(v))).entries);
                assert forall|y: T| self.contains(y) implies after.rank(y) == self.rank(y)
                    && #[trigger] after.root(y) == self.root(y) by {
                    above.lemma_shortcut(v, y);
                }
                above.lemma_shortcut(v, v);
            } else {
                assert forall|x: T| self.on_path(p, x) implies self.rank(x) >= limit by {
                    self.lemma_on_path(p, x);
                }
                assert(after.entries =~= above.entries);
            }
        }
    }

    /// What lies on the way from an element on a path lies on that path.
    pub proof fn lemma_path_extends(self, v: T, x: T, y: T)
        requires
            self.well_formed(),
            self.contains(v),
            self.on_path(v, x),
            self.on_path(x, y),
        ensures
            self.on_path(v, y),
        decreases self.size() - self.rank(v),
    {
        if v != x {
            let p = self.parent(v).unwrap();
            self.lemma_rank_below_size(p);
            self.lemma_path_extends(p, x, y);
        }
    }

    /// One step of path compression from `v`, at a non-root element `x` on
    /// the way: compressing below the rank of the parent of `x` is
    /// compressing below the rank of `x` and then redirecting `x`.
    pub proof fn lemma_compress_step(self, v: T, x: T)
        requires
            self.well_formed(),
            self.contains(v),
            self.on_path(v, x),
            self.parent(x) is Some,
        ensures
            self.compress_below(v, self.rank(x)).entries[x] == self.entries[x],
            self.on_path(v, self.parent(x).unwrap()),
            self.compress_below(v, self.rank(self.parent(x).unwrap())) == self.compress_below(
                v,
                self.rank(x),
            ).with_parent(x, Some(self.root(v))),
    {
        let next = self.parent(x).unwrap();
        let lower = self.compress_below(v, self.rank(x));
        let upper = self.compress_below(v, self.rank(next));
        self.lemma_on_path(v, x);
        assert(self.on_path(x, next)) by {
            self.lemma_rank_below_size(next);
            assert(self.on_path(next, next));
        }
        self.lemma_path_extends(v, x, next);
        assert forall|y: T| self.contains(y) implies #[trigger] upper.entries[y]
            == lower.with_parent(x, Some(self.root(v))).entries[y] by {
            if y != x && self.on_path(v, y) && self.rank(x) <= self.rank(y) < self.rank(next) {
                self.lemma_path_ordered(v, x, y);
                self.lemma_on_path(next, y);
            }
        }
    }

    /// Where path compression from `v` starts and where it ends: below the
    /// rank of `v` nothing changes, and below the rank of the root
    /// everything has changed that will.
    pub proof fn lemma_compress_ends(self, v: T)
        requires
            self.well_formed(),
            self.contains(v),
        ensures
            self.compress_below(v, self.rank(v)) == self,
            self.compress_below(v, self.rank(self.root(v))) == self.compress(v),
    {
        assert forall|x: T| self.on_path(v, x) implies self.rank(x) >= self.rank(v) && (
        !self.is_root(x) ==> self.rank(x) < self.rank(self.root(v))) by {
            self.lemma_on_path(v, x);
            self.lemma_root(x);
        }
    }

    /// Path compression keeps the forest well-formed and equivalent.
    pub proof fn lemma_compress(self, v: T)
        requires
            self.well_formed(),
            self.contains(v),
        ensures
            self.compress(v).well_formed(),
            self.equivalent(self.compress(v)),
    {
        self.lemma_compress_ends(v);
        self.lemma_compress_below(v, self.rank(self.root(v)));
    }

    /// Linking two distinct roots keeps the forest well-formed and moves the
    /// elements of the absorbed tree, and no others, to the surviving root.
    pub proof fn lemma_link(self, a: T, b: T)
        requires
            self.well_formed(),
            self.is_root(a),
            self.is_root(b),
            a != b,
        ensures
            self.link(a, b).well_formed(),
            self.link(a, b).entries.dom() == self.entries.dom(),
            forall|y: T|
                self.contains(y) ==> #[trigger] self.link(a, b).root(y) == if self.root(y)
                    == self.absorbed(a, b) {
                    if self.absorbed(a, b) == a {
                        b
                    } else {
                        a
                    }
                } else {
                    self.root(y)
                },
    {
        let after = self.link(a, b);
        if self.rank(a) < self.rank(b) {
            self.lemma_graft(b, a, a);
            assert forall|y: T| self.contains(y) implies #[trigger] after.root(y) == if self.root(y)
                == a {
                b
            } else {
                self.root(y)
            } by {
                self.lemma_graft(b, a, y);
            }
        } else if self.rank(a) > self.rank(b) {
            self.lemma_graft(a, b, a);
            assert forall|y: T| self.contains(y) implies #[trigger] after.root(y) == if self.root(y)
                == b {
                a
            } else {
                self.root(y)
            } by {
                self.lemma_graft(a, b, y);
            }
        } else {
            let raised = self.with_rank(a, self.rank(a) + 1);
            self.lemma_promote(a, b);
            assert(after.entries =~= raised.with_parent(b, Some(a)).entries);
            raised.lemma_graft(a, b, a);
            assert forall|y: T| self.contains(y) implies #[trigger] after.root(y) == if self.root(y)
                == b {
                a
            } else {
                self.root(y)
            } by {
                self.lemma_promote_roots(a, b, y);
                raised.lemma_graft(a, b, y);
            }
        }
    }

    /// After path compression from `a`, what lies on the way from `b` to its
    /// root lay there before, or is the root of `a`.
    pub proof fn lemma_compressed_path_was(self, a: T, b: T, x: T)
        requires
            self.well_formed(),
            self.contains(a),
            self.contains(b),
            self.compress(a).on_path(b, x),
        ensures
            self.on_path(b, x) || x == self.root(a),
        decreases self.size() - self.rank(b),
    {
        let once = self.compress(a);
        self.lemma_compress(a);
        self.lemma_root(a);
        if b != x {
            let q = once.parent(b).unwrap();
            if self.on_path(a, b) && !self.is_root(b) {
                assert(once.on_path(q, x) == (q == x));
            } else {
                self.lemma_rank_below_size(q);
                self.lemma_compressed_path_was(a, q, x);
            }
        }
    }

    /// After path compression from `a`, what lay on the way from `b` to its
    /// root, but not on the way from `a`, still lies on the way from `b`.
    pub proof fn lemma_compressed_path_stays(self, a: T, b: T, x: T)
        requires
            self.well_formed(),
            self.contains(a),
            self.contains(b),
            self.on_path(b, x),
            !self.on_path(a, x),
        ensures
            self.compress(a).on_path(b, x),
        decreases self.size() - self.rank(b),
    {
        self.lemma_compress(a);
        if b != x {
            let p = self.parent(b).unwrap();
            if self.on_path(a, b) {
                self.lemma_path_extends(a, b, x);
            }
            self.lemma_rank_below_size(p);
            self.lemma_compressed_path_stays(a, p, x);
        }
    }

    /// Compressing the path from `a` and then the path from `b` compresses
    /// both paths.
    pub proof fn lemma_compress_both(self, a: T, b: T)
        requires
            self.well_formed(),
            self.contains(a),
            self.contains(b),
        ensures
            self.compress(a).compress(b) == self.compress_both(a, b),
    {
        let once = self.compress(a);
        let twice = once.compress(b);
        let both = self.compress_both(a, b);
        self.lemma_compress(a);
        assert forall|x: T| self.contains(x) implies #[trigger] twice.entries[x]
            == both.entries[x] by {
            if self.on_path(a, x) {
                self.lemma_on_path(a, x);
            }
            if self.on_path(b, x) {
                self.lemma_on_path(b, x);
            }
            if once.on_path(b, x) {
                self.lemma_compressed_path_was(a, b, x);
                self.lemma_root(a);
            }
            if self.on_path(b, x) && !self.on_path(a, x) {
                self.lemma_compressed_path_stays(a, b, x);
            }
        }
    }

    /// Merging two sets keeps the forest well-formed and registers nobody.
    /// If both elements are registered and in different sets, the elements
    /// whose root was absorbed have the surviving root afterwards, and no
    /// other root changes; otherwise the forest stays equivalent.
    pub proof fn lemma_after_union(self, a: T, b: T)
        requires
            self.well_formed(),
        ensures
            self.after_union(a, b).well_formed(),
            self.after_union(a, b).entries.dom() == self.entries.dom(),
            self.contains(a) && self.contains(b) && self.root(a) != self.root(b) ==> {
                let gone = self.absorbed(self.root(a), self.root(b));
                let kept = if gone == self.root(a) {
                    self.root(b)
                } else {
                    self.root(a)
                };
                forall|y: T|
                    self.contains(y) ==> #[trigger] self.after_union(a, b).root(y) == if self.root(
                        y,
                    ) == gone {
                        kept
                    } else {
                        self.root(y)
                    }
            },
            !(self.contains(a) && self.contains(b) && self.root(a) != self.root(b))
                ==> self.equivalent(self.after_union(a, b)),
    {
        if self.contains(a) {
            let first = self.compress(a);
            self.lemma_compress(a);
            if self.contains(b) {
                let second = first.compress(b);
                first.lemma_compress(b);
                self.lemma_compress_both(a, b);
                if self.root(a) != self.root(b) {
                    let top_a = self.root(a);
                    let top_b = self.root(b);
                    self.lemma_root(a);
                    self.lemma_root(b);
                    second.lemma_link(top_a, top_b);
                }
            }
        }
    }

    /// A newly registered element is alone in its set: it is its own root,
    /// and the root of nobody else.
    pub proof fn lemma_make_set_isolates(self, v: T, x: T)
        requires
            self.well_formed(),
            self.make_set(v).contains(x),
        ensures
            self.make_set(v).root(x) == v <==> x == v,
        decreases self.make_set(v).size() - self.make_set(v).rank(x),
    {
        let after = self.make_set(v);
        self.lemma_make_set(v);
        if x != v && after.parent(x) is Some {
            let p = after.parent(x).unwrap();
            after.lemma_rank_below_size(p);
            self.lemma_make_set_isolates(v, p);
        }
    }

    /// Registering an element for the first time changes neither the rank
    /// nor the root of any other element.
    pub proof fn lemma_make_set_fresh(self, v: T, x: T)
        requires
            self.well_formed(),
            !self.contains(v),
            self.contains(x),
        ensures
            self.make_set(v).rank(x) == self.rank(x),
            self.make_set(v).root(x) == self.root(x),
        decreases self.size() - self.rank(x),
    {
        self.lemma_make_set(v);
        if self.parent(x) is Some {
            let p = self.parent(x).unwrap();
            self.lemma_rank_below_size(p);
            self.lemma_make_set_fresh(v, p);
        }
    }

    /// The representatives are the roots, and there are no more of them
    /// than there are elements.
    pub proof fn lemma_representatives(self)
        requires
            self.well_formed(),
        ensures
            self.representatives() == self.roots(),
            self.roots().finite(),
            self.roots().len() <= self.size(),
    {
        assert forall|r: T| self.representatives().contains(r) <==> self.roots().contains(r) by {
            if self.representatives().contains(r) {
                let v = choose|v: T| self.entries.dom().contains(v) && r == self.root(v);
                self.lemma_root(v);
            }
            if self.roots().contains(r) {
                assert(r == self.root(r));
            }
        }
        vstd::set_lib::lemma_len_subset(self.roots(), self.entries.dom());
    }

    /// Equivalent forests have the same representatives.
    pub proof fn lemma_equivalent_representatives(self, other: Self)
        requires
            self.equivalent(other),
        ensures
            other.representatives() == self.representatives(),
    {
        assert forall|r: T| other.representatives().contains(r)
            <==> self.representatives().contains(r) by {
            if other.representatives().contains(r) {
                let v = choose|v: T| other.entries.dom().contains(v) && r == other.root(v);
                assert(self.entries.dom().contains(v) && r == self.root(v));
            }
            if self.representatives().contains(r) {
                let v = choose|v: T| self.entries.dom().contains(v) && r == self.root(v);
                assert(other.entries.dom().contains(v) && r == other.root(v));
            }
        }
    }

    /// Linking two distinct roots leaves one root fewer: the absorbed one.
    pub proof fn lemma_link_roots(self, a: T, b: T)
        requires
            self.well_formed(),
            self.is_root(a),
            self.is_root(b),
            a != b,
        ensures
            self.link(a, b).roots() == self.roots().remove(self.absorbed(a, b)),
            self.link(a, b).roots().len() == self.roots().len() - 1,
    {
        let after = self.link(a, b);
        let gone = self.absorbed(a, b);
        assert forall|x: T| after.roots().contains(x) <==> self.roots().remove(gone).contains(
            x,
        ) by {
            if x != a && x != b {
                assert(after.entries[x] == self.entries[x]);
            }
        }
        assert(after.roots() =~= self.roots().remove(gone));
    }
}

} // verus!
