//! The rule that picks the head: the deepest leaf wins, among equally deep
//! leaves the one with the later timestamp, and among those the one with
//! the greater id. The rule looks at the nodes alone, so two stores that
//! hold the same nodes pick the same head.

use crate::graph::follows_parent;
use crate::graph::graph_wf;
use crate::graph::ModelView;
use vstd::prelude::*;

verus! {

/// The id `a` comes before the id `b`, byte by byte from the front.
pub open spec fn id_less(a: Seq<u8>, b: Seq<u8>) -> bool
    decreases a.len(),
{
    if a.len() == 0 || b.len() == 0 {
        false
    } else if a[0] != b[0] {
        a[0] < b[0]
    } else {
        id_less(a.drop_first(), b.drop_first())
    }
}

/// Of two ids, at most one comes before the other; none comes before
/// itself.
pub proof fn lemma_id_less_asymmetric(a: Seq<u8>, b: Seq<u8>)
    ensures
        !(id_less(a, b) && id_less(b, a)),
    decreases a.len(),
{
    if a.len() > 0 && b.len() > 0 && a[0] == b[0] {
        lemma_id_less_asymmetric(a.drop_first(), b.drop_first());
    }
}

/// What comes before an id comes before everything that the id comes
/// before.
pub proof fn lemma_id_less_transitive(a: Seq<u8>, b: Seq<u8>, c: Seq<u8>)
    requires
        id_less(a, b),
        id_less(b, c),
    ensures
        id_less(a, c),
    decreases a.len(),
{
    if a[0] == b[0] && b[0] == c[0] {
        lemma_id_less_transitive(a.drop_first(), b.drop_first(), c.drop_first());
    }
}

/// Of two different ids of one length, one comes before the other.
pub proof fn lemma_id_less_total(a: Seq<u8>, b: Seq<u8>)
    requires
        a.len() == b.len(),
        a != b,
    ensures
        id_less(a, b) || id_less(b, a),
    decreases a.len(),
{
    if a.len() == 0 {
        assert(a =~= b);
    } else if a[0] == b[0] {
        if a.drop_first() == b.drop_first() {
            assert(a =~= seq![a[0]] + a.drop_first());
            assert(b =~= seq![b[0]] + b.drop_first());
        }
        lemma_id_less_total(a.drop_first(), b.drop_first());
    }
}

impl ModelView {
    /// The node at `a` is preferred to the node at `b`: it lies deeper, or
    /// as deep with a later timestamp, or as deep and as late with a
    /// greater id.
    pub open spec fn outranks(self, a: int, b: int) -> bool {
        let da = self.depth(a);
        let db = self.depth(b);
        let ta = self.nodes[a].event.timestamp;
        let tb = self.nodes[b].event.timestamp;
        da > db || (da == db && (ta > tb || (ta == tb && id_less(
            self.nodes[b].id,
            self.nodes[a].id,
        ))))
    }

    /// The node at `b` is the preferred leaf among the node at `a` and the
    /// nodes below it.
    pub open spec fn best_in_subtree(self, a: int, b: int) -> bool {
        &&& self.is_leaf(b)
        &&& self.in_subtree(a, b)
        &&& forall|l: int|
            #![trigger self.in_subtree(a, l)]
            self.is_leaf(l) && self.in_subtree(a, l) && l != b ==> self.outranks(b, l)
    }

    /// The node at `h` is the head: the leaf that is preferred to every
    /// other leaf.
    pub open spec fn is_head(self, h: int) -> bool {
        &&& self.is_leaf(h)
        &&& forall|l: int| #![trigger self.is_leaf(l)] self.is_leaf(l) && l != h ==> self.outranks(h, l)
    }

    /// The position of the head.
    pub open spec fn head(self) -> int {
        choose|h: int| self.is_head(h)
    }

    /// Of two nodes, at most one is preferred to the other.
    pub proof fn lemma_outranks_asymmetric(self, a: int, b: int)
        ensures
            !(self.outranks(a, b) && self.outranks(b, a)),
    {
        lemma_id_less_asymmetric(self.nodes[a].id, self.nodes[b].id);
    }

    /// A node that is preferred to another is preferred to all that the
    /// other is preferred to.
    pub proof fn lemma_outranks_transitive(self, a: int, b: int, c: int)
        requires
            self.outranks(a, b),
            self.outranks(b, c),
        ensures
            self.outranks(a, c),
    {
        if id_less(self.nodes[b].id, self.nodes[a].id) && id_less(
            self.nodes[c].id,
            self.nodes[b].id,
        ) {
            lemma_id_less_transitive(self.nodes[c].id, self.nodes[b].id, self.nodes[a].id);
        }
    }

    /// Of two different nodes, one is preferred to the other.
    pub proof fn lemma_outranks_total(self, a: int, b: int)
        requires
            graph_wf(self.nodes),
            0 <= a < self.nodes.len(),
            0 <= b < self.nodes.len(),
            a != b,
        ensures
            self.outranks(a, b) || self.outranks(b, a),
    {
        if a < b {
            assert(self.nodes[a].id != self.nodes[b].id);
        } else {
            assert(self.nodes[b].id != self.nodes[a].id);
        }
        lemma_id_less_total(self.nodes[a].id, self.nodes[b].id);
    }

    /// A store has at most one head.
    pub proof fn lemma_head_unique(self, g: int, h: int)
        requires
            self.is_head(g),
            self.is_head(h),
        ensures
            g == h,
    {
        if g != h {
            self.lemma_outranks_asymmetric(g, h);
        }
    }

    /// No node lies deeper than its position.
    pub proof fn lemma_depth_bound(self, i: int)
        ensures
            self.depth(i) <= i || i < 0,
            i <= 0 ==> self.depth(i) == 0,
        decreases i,
    {
        if 0 < i < self.nodes.len() {
            match self.nodes[i].parent {
                Some(p) => {
                    if 0 <= p < i {
                        self.lemma_depth_bound(p);
                    }
                },
                None => {},
            }
        }
    }

    /// What lies below a node stands behind it and lies at least as deep.
    pub proof fn lemma_subtree_below(self, a: int, x: int)
        requires
            self.in_subtree(a, x),
            0 <= a,
        ensures
            a <= x,
            self.depth(a) <= self.depth(x),
            x != a ==> self.depth(a) < self.depth(x),
            self.depth(x) - self.depth(a) <= x - a,
        decreases x,
    {
        if x != a {
            let p = self.nodes[x].parent->Some_0;
            self.lemma_subtree_below(a, p);
        }
    }

    /// What lies below a child lies below its parent.
    pub proof fn lemma_subtree_of_child(self, a: int, c: int, x: int)
        requires
            graph_wf(self.nodes),
            0 <= c < self.nodes.len(),
            self.nodes[c].parent == Some(a),
            self.in_subtree(c, x),
        ensures
            self.in_subtree(a, x),
        decreases x,
    {
        assert(follows_parent(self.nodes, c) || c == 0);
        if x == c {
            assert(self.in_subtree(a, a));
        } else {
            let p = self.nodes[x].parent->Some_0;
            self.lemma_subtree_of_child(a, c, p);
            self.lemma_subtree_below(c, p);
        }
    }

    /// What lies strictly below a node lies below one of its children.
    pub proof fn lemma_subtree_through_child(self, a: int, x: int) -> (c: int)
        requires
            self.in_subtree(a, x),
            x != a,
            0 <= a,
        ensures
            a < c < self.nodes.len(),
            self.nodes[c].parent == Some(a),
            self.in_subtree(c, x),
        decreases x,
    {
        let p = self.nodes[x].parent->Some_0;
        if p == a {
            x
        } else {
            let c = self.lemma_subtree_through_child(a, p);
            self.lemma_subtree_below(c, p);
            c
        }
    }

    /// Every node lies below the root.
    pub proof fn lemma_all_below_root(self, x: int)
        requires
            graph_wf(self.nodes),
            0 <= x < self.nodes.len(),
        ensures
            self.in_subtree(0, x),
        decreases x,
    {
        if x > 0 {
            assert(follows_parent(self.nodes, x));
            let p = self.nodes[x].parent->Some_0;
            self.lemma_all_below_root(p);
        }
    }

    /// The preferred leaf below the root is the head.
    pub proof fn lemma_best_below_root_is_head(self, h: int)
        requires
            graph_wf(self.nodes),
            self.best_in_subtree(0, h),
        ensures
            self.is_head(h),
    {
        assert forall|l: int| #![trigger self.is_leaf(l)] self.is_leaf(l) && l != h implies self.outranks(
            h,
            l,
        ) by {
            self.lemma_all_below_root(l);
        }
    }
}

impl ModelView {
    /// One more step up from where `steps` steps lead is where `steps + 1`
    /// steps lead.
    pub proof fn lemma_ancestor_step(self, i: int, steps: nat)
        ensures
            self.ancestor(i, steps + 1) == self.ancestor(self.ancestor(i, steps), 1),
        decreases steps,
    {
        reveal_with_fuel(ModelView::ancestor, 2);
        if steps > 0 {
            match self.nodes[i].parent {
                Some(p) => {
                    self.lemma_ancestor_step(p, (steps - 1) as nat);
                },
                None => {
                    self.lemma_ancestor_stays(i, steps);
                    self.lemma_ancestor_stays(i, steps + 1);
                },
            }
        }
    }

    /// A node without a parent is where every walk from it ends.
    pub proof fn lemma_ancestor_stays(self, i: int, steps: nat)
        requires
            self.nodes[i].parent is None,
        ensures
            self.ancestor(i, steps) == i,
    {
    }
}

impl ModelView {
    /// The nodes of a well-formed store form a well-formed graph.
    pub proof fn lemma_wf_nodes(self)
        requires
            self.wf(),
        ensures
            graph_wf(self.nodes),
    {
    }
}

} // verus!
