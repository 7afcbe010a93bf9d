//! The mathematical model of the event store: which nodes it holds, how
//! they hang together, and what attaching an event does to it.
//!
//! Nodes stand in the order in which they were linked into the graph. A
//! node names its parent by position, and the parent always stands before
//! the child, so following parent links ends at the root, at position 0.

use crate::event::event_id;
use crate::event::EventView;
use vstd::prelude::*;

verus! {

/// A node of the graph: an event, the id it is known by, and the position
/// of the node it follows. Only the root has no parent.
pub struct NodeView {
    pub id: Seq<u8>,
    pub parent: Option<int>,
    pub event: EventView,
}

/// An event that waits for its parent, with the id it is known by.
pub struct OrphanView {
    pub id: Seq<u8>,
    pub event: EventView,
}

/// The store: the id of the root, the linked nodes in order of arrival,
/// and the waiting events in order of arrival.
pub struct ModelView {
    pub root: Seq<u8>,
    pub nodes: Seq<NodeView>,
    pub orphans: Seq<OrphanView>,
}

/// Some node carries the id `id`.
pub open spec fn has_id(nodes: Seq<NodeView>, id: Seq<u8>) -> bool {
    exists|i: int| 0 <= i < nodes.len() && (#[trigger] nodes[i]).id == id
}

/// The position of the node that carries the id `id`.
pub open spec fn position(nodes: Seq<NodeView>, id: Seq<u8>) -> int {
    choose|i: int| 0 <= i < nodes.len() && (#[trigger] nodes[i]).id == id
}

/// Some waiting event carries the id `id`.
pub open spec fn waits(orphans: Seq<OrphanView>, id: Seq<u8>) -> bool {
    exists|a: int| 0 <= a < orphans.len() && (#[trigger] orphans[a]).id == id
}

/// The node at position `i` names a node before it as its parent, and that
/// node carries the id that the event at `i` follows.
pub open spec fn follows_parent(nodes: Seq<NodeView>, i: int) -> bool {
    match nodes[i].parent {
        Some(p) => 0 <= p < i && nodes[p].id == nodes[i].event.previous_event_hash,
        None => false,
    }
}

/// The nodes form one tree below the node at position 0, and no id occurs
/// twice.
pub open spec fn graph_wf(nodes: Seq<NodeView>) -> bool {
    &&& nodes.len() > 0
    &&& nodes[0].parent is None
    &&& forall|i: int| 0 < i < nodes.len() ==> #[trigger] follows_parent(nodes, i)
    &&& forall|i: int| 0 <= i < nodes.len() ==> (#[trigger] nodes[i]).id.len() == 32
    &&& forall|i: int, j: int|
        0 <= i < j < nodes.len() ==> (#[trigger] nodes[i]).id != (#[trigger] nodes[j]).id
}

/// No id waits twice, and none that waits is linked.
pub open spec fn buffer_wf(nodes: Seq<NodeView>, orphans: Seq<OrphanView>) -> bool {
    &&& forall|a: int| 0 <= a < orphans.len() ==> (#[trigger] orphans[a]).id.len() == 32
    &&& forall|a: int, b: int|
        0 <= a < b < orphans.len() ==> (#[trigger] orphans[a]).id != (#[trigger] orphans[b]).id
    &&& forall|a: int| 0 <= a < orphans.len() ==> !has_id(nodes, (#[trigger] orphans[a]).id)
}

/// The nodes after the waiting event `o`, whose parent is among them, has
/// been linked below that parent.
pub open spec fn linked(nodes: Seq<NodeView>, o: OrphanView) -> Seq<NodeView> {
    nodes.push(
        NodeView {
            id: o.id,
            parent: Some(position(nodes, o.event.previous_event_hash)),
            event: o.event,
        },
    )
}

/// One pass over the waiting events `pending`, first to last. An event
/// whose parent is linked at the moment the pass reaches it is linked too;
/// any other is put behind `kept`, to wait on.
pub open spec fn settle(nodes: Seq<NodeView>, kept: Seq<OrphanView>, pending: Seq<OrphanView>) -> (
    Seq<NodeView>,
    Seq<OrphanView>,
)
    decreases pending.len(),
{
    if pending.len() == 0 {
        (nodes, kept)
    } else if has_id(nodes, pending[0].event.previous_event_hash) {
        settle(linked(nodes, pending[0]), kept, pending.drop_first())
    } else {
        settle(nodes, kept.push(pending[0]), pending.drop_first())
    }
}

impl ModelView {
    /// The store with the root `event`, known by `id`, and nothing else.
    pub open spec fn initial(id: Seq<u8>, event: EventView) -> ModelView {
        ModelView {
            root: id,
            nodes: seq![NodeView { id, parent: None, event }],
            orphans: Seq::empty(),
        }
    }

    /// The linked nodes form a tree below the root, the waiting events are
    /// apart from them, and no id occurs twice.
    pub open spec fn wf(self) -> bool {
        &&& graph_wf(self.nodes)
        &&& self.nodes[0].id == self.root
        &&& buffer_wf(self.nodes, self.orphans)
    }

    /// Every id in the store is the content hash of the event it stands for.
    pub open spec fn content_addressed(self) -> bool {
        &&& forall|i: int|
            0 <= i < self.nodes.len() ==> (#[trigger] self.nodes[i]).id == event_id(
                self.nodes[i].event,
            )
        &&& forall|a: int|
            0 <= a < self.orphans.len() ==> (#[trigger] self.orphans[a]).id == event_id(
                self.orphans[a].event,
            )
    }

    /// The store has seen the id `id`: linked, or waiting.
    pub open spec fn knows(self, id: Seq<u8>) -> bool {
        has_id(self.nodes, id) || waits(self.orphans, id)
    }

    /// The store after one pass over its waiting events.
    pub open spec fn reorganize(self) -> ModelView {
        let settled = settle(self.nodes, Seq::empty(), self.orphans);
        ModelView { root: self.root, nodes: settled.0, orphans: settled.1 }
    }

    /// The store with the event `event`, known by `id`, behind the waiting
    /// ones.
    pub open spec fn with_orphan(self, id: Seq<u8>, event: EventView) -> ModelView {
        ModelView {
            root: self.root,
            nodes: self.nodes,
            orphans: self.orphans.push(OrphanView { id, event }),
        }
    }

    /// The store with the event `event`, known by `id`, as a node below the
    /// node whose id it follows.
    pub open spec fn with_node(self, id: Seq<u8>, event: EventView) -> ModelView {
        ModelView {
            root: self.root,
            nodes: linked(self.nodes, OrphanView { id, event }),
            orphans: self.orphans,
        }
    }

    /// The store after `event`, known by `id`, was handed to it. Where the
    /// store knows the id, it stays as it is. Else the new event is looked
    /// at first: it becomes a node where its parent is linked, and waits
    /// behind the others where not. Then one pass over the waiting events
    /// is made, which links those that waited for the new node.
    pub open spec fn attach(self, id: Seq<u8>, event: EventView) -> ModelView {
        if self.knows(id) {
            self
        } else if has_id(self.nodes, event.previous_event_hash) {
            self.with_node(id, event).reorganize()
        } else {
            self.with_orphan(id, event).reorganize()
        }
    }

    /// The store with at most `keep` waiting events: the newest ones.
    pub open spec fn without_oldest_orphans(self, keep: nat) -> ModelView {
        if self.orphans.len() <= keep {
            self
        } else {
            ModelView {
                root: self.root,
                nodes: self.nodes,
                orphans: self.orphans.subrange(
                    self.orphans.len() - keep,
                    self.orphans.len() as int,
                ),
            }
        }
    }

    /// How many edges lie between the root and the node at position `i`.
    pub open spec fn depth(self, i: int) -> nat
        decreases i,
    {
        if 0 < i < self.nodes.len() {
            match self.nodes[i].parent {
                Some(p) => if 0 <= p < i {
                    self.depth(p) + 1
                } else {
                    0
                },
                None => 0,
            }
        } else {
            0
        }
    }

    /// The node that stands `steps` parent links above the node at `i`; the
    /// root is its own parent here.
    pub open spec fn ancestor(self, i: int, steps: nat) -> int
        decreases steps,
    {
        if steps == 0 {
            i
        } else {
            match self.nodes[i].parent {
                Some(p) => self.ancestor(p, (steps - 1) as nat),
                None => i,
            }
        }
    }

    /// The node at position `x` is the node at `a` or lies below it.
    pub open spec fn in_subtree(self, a: int, x: int) -> bool
        decreases x,
    {
        if x == a {
            true
        } else if 0 <= a < x < self.nodes.len() {
            match self.nodes[x].parent {
                Some(p) => 0 <= p < x && self.in_subtree(a, p),
                None => false,
            }
        } else {
            false
        }
    }

    /// The node at position `i` has no children.
    pub open spec fn is_leaf(self, i: int) -> bool {
        &&& 0 <= i < self.nodes.len()
        &&& forall|c: int| 0 <= c < self.nodes.len() ==> (#[trigger] self.nodes[c]).parent != Some(i)
    }
}

/// Linking a waiting event whose parent is linked keeps the graph a tree,
/// as long as its id is new.
pub proof fn lemma_linked_wf(nodes: Seq<NodeView>, o: OrphanView)
    requires
        graph_wf(nodes),
        has_id(nodes, o.event.previous_event_hash),
        !has_id(nodes, o.id),
        o.id.len() == 32,
    ensures
        graph_wf(linked(nodes, o)),
        linked(nodes, o)[0] == nodes[0],
        linked(nodes, o).len() == nodes.len() + 1,
{
    let after = linked(nodes, o);
    let p = position(nodes, o.event.previous_event_hash);
    let n = nodes.len() as int;
    assert forall|i: int| 0 < i < after.len() implies #[trigger] follows_parent(after, i) by {
        if i < n {
            assert(follows_parent(nodes, i));
            assert(after[i] == nodes[i]);
        } else {
            assert(after[p] == nodes[p]);
        }
    }
    assert forall|i: int, j: int| 0 <= i < j < after.len() implies (#[trigger] after[i]).id != (
    #[trigger] after[j]).id by {
        assert(after[i] == nodes[i]);
        if j < n {
            assert(after[j] == nodes[j]);
        }
    }
    assert forall|i: int| 0 <= i < after.len() implies (#[trigger] after[i]).id.len() == 32 by {
        if i < n {
            assert(after[i] == nodes[i]);
        }
    }
}

/// An id that is linked stays linked when another node is linked.
pub proof fn lemma_linked_keeps_ids(nodes: Seq<NodeView>, o: OrphanView, id: Seq<u8>)
    ensures
        has_id(linked(nodes, o), id) <==> has_id(nodes, id) || id == o.id,
{
    let after = linked(nodes, o);
    if has_id(nodes, id) {
        let i = choose|i: int| 0 <= i < nodes.len() && (#[trigger] nodes[i]).id == id;
        assert(after[i].id == id);
    }
    if id == o.id {
        assert(after[nodes.len() as int].id == id);
    }
    if has_id(after, id) {
        let i = choose|i: int| 0 <= i < after.len() && (#[trigger] after[i]).id == id;
        if i < nodes.len() {
            assert(nodes[i].id == id);
        }
    }
}

/// A pass keeps a well-formed store well formed, and keeps every node where
/// it stands.
pub proof fn lemma_settle_wf(nodes: Seq<NodeView>, kept: Seq<OrphanView>, pending: Seq<OrphanView>)
    requires
        graph_wf(nodes),
        buffer_wf(nodes, kept + pending),
    ensures
        graph_wf(settle(nodes, kept, pending).0),
        buffer_wf(settle(nodes, kept, pending).0, settle(nodes, kept, pending).1),
        nodes.len() <= settle(nodes, kept, pending).0.len(),
        forall|i: int|
            0 <= i < nodes.len() ==> (#[trigger] settle(nodes, kept, pending).0[i]) == nodes[i],
    decreases pending.len(),
{
    if pending.len() == 0 {
        assert(kept + pending =~= kept);
    } else {
        let o = pending[0];
        let rest = pending.drop_first();
        if has_id(nodes, o.event.previous_event_hash) {
            let next = linked(nodes, o);
            lemma_settle_step_wf(nodes, kept, pending);
            lemma_settle_wf(next, kept, rest);
            let out = settle(next, kept, rest);
            assert forall|i: int| 0 <= i < nodes.len() implies (#[trigger] out.0[i])
                == nodes[i] by {
                assert(next[i] == nodes[i]);
            }
        } else {
            assert(kept.push(o) + rest =~= kept + pending);
            lemma_settle_wf(nodes, kept.push(o), rest);
        }
    }
}

/// An id waits in a buffer exactly if it waits in the buffer without one
/// of its events, or is the id of that event.
pub proof fn lemma_waits_without(
    kept: Seq<OrphanView>,
    o: OrphanView,
    rest: Seq<OrphanView>,
    id: Seq<u8>,
)
    ensures
        waits(kept + seq![o] + rest, id) <==> waits(kept + rest, id) || id == o.id,
        kept + seq![o] + rest == kept + (seq![o] + rest),
{
    let all = kept + seq![o] + rest;
    let left = kept + rest;
    let at = kept.len() as int;
    assert(all =~= kept + (seq![o] + rest));
    assert(all[at] == o);
    if waits(left, id) {
        let a = choose|a: int| 0 <= a < left.len() && (#[trigger] left[a]).id == id;
        let b = if a < at {
            a
        } else {
            a + 1
        };
        assert(all[b] == left[a]);
    }
    if waits(all, id) && id != o.id {
        let b = choose|b: int| 0 <= b < all.len() && (#[trigger] all[b]).id == id;
        let a = if b < at {
            b
        } else {
            b - 1
        };
        assert(left[a] == all[b]);
    }
}

/// A pass neither forgets an id nor brings a new one in: what was linked or
/// waiting before is linked or waiting after, and nothing else is.
pub proof fn lemma_settle_ids(
    nodes: Seq<NodeView>,
    kept: Seq<OrphanView>,
    pending: Seq<OrphanView>,
    id: Seq<u8>,
)
    ensures
        has_id(nodes, id) || waits(kept + pending, id) <==> has_id(
            settle(nodes, kept, pending).0,
            id,
        ) || waits(settle(nodes, kept, pending).1, id),
    decreases pending.len(),
{
    if pending.len() == 0 {
        assert(kept + pending =~= kept);
    } else {
        let o = pending[0];
        let rest = pending.drop_first();
        assert(pending =~= seq![o] + rest);
        lemma_waits_without(kept, o, rest, id);
        if has_id(nodes, o.event.previous_event_hash) {
            lemma_linked_keeps_ids(nodes, o, id);
            lemma_settle_ids(linked(nodes, o), kept, rest, id);
        } else {
            assert(kept.push(o) + rest =~= kept + seq![o] + rest);
            lemma_settle_ids(nodes, kept.push(o), rest, id);
        }
    }
}

/// After the first waiting event has been linked, the rest of the buffer
/// is still apart from the nodes.
pub proof fn lemma_settle_step_wf(
    nodes: Seq<NodeView>,
    kept: Seq<OrphanView>,
    pending: Seq<OrphanView>,
)
    requires
        graph_wf(nodes),
        buffer_wf(nodes, kept + pending),
        pending.len() > 0,
        has_id(nodes, pending[0].event.previous_event_hash),
    ensures
        graph_wf(linked(nodes, pending[0])),
        buffer_wf(linked(nodes, pending[0]), kept + pending.drop_first()),
{
    let all = kept + pending;
    let o = pending[0];
    let rest = pending.drop_first();
    let at = kept.len() as int;
    let next = linked(nodes, o);
    let left = kept + rest;
    assert(all[at] == o);
    lemma_linked_wf(nodes, o);
    assert forall|a: int| 0 <= a < left.len() implies !has_id(next, (#[trigger] left[a]).id)
        && left[a].id.len() == 32 by {
        let b = if a < at {
            a
        } else {
            a + 1
        };
        assert(left[a] == all[b]);
        lemma_linked_keeps_ids(nodes, o, left[a].id);
        if b < at {
            assert(all[b].id != all[at].id);
        } else {
            assert(all[at].id != all[b].id);
        }
    }
    assert forall|a: int, b: int| 0 <= a < b < left.len() implies (#[trigger] left[a]).id != (
    #[trigger] left[b]).id by {
        let a2 = if a < at {
            a
        } else {
            a + 1
        };
        let b2 = if b < at {
            b
        } else {
            b + 1
        };
        assert(left[a] == all[a2]);
        assert(left[b] == all[b2]);
    }
}

/// A pass keeps the ids the content hashes of their events.
pub proof fn lemma_settle_content_addressed(
    nodes: Seq<NodeView>,
    kept: Seq<OrphanView>,
    pending: Seq<OrphanView>,
)
    requires
        forall|i: int| 0 <= i < nodes.len() ==> (#[trigger] nodes[i]).id == event_id(nodes[i].event),
        forall|a: int| 0 <= a < kept.len() ==> (#[trigger] kept[a]).id == event_id(kept[a].event),
        forall|a: int|
            0 <= a < pending.len() ==> (#[trigger] pending[a]).id == event_id(pending[a].event),
    ensures
        forall|i: int|
            0 <= i < settle(nodes, kept, pending).0.len() ==> (#[trigger] settle(
                nodes,
                kept,
                pending,
            ).0[i]).id == event_id(settle(nodes, kept, pending).0[i].event),
        forall|a: int|
            0 <= a < settle(nodes, kept, pending).1.len() ==> (#[trigger] settle(
                nodes,
                kept,
                pending,
            ).1[a]).id == event_id(settle(nodes, kept, pending).1[a].event),
    decreases pending.len(),
{
    if pending.len() > 0 {
        let o = pending[0];
        let rest = pending.drop_first();
        assert forall|a: int| 0 <= a < rest.len() implies (#[trigger] rest[a]).id == event_id(
            rest[a].event,
        ) by {
            assert(rest[a] == pending[a + 1]);
        }
        if has_id(nodes, o.event.previous_event_hash) {
            let next = linked(nodes, o);
            assert forall|i: int| 0 <= i < next.len() implies (#[trigger] next[i]).id == event_id(
                next[i].event,
            ) by {
                if i < nodes.len() {
                    assert(next[i] == nodes[i]);
                }
            }
            lemma_settle_content_addressed(next, kept, rest);
        } else {
            let more = kept.push(o);
            assert forall|a: int| 0 <= a < more.len() implies (#[trigger] more[a]).id == event_id(
                more[a].event,
            ) by {
                if a < kept.len() {
                    assert(more[a] == kept[a]);
                }
            }
            lemma_settle_content_addressed(nodes, more, rest);
        }
    }
}

/// An event whose id is new may wait behind the others.
pub proof fn lemma_with_orphan_wf(s: ModelView, id: Seq<u8>, event: EventView)
    requires
        s.wf(),
        id.len() == 32,
        !s.knows(id),
    ensures
        s.with_orphan(id, event).wf(),
{
    let more = s.with_orphan(id, event).orphans;
    assert forall|a: int, b: int| 0 <= a < b < more.len() implies (#[trigger] more[a]).id != (
    #[trigger] more[b]).id by {
        assert(more[a] == s.orphans[a]);
        if b < s.orphans.len() {
            assert(more[b] == s.orphans[b]);
        }
    }
    assert forall|a: int| 0 <= a < more.len() implies !has_id(s.nodes, (#[trigger] more[a]).id)
        && more[a].id.len() == 32 by {
        if a < s.orphans.len() {
            assert(more[a] == s.orphans[a]);
        }
    }
}

/// An event whose id is new and whose parent is linked may become a node.
pub proof fn lemma_with_node_wf(s: ModelView, id: Seq<u8>, event: EventView)
    requires
        s.wf(),
        id.len() == 32,
        !s.knows(id),
        has_id(s.nodes, event.previous_event_hash),
    ensures
        s.with_node(id, event).wf(),
{
    let o = OrphanView { id, event };
    lemma_linked_wf(s.nodes, o);
    assert forall|a: int| 0 <= a < s.orphans.len() implies !has_id(
        linked(s.nodes, o),
        (#[trigger] s.orphans[a]).id,
    ) by {
        lemma_linked_keeps_ids(s.nodes, o, s.orphans[a].id);
    }
}

/// Attaching an event under its content hash keeps a content-addressed
/// store content-addressed.
pub proof fn lemma_attach_content_addressed(s: ModelView, id: Seq<u8>, event: EventView)
    requires
        id == event_id(event),
    ensures
        s.content_addressed() ==> s.attach(id, event).content_addressed(),
{
    if s.content_addressed() && !s.knows(id) {
        if has_id(s.nodes, event.previous_event_hash) {
            let next = s.with_node(id, event).nodes;
            assert forall|i: int| 0 <= i < next.len() implies (#[trigger] next[i]).id == event_id(
                next[i].event,
            ) by {
                if i < s.nodes.len() {
                    assert(next[i] == s.nodes[i]);
                }
            }
            lemma_settle_content_addressed(next, Seq::empty(), s.orphans);
        } else {
            let more = s.with_orphan(id, event).orphans;
            assert forall|a: int| 0 <= a < more.len() implies (#[trigger] more[a]).id == event_id(
                more[a].event,
            ) by {
                if a < s.orphans.len() {
                    assert(more[a] == s.orphans[a]);
                }
            }
            lemma_settle_content_addressed(s.nodes, Seq::empty(), more);
        }
    }
}

} // verus!
