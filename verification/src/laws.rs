//! What holds of the library as a whole, each statement proved from the
//! definitions that the contracts of the functions use.

use crate::event::event_bytes;
use crate::event::event_id;
use crate::event::lemma_decode_encode;
use crate::event::parse_event;
use crate::event::well_formed;
use crate::event::EventView;
use crate::graph::follows_parent;
use crate::graph::graph_wf;
use crate::graph::has_id;
use crate::graph::lemma_linked_keeps_ids;
use crate::graph::lemma_settle_ids;
use crate::graph::lemma_settle_wf;
use crate::graph::lemma_with_node_wf;
use crate::graph::lemma_with_orphan_wf;
use crate::graph::linked;
use crate::graph::settle;
use crate::graph::waits;
use crate::graph::ModelView;
use crate::graph::NodeView;
use crate::graph::OrphanView;
use crate::wire::FormatError;
use vstd::prelude::*;

verus! {

/// Decoding gives back what was encoded: the canonical bytes of a
/// well-formed event read as that event, and as no other.
pub proof fn round_trip(e: EventView)
    requires
        well_formed(e),
    ensures
        parse_event(event_bytes(e)) == Ok::<EventView, FormatError>(e),
{
    lemma_decode_encode(e);
}

/// The id of an event depends on its canonical bytes alone: events with
/// the same bytes have the same id, whenever and wherever it is computed.
pub proof fn id_follows_bytes(a: EventView, b: EventView)
    requires
        event_bytes(a) == event_bytes(b),
    ensures
        event_id(a) == event_id(b),
{
}

/// A pass keeps a well-formed store well formed, keeps the root, and
/// keeps every node where it stands.
pub proof fn reorganize_keeps_wf(s: ModelView)
    requires
        s.wf(),
    ensures
        s.reorganize().wf(),
        s.reorganize().root == s.root,
        s.nodes.len() <= s.reorganize().nodes.len(),
        forall|i: int| 0 <= i < s.nodes.len() ==> (#[trigger] s.reorganize().nodes[i]) == s.nodes[i],
{
    assert(Seq::<OrphanView>::empty() + s.orphans =~= s.orphans);
    lemma_settle_wf(s.nodes, Seq::empty(), s.orphans);
    assert(s.reorganize().nodes[0] == s.nodes[0]);
}

/// Attaching an event keeps a well-formed store well formed: the root
/// stays in the index, no id occurs twice, and every node but the root
/// hangs below the node whose id its event follows.
pub proof fn attach_keeps_wf(s: ModelView, id: Seq<u8>, event: EventView)
    requires
        s.wf(),
        id.len() == 32,
    ensures
        s.attach(id, event).wf(),
        s.attach(id, event).root == s.root,
        s.nodes.len() <= s.attach(id, event).nodes.len(),
        forall|i: int|
            0 <= i < s.nodes.len() ==> (#[trigger] s.attach(id, event).nodes[i]) == s.nodes[i],
{
    if !s.knows(id) {
        if has_id(s.nodes, event.previous_event_hash) {
            let next = s.with_node(id, event);
            lemma_with_node_wf(s, id, event);
            reorganize_keeps_wf(next);
            assert forall|i: int| 0 <= i < s.nodes.len() implies (#[trigger] s.attach(
                id,
                event,
            ).nodes[i]) == s.nodes[i] by {
                assert(next.nodes[i] == s.nodes[i]);
            }
        } else {
            lemma_with_orphan_wf(s, id, event);
            reorganize_keeps_wf(s.with_orphan(id, event));
        }
    }
}

/// Attaching is idempotent: handing the same event to the store a second
/// time changes nothing.
pub proof fn attach_is_idempotent(s: ModelView, id: Seq<u8>, event: EventView)
    ensures
        s.attach(id, event).attach(id, event) == s.attach(id, event),
{
    if !s.knows(id) {
        if has_id(s.nodes, event.previous_event_hash) {
            let next = s.with_node(id, event);
            lemma_linked_keeps_ids(s.nodes, OrphanView { id, event }, id);
            lemma_settle_keeps_nodes(next.nodes, Seq::empty(), next.orphans, id);
        } else {
            let more = s.with_orphan(id, event);
            assert(more.orphans[s.orphans.len() as int].id == id);
            assert(waits(more.orphans, id));
            assert(Seq::<OrphanView>::empty() + more.orphans =~= more.orphans);
            lemma_settle_ids(s.nodes, Seq::empty(), more.orphans, id);
        }
        assert(s.attach(id, event).knows(id));
    }
}

/// An event that the store knows, linked or waiting, is not attached
/// again: the store stays as it is.
pub proof fn known_event_changes_nothing(s: ModelView, id: Seq<u8>, event: EventView)
    requires
        s.knows(id),
    ensures
        s.attach(id, event) == s,
{
}

/// A pass over a buffer with one more event at its end is the pass over
/// the buffer, followed by the look at that one event.
pub proof fn lemma_settle_last(
    nodes: Seq<NodeView>,
    kept: Seq<OrphanView>,
    pending: Seq<OrphanView>,
    o: OrphanView,
)
    ensures
        settle(nodes, kept, pending.push(o)) == (if has_id(
            settle(nodes, kept, pending).0,
            o.event.previous_event_hash,
        ) {
            (linked(settle(nodes, kept, pending).0, o), settle(nodes, kept, pending).1)
        } else {
            (settle(nodes, kept, pending).0, settle(nodes, kept, pending).1.push(o))
        }),
    decreases pending.len(),
{
    let longer = pending.push(o);
    if pending.len() == 0 {
        assert(longer.drop_first() =~= pending);
        assert(longer[0] == o);
        reveal_with_fuel(settle, 2);
    } else {
        assert(longer[0] == pending[0]);
        assert(longer.drop_first() =~= pending.drop_first().push(o));
        if has_id(nodes, pending[0].event.previous_event_hash) {
            lemma_settle_last(linked(nodes, pending[0]), kept, pending.drop_first(), o);
        } else {
            lemma_settle_last(nodes, kept.push(pending[0]), pending.drop_first(), o);
        }
    }
}

/// What attaching an event comes to whose id is new and whose parent is
/// not linked: one pass over the events that waited before, and then
/// either a new node below the parent, where that pass linked the parent,
/// or one more waiting event.
pub proof fn attach_unfolded(s: ModelView, id: Seq<u8>, event: EventView)
    requires
        !s.knows(id),
        !has_id(s.nodes, event.previous_event_hash),
    ensures
        s.attach(id, event) == (if has_id(s.reorganize().nodes, event.previous_event_hash) {
            s.reorganize().with_node(id, event)
        } else {
            s.reorganize().with_orphan(id, event)
        }),
{
    lemma_settle_last(s.nodes, Seq::empty(), s.orphans, OrphanView { id, event });
}

/// An event that arrives before its parent waits: where the store knows
/// neither the event nor the id that it follows, attaching the event puts
/// it behind the waiting events and links no node for it.
pub proof fn child_before_parent_waits(s: ModelView, id: Seq<u8>, event: EventView)
    requires
        !s.knows(id),
        !s.knows(event.previous_event_hash),
    ensures
        s.attach(id, event) == s.reorganize().with_orphan(id, event),
        waits(s.attach(id, event).orphans, id),
{
    attach_unfolded(s, id, event);
    assert(Seq::<OrphanView>::empty() + s.orphans =~= s.orphans);
    lemma_settle_ids(s.nodes, Seq::empty(), s.orphans, event.previous_event_hash);
    let after = s.reorganize().with_orphan(id, event);
    assert(after.orphans[s.reorganize().orphans.len() as int].id == id);
}

/// Some node carries the id `id` and holds the event `event`.
pub open spec fn holds_node(nodes: Seq<NodeView>, id: Seq<u8>, event: EventView) -> bool {
    exists|i: int| 0 <= i < nodes.len() && (#[trigger] nodes[i]).id == id && nodes[i].event == event
}

/// The event `event`, known by `id`, is a node, and its parent link leads
/// to the node that carries the id `parent_id`.
pub open spec fn hangs_below(
    nodes: Seq<NodeView>,
    id: Seq<u8>,
    event: EventView,
    parent_id: Seq<u8>,
) -> bool {
    exists|i: int, p: int|
        0 <= p < i < nodes.len() && (#[trigger] nodes[i]).id == id && nodes[i].event == event
            && nodes[i].parent == Some(p) && (#[trigger] nodes[p]).id == parent_id
}

/// In a well-formed store, a node that is not the root hangs below the
/// node whose id its event follows.
pub proof fn lemma_node_hangs_below_parent(s: ModelView, id: Seq<u8>, event: EventView)
    requires
        s.wf(),
        holds_node(s.nodes, id, event),
        id != s.root,
    ensures
        hangs_below(s.nodes, id, event, event.previous_event_hash),
{
    let i = choose|i: int|
        0 <= i < s.nodes.len() && (#[trigger] s.nodes[i]).id == id && s.nodes[i].event == event;
    assert(follows_parent(s.nodes, i));
    let p = s.nodes[i].parent->Some_0;
    assert(s.nodes[p].id == event.previous_event_hash);
}

/// A pass unlinks nothing: a node stays a node.
pub proof fn lemma_settle_keeps_nodes(
    nodes: Seq<NodeView>,
    kept: Seq<OrphanView>,
    pending: Seq<OrphanView>,
    id: Seq<u8>,
)
    requires
        has_id(nodes, id),
    ensures
        has_id(settle(nodes, kept, pending).0, id),
    decreases pending.len(),
{
    if pending.len() > 0 {
        let o = pending[0];
        if has_id(nodes, o.event.previous_event_hash) {
            lemma_linked_keeps_ids(nodes, o, id);
            lemma_settle_keeps_nodes(linked(nodes, o), kept, pending.drop_first(), id);
        } else {
            lemma_settle_keeps_nodes(nodes, kept.push(o), pending.drop_first(), id);
        }
    }
}

/// A pass keeps what a node holds.
pub proof fn lemma_settle_keeps_held(
    nodes: Seq<NodeView>,
    kept: Seq<OrphanView>,
    pending: Seq<OrphanView>,
    id: Seq<u8>,
    event: EventView,
)
    requires
        holds_node(nodes, id, event),
    ensures
        holds_node(settle(nodes, kept, pending).0, id, event),
    decreases pending.len(),
{
    if pending.len() > 0 {
        let o = pending[0];
        if has_id(nodes, o.event.previous_event_hash) {
            let i = choose|i: int|
                0 <= i < nodes.len() && (#[trigger] nodes[i]).id == id && nodes[i].event == event;
            assert(linked(nodes, o)[i] == nodes[i]);
            lemma_settle_keeps_held(linked(nodes, o), kept, pending.drop_first(), id, event);
        } else {
            lemma_settle_keeps_held(nodes, kept.push(o), pending.drop_first(), id, event);
        }
    }
}

/// In a pass, a waiting event whose parent is linked before the pass
/// starts becomes a node.
pub proof fn lemma_settle_links_ready(
    nodes: Seq<NodeView>,
    kept: Seq<OrphanView>,
    pending: Seq<OrphanView>,
    a: int,
)
    requires
        0 <= a < pending.len(),
        has_id(nodes, pending[a].event.previous_event_hash),
    ensures
        holds_node(settle(nodes, kept, pending).0, pending[a].id, pending[a].event),
    decreases pending.len(),
{
    let o = pending[0];
    let rest = pending.drop_first();
    let wanted = pending[a];
    if a == 0 {
        let next = linked(nodes, o);
        assert(next[nodes.len() as int].id == o.id && next[nodes.len() as int].event == o.event);
        lemma_settle_keeps_held(next, kept, rest, o.id, o.event);
    } else {
        assert(rest[a - 1] == wanted);
        if has_id(nodes, o.event.previous_event_hash) {
            lemma_linked_keeps_ids(nodes, o, wanted.event.previous_event_hash);
            lemma_settle_links_ready(linked(nodes, o), kept, rest, a - 1);
        } else {
            lemma_settle_links_ready(nodes, kept.push(o), rest, a - 1);
        }
    }
}

/// An event whose parent is linked becomes a node below that parent as
/// soon as it is attached.
pub proof fn child_after_parent_is_linked(s: ModelView, id: Seq<u8>, event: EventView)
    requires
        s.wf(),
        id.len() == 32,
        !s.knows(id),
        has_id(s.nodes, event.previous_event_hash),
    ensures
        s.attach(id, event) == s.with_node(id, event).reorganize(),
        hangs_below(s.attach(id, event).nodes, id, event, event.previous_event_hash),
        !waits(s.attach(id, event).orphans, id),
{
    let next = s.with_node(id, event);
    let after = s.attach(id, event);
    attach_keeps_wf(s, id, event);
    assert(next.nodes[s.nodes.len() as int].id == id && next.nodes[s.nodes.len() as int].event
        == event);
    lemma_settle_keeps_held(next.nodes, Seq::empty(), next.orphans, id, event);
    lemma_known_is_not_root(s, after, id);
    lemma_node_hangs_below_parent(after, id, event);
    lemma_linked_is_not_waiting(after, id, event);
}

/// An id that a store did not know is not the id of its root, nor of the
/// root of a store that grew from it.
proof fn lemma_known_is_not_root(s: ModelView, after: ModelView, id: Seq<u8>)
    requires
        s.wf(),
        !s.knows(id),
        after.root == s.root,
    ensures
        id != after.root,
{
    assert(s.nodes[0].id == s.root);
}

/// In a well-formed store, what is a node does not wait.
proof fn lemma_linked_is_not_waiting(s: ModelView, id: Seq<u8>, event: EventView)
    requires
        s.wf(),
        holds_node(s.nodes, id, event),
    ensures
        has_id(s.nodes, id),
        !waits(s.orphans, id),
{
    let i = choose|i: int|
        0 <= i < s.nodes.len() && (#[trigger] s.nodes[i]).id == id && s.nodes[i].event == event;
    assert(s.nodes[i].id == id);
}

/// A waiting event whose parent is linked is made a node by the next
/// pass, whoever causes that pass.
pub proof fn waiting_child_is_linked_by_next_pass(s: ModelView, a: int)
    requires
        0 <= a < s.orphans.len(),
        has_id(s.nodes, s.orphans[a].event.previous_event_hash),
    ensures
        holds_node(s.reorganize().nodes, s.orphans[a].id, s.orphans[a].event),
{
    lemma_settle_links_ready(s.nodes, Seq::empty(), s.orphans, a);
}

/// The arrival of a parent resolves the children that wait for it: when
/// an event is attached whose own parent is linked, every event that
/// waits for it becomes a node below it in the same call, and waits no
/// longer. Nobody has to hand the children in again.
pub proof fn parent_resolves_waiting_children(
    s: ModelView,
    parent_id: Seq<u8>,
    parent: EventView,
    a: int,
)
    requires
        s.wf(),
        parent_id.len() == 32,
        !s.knows(parent_id),
        has_id(s.nodes, parent.previous_event_hash),
        0 <= a < s.orphans.len(),
        s.orphans[a].event.previous_event_hash == parent_id,
    ensures
        ({
            let after = s.attach(parent_id, parent);
            &&& after.wf()
            &&& hangs_below(after.nodes, parent_id, parent, parent.previous_event_hash)
            &&& hangs_below(after.nodes, s.orphans[a].id, s.orphans[a].event, parent_id)
            &&& !waits(after.orphans, s.orphans[a].id)
        }),
{
    let child = s.orphans[a];
    let next = s.with_node(parent_id, parent);
    let after = s.attach(parent_id, parent);
    attach_keeps_wf(s, parent_id, parent);
    child_after_parent_is_linked(s, parent_id, parent);
    assert(next.nodes[s.nodes.len() as int].id == parent_id);
    assert(has_id(next.nodes, parent_id));
    lemma_settle_links_ready(next.nodes, Seq::empty(), next.orphans, a);
    assert(waits(s.orphans, child.id));
    lemma_known_is_not_root_of_waiting(s, after, a);
    lemma_node_hangs_below_parent(after, child.id, child.event);
    lemma_linked_is_not_waiting(after, child.id, child.event);
}

/// The id of a waiting event is not the id of the root.
proof fn lemma_known_is_not_root_of_waiting(s: ModelView, after: ModelView, a: int)
    requires
        s.wf(),
        0 <= a < s.orphans.len(),
        after.root == s.root,
    ensures
        s.orphans[a].id != after.root,
{
    assert(s.nodes[0].id == s.root);
    assert(!has_id(s.nodes, s.orphans[a].id));
}

/// A child that arrives before its parent: it waits. When the parent is
/// attached, whose own parent is linked, the parent becomes a node and the
/// child becomes a node below it, in that same call; nothing of the two
/// waits on, and nobody has handed the child in again.
pub proof fn orphan_resolution(
    s: ModelView,
    child_id: Seq<u8>,
    child: EventView,
    parent_id: Seq<u8>,
    parent: EventView,
)
    requires
        s.wf(),
        child_id.len() == 32,
        parent_id.len() == 32,
        child_id != parent_id,
        child.previous_event_hash == parent_id,
        !s.knows(child_id),
        !s.knows(parent_id),
        has_id(s.nodes, parent.previous_event_hash),
    ensures
        ({
            let first = s.attach(child_id, child);
            let second = first.attach(parent_id, parent);
            &&& waits(first.orphans, child_id) && !has_id(first.nodes, child_id)
            &&& second.wf()
            &&& hangs_below(second.nodes, parent_id, parent, parent.previous_event_hash)
            &&& hangs_below(second.nodes, child_id, child, parent_id)
            &&& !waits(second.orphans, child_id) && !waits(second.orphans, parent_id)
        }),
{
    let first = s.attach(child_id, child);
    child_before_parent_waits(s, child_id, child);
    attach_keeps_wf(s, child_id, child);
    assert(Seq::<OrphanView>::empty() + s.orphans =~= s.orphans);
    lemma_settle_ids(s.nodes, Seq::empty(), s.orphans, parent_id);
    lemma_settle_ids(s.nodes, Seq::empty(), s.orphans, child_id);
    let at = s.reorganize().orphans.len() as int;
    assert(first.orphans[at] == OrphanView { id: child_id, event: child });
    assert(!first.knows(parent_id)) by {
        if waits(first.orphans, parent_id) {
            let b = choose|b: int|
                0 <= b < first.orphans.len() && (#[trigger] first.orphans[b]).id == parent_id;
            if b < at {
                assert(first.orphans[b] == s.reorganize().orphans[b]);
            }
        }
    }
    lemma_settle_keeps_nodes(s.nodes, Seq::empty(), s.orphans, parent.previous_event_hash);
    parent_resolves_waiting_children(first, parent_id, parent, at);
    let second = first.attach(parent_id, parent);
    child_after_parent_is_linked(first, parent_id, parent);
}

/// On a store where nothing waits, a parent and its child may arrive in
/// either order: the store is the same afterwards, and so is its head.
pub proof fn parent_and_child_in_either_order(
    s: ModelView,
    child_id: Seq<u8>,
    child: EventView,
    parent_id: Seq<u8>,
    parent: EventView,
)
    requires
        s.wf(),
        s.orphans.len() == 0,
        child_id.len() == 32,
        parent_id.len() == 32,
        child_id != parent_id,
        child.previous_event_hash == parent_id,
        !s.knows(child_id),
        !s.knows(parent_id),
        has_id(s.nodes, parent.previous_event_hash),
    ensures
        s.attach(child_id, child).attach(parent_id, parent) == s.attach(parent_id, parent).attach(
            child_id,
            child,
        ),
        s.attach(child_id, child).attach(parent_id, parent).nodes == linked(
            linked(s.nodes, OrphanView { id: parent_id, event: parent }),
            OrphanView { id: child_id, event: child },
        ),
        s.attach(child_id, child).attach(parent_id, parent).orphans.len() == 0,
{
    reveal_with_fuel(settle, 3);
    let c = OrphanView { id: child_id, event: child };
    let p = OrphanView { id: parent_id, event: parent };
    let none = Seq::<OrphanView>::empty();
    assert(s.orphans =~= none);
    let with_parent = linked(s.nodes, p);
    let both = linked(with_parent, c);
    lemma_linked_keeps_ids(s.nodes, p, parent_id);
    lemma_linked_keeps_ids(s.nodes, p, child_id);
    // The child first: it waits, and the parent's arrival links both.
    let waiting = s.orphans.push(c);
    assert(waiting[0] == c);
    assert(waiting.drop_first() =~= none);
    assert(none.push(c) =~= waiting);
    let first = s.attach(child_id, child);
    assert(first.nodes == s.nodes);
    assert(first.orphans =~= waiting);
    assert(!waits(first.orphans, parent_id));
    assert(first.attach(parent_id, parent).nodes == both);
    assert(first.attach(parent_id, parent).orphans =~= none);
    // The parent first: each is linked as it arrives.
    let other = s.attach(parent_id, parent);
    assert(other.nodes == with_parent);
    assert(other.orphans =~= none);
    assert(!waits(other.orphans, child_id));
    assert(other.attach(child_id, child).nodes == both);
    assert(other.attach(child_id, child).orphans =~= none);
}

/// The preferred leaf among the first `n` nodes, or -1 where none of them
/// is a leaf.
spec fn best_leaf_upto(s: ModelView, n: int) -> int
    decreases n,
{
    if n <= 0 {
        -1
    } else {
        let before = best_leaf_upto(s, n - 1);
        if s.is_leaf(n - 1) && (before < 0 || s.outranks(n - 1, before)) {
            n - 1
        } else {
            before
        }
    }
}

/// The preferred leaf among the first `n` nodes is a leaf among them, and
/// preferred to every other leaf among them.
proof fn lemma_best_leaf_upto(s: ModelView, n: int)
    requires
        graph_wf(s.nodes),
        0 <= n <= s.nodes.len(),
    ensures
        -1 <= best_leaf_upto(s, n) < n,
        best_leaf_upto(s, n) >= 0 ==> s.is_leaf(best_leaf_upto(s, n)),
        forall|l: int|
            #![trigger s.is_leaf(l)]
            0 <= l < n && s.is_leaf(l) ==> best_leaf_upto(s, n) >= 0 && (l == best_leaf_upto(s, n)
                || s.outranks(best_leaf_upto(s, n), l)),
    decreases n,
{
    if n > 0 {
        lemma_best_leaf_upto(s, n - 1);
        let before = best_leaf_upto(s, n - 1);
        let now = best_leaf_upto(s, n);
        assert forall|l: int| #![trigger s.is_leaf(l)] 0 <= l < n && s.is_leaf(l) implies now >= 0
            && (l == now || s.outranks(now, l)) by {
            if l < n - 1 {
                if now != before && l != before {
                    s.lemma_outranks_transitive(now, before, l);
                }
            } else if now != n - 1 {
                s.lemma_outranks_total(n - 1, before);
            }
        }
    }
}

/// Every well-formed store has a head, and only one.
pub proof fn head_exists(s: ModelView)
    requires
        s.wf(),
    ensures
        s.is_head(s.head()),
        0 <= s.head() < s.nodes.len(),
{
    let n = s.nodes.len() as int;
    lemma_best_leaf_upto(s, n);
    let last = n - 1;
    assert(s.is_leaf(last)) by {
        assert forall|c: int| 0 <= c < n implies (#[trigger] s.nodes[c]).parent != Some(last) by {
            if c > 0 {
                assert(follows_parent(s.nodes, c));
            }
        }
    }
    let h = best_leaf_upto(s, n);
    assert(s.is_head(h));
}

/// A new store has one node, the root, and the root is its head.
pub proof fn fresh_store_head_is_root(id: Seq<u8>, event: EventView)
    requires
        id.len() == 32,
    ensures
        ModelView::initial(id, event).wf(),
        ModelView::initial(id, event).is_head(0),
        ModelView::initial(id, event).head() == 0,
        ModelView::initial(id, event).nodes[0].id == ModelView::initial(id, event).root,
{
    let s = ModelView::initial(id, event);
    assert(s.is_leaf(0));
    assert(s.is_head(0));
    s.lemma_head_unique(0, s.head());
}

/// The deeper leaf wins: a leaf that lies deeper than every other leaf is
/// the head.
pub proof fn deepest_leaf_is_head(s: ModelView, a: int)
    requires
        s.is_leaf(a),
        forall|l: int| #![trigger s.is_leaf(l)] s.is_leaf(l) && l != a ==> s.depth(l) < s.depth(a),
    ensures
        s.is_head(a),
        s.head() == a,
{
    assert(s.is_head(a));
    s.lemma_head_unique(a, s.head());
}

/// The tie-break: of two leaves that lie equally deep, and deeper than
/// every other leaf, the one with the later timestamp is the head.
pub proof fn later_timestamp_wins(s: ModelView, a: int, b: int)
    requires
        s.is_leaf(a),
        s.is_leaf(b),
        s.depth(a) == s.depth(b),
        s.nodes[a].event.timestamp > s.nodes[b].event.timestamp,
        forall|l: int|
            #![trigger s.is_leaf(l)]
            s.is_leaf(l) && l != a && l != b ==> s.depth(l) < s.depth(a),
    ensures
        s.is_head(a),
        s.head() == a,
        !s.is_head(b),
{
    assert(s.outranks(a, b));
    assert(s.is_head(a));
    s.lemma_head_unique(a, s.head());
    s.lemma_outranks_asymmetric(a, b);
}

/// Among equally deep leaves, one with an earlier timestamp than another
/// is never the head.
pub proof fn earlier_timestamp_loses(s: ModelView, a: int, b: int)
    requires
        s.is_leaf(a),
        s.is_leaf(b),
        s.depth(a) == s.depth(b),
        s.nodes[a].event.timestamp > s.nodes[b].event.timestamp,
    ensures
        !s.is_head(b),
{
    s.lemma_outranks_asymmetric(a, b);
}

/// Some node of the store holds the event `e`.
pub open spec fn holds_event(s: ModelView, e: EventView) -> bool {
    exists|i: int| 0 <= i < s.nodes.len() && (#[trigger] s.nodes[i]).event == e
}

/// The two stores hold the same events in their nodes.
pub open spec fn same_events(a: ModelView, b: ModelView) -> bool {
    forall|e: EventView| #[trigger] holds_event(a, e) <==> holds_event(b, e)
}

/// The node of `b` that holds the event of the node at `i` in `a`.
spec fn twin(a: ModelView, b: ModelView, i: int) -> int {
    choose|j: int| 0 <= j < b.nodes.len() && (#[trigger] b.nodes[j]).event == a.nodes[i].event
}

/// In stores that hold the same events, every node has a twin with the
/// same event and the same id, and only one.
proof fn lemma_twin(a: ModelView, b: ModelView, i: int)
    requires
        a.wf(),
        b.wf(),
        a.content_addressed(),
        b.content_addressed(),
        same_events(a, b),
        0 <= i < a.nodes.len(),
    ensures
        0 <= twin(a, b, i) < b.nodes.len(),
        b.nodes[twin(a, b, i)].event == a.nodes[i].event,
        b.nodes[twin(a, b, i)].id == a.nodes[i].id,
        forall|j: int|
            0 <= j < b.nodes.len() && (#[trigger] b.nodes[j]).id == a.nodes[i].id ==> j == twin(
                a,
                b,
                i,
            ),
{
    assert(holds_event(a, a.nodes[i].event));
    assert(holds_event(b, a.nodes[i].event));
    let t = twin(a, b, i);
    assert forall|j: int| 0 <= j < b.nodes.len() && (#[trigger] b.nodes[j]).id
        == a.nodes[i].id implies j == t by {
        if j < t {
            assert(b.nodes[j].id != b.nodes[t].id);
        } else if t < j {
            assert(b.nodes[t].id != b.nodes[j].id);
        }
    }
}

/// Twins lie equally deep, and the twin of a twin is the node itself.
proof fn lemma_twin_depth(a: ModelView, b: ModelView, i: int)
    requires
        a.wf(),
        b.wf(),
        a.content_addressed(),
        b.content_addressed(),
        a.root == b.root,
        same_events(a, b),
        0 <= i < a.nodes.len(),
    ensures
        a.depth(i) == b.depth(twin(a, b, i)),
        twin(b, a, twin(a, b, i)) == i,
        i == 0 <==> twin(a, b, i) == 0,
        i > 0 ==> b.nodes[twin(a, b, i)].parent == Some(twin(a, b, a.nodes[i].parent->Some_0)),
    decreases i,
{
    let t = twin(a, b, i);
    lemma_twin(a, b, i);
    lemma_twin(b, a, t);
    lemma_twin(a, b, 0);
    lemma_twin(b, a, 0);
    if i > 0 {
        assert(follows_parent(a.nodes, i));
        let p = a.nodes[i].parent->Some_0;
        lemma_twin(a, b, p);
        lemma_twin_depth(a, b, p);
        assert(t != 0) by {
            if t == 0 {
                assert(a.nodes[0].id != a.nodes[i].id);
            }
        }
        assert(follows_parent(b.nodes, t));
        let q = b.nodes[t].parent->Some_0;
        assert(b.nodes[q].id == a.nodes[p].id);
    } else {
        assert(t == 0);
    }
}

/// Determinism: two well-formed, content-addressed stores with the same
/// root that hold the same events pick the same head, whatever the order
/// was in which the events arrived at each of them.
pub proof fn head_ignores_arrival_order(a: ModelView, b: ModelView)
    requires
        a.wf(),
        b.wf(),
        a.content_addressed(),
        b.content_addressed(),
        a.root == b.root,
        same_events(a, b),
    ensures
        a.is_head(a.head()),
        b.is_head(b.head()),
        a.nodes[a.head()].id == b.nodes[b.head()].id,
        a.nodes[a.head()].event == b.nodes[b.head()].event,
{
    head_exists(a);
    head_exists(b);
    let g = a.head();
    let t = twin(a, b, g);
    lemma_twin(a, b, g);
    lemma_twin_depth(a, b, g);
    lemma_twin_leaf(a, b, g);
    assert forall|l: int| #![trigger b.is_leaf(l)] b.is_leaf(l) && l != t implies b.outranks(
        t,
        l,
    ) by {
        let k = twin(b, a, l);
        lemma_twin(b, a, l);
        lemma_twin_depth(b, a, l);
        lemma_twin_leaf(b, a, l);
        assert(k != g);
        assert(a.outranks(g, k));
    }
    assert(b.is_head(t));
    b.lemma_head_unique(t, b.head());
}

/// The twin of a leaf is a leaf.
proof fn lemma_twin_leaf(a: ModelView, b: ModelView, i: int)
    requires
        a.wf(),
        b.wf(),
        a.content_addressed(),
        b.content_addressed(),
        a.root == b.root,
        same_events(a, b),
        a.is_leaf(i),
    ensures
        b.is_leaf(twin(a, b, i)),
{
    let t = twin(a, b, i);
    lemma_twin(a, b, i);
    lemma_twin_depth(a, b, i);
    assert forall|c: int| 0 <= c < b.nodes.len() implies (#[trigger] b.nodes[c]).parent != Some(
        t,
    ) by {
        if b.nodes[c].parent == Some(t) {
            lemma_twin(b, a, c);
            lemma_twin_depth(b, a, c);
            let k = twin(b, a, c);
            assert(c > 0);
            assert(a.nodes[k].parent == Some(twin(b, a, t)));
            assert(a.nodes[k].parent == Some(i));
        }
    }
}

} // verus!
