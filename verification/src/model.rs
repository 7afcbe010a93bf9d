//! The event store: the linked nodes, the waiting events, and the
//! operations that hand events to it and read it.

use crate::clock::get_current_time;
use crate::clock::ClockError;
use crate::event::event_id;
use crate::event::ActionView;
use crate::event::Event;
use crate::event::EventAction;
use crate::event::EventId;
use crate::event::EventView;
use crate::event::PrivMsgEvent;
use crate::event::PrivMsgView;
use crate::fork_choice::id_less;
use crate::graph::buffer_wf;
use crate::graph::follows_parent;
use crate::graph::graph_wf;
use crate::graph::has_id;
use crate::graph::lemma_attach_content_addressed;
use crate::graph::lemma_linked_wf;
use crate::graph::lemma_settle_step_wf;
use crate::graph::lemma_with_node_wf;
use crate::graph::lemma_with_orphan_wf;
use crate::graph::linked;
use crate::graph::position;
use crate::graph::settle;
use crate::graph::waits;
use crate::graph::ModelView;
use crate::graph::NodeView;
use crate::graph::OrphanView;
use vstd::prelude::*;

verus! {

/// A node of the graph. `parent` and `children` name other nodes by their
/// position in the store; the children stand in order of arrival.
#[derive(Debug)]
pub struct EventNode {
    pub id: EventId,
    pub parent: Option<usize>,
    pub event: Event,
    pub children: Vec<usize>,
}

/// An event that waits for its parent.
#[derive(Debug)]
pub struct Orphan {
    pub id: EventId,
    pub event: Event,
}

/// The event store. It owns every node that was ever linked, in order of
/// arrival, and the events that still wait for their parent.
#[derive(Debug)]
pub struct Model {
    current_root: EventId,
    orphans: Vec<Orphan>,
    nodes: Vec<EventNode>,
}

impl View for EventNode {
    type V = NodeView;

    open spec fn view(&self) -> NodeView {
        NodeView {
            id: self.id@,
            parent: match self.parent {
                Some(p) => Some(p as int),
                None => None,
            },
            event: self.event@,
        }
    }
}

impl View for Orphan {
    type V = OrphanView;

    open spec fn view(&self) -> OrphanView {
        OrphanView { id: self.id@, event: self.event@ }
    }
}

/// The views of the nodes, in their order.
spec fn node_views(nodes: Seq<EventNode>) -> Seq<NodeView> {
    Seq::new(nodes.len(), |i: int| nodes[i]@)
}

/// The views of the waiting events, in their order.
spec fn orphan_views(orphans: Seq<Orphan>) -> Seq<OrphanView> {
    Seq::new(orphans.len(), |a: int| orphans[a]@)
}

/// The list `children` holds, in rising order, exactly the positions of
/// the nodes that name `p` as their parent.
pub open spec fn lists_children(nodes: Seq<NodeView>, p: int, children: Seq<usize>) -> bool {
    &&& forall|k: int|
        0 <= k < children.len() ==> p < (#[trigger] children[k]) < nodes.len()
            && nodes[children[k] as int].parent == Some(p)
    &&& forall|k: int, l: int|
        0 <= k < l < children.len() ==> (#[trigger] children[k]) < (#[trigger] children[l])
    &&& forall|c: int|
        0 <= c < nodes.len() && (#[trigger] nodes[c]).parent == Some(p) ==> children.contains(
            c as usize,
        )
}

/// Every node lists its children.
spec fn children_listed(nodes: Seq<EventNode>) -> bool {
    forall|p: int|
        0 <= p < nodes.len() ==> lists_children(node_views(nodes), p, (#[trigger] nodes[p]).children@)
}

/// The two ids hold the same bytes.
pub fn same_id(a: &EventId, b: &EventId) -> (same: bool)
    ensures
        same == (a@ == b@),
{
    let mut k: usize = 0;
    while k < 32
        invariant
            k <= 32,
            forall|j: int| 0 <= j < k ==> a@[j] == b@[j],
        decreases 32 - k,
    {
        if a[k] != b[k] {
            return false;
        }
        k = k + 1;
    }
    assert(a@ =~= b@);
    true
}

impl View for Model {
    type V = ModelView;

    closed spec fn view(&self) -> ModelView {
        ModelView {
            root: self.current_root@,
            nodes: node_views(self.nodes@),
            orphans: orphan_views(self.orphans@),
        }
    }
}

impl Model {
    /// The store holds a well-formed graph, and every node lists its
    /// children.
    pub closed spec fn wf(&self) -> bool {
        &&& self@.wf()
        &&& children_listed(self.nodes@)
    }

    /// A well-formed store has a well-formed view.
    pub proof fn lemma_wf_view(&self)
        requires
            self.wf(),
        ensures
            self@.wf(),
    {
    }

    /// A store whose only node is the root `event`, known by `id`.
    pub fn from_root(id: EventId, event: Event) -> (model: Model)
        ensures
            model.wf(),
            model@ == ModelView::initial(id@, event@),
    {
        let root = EventNode { id, parent: None, event, children: Vec::new() };
        let mut nodes: Vec<EventNode> = Vec::new();
        nodes.push(root);
        let model = Model { current_root: id, orphans: Vec::new(), nodes };
        proof {
            let v = model@;
            assert(v.nodes =~= seq![NodeView { id: id@, parent: None, event: event@ }]);
            assert(v.orphans =~= Seq::<OrphanView>::empty());
            assert(lists_children(v.nodes, 0, model.nodes@[0].children@));
        }
        model
    }

    /// How many nodes are linked.
    pub fn len(&self) -> (n: usize)
        ensures
            n == self@.nodes.len(),
    {
        self.nodes.len()
    }

    /// How many events wait for their parent.
    pub fn orphan_count(&self) -> (n: usize)
        ensures
            n == self@.orphans.len(),
    {
        self.orphans.len()
    }

    /// The id of the root.
    pub fn root_id(&self) -> (id: EventId)
        ensures
            id@ == self@.root,
    {
        self.current_root
    }

    /// The node at position `i`.
    pub fn node(&self, i: usize) -> (node: &EventNode)
        requires
            i < self@.nodes.len(),
        ensures
            node@ == self@.nodes[i as int],
            self.wf() ==> lists_children(self@.nodes, i as int, node.children@),
    {
        if i < self.nodes.len() {
            assert(self.wf() ==> lists_children(
                node_views(self.nodes@),
                i as int,
                self.nodes@[i as int].children@,
            ));
        }
        &self.nodes[i]
    }

    /// Where the node with the id `id` stands, if one is linked.
    pub fn find(&self, id: &EventId) -> (found: Option<usize>)
        ensures
            found is Some <==> has_id(self@.nodes, id@),
            found matches Some(i) ==> i < self@.nodes.len() && self@.nodes[i as int].id == id@,
            self.wf() && found is Some ==> found->Some_0 == position(self@.nodes, id@),
    {
        let mut i: usize = 0;
        while i < self.nodes.len()
            invariant
                i <= self.nodes.len(),
                forall|j: int| 0 <= j < i ==> (#[trigger] self@.nodes[j]).id != id@,
            decreases self.nodes.len() - i,
        {
            if same_id(&self.nodes[i].id, id) {
                assert(self@.nodes[i as int].id == id@);
                return Some(i);
            }
            i = i + 1;
        }
        None
    }

    /// Whether an event with the id `id` waits for its parent.
    pub fn is_orphan(&self, id: &EventId) -> (found: bool)
        ensures
            found == waits(self@.orphans, id@),
    {
        let mut a: usize = 0;
        while a < self.orphans.len()
            invariant
                a <= self.orphans.len(),
                forall|b: int| 0 <= b < a ==> (#[trigger] self@.orphans[b]).id != id@,
            decreases self.orphans.len() - a,
        {
            if same_id(&self.orphans[a].id, id) {
                assert(self@.orphans[a as int].id == id@);
                return true;
            }
            a = a + 1;
        }
        false
    }
}

impl Model {
    /// Links the waiting event `o` below the node at position `p`, which
    /// carries the id that the event follows.
    fn link(&mut self, p: usize, o: Orphan)
        requires
            old(self).wf(),
            p < old(self)@.nodes.len(),
            old(self)@.nodes[p as int].id == o@.event.previous_event_hash,
            !has_id(old(self)@.nodes, o@.id),
        ensures
            final(self)@.nodes == linked(old(self)@.nodes, o@),
            final(self)@.orphans == old(self)@.orphans,
            final(self)@.root == old(self)@.root,
            graph_wf(final(self)@.nodes),
            children_listed(final(self).nodes@),
    {
        let at: usize = self.nodes.len();
        let ghost before = self.nodes@;
        let ghost views = node_views(before);
        let ghost ov = o@;
        proof {
            assert(views[p as int].id == ov.event.previous_event_hash);
            assert(has_id(views, ov.event.previous_event_hash));
            let q = position(views, ov.event.previous_event_hash);
            assert(q == p) by {
                if q < p {
                    assert(views[q].id != views[p as int].id);
                } else if p < q {
                    assert(views[p as int].id != views[q].id);
                }
            }
            lemma_linked_wf(views, ov);
        }
        let node = EventNode { id: o.id, parent: Some(p), event: o.event, children: Vec::new() };
        self.nodes.push(node);
        self.nodes[p].children.push(at);
        proof {
            let after = self.nodes@;
            let now = node_views(after);
            assert(now =~= linked(views, ov));
            assert forall|r: int| 0 <= r < after.len() implies lists_children(
                now,
                r,
                (#[trigger] after[r]).children@,
            ) by {
                let list = after[r].children@;
                if r == at {
                    assert(list =~= Seq::<usize>::empty());
                    assert forall|c: int| 0 <= c < now.len() implies (#[trigger] now[c]).parent
                        != Some(r) by {
                        if c > 0 {
                            assert(follows_parent(now, c));
                        }
                    }
                } else {
                    let was = before[r].children@;
                    assert(lists_children(views, r, was));
                    if r == p {
                        assert(list =~= was.push(at));
                        assert forall|k: int| 0 <= k < list.len() implies r < (
                        #[trigger] list[k]) < now.len() && now[list[k] as int].parent == Some(
                            r,
                        ) by {
                            if k < was.len() {
                                assert(list[k] == was[k]);
                                assert(now[was[k] as int] == views[was[k] as int]);
                            }
                        }
                        assert forall|k: int, l: int| 0 <= k < l < list.len() implies (
                        #[trigger] list[k]) < (#[trigger] list[l]) by {
                            assert(list[k] == was[k]);
                            if l < was.len() {
                                assert(list[l] == was[l]);
                            }
                        }
                        assert forall|c: int|
                            0 <= c < now.len() && (#[trigger] now[c]).parent == Some(
                                r,
                            ) implies list.contains(c as usize) by {
                            if c < at {
                                assert(views[c].parent == Some(r));
                                let k = choose|k: int| 0 <= k < was.len() && was[k] == c as usize;
                                assert(list[k] == c as usize);
                            } else {
                                assert(list[was.len() as int] == at);
                            }
                        }
                    } else {
                        assert(list =~= was);
                        assert forall|k: int| 0 <= k < list.len() implies r < (
                        #[trigger] list[k]) < now.len() && now[list[k] as int].parent == Some(
                            r,
                        ) by {
                            assert(now[was[k] as int] == views[was[k] as int]);
                        }
                        assert forall|c: int|
                            0 <= c < now.len() && (#[trigger] now[c]).parent == Some(
                                r,
                            ) implies list.contains(c as usize) by {
                            assert(c < at);
                            assert(views[c].parent == Some(r));
                        }
                    }
                }
            }
            assert(orphan_views(self.orphans@) =~= old(self)@.orphans);
        }
    }
}

/// The event that every store starts from, made at the time `timestamp`.
pub open spec fn genesis_view(timestamp: u64) -> EventView {
    EventView {
        previous_event_hash: Seq::new(32, |i: int| 0u8),
        action: ActionView::PrivMsg(PrivMsgView { nick: "root"@, msg: "Let there be dark"@ }),
        timestamp,
    }
}

/// The event that every store starts from, made at the time `timestamp`:
/// it follows the id of all zero bytes.
pub fn genesis_event(timestamp: u64) -> (e: Event)
    ensures
        e@ == genesis_view(timestamp),
{
    let e = Event {
        previous_event_hash: [0u8; 32],
        action: EventAction::PrivMsg(
            PrivMsgEvent { nick: "root".to_owned(), msg: "Let there be dark".to_owned() },
        ),
        timestamp,
    };
    assert(e.previous_event_hash@ =~= Seq::new(32, |i: int| 0u8));
    e
}

impl Model {
    /// A new store. Its root is the genesis event, made now. There is no
    /// store where the clock gives no timestamp.
    pub fn new() -> (made: Result<Model, ClockError>)
        ensures
            made matches Ok(model) ==> {
                &&& model.wf()
                &&& model@.content_addressed()
                &&& model@ == ModelView::initial(
                    event_id(genesis_view(model@.nodes[0].event.timestamp)),
                    genesis_view(model@.nodes[0].event.timestamp),
                )
            },
    {
        match get_current_time() {
            Ok(now) => Ok(Model::with_genesis_time(now)),
            Err(e) => Err(e),
        }
    }

    /// A new store whose root is the genesis event made at `timestamp`.
    pub fn with_genesis_time(timestamp: u64) -> (model: Model)
        ensures
            model.wf(),
            model@.content_addressed(),
            model@ == ModelView::initial(
                event_id(genesis_view(timestamp)),
                genesis_view(timestamp),
            ),
    {
        let event = genesis_event(timestamp);
        let id = event.hash();
        Model::from_root(id, event)
    }

    /// Hands `event` to the store: computes its id and attaches it.
    pub fn add(&mut self, event: Event)
        requires
            old(self).wf(),
        ensures
            final(self).wf(),
            final(self)@ == old(self)@.attach(event_id(event@), event@),
            old(self)@.content_addressed() ==> final(self)@.content_addressed(),
    {
        let id = event.hash();
        proof {
            lemma_attach_content_addressed(self@, id@, event@);
        }
        self.attach(id, event);
    }

    /// Hands `event`, known by `id`, to the store. An id that the store has
    /// seen, linked or waiting, changes nothing. Any other event becomes a
    /// node at once where its parent is linked, and waits behind the others
    /// where not. Then one pass is made over the waiting events, which
    /// links those that waited for the new node.
    pub fn attach(&mut self, id: EventId, event: Event)
        requires
            old(self).wf(),
        ensures
            final(self).wf(),
            final(self)@ == old(self)@.attach(id@, event@),
    {
        if self.find(&id).is_some() || self.is_orphan(&id) {
            return ;
        }
        let ghost before = self@;
        match self.find(&event.previous_event_hash) {
            Some(p) => {
                proof {
                    lemma_with_node_wf(before, id@, event@);
                }
                self.link(p, Orphan { id, event });
                assert(self@ == before.with_node(id@, event@));
            },
            None => {
                proof {
                    lemma_with_orphan_wf(before, id@, event@);
                }
                self.orphans.push(Orphan { id, event });
                assert(self@.orphans =~= before.with_orphan(id@, event@).orphans);
                assert(self@ == before.with_orphan(id@, event@));
            },
        }
        self.reorganize();
    }

    /// Makes one pass over the waiting events, first to last. An event
    /// whose parent is linked when the pass reaches it becomes a node below
    /// that parent; any other waits on, in its place among those that wait.
    pub fn reorganize(&mut self)
        requires
            old(self).wf(),
        ensures
            final(self).wf(),
            final(self)@ == old(self)@.reorganize(),
    {
        let ghost start = self@;
        let ghost all = self.orphans@;
        let mut pending: Vec<Orphan> = Vec::new();
        core::mem::swap(&mut self.orphans, &mut pending);
        let total: usize = pending.len();
        let mut stack: Vec<Orphan> = Vec::new();
        while pending.len() > 0
            invariant
                pending@.len() + stack@.len() == total == all.len(),
                pending@ == all.subrange(0, pending@.len() as int),
                forall|k: int| 0 <= k < stack@.len() ==> stack@[k] == all[total - 1 - k],
            decreases pending@.len(),
        {
            let o = pending.pop().unwrap();
            stack.push(o);
        }
        let mut kept: Vec<Orphan> = Vec::new();
        proof {
            assert(orphan_views(all).skip(0) =~= orphan_views(all));
            assert(orphan_views(kept@) =~= Seq::<OrphanView>::empty());
            assert(orphan_views(kept@) + orphan_views(all) =~= orphan_views(all));
            assert(orphan_views(self.orphans@) =~= Seq::<OrphanView>::empty());
        }
        while stack.len() > 0
            invariant
                stack@.len() <= total == all.len(),
                forall|k: int| 0 <= k < stack@.len() ==> stack@[k] == all[total - 1 - k],
                self.orphans@.len() == 0,
                self@.root == start.root,
                start.nodes.len() > 0,
                self@.nodes[0].id == start.root,
                graph_wf(self@.nodes),
                children_listed(self.nodes@),
                buffer_wf(
                    self@.nodes,
                    orphan_views(kept@) + orphan_views(all).skip(total - stack@.len()),
                ),
                settle(start.nodes, Seq::empty(), orphan_views(all)) == settle(
                    self@.nodes,
                    orphan_views(kept@),
                    orphan_views(all).skip(total - stack@.len()),
                ),
            decreases stack@.len(),
        {
            let ghost at = total - stack@.len();
            let ghost rest = orphan_views(all).skip(at);
            let ghost held = orphan_views(kept@);
            let ghost nodes_now = self@.nodes;
            let o = stack.pop().unwrap();
            proof {
                assert(o == all[at]);
                assert(rest[0] == o@);
                assert(rest.drop_first() =~= orphan_views(all).skip(at + 1));
                assert((held + rest)[held.len() as int] == o@);
                assert(orphan_views(self.orphans@) =~= Seq::<OrphanView>::empty());
            }
            match self.find(&o.event.previous_event_hash) {
                Some(p) => {
                    proof {
                        assert(!has_id(nodes_now, o@.id));
                        lemma_settle_step_wf(nodes_now, held, rest);
                    }
                    self.link(p, o);
                },
                None => {
                    let ghost ov = o@;
                    kept.push(o);
                    proof {
                        assert(orphan_views(kept@) =~= held.push(ov));
                        assert(held.push(ov) + rest.drop_first() =~= held + rest);
                    }
                },
            }
        }
        proof {
            assert(orphan_views(all).skip(total as int) =~= Seq::<OrphanView>::empty());
            assert(orphan_views(kept@) + Seq::<OrphanView>::empty() =~= orphan_views(kept@));
        }
        self.orphans = kept;
    }
}

/// Whether the id `a` comes before the id `b`, byte by byte from the front.
pub fn id_before(a: &EventId, b: &EventId) -> (before: bool)
    ensures
        before == id_less(a@, b@),
{
    let mut k: usize = 0;
    assert(a@.skip(0) =~= a@ && b@.skip(0) =~= b@);
    while k < 32
        invariant
            k <= 32,
            id_less(a@, b@) == id_less(a@.skip(k as int), b@.skip(k as int)),
        decreases 32 - k,
    {
        proof {
            assert(a@.skip(k as int).drop_first() =~= a@.skip(k + 1));
            assert(b@.skip(k as int).drop_first() =~= b@.skip(k + 1));
            assert(a@.skip(k as int)[0] == a@[k as int]);
            assert(b@.skip(k as int)[0] == b@[k as int]);
        }
        if a[k] != b[k] {
            return a[k] < b[k];
        }
        k = k + 1;
    }
    false
}

impl Model {
    /// The root.
    pub fn get_root(&self) -> (root: &EventNode)
        requires
            self.wf(),
        ensures
            root@ == self@.nodes[0],
            root@.id == self@.root,
            root@.parent is None,
            lists_children(self@.nodes, 0, root.children@),
    {
        self.node(0)
    }

    /// The children of the node at position `i`, in order of arrival.
    pub fn children(&self, i: usize) -> (list: &Vec<usize>)
        requires
            self.wf(),
            i < self@.nodes.len(),
        ensures
            lists_children(self@.nodes, i as int, list@),
            list@.len() == 0 <==> self@.is_leaf(i as int),
    {
        let list = &self.nodes[i].children;
        proof {
            assert(lists_children(self@.nodes, i as int, self.nodes@[i as int].children@));
            if list@.len() > 0 {
                let c = list@[0];
                assert(self@.nodes[c as int].parent == Some(i as int));
            }
        }
        list
    }

    /// How many edges lie between the root and the node at position
    /// `node`, counted by walking up the parent links.
    pub fn find_height(&self, node: usize) -> (height: usize)
        requires
            self.wf(),
            node < self@.nodes.len(),
        ensures
            height == self@.depth(node as int),
    {
        let mut at: usize = node;
        let mut height: usize = 0;
        proof {
            self@.lemma_depth_bound(node as int);
        }
        while at != 0
            invariant
                self.wf(),
                at <= node < self@.nodes.len(),
                height + self@.depth(at as int) == self@.depth(node as int),
                self@.depth(node as int) <= node,
            decreases at,
        {
            assert(follows_parent(self@.nodes, at as int));
            match self.nodes[at].parent {
                Some(p) => {
                    height = height + 1;
                    at = p;
                },
                None => {
                    assert(false);
                },
            }
        }
        height
    }

    /// How many steps the nodes at `node_a` and `node_b` have to walk up
    /// their parent links, side by side, until they meet. Both must lie
    /// equally deep: else one of them would pass the root before they meet.
    pub fn find_ancestor_depth(&self, node_a: usize, node_b: usize) -> (steps: usize)
        requires
            self.wf(),
            node_a < self@.nodes.len(),
            node_b < self@.nodes.len(),
            self@.depth(node_a as int) == self@.depth(node_b as int),
        ensures
            self@.ancestor(node_a as int, steps as nat) == self@.ancestor(node_b as int, steps as nat),
            forall|k: nat|
                k < steps ==> self@.ancestor(node_a as int, k) != self@.ancestor(node_b as int, k),
            steps <= self@.depth(node_a as int),
    {
        let mut a: usize = node_a;
        let mut b: usize = node_b;
        let mut steps: usize = 0;
        proof {
            self@.lemma_depth_bound(node_a as int);
        }
        while a != b
            invariant
                self.wf(),
                a < self@.nodes.len(),
                b < self@.nodes.len(),
                a == self@.ancestor(node_a as int, steps as nat),
                b == self@.ancestor(node_b as int, steps as nat),
                self@.depth(a as int) == self@.depth(b as int),
                steps + self@.depth(a as int) == self@.depth(node_a as int),
                self@.depth(node_a as int) <= node_a,
                forall|k: nat|
                    k < steps ==> self@.ancestor(node_a as int, k) != self@.ancestor(
                        node_b as int,
                        k,
                    ),
            decreases self@.depth(a as int),
        {
            proof {
                self@.lemma_depth_bound(a as int);
                self@.lemma_depth_bound(b as int);
                if a == 0 {
                    assert(b > 0);
                    assert(follows_parent(self@.nodes, b as int));
                }
                if b == 0 {
                    assert(follows_parent(self@.nodes, a as int));
                }
                assert(follows_parent(self@.nodes, a as int));
                assert(follows_parent(self@.nodes, b as int));
                self@.lemma_ancestor_step(node_a as int, steps as nat);
                self@.lemma_ancestor_step(node_b as int, steps as nat);
                reveal_with_fuel(ModelView::ancestor, 2);
                assert(self@.ancestor(a as int, 1) == self@.nodes[a as int].parent->Some_0);
                assert(self@.ancestor(b as int, 1) == self@.nodes[b as int].parent->Some_0);
            }
            let up_a: usize = match self.nodes[a].parent {
                Some(p) => p,
                None => a,
            };
            let up_b: usize = match self.nodes[b].parent {
                Some(p) => p,
                None => b,
            };
            a = up_a;
            b = up_b;
            steps = steps + 1;
        }
        steps
    }
}

/// The tables of the search hold, for the node at `x`, the preferred leaf
/// below it and how many edges lie between the two.
spec fn settled(s: ModelView, node: int, x: int, best: Seq<usize>, reach: Seq<usize>) -> bool {
    &&& s.best_in_subtree(x, best[x - node] as int)
    &&& reach[x - node] + s.depth(x) == s.depth(best[x - node] as int)
}

impl Model {
    /// Whether the node at `a`, `reach_a` edges below some node, is
    /// preferred to the node at `b`, `reach_b` edges below the same node.
    fn prefers(&self, a: usize, reach_a: usize, b: usize, reach_b: usize) -> (yes: bool)
        requires
            a < self@.nodes.len(),
            b < self@.nodes.len(),
        ensures
            yes == (reach_a > reach_b || (reach_a == reach_b && (self@.nodes[a as int].event.timestamp
                > self@.nodes[b as int].event.timestamp || (self@.nodes[a as int].event.timestamp
                == self@.nodes[b as int].event.timestamp && id_less(
                self@.nodes[b as int].id,
                self@.nodes[a as int].id,
            ))))),
    {
        if reach_a != reach_b {
            return reach_a > reach_b;
        }
        let ta: u64 = self.nodes[a].event.timestamp;
        let tb: u64 = self.nodes[b].event.timestamp;
        if ta != tb {
            return ta > tb;
        }
        id_before(&self.nodes[b].id, &self.nodes[a].id)
    }

    /// Finds the preferred leaf among the node at `node` and the nodes
    /// below it. Gives the depth of that leaf, counted from `i` at `node`,
    /// and its position.
    ///
    /// The search walks the nodes from the last back to `node`. A node
    /// without children is its own answer. Any other node takes the
    /// answers of its children, each one edge further away, and keeps the
    /// preferred one.
    pub fn find_longest_chain(&self, node: usize, i: usize) -> (found: (usize, usize))
        requires
            self.wf(),
            node < self@.nodes.len(),
            forall|l: int|
                self@.is_leaf(l) && #[trigger] self@.in_subtree(node as int, l) ==> i + self@.depth(
                    l,
                ) - self@.depth(node as int) <= usize::MAX,
        ensures
            self@.best_in_subtree(node as int, found.1 as int),
            found.0 == i + self@.depth(found.1 as int) - self@.depth(node as int),
    {
        let n: usize = self.nodes.len();
        let span: usize = n - node;
        let mut best: Vec<usize> = Vec::new();
        let mut reach: Vec<usize> = Vec::new();
        let mut filled: usize = 0;
        while filled < span
            invariant
                filled <= span,
                best@.len() == filled,
                reach@.len() == filled,
            decreases span - filled,
        {
            best.push(0);
            reach.push(0);
            filled = filled + 1;
        }
        let mut j: usize = n;
        while j > node
            invariant
                self.wf(),
                node <= j <= n == self@.nodes.len(),
                span == n - node,
                best@.len() == span,
                reach@.len() == span,
                forall|x: int| j <= x < n ==> #[trigger] settled(self@, node as int, x, best@, reach@),
            decreases j,
        {
            j = j - 1;
            let kids = self.children(j);
            let mut leaf: usize = j;
            let mut far: usize = 0;
            if kids.len() > 0 {
                let first: usize = kids[0];
                proof {
                    assert(settled(self@, node as int, first as int, best@, reach@));
                    self@.lemma_depth_bound(best@[first - node] as int);
                    self@.lemma_subtree_of_child(j as int, first as int, best@[first - node] as int);
                }
                leaf = best[first - node];
                far = reach[first - node] + 1;
                let mut k: usize = 1;
                while k < kids.len()
                    invariant
                        self.wf(),
                        node <= j < n == self@.nodes.len(),
                        span == n - node,
                        best@.len() == span,
                        reach@.len() == span,
                        forall|x: int|
                            j < x < n ==> #[trigger] settled(self@, node as int, x, best@, reach@),
                        lists_children(self@.nodes, j as int, kids@),
                        1 <= k <= kids@.len(),
                        self@.is_leaf(leaf as int),
                        self@.in_subtree(j as int, leaf as int),
                        far + self@.depth(j as int) == self@.depth(leaf as int),
                        forall|l: int, m: int|
                            0 <= m < k && self@.is_leaf(l) && #[trigger] self@.in_subtree(
                                kids@[m] as int,
                                l,
                            ) && l != leaf ==> self@.outranks(leaf as int, l),
                    decreases kids@.len() - k,
                {
                    let kid: usize = kids[k];
                    proof {
                        assert(settled(self@, node as int, kid as int, best@, reach@));
                        self@.lemma_depth_bound(best@[kid - node] as int);
                        self@.lemma_subtree_of_child(
                            j as int,
                            kid as int,
                            best@[kid - node] as int,
                        );
                    }
                    let cand: usize = best[kid - node];
                    let cand_far: usize = reach[kid - node] + 1;
                    let ghost old_leaf = leaf;
                    let better = self.prefers(cand, cand_far, leaf, far);
                    proof {
                        assert(better == self@.outranks(cand as int, leaf as int));
                        if better {
                            assert forall|l: int, m: int|
                                0 <= m < k + 1 && self@.is_leaf(l) && #[trigger] self@.in_subtree(
                                    kids@[m] as int,
                                    l,
                                ) && l != cand implies self@.outranks(cand as int, l) by {
                                if m < k {
                                    if l != old_leaf {
                                        self@.lemma_outranks_transitive(
                                            cand as int,
                                            old_leaf as int,
                                            l,
                                        );
                                    }
                                }
                            }
                        } else {
                            assert forall|l: int, m: int|
                                0 <= m < k + 1 && self@.is_leaf(l) && #[trigger] self@.in_subtree(
                                    kids@[m] as int,
                                    l,
                                ) && l != old_leaf implies self@.outranks(old_leaf as int, l) by {
                                if m == k && cand != old_leaf {
                                    self@.lemma_wf_nodes();
                                    self@.lemma_outranks_total(cand as int, old_leaf as int);
                                    if l != cand {
                                        self@.lemma_outranks_transitive(
                                            old_leaf as int,
                                            cand as int,
                                            l,
                                        );
                                    }
                                }
                            }
                        }
                    }
                    if better {
                        leaf = cand;
                        far = cand_far;
                    }
                    k = k + 1;
                }
                proof {
                    assert(self@.nodes[first as int].parent == Some(j as int));
                    assert(!self@.is_leaf(j as int));
                    assert forall|l: int|
                        #![trigger self@.in_subtree(j as int, l)]
                        self@.is_leaf(l) && self@.in_subtree(j as int, l) && l
                            != leaf implies self@.outranks(leaf as int, l) by {
                        let c = self@.lemma_subtree_through_child(j as int, l);
                        assert(kids@.contains(c as usize));
                        let m = choose|m: int| 0 <= m < kids@.len() && kids@[m] == c as usize;
                        assert(self@.in_subtree(kids@[m] as int, l));
                    }
                }
            } else {
                assert(self@.in_subtree(j as int, j as int));
                assert forall|l: int|
                    #![trigger self@.in_subtree(j as int, l)]
                    self@.is_leaf(l) && self@.in_subtree(j as int, l) && l != j implies self@.outranks(
                    j as int,
                    l,
                ) by {
                    let c = self@.lemma_subtree_through_child(j as int, l);
                }
            }
            let ghost old_best = best@;
            let ghost old_reach = reach@;
            best[j - node] = leaf;
            reach[j - node] = far;
            proof {
                assert forall|x: int| j <= x < n implies #[trigger] settled(
                    self@,
                    node as int,
                    x,
                    best@,
                    reach@,
                ) by {
                    if x > j {
                        assert(settled(self@, node as int, x, old_best, old_reach));
                    }
                }
            }
        }
        proof {
            assert(settled(self@, node as int, node as int, best@, reach@));
            self@.lemma_subtree_below(node as int, best@[0] as int);
        }
        (i + reach[0], best[0])
    }

    /// The position of the head: the preferred leaf of the whole graph.
    pub fn head_position(&self) -> (h: usize)
        requires
            self.wf(),
        ensures
            self@.is_head(h as int),
            h == self@.head(),
    {
        let total: usize = self.nodes.len();
        proof {
            assert forall|l: int| self@.is_leaf(l) && #[trigger] self@.in_subtree(0, l) implies 0
                + self@.depth(l) - self@.depth(0) <= usize::MAX by {
                self@.lemma_depth_bound(l);
                assert(l < total);
            }
        }
        let found = self.find_longest_chain(0, 0);
        proof {
            self@.lemma_wf_nodes();
            self@.lemma_best_below_root_is_head(found.1 as int);
            self@.lemma_head_unique(found.1 as int, self@.head());
        }
        found.1
    }

    /// The head: the leaf that lies deepest below the root. Among equally
    /// deep leaves the later timestamp decides, then the greater id.
    pub fn find_head(&self) -> (head: &EventNode)
        requires
            self.wf(),
        ensures
            self@.is_head(self@.head()),
            head@ == self@.nodes[self@.head()],
            head.children@.len() == 0,
    {
        let h = self.head_position();
        let head = self.node(h);
        proof {
            if head.children@.len() > 0 {
                let c = head.children@[0];
                assert(self@.nodes[c as int].parent == Some(h as int));
            }
        }
        head
    }
}

impl Model {
    /// Forgets the oldest waiting events, so that at most `keep` are left.
    /// The store never drops a waiting event by itself: how many may wait
    /// is for the caller to say, and to enforce with this call.
    pub fn trim_orphans(&mut self, keep: usize)
        requires
            old(self).wf(),
        ensures
            final(self).wf(),
            final(self)@ == old(self)@.without_oldest_orphans(keep as nat),
    {
        let waiting: usize = self.orphans.len();
        if waiting > keep {
            let ghost before = self.orphans@;
            let kept = self.orphans.split_off(waiting - keep);
            self.orphans = kept;
            proof {
                let cut = (waiting - keep) as int;
                let was = orphan_views(before);
                let now = orphan_views(self.orphans@);
                assert(now =~= was.subrange(cut, was.len() as int));
                assert forall|a: int| 0 <= a < now.len() implies (#[trigger] now[a]) == was[a
                    + cut] by {}
                assert forall|a: int, b: int| 0 <= a < b < now.len() implies (#[trigger] now[a]).id
                    != (#[trigger] now[b]).id by {
                    assert(now[a] == was[a + cut] && now[b] == was[b + cut]);
                }
                assert forall|a: int| 0 <= a < now.len() implies !has_id(
                    self@.nodes,
                    (#[trigger] now[a]).id,
                ) && now[a].id.len() == 32 by {
                    assert(now[a] == was[a + cut]);
                }
            }
        }
    }
}

} // verus!
