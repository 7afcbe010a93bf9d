//! What a reader of the log has been shown so far.

use crate::event::EventId;
use crate::fork_choice::id_less;
use crate::fork_choice::lemma_id_less_asymmetric;
use crate::fork_choice::lemma_id_less_total;
use crate::fork_choice::lemma_id_less_transitive;
use crate::graph::has_id;
use crate::graph::position;
use crate::graph::ModelView;
use crate::model::id_before;
use crate::model::same_id;
use crate::model::Model;
use vstd::prelude::*;
use vstd::view::View as _;

verus! {

/// The state of one reader: the ids of the events that were replayed to
/// it, each once, in the order of their replay.
#[derive(Debug)]
pub struct View {
    seen: Vec<EventId>,
}

/// The ids as byte strings, in their order.
pub open spec fn id_views(ids: Seq<EventId>) -> Seq<Seq<u8>> {
    Seq::new(ids.len(), |i: int| ids[i]@)
}

impl View {
    /// The ids that were replayed, in the order of their replay.
    pub closed spec fn seen(&self) -> Seq<Seq<u8>> {
        id_views(self.seen@)
    }

    /// No id was replayed twice.
    pub closed spec fn wf(&self) -> bool {
        forall|i: int, j: int|
            0 <= i < j < self.seen@.len() ==> (#[trigger] self.seen@[i])@ != (#[trigger] self.seen@[j])@
    }

    /// A reader that has been shown nothing yet.
    pub fn new() -> (view: View)
        ensures
            view.wf(),
            view.seen() == Seq::<Seq<u8>>::empty(),
    {
        let view = View { seen: Vec::new() };
        assert(view.seen() =~= Seq::<Seq<u8>>::empty());
        view
    }

    /// Whether the event with the id `id` was replayed to this reader.
    pub fn has_seen(&self, id: &EventId) -> (yes: bool)
        ensures
            yes == self.seen().contains(id@),
    {
        let mut i: usize = 0;
        while i < self.seen.len()
            invariant
                i <= self.seen@.len(),
                forall|j: int| 0 <= j < i ==> (#[trigger] self.seen()[j]) != id@,
            decreases self.seen@.len() - i,
        {
            if same_id(&self.seen[i], id) {
                assert(self.seen()[i as int] == id@);
                return true;
            }
            i = i + 1;
        }
        false
    }
}

/// The node at `a` is replayed before the node at `b`: it is earlier, or
/// as early with the smaller id.
pub open spec fn replays_before(s: ModelView, a: int, b: int) -> bool {
    let ta = s.nodes[a].event.timestamp;
    let tb = s.nodes[b].event.timestamp;
    ta < tb || (ta == tb && id_less(s.nodes[a].id, s.nodes[b].id))
}

/// The positions stand in the order of replay, none twice.
spec fn in_replay_order(s: ModelView, order: Seq<usize>) -> bool {
    forall|k: int, l: int|
        0 <= k < l < order.len() ==> replays_before(
            s,
            (#[trigger] order[k]) as int,
            (#[trigger] order[l]) as int,
        )
}

/// Whether the node at `a` is replayed before the node at `b`.
fn goes_before(model: &Model, a: usize, b: usize) -> (yes: bool)
    requires
        a < model@.nodes.len(),
        b < model@.nodes.len(),
    ensures
        yes == replays_before(model@, a as int, b as int),
{
    let ta: u64 = model.node(a).event.timestamp;
    let tb: u64 = model.node(b).event.timestamp;
    if ta != tb {
        return ta < tb;
    }
    id_before(&model.node(a).id, &model.node(b).id)
}

impl View {
    /// Replays to this reader the events of the store that it has not
    /// been shown yet, and remembers them. Gives their ids in the order of
    /// replay: by timestamp, and by id where timestamps are equal. The
    /// order depends on the nodes alone, not on how they arrived.
    pub fn process(&mut self, model: &Model) -> (fresh: Vec<EventId>)
        requires
            old(self).wf(),
            model.wf(),
        ensures
            final(self).wf(),
            final(self).seen() == old(self).seen() + id_views(fresh@),
            forall|k: int|
                0 <= k < fresh@.len() ==> has_id(model@.nodes, (#[trigger] fresh@[k])@)
                    && !old(self).seen().contains(fresh@[k]@),
            forall|i: int|
                0 <= i < model@.nodes.len() && !old(self).seen().contains(
                    (#[trigger] model@.nodes[i]).id,
                ) ==> id_views(fresh@).contains(model@.nodes[i].id),
            forall|k: int, l: int|
                0 <= k < l < fresh@.len() ==> replays_before(
                    model@,
                    position(model@.nodes, (#[trigger] fresh@[k])@),
                    position(model@.nodes, (#[trigger] fresh@[l])@),
                ),
    {
        proof {
            model.lemma_wf_view();
        }
        let n: usize = model.len();
        let mut order: Vec<usize> = Vec::new();
        let mut i: usize = 0;
        while i < n
            invariant
                model@.wf(),
                i <= n == model@.nodes.len(),
                in_replay_order(model@, order@),
                forall|k: int|
                    0 <= k < order@.len() ==> (#[trigger] order@[k]) < i && !self.seen().contains(
                        model@.nodes[order@[k] as int].id,
                    ),
                forall|j: int|
                    0 <= j < i && !self.seen().contains((#[trigger] model@.nodes[j]).id)
                        ==> order@.contains(j as usize),
            decreases n - i,
        {
            if !self.has_seen(&model.node(i).id) {
                let mut at: usize = 0;
                while at < order.len() && goes_before(model, order[at], i)
                    invariant
                        at <= order@.len(),
                        i < n == model@.nodes.len(),
                        forall|k: int| 0 <= k < order@.len() ==> (#[trigger] order@[k]) < i,
                        forall|k: int|
                            0 <= k < at ==> replays_before(
                                model@,
                                (#[trigger] order@[k]) as int,
                                i as int,
                            ),
                    decreases order@.len() - at,
                {
                    at = at + 1;
                }
                let ghost before = order@;
                order.insert(at, i);
                proof {
                    let s = model@;
                    assert forall|k: int, l: int| 0 <= k < l < order@.len() implies replays_before(
                        s,
                        (#[trigger] order@[k]) as int,
                        (#[trigger] order@[l]) as int,
                    ) by {
                        if l < at {
                            assert(order@[k] == before[k] && order@[l] == before[l]);
                        } else if l == at {
                            assert(order@[k] == before[k]);
                        } else if k == at {
                            let first = before[at as int];
                            assert(order@[l] == before[l - 1]);
                            assert(s.nodes[first as int].id != s.nodes[i as int].id);
                            lemma_id_less_total(s.nodes[first as int].id, s.nodes[i as int].id);
                            if l - 1 > at {
                                assert(replays_before(s, first as int, before[l - 1] as int));
                                if id_less(s.nodes[i as int].id, s.nodes[first as int].id)
                                    && id_less(
                                    s.nodes[first as int].id,
                                    s.nodes[before[l - 1] as int].id,
                                ) {
                                    lemma_id_less_transitive(
                                        s.nodes[i as int].id,
                                        s.nodes[first as int].id,
                                        s.nodes[before[l - 1] as int].id,
                                    );
                                }
                            }
                        } else if k < at {
                            assert(order@[k] == before[k] && order@[l] == before[l - 1]);
                        } else {
                            assert(order@[k] == before[k - 1] && order@[l] == before[l - 1]);
                        }
                    }
                    assert forall|k: int| 0 <= k < order@.len() implies (#[trigger] order@[k]) < i
                        + 1 && !self.seen().contains(s.nodes[order@[k] as int].id) by {
                        if k < at {
                            assert(order@[k] == before[k]);
                        } else if k > at {
                            assert(order@[k] == before[k - 1]);
                        }
                    }
                    assert forall|j: int|
                        0 <= j < i + 1 && !self.seen().contains(
                            (#[trigger] s.nodes[j]).id,
                        ) implies order@.contains(j as usize) by {
                        if j < i {
                            let k = choose|k: int| 0 <= k < before.len() && before[k] == j as usize;
                            if k < at {
                                assert(order@[k] == j as usize);
                            } else {
                                assert(order@[k + 1] == j as usize);
                            }
                        } else {
                            assert(order@[at as int] == i);
                        }
                    }
                }
            }
            i = i + 1;
        }
        let mut fresh: Vec<EventId> = Vec::new();
        let ghost earlier = self.seen();
        let mut k: usize = 0;
        proof {
            assert(id_views(fresh@) =~= Seq::<Seq<u8>>::empty());
            assert(earlier + id_views(fresh@) =~= earlier);
        }
        while k < order.len()
            invariant
                model@.wf(),
                k <= order@.len(),
                fresh@.len() == k,
                self.wf(),
                self.seen() == earlier + id_views(fresh@),
                in_replay_order(model@, order@),
                forall|m: int|
                    0 <= m < order@.len() ==> (#[trigger] order@[m]) < model@.nodes.len()
                        && !earlier.contains(model@.nodes[order@[m] as int].id),
                forall|m: int|
                    0 <= m < k ==> (#[trigger] fresh@[m])@ == model@.nodes[order@[m] as int].id,
            decreases order@.len() - k,
        {
            let at: usize = order[k];
            let id: EventId = model.node(at).id;
            let ghost seen_before = self.seen@;
            let ghost fresh_before = fresh@;
            fresh.push(id);
            self.seen.push(id);
            proof {
                let s = model@;
                assert(id_views(fresh@) =~= id_views(fresh_before).push(id@));
                assert(self.seen@ =~= seen_before.push(id));
                assert(id_views(self.seen@) =~= id_views(seen_before).push(id@));
                assert(self.seen() =~= earlier + id_views(fresh@));
                assert forall|a: int, b: int| 0 <= a < b < self.seen@.len() implies (
                #[trigger] self.seen@[a])@ != (#[trigger] self.seen@[b])@ by {
                    assert(self.seen@[a] == seen_before[a]);
                    if b < seen_before.len() {
                        assert(self.seen@[b] == seen_before[b]);
                    } else {
                        assert(id_views(seen_before)[a] == seen_before[a]@);
                        if a < earlier.len() {
                            assert(earlier[a] == seen_before[a]@);
                        } else {
                            let m = a - earlier.len();
                            assert(id_views(fresh_before)[m] == fresh_before[m]@);
                            assert(fresh_before[m]@ == s.nodes[order@[m] as int].id);
                            assert(replays_before(s, order@[m] as int, order@[k as int] as int));
                            lemma_id_less_asymmetric(id@, id@);
                        }
                    }
                }
            }
            k = k + 1;
        }
        proof {
            let s = model@;
            assert forall|m: int| 0 <= m < fresh@.len() implies has_id(
                s.nodes,
                (#[trigger] fresh@[m])@,
            ) && !earlier.contains(fresh@[m]@) && position(s.nodes, fresh@[m]@)
                == order@[m] as int by {
                let at = order@[m] as int;
                assert(s.nodes[at].id == fresh@[m]@);
                let p = position(s.nodes, fresh@[m]@);
                if p < at {
                    assert(s.nodes[p].id != s.nodes[at].id);
                } else if at < p {
                    assert(s.nodes[at].id != s.nodes[p].id);
                }
            }
            assert forall|j: int|
                0 <= j < s.nodes.len() && !earlier.contains(
                    (#[trigger] s.nodes[j]).id,
                ) implies id_views(fresh@).contains(s.nodes[j].id) by {
                let m = choose|m: int| 0 <= m < order@.len() && order@[m] == j as usize;
                assert(id_views(fresh@)[m] == s.nodes[j].id);
            }
        }
        fresh
    }
}

} // verus!
