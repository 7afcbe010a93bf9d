use event_graph::event::create_message;
use event_graph::event::Event;
use event_graph::event::EventId;
use event_graph::model::genesis_event;
use event_graph::model::id_before;
use event_graph::model::same_id;
use event_graph::model::Model;

fn message(parent: EventId, nick: &str, timestamp: u64) -> (Event, EventId) {
    let e = create_message(parent, nick, "message", timestamp);
    let id = e.hash();
    (e, id)
}

fn id(first: u8) -> EventId {
    let mut out = [0u8; 32];
    out[0] = first;
    out
}

#[test]
fn a_new_store_has_the_genesis_as_root_and_head() {
    let model = Model::new().unwrap();
    assert_eq!(model.len(), 1);
    assert_eq!(model.orphan_count(), 0);
    let root = model.get_root();
    assert_eq!(root.id, model.root_id());
    assert_eq!(root.id, root.event.hash());
    assert_eq!(root.parent, None);
    assert!(root.children.is_empty());
    assert_eq!(root.event.previous_event_hash, [0u8; 32]);
    assert_eq!(model.find_head().id, root.id);
    assert_eq!(model.head_position(), 0);
}

#[test]
fn genesis_event_is_fixed_but_for_its_time() {
    let expected: [u8; 32] = [
        241, 84, 81, 36, 227, 29, 47, 182, 152, 212, 54, 11, 99, 76, 198, 250, 133, 222, 84, 159,
        166, 225, 25, 112, 2, 25, 109, 189, 208, 7, 196, 107,
    ];
    assert_eq!(genesis_event(1000), create_message([0u8; 32], "root", "Let there be dark", 1000));
    let model = Model::with_genesis_time(1000);
    assert_eq!(model.root_id(), expected);
    assert_eq!(model.get_root().event.timestamp, 1000);
}

#[test]
fn the_longest_chain_gives_the_head() {
    let mut model = Model::with_genesis_time(10);
    let g = model.root_id();
    let t = 11;
    let (a, _a_id) = message(g, "alice", t);
    let (b, b_id) = message(g, "bob", t);
    let (c, c_id) = message(g, "charlie", t);
    model.add(a);
    model.add(b);
    model.add(c);
    let (d, d_id) = message(b_id, "delta", t);
    model.add(d);
    assert_eq!(model.find_head().id, d_id);
    let (e, e_id) = message(c_id, "epsilon", t);
    model.add(e);
    let (f, f_id) = message(e_id, "phi", t);
    model.add(f);
    assert_eq!(model.find_head().id, f_id);
    assert_eq!(model.find_head().event.hash(), f_id);
    assert_eq!(model.len(), 7);
    assert_eq!(model.orphan_count(), 0);
    let head = model.head_position();
    assert_eq!(model.find_height(head), 3);
    assert_eq!(model.find_longest_chain(0, 0), (3, head));
    assert_eq!(model.find_longest_chain(0, 5), (8, head));
    let d_at = model.find(&d_id).unwrap();
    let b_at = model.find(&b_id).unwrap();
    assert_eq!(model.find_longest_chain(b_at, 1), (2, d_at));
    assert_eq!(model.find_longest_chain(d_at, 7), (7, d_at));
}

#[test]
fn attaching_twice_is_attaching_once() {
    let mut once = Model::with_genesis_time(10);
    let mut twice = Model::with_genesis_time(10);
    let g = once.root_id();
    let (a, a_id) = message(g, "alice", 11);
    let (orphan, orphan_id) = message([9u8; 32], "lost", 12);
    once.add(a.clone());
    once.add(orphan.clone());
    twice.add(a.clone());
    twice.add(a);
    twice.add(orphan.clone());
    twice.add(orphan);
    assert_eq!(once.len(), 2);
    assert_eq!(twice.len(), 2);
    assert_eq!(once.orphan_count(), 1);
    assert_eq!(twice.orphan_count(), 1);
    assert_eq!(twice.get_root().children, vec![1]);
    assert_eq!(twice.node(1).id, a_id);
    assert!(twice.is_orphan(&orphan_id));
    assert!(!twice.is_orphan(&a_id));
    assert_eq!(once.find_head().id, twice.find_head().id);
}

#[test]
fn a_child_waits_and_the_arrival_of_its_parent_links_it() {
    let mut model = Model::with_genesis_time(10);
    let g = model.root_id();
    let (parent, parent_id) = message(g, "parent", 11);
    let (child, child_id) = message(parent_id, "child", 12);
    model.add(child);
    assert_eq!(model.len(), 1);
    assert_eq!(model.orphan_count(), 1);
    assert!(model.is_orphan(&child_id));
    assert_eq!(model.find(&child_id), None);
    assert_eq!(model.find_head().id, g);
    model.add(parent);
    assert_eq!(model.orphan_count(), 0);
    assert_eq!(model.len(), 3);
    assert_eq!(model.find(&parent_id), Some(1));
    assert_eq!(model.find(&child_id), Some(2));
    assert!(!model.is_orphan(&child_id));
    assert_eq!(model.node(1).parent, Some(0));
    assert_eq!(model.node(2).parent, Some(1));
    assert_eq!(model.node(1).children, vec![2]);
    assert_eq!(model.find_head().id, child_id);
    assert_eq!(model.find_head().event.hash(), child_id);
    assert_eq!(model.find_height(model.head_position()), 2);
}

#[test]
fn a_parent_and_its_child_may_arrive_in_either_order() {
    let root = genesis_event(10);
    let root_id = root.hash();
    let (parent, parent_id) = message(root_id, "parent", 11);
    let (child, child_id) = message(parent_id, "child", 12);
    let mut one = Model::from_root(root_id, root.clone());
    one.add(child.clone());
    one.add(parent.clone());
    let mut other = Model::from_root(root_id, root);
    other.add(parent);
    other.add(child);
    assert_eq!(one.find_head().id, child_id);
    assert_eq!(other.find_head().id, child_id);
    assert_eq!(one.len(), other.len());
    assert_eq!(one.orphan_count(), 0);
    assert_eq!(other.orphan_count(), 0);
    for at in 0..one.len() {
        assert_eq!(one.node(at).id, other.node(at).id);
        assert_eq!(one.node(at).parent, other.node(at).parent);
        assert_eq!(one.node(at).event, other.node(at).event);
        assert_eq!(one.node(at).children, other.node(at).children);
    }
}

#[test]
fn the_arrival_of_a_parent_links_all_its_waiting_children() {
    let mut model = Model::with_genesis_time(10);
    let g = model.root_id();
    let (parent, parent_id) = message(g, "parent", 11);
    let (first, first_id) = message(parent_id, "first", 12);
    let (second, second_id) = message(parent_id, "second", 13);
    let (stranger, stranger_id) = message([9u8; 32], "stranger", 14);
    model.add(first);
    model.add(stranger);
    model.add(second);
    assert_eq!(model.orphan_count(), 3);
    model.add(parent);
    assert_eq!(model.orphan_count(), 1);
    assert!(model.is_orphan(&stranger_id));
    assert_eq!(model.find(&parent_id), Some(1));
    assert_eq!(model.find(&first_id), Some(2));
    assert_eq!(model.find(&second_id), Some(3));
    assert_eq!(model.node(1).children, vec![2, 3]);
    assert_eq!(model.find_head().id, second_id);
}

#[test]
fn events_below_an_unknown_ancestor_keep_waiting() {
    let mut model = Model::with_genesis_time(10);
    let (p, p_id) = message([5u8; 32], "p", 11);
    let (c, c_id) = message(p_id, "c", 12);
    model.add(p);
    model.add(c);
    assert_eq!(model.orphan_count(), 2);
    assert_eq!(model.len(), 1);
    assert_eq!(model.find(&c_id), None);
    model.reorganize();
    assert_eq!(model.orphan_count(), 2);
}

#[test]
fn a_chain_handed_in_backwards_needs_further_passes() {
    let mut model = Model::with_genesis_time(10);
    let g = model.root_id();
    let (p, p_id) = message(g, "p", 11);
    let (c, c_id) = message(p_id, "c", 12);
    let (gc, gc_id) = message(c_id, "gc", 13);
    model.add(gc);
    model.add(c);
    assert_eq!(model.len(), 1);
    assert_eq!(model.orphan_count(), 2);
    model.add(p);
    assert_eq!(model.len(), 3);
    assert_eq!(model.find(&c_id), Some(2));
    assert!(model.is_orphan(&gc_id));
    assert_eq!(model.find_head().id, c_id);
    model.reorganize();
    assert_eq!(model.len(), 4);
    assert_eq!(model.orphan_count(), 0);
    assert_eq!(model.find_head().id, gc_id);
}

#[test]
fn a_pass_links_what_waits_behind_its_parent_in_the_buffer() {
    let mut model = Model::with_genesis_time(10);
    let g = model.root_id();
    let (p, p_id) = message(g, "p", 11);
    let (c, _c_id) = message(p_id, "c", 12);
    let (gc, gc_id) = message(_c_id, "gc", 13);
    model.add(c);
    model.add(gc);
    model.add(p);
    assert_eq!(model.len(), 4);
    assert_eq!(model.orphan_count(), 0);
    assert_eq!(model.find_head().id, gc_id);
}

#[test]
fn the_later_timestamp_breaks_a_tie_in_depth() {
    let mut model = Model::with_genesis_time(10);
    let g = model.root_id();
    let (early, _) = message(g, "early", 20);
    let (late, late_id) = message(g, "late", 21);
    let (middle, _) = message(g, "middle", 15);
    model.add(early);
    model.add(late);
    model.add(middle);
    assert_eq!(model.find_head().id, late_id);
}

#[test]
fn the_greater_id_breaks_a_tie_in_depth_and_time() {
    let mut model = Model::from_root(id(1), genesis_event(0));
    model.attach(id(7), create_message(id(1), "a", "x", 5));
    model.attach(id(9), create_message(id(1), "b", "x", 5));
    model.attach(id(8), create_message(id(1), "c", "x", 5));
    assert_eq!(model.find_head().id, id(9));
    assert_eq!(model.head_position(), 2);
}

#[test]
fn depth_counts_more_than_time() {
    let mut model = Model::from_root(id(1), genesis_event(0));
    model.attach(id(2), create_message(id(1), "a", "x", 100));
    model.attach(id(3), create_message(id(1), "b", "x", 1));
    model.attach(id(4), create_message(id(3), "c", "x", 2));
    assert_eq!(model.find_head().id, id(4));
}

#[test]
fn the_head_does_not_depend_on_the_order_of_arrival() {
    let root = genesis_event(10);
    let root_id = root.hash();
    let (a, a_id) = message(root_id, "a", 11);
    let (b, b_id) = message(root_id, "b", 11);
    let (c, _c_id) = message(a_id, "c", 12);
    let (d, _d_id) = message(b_id, "d", 12);
    let events = vec![a, b, c, d];
    let orders: Vec<Vec<usize>> =
        vec![vec![0, 1, 2, 3], vec![1, 0, 3, 2], vec![0, 2, 1, 3], vec![1, 3, 0, 2]];
    let mut heads: Vec<EventId> = Vec::new();
    for order in orders {
        let mut model = Model::from_root(root_id, root.clone());
        for at in order {
            model.add(events[at].clone());
        }
        assert_eq!(model.len(), 5);
        heads.push(model.find_head().id);
    }
    assert_eq!(heads[0], heads[1]);
    assert_eq!(heads[0], heads[2]);
    assert_eq!(heads[0], heads[3]);
}

#[test]
fn heights_and_common_ancestors() {
    let mut model = Model::from_root(id(1), genesis_event(0));
    model.attach(id(2), create_message(id(1), "a", "x", 1));
    model.attach(id(3), create_message(id(1), "b", "x", 1));
    model.attach(id(4), create_message(id(2), "c", "x", 2));
    model.attach(id(5), create_message(id(3), "d", "x", 2));
    model.attach(id(6), create_message(id(2), "e", "x", 2));
    assert_eq!(model.find_height(0), 0);
    assert_eq!(model.find_height(1), 1);
    assert_eq!(model.find_height(3), 2);
    assert_eq!(model.find_ancestor_depth(3, 3), 0);
    assert_eq!(model.find_ancestor_depth(3, 5), 1);
    assert_eq!(model.find_ancestor_depth(3, 4), 2);
    assert_eq!(model.find_ancestor_depth(1, 2), 1);
    assert_eq!(model.find_ancestor_depth(0, 0), 0);
    assert_eq!(model.children(0), &vec![1, 2]);
    assert_eq!(model.children(1), &vec![3, 5]);
    assert!(model.children(4).is_empty());
}

#[test]
fn an_id_that_is_known_is_not_attached_again() {
    let mut model = Model::from_root(id(1), genesis_event(0));
    model.attach(id(2), create_message(id(1), "a", "x", 1));
    model.attach(id(2), create_message(id(1), "other", "y", 9));
    model.attach(id(1), create_message(id(2), "root again", "y", 9));
    assert_eq!(model.len(), 2);
    assert_eq!(model.orphan_count(), 0);
    assert_eq!(model.node(1).event, create_message(id(1), "a", "x", 1));
}

#[test]
fn ids_compare_byte_by_byte() {
    assert!(same_id(&id(3), &id(3)));
    assert!(!same_id(&id(3), &id(4)));
    assert!(id_before(&id(3), &id(4)));
    assert!(!id_before(&id(4), &id(3)));
    assert!(!id_before(&id(4), &id(4)));
    let mut low = [7u8; 32];
    let mut high = [7u8; 32];
    low[31] = 1;
    high[31] = 2;
    assert!(id_before(&low, &high));
    assert!(!same_id(&low, &high));
}

#[test]
fn trimming_keeps_the_newest_waiting_events() {
    let mut model = Model::from_root(id(1), genesis_event(0));
    model.attach(id(10), create_message(id(90), "a", "x", 1));
    model.attach(id(11), create_message(id(91), "b", "x", 1));
    model.attach(id(12), create_message(id(92), "c", "x", 1));
    model.trim_orphans(5);
    assert_eq!(model.orphan_count(), 3);
    model.trim_orphans(2);
    assert_eq!(model.orphan_count(), 2);
    assert!(!model.is_orphan(&id(10)));
    assert!(model.is_orphan(&id(11)));
    assert!(model.is_orphan(&id(12)));
    model.trim_orphans(0);
    assert_eq!(model.orphan_count(), 0);
    assert_eq!(model.len(), 1);
    model.attach(id(10), create_message(id(1), "a again", "x", 1));
    assert_eq!(model.len(), 2);
}
