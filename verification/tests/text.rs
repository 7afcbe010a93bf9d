use event_graph::event::create_message;
use event_graph::model::genesis_event;
use event_graph::model::Model;
use event_graph::text::decimal_string;
use event_graph::text::id_text;
use event_graph::view::View;

fn id(first: u8) -> [u8; 32] {
    let mut out = [0u8; 32];
    out[0] = first;
    out
}

#[test]
fn numbers_in_decimal() {
    assert_eq!(decimal_string(0), "0");
    assert_eq!(decimal_string(7), "7");
    assert_eq!(decimal_string(10), "10");
    assert_eq!(decimal_string(1_234_567_890), "1234567890");
    assert_eq!(decimal_string(u64::MAX), "18446744073709551615");
}

#[test]
fn ids_in_hexadecimal() {
    let mut bytes = [0u8; 32];
    bytes[0] = 0xAB;
    bytes[1] = 0x0F;
    bytes[31] = 0x10;
    let text = id_text(&bytes);
    assert_eq!(text.len(), 64);
    assert!(text.starts_with("ab0f00"));
    assert!(text.ends_with("0010"));
}

#[test]
fn an_event_in_one_line() {
    let e = create_message([0u8; 32], "alice", "hello there", 1234);
    assert_eq!(e.describe(), "PRIVMSG alice: hello there (1234)");
}

#[test]
fn a_store_in_lines() {
    let mut model = Model::from_root(id(1), genesis_event(5));
    model.attach(id(2), create_message(id(1), "a", "x", 6));
    model.attach(id(0xC3), create_message(id(2), "b", "y", 7));
    let zeros = "0".repeat(62);
    let lines = model.debug();
    assert_eq!(
        lines,
        vec![
            format!("01{}: PRIVMSG root: Let there be dark (5) [height=0]", zeros),
            format!("02{}: PRIVMSG a: x (6) [height=1]", zeros),
            format!("c3{}: PRIVMSG b: y (7) [height=2]", zeros),
            format!("root: 01{}", zeros),
            format!("head: c3{}", zeros),
        ]
    );
}

#[test]
fn replay_shows_each_event_once_in_order_of_time() {
    let mut model = Model::from_root(id(1), genesis_event(5));
    model.attach(id(4), create_message(id(1), "late", "x", 30));
    model.attach(id(3), create_message(id(1), "early", "x", 10));
    model.attach(id(9), create_message(id(3), "tie high", "x", 20));
    model.attach(id(8), create_message(id(4), "tie low", "x", 20));
    let mut view = View::new();
    assert_eq!(view.process(&model), vec![id(1), id(3), id(8), id(9), id(4)]);
    assert!(view.has_seen(&id(8)));
    assert!(!view.has_seen(&id(7)));
    assert_eq!(view.process(&model), Vec::<[u8; 32]>::new());
    model.attach(id(7), create_message(id(9), "new", "x", 1));
    model.attach(id(6), create_message(id(0xEE), "waits", "x", 2));
    assert_eq!(view.process(&model), vec![id(7)]);
    assert!(!view.has_seen(&id(6)));
}

#[test]
fn replay_does_not_depend_on_the_order_of_arrival() {
    let mut one = Model::from_root(id(1), genesis_event(5));
    one.attach(id(2), create_message(id(1), "a", "x", 9));
    one.attach(id(3), create_message(id(1), "b", "x", 8));
    let mut other = Model::from_root(id(1), genesis_event(5));
    other.attach(id(3), create_message(id(1), "b", "x", 8));
    other.attach(id(2), create_message(id(1), "a", "x", 9));
    assert_eq!(View::new().process(&one), View::new().process(&other));
}
