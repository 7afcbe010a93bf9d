//! Text for people: numbers in decimal, ids in hexadecimal, events and
//! stores in one line each.

use crate::event::ActionView;
use crate::event::Event;
use crate::event::EventAction;
use crate::event::EventId;
use crate::event::EventView;
use crate::graph::ModelView;
use crate::model::Model;
use vstd::prelude::*;
use vstd::string::StringExecFns;

verus! {

/// The hexadecimal digit for a value below 16, in lower case.
pub open spec fn hex_digit(value: int) -> char {
    if value == 0 {
        '0'
    } else if value == 1 {
        '1'
    } else if value == 2 {
        '2'
    } else if value == 3 {
        '3'
    } else if value == 4 {
        '4'
    } else if value == 5 {
        '5'
    } else if value == 6 {
        '6'
    } else if value == 7 {
        '7'
    } else if value == 8 {
        '8'
    } else if value == 9 {
        '9'
    } else if value == 10 {
        'a'
    } else if value == 11 {
        'b'
    } else if value == 12 {
        'c'
    } else if value == 13 {
        'd'
    } else if value == 14 {
        'e'
    } else {
        'f'
    }
}

/// The bytes in hexadecimal: two digits for each byte, the high half
/// first, in lower case.
pub open spec fn hex_text(bytes: Seq<u8>) -> Seq<char> {
    Seq::new(
        2 * bytes.len(),
        |i: int|
            if i % 2 == 0 {
                hex_digit(bytes[i / 2] as int / 16)
            } else {
                hex_digit(bytes[i / 2] as int % 16)
            },
    )
}

/// Calls `hex::encode` on `bytes`. As the crate documents it, the result
/// holds two lower-case hexadecimal digits for each byte, the high half
/// first.
#[verifier::external_body]
pub(crate) fn hex_encode(bytes: &[u8]) -> (text: String)
    ensures
        text@ == hex_text(bytes@),
{
    hex::encode(bytes)
}

/// The number in decimal, without leading zeros.
pub open spec fn decimal_text(n: nat) -> Seq<char>
    decreases n,
{
    if n < 10 {
        seq![hex_digit(n as int)]
    } else {
        decimal_text(n / 10) + seq![hex_digit((n % 10) as int)]
    }
}

/// The text of one decimal digit.
fn digit_str(d: u64) -> (text: &'static str)
    requires
        d < 10,
    ensures
        text@ == seq![hex_digit(d as int)],
{
    proof {
        reveal_strlit("0");
        reveal_strlit("1");
        reveal_strlit("2");
        reveal_strlit("3");
        reveal_strlit("4");
        reveal_strlit("5");
        reveal_strlit("6");
        reveal_strlit("7");
        reveal_strlit("8");
        reveal_strlit("9");
    }
    let text: &'static str = if d == 0 {
        "0"
    } else if d == 1 {
        "1"
    } else if d == 2 {
        "2"
    } else if d == 3 {
        "3"
    } else if d == 4 {
        "4"
    } else if d == 5 {
        "5"
    } else if d == 6 {
        "6"
    } else if d == 7 {
        "7"
    } else if d == 8 {
        "8"
    } else {
        "9"
    };
    assert(text@ =~= seq![hex_digit(d as int)]);
    text
}

/// Writes `n` in decimal.
pub fn decimal_string(n: u64) -> (text: String)
    ensures
        text@ == decimal_text(n as nat),
{
    let mut digits: Vec<u64> = Vec::new();
    let mut rest: u64 = n;
    while rest >= 10
        invariant
            forall|k: int| 0 <= k < digits@.len() ==> (#[trigger] digits@[k]) < 10,
            decimal_text(n as nat) == decimal_text(rest as nat) + tail_text(digits@),
        decreases rest,
    {
        let ghost before = digits@;
        digits.push(rest % 10);
        proof {
            assert(digits@.drop_last() =~= before);
            assert(tail_text(digits@) == seq![hex_digit((rest % 10) as int)] + tail_text(before));
            assert(decimal_text(rest as nat) == decimal_text((rest / 10) as nat) + seq![
                hex_digit((rest % 10) as int),
            ]);
            assert(decimal_text(rest as nat) + tail_text(before) =~= decimal_text(
                (rest / 10) as nat,
            ) + tail_text(digits@));
        }
        rest = rest / 10;
    }
    let mut text: String = String::new();
    text.append(digit_str(rest));
    assert(text@ =~= decimal_text(rest as nat));
    let mut left: usize = digits.len();
    assert(digits@.subrange(0, left as int) =~= digits@);
    while left > 0
        invariant
            left <= digits@.len(),
            forall|k: int| 0 <= k < digits@.len() ==> (#[trigger] digits@[k]) < 10,
            decimal_text(n as nat) == text@ + tail_text(digits@.subrange(0, left as int)),
        decreases left,
    {
        let ghost shown = digits@.subrange(0, left as int);
        left = left - 1;
        let ghost before = text@;
        text.append(digit_str(digits[left]));
        proof {
            assert(shown.last() == digits@[left as int]);
            assert(shown.drop_last() =~= digits@.subrange(0, left as int));
            assert(before + tail_text(shown) =~= text@ + tail_text(shown.drop_last()));
        }
    }
    proof {
        assert(digits@.subrange(0, 0) =~= Seq::<u64>::empty());
        assert(text@ + tail_text(Seq::<u64>::empty()) =~= text@);
    }
    text
}

/// The digits in `digits`, last to first, as text.
spec fn tail_text(digits: Seq<u64>) -> Seq<char>
    decreases digits.len(),
{
    if digits.len() == 0 {
        Seq::empty()
    } else {
        seq![hex_digit(digits.last() as int)] + tail_text(digits.drop_last())
    }
}

/// One line for an event: what it does, who does it, what it says, and
/// when.
pub open spec fn event_text(e: EventView) -> Seq<char> {
    match e.action {
        ActionView::PrivMsg(m) => "PRIVMSG "@ + m.nick + ": "@ + m.msg + " ("@ + decimal_text(
            e.timestamp as nat,
        ) + ")"@,
    }
}

/// One line for the node at position `i`: its id, its event, and how far
/// below the root it lies.
pub open spec fn node_text(s: ModelView, i: int) -> Seq<char> {
    hex_text(s.nodes[i].id) + ": "@ + event_text(s.nodes[i].event) + " [height="@ + decimal_text(
        s.depth(i),
    ) + "]"@
}

/// The id in hexadecimal.
pub fn id_text(id: &EventId) -> (text: String)
    ensures
        text@ == hex_text(id@),
{
    let mut bytes: Vec<u8> = Vec::new();
    let mut k: usize = 0;
    while k < 32
        invariant
            k <= 32,
            bytes@ == id@.subrange(0, k as int),
        decreases 32 - k,
    {
        bytes.push(id[k]);
        k = k + 1;
        assert(bytes@ =~= id@.subrange(0, k as int));
    }
    assert(id@.subrange(0, 32) =~= id@);
    hex_encode(bytes.as_slice())
}

impl Event {
    /// One line that says what the event is.
    pub fn describe(&self) -> (text: String)
        ensures
            text@ == event_text(self@),
    {
        let mut text: String = String::new();
        match &self.action {
            EventAction::PrivMsg(m) => {
                text.append("PRIVMSG ");
                text.append(m.nick.as_str());
                text.append(": ");
                text.append(m.msg.as_str());
                text.append(" (");
                text.append(decimal_string(self.timestamp).as_str());
                text.append(")");
                assert(text@ =~= event_text(self@));
            },
        }
        text
    }
}

impl Model {
    /// The store in lines of text: one line for each node, in order of
    /// arrival, then the id of the root, then the id of the head.
    pub fn debug(&self) -> (lines: Vec<String>)
        requires
            self.wf(),
        ensures
            lines@.len() == self@.nodes.len() + 2,
            forall|i: int| 0 <= i < self@.nodes.len() ==> (#[trigger] lines@[i])@ == node_text(self@, i),
            lines@[self@.nodes.len() as int]@ == "root: "@ + hex_text(self@.root),
            lines@[self@.nodes.len() as int + 1]@ == "head: "@ + hex_text(self@.nodes[self@.head()].id),
    {
        let n: usize = self.len();
        let mut lines: Vec<String> = Vec::new();
        let mut i: usize = 0;
        while i < n
            invariant
                self.wf(),
                i <= n == self@.nodes.len(),
                lines@.len() == i,
                forall|k: int| 0 <= k < i ==> (#[trigger] lines@[k])@ == node_text(self@, k),
            decreases n - i,
        {
            let node = self.node(i);
            let mut line: String = id_text(&node.id);
            line.append(": ");
            line.append(node.event.describe().as_str());
            line.append(" [height=");
            line.append(decimal_string(self.find_height(i) as u64).as_str());
            line.append("]");
            assert(line@ =~= node_text(self@, i as int));
            lines.push(line);
            i = i + 1;
        }
        let mut root: String = String::new();
        root.append("root: ");
        root.append(id_text(&self.root_id()).as_str());
        assert(root@ =~= "root: "@ + hex_text(self@.root));
        lines.push(root);
        let mut head: String = String::new();
        head.append("head: ");
        head.append(id_text(&self.find_head().id).as_str());
        assert(head@ =~= "head: "@ + hex_text(self@.nodes[self@.head()].id));
        lines.push(head);
        lines
    }
}

} // verus!
