//! Events, their canonical byte encoding and their content hash.
//!
//! On the wire an event is, in this order: one byte that tags the action,
//! the 32 bytes of the parent's id, the fields of the action, and the
//! timestamp in eight bytes, least significant first. A text field is a
//! length prefix followed by the text in UTF-8.

use crate::digest::sha256;
use crate::digest::sha256_digest;
use crate::wire::le_bytes;
use crate::wire::le_value;
use crate::wire::length_prefix;
use crate::wire::lemma_le_bytes_len;
use crate::wire::lemma_le_bytes_of_value;
use crate::wire::lemma_le_value_bound;
use crate::wire::lemma_le_value_of_bytes;
use crate::wire::lemma_parse_length_is_prefix;
use crate::wire::lemma_parse_length_of_prefix;
use crate::wire::lemma_radix_values;
use crate::wire::parse_length;
use crate::wire::push_le;
use crate::wire::push_length;
use crate::wire::read_le;
use crate::wire::read_length;
use crate::wire::FormatError;
use vstd::prelude::*;
use vstd::utf8::decode_utf8;
use vstd::utf8::decode_utf8_encode_utf8;
use vstd::utf8::encode_utf8;
use vstd::utf8::encode_utf8_decode_utf8;
use vstd::utf8::encode_utf8_valid_utf8;
use vstd::utf8::valid_utf8;

verus! {

/// The content hash that identifies an event.
pub type EventId = [u8; 32];

/// The wire tag of a chat message.
pub const PRIVMSG_TAG: u8 = 0;

/// How many bytes the tag and the parent's id take at the head of an event.
pub const HEADER_LEN: usize = 33;

/// A chat message: who says it, and what.
#[derive(Clone, Debug, PartialEq, Eq)]
pub struct PrivMsgEvent {
    pub nick: String,
    pub msg: String,
}

/// What an event does. Each kind has a wire tag of its own.
#[derive(Clone, Debug, PartialEq, Eq)]
pub enum EventAction {
    PrivMsg(PrivMsgEvent),
}

/// One record of the log: an action, the id of the event it follows, and
/// the time in milliseconds at which it was made.
#[derive(Clone, Debug, PartialEq, Eq)]
pub struct Event {
    pub previous_event_hash: EventId,
    pub action: EventAction,
    pub timestamp: u64,
}

/// A chat message as mathematics: its two texts as sequences of characters.
pub struct PrivMsgView {
    pub nick: Seq<char>,
    pub msg: Seq<char>,
}

/// An action as mathematics.
pub enum ActionView {
    PrivMsg(PrivMsgView),
}

/// An event as mathematics: the id it follows as a byte sequence, its
/// action, and its timestamp.
pub struct EventView {
    pub previous_event_hash: Seq<u8>,
    pub action: ActionView,
    pub timestamp: u64,
}

impl View for PrivMsgEvent {
    type V = PrivMsgView;

    open spec fn view(&self) -> PrivMsgView {
        PrivMsgView { nick: self.nick@, msg: self.msg@ }
    }
}

impl View for EventAction {
    type V = ActionView;

    open spec fn view(&self) -> ActionView {
        match self {
            EventAction::PrivMsg(m) => ActionView::PrivMsg(m@),
        }
    }
}

impl View for Event {
    type V = EventView;

    open spec fn view(&self) -> EventView {
        EventView {
            previous_event_hash: self.previous_event_hash@,
            action: self.action@,
            timestamp: self.timestamp,
        }
    }
}

/// A text field on the wire: the length of its UTF-8 form, then that form.
pub open spec fn text_field(text: Seq<char>) -> Seq<u8> {
    length_prefix(encode_utf8(text).len()) + encode_utf8(text)
}

/// The wire tag of an action.
pub open spec fn action_tag(action: ActionView) -> u8 {
    match action {
        ActionView::PrivMsg(_) => PRIVMSG_TAG,
    }
}

/// The fields of an action on the wire, without its tag.
pub open spec fn action_fields(action: ActionView) -> Seq<u8> {
    match action {
        ActionView::PrivMsg(m) => text_field(m.nick) + text_field(m.msg),
    }
}

/// The canonical encoding of an event.
pub open spec fn event_bytes(e: EventView) -> Seq<u8> {
    seq![action_tag(e.action)] + e.previous_event_hash + action_fields(e.action) + le_bytes(
        e.timestamp as nat,
        8,
    )
}

/// The id of an event: the SHA-256 digest of its canonical encoding.
pub open spec fn event_id(e: EventView) -> Seq<u8> {
    sha256(event_bytes(e))
}

/// An action whose text fields are short enough to get a length prefix.
pub open spec fn action_well_formed(action: ActionView) -> bool {
    match action {
        ActionView::PrivMsg(m) => encode_utf8(m.nick).len() <= u64::MAX && encode_utf8(
            m.msg,
        ).len() <= u64::MAX,
    }
}

/// An event that can stand on the wire: the parent's id has 32 bytes and
/// the action is well formed. Every `Event` value is.
pub open spec fn well_formed(e: EventView) -> bool {
    e.previous_event_hash.len() == 32 && action_well_formed(e.action)
}

/// Reads a text field at `pos`: the text, and where the field ends.
pub open spec fn parse_text(bytes: Seq<u8>, pos: int) -> Result<(Seq<char>, int), FormatError> {
    match parse_length(bytes, pos) {
        Err(e) => Err(e),
        Ok((n, start)) => {
            if bytes.len() - start < n {
                Err(FormatError::Truncated)
            } else if !valid_utf8(bytes.subrange(start, start + n)) {
                Err(FormatError::InvalidText)
            } else {
                Ok((decode_utf8(bytes.subrange(start, start + n)), start + n))
            }
        },
    }
}

/// Reads the fields of the action with wire tag `tag` at `pos`: the action,
/// and where its fields end.
pub open spec fn parse_action(tag: u8, bytes: Seq<u8>, pos: int) -> Result<
    (ActionView, int),
    FormatError,
> {
    if tag != PRIVMSG_TAG {
        Err(FormatError::UnknownAction)
    } else {
        match parse_text(bytes, pos) {
            Err(e) => Err(e),
            Ok((nick, mid)) => match parse_text(bytes, mid) {
                Err(e) => Err(e),
                Ok((msg, end)) => Ok((ActionView::PrivMsg(PrivMsgView { nick, msg }), end)),
            },
        }
    }
}

/// An action on the wire when it stands alone: its tag, then its fields.
pub open spec fn action_bytes(action: ActionView) -> Seq<u8> {
    seq![action_tag(action)] + action_fields(action)
}

/// Reads an action that stands at `pos` with its tag before its fields:
/// the action, and where its fields end.
pub open spec fn parse_tagged_action(bytes: Seq<u8>, pos: int) -> Result<
    (ActionView, int),
    FormatError,
> {
    if !(0 <= pos < bytes.len()) {
        Err(FormatError::Truncated)
    } else {
        parse_action(bytes[pos], bytes, pos + 1)
    }
}

/// Reads a whole byte string as one event, field by field, and says which
/// event it is or at which field the reading fails.
pub open spec fn parse_event(bytes: Seq<u8>) -> Result<EventView, FormatError> {
    if bytes.len() < HEADER_LEN {
        Err(FormatError::Truncated)
    } else {
        match parse_action(bytes[0], bytes, HEADER_LEN as int) {
            Err(e) => Err(e),
            Ok((action, end)) => {
                if bytes.len() - end < 8 {
                    Err(FormatError::Truncated)
                } else if bytes.len() - end > 8 {
                    Err(FormatError::TrailingBytes)
                } else {
                    Ok(
                        EventView {
                            previous_event_hash: bytes.subrange(1, HEADER_LEN as int),
                            action,
                            timestamp: le_value(bytes.subrange(end, end + 8)) as u64,
                        },
                    )
                }
            },
        }
    }
}

/// Reading a text field where one was written gives the text back.
pub proof fn lemma_parse_text_of_field(head: Seq<u8>, text: Seq<char>, tail: Seq<u8>)
    requires
        encode_utf8(text).len() <= u64::MAX,
    ensures
        parse_text(head + text_field(text) + tail, head.len() as int) == Ok::<
            (Seq<char>, int),
            FormatError,
        >((text, (head.len() + text_field(text).len()) as int)),
{
    let raw = encode_utf8(text);
    let prefix = length_prefix(raw.len());
    let all = head + text_field(text) + tail;
    assert(all =~= head + prefix + (raw + tail));
    lemma_parse_length_of_prefix(head, raw.len(), raw + tail);
    let start = (head.len() + prefix.len()) as int;
    assert(all.subrange(start, start + raw.len()) =~= raw);
    encode_utf8_valid_utf8(text);
    encode_utf8_decode_utf8(text);
}

/// Whatever reads as a text field is the field of the text read.
pub proof fn lemma_parse_text_is_field(bytes: Seq<u8>, pos: int)
    requires
        parse_text(bytes, pos) is Ok,
    ensures
        ({
            let (text, next) = parse_text(bytes, pos)->Ok_0;
            &&& pos < next <= bytes.len()
            &&& encode_utf8(text).len() <= u64::MAX
            &&& bytes.subrange(pos, next) == text_field(text)
        }),
{
    let (n, start) = parse_length(bytes, pos)->Ok_0;
    lemma_parse_length_is_prefix(bytes, pos);
    let raw = bytes.subrange(start, start + n);
    decode_utf8_encode_utf8(raw);
    assert(bytes.subrange(pos, start + n) =~= bytes.subrange(pos, start) + raw);
}

/// Reading an action where one was written, tag first, gives the action
/// back, and ends where its fields end.
pub proof fn lemma_parse_action_of_bytes(head: Seq<u8>, action: ActionView, tail: Seq<u8>)
    requires
        action_well_formed(action),
    ensures
        parse_tagged_action(head + action_bytes(action) + tail, head.len() as int) == Ok::<
            (ActionView, int),
            FormatError,
        >((action, (head.len() + action_bytes(action).len()) as int)),
{
    let all = head + action_bytes(action) + tail;
    let tagged = head + seq![action_tag(action)];
    match action {
        ActionView::PrivMsg(m) => {
            let nick = text_field(m.nick);
            let msg = text_field(m.msg);
            assert(all[head.len() as int] == action_tag(action));
            assert(all =~= tagged + nick + (msg + tail));
            lemma_parse_text_of_field(tagged, m.nick, msg + tail);
            assert(all =~= (tagged + nick) + msg + tail);
            lemma_parse_text_of_field(tagged + nick, m.msg, tail);
            assert(parse_tagged_action(all, head.len() as int)->Ok_0.0 == action);
        },
    }
}

/// Decoding inverts encoding: the canonical bytes of a well-formed event
/// read as that event.
pub proof fn lemma_decode_encode(e: EventView)
    requires
        well_formed(e),
    ensures
        parse_event(event_bytes(e)) == Ok::<EventView, FormatError>(e),
{
    let bytes = event_bytes(e);
    let head = seq![action_tag(e.action)] + e.previous_event_hash;
    let stamp = le_bytes(e.timestamp as nat, 8);
    lemma_le_bytes_len(e.timestamp as nat, 8);
    lemma_radix_values();
    lemma_le_value_of_bytes(e.timestamp as nat, 8);
    match e.action {
        ActionView::PrivMsg(m) => {
            let nick = text_field(m.nick);
            let msg = text_field(m.msg);
            assert(bytes =~= head + nick + (msg + stamp));
            lemma_parse_text_of_field(head, m.nick, msg + stamp);
            assert(bytes =~= (head + nick) + msg + stamp);
            lemma_parse_text_of_field(head + nick, m.msg, stamp);
            let end = (head.len() + nick.len() + msg.len()) as int;
            assert(bytes.subrange(end, end + 8) =~= stamp);
            assert(bytes.subrange(1, HEADER_LEN as int) =~= e.previous_event_hash);
            assert(parse_event(bytes)->Ok_0.action == e.action);
        },
    }
}

/// Decoding accepts canonical bytes only: whatever reads as an event is
/// the encoding of the event read, and that event is well formed.
pub proof fn lemma_encode_decode(bytes: Seq<u8>)
    requires
        parse_event(bytes) is Ok,
    ensures
        well_formed(parse_event(bytes)->Ok_0),
        event_bytes(parse_event(bytes)->Ok_0) == bytes,
{
    let e = parse_event(bytes)->Ok_0;
    let start = HEADER_LEN as int;
    let (nick, mid) = parse_text(bytes, start)->Ok_0;
    let (msg, end) = parse_text(bytes, mid)->Ok_0;
    lemma_parse_text_is_field(bytes, start);
    lemma_parse_text_is_field(bytes, mid);
    let stamp = bytes.subrange(end, end + 8);
    lemma_le_value_bound(stamp);
    lemma_radix_values();
    lemma_le_bytes_of_value(stamp);
    assert(e.action == ActionView::PrivMsg(PrivMsgView { nick, msg }));
    assert(event_bytes(e) =~= bytes);
}

/// Two well-formed events with the same canonical bytes are the same event.
pub proof fn lemma_encoding_injective(a: EventView, b: EventView)
    requires
        well_formed(a),
        well_formed(b),
        event_bytes(a) == event_bytes(b),
    ensures
        a == b,
{
    lemma_decode_encode(a);
    lemma_decode_encode(b);
}

/// Calls `String::from_utf8` on `bytes`. As std documents it, the call
/// succeeds exactly on valid UTF-8, and the string it gives then has
/// `bytes` as its UTF-8 form.
#[verifier::external_body]
fn string_from_utf8(bytes: Vec<u8>) -> (r: Option<String>)
    ensures
        r is Some <==> valid_utf8(bytes@),
        r matches Some(s) ==> encode_utf8(s@) == bytes@,
{
    match String::from_utf8(bytes) {
        Ok(s) => Some(s),
        Err(_) => None,
    }
}

/// Appends `text` to `out` as a text field.
pub fn push_text(out: &mut Vec<u8>, text: &String)
    ensures
        final(out)@ == old(out)@ + text_field(text@),
        encode_utf8(text@).len() <= usize::MAX,
{
    let raw: &[u8] = text.as_str().as_bytes();
    let n: usize = raw.len();
    push_length(out, n as u64);
    let ghost before = out@;
    let mut k: usize = 0;
    while k < n
        invariant
            k <= n == raw@.len(),
            out@ == before + raw@.subrange(0, k as int),
        decreases n - k,
    {
        out.push(raw[k]);
        k = k + 1;
        assert(out@ =~= before + raw@.subrange(0, k as int));
    }
    assert(raw@.subrange(0, n as int) =~= raw@);
    assert(out@ =~= old(out)@ + text_field(text@));
}

/// Reads the text field that starts at `pos`. Gives the text and the
/// position behind the field, or says why there is no text field there.
pub fn read_text(bytes: &[u8], pos: usize) -> (r: Result<(String, usize), FormatError>)
    ensures
        match r {
            Ok((text, next)) => parse_text(bytes@, pos as int) == Ok::<
                (Seq<char>, int),
                FormatError,
            >((text@, next as int)),
            Err(e) => parse_text(bytes@, pos as int) == Err::<(Seq<char>, int), FormatError>(e),
        },
{
    let (n, start): (u64, usize) = match read_length(bytes, pos) {
        Ok(found) => found,
        Err(e) => {
            return Err(e);
        },
    };
    proof {
        lemma_parse_length_is_prefix(bytes@, pos as int);
    }
    let room: usize = bytes.len() - start;
    if n > room as u64 {
        return Err(FormatError::Truncated);
    }
    let end: usize = start + n as usize;
    let mut raw: Vec<u8> = Vec::new();
    let mut k: usize = start;
    while k < end
        invariant
            start <= k <= end <= bytes@.len(),
            raw@ == bytes@.subrange(start as int, k as int),
        decreases end - k,
    {
        raw.push(bytes[k]);
        k = k + 1;
        assert(raw@ =~= bytes@.subrange(start as int, k as int));
    }
    match string_from_utf8(raw) {
        None => Err(FormatError::InvalidText),
        Some(text) => {
            proof {
                encode_utf8_decode_utf8(text@);
            }
            Ok((text, end))
        },
    }
}

impl EventAction {
    /// The wire tag of this action.
    pub fn tag(&self) -> (t: u8)
        ensures
            t == action_tag(self@),
    {
        match self {
            EventAction::PrivMsg(_) => PRIVMSG_TAG,
        }
    }

    /// Appends this action to `out`, its tag first and then its fields, and
    /// says how many bytes that took.
    pub fn encode(&self, out: &mut Vec<u8>) -> (written: usize)
        ensures
            final(out)@ == old(out)@ + seq![action_tag(self@)] + action_fields(self@),
            final(out)@ == old(out)@ + action_bytes(self@),
            written == 1 + action_fields(self@).len(),
            action_well_formed(self@),
    {
        let before: usize = out.len();
        out.push(self.tag());
        let _ = self.encode_fields(out);
        assert(out@ =~= old(out)@ + action_bytes(self@));
        out.len() - before
    }

    /// Appends the fields of this action to `out`, and says how many bytes
    /// that took. The tag is not among them: in an event the id of the
    /// parent stands between the two.
    pub fn encode_fields(&self, out: &mut Vec<u8>) -> (written: usize)
        ensures
            final(out)@ == old(out)@ + action_fields(self@),
            written == action_fields(self@).len(),
            action_well_formed(self@),
    {
        let before: usize = out.len();
        match self {
            EventAction::PrivMsg(m) => {
                push_text(out, &m.nick);
                push_text(out, &m.msg);
                assert(out@ =~= old(out)@ + action_fields(self@));
            },
        }
        out.len() - before
    }

    /// Reads the action that stands at `pos`, its tag first and then its
    /// fields. Gives the action and the position behind its fields. A tag
    /// that this library does not know is refused.
    pub fn decode(bytes: &[u8], pos: usize) -> (r: Result<(EventAction, usize), FormatError>)
        ensures
            match r {
                Ok((action, next)) => parse_tagged_action(bytes@, pos as int) == Ok::<
                    (ActionView, int),
                    FormatError,
                >((action@, next as int)),
                Err(e) => parse_tagged_action(bytes@, pos as int) == Err::<
                    (ActionView, int),
                    FormatError,
                >(e),
            },
    {
        if pos >= bytes.len() {
            return Err(FormatError::Truncated);
        }
        EventAction::decode_fields(bytes[pos], bytes, pos + 1)
    }

    /// Reads the fields of the action with wire tag `tag` at `pos`. Gives the
    /// action and the position behind its fields. A tag that this library
    /// does not know is refused.
    pub fn decode_fields(tag: u8, bytes: &[u8], pos: usize) -> (r: Result<
        (EventAction, usize),
        FormatError,
    >)
        ensures
            match r {
                Ok((action, next)) => parse_action(tag, bytes@, pos as int) == Ok::<
                    (ActionView, int),
                    FormatError,
                >((action@, next as int)),
                Err(e) => parse_action(tag, bytes@, pos as int) == Err::<
                    (ActionView, int),
                    FormatError,
                >(e),
            },
    {
        if tag != PRIVMSG_TAG {
            return Err(FormatError::UnknownAction);
        }
        let (nick, mid): (String, usize) = match read_text(bytes, pos) {
            Ok(found) => found,
            Err(e) => {
                return Err(e);
            },
        };
        let (msg, end): (String, usize) = match read_text(bytes, mid) {
            Ok(found) => found,
            Err(e) => {
                return Err(e);
            },
        };
        Ok((EventAction::PrivMsg(PrivMsgEvent { nick, msg }), end))
    }
}

impl Event {
    /// The canonical encoding of this event.
    pub fn encode(&self) -> (out: Vec<u8>)
        ensures
            out@ == event_bytes(self@),
            well_formed(self@),
    {
        let mut out: Vec<u8> = Vec::new();
        out.push(self.action.tag());
        let mut k: usize = 0;
        while k < 32
            invariant
                k <= 32,
                out@ == seq![action_tag(self@.action)] + self.previous_event_hash@.subrange(
                    0,
                    k as int,
                ),
            decreases 32 - k,
        {
            out.push(self.previous_event_hash[k]);
            k = k + 1;
            assert(out@ =~= seq![action_tag(self@.action)] + self.previous_event_hash@.subrange(
                0,
                k as int,
            ));
        }
        assert(self.previous_event_hash@.subrange(0, 32) =~= self.previous_event_hash@);
        let _ = self.action.encode_fields(&mut out);
        push_le(&mut out, self.timestamp, 8);
        out
    }

    /// Reads `bytes` as one event. Succeeds on the canonical encoding of an
    /// event and on nothing else; a failure names the first field that
    /// cannot be read.
    pub fn decode(bytes: &[u8]) -> (r: Result<Event, FormatError>)
        ensures
            match r {
                Ok(e) => parse_event(bytes@) == Ok::<EventView, FormatError>(e@),
                Err(k) => parse_event(bytes@) == Err::<EventView, FormatError>(k),
            },
            r matches Ok(e) ==> event_bytes(e@) == bytes@,
    {
        if bytes.len() < HEADER_LEN {
            return Err(FormatError::Truncated);
        }
        let mut previous_event_hash: EventId = [0u8; 32];
        let mut k: usize = 0;
        while k < 32
            invariant
                k <= 32,
                bytes@.len() >= HEADER_LEN,
                forall|j: int| 0 <= j < k ==> previous_event_hash@[j] == bytes@[j + 1],
            decreases 32 - k,
        {
            previous_event_hash[k] = bytes[k + 1];
            k = k + 1;
        }
        assert(previous_event_hash@ =~= bytes@.subrange(1, HEADER_LEN as int));
        let (action, end): (EventAction, usize) = match EventAction::decode_fields(
            bytes[0],
            bytes,
            HEADER_LEN,
        ) {
            Ok(found) => found,
            Err(e) => {
                return Err(e);
            },
        };
        proof {
            lemma_parse_text_is_field(bytes@, HEADER_LEN as int);
            lemma_parse_text_is_field(bytes@, parse_text(bytes@, HEADER_LEN as int)->Ok_0.1);
        }
        let left: usize = bytes.len() - end;
        if left < 8 {
            return Err(FormatError::Truncated);
        }
        if left > 8 {
            return Err(FormatError::TrailingBytes);
        }
        let timestamp: u64 = read_le(bytes, end, 8);
        proof {
            lemma_encode_decode(bytes@);
        }
        Ok(Event { previous_event_hash, action, timestamp })
    }

    /// The id of this event: the SHA-256 digest of its canonical encoding.
    pub fn hash(&self) -> (id: EventId)
        ensures
            id@ == event_id(self@),
    {
        let bytes: Vec<u8> = self.encode();
        sha256_digest(&bytes)
    }
}

/// Makes a chat message that follows the event with id
/// `previous_event_hash`.
pub fn create_message(previous_event_hash: EventId, nick: &str, msg: &str, timestamp: u64) -> (e:
    Event)
    ensures
        e@ == (EventView {
            previous_event_hash: previous_event_hash@,
            action: ActionView::PrivMsg(PrivMsgView { nick: nick@, msg: msg@ }),
            timestamp,
        }),
{
    Event {
        previous_event_hash,
        action: EventAction::PrivMsg(PrivMsgEvent { nick: nick.to_owned(), msg: msg.to_owned() }),
        timestamp,
    }
}

} // verus!
