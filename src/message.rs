use vstd::prelude::*;
use vstd::slice::{slice_subrange, slice_to_vec};

verus! {

/// Maximum message ordering id before wrap around happens.
pub const MAX_ORDER_ID: u16 = 4096;

/// Number of bytes used in a single message header.
pub const MESSAGE_HEADER_BYTES: usize = 3;

/// Enum determining the way messages are sent and received over connections.
#[derive(Debug, Copy, Clone, PartialEq, Eq, Structural)]
pub enum MessageKind {
    /// A message that is sent exactly once and ignored in case its containing
    /// packet is lost. No guarantees are made as for the order in which it is
    /// received by a remote queue.
    Instant,
    /// A message that is re-sent in case its containing packet is lost. No
    /// guarantees are made as for the order in which it is received.
    Reliable,
    /// A message that is re-sent in case its containing packet is lost and is
    /// also delivered in order: a message that arrives early is buffered until
    /// all of its predecessors have arrived.
    Ordered,
    /// A message which could not be parsed from a packet's data.
    Invalid,
}

impl MessageKind {
    /// The wire tag of the kind, stored in the low four bits of a header.
    pub open spec fn spec_tag(self) -> u8 {
        match self {
            MessageKind::Instant => 0,
            MessageKind::Reliable => 1,
            MessageKind::Ordered => 2,
            MessageKind::Invalid => 3,
        }
    }

    /// The kind that the low four bits of a header byte stand for.
    pub open spec fn spec_from_byte(b: u8) -> MessageKind {
        if b % 16 == 0 {
            MessageKind::Instant
        } else if b % 16 == 1 {
            MessageKind::Reliable
        } else if b % 16 == 2 {
            MessageKind::Ordered
        } else {
            MessageKind::Invalid
        }
    }

    pub fn tag(self) -> (r: u8)
        ensures
            r == self.spec_tag(),
    {
        match self {
            MessageKind::Instant => 0,
            MessageKind::Reliable => 1,
            MessageKind::Ordered => 2,
            MessageKind::Invalid => 3,
        }
    }

    pub fn from_byte(b: u8) -> (r: MessageKind)
        ensures
            r == MessageKind::spec_from_byte(b),
    {
        let t = b % 16;
        if t == 0 {
            MessageKind::Instant
        } else if t == 1 {
            MessageKind::Reliable
        } else if t == 2 {
            MessageKind::Ordered
        } else {
            MessageKind::Invalid
        }
    }
}

/// A single message: its kind, its sequence number and its payload.
pub struct Message {
    pub kind: MessageKind,
    pub order: u16,
    pub data: Vec<u8>,
}

/// The mathematical value of a `Message`.
pub struct MessageView {
    pub kind: MessageKind,
    pub order: nat,
    pub data: Seq<u8>,
}

impl View for Message {
    type V = MessageView;

    open spec fn view(&self) -> MessageView {
        MessageView { kind: self.kind, order: self.order as nat, data: self.data@ }
    }
}

impl MessageView {
    /// A message that fits the wire format: a 12-bit sequence number and a
    /// payload whose length fits the one-byte size field.
    pub open spec fn wf(self) -> bool {
        self.order < MAX_ORDER_ID && self.data.len() <= 255
    }

    /// Number of bytes the message takes up in a packet.
    pub open spec fn wire_len(self) -> nat {
        MESSAGE_HEADER_BYTES as nat + self.data.len()
    }
}

pub open spec fn views(s: Seq<Message>) -> Seq<MessageView> {
    s.map_values(|m: Message| m@)
}

pub open spec fn all_wf(s: Seq<MessageView>) -> bool {
    forall|i: int| 0 <= i < s.len() ==> (#[trigger] s[i]).wf()
}

/// The three header bytes of a message: the kind tag with the high four bits
/// of the sequence number, the low eight bits of the sequence number, and the
/// payload size.
pub open spec fn header(m: MessageView) -> Seq<u8> {
    seq![
        ((m.order / 256) * 16 + m.kind.spec_tag() as nat) as u8,
        (m.order % 256) as u8,
        m.data.len() as u8,
    ]
}

/// The bytes of one encoded message.
pub open spec fn encode(m: MessageView) -> Seq<u8> {
    header(m) + m.data
}

/// The bytes of a sequence of messages encoded one after the other.
pub open spec fn encode_all(ms: Seq<MessageView>) -> Seq<u8>
    decreases ms.len(),
{
    if ms.len() == 0 {
        Seq::empty()
    } else {
        encode(ms[0]) + encode_all(ms.drop_first())
    }
}

/// Where the message that starts a buffer ends: after its declared payload,
/// or at the end of the buffer if that comes first.
pub open spec fn frame_end(b: Seq<u8>) -> int
    recommends
        b.len() >= 3,
{
    if 3 + b[2] <= b.len() {
        3 + b[2]
    } else {
        b.len() as int
    }
}

/// The message whose header starts a buffer of at least three bytes.
pub open spec fn decode_head(b: Seq<u8>) -> MessageView
    recommends
        b.len() >= 3,
{
    MessageView {
        kind: MessageKind::spec_from_byte(b[0]),
        order: (b[0] / 16) as nat * 256 + b[1] as nat,
        data: b.subrange(3, frame_end(b)),
    }
}

/// The messages a packet holds, read from its start while a whole header
/// remains; a payload cut short by the end of the packet is kept truncated.
pub open spec fn decode(b: Seq<u8>) -> Seq<MessageView>
    decreases b.len(),
{
    if b.len() < 3 {
        Seq::empty()
    } else {
        seq![decode_head(b)] + decode(b.subrange(frame_end(b), b.len() as int))
    }
}

pub proof fn lemma_encode_all_push(ms: Seq<MessageView>, m: MessageView)
    ensures
        encode_all(ms.push(m)) == encode_all(ms) + encode(m),
    decreases ms.len(),
{
    if ms.len() == 0 {
        assert(ms.push(m).drop_first() =~= Seq::<MessageView>::empty());
        assert(encode_all(Seq::<MessageView>::empty()) == Seq::<u8>::empty());
        assert(encode_all(ms.push(m)) =~= encode_all(ms) + encode(m));
    } else {
        assert(ms.push(m).drop_first() =~= ms.drop_first().push(m));
        lemma_encode_all_push(ms.drop_first(), m);
        assert(encode_all(ms.push(m)) =~= encode_all(ms) + encode(m));
    }
}

/// Decoding a well-formed message that stands in front of further bytes gives
/// that message back, followed by whatever those bytes decode to.
pub proof fn lemma_decode_encode(m: MessageView, rest: Seq<u8>)
    requires
        m.wf(),
    ensures
        decode(encode(m) + rest) == seq![m] + decode(rest),
{
    let b = encode(m) + rest;
    assert(b[2] == m.data.len());
    assert(frame_end(b) == 3 + m.data.len());
    assert(b.subrange(frame_end(b), b.len() as int) =~= rest);
    assert(b.subrange(3, frame_end(b)) =~= m.data);
    let h = decode_head(b);
    assert(m.order / 256 < 16) by (nonlinear_arith)
        requires
            m.order < 4096,
    ;
    let b0 = ((m.order / 256) * 16 + m.kind.spec_tag() as nat) as u8;
    assert(b0 == (m.order / 256) * 16 + m.kind.spec_tag() as nat);
    assert(b0 % 16 == m.kind.spec_tag() && b0 / 16 == m.order / 256) by (nonlinear_arith)
        requires
            b0 == (m.order / 256) * 16 + m.kind.spec_tag() as nat,
            m.kind.spec_tag() < 16,
    ;
    assert(h.kind == m.kind);
    assert(m.order == (m.order / 256) * 256 + m.order % 256) by (nonlinear_arith);
    assert(h.order == m.order);
    assert(h == m);
}

/// Decoding the encoding of well-formed messages gives those messages back.
pub proof fn lemma_round_trip(ms: Seq<MessageView>)
    requires
        all_wf(ms),
    ensures
        decode(encode_all(ms)) == ms,
    decreases ms.len(),
{
    if ms.len() == 0 {
        assert(decode(Seq::<u8>::empty()) == Seq::<MessageView>::empty());
    } else {
        assert(ms[0].wf());
        assert(all_wf(ms.drop_first())) by {
            assert forall|i: int| 0 <= i < ms.drop_first().len() implies (
            #[trigger] ms.drop_first()[i]).wf() by {
                assert(ms.drop_first()[i] == ms[i + 1]);
            }
        }
        lemma_round_trip(ms.drop_first());
        lemma_decode_encode(ms[0], encode_all(ms.drop_first()));
        assert(seq![ms[0]] + ms.drop_first() =~= ms);
    }
}

/// Parses the contents of a packet into messages.
pub fn messages_from_packet(packet: &[u8]) -> (r: Vec<Message>)
    ensures
        views(r@) == decode(packet@),
        all_wf(views(r@)),
{
    let available = packet.len();
    let mut index: usize = 0;
    let mut messages: Vec<Message> = Vec::new();
    proof {
        assert(packet@.subrange(0, available as int) =~= packet@);
        assert(views(messages@) + decode(packet@) =~= decode(packet@));
    }
    while available - index >= MESSAGE_HEADER_BYTES
        invariant
            index <= available,
            available == packet@.len(),
            views(messages@) + decode(packet@.subrange(index as int, available as int)) == decode(
                packet@,
            ),
            all_wf(views(messages@)),
        decreases available - index,
    {
        let ghost rest = packet@.subrange(index as int, available as int);
        let b0 = packet[index];
        let b1 = packet[index + 1];
        let size = packet[index + 2] as usize;
        let end = if size <= available - index - MESSAGE_HEADER_BYTES {
            index + MESSAGE_HEADER_BYTES + size
        } else {
            available
        };
        let data = slice_to_vec(slice_subrange(packet, index + MESSAGE_HEADER_BYTES, end));
        let order = (b0 / 16) as u16 * 256 + b1 as u16;
        let m = Message { kind: MessageKind::from_byte(b0), order, data };
        proof {
            assert(rest[0] == b0 && rest[1] == b1 && rest[2] == size);
            assert(frame_end(rest) == end - index);
            assert(rest.subrange(3, frame_end(rest)) =~= data@);
            assert(m@ == decode_head(rest));
            assert(rest.subrange(frame_end(rest), rest.len() as int) =~= packet@.subrange(
                end as int,
                available as int,
            ));
            assert(views(messages@.push(m)) =~= views(messages@).push(m@));
        }
        messages.push(m);
        index = end;
        proof {
            assert(views(messages@) + decode(packet@.subrange(index as int, available as int))
                =~= views(messages@.drop_last()) + decode(rest));
            assert(all_wf(views(messages@))) by {
                assert forall|i: int| 0 <= i < views(messages@).len() implies (
                #[trigger] views(messages@)[i]).wf() by {
                    if i < messages@.len() - 1 {
                        assert(views(messages@)[i] == views(messages@.drop_last())[i]);
                    }
                }
            }
        }
    }
    proof {
        assert(decode(packet@.subrange(index as int, available as int)) == Seq::<
            MessageView,
        >::empty());
        assert(views(messages@) + Seq::<MessageView>::empty() =~= views(messages@));
    }
    messages
}

} // verus!
