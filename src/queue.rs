use vstd::prelude::*;
use std::collections::VecDeque;
use crate::message::{
    Message, MessageKind, MessageView, MAX_ORDER_ID, views, all_wf, encode_all, decode,
    messages_from_packet,
};
use crate::sequence::{is_more_recent, next_order, order_is_more_recent, increment_order};
use crate::packer::{
    pack, fill, take_one, quota_count, quota_bytes, quota_of, write_message, write_messages,
};

verus! {

/// The share of a packet, in percent, that the quota pass of packing grants
/// to each kind of message.
#[derive(Debug, Copy, Clone, PartialEq, Eq, Structural)]
pub struct Config {
    pub message_quota_instant: u8,
    pub message_quota_reliable: u8,
    pub message_quota_ordered: u8,
}

impl Config {
    pub open spec fn wf(self) -> bool {
        &&& self.message_quota_instant <= 100
        &&& self.message_quota_reliable <= 100
        &&& self.message_quota_ordered <= 100
    }
}

impl Default for Config {
    fn default() -> (r: Config)
        ensures
            r == (Config {
                message_quota_instant: 60,
                message_quota_reliable: 20,
                message_quota_ordered: 20,
            }),
    {
        Config { message_quota_instant: 60, message_quota_reliable: 20, message_quota_ordered: 20 }
    }
}

/// The mathematical state of a `MessageQueue`.
pub struct QueueState {
    pub config: Config,
    /// Sequence number of the next ordered message sent.
    pub local_order: nat,
    /// Sequence number expected of the next ordered message received.
    pub remote_order: nat,
    /// Outgoing messages of each kind, first to leave first.
    pub instant: Seq<MessageView>,
    pub reliable: Seq<MessageView>,
    pub ordered: Seq<MessageView>,
    /// Received messages ready for the application, in delivery order.
    pub received: Seq<MessageView>,
    /// Ordered messages received ahead of their turn.
    pub pending: Seq<MessageView>,
}

/// Whether some message of `s` carries sequence number `o`.
pub open spec fn has_order(s: Seq<MessageView>, o: nat) -> bool {
    exists|j: int| 0 <= j < s.len() && s[j].order == o
}

/// Every message of `s` is of the ordered kind.
pub open spec fn all_ordered(s: Seq<MessageView>) -> bool {
    forall|k: int| 0 <= k < s.len() ==> (#[trigger] s[k]).kind == MessageKind::Ordered
}

/// No two messages of `s` carry the same sequence number.
pub open spec fn orders_distinct(s: Seq<MessageView>) -> bool {
    forall|a: int, b: int| 0 <= a < s.len() && 0 <= b < s.len() && a != b ==> s[a].order != s[b].order
}

impl QueueState {
    pub open spec fn wf(self) -> bool {
        &&& self.config.wf()
        &&& self.local_order < MAX_ORDER_ID
        &&& self.remote_order < MAX_ORDER_ID
        &&& all_wf(self.instant)
        &&& all_wf(self.reliable)
        &&& all_wf(self.ordered)
        &&& all_wf(self.received)
        &&& all_wf(self.pending)
        &&& orders_distinct(self.pending)
        &&& all_ordered(self.pending)
    }
}

/// Releases buffered messages while one of them carries the expected sequence
/// number `remote`. Gives the next expected sequence number, the messages
/// released in order, and the messages left in the buffer.
pub open spec fn drain(remote: nat, pending: Seq<MessageView>) -> (nat, Seq<MessageView>, Seq<
    MessageView,
>)
    decreases pending.len(),
{
    if has_order(pending, remote) {
        let j = choose|j: int| 0 <= j < pending.len() && pending[j].order == remote;
        let (r2, released, left) = drain(next_order(remote), pending.remove(j));
        (r2, seq![pending[j]] + released, left)
    } else {
        (remote, Seq::empty(), pending)
    }
}

/// The state after receiving one message.
pub open spec fn receive_message(s: QueueState, m: MessageView) -> QueueState {
    match m.kind {
        MessageKind::Instant => QueueState { received: s.received.push(m), ..s },
        MessageKind::Reliable => QueueState { received: s.received.push(m), ..s },
        MessageKind::Ordered => {
            if m.order == s.remote_order {
                let (r2, released, left) = drain(next_order(s.remote_order), s.pending);
                QueueState {
                    received: s.received.push(m) + released,
                    remote_order: r2,
                    pending: left,
                    ..s
                }
            } else if is_more_recent(m.order as int, s.remote_order as int) && !has_order(
                s.pending,
                m.order,
            ) {
                QueueState { pending: s.pending.push(m), ..s }
            } else {
                s
            }
        },
        MessageKind::Invalid => s,
    }
}

/// The state after receiving messages one after the other.
pub open spec fn receive_all(s: QueueState, ms: Seq<MessageView>) -> QueueState
    decreases ms.len(),
{
    if ms.len() == 0 {
        s
    } else {
        receive_message(receive_all(s, ms.drop_last()), ms.last())
    }
}

/// The state after learning that one message was lost: reliable and ordered
/// messages go back to the head of their queue, the others are dropped.
pub open spec fn lose_message(s: QueueState, m: MessageView) -> QueueState {
    match m.kind {
        MessageKind::Reliable => QueueState { reliable: seq![m] + s.reliable, ..s },
        MessageKind::Ordered => QueueState { ordered: seq![m] + s.ordered, ..s },
        _ => s,
    }
}

/// The state after learning that the messages of a packet were lost.
pub open spec fn lose_all(s: QueueState, ms: Seq<MessageView>) -> QueueState
    decreases ms.len(),
{
    if ms.len() == 0 {
        s
    } else {
        lose_message(lose_all(s, ms.drop_last()), ms.last())
    }
}

/// The state after queueing a payload for sending. Ordered messages take the
/// local sequence number, which then moves on; the others carry zero.
pub open spec fn send_message(s: QueueState, kind: MessageKind, data: Seq<u8>) -> QueueState {
    match kind {
        MessageKind::Instant => QueueState {
            instant: s.instant.push(MessageView { kind, order: 0, data }),
            ..s
        },
        MessageKind::Reliable => QueueState {
            reliable: s.reliable.push(MessageView { kind, order: 0, data }),
            ..s
        },
        MessageKind::Ordered => QueueState {
            ordered: s.ordered.push(MessageView { kind, order: s.local_order, data }),
            local_order: next_order(s.local_order),
            ..s
        },
        MessageKind::Invalid => s,
    }
}

/// The state after a reset: same configuration, nothing else.
pub open spec fn reset_state(s: QueueState) -> QueueState {
    QueueState {
        config: s.config,
        local_order: 0,
        remote_order: 0,
        instant: Seq::empty(),
        reliable: Seq::empty(),
        ordered: Seq::empty(),
        received: Seq::empty(),
        pending: Seq::empty(),
    }
}

/// A consuming iterator over the received messages of a `MessageQueue`.
pub struct MessageIterator {
    messages: VecDeque<Message>,
}

impl View for MessageIterator {
    type V = Seq<Seq<u8>>;

    closed spec fn view(&self) -> Seq<Seq<u8>> {
        views(self.messages@).map_values(|m: MessageView| m.data)
    }
}

impl MessageIterator {
    /// Takes the next payload out of the iterator.
    pub fn next(&mut self) -> (r: Option<Vec<u8>>)
        ensures
            old(self)@.len() == 0 ==> r.is_none() && final(self)@ == old(self)@,
            old(self)@.len() > 0 ==> r.is_some() && r.unwrap()@ == old(self)@[0] && final(self)@
                == old(self)@.drop_first(),
    {
        let ghost before = self.messages@;
        match self.messages.pop_front() {
            Some(m) => {
                proof {
                    assert(self@ =~= views(before).map_values(|m: MessageView| m.data).drop_first());
                }
                Some(m.data)
            },
            None => None,
        }
    }
}

/// A queue that manages the sending and receiving of both reliable and
/// unreliable messages and also supports in-order delivery of messages.
pub struct MessageQueue {
    config: Config,
    local_order_id: u16,
    remote_order_id: u16,
    i_queue: VecDeque<Message>,
    r_queue: VecDeque<Message>,
    o_queue: VecDeque<Message>,
    recv_queue: VecDeque<Message>,
    /// Ordered messages received ahead of their turn, at most one for each
    /// sequence number.
    o_recv_buffer: Vec<Message>,
}

impl View for MessageQueue {
    type V = QueueState;

    closed spec fn view(&self) -> QueueState {
        QueueState {
            config: self.config,
            local_order: self.local_order_id as nat,
            remote_order: self.remote_order_id as nat,
            instant: views(self.i_queue@),
            reliable: views(self.r_queue@),
            ordered: views(self.o_queue@),
            received: views(self.recv_queue@),
            pending: views(self.o_recv_buffer@),
        }
    }
}

impl MessageQueue {
    pub open spec fn wf(&self) -> bool {
        self@.wf()
    }

    /// Creates a new, empty queue.
    pub fn new(config: Config) -> (q: MessageQueue)
        requires
            config.wf(),
        ensures
            q.wf(),
            q@ == reset_state(q@),
            q@.config == config,
    {
        let q = MessageQueue {
            config,
            local_order_id: 0,
            remote_order_id: 0,
            i_queue: VecDeque::new(),
            r_queue: VecDeque::new(),
            o_queue: VecDeque::new(),
            recv_queue: VecDeque::new(),
            o_recv_buffer: Vec::new(),
        };
        proof {
            lemma_views_empty(q.i_queue@);
            lemma_views_empty(q.r_queue@);
            lemma_views_empty(q.o_queue@);
            lemma_views_empty(q.recv_queue@);
            lemma_views_empty(q.o_recv_buffer@);
            assert(q@ =~= reset_state(q@));
        }
        q
    }

    /// Returns a consuming iterator over all received messages, leaving none
    /// in the queue.
    pub fn received(&mut self) -> (it: MessageIterator)
        requires
            old(self).wf(),
        ensures
            final(self).wf(),
            it@ == old(self)@.received.map_values(|m: MessageView| m.data),
            final(self)@ == (QueueState { received: Seq::empty(), ..old(self)@ }),
    {
        let mut messages: VecDeque<Message> = VecDeque::new();
        std::mem::swap(&mut self.recv_queue, &mut messages);
        proof {
            assert(views(self.recv_queue@) =~= Seq::<MessageView>::empty());
            assert(self@ =~= (QueueState { received: Seq::empty(), ..old(self)@ }));
        }
        MessageIterator { messages }
    }

    /// Queues a payload of the given kind for sending.
    pub fn send(&mut self, kind: MessageKind, data: Vec<u8>)
        requires
            old(self).wf(),
            data@.len() <= 255,
        ensures
            final(self).wf(),
            final(self)@ == send_message(old(self)@, kind, data@),
    {
        let ghost s0 = self@;
        match kind {
            MessageKind::Instant => {
                let m = Message { kind, order: 0, data };
                self.i_queue.push_back(m);
                proof {
                    lemma_views_push(old(self).i_queue@, m);
                }
            },
            MessageKind::Reliable => {
                let m = Message { kind, order: 0, data };
                self.r_queue.push_back(m);
                proof {
                    lemma_views_push(old(self).r_queue@, m);
                }
            },
            MessageKind::Ordered => {
                let m = Message { kind, order: self.local_order_id, data };
                self.o_queue.push_back(m);
                self.local_order_id = increment_order(self.local_order_id);
                proof {
                    lemma_views_push(old(self).o_queue@, m);
                }
            },
            MessageKind::Invalid => {},
        }
        proof {
            assert(self@ =~= send_message(s0, kind, data@));
        }
    }

    /// Serializes queued messages into `packet`, within `available` bytes.
    ///
    /// First each kind, in the order instant, reliable, ordered, fills its
    /// quota of the available bytes from the head of its queue. Then the
    /// space left is filled by taking one message of each kind in turn, until
    /// a whole round fits none.
    pub fn send_packet(&mut self, packet: &mut Vec<u8>, available: usize)
        requires
            old(self).wf(),
        ensures
            final(self).wf(),
            ({
                let s = old(self)@;
                let (bytes, i, r, o) = pack(
                    s.instant,
                    s.reliable,
                    s.ordered,
                    available as nat,
                    s.config.message_quota_instant as nat,
                    s.config.message_quota_reliable as nat,
                    s.config.message_quota_ordered as nat,
                );
                &&& final(packet)@ == old(packet)@ + bytes
                &&& final(self)@ == (QueueState { instant: i, reliable: r, ordered: o, ..s })
            }),
    {
        let ghost s0 = self@;
        let ghost start = packet@;
        let qi = quota_of(available, self.config.message_quota_instant);
        let qr = quota_of(available, self.config.message_quota_reliable);
        let qo = quota_of(available, self.config.message_quota_ordered);
        let mut wi: usize = 0;
        write_messages(&mut self.i_queue, packet, qi, &mut wi);
        let mut wr: usize = 0;
        write_messages(&mut self.r_queue, packet, qr, &mut wr);
        let mut wo: usize = 0;
        write_messages(&mut self.o_queue, packet, qo, &mut wo);
        let mut left: usize = available;
        left = if wi <= left { left - wi } else { 0 };
        left = if wr <= left { left - wr } else { 0 };
        left = if wo <= left { left - wo } else { 0 };
        let ghost after_quota = packet@;
        let ghost target = fill(views(self.i_queue@), views(self.r_queue@), views(self.o_queue@), left as int);
        let mut used: usize = 0;
        let mut more = true;
        while more
            invariant
                used <= left,
                all_wf(views(self.i_queue@)),
                all_wf(views(self.r_queue@)),
                all_wf(views(self.o_queue@)),
                self.config == s0.config,
                self.local_order_id == s0.local_order,
                self.remote_order_id == s0.remote_order,
                views(self.recv_queue@) == s0.received,
                views(self.o_recv_buffer@) == s0.pending,
                ({
                    let f = fill(views(self.i_queue@), views(self.r_queue@), views(self.o_queue@), left - used);
                    &&& after_quota + target.0 == packet@ + f.0
                    &&& f.1 == target.1
                    &&& f.2 == target.2
                    &&& f.3 == target.3
                    &&& !more ==> f.0 == Seq::<u8>::empty() && f.1 == views(self.i_queue@) && f.2
                        == views(self.r_queue@) && f.3 == views(self.o_queue@)
                }),
            decreases self.i_queue@.len() + self.r_queue@.len() + self.o_queue@.len() + if more {
                1int
            } else {
                0int
            },
        {
            let ghost gi = views(self.i_queue@);
            let ghost gr = views(self.r_queue@);
            let ghost go = views(self.o_queue@);
            let ghost g = left - used;
            let ghost pb = packet@;
            let a = write_message(&mut self.i_queue, packet, left, &mut used);
            let b = write_message(&mut self.r_queue, packet, left, &mut used);
            let c = write_message(&mut self.o_queue, packet, left, &mut used);
            more = a || b || c;
            proof {
                let (b1, i1, g1) = take_one(gi, g);
                let (b2, r1, g2) = take_one(gr, g1);
                let (b3, o1, g3) = take_one(go, g2);
                assert(i1 == views(self.i_queue@));
                assert(r1 == views(self.r_queue@));
                assert(o1 == views(self.o_queue@));
                assert(g3 == left - used);
                assert(packet@ == pb + b1 + b2 + b3);
                if more {
                    assert(i1.len() + r1.len() + o1.len() < gi.len() + gr.len() + go.len());
                    let f = fill(i1, r1, o1, g3);
                    assert(fill(gi, gr, go, g).0 == b1 + b2 + b3 + f.0);
                    assert(pb + (b1 + b2 + b3 + f.0) =~= pb + b1 + b2 + b3 + f.0);
                } else {
                    assert(b1 == Seq::<u8>::empty() && b2 == Seq::<u8>::empty() && b3
                        == Seq::<u8>::empty());
                    assert(packet@ =~= pb);
                }
            }
        }
        proof {
            let ki = quota_count(s0.instant, quota_bytes(available as nat, s0.config.message_quota_instant as nat) as int);
            let kr = quota_count(s0.reliable, quota_bytes(available as nat, s0.config.message_quota_reliable as nat) as int);
            let ko = quota_count(s0.ordered, quota_bytes(available as nat, s0.config.message_quota_ordered as nat) as int);
            let quota_part = encode_all(s0.instant.take(ki as int)) + encode_all(s0.reliable.take(kr as int)) + encode_all(
                s0.ordered.take(ko as int),
            );
            assert(after_quota =~= start + quota_part);
            assert(quota_part.len() == wi + wr + wo);
            assert(packet@ =~= start + (quota_part + target.0));
            assert(self@ =~= (QueueState { instant: target.1, reliable: target.2, ordered: target.3, ..s0 }));
        }
    }

    /// Index of the buffered message carrying sequence number `order`, or the
    /// length of the buffer if none does.
    fn find_pending(&self, order: u16) -> (r: usize)
        ensures
            r <= self.o_recv_buffer@.len(),
            r < self.o_recv_buffer@.len() ==> self.o_recv_buffer@[r as int].order == order,
            r == self.o_recv_buffer@.len() <==> !has_order(self@.pending, order as nat),
    {
        let mut j: usize = 0;
        while j < self.o_recv_buffer.len() && self.o_recv_buffer[j as usize].order != order
            invariant
                j <= self.o_recv_buffer@.len(),
                forall|k: int| 0 <= k < j ==> self.o_recv_buffer@[k].order != order,
            decreases self.o_recv_buffer@.len() - j,
        {
            j = j + 1;
        }
        proof {
            if j < self.o_recv_buffer@.len() {
                assert(self@.pending[j as int].order == order as nat);
            } else {
                assert forall|k: int| 0 <= k < self@.pending.len() implies self@.pending[k].order
                    != order as nat by {
                    assert(self@.pending[k] == self.o_recv_buffer@[k]@);
                }
            }
        }
        j
    }

    /// Delivers an ordered message that carries the expected sequence number,
    /// then every buffered message that has become the expected one. Buffers
    /// a message from the near future unless one with its sequence number is
    /// buffered already, and drops any other.
    fn receive_ordered_message(&mut self, m: Message)
        requires
            old(self).wf(),
            m@.wf(),
            m.kind == MessageKind::Ordered,
        ensures
            final(self).wf(),
            final(self)@ == receive_message(old(self)@, m@),
    {
        let ghost s0 = self@;
        if m.order == self.remote_order_id {
            let ghost target = drain(next_order(s0.remote_order), s0.pending);
            let ghost mv = m@;
            self.recv_queue.push_back(m);
            self.remote_order_id = increment_order(self.remote_order_id);
            proof {
                lemma_views_push(old(self).recv_queue@, m);
                assert(views(self.recv_queue@) + drain(self@.remote_order, self@.pending).1
                    =~= s0.received.push(mv) + target.1);
            }
            loop
                invariant
                    self@.wf(),
                    self.config == s0.config,
                    self.local_order_id == s0.local_order,
                    views(self.i_queue@) == s0.instant,
                    views(self.r_queue@) == s0.reliable,
                    views(self.o_queue@) == s0.ordered,
                    drain(self@.remote_order, self@.pending).0 == target.0,
                    drain(self@.remote_order, self@.pending).2 == target.2,
                    views(self.recv_queue@) + drain(self@.remote_order, self@.pending).1
                        == s0.received.push(mv) + target.1,
                ensures
                    self@.wf(),
                    self.config == s0.config,
                    self.local_order_id == s0.local_order,
                    views(self.i_queue@) == s0.instant,
                    views(self.r_queue@) == s0.reliable,
                    views(self.o_queue@) == s0.ordered,
                    self@.remote_order == target.0,
                    self@.pending == target.2,
                    self@.received == s0.received.push(mv) + target.1,
                decreases self.o_recv_buffer@.len(),
            {
                let j = self.find_pending(self.remote_order_id);
                if j == self.o_recv_buffer.len() {
                    proof {
                        assert(views(self.recv_queue@) + Seq::<MessageView>::empty() =~= views(
                            self.recv_queue@,
                        ));
                    }
                    break;
                }
                let ghost pend = self@.pending;
                let ghost rem = self@.remote_order;
                let ghost recv = views(self.recv_queue@);
                let msg = self.o_recv_buffer.remove(j);
                let ghost w = msg@;
                self.recv_queue.push_back(msg);
                self.remote_order_id = increment_order(self.remote_order_id);
                proof {
                    let c = choose|c: int| 0 <= c < pend.len() && pend[c].order == rem;
                    assert(pend[j as int].order == rem);
                    assert(c == j);
                    assert(self@.pending =~= pend.remove(j as int));
                    lemma_remove_keeps(pend, j as int);
                    assert(w == pend[j as int]);
                    assert(views(self.recv_queue@) =~= recv.push(w));
                    assert(all_wf(views(self.recv_queue@))) by {
                        assert forall|k: int| 0 <= k < views(self.recv_queue@).len() implies (
                        #[trigger] views(self.recv_queue@)[k]).wf() by {
                            if k < recv.len() {
                                assert(views(self.recv_queue@)[k] == recv[k]);
                            }
                        }
                    }
                    let d = drain(next_order(rem), pend.remove(j as int));
                    assert(drain(rem, pend).1 == seq![w] + d.1);
                    assert(recv + (seq![w] + d.1) =~= recv.push(w) + d.1);
                }
            }
        } else if order_is_more_recent(m.order, self.remote_order_id) {
            let j = self.find_pending(m.order);
            if j == self.o_recv_buffer.len() {
                let ghost mv = m@;
                let ghost pend = self@.pending;
                self.o_recv_buffer.push(m);
                proof {
                    assert(self@.pending =~= pend.push(mv));
                    assert(all_wf(self@.pending)) by {
                        assert forall|k: int| 0 <= k < self@.pending.len() implies (
                        #[trigger] self@.pending[k]).wf() by {
                            if k < pend.len() {
                                assert(self@.pending[k] == pend[k]);
                            }
                        }
                    }
                    assert(all_ordered(self@.pending)) by {
                        assert forall|k: int| 0 <= k < self@.pending.len() implies (
                        #[trigger] self@.pending[k]).kind == MessageKind::Ordered by {
                            if k < pend.len() {
                                assert(self@.pending[k] == pend[k]);
                            }
                        }
                    }
                    assert(orders_distinct(self@.pending)) by {
                        assert forall|a: int, b: int|
                            0 <= a < self@.pending.len() && 0 <= b < self@.pending.len() && a
                                != b implies self@.pending[a].order != self@.pending[b].order by {
                            if a < pend.len() && b < pend.len() {
                                assert(self@.pending[a] == pend[a]);
                                assert(self@.pending[b] == pend[b]);
                            } else if a < pend.len() {
                                assert(self@.pending[a] == pend[a]);
                            } else {
                                assert(self@.pending[b] == pend[b]);
                            }
                        }
                    }
                    assert(self@ =~= receive_message(s0, mv));
                }
            }
        }
    }

    /// Parses the contents of a packet into messages: instant and reliable
    /// messages become ready at once, ordered ones in the order of their
    /// sequence numbers, invalid ones are dropped.
    pub fn receive_packet(&mut self, packet: &[u8])
        requires
            old(self).wf(),
        ensures
            final(self).wf(),
            final(self)@ == receive_all(old(self)@, decode(packet@)),
    {
        let mut messages = messages_from_packet(packet);
        let ghost ms = views(messages@);
        let ghost s0 = self@;
        let ghost mut k: int = 0;
        proof {
            assert(ms.take(0) =~= Seq::<MessageView>::empty());
            assert(ms.skip(0) =~= ms);
        }
        while messages.len() > 0
            invariant
                self.wf(),
                0 <= k <= ms.len(),
                views(messages@) == ms.skip(k),
                all_wf(ms),
                self@ == receive_all(s0, ms.take(k)),
            decreases messages@.len(),
        {
            let ghost rest = messages@;
            proof {
                assert(views(rest).len() == rest.len());
                assert(views(rest)[0] == rest[0]@);
            }
            let m = messages.remove(0);
            proof {
                assert(m@ == ms[k]);
                assert forall|i: int| 0 <= i < views(messages@).len() implies views(messages@)[i]
                    == ms.skip(k + 1)[i] by {
                    assert(views(messages@)[i] == views(rest)[i + 1]);
                }
                assert(views(messages@) =~= ms.skip(k + 1));
                assert(ms.take(k + 1).drop_last() =~= ms.take(k));
            }
            match m.kind {
                MessageKind::Instant | MessageKind::Reliable => {
                    let ghost mv = m@;
                    self.recv_queue.push_back(m);
                    proof {
                        assert(self@ =~= receive_message(receive_all(s0, ms.take(k)), mv)) by {
                            assert(views(self.recv_queue@) =~= receive_all(s0, ms.take(k)).received.push(mv));
                        }
                        assert(all_wf(self@.received)) by {
                            let prev = receive_all(s0, ms.take(k)).received;
                            assert forall|j: int| 0 <= j < self@.received.len() implies (
                            #[trigger] self@.received[j]).wf() by {
                                if j < prev.len() {
                                    assert(self@.received[j] == prev[j]);
                                }
                            }
                        }
                    }
                },
                MessageKind::Ordered => self.receive_ordered_message(m),
                MessageKind::Invalid => {},
            }
            proof {
                k = k + 1;
            }
        }
        proof {
            assert(ms.take(k) =~= ms);
        }
    }

    /// Parses the contents of a lost packet into messages: instant messages
    /// are dropped, reliable and ordered ones go back to the head of their
    /// queue to be sent again before anything queued later.
    pub fn lost_packet(&mut self, packet: &[u8])
        requires
            old(self).wf(),
        ensures
            final(self).wf(),
            final(self)@ == lose_all(old(self)@, decode(packet@)),
    {
        let mut messages = messages_from_packet(packet);
        let ghost ms = views(messages@);
        let ghost s0 = self@;
        let ghost mut k: int = 0;
        proof {
            assert(ms.take(0) =~= Seq::<MessageView>::empty());
            assert(ms.skip(0) =~= ms);
        }
        while messages.len() > 0
            invariant
                self.wf(),
                0 <= k <= ms.len(),
                views(messages@) == ms.skip(k),
                all_wf(ms),
                self@ == lose_all(s0, ms.take(k)),
            decreases messages@.len(),
        {
            let ghost rest = messages@;
            proof {
                assert(views(rest).len() == rest.len());
                assert(views(rest)[0] == rest[0]@);
            }
            let m = messages.remove(0);
            let ghost mv = m@;
            let ghost prev = self@;
            proof {
                assert(m@ == ms[k]);
                assert forall|i: int| 0 <= i < views(messages@).len() implies views(messages@)[i]
                    == ms.skip(k + 1)[i] by {
                    assert(views(messages@)[i] == views(rest)[i + 1]);
                }
                assert(views(messages@) =~= ms.skip(k + 1));
                assert(ms.take(k + 1).drop_last() =~= ms.take(k));
            }
            match m.kind {
                MessageKind::Reliable => {
                    self.r_queue.push_front(m);
                    proof {
                        assert(views(self.r_queue@) =~= seq![mv] + prev.reliable);
                        lemma_all_wf_prepend(mv, prev.reliable);
                    }
                },
                MessageKind::Ordered => {
                    self.o_queue.push_front(m);
                    proof {
                        assert(views(self.o_queue@) =~= seq![mv] + prev.ordered);
                        lemma_all_wf_prepend(mv, prev.ordered);
                    }
                },
                _ => {},
            }
            proof {
                assert(self@ =~= lose_message(prev, mv));
                k = k + 1;
            }
        }
        proof {
            assert(ms.take(k) =~= ms);
        }
    }

    /// Resets the queue, clearing all its internal structures and sequence
    /// numbers.
    pub fn reset(&mut self)
        requires
            old(self).wf(),
        ensures
            final(self).wf(),
            final(self)@ == reset_state(old(self)@),
    {
        self.local_order_id = 0;
        self.remote_order_id = 0;
        self.i_queue.clear();
        self.r_queue.clear();
        self.o_queue.clear();
        self.recv_queue.clear();
        self.o_recv_buffer.clear();
        proof {
            lemma_views_empty(self.i_queue@);
            lemma_views_empty(self.r_queue@);
            lemma_views_empty(self.o_queue@);
            lemma_views_empty(self.recv_queue@);
            lemma_views_empty(self.o_recv_buffer@);
            assert(self@ =~= reset_state(old(self)@));
        }
    }
}

proof fn lemma_all_wf_prepend(m: MessageView, s: Seq<MessageView>)
    requires
        m.wf(),
        all_wf(s),
    ensures
        all_wf(seq![m] + s),
{
    assert forall|k: int| 0 <= k < (seq![m] + s).len() implies (#[trigger] (seq![m] + s)[k]).wf() by {
        if k > 0 {
            assert((seq![m] + s)[k] == s[k - 1]);
        }
    }
}

pub proof fn lemma_remove_keeps(s: Seq<MessageView>, j: int)
    requires
        0 <= j < s.len(),
        all_wf(s),
        orders_distinct(s),
        all_ordered(s),
    ensures
        all_wf(s.remove(j)),
        orders_distinct(s.remove(j)),
        all_ordered(s.remove(j)),
{
    let t = s.remove(j);
    assert forall|k: int| 0 <= k < t.len() implies (#[trigger] t[k]).wf() && t[k].kind
        == MessageKind::Ordered by {
        if k < j {
            assert(t[k] == s[k]);
        } else {
            assert(t[k] == s[k + 1]);
        }
    }
    assert forall|a: int, b: int| 0 <= a < t.len() && 0 <= b < t.len() && a != b implies t[a].order
        != t[b].order by {
        let sa = if a < j { a } else { a + 1 };
        let sb = if b < j { b } else { b + 1 };
        assert(t[a] == s[sa]);
        assert(t[b] == s[sb]);
    }
}

proof fn lemma_views_empty(s: Seq<Message>)
    requires
        s.len() == 0,
    ensures
        views(s) == Seq::<MessageView>::empty(),
{
    assert(views(s) =~= Seq::<MessageView>::empty());
}

proof fn lemma_views_push(s: Seq<Message>, m: Message)
    requires
        all_wf(views(s)),
        m@.wf(),
    ensures
        views(s.push(m)) == views(s).push(m@),
        all_wf(views(s.push(m))),
{
    assert(views(s.push(m)) =~= views(s).push(m@));
}

} // verus!
