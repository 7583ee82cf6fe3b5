use vstd::prelude::*;
use crate::message::{
    MessageKind, MessageView, MAX_ORDER_ID, all_wf, encode, encode_all, decode, lemma_round_trip,
};
use crate::packer::{pack, fill, take_one, quota_count, quota_bytes};
use crate::queue::{
    QueueState, lose_all, reset_state, send_message, receive_message, receive_all, drain,
    has_order, all_ordered, orders_distinct, lemma_remove_keeps,
};
use crate::sequence::next_order;
use vstd::arithmetic::div_mod::lemma_add_mod_noop_right;

verus! {

/// After a reset, packing writes nothing whatever the number of available
/// bytes, and the first ordered message sent afterwards carries sequence
/// number zero.
pub proof fn lemma_reset_packs_nothing(s: QueueState, available: nat, data: Seq<u8>)
    ensures
        ({
            let z = reset_state(s);
            pack(
                z.instant,
                z.reliable,
                z.ordered,
                available,
                z.config.message_quota_instant as nat,
                z.config.message_quota_reliable as nat,
                z.config.message_quota_ordered as nat,
            ).0 == Seq::<u8>::empty()
        }),
        send_message(reset_state(s), MessageKind::Ordered, data).ordered == seq![
            MessageView { kind: MessageKind::Ordered, order: 0, data },
        ],
{
    let e = Seq::<MessageView>::empty();
    assert(e.take(0) =~= e);
    assert(e.skip(0) =~= e);
    assert(encode_all(e) == Seq::<u8>::empty());
    let f = fill(e, e, e, available as int);
    assert(f.0 == Seq::<u8>::empty());
    assert(Seq::<u8>::empty() + Seq::<u8>::empty() + Seq::<u8>::empty() + Seq::<u8>::empty()
        =~= Seq::<u8>::empty());
    assert(e.push(MessageView { kind: MessageKind::Ordered, order: 0, data }) =~= seq![
        MessageView { kind: MessageKind::Ordered, order: 0, data },
    ]);
}

/// When a packet holding an instant, a reliable and an ordered message is
/// lost, the reliable and the ordered message go back to the head of their
/// queues, ahead of everything queued before, and the instant message is
/// dropped.
pub proof fn lemma_loss_requeues(
    s: QueueState,
    i: MessageView,
    r: MessageView,
    o: MessageView,
)
    requires
        i.wf(),
        r.wf(),
        o.wf(),
        i.kind == MessageKind::Instant,
        r.kind == MessageKind::Reliable,
        o.kind == MessageKind::Ordered,
    ensures
        ({
            let s2 = lose_all(s, decode(encode_all(seq![i, r, o])));
            &&& s2.reliable == seq![r] + s.reliable
            &&& s2.ordered == seq![o] + s.ordered
            &&& s2.instant == s.instant
            &&& s2.received == s.received
        }),
{
    let ms = seq![i, r, o];
    assert(all_wf(ms));
    lemma_round_trip(ms);
    assert(ms.drop_last() =~= seq![i, r]);
    assert(seq![i, r].drop_last() =~= seq![i]);
    assert(seq![i].drop_last() =~= Seq::<MessageView>::empty());
    let e = Seq::<MessageView>::empty();
    assert(lose_all(s, e) == s);
    assert(seq![i].last() == i);
    assert(lose_all(s, seq![i]) == s);
    assert(seq![i, r].last() == r);
    let s1 = lose_all(s, seq![i, r]);
    assert(s1 == QueueState { reliable: seq![r] + s.reliable, ..s });
    assert(ms.last() == o);
    assert(lose_all(s, ms) == QueueState { ordered: seq![o] + s.ordered, ..s1 });
}

/// The ordered messages among `ms`, in their order.
pub open spec fn ordered_only(ms: Seq<MessageView>) -> Seq<MessageView>
    decreases ms.len(),
{
    if ms.len() == 0 {
        Seq::empty()
    } else if ms.last().kind == MessageKind::Ordered {
        ordered_only(ms.drop_last()).push(ms.last())
    } else {
        ordered_only(ms.drop_last())
    }
}

/// The messages of `ms` carry the sequence numbers that follow one another
/// from `start` on, wrapping around.
pub open spec fn consecutive_from(ms: Seq<MessageView>, start: nat) -> bool {
    forall|k: int| 0 <= k < ms.len() ==> #[trigger] ms[k].order == (start + k) % (MAX_ORDER_ID as int)
}

/// The messages that became ready between two states.
pub open spec fn delivered(s: QueueState, s2: QueueState) -> Seq<MessageView> {
    s2.received.skip(s.received.len() as int)
}

proof fn lemma_ordered_only_add(a: Seq<MessageView>, b: Seq<MessageView>)
    ensures
        ordered_only(a + b) == ordered_only(a) + ordered_only(b),
    decreases b.len(),
{
    if b.len() == 0 {
        assert(a + b =~= a);
        assert(ordered_only(a) + ordered_only(b) =~= ordered_only(a));
    } else {
        assert((a + b).drop_last() =~= a + b.drop_last());
        assert((a + b).last() == b.last());
        lemma_ordered_only_add(a, b.drop_last());
        if b.last().kind == MessageKind::Ordered {
            assert(ordered_only(a) + ordered_only(b.drop_last()).push(b.last()) =~= (ordered_only(
                a,
            ) + ordered_only(b.drop_last())).push(b.last()));
        }
    }
}

proof fn lemma_ordered_only_all(a: Seq<MessageView>)
    requires
        all_ordered(a),
    ensures
        ordered_only(a) == a,
    decreases a.len(),
{
    if a.len() == 0 {
        assert(ordered_only(a) =~= a);
    } else {
        assert(all_ordered(a.drop_last())) by {
            assert forall|k: int| 0 <= k < a.drop_last().len() implies (
            #[trigger] a.drop_last()[k]).kind == MessageKind::Ordered by {
                assert(a.drop_last()[k] == a[k]);
            }
        }
        lemma_ordered_only_all(a.drop_last());
        assert(a.last() == a[a.len() - 1]);
        assert(a.drop_last().push(a.last()) =~= a);
    }
}

proof fn lemma_drain(r: nat, p: Seq<MessageView>)
    requires
        r < MAX_ORDER_ID,
        all_wf(p),
        orders_distinct(p),
        all_ordered(p),
    ensures
        ({
            let (r2, rel, left) = drain(r, p);
            &&& r2 == (r + rel.len()) as int % (MAX_ORDER_ID as int)
            &&& consecutive_from(rel, r)
            &&& all_ordered(rel)
            &&& all_wf(rel)
            &&& all_wf(left)
            &&& orders_distinct(left)
            &&& all_ordered(left)
        }),
    decreases p.len(),
{
    if has_order(p, r) {
        let j = choose|j: int| 0 <= j < p.len() && p[j].order == r;
        lemma_remove_keeps(p, j);
        let n = next_order(r);
        lemma_drain(n, p.remove(j));
        let (r3, rel2, left2) = drain(n, p.remove(j));
        let rel = seq![p[j]] + rel2;
        assert(drain(r, p) == (r3, rel, left2));
        assert(p[j].wf() && p[j].kind == MessageKind::Ordered);
        lemma_add_mod_noop_right(rel2.len() as int, r + 1int, MAX_ORDER_ID as int);
        assert forall|k: int| 0 <= k < rel.len() implies #[trigger] rel[k].order == (r + k) % (
        MAX_ORDER_ID as int) && rel[k].wf() && rel[k].kind == MessageKind::Ordered by {
            if k == 0 {
                assert(rel[0] == p[j]);
            } else {
                assert(rel[k] == rel2[k - 1]);
                lemma_add_mod_noop_right(k - 1, r + 1int, MAX_ORDER_ID as int);
            }
        }
    } else {
        assert(r as int % (MAX_ORDER_ID as int) == r);
    }
}

proof fn lemma_receive_message(s: QueueState, m: MessageView)
    requires
        s.wf(),
        m.wf(),
    ensures
        ({
            let s2 = receive_message(s, m);
            let d = ordered_only(delivered(s, s2));
            &&& s2.wf()
            &&& s.received.len() <= s2.received.len()
            &&& s2.received.take(s.received.len() as int) == s.received
            &&& consecutive_from(d, s.remote_order)
            &&& s2.remote_order == (s.remote_order + d.len()) as int % (MAX_ORDER_ID as int)
        }),
{
    let s2 = receive_message(s, m);
    let e = Seq::<MessageView>::empty();
    assert(s.remote_order as int % (MAX_ORDER_ID as int) == s.remote_order);
    match m.kind {
        MessageKind::Instant | MessageKind::Reliable => {
            assert(delivered(s, s2) =~= seq![m]);
            assert(seq![m].drop_last() =~= e);
            assert(ordered_only(seq![m]) == ordered_only(e));
            assert(s2.received.take(s.received.len() as int) =~= s.received);
            assert(all_wf(s2.received)) by {
                assert forall|k: int| 0 <= k < s2.received.len() implies (
                #[trigger] s2.received[k]).wf() by {
                    if k < s.received.len() {
                        assert(s2.received[k] == s.received[k]);
                    }
                }
            }
        },
        MessageKind::Ordered => {
            if m.order == s.remote_order {
                let n = next_order(s.remote_order);
                lemma_drain(n, s.pending);
                let (r2, rel, left) = drain(n, s.pending);
                let fresh = seq![m] + rel;
                assert(delivered(s, s2) =~= fresh);
                assert(s2.received =~= s.received + fresh);
                assert(s2.received.take(s.received.len() as int) =~= s.received);
                assert(all_ordered(fresh)) by {
                    assert forall|k: int| 0 <= k < fresh.len() implies (
                    #[trigger] fresh[k]).kind == MessageKind::Ordered by {
                        if k > 0 {
                            assert(fresh[k] == rel[k - 1]);
                        }
                    }
                }
                lemma_ordered_only_all(fresh);
                lemma_add_mod_noop_right(rel.len() as int, s.remote_order + 1int, MAX_ORDER_ID as int);
                assert forall|k: int| 0 <= k < fresh.len() implies #[trigger] fresh[k].order == (
                s.remote_order + k) % (MAX_ORDER_ID as int) && fresh[k].wf() by {
                    if k > 0 {
                        assert(fresh[k] == rel[k - 1]);
                        lemma_add_mod_noop_right(k - 1, s.remote_order + 1int, MAX_ORDER_ID as int);
                    }
                }
                assert(all_wf(s2.received)) by {
                    assert forall|k: int| 0 <= k < s2.received.len() implies (
                    #[trigger] s2.received[k]).wf() by {
                        if k < s.received.len() {
                            assert(s2.received[k] == s.received[k]);
                        } else {
                            assert(s2.received[k] == fresh[k - s.received.len()]);
                        }
                    }
                }
            } else {
                assert(delivered(s, s2) =~= e);
                assert(s2.received.take(s.received.len() as int) =~= s.received);
                if s2 != s {
                    let p = s.pending;
                    assert(s2.pending =~= p.push(m));
                    assert(all_wf(s2.pending)) by {
                        assert forall|k: int| 0 <= k < s2.pending.len() implies (
                        #[trigger] s2.pending[k]).wf() by {
                            if k < p.len() {
                                assert(s2.pending[k] == p[k]);
                            }
                        }
                    }
                    assert(all_ordered(s2.pending)) by {
                        assert forall|k: int| 0 <= k < s2.pending.len() implies (
                        #[trigger] s2.pending[k]).kind == MessageKind::Ordered by {
                            if k < p.len() {
                                assert(s2.pending[k] == p[k]);
                            }
                        }
                    }
                    assert(orders_distinct(s2.pending)) by {
                        assert forall|a: int, b: int|
                            0 <= a < s2.pending.len() && 0 <= b < s2.pending.len() && a
                                != b implies s2.pending[a].order != s2.pending[b].order by {
                            if a < p.len() {
                                assert(s2.pending[a] == p[a]);
                            }
                            if b < p.len() {
                                assert(s2.pending[b] == p[b]);
                            }
                        }
                    }
                }
            }
        },
        MessageKind::Invalid => {
            assert(delivered(s, s2) =~= e);
            assert(s2.received.take(s.received.len() as int) =~= s.received);
        },
    }
}

/// Ordered delivery never reorders: however the messages of received packets
/// arrive, the ordered messages that become ready carry the sequence numbers
/// that follow one another from the expected one on, and the expected number
/// moves past exactly those. Messages already ready stay as they were.
pub proof fn lemma_ordered_delivery_in_sequence(s: QueueState, ms: Seq<MessageView>)
    requires
        s.wf(),
        all_wf(ms),
    ensures
        ({
            let s2 = receive_all(s, ms);
            let d = ordered_only(delivered(s, s2));
            &&& s2.wf()
            &&& s.received.len() <= s2.received.len()
            &&& s2.received.take(s.received.len() as int) == s.received
            &&& consecutive_from(d, s.remote_order)
            &&& s2.remote_order == (s.remote_order + d.len()) as int % (MAX_ORDER_ID as int)
        }),
    decreases ms.len(),
{
    if ms.len() == 0 {
        assert(delivered(s, s) =~= Seq::<MessageView>::empty());
        assert(s.received.take(s.received.len() as int) =~= s.received);
        assert(s.remote_order as int % (MAX_ORDER_ID as int) == s.remote_order);
    } else {
        let init = ms.drop_last();
        assert(all_wf(init)) by {
            assert forall|k: int| 0 <= k < init.len() implies (#[trigger] init[k]).wf() by {
                assert(init[k] == ms[k]);
            }
        }
        lemma_ordered_delivery_in_sequence(s, init);
        let s1 = receive_all(s, init);
        assert(ms.last() == ms[ms.len() - 1]);
        lemma_receive_message(s1, ms.last());
        let s2 = receive_all(s, ms);
        let d1 = delivered(s, s1);
        let d2 = delivered(s1, s2);
        assert(s2.received.take(s1.received.len() as int) == s1.received);
        assert(delivered(s, s2) =~= d1 + d2) by {
            assert(s1.received =~= s.received + d1);
            assert(s2.received =~= s1.received + d2);
        }
        assert(s2.received.take(s.received.len() as int) =~= s.received) by {
            assert(s1.received.take(s.received.len() as int) == s.received);
            assert(s2.received.take(s.received.len() as int) =~= s1.received.take(
                s.received.len() as int,
            ));
        }
        lemma_ordered_only_add(d1, d2);
        let o1 = ordered_only(d1);
        let o2 = ordered_only(d2);
        let o = o1 + o2;
        lemma_add_mod_noop_right(o2.len() as int, s.remote_order + o1.len() as int, MAX_ORDER_ID as int);
        assert forall|k: int| 0 <= k < o.len() implies #[trigger] o[k].order == (s.remote_order
            + k) % (MAX_ORDER_ID as int) by {
            if k >= o1.len() {
                assert(o[k] == o2[k - o1.len()]);
                lemma_add_mod_noop_right(
                    k - o1.len(),
                    s.remote_order + o1.len() as int,
                    MAX_ORDER_ID as int,
                );
            }
        }
    }
}

/// The state after queueing the payloads `ps` as ordered messages, one
/// after the other.
pub open spec fn send_all_ordered(s: QueueState, ps: Seq<Seq<u8>>) -> QueueState
    decreases ps.len(),
{
    if ps.len() == 0 {
        s
    } else {
        send_message(send_all_ordered(s, ps.drop_last()), MessageKind::Ordered, ps.last())
    }
}

/// Ordered messages sent one after the other are queued in that order behind
/// those already queued, with the sequence numbers that follow one another
/// from the local one on; the local number moves past exactly those.
pub proof fn lemma_ordered_sends_in_sequence(s: QueueState, ps: Seq<Seq<u8>>)
    requires
        s.wf(),
    ensures
        ({
            let s2 = send_all_ordered(s, ps);
            let q = s2.ordered.skip(s.ordered.len() as int);
            &&& s.ordered.len() <= s2.ordered.len()
            &&& s2.ordered.take(s.ordered.len() as int) == s.ordered
            &&& q.len() == ps.len()
            &&& consecutive_from(q, s.local_order)
            &&& forall|k: int| 0 <= k < q.len() ==> #[trigger] q[k].data == ps[k] && q[k].kind
                == MessageKind::Ordered
            &&& s2.local_order == (s.local_order + ps.len()) as int % (MAX_ORDER_ID as int)
            &&& s2.received == s.received
            &&& s2.remote_order == s.remote_order
        }),
    decreases ps.len(),
{
    if ps.len() == 0 {
        assert(s.ordered.skip(s.ordered.len() as int) =~= Seq::<MessageView>::empty());
        assert(s.ordered.take(s.ordered.len() as int) =~= s.ordered);
        assert(s.local_order as int % (MAX_ORDER_ID as int) == s.local_order);
    } else {
        let init = ps.drop_last();
        lemma_ordered_sends_in_sequence(s, init);
        let s1 = send_all_ordered(s, init);
        let s2 = send_all_ordered(s, ps);
        let n = s.ordered.len() as int;
        let y = s.local_order + init.len() as int;
        let m = MessageView { kind: MessageKind::Ordered, order: s1.local_order, data: ps.last() };
        assert(s2.ordered == s1.ordered.push(m));
        let q1 = s1.ordered.skip(n);
        let q = s2.ordered.skip(n);
        assert(q =~= q1.push(m));
        assert(s2.ordered.take(n) =~= s1.ordered.take(n));
        assert(s1.ordered.take(n) == s.ordered);
        assert(q1.len() == init.len());
        assert(s1.local_order == y % (MAX_ORDER_ID as int));
        lemma_add_mod_noop_right(1, s.local_order + init.len() as int, MAX_ORDER_ID as int);
        assert forall|k: int| 0 <= k < q.len() implies #[trigger] q[k].order == (s.local_order
            + k) % (MAX_ORDER_ID as int) && q[k].data == ps[k] && q[k].kind == MessageKind::Ordered by {
            if k < q1.len() {
                assert(q[k] == q1[k]);
                assert(q1[k].order == (s.local_order + k) % (MAX_ORDER_ID as int));
                assert(q1[k].data == init[k]);
                assert(init[k] == ps[k]);
            } else {
                assert(q[k] == m);
                assert(ps.last() == ps[k]);
            }
        }
        assert(s1.local_order + 1 == 1 + y % (MAX_ORDER_ID as int));
        assert(s2.local_order == (1 + y) % (MAX_ORDER_ID as int));
    }
}

proof fn lemma_quota_len(q: Seq<MessageView>, b: int)
    requires
        b >= 0,
    ensures
        encode_all(q.take(quota_count(q, b) as int)).len() <= b,
        quota_count(q, b) <= q.len(),
    decreases q.len(),
{
    let k = quota_count(q, b) as int;
    if k == 0 {
        assert(q.take(0) =~= Seq::<MessageView>::empty());
        assert(encode_all(Seq::<MessageView>::empty()) == Seq::<u8>::empty());
    } else {
        let w = q[0].wire_len();
        lemma_quota_len(q.drop_first(), b - w);
        let t = q.take(k);
        assert(t.drop_first() =~= q.drop_first().take(k - 1));
        assert(t[0] == q[0]);
        assert(encode_all(t) == encode(q[0]) + encode_all(t.drop_first()));
    }
}

proof fn lemma_fill_len(i: Seq<MessageView>, r: Seq<MessageView>, o: Seq<MessageView>, g: int)
    requires
        g >= 0,
    ensures
        fill(i, r, o, g).0.len() <= g,
    decreases i.len() + r.len() + o.len(),
{
    let (b1, i1, g1) = take_one(i, g);
    let (b2, r1, g2) = take_one(r, g1);
    let (b3, o1, g3) = take_one(o, g2);
    assert(b1.len() + g1 == g && g1 >= 0);
    assert(b2.len() + g2 == g1 && g2 >= 0);
    assert(b3.len() + g3 == g2 && g3 >= 0);
    if i1.len() + r1.len() + o1.len() < i.len() + r.len() + o.len() {
        lemma_fill_len(i1, r1, o1, g3);
    }
}

/// When the three quotas add up to at most the whole packet, packing never
/// writes more than the available bytes.
pub proof fn lemma_pack_within_budget(
    i: Seq<MessageView>,
    r: Seq<MessageView>,
    o: Seq<MessageView>,
    available: nat,
    quota_i: nat,
    quota_r: nat,
    quota_o: nat,
)
    requires
        quota_i + quota_r + quota_o <= 100,
    ensures
        pack(i, r, o, available, quota_i, quota_r, quota_o).0.len() <= available,
{
    let bi = quota_bytes(available, quota_i);
    let br = quota_bytes(available, quota_r);
    let bo = quota_bytes(available, quota_o);
    assert(bi + br + bo <= available) by (nonlinear_arith)
        requires
            bi == available * quota_i / 100,
            br == available * quota_r / 100,
            bo == available * quota_o / 100,
            quota_i + quota_r + quota_o <= 100,
    {
        assert(bi * 100 <= available * quota_i);
        assert(br * 100 <= available * quota_r);
        assert(bo * 100 <= available * quota_o);
        assert((bi + br + bo) * 100 <= available * (quota_i + quota_r + quota_o));
        assert(available * (quota_i + quota_r + quota_o) <= available * 100);
    }
    lemma_quota_len(i, bi as int);
    lemma_quota_len(r, br as int);
    lemma_quota_len(o, bo as int);
    let ki = quota_count(i, bi as int);
    let kr = quota_count(r, br as int);
    let ko = quota_count(o, bo as int);
    let quota_part = encode_all(i.take(ki as int)) + encode_all(r.take(kr as int)) + encode_all(
        o.take(ko as int),
    );
    let left = available - quota_part.len();
    lemma_fill_len(i.skip(ki as int), r.skip(kr as int), o.skip(ko as int), left);
}

/// Sequence numbers wrap around: of ordered messages sent one after the
/// other, the one sent 4096 places after another carries the same sequence
/// number; and once 4096 ordered messages have been delivered, the receiver
/// expects the sequence number it started from again.
pub proof fn lemma_sequence_wraps(
    s: QueueState,
    ps: Seq<Seq<u8>>,
    k: int,
    r: QueueState,
    ms: Seq<MessageView>,
)
    requires
        s.wf(),
        0 <= k,
        k + MAX_ORDER_ID < ps.len(),
        r.wf(),
        all_wf(ms),
    ensures
        ({
            let q = send_all_ordered(s, ps).ordered.skip(s.ordered.len() as int);
            q[k + MAX_ORDER_ID].order == q[k].order
        }),
        ({
            let r2 = receive_all(r, ms);
            ordered_only(delivered(r, r2)).len() == MAX_ORDER_ID ==> r2.remote_order
                == r.remote_order
        }),
{
    lemma_ordered_sends_in_sequence(s, ps);
    let q = send_all_ordered(s, ps).ordered.skip(s.ordered.len() as int);
    assert(q[k].order == (s.local_order + k) % (MAX_ORDER_ID as int));
    assert(q[k + MAX_ORDER_ID].order == (s.local_order + k + MAX_ORDER_ID) % (
    MAX_ORDER_ID as int));
    assert((s.local_order + k + MAX_ORDER_ID) % (MAX_ORDER_ID as int) == (s.local_order + k) % (
    MAX_ORDER_ID as int)) by (nonlinear_arith)
        requires
            s.local_order + k >= 0,
    ;
    lemma_ordered_delivery_in_sequence(r, ms);
    assert((r.remote_order + MAX_ORDER_ID) as int % (MAX_ORDER_ID as int) == r.remote_order) by (
    nonlinear_arith)
        requires
            r.remote_order < MAX_ORDER_ID,
    ;
}

} // verus!
