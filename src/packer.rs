use vstd::prelude::*;
use std::collections::VecDeque;
use crate::message::{
    Message, MessageView, MESSAGE_HEADER_BYTES, views, all_wf, encode, encode_all,
    lemma_encode_all_push,
};

verus! {

/// Whether the message at the head of `q` fits into `budget` bytes.
pub open spec fn fits(q: Seq<MessageView>, budget: int) -> bool {
    q.len() > 0 && q[0].wire_len() <= budget
}

/// How many messages the quota pass takes from the head of `q`: the longest
/// prefix whose encoding fits into `budget` bytes.
pub open spec fn quota_count(q: Seq<MessageView>, budget: int) -> nat
    decreases q.len(),
{
    if fits(q, budget) {
        1 + quota_count(q.drop_first(), budget - q[0].wire_len())
    } else {
        0
    }
}

/// One attempt of the fill pass on one queue: the bytes written, the queue
/// left and the budget left.
pub open spec fn take_one(q: Seq<MessageView>, budget: int) -> (Seq<u8>, Seq<MessageView>, int) {
    if fits(q, budget) {
        (encode(q[0]), q.drop_first(), budget - q[0].wire_len())
    } else {
        (Seq::empty(), q, budget)
    }
}

/// The fill pass: rounds of one attempt per queue, in the order instant,
/// reliable, ordered, until a whole round takes nothing. Gives the bytes
/// written and the three queues left.
pub open spec fn fill(
    i: Seq<MessageView>,
    r: Seq<MessageView>,
    o: Seq<MessageView>,
    budget: int,
) -> (Seq<u8>, Seq<MessageView>, Seq<MessageView>, Seq<MessageView>)
    decreases i.len() + r.len() + o.len(),
{
    let (b1, i1, g1) = take_one(i, budget);
    let (b2, r1, g2) = take_one(r, g1);
    let (b3, o1, g3) = take_one(o, g2);
    if i1.len() + r1.len() + o1.len() < i.len() + r.len() + o.len() {
        let (rest, i2, r2, o2) = fill(i1, r1, o1, g3);
        (b1 + b2 + b3 + rest, i2, r2, o2)
    } else {
        (Seq::empty(), i, r, o)
    }
}

/// Byte budget of a quota given in percent of the available bytes.
pub open spec fn quota_bytes(available: nat, percent: nat) -> nat {
    available * percent / 100
}

/// The whole packing of a packet from the three queues: the quota pass for
/// each kind, then the fill pass over what is left of the available bytes.
/// Gives the bytes written and the three queues left.
pub open spec fn pack(
    i: Seq<MessageView>,
    r: Seq<MessageView>,
    o: Seq<MessageView>,
    available: nat,
    quota_i: nat,
    quota_r: nat,
    quota_o: nat,
) -> (Seq<u8>, Seq<MessageView>, Seq<MessageView>, Seq<MessageView>) {
    let ki = quota_count(i, quota_bytes(available, quota_i) as int);
    let kr = quota_count(r, quota_bytes(available, quota_r) as int);
    let ko = quota_count(o, quota_bytes(available, quota_o) as int);
    let quota_part = encode_all(i.take(ki as int)) + encode_all(r.take(kr as int)) + encode_all(
        o.take(ko as int),
    );
    let left = if quota_part.len() <= available {
        available - quota_part.len()
    } else {
        0
    };
    let (rest, i2, r2, o2) = fill(
        i.skip(ki as int),
        r.skip(kr as int),
        o.skip(ko as int),
        left,
    );
    (quota_part + rest, i2, r2, o2)
}

/// Byte budget of a quota: `available * percent / 100`, rounded down.
pub fn quota_of(available: usize, percent: u8) -> (r: usize)
    requires
        percent <= 100,
    ensures
        r == quota_bytes(available as nat, percent as nat),
        r <= available,
{
    assert(available as u128 * percent as u128 <= 0xFFFF_FFFF_FFFF_FFFFu128 * 100) by (
    nonlinear_arith)
        requires
            available <= 0xFFFF_FFFF_FFFF_FFFFu128,
            percent <= 100,
    ;
    let wide = available as u128 * percent as u128;
    assert(wide <= available as u128 * 100) by (nonlinear_arith)
        requires
            wide == available as u128 * percent as u128,
            percent <= 100,
    ;
    let q = wide / 100;
    assert(q <= available) by (nonlinear_arith)
        requires
            wide <= available as u128 * 100,
            q == wide / 100,
    ;
    q as usize
}

/// Serializes the message at the head of `queue` into `packet`, if it fits
/// into what is left of `available` after `written` bytes. Returns whether a
/// message was written.
pub fn write_message(
    queue: &mut VecDeque<Message>,
    packet: &mut Vec<u8>,
    available: usize,
    written: &mut usize,
) -> (r: bool)
    requires
        *old(written) <= available,
        all_wf(views(old(queue)@)),
    ensures
        r == fits(views(old(queue)@), available - *old(written)),
        r ==> views(final(queue)@) == views(old(queue)@).drop_first() && final(packet)@ == old(
            packet,
        )@ + encode(views(old(queue)@)[0]) && *final(written) == *old(written) + views(
            old(queue)@,
        )[0].wire_len(),
        !r ==> final(queue)@ == old(queue)@ && final(packet)@ == old(packet)@ && *final(written)
            == *old(written),
        *final(written) <= available,
        all_wf(views(final(queue)@)),
{
    if queue.len() == 0 {
        return false;
    }
    proof {
        assert(views(queue@)[0] == queue@[0]@);
        assert(views(queue@)[0].wf());
    }
    let required = queue[0].data.len() + MESSAGE_HEADER_BYTES;
    if required > available - *written {
        false
    } else {
        let ghost q0 = queue@;
        let message = queue.pop_front().unwrap();
        let ghost mv = message@;
        proof {
            assert(mv == views(q0)[0]);
            assert(mv.wf());
            assert(message.order / 256 < 16) by (nonlinear_arith)
                requires
                    message.order < 4096,
            ;
        }
        let tag = message.kind.tag();
        packet.push((message.order / 256) as u8 * 16 + tag);
        packet.push((message.order % 256) as u8);
        packet.push(message.data.len() as u8);
        let mut data = message.data;
        packet.append(&mut data);
        *written = *written + required;
        proof {
            assert(final(packet)@ =~= old(packet)@ + encode(mv));
            assert(views(queue@) =~= views(q0).drop_first());
            assert forall|i: int| 0 <= i < views(queue@).len() implies (#[trigger] views(
                queue@,
            )[i]).wf() by {
                assert(views(queue@)[i] == views(q0)[i + 1]);
            }
        }
        true
    }
}

/// Serializes messages from the head of `queue` into `packet` while they fit
/// into `available` bytes, counted from zero for this queue alone; adds the
/// number of bytes written to `written`.
pub fn write_messages(
    queue: &mut VecDeque<Message>,
    packet: &mut Vec<u8>,
    available: usize,
    written: &mut usize,
)
    requires
        all_wf(views(old(queue)@)),
        *old(written) + available <= usize::MAX,
    ensures
        ({
            let q = views(old(queue)@);
            let k = quota_count(q, available as int) as int;
            &&& views(final(queue)@) == q.skip(k)
            &&& final(packet)@ == old(packet)@ + encode_all(q.take(k))
            &&& *final(written) == *old(written) + encode_all(q.take(k)).len()
        }),
        *final(written) <= *old(written) + available,
        all_wf(views(final(queue)@)),
{
    let ghost q0 = views(queue@);
    let ghost start = packet@;
    let ghost mut k: int = 0;
    let mut used: usize = 0;
    proof {
        assert(q0.skip(0) =~= q0);
        assert(q0.take(0) =~= Seq::<MessageView>::empty());
        assert(encode_all(q0.take(0)) == Seq::<u8>::empty());
        assert(start + Seq::<u8>::empty() =~= start);
    }
    loop
        invariant
            0 <= k <= q0.len(),
            used <= available,
            all_wf(views(queue@)),
            views(queue@) == q0.skip(k),
            packet@ == start + encode_all(q0.take(k)),
            used == encode_all(q0.take(k)).len(),
            quota_count(q0, available as int) == k + quota_count(
                views(queue@),
                available - used,
            ),
        ensures
            k == quota_count(q0, available as int),
            all_wf(views(queue@)),
            views(queue@) == q0.skip(k),
            packet@ == start + encode_all(q0.take(k)),
            used == encode_all(q0.take(k)).len(),
            used <= available,
        decreases views(queue@).len(),
    {
        let ghost before = views(queue@);
        if !write_message(queue, packet, available, &mut used) {
            break;
        }
        proof {
            assert(before[0] == q0[k]);
            assert(q0.take(k + 1) =~= q0.take(k).push(q0[k]));
            lemma_encode_all_push(q0.take(k), q0[k]);
            assert(q0.skip(k + 1) =~= before.drop_first());
            k = k + 1;
        }
    }
    *written = *written + used;
}

} // verus!
