use cobalt::message::{messages_from_packet, Message, MessageKind};
use cobalt::packer::{quota_of, write_message, write_messages};
use cobalt::sequence::{increment_order, order_is_more_recent};
use cobalt::{Config, MessageQueue};
use std::collections::VecDeque;

fn ready(q: &mut MessageQueue) -> Vec<Vec<u8>> {
    let mut it = q.received();
    let mut out = Vec::new();
    while let Some(m) = it.next() {
        out.push(m);
    }
    out
}

#[test]
fn kind_tags_round_trip() {
    assert_eq!(MessageKind::Instant.tag(), 0);
    assert_eq!(MessageKind::Reliable.tag(), 1);
    assert_eq!(MessageKind::Ordered.tag(), 2);
    assert_eq!(MessageKind::Invalid.tag(), 3);
    assert_eq!(MessageKind::from_byte(0x30), MessageKind::Instant);
    assert_eq!(MessageKind::from_byte(0xF1), MessageKind::Reliable);
    assert_eq!(MessageKind::from_byte(0x02), MessageKind::Ordered);
    assert_eq!(MessageKind::from_byte(0x03), MessageKind::Invalid);
    assert_eq!(MessageKind::from_byte(0x0F), MessageKind::Invalid);
}

#[test]
fn decode_reads_twelve_bit_sequence() {
    let ms = messages_from_packet(&[0x32, 0x05, 2, 7, 8, 0xF0, 0xFF, 0]);
    assert_eq!(ms.len(), 2);
    assert_eq!(ms[0].kind, MessageKind::Ordered);
    assert_eq!(ms[0].order, 3 * 256 + 5);
    assert_eq!(ms[0].data, vec![7, 8]);
    assert_eq!(ms[1].kind, MessageKind::Instant);
    assert_eq!(ms[1].order, 4095);
    assert!(ms[1].data.is_empty());
}

#[test]
fn decode_truncates_and_drops_short_tail() {
    let ms = messages_from_packet(&[1, 0, 9, 1, 2]);
    assert_eq!(ms.len(), 1);
    assert_eq!(ms[0].data, vec![1, 2]);
    assert!(messages_from_packet(&[]).is_empty());
    assert!(messages_from_packet(&[0, 0]).is_empty());
    let ms = messages_from_packet(&[0, 0, 0, 0, 0]);
    assert_eq!(ms.len(), 1);
}

#[test]
fn encode_then_decode_gives_message_back() {
    let mut q = MessageQueue::new(Config::default());
    for _ in 0..300 {
        q.send(MessageKind::Ordered, vec![]);
    }
    let mut sink = Vec::new();
    for _ in 0..10 {
        q.send_packet(&mut sink, 4096);
    }
    q.send(MessageKind::Ordered, vec![9; 255]);
    let mut buffer = Vec::new();
    q.send_packet(&mut buffer, 1024);
    assert_eq!(buffer.len(), 258);
    assert_eq!(&buffer[..3], &[0x12, 44, 255]);
    let ms = messages_from_packet(&buffer);
    assert_eq!(ms.len(), 1);
    assert_eq!(ms[0].kind, MessageKind::Ordered);
    assert_eq!(ms[0].order, 300);
    assert_eq!(ms[0].data, vec![9; 255]);
}

#[test]
fn circular_comparison() {
    assert!(order_is_more_recent(1, 0));
    assert!(!order_is_more_recent(0, 1));
    assert!(!order_is_more_recent(5, 5));
    assert!(order_is_more_recent(0, 4095));
    assert!(!order_is_more_recent(4095, 0));
    assert!(order_is_more_recent(2048, 0));
    assert!(!order_is_more_recent(2049, 0));
    assert!(order_is_more_recent(0, 2049));
    assert_eq!(increment_order(4095), 0);
    assert_eq!(increment_order(7), 8);
}

#[test]
fn quota_rounds_down() {
    assert_eq!(quota_of(60, 60), 36);
    assert_eq!(quota_of(64, 60), 38);
    assert_eq!(quota_of(64, 20), 12);
    assert_eq!(quota_of(99, 0), 0);
    assert_eq!(quota_of(7, 100), 7);
    assert_eq!(quota_of(usize::MAX, 100), usize::MAX);
}

#[test]
fn write_message_stops_at_budget() {
    let mut queue = VecDeque::new();
    queue.push_back(Message { kind: MessageKind::Reliable, order: 0, data: vec![1, 2] });
    queue.push_back(Message { kind: MessageKind::Reliable, order: 0, data: vec![3] });
    let mut packet = Vec::new();
    let mut written: usize = 1;
    assert!(!write_message(&mut queue, &mut packet, 5, &mut written));
    assert!(packet.is_empty());
    assert!(write_message(&mut queue, &mut packet, 6, &mut written));
    assert_eq!(packet, vec![1, 0, 2, 1, 2]);
    assert_eq!(written, 6);
    assert_eq!(queue.len(), 1);

    let mut packet = Vec::new();
    let mut written: usize = 10;
    write_messages(&mut queue, &mut packet, 4, &mut written);
    assert_eq!(packet, vec![1, 0, 1, 3]);
    assert_eq!(written, 14);
    assert!(queue.is_empty());
}

#[test]
fn pack_with_small_budget_writes_nothing() {
    let mut q = MessageQueue::new(Config::default());
    q.send(MessageKind::Reliable, b"abc".to_vec());
    let mut buffer = Vec::new();
    q.send_packet(&mut buffer, 5);
    assert!(buffer.is_empty());
    q.send_packet(&mut buffer, 6);
    assert_eq!(buffer, vec![1, 0, 3, 97, 98, 99]);
}

#[test]
fn overlapping_quotas_leave_nothing_for_fill() {
    let config = Config {
        message_quota_instant: 100,
        message_quota_reliable: 100,
        message_quota_ordered: 100,
    };
    let mut q = MessageQueue::new(config);
    q.send(MessageKind::Instant, vec![1]);
    q.send(MessageKind::Instant, vec![2]);
    q.send(MessageKind::Reliable, vec![3]);
    q.send(MessageKind::Ordered, vec![4]);
    let mut buffer = Vec::new();
    q.send_packet(&mut buffer, 4);
    assert_eq!(buffer, vec![0, 0, 1, 1, 1, 0, 1, 3, 2, 0, 1, 4]);
}

#[test]
fn quota_packing_scenario() {
    let mut q = MessageQueue::new(Config::default());
    for _ in 0..3 {
        q.send(MessageKind::Instant, b"Hello World".to_vec());
    }
    q.send(MessageKind::Reliable, b"Foo".to_vec());
    q.send(MessageKind::Reliable, b"Foo2".to_vec());
    q.send(MessageKind::Reliable, b"Foo More".to_vec());
    q.send(MessageKind::Ordered, b"Bar".to_vec());
    q.send(MessageKind::Ordered, b"Baz2".to_vec());
    let mut buffer = Vec::new();
    q.send_packet(&mut buffer, 60);
    assert_eq!(buffer.len(), 54);
    assert!(buffer.len() <= 60);
    let ms = messages_from_packet(&buffer);
    let kinds: Vec<MessageKind> = ms.iter().map(|m| m.kind).collect();
    assert_eq!(kinds, vec![
        MessageKind::Instant,
        MessageKind::Instant,
        MessageKind::Reliable,
        MessageKind::Ordered,
        MessageKind::Instant,
    ]);
    let mut rest = Vec::new();
    q.send_packet(&mut rest, 60);
    assert_eq!(rest, vec![
        1, 0, 4, 70, 111, 111, 50,
        2, 1, 4, 66, 97, 122, 50,
        1, 0, 8, 70, 111, 111, 32, 77, 111, 114, 101
    ]);
}

#[test]
fn lost_packet_requeues_reliable_and_ordered_only() {
    let mut q = MessageQueue::new(Config::default());
    q.send(MessageKind::Reliable, b"late".to_vec());
    q.lost_packet(&[0, 0, 1, 10, 1, 0, 1, 20, 2, 7, 1, 30]);
    let mut buffer = Vec::new();
    q.send_packet(&mut buffer, 100);
    assert_eq!(buffer, vec![1, 0, 1, 20, 1, 0, 4, 108, 97, 116, 101, 2, 7, 1, 30]);
}

#[test]
fn lost_packet_ignores_invalid() {
    let mut q = MessageQueue::new(Config::default());
    q.lost_packet(&[3, 0, 1, 10, 0x0F, 0, 0]);
    let mut buffer = Vec::new();
    q.send_packet(&mut buffer, 100);
    assert!(buffer.is_empty());
}

#[test]
fn out_of_order_one_three_zero_two() {
    let mut q = MessageQueue::new(Config::default());
    q.receive_packet(&[2, 1, 1, 11]);
    q.receive_packet(&[2, 3, 1, 13]);
    assert!(ready(&mut q).is_empty());
    q.receive_packet(&[2, 0, 1, 10]);
    assert_eq!(ready(&mut q), vec![vec![10], vec![11]]);
    q.receive_packet(&[2, 2, 1, 12]);
    assert_eq!(ready(&mut q), vec![vec![12], vec![13]]);
}

#[test]
fn duplicate_future_message_is_delivered_once() {
    let mut q = MessageQueue::new(Config::default());
    q.receive_packet(&[2, 1, 1, 11, 2, 1, 1, 11]);
    q.receive_packet(&[2, 0, 1, 10]);
    assert_eq!(ready(&mut q), vec![vec![10], vec![11]]);
    q.receive_packet(&[2, 1, 1, 11]);
    assert!(ready(&mut q).is_empty());
}

#[test]
fn stale_and_far_messages_are_dropped() {
    let mut q = MessageQueue::new(Config::default());
    q.receive_packet(&[2, 0, 1, 10]);
    assert_eq!(ready(&mut q), vec![vec![10]]);
    // already delivered
    q.receive_packet(&[2, 0, 1, 10]);
    // more than half the sequence space ahead
    q.receive_packet(&[0x82, 2, 1, 99]);
    q.receive_packet(&[2, 1, 1, 11]);
    assert_eq!(ready(&mut q), vec![vec![11]]);
}

#[test]
fn buffered_messages_drain_across_wrap() {
    let mut q = MessageQueue::new(Config::default());
    for i in 0..4095u32 {
        q.receive_packet(&[2 | ((i & 0x0F00) >> 4) as u8, i as u8, 0]);
    }
    assert_eq!(ready(&mut q).len(), 4095);
    q.receive_packet(&[2, 1, 1, 1]);
    q.receive_packet(&[2, 0, 1, 0]);
    assert!(ready(&mut q).is_empty());
    q.receive_packet(&[0xF2, 0xFF, 1, 255]);
    assert_eq!(ready(&mut q), vec![vec![255], vec![0], vec![1]]);
}

#[test]
fn invalid_kind_is_not_sent() {
    let mut q = MessageQueue::new(Config::default());
    q.send(MessageKind::Invalid, b"x".to_vec());
    q.send(MessageKind::Ordered, b"y".to_vec());
    let mut buffer = Vec::new();
    q.send_packet(&mut buffer, 64);
    assert_eq!(buffer, vec![2, 0, 1, 121]);
}

#[test]
fn reset_clears_receive_side() {
    let mut q = MessageQueue::new(Config::default());
    q.receive_packet(&[0, 0, 1, 5, 2, 0, 1, 6, 2, 2, 1, 8]);
    q.reset();
    assert!(ready(&mut q).is_empty());
    q.receive_packet(&[2, 1, 1, 7]);
    assert!(ready(&mut q).is_empty());
    q.receive_packet(&[2, 0, 1, 6]);
    assert_eq!(ready(&mut q), vec![vec![6], vec![7]]);
}

#[test]
fn reset_then_pack_writes_nothing_for_any_size() {
    let mut q = MessageQueue::new(Config::default());
    q.send(MessageKind::Ordered, b"a".to_vec());
    q.send(MessageKind::Reliable, b"b".to_vec());
    q.reset();
    for size in [0usize, 1, 3, 64, 1500] {
        let mut buffer = Vec::new();
        q.send_packet(&mut buffer, size);
        assert!(buffer.is_empty());
    }
}

#[test]
fn ready_queue_drains_once() {
    let mut q = MessageQueue::new(Config::default());
    q.receive_packet(&[1, 0, 1, 42]);
    let mut it = q.received();
    assert_eq!(it.next(), Some(vec![42]));
    assert_eq!(it.next(), None);
    assert!(ready(&mut q).is_empty());
}
