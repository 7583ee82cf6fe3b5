use cobalt::{Config, MessageKind, MessageQueue};

fn messages(q: &mut MessageQueue) -> Vec<Vec<u8>> {
    let mut it = q.received();
    let mut out = Vec::new();
    while let Some(m) = it.next() {
        out.push(m);
    }
    out
}

#[test]
fn test_send_write() {
    let mut q = MessageQueue::new(Config::default());

    // Filled from quota
    q.send(MessageKind::Instant, b"Hello World".to_vec());
    q.send(MessageKind::Instant, b"Hello World".to_vec());

    // Added by filling buffer
    q.send(MessageKind::Instant, b"Hello World".to_vec());

    // Put into packet 2
    q.send(MessageKind::Instant, b"Hello World2".to_vec());
    q.send(MessageKind::Instant, b"Hello World2".to_vec());

    // Filled from quota
    q.send(MessageKind::Reliable, b"Foo".to_vec());

    // Put into packet 2 by quota
    q.send(MessageKind::Reliable, b"Foo2".to_vec());

    // Put into packet 2 by filling buffer
    q.send(MessageKind::Reliable, b"Foo More".to_vec());

    // Filled from quota
    q.send(MessageKind::Ordered, b"Bar".to_vec());

    // Put into packet 2 by quota
    q.send(MessageKind::Ordered, b"Bar2".to_vec());

    // Put into packet 3
    q.send(MessageKind::Ordered, b"Bar More".to_vec());
    q.send(MessageKind::Ordered, b"Bar Even More".to_vec());

    // Check Packet 1
    let mut buffer = Vec::new();
    q.send_packet(&mut buffer, 60);

    assert_eq!(buffer, [
        // Hello World
        0, 0, 11, 72, 101, 108, 108, 111, 32, 87, 111, 114, 108, 100,
        // Hello World
        0, 0, 11, 72, 101, 108, 108, 111, 32, 87, 111, 114, 108, 100,
        // Foo
        1, 0, 3, 70, 111, 111,
        // Bar
        2, 0, 3, 66, 97, 114,
        // Hello World
        0, 0, 11, 72, 101, 108, 108, 111, 32, 87, 111, 114, 108, 100
    ].to_vec());

    // Check Packet 2
    let mut buffer = Vec::new();
    q.send_packet(&mut buffer, 64);

    assert_eq!(buffer, [
        // Hello World2
        0, 0, 12, 72, 101, 108, 108, 111, 32, 87, 111, 114, 108, 100, 50,
        // Hello World2
        0, 0, 12, 72, 101, 108, 108, 111, 32, 87, 111, 114, 108, 100, 50,
        // Foo2
        1, 0, 4, 70, 111, 111, 50,
        // Bar2
        2, 1, 4, 66, 97, 114, 50,
        // Foo More
        1, 0, 8, 70, 111, 111, 32, 77, 111, 114, 101
    ].to_vec());

    // Check Packet 3
    let mut buffer = Vec::new();
    q.send_packet(&mut buffer, 64);

    assert_eq!(buffer, [
        // Bar More
        2, 2, 8, 66, 97, 114, 32, 77, 111, 114, 101,
        // Bar Even More
        2, 3, 13, 66, 97, 114, 32, 69, 118, 101, 110, 32, 77, 111, 114, 101
    ].to_vec());
}

#[test]
fn test_packet_lost_write() {
    let mut q = MessageQueue::new(Config::default());

    q.lost_packet(&[
        // Hello World2
        0, 0, 12, 72, 101, 108, 108, 111, 32, 87, 111, 114, 108, 100, 50,
        // Hello World2
        0, 0, 12, 72, 101, 108, 108, 111, 32, 87, 111, 114, 108, 100, 50,
        // Foo2
        1, 0, 4, 70, 111, 111, 50,
        // Bar2
        2, 1, 4, 66, 97, 114, 50,
        // Foo More
        1, 0, 8, 70, 111, 111, 32, 77, 111, 114, 101
    ]);

    // Send some more messages
    q.send(MessageKind::Instant, b"Hello World".to_vec());
    q.send(MessageKind::Reliable, b"Foo5".to_vec());
    q.send(MessageKind::Ordered, b"Bar3".to_vec());

    let mut buffer = Vec::new();
    q.send_packet(&mut buffer, 64);
    assert_eq!(buffer, [
        // Hello World
        0, 0, 11, 72, 101, 108, 108, 111, 32, 87, 111, 114, 108, 100,
        // Foo More
        1, 0, 8, 70, 111, 111, 32, 77, 111, 114, 101,
        // Bar2
        2, 1, 4, 66, 97, 114, 50,
        // Foo2
        1, 0, 4, 70, 111, 111, 50,
        // Bar3
        2, 0, 4, 66, 97, 114, 51,
        // Foo5
        1, 0, 4, 70, 111, 111, 53
    ].to_vec());
}

#[test]
fn test_reset() {
    let mut q = MessageQueue::new(Config::default());
    q.send(MessageKind::Instant, b"Hello World".to_vec());
    q.send(MessageKind::Instant, b"Hello World".to_vec());
    q.send(MessageKind::Reliable, b"Hello World".to_vec());
    q.send(MessageKind::Ordered, b"Hello World".to_vec());
    q.send(MessageKind::Ordered, b"Hello World".to_vec());

    // Reset all queues and order ids
    q.reset();

    // Check that nothing gets serialized
    let mut buffer = Vec::new();
    q.send_packet(&mut buffer, 64);
    assert_eq!(buffer, Vec::<u8>::new());

    // Check that local_order_id has been reset
    q.send(MessageKind::Ordered, b"".to_vec());
    q.send_packet(&mut buffer, 64);
    assert_eq!(buffer, [2, 0, 0].to_vec());
}

#[test]
fn test_receive_read() {
    let mut q = MessageQueue::new(Config::default());
    let packet = [
        // Hello World
        0, 0, 11, 72, 101, 108, 108, 111, 32, 87, 111, 114, 108, 100,
        // Hello World
        0, 0, 11, 72, 101, 108, 108, 111, 32, 87, 111, 114, 108, 100,
        // Foo
        1, 0, 3, 70, 111, 111,
        // Bar
        2, 0, 3, 66, 97, 114,
        // Hello World
        0, 0, 11, 72, 101, 108, 108, 111, 32, 87, 111, 114, 108, 100
    ].to_vec();

    q.receive_packet(&packet[..]);

    assert_eq!(messages(&mut q), [
        b"Hello World".to_vec(),
        b"Hello World".to_vec(),
        b"Foo".to_vec(),
        b"Bar".to_vec(),
        b"Hello World".to_vec()
    ]);
}

#[test]
fn test_receive_read_out_of_order() {
    let mut q = MessageQueue::new(Config::default());

    // Receive one out of order(#1) "World" message
    q.receive_packet(&[2, 1, 5, 87, 111, 114, 108, 100]);

    // We expect no message yet
    assert!(messages(&mut q).is_empty());

    // Receive one out of order(#3) "order!" message
    q.receive_packet(&[2, 3, 6, 111, 114, 100, 101, 114, 33]);

    // We still expect no message yet
    assert!(messages(&mut q).is_empty());

    // Receive the actual first "Hello" message
    q.receive_packet(&[2, 0, 5, 72, 101, 108, 108, 111]);

    // We now expect both "Hello" and "World"
    assert_eq!(messages(&mut q), [b"Hello", b"World"]);

    // Receive the order(#2) "out of" message
    q.receive_packet(&[2, 2, 6, 111, 117, 116, 32, 111, 102]);

    // We now expect both "out of" and "order!"
    assert_eq!(messages(&mut q), [b"out of", b"order!"]);
}

#[test]
fn test_receive_empty() {
    let mut q = MessageQueue::new(Config::default());

    // Receive 2 empty messages
    q.receive_packet(&[0, 0, 0, 0, 0, 0]);

    assert_eq!(messages(&mut q), [b"", b""]);
}

#[test]
fn test_receive_invalid() {
    let mut q = MessageQueue::new(Config::default());

    // Receive a message with a invalid kind
    q.receive_packet(&[255, 0, 0]);

    assert!(messages(&mut q).is_empty());

    // Receive a message with incomplete header
    q.receive_packet(&[0, 0]);

    // Receive a message with incomplete data
    q.receive_packet(&[
        0, 0, 15, 72, 101, 108, 108, 111 // 15 bytes but only 5 in buffer
    ]);

    assert_eq!(messages(&mut q), [b"Hello"]);
}

#[test]
fn test_receive_ordered_decoding_wrap_around() {
    let mut q = MessageQueue::new(Config::default());
    for i in 0..4096u32 {
        q.receive_packet(&[
            2 | ((i & 0x0F00) >> 4) as u8, (i as u8), 2, (i >> 8) as u8, i as u8
        ]);

        assert_eq!(messages(&mut q), [[(i >> 8) as u8, i as u8]]);
    }

    // Should now expect order=0 again
    q.receive_packet(&[2, 0, 2, 0, 0]);
    assert_eq!(messages(&mut q), [[0, 0]]);
}

#[test]
fn test_receive_ordered_encoding_wrap_around() {
    let mut q = MessageQueue::new(Config::default());
    for i in 0..4096u32 {
        q.send(MessageKind::Ordered, [(i >> 8) as u8, i as u8].to_vec());

        let mut buffer = Vec::new();
        q.send_packet(&mut buffer, 64);
        assert_eq!(buffer, [
            2 | ((i & 0x0F00) >> 4) as u8, (i as u8), 2, (i >> 8) as u8, i as u8].to_vec()
        );
    }

    // Should now write order=0 again
    q.send(MessageKind::Ordered, [0, 0].to_vec());

    let mut buffer = Vec::new();
    q.send_packet(&mut buffer, 64);
    assert_eq!(buffer, [2, 0, 2, 0, 0].to_vec());
}
