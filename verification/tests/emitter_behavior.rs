use txingest::buffer::{IngestBuffer, MAX_BUFFERED_TXINGEST_MESSAGES};
use txingest::codec::decode;
use txingest::emitter::Emitter;
use txingest::event::{Signature, TxIngestMsg};
use txingest::time::txingest_timestamp;

fn leader_event(n: u64) -> TxIngestMsg {
    TxIngestMsg::WillBeLeader { timestamp: n, slots: 1 }
}

#[test]
fn sends_before_connect_are_dropped_without_error() {
    let mut em = Emitter::new();
    for n in 0..100 {
        em.send(leader_event(n));
    }
    assert_eq!(em.pending(), 0);
    assert_eq!(em.delivered_events().len(), 0);
}

#[test]
fn fifo_delivery_on_live_connection() {
    let mut em = Emitter::new();
    assert!(em.connect(String::from("127.0.0.1:9000")));
    em.connection_established();
    em.resynchronize();
    let evs: Vec<TxIngestMsg> = (0..5).map(leader_event).collect();
    for ev in &evs {
        em.send(*ev);
    }
    let mut seen: Vec<TxIngestMsg> = Vec::new();
    while let Some(frame) = em.stream_step(true) {
        seen.push(decode(&frame).expect("every frame decodes"));
    }
    assert_eq!(seen, evs);
    assert_eq!(em.delivered_events().as_slice(), evs.as_slice());
}

#[test]
fn buffer_sheds_newest_when_full_without_blocking() {
    let mut buf = IngestBuffer::new();
    for n in 0..(MAX_BUFFERED_TXINGEST_MESSAGES as u64) {
        assert!(buf.submit(leader_event(n)));
    }
    assert_eq!(buf.len(), MAX_BUFFERED_TXINGEST_MESSAGES);
    // One over capacity: rejected, nothing changes, nothing blocks.
    assert!(!buf.submit(leader_event(999_999)));
    assert_eq!(buf.len(), MAX_BUFFERED_TXINGEST_MESSAGES);
    // The oldest event is still first in line.
    assert_eq!(buf.take(), Some(leader_event(0)));
}

#[test]
fn emitter_sheds_when_buffer_full() {
    let mut em = Emitter::new();
    assert!(em.connect(String::from("collector:1")));
    for n in 0..(MAX_BUFFERED_TXINGEST_MESSAGES as u64 + 1) {
        em.send(leader_event(n));
    }
    assert_eq!(em.pending(), MAX_BUFFERED_TXINGEST_MESSAGES);
}

#[test]
fn reconnect_discards_backlog_then_delivers_new_events() {
    let mut em = Emitter::new();
    assert!(em.connect(String::from("collector:1")));
    em.connection_established();
    em.resynchronize();
    em.send(leader_event(1));
    em.send(leader_event(2));
    em.send(leader_event(3));
    // The write of the oldest event fails: the event is lost, at most
    // once, and the supervisor goes back to connecting.
    let frame = em.stream_step(false);
    assert!(frame.is_some());
    assert_eq!(em.delivered_events().len(), 0);
    // Reconnect: the snapshot of stale events (2 and 3) is discarded.
    em.connection_established();
    em.resynchronize();
    assert_eq!(em.pending(), 0);
    assert_eq!(em.delivered_events().len(), 0);
    // Events submitted after the reconnect are delivered normally.
    em.send(leader_event(4));
    let frame = em.stream_step(true).expect("one event pending");
    assert_eq!(decode(&frame), Some(leader_event(4)));
    assert_eq!(em.delivered_events().as_slice(), &[leader_event(4)]);
}

#[test]
fn first_connect_wins() {
    let mut em = Emitter::new();
    assert!(em.connect(String::from("first:1")));
    // The second call is rejected and changes nothing.
    assert!(!em.connect(String::from("second:2")));
    em.connection_established();
    em.resynchronize();
    em.send(leader_event(7));
    let frame = em.stream_step(true).expect("one event pending");
    assert_eq!(decode(&frame), Some(leader_event(7)));
}

#[test]
fn leadership_scenario_observes_four_records_in_order() {
    let sig = Signature([5; 64]);
    let evs = vec![
        TxIngestMsg::WillBeLeader { timestamp: 1, slots: 5 },
        TxIngestMsg::BeginLeader { timestamp: 2 },
        TxIngestMsg::Fee { timestamp: 3, signature: sig, fee: 5000 },
        TxIngestMsg::EndLeader { timestamp: 4 },
    ];
    let mut em = Emitter::new();
    assert!(em.connect(String::from("collector:1")));
    em.connection_established();
    em.resynchronize();
    for ev in &evs {
        em.send(*ev);
    }
    let mut frames: Vec<Vec<u8>> = Vec::new();
    while let Some(frame) = em.stream_step(true) {
        frames.push(frame);
    }
    assert_eq!(frames.len(), 4);
    // Correctly tagged.
    assert_eq!(&frames[0][0..4], &[10, 0, 0, 0]);
    assert_eq!(&frames[1][0..4], &[11, 0, 0, 0]);
    assert_eq!(&frames[2][0..4], &[9, 0, 0, 0]);
    assert_eq!(&frames[3][0..4], &[12, 0, 0, 0]);
    // Correctly sized.
    assert_eq!(frames[0].len(), 13);
    assert_eq!(frames[1].len(), 12);
    assert_eq!(frames[2].len(), 84);
    assert_eq!(frames[3].len(), 12);
    // Exactly these records, in this order.
    for (frame, ev) in frames.iter().zip(evs.iter()) {
        assert_eq!(decode(frame).as_ref(), Some(ev));
    }
    assert_eq!(em.delivered_events().as_slice(), evs.as_slice());
}

#[test]
fn timestamp_is_past_the_epoch() {
    let t = txingest_timestamp();
    // Milliseconds since the Unix epoch: far past 2020 on any sane
    // clock, and monotone enough to be nonzero.
    assert!(t > 1_600_000_000_000);
}
