use txingest::codec::{decode, encode};
use txingest::event::{IpAddress, Pubkey, Signature, SocketAddress, TxIngestMsg};

fn addr_v4() -> SocketAddress {
    SocketAddress { ip: IpAddress::V4([10, 0, 0, 1]), port: 8001 }
}

fn addr_v6() -> SocketAddress {
    SocketAddress { ip: IpAddress::V6([0xfe; 16]), port: 443 }
}

fn round_trips(ev: TxIngestMsg) {
    let bytes = encode(&ev);
    let back = decode(&bytes);
    assert_eq!(back, Some(ev));
    // And the other direction: re-encoding the decoded record gives the
    // same bytes, bit for bit.
    let again = encode(&back.unwrap());
    assert_eq!(again, bytes);
}

#[test]
fn round_trip_failed() {
    round_trips(TxIngestMsg::Failed { timestamp: 1, peer_addr: addr_v4() });
    round_trips(TxIngestMsg::Failed { timestamp: u64::MAX, peer_addr: addr_v6() });
}

#[test]
fn round_trip_exceeded_both_presence_states() {
    round_trips(TxIngestMsg::Exceeded {
        timestamp: 2,
        peer_addr: addr_v4(),
        peer_pubkey: None,
        stake: 0,
    });
    round_trips(TxIngestMsg::Exceeded {
        timestamp: 3,
        peer_addr: addr_v6(),
        peer_pubkey: Some(Pubkey([42; 32])),
        stake: u64::MAX,
    });
}

#[test]
fn round_trip_stake_both_presence_states() {
    round_trips(TxIngestMsg::Stake {
        timestamp: 4,
        peer_addr: addr_v4(),
        peer_pubkey: None,
        stake: 77,
    });
    round_trips(TxIngestMsg::Stake {
        timestamp: 5,
        peer_addr: addr_v4(),
        peer_pubkey: Some(Pubkey([0; 32])),
        stake: 1,
    });
}

#[test]
fn round_trip_pruned_and_closed() {
    round_trips(TxIngestMsg::Pruned { timestamp: 6, peer_addr: addr_v6() });
    round_trips(TxIngestMsg::Closed { timestamp: 7, peer_addr: addr_v4() });
}

#[test]
fn round_trip_vote_tx() {
    round_trips(TxIngestMsg::VoteTx {
        timestamp: 8,
        peer_addr: IpAddress::V4([127, 0, 0, 1]),
        peer_port: 0,
    });
    round_trips(TxIngestMsg::VoteTx {
        timestamp: 9,
        peer_addr: IpAddress::V6([1; 16]),
        peer_port: u16::MAX,
    });
}

#[test]
fn round_trip_user_tx() {
    round_trips(TxIngestMsg::UserTx {
        timestamp: 10,
        peer_addr: IpAddress::V4([192, 168, 1, 1]),
        peer_port: 9000,
        signature: Signature([9; 64]),
    });
}

#[test]
fn round_trip_forwarded_and_bad_fee() {
    round_trips(TxIngestMsg::Forwarded { timestamp: 11, signature: Signature([1; 64]) });
    round_trips(TxIngestMsg::BadFee { timestamp: 12, signature: Signature([2; 64]) });
}

#[test]
fn round_trip_fee_boundary_values() {
    round_trips(TxIngestMsg::Fee { timestamp: 13, signature: Signature([3; 64]), fee: 0 });
    round_trips(TxIngestMsg::Fee {
        timestamp: 14,
        signature: Signature([4; 64]),
        fee: u64::MAX,
    });
}

#[test]
fn round_trip_will_be_leader_boundary_slots() {
    round_trips(TxIngestMsg::WillBeLeader { timestamp: 15, slots: 0 });
    round_trips(TxIngestMsg::WillBeLeader { timestamp: 16, slots: 255 });
}

#[test]
fn round_trip_begin_and_end_leader() {
    round_trips(TxIngestMsg::BeginLeader { timestamp: 0 });
    round_trips(TxIngestMsg::EndLeader { timestamp: u64::MAX });
}

#[test]
fn exact_bytes_of_begin_leader() {
    let bytes = encode(&TxIngestMsg::BeginLeader { timestamp: 1 });
    assert_eq!(bytes, vec![11, 0, 0, 0, 1, 0, 0, 0, 0, 0, 0, 0]);
}

#[test]
fn exact_bytes_of_will_be_leader() {
    let bytes = encode(&TxIngestMsg::WillBeLeader { timestamp: 0x0102, slots: 5 });
    assert_eq!(bytes, vec![10, 0, 0, 0, 2, 1, 0, 0, 0, 0, 0, 0, 5]);
}

#[test]
fn exact_bytes_of_vote_tx() {
    let bytes = encode(&TxIngestMsg::VoteTx {
        timestamp: 1,
        peer_addr: IpAddress::V4([9, 8, 7, 6]),
        peer_port: 0x1234,
    });
    assert_eq!(
        bytes,
        vec![5, 0, 0, 0, 1, 0, 0, 0, 0, 0, 0, 0, 0, 9, 8, 7, 6, 0x34, 0x12]
    );
}

#[test]
fn decode_rejects_empty_input() {
    assert_eq!(decode(&Vec::new()), None);
}

#[test]
fn decode_rejects_unknown_discriminant() {
    let bytes = vec![13, 0, 0, 0, 1, 0, 0, 0, 0, 0, 0, 0];
    assert_eq!(decode(&bytes), None);
}

#[test]
fn decode_rejects_truncated_record() {
    let mut bytes = encode(&TxIngestMsg::EndLeader { timestamp: 3 });
    bytes.pop();
    assert_eq!(decode(&bytes), None);
}

#[test]
fn decode_rejects_trailing_bytes() {
    let mut bytes = encode(&TxIngestMsg::EndLeader { timestamp: 3 });
    bytes.push(0);
    assert_eq!(decode(&bytes), None);
}

#[test]
fn decode_rejects_bad_presence_flag() {
    let ev = TxIngestMsg::Exceeded {
        timestamp: 1,
        peer_addr: SocketAddress { ip: IpAddress::V4([1, 2, 3, 4]), port: 80 },
        peer_pubkey: None,
        stake: 9,
    };
    let mut bytes = encode(&ev);
    // The presence flag of the optional public key sits after the
    // discriminant, the timestamp, and the 7-byte address.
    bytes[4 + 8 + 7] = 2;
    assert_eq!(decode(&bytes), None);
}

#[test]
fn decode_rejects_bad_ip_version_flag() {
    let ev = TxIngestMsg::Pruned {
        timestamp: 1,
        peer_addr: SocketAddress { ip: IpAddress::V4([1, 2, 3, 4]), port: 80 },
    };
    let mut bytes = encode(&ev);
    bytes[12] = 7;
    assert_eq!(decode(&bytes), None);
}
