//! The wire codec: a deterministic, fixed-layout binary encoding of one
//! event.
//!
//! Layout: a 4-byte little-endian discriminant (the variant's index in
//! declaration order), then each field in declaration order.  Numeric
//! fields are fixed-width little-endian; an optional public key is a
//! one-byte presence flag followed by the 32 raw bytes when present; an
//! IP address is a one-byte version flag followed by its 4 or 16 raw
//! octets; signatures are their 64 raw bytes.  Every record's length is
//! determined by its discriminant and its flag bytes, so records can be
//! streamed back to back without framing.

use vstd::prelude::*;
use vstd::bytes::lemma_auto_spec_u16_to_from_le_bytes;
use vstd::bytes::lemma_auto_spec_u32_to_from_le_bytes;
use vstd::bytes::lemma_auto_spec_u64_to_from_le_bytes;
use vstd::bytes::spec_u16_from_le_bytes;
use vstd::bytes::spec_u16_to_le_bytes;
use vstd::bytes::spec_u32_from_le_bytes;
use vstd::bytes::spec_u32_to_le_bytes;
use vstd::bytes::spec_u64_from_le_bytes;
use vstd::bytes::spec_u64_to_le_bytes;
use vstd::bytes::u16_from_le_bytes;
use vstd::bytes::u16_to_le_bytes;
use vstd::bytes::u32_from_le_bytes;
use vstd::bytes::u32_to_le_bytes;
use vstd::bytes::u64_from_le_bytes;
use vstd::bytes::u64_to_le_bytes;
use vstd::slice::slice_subrange;
use crate::event::IpAddress;
use crate::event::Pubkey;
use crate::event::Signature;
use crate::event::SocketAddress;
use crate::event::TxIngestMsg;

verus! {

broadcast use vstd::seq::group_seq_axioms, vstd::array::group_array_axioms;

/// The wire discriminant of a variant: its index in declaration order.
pub open spec fn tag_of(m: TxIngestMsg) -> u32 {
    match m {
        TxIngestMsg::Failed { .. } => 0u32,
        TxIngestMsg::Exceeded { .. } => 1u32,
        TxIngestMsg::Stake { .. } => 2u32,
        TxIngestMsg::Pruned { .. } => 3u32,
        TxIngestMsg::Closed { .. } => 4u32,
        TxIngestMsg::VoteTx { .. } => 5u32,
        TxIngestMsg::UserTx { .. } => 6u32,
        TxIngestMsg::Forwarded { .. } => 7u32,
        TxIngestMsg::BadFee { .. } => 8u32,
        TxIngestMsg::Fee { .. } => 9u32,
        TxIngestMsg::WillBeLeader { .. } => 10u32,
        TxIngestMsg::BeginLeader { .. } => 11u32,
        TxIngestMsg::EndLeader { .. } => 12u32,
    }
}

/// Encoding of an IP address: version flag byte, then the raw octets.
pub open spec fn enc_ip(ip: IpAddress) -> Seq<u8> {
    match ip {
        IpAddress::V4(b) => seq![0u8] + b@,
        IpAddress::V6(b) => seq![1u8] + b@,
    }
}

/// Encoding of a socket endpoint: IP address, then the port.
pub open spec fn enc_addr(a: SocketAddress) -> Seq<u8> {
    enc_ip(a.ip) + spec_u16_to_le_bytes(a.port)
}

/// Encoding of an optional public key: presence flag byte, then the 32
/// raw bytes when present.
pub open spec fn enc_opt_pubkey(o: Option<Pubkey>) -> Seq<u8> {
    match o {
        Option::None => seq![0u8],
        Option::Some(k) => seq![1u8] + k.0@,
    }
}

/// The bytes after the discriminant: each field in declaration order.
pub open spec fn payload_of(m: TxIngestMsg) -> Seq<u8> {
    match m {
        TxIngestMsg::Failed { timestamp, peer_addr } => spec_u64_to_le_bytes(timestamp)
            + enc_addr(peer_addr),
        TxIngestMsg::Exceeded { timestamp, peer_addr, peer_pubkey, stake } => spec_u64_to_le_bytes(
            timestamp,
        ) + enc_addr(peer_addr) + enc_opt_pubkey(peer_pubkey) + spec_u64_to_le_bytes(stake),
        TxIngestMsg::Stake { timestamp, peer_addr, peer_pubkey, stake } => spec_u64_to_le_bytes(
            timestamp,
        ) + enc_addr(peer_addr) + enc_opt_pubkey(peer_pubkey) + spec_u64_to_le_bytes(stake),
        TxIngestMsg::Pruned { timestamp, peer_addr } => spec_u64_to_le_bytes(timestamp)
            + enc_addr(peer_addr),
        TxIngestMsg::Closed { timestamp, peer_addr } => spec_u64_to_le_bytes(timestamp)
            + enc_addr(peer_addr),
        TxIngestMsg::VoteTx { timestamp, peer_addr, peer_port } => spec_u64_to_le_bytes(timestamp)
            + enc_ip(peer_addr) + spec_u16_to_le_bytes(peer_port),
        TxIngestMsg::UserTx { timestamp, peer_addr, peer_port, signature } => spec_u64_to_le_bytes(
            timestamp,
        ) + enc_ip(peer_addr) + spec_u16_to_le_bytes(peer_port) + signature.0@,
        TxIngestMsg::Forwarded { timestamp, signature } => spec_u64_to_le_bytes(timestamp)
            + signature.0@,
        TxIngestMsg::BadFee { timestamp, signature } => spec_u64_to_le_bytes(timestamp)
            + signature.0@,
        TxIngestMsg::Fee { timestamp, signature, fee } => spec_u64_to_le_bytes(timestamp)
            + signature.0@ + spec_u64_to_le_bytes(fee),
        TxIngestMsg::WillBeLeader { timestamp, slots } => spec_u64_to_le_bytes(timestamp)
            + seq![slots],
        TxIngestMsg::BeginLeader { timestamp } => spec_u64_to_le_bytes(timestamp),
        TxIngestMsg::EndLeader { timestamp } => spec_u64_to_le_bytes(timestamp),
    }
}

/// The complete wire encoding of one event.
pub open spec fn encoding_of(m: TxIngestMsg) -> Seq<u8> {
    spec_u32_to_le_bytes(tag_of(m)) + payload_of(m)
}

fn push_u16(out: &mut Vec<u8>, x: u16)
    ensures
        final(out)@ == old(out)@ + spec_u16_to_le_bytes(x),
{
    let mut b = u16_to_le_bytes(x);
    out.append(&mut b);
}

fn push_u32(out: &mut Vec<u8>, x: u32)
    ensures
        final(out)@ == old(out)@ + spec_u32_to_le_bytes(x),
{
    let mut b = u32_to_le_bytes(x);
    out.append(&mut b);
}

fn push_u64(out: &mut Vec<u8>, x: u64)
    ensures
        final(out)@ == old(out)@ + spec_u64_to_le_bytes(x),
{
    let mut b = u64_to_le_bytes(x);
    out.append(&mut b);
}

fn push_bytes(out: &mut Vec<u8>, s: &[u8])
    ensures
        final(out)@ == old(out)@ + s@,
{
    let n = s.len();
    let mut j: usize = 0;
    while j < n
        invariant
            j <= n,
            n == s@.len(),
            out@ == old(out)@ + s@.subrange(0, j as int),
        decreases n - j,
    {
        let b = s[j];
        out.push(b);
        j = j + 1;
        proof {
            assert(old(out)@ + s@.subrange(0, j - 1) + seq![s@[j - 1]] =~= old(out)@ + s@.subrange(
                0,
                j as int,
            ));
        }
    }
    proof {
        assert(s@.subrange(0, n as int) =~= s@);
    }
}

fn push_ip(out: &mut Vec<u8>, ip: &IpAddress)
    ensures
        final(out)@ == old(out)@ + enc_ip(*ip),
{
    match ip {
        IpAddress::V4(b) => {
            out.push(0u8);
            push_bytes(out, b.as_slice());
            proof {
                assert(old(out)@.push(0u8) + b@ =~= old(out)@ + enc_ip(*ip));
            }
        },
        IpAddress::V6(b) => {
            out.push(1u8);
            push_bytes(out, b.as_slice());
            proof {
                assert(old(out)@.push(1u8) + b@ =~= old(out)@ + enc_ip(*ip));
            }
        },
    }
}

fn push_addr(out: &mut Vec<u8>, a: &SocketAddress)
    ensures
        final(out)@ == old(out)@ + enc_addr(*a),
{
    push_ip(out, &a.ip);
    push_u16(out, a.port);
    proof {
        assert(old(out)@ + enc_ip(a.ip) + spec_u16_to_le_bytes(a.port) =~= old(out)@ + enc_addr(
            *a,
        ));
    }
}

fn push_opt_pubkey(out: &mut Vec<u8>, o: &Option<Pubkey>)
    ensures
        final(out)@ == old(out)@ + enc_opt_pubkey(*o),
{
    match o {
        Option::None => {
            out.push(0u8);
            proof {
                assert(old(out)@.push(0u8) =~= old(out)@ + enc_opt_pubkey(*o));
            }
        },
        Option::Some(k) => {
            out.push(1u8);
            push_bytes(out, k.0.as_slice());
            proof {
                assert(old(out)@.push(1u8) + k.0@ =~= old(out)@ + enc_opt_pubkey(*o));
            }
        },
    }
}

/// The two encodings of an IP address differ in their flag byte, so a
/// decoder that has matched one at a position has matched the only one.
proof fn lemma_enc_ip_shape(ip: IpAddress)
    ensures
        ip is V4 ==> enc_ip(ip).len() == 5 && enc_ip(ip)[0] == 0,
        ip is V6 ==> enc_ip(ip).len() == 17 && enc_ip(ip)[0] == 1,
{
}

/// The two encodings of an optional public key differ in their flag
/// byte.
proof fn lemma_enc_opt_pubkey_shape(o: Option<Pubkey>)
    ensures
        o is None ==> enc_opt_pubkey(o).len() == 1 && enc_opt_pubkey(o)[0] == 0,
        o is Some ==> enc_opt_pubkey(o).len() == 33 && enc_opt_pubkey(o)[0] == 1,
{
}

/// Two IP-address encodings that start at the same position of the same
/// sequence are the same encoding: the flag byte pins the variant, and
/// the variant pins the length.
proof fn lemma_enc_ip_prefix(s: Seq<u8>, i: int, ip1: IpAddress, ip2: IpAddress, j1: int, j2: int)
    requires
        0 <= i <= j1 <= s.len(),
        i <= j2 <= s.len(),
        s.subrange(i, j1) == enc_ip(ip1),
        j1 - i == enc_ip(ip1).len(),
        s.subrange(i, j2) == enc_ip(ip2),
        j2 - i == enc_ip(ip2).len(),
    ensures
        ip1 == ip2,
        j1 == j2,
{
    lemma_enc_ip_shape(ip1);
    lemma_enc_ip_shape(ip2);
    assert(enc_ip(ip1)[0] == s[i]);
    assert(enc_ip(ip2)[0] == s[i]);
    match (ip1, ip2) {
        (IpAddress::V4(b1), IpAddress::V4(b2)) => {
            assert forall|k: int| 0 <= k < 4 implies b1@[k] == b2@[k] by {
                assert(b1@[k] == enc_ip(ip1)[k + 1]);
                assert(b2@[k] == enc_ip(ip2)[k + 1]);
                assert(enc_ip(ip1)[k + 1] == s[i + k + 1]);
                assert(enc_ip(ip2)[k + 1] == s[i + k + 1]);
            }
            assert(b1 =~= b2);
        },
        (IpAddress::V6(b1), IpAddress::V6(b2)) => {
            assert forall|k: int| 0 <= k < 16 implies b1@[k] == b2@[k] by {
                assert(b1@[k] == enc_ip(ip1)[k + 1]);
                assert(b2@[k] == enc_ip(ip2)[k + 1]);
                assert(enc_ip(ip1)[k + 1] == s[i + k + 1]);
                assert(enc_ip(ip2)[k + 1] == s[i + k + 1]);
            }
            assert(b1 =~= b2);
        },
        _ => {
            assert(false);
        },
    }
}

/// Two optional-public-key encodings that start at the same position of
/// the same sequence are the same encoding.
proof fn lemma_enc_opt_pubkey_prefix(
    s: Seq<u8>,
    i: int,
    o1: Option<Pubkey>,
    o2: Option<Pubkey>,
    j1: int,
    j2: int,
)
    requires
        0 <= i <= j1 <= s.len(),
        i <= j2 <= s.len(),
        s.subrange(i, j1) == enc_opt_pubkey(o1),
        j1 - i == enc_opt_pubkey(o1).len(),
        s.subrange(i, j2) == enc_opt_pubkey(o2),
        j2 - i == enc_opt_pubkey(o2).len(),
    ensures
        o1 == o2,
        j1 == j2,
{
    lemma_enc_opt_pubkey_shape(o1);
    lemma_enc_opt_pubkey_shape(o2);
    assert(enc_opt_pubkey(o1)[0] == s[i]);
    assert(enc_opt_pubkey(o2)[0] == s[i]);
    match (o1, o2) {
        (Option::Some(k1), Option::Some(k2)) => {
            assert forall|k: int| 0 <= k < 32 implies k1.0@[k] == k2.0@[k] by {
                assert(k1.0@[k] == enc_opt_pubkey(o1)[k + 1]);
                assert(k2.0@[k] == enc_opt_pubkey(o2)[k + 1]);
                assert(enc_opt_pubkey(o1)[k + 1] == s[i + k + 1]);
                assert(enc_opt_pubkey(o2)[k + 1] == s[i + k + 1]);
            }
            assert(k1.0 =~= k2.0);
        },
        (Option::None, Option::None) => {},
        _ => {
            assert(false);
        },
    }
}

fn copy_array<const N: usize>(bytes: &Vec<u8>, i: usize) -> (a: [u8; N])
    requires
        i + N <= bytes@.len(),
    ensures
        a@ == bytes@.subrange(i as int, i as int + N as int),
{
    let mut a = [0u8; N];
    let blen = bytes.len();
    let mut j: usize = 0;
    while j < N
        invariant
            j <= N,
            i + N <= blen,
            blen == bytes@.len(),
            a@.len() == N,
            forall|k: int| 0 <= k < j ==> a@[k] == bytes@[i + k],
        decreases N - j,
    {
        a[j] = bytes[i + j];
        j = j + 1;
    }
    proof {
        assert(a@ =~= bytes@.subrange(i as int, i as int + N as int));
    }
    a
}

fn read_u8(bytes: &Vec<u8>, i: usize) -> (r: Option<(u8, usize)>)
    requires
        i <= bytes@.len(),
    ensures
        match r {
            Option::Some(p) => p.1 == i + 1 && p.1 <= bytes@.len() && bytes@.subrange(
                i as int,
                p.1 as int,
            ) == seq![p.0],
            Option::None => bytes@.len() < i + 1,
        },
{
    if i < bytes.len() {
        let v = bytes[i];
        proof {
            assert(bytes@.subrange(i as int, i as int + 1) =~= seq![bytes@[i as int]]);
        }
        Option::Some((v, i + 1))
    } else {
        Option::None
    }
}

fn read_u16(bytes: &Vec<u8>, i: usize) -> (r: Option<(u16, usize)>)
    requires
        i <= bytes@.len(),
    ensures
        match r {
            Option::Some(p) => p.1 == i + 2 && p.1 <= bytes@.len() && bytes@.subrange(
                i as int,
                p.1 as int,
            ) == spec_u16_to_le_bytes(p.0),
            Option::None => bytes@.len() < i + 2,
        },
{
    if bytes.len() - i >= 2 {
        let s = slice_subrange(bytes.as_slice(), i, i + 2);
        let v = u16_from_le_bytes(s);
        proof {
            lemma_auto_spec_u16_to_from_le_bytes();
        }
        Option::Some((v, i + 2))
    } else {
        Option::None
    }
}

fn read_u32(bytes: &Vec<u8>, i: usize) -> (r: Option<(u32, usize)>)
    requires
        i <= bytes@.len(),
    ensures
        match r {
            Option::Some(p) => p.1 == i + 4 && p.1 <= bytes@.len() && bytes@.subrange(
                i as int,
                p.1 as int,
            ) == spec_u32_to_le_bytes(p.0),
            Option::None => bytes@.len() < i + 4,
        },
{
    if bytes.len() - i >= 4 {
        let s = slice_subrange(bytes.as_slice(), i, i + 4);
        let v = u32_from_le_bytes(s);
        proof {
            lemma_auto_spec_u32_to_from_le_bytes();
        }
        Option::Some((v, i + 4))
    } else {
        Option::None
    }
}

fn read_u64(bytes: &Vec<u8>, i: usize) -> (r: Option<(u64, usize)>)
    requires
        i <= bytes@.len(),
    ensures
        match r {
            Option::Some(p) => p.1 == i + 8 && p.1 <= bytes@.len() && bytes@.subrange(
                i as int,
                p.1 as int,
            ) == spec_u64_to_le_bytes(p.0),
            Option::None => bytes@.len() < i + 8,
        },
{
    if bytes.len() - i >= 8 {
        let s = slice_subrange(bytes.as_slice(), i, i + 8);
        let v = u64_from_le_bytes(s);
        proof {
            lemma_auto_spec_u64_to_from_le_bytes();
        }
        Option::Some((v, i + 8))
    } else {
        Option::None
    }
}

fn read_sig(bytes: &Vec<u8>, i: usize) -> (r: Option<(Signature, usize)>)
    requires
        i <= bytes@.len(),
    ensures
        match r {
            Option::Some(p) => p.1 == i + 64 && p.1 <= bytes@.len() && bytes@.subrange(
                i as int,
                p.1 as int,
            ) == p.0.0@,
            Option::None => bytes@.len() < i + 64,
        },
{
    if bytes.len() - i >= 64 {
        let a: [u8; 64] = copy_array::<64>(bytes, i);
        Option::Some((Signature(a), i + 64))
    } else {
        Option::None
    }
}

fn read_ip(bytes: &Vec<u8>, i: usize) -> (r: Option<(IpAddress, usize)>)
    requires
        i <= bytes@.len(),
    ensures
        match r {
            Option::Some(p) => i < p.1 <= bytes@.len() && p.1 - i == enc_ip(p.0).len()
                && bytes@.subrange(i as int, p.1 as int) == enc_ip(p.0),
            Option::None => forall|ip: IpAddress|
                !(i + enc_ip(ip).len() <= bytes@.len() && bytes@.subrange(
                    i as int,
                    i + enc_ip(ip).len(),
                ) == enc_ip(ip)),
        },
{
    if i < bytes.len() {
        let flag = bytes[i];
        if flag == 0 {
            if bytes.len() - (i + 1) >= 4 {
                let a: [u8; 4] = copy_array::<4>(bytes, i + 1);
                let ip = IpAddress::V4(a);
                proof {
                    lemma_enc_ip_shape(ip);
                    assert(bytes@.subrange(i as int, i as int + 5) =~= seq![bytes@[i as int]]
                        + bytes@.subrange(i as int + 1, i as int + 5));
                    assert(bytes@.subrange(i as int, i as int + 5) =~= enc_ip(ip));
                }
                Option::Some((ip, i + 5))
            } else {
                proof {
                    assert forall|ip: IpAddress|
                        !(i + enc_ip(ip).len() <= bytes@.len() && bytes@.subrange(
                            i as int,
                            i + enc_ip(ip).len(),
                        ) == enc_ip(ip)) by {
                        lemma_enc_ip_shape(ip);
                        if i + enc_ip(ip).len() <= bytes@.len() && bytes@.subrange(
                            i as int,
                            i + enc_ip(ip).len(),
                        ) == enc_ip(ip) {
                            assert(enc_ip(ip)[0] == bytes@[i as int]);
                        }
                    }
                }
                Option::None
            }
        } else if flag == 1 {
            if bytes.len() - (i + 1) >= 16 {
                let a: [u8; 16] = copy_array::<16>(bytes, i + 1);
                let ip = IpAddress::V6(a);
                proof {
                    lemma_enc_ip_shape(ip);
                    assert(bytes@.subrange(i as int, i as int + 17) =~= seq![bytes@[i as int]]
                        + bytes@.subrange(i as int + 1, i as int + 17));
                    assert(bytes@.subrange(i as int, i as int + 17) =~= enc_ip(ip));
                }
                Option::Some((ip, i + 17))
            } else {
                proof {
                    assert forall|ip: IpAddress|
                        !(i + enc_ip(ip).len() <= bytes@.len() && bytes@.subrange(
                            i as int,
                            i + enc_ip(ip).len(),
                        ) == enc_ip(ip)) by {
                        lemma_enc_ip_shape(ip);
                        if i + enc_ip(ip).len() <= bytes@.len() && bytes@.subrange(
                            i as int,
                            i + enc_ip(ip).len(),
                        ) == enc_ip(ip) {
                            assert(enc_ip(ip)[0] == bytes@[i as int]);
                        }
                    }
                }
                Option::None
            }
        } else {
            proof {
                assert forall|ip: IpAddress|
                    !(i + enc_ip(ip).len() <= bytes@.len() && bytes@.subrange(
                        i as int,
                        i + enc_ip(ip).len(),
                    ) == enc_ip(ip)) by {
                    lemma_enc_ip_shape(ip);
                    if i + enc_ip(ip).len() <= bytes@.len() && bytes@.subrange(
                        i as int,
                        i + enc_ip(ip).len(),
                    ) == enc_ip(ip) {
                        assert(enc_ip(ip)[0] == bytes@[i as int]);
                    }
                }
            }
            Option::None
        }
    } else {
        proof {
            assert forall|ip: IpAddress|
                !(i + enc_ip(ip).len() <= bytes@.len() && bytes@.subrange(
                    i as int,
                    i + enc_ip(ip).len(),
                ) == enc_ip(ip)) by {
                lemma_enc_ip_shape(ip);
            }
        }
        Option::None
    }
}

fn read_opt_pubkey(bytes: &Vec<u8>, i: usize) -> (r: Option<(Option<Pubkey>, usize)>)
    requires
        i <= bytes@.len(),
    ensures
        match r {
            Option::Some(p) => i < p.1 <= bytes@.len() && p.1 - i == enc_opt_pubkey(p.0).len()
                && bytes@.subrange(i as int, p.1 as int) == enc_opt_pubkey(p.0),
            Option::None => forall|o: Option<Pubkey>|
                !(i + enc_opt_pubkey(o).len() <= bytes@.len() && bytes@.subrange(
                    i as int,
                    i + enc_opt_pubkey(o).len(),
                ) == enc_opt_pubkey(o)),
        },
{
    if i < bytes.len() {
        let flag = bytes[i];
        if flag == 0 {
            let o: Option<Pubkey> = Option::None;
            proof {
                lemma_enc_opt_pubkey_shape(o);
                assert(bytes@.subrange(i as int, i as int + 1) =~= seq![bytes@[i as int]]);
                assert(bytes@.subrange(i as int, i as int + 1) =~= enc_opt_pubkey(o));
            }
            Option::Some((o, i + 1))
        } else if flag == 1 {
            if bytes.len() - (i + 1) >= 32 {
                let a: [u8; 32] = copy_array::<32>(bytes, i + 1);
                let o = Option::Some(Pubkey(a));
                proof {
                    lemma_enc_opt_pubkey_shape(o);
                    assert(bytes@.subrange(i as int, i as int + 33) =~= seq![bytes@[i as int]]
                        + bytes@.subrange(i as int + 1, i as int + 33));
                    assert(bytes@.subrange(i as int, i as int + 33) =~= enc_opt_pubkey(o));
                }
                Option::Some((o, i + 33))
            } else {
                proof {
                    assert forall|o: Option<Pubkey>|
                        !(i + enc_opt_pubkey(o).len() <= bytes@.len() && bytes@.subrange(
                            i as int,
                            i + enc_opt_pubkey(o).len(),
                        ) == enc_opt_pubkey(o)) by {
                        lemma_enc_opt_pubkey_shape(o);
                        if i + enc_opt_pubkey(o).len() <= bytes@.len() && bytes@.subrange(
                            i as int,
                            i + enc_opt_pubkey(o).len(),
                        ) == enc_opt_pubkey(o) {
                            assert(enc_opt_pubkey(o)[0] == bytes@[i as int]);
                        }
                    }
                }
                Option::None
            }
        } else {
            proof {
                assert forall|o: Option<Pubkey>|
                    !(i + enc_opt_pubkey(o).len() <= bytes@.len() && bytes@.subrange(
                        i as int,
                        i + enc_opt_pubkey(o).len(),
                    ) == enc_opt_pubkey(o)) by {
                    lemma_enc_opt_pubkey_shape(o);
                    if i + enc_opt_pubkey(o).len() <= bytes@.len() && bytes@.subrange(
                        i as int,
                        i + enc_opt_pubkey(o).len(),
                    ) == enc_opt_pubkey(o) {
                        assert(enc_opt_pubkey(o)[0] == bytes@[i as int]);
                    }
                }
            }
            Option::None
        }
    } else {
        proof {
            assert forall|o: Option<Pubkey>|
                !(i + enc_opt_pubkey(o).len() <= bytes@.len() && bytes@.subrange(
                    i as int,
                    i + enc_opt_pubkey(o).len(),
                ) == enc_opt_pubkey(o)) by {
                lemma_enc_opt_pubkey_shape(o);
            }
        }
        Option::None
    }
}

/// The parts of a concatenation laid out inside `s` from `off` on.
proof fn lemma_parts2(s: Seq<u8>, off: int, a: Seq<u8>, b: Seq<u8>)
    requires
        0 <= off,
        off + a.len() + b.len() <= s.len(),
        s.subrange(off, off + a.len() + b.len()) == a + b,
    ensures
        s.subrange(off, off + a.len()) == a,
        s.subrange(off + a.len(), off + a.len() + b.len()) == b,
{
    let w = s.subrange(off, off + a.len() + b.len());
    assert forall|k: int| 0 <= k < a.len() implies a[k] == s[off + k] by {
        assert((a + b)[k] == a[k]);
        assert(w[k] == s[off + k]);
    }
    assert forall|k: int| 0 <= k < b.len() implies b[k] == s[off + a.len() + k] by {
        assert((a + b)[a.len() + k] == b[k]);
        assert(w[a.len() + k] == s[off + a.len() + k]);
    }
    assert(s.subrange(off, off + a.len()) =~= a);
    assert(s.subrange(off + a.len(), off + a.len() + b.len()) =~= b);
}

proof fn lemma_parts3(s: Seq<u8>, off: int, a: Seq<u8>, b: Seq<u8>, c: Seq<u8>)
    requires
        0 <= off,
        off + a.len() + b.len() + c.len() <= s.len(),
        s.subrange(off, off + a.len() + b.len() + c.len()) == a + b + c,
    ensures
        s.subrange(off, off + a.len()) == a,
        s.subrange(off + a.len(), off + a.len() + b.len()) == b,
        s.subrange(off + a.len() + b.len(), off + a.len() + b.len() + c.len()) == c,
{
    lemma_parts2(s, off, a + b, c);
    lemma_parts2(s, off, a, b);
}

proof fn lemma_parts4(s: Seq<u8>, off: int, a: Seq<u8>, b: Seq<u8>, c: Seq<u8>, d: Seq<u8>)
    requires
        0 <= off,
        off + a.len() + b.len() + c.len() + d.len() <= s.len(),
        s.subrange(off, off + a.len() + b.len() + c.len() + d.len()) == a + b + c + d,
    ensures
        s.subrange(off, off + a.len()) == a,
        s.subrange(off + a.len(), off + a.len() + b.len()) == b,
        s.subrange(off + a.len() + b.len(), off + a.len() + b.len() + c.len()) == c,
        s.subrange(
            off + a.len() + b.len() + c.len(),
            off + a.len() + b.len() + c.len() + d.len(),
        ) == d,
{
    lemma_parts2(s, off, a + b + c, d);
    lemma_parts3(s, off, a, b, c);
}

proof fn lemma_parts5(
    s: Seq<u8>,
    off: int,
    a: Seq<u8>,
    b: Seq<u8>,
    c: Seq<u8>,
    d: Seq<u8>,
    e: Seq<u8>,
)
    requires
        0 <= off,
        off + a.len() + b.len() + c.len() + d.len() + e.len() <= s.len(),
        s.subrange(off, off + a.len() + b.len() + c.len() + d.len() + e.len()) == a + b + c + d
            + e,
    ensures
        s.subrange(off, off + a.len()) == a,
        s.subrange(off + a.len(), off + a.len() + b.len()) == b,
        s.subrange(off + a.len() + b.len(), off + a.len() + b.len() + c.len()) == c,
        s.subrange(
            off + a.len() + b.len() + c.len(),
            off + a.len() + b.len() + c.len() + d.len(),
        ) == d,
        s.subrange(
            off + a.len() + b.len() + c.len() + d.len(),
            off + a.len() + b.len() + c.len() + d.len() + e.len(),
        ) == e,
{
    lemma_parts2(s, off, a + b + c + d, e);
    lemma_parts4(s, off, a, b, c, d);
}

proof fn lemma_chain2(s: Seq<u8>, off: int, a: Seq<u8>, b: Seq<u8>)
    requires
        0 <= off <= s.len(),
        s.subrange(off, s.len() as int) == a + b,
    ensures
        s.len() == off + a.len() + b.len(),
        s.subrange(off, off + a.len()) == a,
        s.subrange(off + a.len(), off + a.len() + b.len()) == b,
{
    assert(s.subrange(off, s.len() as int).len() == a.len() + b.len());
    lemma_parts2(s, off, a, b);
}

proof fn lemma_chain3(s: Seq<u8>, off: int, a: Seq<u8>, b: Seq<u8>, c: Seq<u8>)
    requires
        0 <= off <= s.len(),
        s.subrange(off, s.len() as int) == a + b + c,
    ensures
        s.len() == off + a.len() + b.len() + c.len(),
        s.subrange(off, off + a.len()) == a,
        s.subrange(off + a.len(), off + a.len() + b.len()) == b,
        s.subrange(off + a.len() + b.len(), off + a.len() + b.len() + c.len()) == c,
{
    assert(s.subrange(off, s.len() as int).len() == a.len() + b.len() + c.len());
    lemma_parts3(s, off, a, b, c);
}

proof fn lemma_chain4(s: Seq<u8>, off: int, a: Seq<u8>, b: Seq<u8>, c: Seq<u8>, d: Seq<u8>)
    requires
        0 <= off <= s.len(),
        s.subrange(off, s.len() as int) == a + b + c + d,
    ensures
        s.len() == off + a.len() + b.len() + c.len() + d.len(),
        s.subrange(off, off + a.len()) == a,
        s.subrange(off + a.len(), off + a.len() + b.len()) == b,
        s.subrange(off + a.len() + b.len(), off + a.len() + b.len() + c.len()) == c,
        s.subrange(
            off + a.len() + b.len() + c.len(),
            off + a.len() + b.len() + c.len() + d.len(),
        ) == d,
{
    assert(s.subrange(off, s.len() as int).len() == a.len() + b.len() + c.len() + d.len());
    lemma_parts4(s, off, a, b, c, d);
}

proof fn lemma_chain5(
    s: Seq<u8>,
    off: int,
    a: Seq<u8>,
    b: Seq<u8>,
    c: Seq<u8>,
    d: Seq<u8>,
    e: Seq<u8>,
)
    requires
        0 <= off <= s.len(),
        s.subrange(off, s.len() as int) == a + b + c + d + e,
    ensures
        s.len() == off + a.len() + b.len() + c.len() + d.len() + e.len(),
        s.subrange(off, off + a.len()) == a,
        s.subrange(off + a.len(), off + a.len() + b.len()) == b,
        s.subrange(off + a.len() + b.len(), off + a.len() + b.len() + c.len()) == c,
        s.subrange(
            off + a.len() + b.len() + c.len(),
            off + a.len() + b.len() + c.len() + d.len(),
        ) == d,
        s.subrange(
            off + a.len() + b.len() + c.len() + d.len(),
            off + a.len() + b.len() + c.len() + d.len() + e.len(),
        ) == e,
{
    assert(s.subrange(off, s.len() as int).len() == a.len() + b.len() + c.len() + d.len()
        + e.len());
    lemma_parts5(s, off, a, b, c, d, e);
}

/// A payload of the timestamp-plus-slots shape pins the record length.
proof fn lemma_not_ts_u8_shape(bytes: Seq<u8>)
    requires
        bytes.len() >= 4,
        bytes.len() != 13,
    ensures
        forall|ts: u64, sl: u8|
            bytes.subrange(4, bytes.len() as int) != spec_u64_to_le_bytes(ts) + seq![sl],
{
    assert forall|ts: u64, sl: u8|
        bytes.subrange(4, bytes.len() as int) != spec_u64_to_le_bytes(ts) + seq![sl] by {
        if bytes.subrange(4, bytes.len() as int) == spec_u64_to_le_bytes(ts) + seq![sl] {
            lemma_auto_spec_u64_to_from_le_bytes();
            lemma_chain2(bytes, 4, spec_u64_to_le_bytes(ts), seq![sl]);
        }
    }
}

/// A payload of the timestamp-plus-signature shape pins the record
/// length.
proof fn lemma_not_ts_sig_shape(bytes: Seq<u8>)
    requires
        bytes.len() >= 4,
        bytes.len() != 76,
    ensures
        forall|ts: u64, sg: Signature|
            bytes.subrange(4, bytes.len() as int) != spec_u64_to_le_bytes(ts) + sg.0@,
{
    assert forall|ts: u64, sg: Signature|
        bytes.subrange(4, bytes.len() as int) != spec_u64_to_le_bytes(ts) + sg.0@ by {
        if bytes.subrange(4, bytes.len() as int) == spec_u64_to_le_bytes(ts) + sg.0@ {
            lemma_auto_spec_u64_to_from_le_bytes();
            lemma_chain2(bytes, 4, spec_u64_to_le_bytes(ts), sg.0@);
        }
    }
}

/// A payload of the timestamp-signature-fee shape pins the record
/// length.
proof fn lemma_not_ts_sig_u64_shape(bytes: Seq<u8>)
    requires
        bytes.len() >= 4,
        bytes.len() != 84,
    ensures
        forall|ts: u64, sg: Signature, fe: u64|
            bytes.subrange(4, bytes.len() as int) != spec_u64_to_le_bytes(ts) + sg.0@
                + spec_u64_to_le_bytes(fe),
{
    assert forall|ts: u64, sg: Signature, fe: u64|
        bytes.subrange(4, bytes.len() as int) != spec_u64_to_le_bytes(ts) + sg.0@
            + spec_u64_to_le_bytes(fe) by {
        if bytes.subrange(4, bytes.len() as int) == spec_u64_to_le_bytes(ts) + sg.0@
            + spec_u64_to_le_bytes(fe) {
            lemma_auto_spec_u64_to_from_le_bytes();
            lemma_chain3(bytes, 4, spec_u64_to_le_bytes(ts), sg.0@, spec_u64_to_le_bytes(fe));
        }
    }
}

fn parse_ts(bytes: &Vec<u8>) -> (r: Option<u64>)
    requires
        bytes@.len() >= 4,
    ensures
        match r {
            Option::Some(ts) => bytes@.subrange(4, bytes@.len() as int) == spec_u64_to_le_bytes(
                ts,
            ),
            Option::None => forall|ts: u64|
                bytes@.subrange(4, bytes@.len() as int) != spec_u64_to_le_bytes(ts),
        },
{
    proof {
        lemma_auto_spec_u64_to_from_le_bytes();
    }
    match read_u64(bytes, 4) {
        Option::Some(p) => {
            if p.1 == bytes.len() {
                Option::Some(p.0)
            } else {
                Option::None
            }
        },
        Option::None => Option::None,
    }
}

fn parse_ts_u8(bytes: &Vec<u8>) -> (r: Option<(u64, u8)>)
    requires
        bytes@.len() >= 4,
    ensures
        match r {
            Option::Some(p) => bytes@.subrange(4, bytes@.len() as int) == spec_u64_to_le_bytes(p.0)
                + seq![p.1],
            Option::None => forall|ts: u64, sl: u8|
                bytes@.subrange(4, bytes@.len() as int) != spec_u64_to_le_bytes(ts) + seq![sl],
        },
{
    proof {
        lemma_auto_spec_u64_to_from_le_bytes();
    }
    let ghost n = bytes@.len() as int;
    match read_u64(bytes, 4) {
        Option::Some(p) => {
            match read_u8(bytes, p.1) {
                Option::Some(q) => {
                    if q.1 == bytes.len() {
                        proof {
                            assert(bytes@.subrange(4, n) =~= bytes@.subrange(4, 12)
                                + bytes@.subrange(12, 13));
                        }
                        Option::Some((p.0, q.0))
                    } else {
                        proof {
                            lemma_not_ts_u8_shape(bytes@);
                        }
                        Option::None
                    }
                },
                Option::None => {
                    proof {
                        lemma_not_ts_u8_shape(bytes@);
                    }
                    Option::None
                },
            }
        },
        Option::None => {
            proof {
                lemma_not_ts_u8_shape(bytes@);
            }
            Option::None
        },
    }
}

fn parse_ts_sig(bytes: &Vec<u8>) -> (r: Option<(u64, Signature)>)
    requires
        bytes@.len() >= 4,
    ensures
        match r {
            Option::Some(p) => bytes@.subrange(4, bytes@.len() as int) == spec_u64_to_le_bytes(p.0)
                + p.1.0@,
            Option::None => forall|ts: u64, sg: Signature|
                bytes@.subrange(4, bytes@.len() as int) != spec_u64_to_le_bytes(ts) + sg.0@,
        },
{
    proof {
        lemma_auto_spec_u64_to_from_le_bytes();
    }
    let ghost n = bytes@.len() as int;
    match read_u64(bytes, 4) {
        Option::Some(p) => {
            match read_sig(bytes, p.1) {
                Option::Some(q) => {
                    if q.1 == bytes.len() {
                        proof {
                            assert(bytes@.subrange(4, n) =~= bytes@.subrange(4, 12)
                                + bytes@.subrange(12, 76));
                        }
                        Option::Some((p.0, q.0))
                    } else {
                        proof {
                            lemma_not_ts_sig_shape(bytes@);
                        }
                        Option::None
                    }
                },
                Option::None => {
                    proof {
                        lemma_not_ts_sig_shape(bytes@);
                    }
                    Option::None
                },
            }
        },
        Option::None => {
            proof {
                lemma_not_ts_sig_shape(bytes@);
            }
            Option::None
        },
    }
}

fn parse_ts_sig_u64(bytes: &Vec<u8>) -> (r: Option<(u64, Signature, u64)>)
    requires
        bytes@.len() >= 4,
    ensures
        match r {
            Option::Some(p) => bytes@.subrange(4, bytes@.len() as int) == spec_u64_to_le_bytes(p.0)
                + p.1.0@ + spec_u64_to_le_bytes(p.2),
            Option::None => forall|ts: u64, sg: Signature, fe: u64|
                bytes@.subrange(4, bytes@.len() as int) != spec_u64_to_le_bytes(ts) + sg.0@
                    + spec_u64_to_le_bytes(fe),
        },
{
    proof {
        lemma_auto_spec_u64_to_from_le_bytes();
    }
    let ghost n = bytes@.len() as int;
    match read_u64(bytes, 4) {
        Option::Some(p) => {
            match read_sig(bytes, p.1) {
                Option::Some(q) => {
                    match read_u64(bytes, q.1) {
                        Option::Some(w) => {
                            if w.1 == bytes.len() {
                                proof {
                                    assert(bytes@.subrange(4, n) =~= bytes@.subrange(4, 12)
                                        + bytes@.subrange(12, 76) + bytes@.subrange(76, 84));
                                }
                                Option::Some((p.0, q.0, w.0))
                            } else {
                                proof {
                                    lemma_not_ts_sig_u64_shape(bytes@);
                                }
                                Option::None
                            }
                        },
                        Option::None => {
                            proof {
                                lemma_not_ts_sig_u64_shape(bytes@);
                            }
                            Option::None
                        },
                    }
                },
                Option::None => {
                    proof {
                        lemma_not_ts_sig_u64_shape(bytes@);
                    }
                    Option::None
                },
            }
        },
        Option::None => {
            proof {
                lemma_not_ts_sig_u64_shape(bytes@);
            }
            Option::None
        },
    }
}

fn parse_ts_ip_u16(bytes: &Vec<u8>) -> (r: Option<(u64, IpAddress, u16)>)
    requires
        bytes@.len() >= 4,
    ensures
        match r {
            Option::Some(p) => bytes@.subrange(4, bytes@.len() as int) == spec_u64_to_le_bytes(p.0)
                + enc_ip(p.1) + spec_u16_to_le_bytes(p.2),
            Option::None => forall|ts: u64, ip: IpAddress, pt: u16|
                bytes@.subrange(4, bytes@.len() as int) != spec_u64_to_le_bytes(ts) + enc_ip(ip)
                    + spec_u16_to_le_bytes(pt),
        },
{
    proof {
        lemma_auto_spec_u64_to_from_le_bytes();
        lemma_auto_spec_u16_to_from_le_bytes();
    }
    let ghost n = bytes@.len() as int;
    let ghost whole = bytes@.subrange(4, n);
    match read_u64(bytes, 4) {
        Option::None => {
            proof {
                assert forall|ts: u64, ip: IpAddress, pt: u16|
                    whole != spec_u64_to_le_bytes(ts) + enc_ip(ip) + spec_u16_to_le_bytes(pt) by {
                    lemma_enc_ip_shape(ip);
                    if whole == spec_u64_to_le_bytes(ts) + enc_ip(ip) + spec_u16_to_le_bytes(pt) {
                        lemma_chain3(
                            bytes@,
                            4,
                            spec_u64_to_le_bytes(ts),
                            enc_ip(ip),
                            spec_u16_to_le_bytes(pt),
                        );
                    }
                }
            }
            Option::None
        },
        Option::Some(p) => {
            match read_ip(bytes, p.1) {
                Option::None => {
                    proof {
                        assert forall|ts: u64, ip: IpAddress, pt: u16|
                            whole != spec_u64_to_le_bytes(ts) + enc_ip(ip) + spec_u16_to_le_bytes(
                                pt,
                            ) by {
                            lemma_enc_ip_shape(ip);
                            if whole == spec_u64_to_le_bytes(ts) + enc_ip(ip)
                                + spec_u16_to_le_bytes(pt) {
                                lemma_chain3(
                                    bytes@,
                                    4,
                                    spec_u64_to_le_bytes(ts),
                                    enc_ip(ip),
                                    spec_u16_to_le_bytes(pt),
                                );
                            }
                        }
                    }
                    Option::None
                },
                Option::Some(q) => {
                    match read_u16(bytes, q.1) {
                        Option::None => {
                            proof {
                                assert forall|ts: u64, ip: IpAddress, pt: u16|
                                    whole != spec_u64_to_le_bytes(ts) + enc_ip(ip)
                                        + spec_u16_to_le_bytes(pt) by {
                                    lemma_enc_ip_shape(ip);
                                    if whole == spec_u64_to_le_bytes(ts) + enc_ip(ip)
                                        + spec_u16_to_le_bytes(pt) {
                                        lemma_chain3(
                                            bytes@,
                                            4,
                                            spec_u64_to_le_bytes(ts),
                                            enc_ip(ip),
                                            spec_u16_to_le_bytes(pt),
                                        );
                                        lemma_enc_ip_prefix(
                                            bytes@,
                                            12,
                                            q.0,
                                            ip,
                                            q.1 as int,
                                            12 + enc_ip(ip).len() as int,
                                        );
                                    }
                                }
                            }
                            Option::None
                        },
                        Option::Some(w) => {
                            if w.1 == bytes.len() {
                                proof {
                                    assert(whole =~= bytes@.subrange(4, 12) + bytes@.subrange(
                                        12,
                                        q.1 as int,
                                    ) + bytes@.subrange(q.1 as int, w.1 as int));
                                }
                                Option::Some((p.0, q.0, w.0))
                            } else {
                                proof {
                                    assert forall|ts: u64, ip: IpAddress, pt: u16|
                                        whole != spec_u64_to_le_bytes(ts) + enc_ip(ip)
                                            + spec_u16_to_le_bytes(pt) by {
                                        lemma_enc_ip_shape(ip);
                                        if whole == spec_u64_to_le_bytes(ts) + enc_ip(ip)
                                            + spec_u16_to_le_bytes(pt) {
                                            lemma_chain3(
                                                bytes@,
                                                4,
                                                spec_u64_to_le_bytes(ts),
                                                enc_ip(ip),
                                                spec_u16_to_le_bytes(pt),
                                            );
                                            lemma_enc_ip_prefix(
                                                bytes@,
                                                12,
                                                q.0,
                                                ip,
                                                q.1 as int,
                                                12 + enc_ip(ip).len() as int,
                                            );
                                        }
                                    }
                                }
                                Option::None
                            }
                        },
                    }
                },
            }
        },
    }
}

fn parse_ts_ip_u16_sig(bytes: &Vec<u8>) -> (r: Option<(u64, IpAddress, u16, Signature)>)
    requires
        bytes@.len() >= 4,
    ensures
        match r {
            Option::Some(p) => bytes@.subrange(4, bytes@.len() as int) == spec_u64_to_le_bytes(p.0)
                + enc_ip(p.1) + spec_u16_to_le_bytes(p.2) + p.3.0@,
            Option::None => forall|ts: u64, ip: IpAddress, pt: u16, sg: Signature|
                bytes@.subrange(4, bytes@.len() as int) != spec_u64_to_le_bytes(ts) + enc_ip(ip)
                    + spec_u16_to_le_bytes(pt) + sg.0@,
        },
{
    proof {
        lemma_auto_spec_u64_to_from_le_bytes();
        lemma_auto_spec_u16_to_from_le_bytes();
    }
    let ghost n = bytes@.len() as int;
    let ghost whole = bytes@.subrange(4, n);
    match read_u64(bytes, 4) {
        Option::None => {
            proof {
                assert forall|ts: u64, ip: IpAddress, pt: u16, sg: Signature|
                    whole != spec_u64_to_le_bytes(ts) + enc_ip(ip) + spec_u16_to_le_bytes(pt)
                        + sg.0@ by {
                    lemma_enc_ip_shape(ip);
                    if whole == spec_u64_to_le_bytes(ts) + enc_ip(ip) + spec_u16_to_le_bytes(pt)
                        + sg.0@ {
                        lemma_chain4(
                            bytes@,
                            4,
                            spec_u64_to_le_bytes(ts),
                            enc_ip(ip),
                            spec_u16_to_le_bytes(pt),
                            sg.0@,
                        );
                    }
                }
            }
            Option::None
        },
        Option::Some(p) => {
            match read_ip(bytes, p.1) {
                Option::None => {
                    proof {
                        assert forall|ts: u64, ip: IpAddress, pt: u16, sg: Signature|
                            whole != spec_u64_to_le_bytes(ts) + enc_ip(ip) + spec_u16_to_le_bytes(
                                pt,
                            ) + sg.0@ by {
                            lemma_enc_ip_shape(ip);
                            if whole == spec_u64_to_le_bytes(ts) + enc_ip(ip)
                                + spec_u16_to_le_bytes(pt) + sg.0@ {
                                lemma_chain4(
                                    bytes@,
                                    4,
                                    spec_u64_to_le_bytes(ts),
                                    enc_ip(ip),
                                    spec_u16_to_le_bytes(pt),
                                    sg.0@,
                                );
                            }
                        }
                    }
                    Option::None
                },
                Option::Some(q) => {
                    match read_u16(bytes, q.1) {
                        Option::None => {
                            proof {
                                assert forall|ts: u64, ip: IpAddress, pt: u16, sg: Signature|
                                    whole != spec_u64_to_le_bytes(ts) + enc_ip(ip)
                                        + spec_u16_to_le_bytes(pt) + sg.0@ by {
                                    lemma_enc_ip_shape(ip);
                                    if whole == spec_u64_to_le_bytes(ts) + enc_ip(ip)
                                        + spec_u16_to_le_bytes(pt) + sg.0@ {
                                        lemma_chain4(
                                            bytes@,
                                            4,
                                            spec_u64_to_le_bytes(ts),
                                            enc_ip(ip),
                                            spec_u16_to_le_bytes(pt),
                                            sg.0@,
                                        );
                                        lemma_enc_ip_prefix(
                                            bytes@,
                                            12,
                                            q.0,
                                            ip,
                                            q.1 as int,
                                            12 + enc_ip(ip).len() as int,
                                        );
                                    }
                                }
                            }
                            Option::None
                        },
                        Option::Some(w) => {
                            match read_sig(bytes, w.1) {
                                Option::Some(z) => {
                                    if z.1 == bytes.len() {
                                        proof {
                                            assert(whole =~= bytes@.subrange(4, 12)
                                                + bytes@.subrange(12, q.1 as int)
                                                + bytes@.subrange(q.1 as int, w.1 as int)
                                                + bytes@.subrange(w.1 as int, z.1 as int));
                                        }
                                        Option::Some((p.0, q.0, w.0, z.0))
                                    } else {
                                        proof {
                                            assert forall|
                                                ts: u64,
                                                ip: IpAddress,
                                                pt: u16,
                                                sg: Signature,
                                            |
                                                whole != spec_u64_to_le_bytes(ts) + enc_ip(ip)
                                                    + spec_u16_to_le_bytes(pt) + sg.0@ by {
                                                lemma_enc_ip_shape(ip);
                                                if whole == spec_u64_to_le_bytes(ts) + enc_ip(ip)
                                                    + spec_u16_to_le_bytes(pt) + sg.0@ {
                                                    lemma_chain4(
                                                        bytes@,
                                                        4,
                                                        spec_u64_to_le_bytes(ts),
                                                        enc_ip(ip),
                                                        spec_u16_to_le_bytes(pt),
                                                        sg.0@,
                                                    );
                                                    lemma_enc_ip_prefix(
                                                        bytes@,
                                                        12,
                                                        q.0,
                                                        ip,
                                                        q.1 as int,
                                                        12 + enc_ip(ip).len() as int,
                                                    );
                                                }
                                            }
                                        }
                                        Option::None
                                    }
                                },
                                Option::None => {
                                    proof {
                                        assert forall|
                                            ts: u64,
                                            ip: IpAddress,
                                            pt: u16,
                                            sg: Signature,
                                        |
                                            whole != spec_u64_to_le_bytes(ts) + enc_ip(ip)
                                                + spec_u16_to_le_bytes(pt) + sg.0@ by {
                                            lemma_enc_ip_shape(ip);
                                            if whole == spec_u64_to_le_bytes(ts) + enc_ip(ip)
                                                + spec_u16_to_le_bytes(pt) + sg.0@ {
                                                lemma_chain4(
                                                    bytes@,
                                                    4,
                                                    spec_u64_to_le_bytes(ts),
                                                    enc_ip(ip),
                                                    spec_u16_to_le_bytes(pt),
                                                    sg.0@,
                                                );
                                                lemma_enc_ip_prefix(
                                                    bytes@,
                                                    12,
                                                    q.0,
                                                    ip,
                                                    q.1 as int,
                                                    12 + enc_ip(ip).len() as int,
                                                );
                                            }
                                        }
                                    }
                                    Option::None
                                },
                            }
                        },
                    }
                },
            }
        },
    }
}

fn parse_ts_addr_opt_u64(bytes: &Vec<u8>) -> (r: Option<
    (u64, IpAddress, u16, Option<Pubkey>, u64),
>)
    requires
        bytes@.len() >= 4,
    ensures
        match r {
            Option::Some(p) => bytes@.subrange(4, bytes@.len() as int) == spec_u64_to_le_bytes(p.0)
                + enc_ip(p.1) + spec_u16_to_le_bytes(p.2) + enc_opt_pubkey(p.3)
                + spec_u64_to_le_bytes(p.4),
            Option::None => forall|ts: u64, ip: IpAddress, pt: u16, o: Option<Pubkey>, st: u64|
                bytes@.subrange(4, bytes@.len() as int) != spec_u64_to_le_bytes(ts) + enc_ip(ip)
                    + spec_u16_to_le_bytes(pt) + enc_opt_pubkey(o) + spec_u64_to_le_bytes(st),
        },
{
    proof {
        lemma_auto_spec_u64_to_from_le_bytes();
        lemma_auto_spec_u16_to_from_le_bytes();
    }
    let ghost n = bytes@.len() as int;
    let ghost whole = bytes@.subrange(4, n);
    match read_u64(bytes, 4) {
        Option::None => {
            proof {
                assert forall|ts: u64, ip: IpAddress, pt: u16, o: Option<Pubkey>, st: u64|
                    whole != spec_u64_to_le_bytes(ts) + enc_ip(ip) + spec_u16_to_le_bytes(pt)
                        + enc_opt_pubkey(o) + spec_u64_to_le_bytes(st) by {
                    lemma_enc_ip_shape(ip);
                    lemma_enc_opt_pubkey_shape(o);
                    if whole == spec_u64_to_le_bytes(ts) + enc_ip(ip) + spec_u16_to_le_bytes(pt)
                        + enc_opt_pubkey(o) + spec_u64_to_le_bytes(st) {
                        lemma_chain5(
                            bytes@,
                            4,
                            spec_u64_to_le_bytes(ts),
                            enc_ip(ip),
                            spec_u16_to_le_bytes(pt),
                            enc_opt_pubkey(o),
                            spec_u64_to_le_bytes(st),
                        );
                    }
                }
            }
            Option::None
        },
        Option::Some(p) => {
            match read_ip(bytes, p.1) {
                Option::None => {
                    proof {
                        assert forall|ts: u64, ip: IpAddress, pt: u16, o: Option<Pubkey>, st: u64|
                            whole != spec_u64_to_le_bytes(ts) + enc_ip(ip) + spec_u16_to_le_bytes(
                                pt,
                            ) + enc_opt_pubkey(o) + spec_u64_to_le_bytes(st) by {
                            lemma_enc_ip_shape(ip);
                            lemma_enc_opt_pubkey_shape(o);
                            if whole == spec_u64_to_le_bytes(ts) + enc_ip(ip)
                                + spec_u16_to_le_bytes(pt) + enc_opt_pubkey(o)
                                + spec_u64_to_le_bytes(st) {
                                lemma_chain5(
                                    bytes@,
                                    4,
                                    spec_u64_to_le_bytes(ts),
                                    enc_ip(ip),
                                    spec_u16_to_le_bytes(pt),
                                    enc_opt_pubkey(o),
                                    spec_u64_to_le_bytes(st),
                                );
                            }
                        }
                    }
                    Option::None
                },
                Option::Some(q) => {
                    match read_u16(bytes, q.1) {
                        Option::None => {
                            proof {
                                assert forall|
                                    ts: u64,
                                    ip: IpAddress,
                                    pt: u16,
                                    o: Option<Pubkey>,
                                    st: u64,
                                |
                                    whole != spec_u64_to_le_bytes(ts) + enc_ip(ip)
                                        + spec_u16_to_le_bytes(pt) + enc_opt_pubkey(o)
                                        + spec_u64_to_le_bytes(st) by {
                                    lemma_enc_ip_shape(ip);
                                    lemma_enc_opt_pubkey_shape(o);
                                    if whole == spec_u64_to_le_bytes(ts) + enc_ip(ip)
                                        + spec_u16_to_le_bytes(pt) + enc_opt_pubkey(o)
                                        + spec_u64_to_le_bytes(st) {
                                        lemma_chain5(
                                            bytes@,
                                            4,
                                            spec_u64_to_le_bytes(ts),
                                            enc_ip(ip),
                                            spec_u16_to_le_bytes(pt),
                                            enc_opt_pubkey(o),
                                            spec_u64_to_le_bytes(st),
                                        );
                                        lemma_enc_ip_prefix(
                                            bytes@,
                                            12,
                                            q.0,
                                            ip,
                                            q.1 as int,
                                            12 + enc_ip(ip).len() as int,
                                        );
                                    }
                                }
                            }
                            Option::None
                        },
                        Option::Some(w) => {
                            match read_opt_pubkey(bytes, w.1) {
                                Option::None => {
                                    proof {
                                        assert forall|
                                            ts: u64,
                                            ip: IpAddress,
                                            pt: u16,
                                            o: Option<Pubkey>,
                                            st: u64,
                                        |
                                            whole != spec_u64_to_le_bytes(ts) + enc_ip(ip)
                                                + spec_u16_to_le_bytes(pt) + enc_opt_pubkey(o)
                                                + spec_u64_to_le_bytes(st) by {
                                            lemma_enc_ip_shape(ip);
                                            lemma_enc_opt_pubkey_shape(o);
                                            if whole == spec_u64_to_le_bytes(ts) + enc_ip(ip)
                                                + spec_u16_to_le_bytes(pt) + enc_opt_pubkey(o)
                                                + spec_u64_to_le_bytes(st) {
                                                lemma_chain5(
                                                    bytes@,
                                                    4,
                                                    spec_u64_to_le_bytes(ts),
                                                    enc_ip(ip),
                                                    spec_u16_to_le_bytes(pt),
                                                    enc_opt_pubkey(o),
                                                    spec_u64_to_le_bytes(st),
                                                );
                                                lemma_enc_ip_prefix(
                                                    bytes@,
                                                    12,
                                                    q.0,
                                                    ip,
                                                    q.1 as int,
                                                    12 + enc_ip(ip).len() as int,
                                                );
                                            }
                                        }
                                    }
                                    Option::None
                                },
                                Option::Some(z) => {
                                    match read_u64(bytes, z.1) {
                                        Option::Some(v) => {
                                            if v.1 == bytes.len() {
                                                proof {
                                                    assert(whole =~= bytes@.subrange(4, 12)
                                                        + bytes@.subrange(12, q.1 as int)
                                                        + bytes@.subrange(q.1 as int, w.1 as int)
                                                        + bytes@.subrange(w.1 as int, z.1 as int)
                                                        + bytes@.subrange(z.1 as int, v.1 as int));
                                                }
                                                Option::Some((p.0, q.0, w.0, z.0, v.0))
                                            } else {
                                                proof {
                                                    assert forall|
                                                        ts: u64,
                                                        ip: IpAddress,
                                                        pt: u16,
                                                        o: Option<Pubkey>,
                                                        st: u64,
                                                    |
                                                        whole != spec_u64_to_le_bytes(ts) + enc_ip(
                                                            ip,
                                                        ) + spec_u16_to_le_bytes(pt)
                                                            + enc_opt_pubkey(o)
                                                            + spec_u64_to_le_bytes(st) by {
                                                        lemma_enc_ip_shape(ip);
                                                        lemma_enc_opt_pubkey_shape(o);
                                                        if whole == spec_u64_to_le_bytes(ts)
                                                            + enc_ip(ip) + spec_u16_to_le_bytes(pt)
                                                            + enc_opt_pubkey(o)
                                                            + spec_u64_to_le_bytes(st) {
                                                            lemma_chain5(
                                                                bytes@,
                                                                4,
                                                                spec_u64_to_le_bytes(ts),
                                                                enc_ip(ip),
                                                                spec_u16_to_le_bytes(pt),
                                                                enc_opt_pubkey(o),
                                                                spec_u64_to_le_bytes(st),
                                                            );
                                                            lemma_enc_ip_prefix(
                                                                bytes@,
                                                                12,
                                                                q.0,
                                                                ip,
                                                                q.1 as int,
                                                                12 + enc_ip(ip).len() as int,
                                                            );
                                                            lemma_enc_opt_pubkey_prefix(
                                                                bytes@,
                                                                w.1 as int,
                                                                z.0,
                                                                o,
                                                                z.1 as int,
                                                                w.1 + enc_opt_pubkey(o).len(),
                                                            );
                                                        }
                                                    }
                                                }
                                                Option::None
                                            }
                                        },
                                        Option::None => {
                                            proof {
                                                assert forall|
                                                    ts: u64,
                                                    ip: IpAddress,
                                                    pt: u16,
                                                    o: Option<Pubkey>,
                                                    st: u64,
                                                |
                                                    whole != spec_u64_to_le_bytes(ts) + enc_ip(ip)
                                                        + spec_u16_to_le_bytes(pt)
                                                        + enc_opt_pubkey(o) + spec_u64_to_le_bytes(
                                                        st,
                                                    ) by {
                                                    lemma_enc_ip_shape(ip);
                                                    lemma_enc_opt_pubkey_shape(o);
                                                    if whole == spec_u64_to_le_bytes(ts) + enc_ip(
                                                        ip,
                                                    ) + spec_u16_to_le_bytes(pt) + enc_opt_pubkey(
                                                        o,
                                                    ) + spec_u64_to_le_bytes(st) {
                                                        lemma_chain5(
                                                            bytes@,
                                                            4,
                                                            spec_u64_to_le_bytes(ts),
                                                            enc_ip(ip),
                                                            spec_u16_to_le_bytes(pt),
                                                            enc_opt_pubkey(o),
                                                            spec_u64_to_le_bytes(st),
                                                        );
                                                        lemma_enc_ip_prefix(
                                                            bytes@,
                                                            12,
                                                            q.0,
                                                            ip,
                                                            q.1 as int,
                                                            12 + enc_ip(ip).len() as int,
                                                        );
                                                        lemma_enc_opt_pubkey_prefix(
                                                            bytes@,
                                                            w.1 as int,
                                                            z.0,
                                                            o,
                                                            z.1 as int,
                                                            w.1 + enc_opt_pubkey(o).len(),
                                                        );
                                                    }
                                                }
                                            }
                                            Option::None
                                        },
                                    }
                                },
                            }
                        },
                    }
                },
            }
        },
    }
}

/// Encode one event as its wire bytes.  Encoding is total: it cannot
/// fail.
pub fn encode(m: &TxIngestMsg) -> (r: Vec<u8>)
    ensures
        r@ == encoding_of(*m),
{
    let mut out: Vec<u8> = Vec::new();
    match m {
        TxIngestMsg::Failed { timestamp, peer_addr } => {
            push_u32(&mut out, 0);
            push_u64(&mut out, *timestamp);
            push_addr(&mut out, peer_addr);
        },
        TxIngestMsg::Exceeded { timestamp, peer_addr, peer_pubkey, stake } => {
            push_u32(&mut out, 1);
            push_u64(&mut out, *timestamp);
            push_addr(&mut out, peer_addr);
            push_opt_pubkey(&mut out, peer_pubkey);
            push_u64(&mut out, *stake);
        },
        TxIngestMsg::Stake { timestamp, peer_addr, peer_pubkey, stake } => {
            push_u32(&mut out, 2);
            push_u64(&mut out, *timestamp);
            push_addr(&mut out, peer_addr);
            push_opt_pubkey(&mut out, peer_pubkey);
            push_u64(&mut out, *stake);
        },
        TxIngestMsg::Pruned { timestamp, peer_addr } => {
            push_u32(&mut out, 3);
            push_u64(&mut out, *timestamp);
            push_addr(&mut out, peer_addr);
        },
        TxIngestMsg::Closed { timestamp, peer_addr } => {
            push_u32(&mut out, 4);
            push_u64(&mut out, *timestamp);
            push_addr(&mut out, peer_addr);
        },
        TxIngestMsg::VoteTx { timestamp, peer_addr, peer_port } => {
            push_u32(&mut out, 5);
            push_u64(&mut out, *timestamp);
            push_ip(&mut out, peer_addr);
            push_u16(&mut out, *peer_port);
        },
        TxIngestMsg::UserTx { timestamp, peer_addr, peer_port, signature } => {
            push_u32(&mut out, 6);
            push_u64(&mut out, *timestamp);
            push_ip(&mut out, peer_addr);
            push_u16(&mut out, *peer_port);
            push_bytes(&mut out, signature.0.as_slice());
        },
        TxIngestMsg::Forwarded { timestamp, signature } => {
            push_u32(&mut out, 7);
            push_u64(&mut out, *timestamp);
            push_bytes(&mut out, signature.0.as_slice());
        },
        TxIngestMsg::BadFee { timestamp, signature } => {
            push_u32(&mut out, 8);
            push_u64(&mut out, *timestamp);
            push_bytes(&mut out, signature.0.as_slice());
        },
        TxIngestMsg::Fee { timestamp, signature, fee } => {
            push_u32(&mut out, 9);
            push_u64(&mut out, *timestamp);
            push_bytes(&mut out, signature.0.as_slice());
            push_u64(&mut out, *fee);
        },
        TxIngestMsg::WillBeLeader { timestamp, slots } => {
            push_u32(&mut out, 10);
            push_u64(&mut out, *timestamp);
            out.push(*slots);
            proof {
                assert(spec_u32_to_le_bytes(10u32) + spec_u64_to_le_bytes(*timestamp) + seq![
                    *slots,
                ] =~= encoding_of(*m));
            }
        },
        TxIngestMsg::BeginLeader { timestamp } => {
            push_u32(&mut out, 11);
            push_u64(&mut out, *timestamp);
        },
        TxIngestMsg::EndLeader { timestamp } => {
            push_u32(&mut out, 12);
            push_u64(&mut out, *timestamp);
        },
    }
    proof {
        assert(out@ =~= encoding_of(*m));
    }
    out
}

/// An encoding splits at position 4 into its discriminant and its
/// payload, and the discriminant read back is the variant's tag.
proof fn lemma_encoding_split(bytes: Seq<u8>, m: TxIngestMsg, t: u32)
    requires
        bytes == encoding_of(m),
        bytes.len() >= 4,
        bytes.subrange(0, 4) == spec_u32_to_le_bytes(t),
    ensures
        tag_of(m) == t,
        bytes.subrange(4, bytes.len() as int) == payload_of(m),
{
    lemma_auto_spec_u32_to_from_le_bytes();
    assert(bytes.subrange(0, bytes.len() as int) =~= bytes);
    lemma_chain2(bytes, 0, spec_u32_to_le_bytes(tag_of(m)), payload_of(m));
    assert(spec_u32_from_le_bytes(spec_u32_to_le_bytes(tag_of(m))) == tag_of(m));
    assert(spec_u32_from_le_bytes(spec_u32_to_le_bytes(t)) == t);
}

/// Decode one complete wire record: the inverse of `encode`.  Returns
/// the event whose encoding is exactly `bytes`, and `None` when `bytes`
/// is the encoding of no event.
pub fn decode(bytes: &Vec<u8>) -> (r: Option<TxIngestMsg>)
    ensures
        match r {
            Option::Some(m) => bytes@ == encoding_of(m),
            Option::None => forall|m: TxIngestMsg| bytes@ != encoding_of(m),
        },
{
    proof {
        lemma_auto_spec_u32_to_from_le_bytes();
    }
    let ghost n = bytes@.len() as int;
    match read_u32(bytes, 0) {
        Option::None => {
            proof {
                assert forall|m: TxIngestMsg| bytes@ != encoding_of(m) by {
                    if bytes@ == encoding_of(m) {
                        assert(encoding_of(m).len() >= spec_u32_to_le_bytes(tag_of(m)).len());
                    }
                }
            }
            Option::None
        },
        Option::Some(p) => {
            let t = p.0;
            if t == 0 {
                match parse_ts_ip_u16(bytes) {
                    Option::Some(q) => {
                        let m = TxIngestMsg::Failed {
                            timestamp: q.0,
                            peer_addr: SocketAddress { ip: q.1, port: q.2 },
                        };
                        proof {
                            assert(payload_of(m) =~= spec_u64_to_le_bytes(q.0) + enc_ip(q.1)
                                + spec_u16_to_le_bytes(q.2));
                            assert(bytes@ =~= bytes@.subrange(0, 4) + bytes@.subrange(4, n));
                        }
                        Option::Some(m)
                    },
                    Option::None => {
                        proof {
                            assert forall|m: TxIngestMsg| bytes@ != encoding_of(m) by {
                                if bytes@ == encoding_of(m) {
                                    lemma_encoding_split(bytes@, m, t);
                                    match m {
                                        TxIngestMsg::Failed { timestamp, peer_addr } => {
                                            assert(payload_of(m) =~= spec_u64_to_le_bytes(
                                                timestamp,
                                            ) + enc_ip(peer_addr.ip) + spec_u16_to_le_bytes(
                                                peer_addr.port,
                                            ));
                                        },
                                        _ => {},
                                    }
                                }
                            }
                        }
                        Option::None
                    },
                }
            } else if t == 1 || t == 2 {
                match parse_ts_addr_opt_u64(bytes) {
                    Option::Some(q) => {
                        let pa = SocketAddress { ip: q.1, port: q.2 };
                        let m = if t == 1 {
                            TxIngestMsg::Exceeded {
                                timestamp: q.0,
                                peer_addr: pa,
                                peer_pubkey: q.3,
                                stake: q.4,
                            }
                        } else {
                            TxIngestMsg::Stake {
                                timestamp: q.0,
                                peer_addr: pa,
                                peer_pubkey: q.3,
                                stake: q.4,
                            }
                        };
                        proof {
                            assert(payload_of(m) =~= spec_u64_to_le_bytes(q.0) + enc_ip(q.1)
                                + spec_u16_to_le_bytes(q.2) + enc_opt_pubkey(q.3)
                                + spec_u64_to_le_bytes(q.4));
                            assert(bytes@ =~= bytes@.subrange(0, 4) + bytes@.subrange(4, n));
                        }
                        Option::Some(m)
                    },
                    Option::None => {
                        proof {
                            assert forall|m: TxIngestMsg| bytes@ != encoding_of(m) by {
                                if bytes@ == encoding_of(m) {
                                    lemma_encoding_split(bytes@, m, t);
                                    match m {
                                        TxIngestMsg::Exceeded {
                                            timestamp,
                                            peer_addr,
                                            peer_pubkey,
                                            stake,
                                        } => {
                                            assert(payload_of(m) =~= spec_u64_to_le_bytes(
                                                timestamp,
                                            ) + enc_ip(peer_addr.ip) + spec_u16_to_le_bytes(
                                                peer_addr.port,
                                            ) + enc_opt_pubkey(peer_pubkey)
                                                + spec_u64_to_le_bytes(stake));
                                        },
                                        TxIngestMsg::Stake {
                                            timestamp,
                                            peer_addr,
                                            peer_pubkey,
                                            stake,
                                        } => {
                                            assert(payload_of(m) =~= spec_u64_to_le_bytes(
                                                timestamp,
                                            ) + enc_ip(peer_addr.ip) + spec_u16_to_le_bytes(
                                                peer_addr.port,
                                            ) + enc_opt_pubkey(peer_pubkey)
                                                + spec_u64_to_le_bytes(stake));
                                        },
                                        _ => {},
                                    }
                                }
                            }
                        }
                        Option::None
                    },
                }
            } else if t == 3 || t == 4 {
                match parse_ts_ip_u16(bytes) {
                    Option::Some(q) => {
                        let pa = SocketAddress { ip: q.1, port: q.2 };
                        let m = if t == 3 {
                            TxIngestMsg::Pruned { timestamp: q.0, peer_addr: pa }
                        } else {
                            TxIngestMsg::Closed { timestamp: q.0, peer_addr: pa }
                        };
                        proof {
                            assert(payload_of(m) =~= spec_u64_to_le_bytes(q.0) + enc_ip(q.1)
                                + spec_u16_to_le_bytes(q.2));
                            assert(bytes@ =~= bytes@.subrange(0, 4) + bytes@.subrange(4, n));
                        }
                        Option::Some(m)
                    },
                    Option::None => {
                        proof {
                            assert forall|m: TxIngestMsg| bytes@ != encoding_of(m) by {
                                if bytes@ == encoding_of(m) {
                                    lemma_encoding_split(bytes@, m, t);
                                    match m {
                                        TxIngestMsg::Pruned { timestamp, peer_addr } => {
                                            assert(payload_of(m) =~= spec_u64_to_le_bytes(
                                                timestamp,
                                            ) + enc_ip(peer_addr.ip) + spec_u16_to_le_bytes(
                                                peer_addr.port,
                                            ));
                                        },
                                        TxIngestMsg::Closed { timestamp, peer_addr } => {
                                            assert(payload_of(m) =~= spec_u64_to_le_bytes(
                                                timestamp,
                                            ) + enc_ip(peer_addr.ip) + spec_u16_to_le_bytes(
                                                peer_addr.port,
                                            ));
                                        },
                                        _ => {},
                                    }
                                }
                            }
                        }
                        Option::None
                    },
                }
            } else if t == 5 {
                match parse_ts_ip_u16(bytes) {
                    Option::Some(q) => {
                        let m = TxIngestMsg::VoteTx {
                            timestamp: q.0,
                            peer_addr: q.1,
                            peer_port: q.2,
                        };
                        proof {
                            assert(bytes@ =~= bytes@.subrange(0, 4) + bytes@.subrange(4, n));
                        }
                        Option::Some(m)
                    },
                    Option::None => {
                        proof {
                            assert forall|m: TxIngestMsg| bytes@ != encoding_of(m) by {
                                if bytes@ == encoding_of(m) {
                                    lemma_encoding_split(bytes@, m, t);
                                }
                            }
                        }
                        Option::None
                    },
                }
            } else if t == 6 {
                match parse_ts_ip_u16_sig(bytes) {
                    Option::Some(q) => {
                        let m = TxIngestMsg::UserTx {
                            timestamp: q.0,
                            peer_addr: q.1,
                            peer_port: q.2,
                            signature: q.3,
                        };
                        proof {
                            assert(bytes@ =~= bytes@.subrange(0, 4) + bytes@.subrange(4, n));
                        }
                        Option::Some(m)
                    },
                    Option::None => {
                        proof {
                            assert forall|m: TxIngestMsg| bytes@ != encoding_of(m) by {
                                if bytes@ == encoding_of(m) {
                                    lemma_encoding_split(bytes@, m, t);
                                }
                            }
                        }
                        Option::None
                    },
                }
            } else if t == 7 || t == 8 {
                match parse_ts_sig(bytes) {
                    Option::Some(q) => {
                        let m = if t == 7 {
                            TxIngestMsg::Forwarded { timestamp: q.0, signature: q.1 }
                        } else {
                            TxIngestMsg::BadFee { timestamp: q.0, signature: q.1 }
                        };
                        proof {
                            assert(bytes@ =~= bytes@.subrange(0, 4) + bytes@.subrange(4, n));
                        }
                        Option::Some(m)
                    },
                    Option::None => {
                        proof {
                            assert forall|m: TxIngestMsg| bytes@ != encoding_of(m) by {
                                if bytes@ == encoding_of(m) {
                                    lemma_encoding_split(bytes@, m, t);
                                }
                            }
                        }
                        Option::None
                    },
                }
            } else if t == 9 {
                match parse_ts_sig_u64(bytes) {
                    Option::Some(q) => {
                        let m = TxIngestMsg::Fee { timestamp: q.0, signature: q.1, fee: q.2 };
                        proof {
                            assert(bytes@ =~= bytes@.subrange(0, 4) + bytes@.subrange(4, n));
                        }
                        Option::Some(m)
                    },
                    Option::None => {
                        proof {
                            assert forall|m: TxIngestMsg| bytes@ != encoding_of(m) by {
                                if bytes@ == encoding_of(m) {
                                    lemma_encoding_split(bytes@, m, t);
                                }
                            }
                        }
                        Option::None
                    },
                }
            } else if t == 10 {
                match parse_ts_u8(bytes) {
                    Option::Some(q) => {
                        let m = TxIngestMsg::WillBeLeader { timestamp: q.0, slots: q.1 };
                        proof {
                            assert(bytes@ =~= bytes@.subrange(0, 4) + bytes@.subrange(4, n));
                        }
                        Option::Some(m)
                    },
                    Option::None => {
                        proof {
                            assert forall|m: TxIngestMsg| bytes@ != encoding_of(m) by {
                                if bytes@ == encoding_of(m) {
                                    lemma_encoding_split(bytes@, m, t);
                                }
                            }
                        }
                        Option::None
                    },
                }
            } else if t == 11 || t == 12 {
                match parse_ts(bytes) {
                    Option::Some(ts) => {
                        let m = if t == 11 {
                            TxIngestMsg::BeginLeader { timestamp: ts }
                        } else {
                            TxIngestMsg::EndLeader { timestamp: ts }
                        };
                        proof {
                            assert(bytes@ =~= bytes@.subrange(0, 4) + bytes@.subrange(4, n));
                        }
                        Option::Some(m)
                    },
                    Option::None => {
                        proof {
                            assert forall|m: TxIngestMsg| bytes@ != encoding_of(m) by {
                                if bytes@ == encoding_of(m) {
                                    lemma_encoding_split(bytes@, m, t);
                                }
                            }
                        }
                        Option::None
                    },
                }
            } else {
                proof {
                    assert forall|m: TxIngestMsg| bytes@ != encoding_of(m) by {
                        if bytes@ == encoding_of(m) {
                            lemma_encoding_split(bytes@, m, t);
                        }
                    }
                }
                Option::None
            }
        },
    }
}

proof fn lemma_fields_ts_u8(s: Seq<u8>, t1: u64, s1: u8, t2: u64, s2: u8)
    requires
        s == spec_u64_to_le_bytes(t1) + seq![s1],
        s == spec_u64_to_le_bytes(t2) + seq![s2],
    ensures
        t1 == t2,
        s1 == s2,
{
    lemma_auto_spec_u64_to_from_le_bytes();
    assert(s.subrange(0, s.len() as int) =~= s);
    lemma_chain2(s, 0, spec_u64_to_le_bytes(t1), seq![s1]);
    lemma_chain2(s, 0, spec_u64_to_le_bytes(t2), seq![s2]);
    assert(spec_u64_from_le_bytes(spec_u64_to_le_bytes(t1)) == t1);
    assert(spec_u64_from_le_bytes(spec_u64_to_le_bytes(t2)) == t2);
    assert(seq![s1][0] == seq![s2][0]);
}

proof fn lemma_fields_ts_sig(s: Seq<u8>, t1: u64, g1: Signature, t2: u64, g2: Signature)
    requires
        s == spec_u64_to_le_bytes(t1) + g1.0@,
        s == spec_u64_to_le_bytes(t2) + g2.0@,
    ensures
        t1 == t2,
        g1 == g2,
{
    lemma_auto_spec_u64_to_from_le_bytes();
    assert(s.subrange(0, s.len() as int) =~= s);
    lemma_chain2(s, 0, spec_u64_to_le_bytes(t1), g1.0@);
    lemma_chain2(s, 0, spec_u64_to_le_bytes(t2), g2.0@);
    assert(spec_u64_from_le_bytes(spec_u64_to_le_bytes(t1)) == t1);
    assert(spec_u64_from_le_bytes(spec_u64_to_le_bytes(t2)) == t2);
    assert(g1.0 =~= g2.0);
}

proof fn lemma_fields_ts_sig_u64(
    s: Seq<u8>,
    t1: u64,
    g1: Signature,
    f1: u64,
    t2: u64,
    g2: Signature,
    f2: u64,
)
    requires
        s == spec_u64_to_le_bytes(t1) + g1.0@ + spec_u64_to_le_bytes(f1),
        s == spec_u64_to_le_bytes(t2) + g2.0@ + spec_u64_to_le_bytes(f2),
    ensures
        t1 == t2,
        g1 == g2,
        f1 == f2,
{
    lemma_auto_spec_u64_to_from_le_bytes();
    assert(s.subrange(0, s.len() as int) =~= s);
    lemma_chain3(s, 0, spec_u64_to_le_bytes(t1), g1.0@, spec_u64_to_le_bytes(f1));
    lemma_chain3(s, 0, spec_u64_to_le_bytes(t2), g2.0@, spec_u64_to_le_bytes(f2));
    assert(spec_u64_from_le_bytes(spec_u64_to_le_bytes(t1)) == t1);
    assert(spec_u64_from_le_bytes(spec_u64_to_le_bytes(t2)) == t2);
    assert(spec_u64_from_le_bytes(spec_u64_to_le_bytes(f1)) == f1);
    assert(spec_u64_from_le_bytes(spec_u64_to_le_bytes(f2)) == f2);
    assert(g1.0 =~= g2.0);
}

proof fn lemma_fields_ts_ip_u16(
    s: Seq<u8>,
    t1: u64,
    i1: IpAddress,
    p1: u16,
    t2: u64,
    i2: IpAddress,
    p2: u16,
)
    requires
        s == spec_u64_to_le_bytes(t1) + enc_ip(i1) + spec_u16_to_le_bytes(p1),
        s == spec_u64_to_le_bytes(t2) + enc_ip(i2) + spec_u16_to_le_bytes(p2),
    ensures
        t1 == t2,
        i1 == i2,
        p1 == p2,
{
    lemma_auto_spec_u64_to_from_le_bytes();
    lemma_auto_spec_u16_to_from_le_bytes();
    assert(s.subrange(0, s.len() as int) =~= s);
    lemma_chain3(s, 0, spec_u64_to_le_bytes(t1), enc_ip(i1), spec_u16_to_le_bytes(p1));
    lemma_chain3(s, 0, spec_u64_to_le_bytes(t2), enc_ip(i2), spec_u16_to_le_bytes(p2));
    assert(spec_u64_from_le_bytes(spec_u64_to_le_bytes(t1)) == t1);
    assert(spec_u64_from_le_bytes(spec_u64_to_le_bytes(t2)) == t2);
    lemma_enc_ip_prefix(s, 8, i1, i2, 8 + enc_ip(i1).len() as int, 8 + enc_ip(i2).len() as int);
    assert(spec_u16_from_le_bytes(spec_u16_to_le_bytes(p1)) == p1);
    assert(spec_u16_from_le_bytes(spec_u16_to_le_bytes(p2)) == p2);
}

proof fn lemma_fields_ts_ip_u16_sig(
    s: Seq<u8>,
    t1: u64,
    i1: IpAddress,
    p1: u16,
    g1: Signature,
    t2: u64,
    i2: IpAddress,
    p2: u16,
    g2: Signature,
)
    requires
        s == spec_u64_to_le_bytes(t1) + enc_ip(i1) + spec_u16_to_le_bytes(p1) + g1.0@,
        s == spec_u64_to_le_bytes(t2) + enc_ip(i2) + spec_u16_to_le_bytes(p2) + g2.0@,
    ensures
        t1 == t2,
        i1 == i2,
        p1 == p2,
        g1 == g2,
{
    lemma_auto_spec_u64_to_from_le_bytes();
    lemma_auto_spec_u16_to_from_le_bytes();
    assert(s.subrange(0, s.len() as int) =~= s);
    lemma_chain4(s, 0, spec_u64_to_le_bytes(t1), enc_ip(i1), spec_u16_to_le_bytes(p1), g1.0@);
    lemma_chain4(s, 0, spec_u64_to_le_bytes(t2), enc_ip(i2), spec_u16_to_le_bytes(p2), g2.0@);
    assert(spec_u64_from_le_bytes(spec_u64_to_le_bytes(t1)) == t1);
    assert(spec_u64_from_le_bytes(spec_u64_to_le_bytes(t2)) == t2);
    lemma_enc_ip_prefix(s, 8, i1, i2, 8 + enc_ip(i1).len() as int, 8 + enc_ip(i2).len() as int);
    assert(spec_u16_from_le_bytes(spec_u16_to_le_bytes(p1)) == p1);
    assert(spec_u16_from_le_bytes(spec_u16_to_le_bytes(p2)) == p2);
    assert(g1.0 =~= g2.0);
}

proof fn lemma_fields_ts_ip_u16_opt_u64(
    s: Seq<u8>,
    t1: u64,
    i1: IpAddress,
    p1: u16,
    o1: Option<Pubkey>,
    k1: u64,
    t2: u64,
    i2: IpAddress,
    p2: u16,
    o2: Option<Pubkey>,
    k2: u64,
)
    requires
        s == spec_u64_to_le_bytes(t1) + enc_ip(i1) + spec_u16_to_le_bytes(p1) + enc_opt_pubkey(o1)
            + spec_u64_to_le_bytes(k1),
        s == spec_u64_to_le_bytes(t2) + enc_ip(i2) + spec_u16_to_le_bytes(p2) + enc_opt_pubkey(o2)
            + spec_u64_to_le_bytes(k2),
    ensures
        t1 == t2,
        i1 == i2,
        p1 == p2,
        o1 == o2,
        k1 == k2,
{
    lemma_auto_spec_u64_to_from_le_bytes();
    lemma_auto_spec_u16_to_from_le_bytes();
    assert(s.subrange(0, s.len() as int) =~= s);
    lemma_chain5(
        s,
        0,
        spec_u64_to_le_bytes(t1),
        enc_ip(i1),
        spec_u16_to_le_bytes(p1),
        enc_opt_pubkey(o1),
        spec_u64_to_le_bytes(k1),
    );
    lemma_chain5(
        s,
        0,
        spec_u64_to_le_bytes(t2),
        enc_ip(i2),
        spec_u16_to_le_bytes(p2),
        enc_opt_pubkey(o2),
        spec_u64_to_le_bytes(k2),
    );
    assert(spec_u64_from_le_bytes(spec_u64_to_le_bytes(t1)) == t1);
    assert(spec_u64_from_le_bytes(spec_u64_to_le_bytes(t2)) == t2);
    lemma_enc_ip_prefix(s, 8, i1, i2, 8 + enc_ip(i1).len() as int, 8 + enc_ip(i2).len() as int);
    assert(spec_u16_from_le_bytes(spec_u16_to_le_bytes(p1)) == p1);
    assert(spec_u16_from_le_bytes(spec_u16_to_le_bytes(p2)) == p2);
    let mid = 8 + enc_ip(i1).len() as int + 2;
    lemma_enc_opt_pubkey_prefix(
        s,
        mid,
        o1,
        o2,
        mid + enc_opt_pubkey(o1).len() as int,
        mid + enc_opt_pubkey(o2).len() as int,
    );
    assert(spec_u64_from_le_bytes(spec_u64_to_le_bytes(k1)) == k1);
    assert(spec_u64_from_le_bytes(spec_u64_to_le_bytes(k2)) == k2);
}

/// The wire encoding is injective: two events with the same encoding
/// are the same event.  Together with the contracts of `encode` and
/// `decode` this gives the round trip both ways: decoding an encoding
/// yields the original event, and encoding a decoded record yields the
/// original bytes.
pub proof fn lemma_encoding_injective(a: TxIngestMsg, b: TxIngestMsg)
    requires
        encoding_of(a) == encoding_of(b),
    ensures
        a == b,
{
    lemma_auto_spec_u32_to_from_le_bytes();
    let s = encoding_of(a);
    assert(s.subrange(0, s.len() as int) =~= s);
    lemma_chain2(s, 0, spec_u32_to_le_bytes(tag_of(a)), payload_of(a));
    lemma_chain2(s, 0, spec_u32_to_le_bytes(tag_of(b)), payload_of(b));
    assert(spec_u32_from_le_bytes(spec_u32_to_le_bytes(tag_of(a))) == tag_of(a));
    assert(spec_u32_from_le_bytes(spec_u32_to_le_bytes(tag_of(b))) == tag_of(b));
    assert(tag_of(a) == tag_of(b));
    let w = payload_of(a);
    assert(payload_of(b) == w);
    match (a, b) {
        (
            TxIngestMsg::Failed { timestamp: t1, peer_addr: a1 },
            TxIngestMsg::Failed { timestamp: t2, peer_addr: a2 },
        ) => {
            assert(w =~= spec_u64_to_le_bytes(t1) + enc_ip(a1.ip) + spec_u16_to_le_bytes(a1.port));
            assert(w =~= spec_u64_to_le_bytes(t2) + enc_ip(a2.ip) + spec_u16_to_le_bytes(a2.port));
            lemma_fields_ts_ip_u16(w, t1, a1.ip, a1.port, t2, a2.ip, a2.port);
        },
        (
            TxIngestMsg::Exceeded { timestamp: t1, peer_addr: a1, peer_pubkey: o1, stake: k1 },
            TxIngestMsg::Exceeded { timestamp: t2, peer_addr: a2, peer_pubkey: o2, stake: k2 },
        ) => {
            assert(w =~= spec_u64_to_le_bytes(t1) + enc_ip(a1.ip) + spec_u16_to_le_bytes(a1.port)
                + enc_opt_pubkey(o1) + spec_u64_to_le_bytes(k1));
            assert(w =~= spec_u64_to_le_bytes(t2) + enc_ip(a2.ip) + spec_u16_to_le_bytes(a2.port)
                + enc_opt_pubkey(o2) + spec_u64_to_le_bytes(k2));
            lemma_fields_ts_ip_u16_opt_u64(
                w,
                t1,
                a1.ip,
                a1.port,
                o1,
                k1,
                t2,
                a2.ip,
                a2.port,
                o2,
                k2,
            );
        },
        (
            TxIngestMsg::Stake { timestamp: t1, peer_addr: a1, peer_pubkey: o1, stake: k1 },
            TxIngestMsg::Stake { timestamp: t2, peer_addr: a2, peer_pubkey: o2, stake: k2 },
        ) => {
            assert(w =~= spec_u64_to_le_bytes(t1) + enc_ip(a1.ip) + spec_u16_to_le_bytes(a1.port)
                + enc_opt_pubkey(o1) + spec_u64_to_le_bytes(k1));
            assert(w =~= spec_u64_to_le_bytes(t2) + enc_ip(a2.ip) + spec_u16_to_le_bytes(a2.port)
                + enc_opt_pubkey(o2) + spec_u64_to_le_bytes(k2));
            lemma_fields_ts_ip_u16_opt_u64(
                w,
                t1,
                a1.ip,
                a1.port,
                o1,
                k1,
                t2,
                a2.ip,
                a2.port,
                o2,
                k2,
            );
        },
        (
            TxIngestMsg::Pruned { timestamp: t1, peer_addr: a1 },
            TxIngestMsg::Pruned { timestamp: t2, peer_addr: a2 },
        ) => {
            assert(w =~= spec_u64_to_le_bytes(t1) + enc_ip(a1.ip) + spec_u16_to_le_bytes(a1.port));
            assert(w =~= spec_u64_to_le_bytes(t2) + enc_ip(a2.ip) + spec_u16_to_le_bytes(a2.port));
            lemma_fields_ts_ip_u16(w, t1, a1.ip, a1.port, t2, a2.ip, a2.port);
        },
        (
            TxIngestMsg::Closed { timestamp: t1, peer_addr: a1 },
            TxIngestMsg::Closed { timestamp: t2, peer_addr: a2 },
        ) => {
            assert(w =~= spec_u64_to_le_bytes(t1) + enc_ip(a1.ip) + spec_u16_to_le_bytes(a1.port));
            assert(w =~= spec_u64_to_le_bytes(t2) + enc_ip(a2.ip) + spec_u16_to_le_bytes(a2.port));
            lemma_fields_ts_ip_u16(w, t1, a1.ip, a1.port, t2, a2.ip, a2.port);
        },
        (
            TxIngestMsg::VoteTx { timestamp: t1, peer_addr: i1, peer_port: p1 },
            TxIngestMsg::VoteTx { timestamp: t2, peer_addr: i2, peer_port: p2 },
        ) => {
            lemma_fields_ts_ip_u16(w, t1, i1, p1, t2, i2, p2);
        },
        (
            TxIngestMsg::UserTx { timestamp: t1, peer_addr: i1, peer_port: p1, signature: g1 },
            TxIngestMsg::UserTx { timestamp: t2, peer_addr: i2, peer_port: p2, signature: g2 },
        ) => {
            lemma_fields_ts_ip_u16_sig(w, t1, i1, p1, g1, t2, i2, p2, g2);
        },
        (
            TxIngestMsg::Forwarded { timestamp: t1, signature: g1 },
            TxIngestMsg::Forwarded { timestamp: t2, signature: g2 },
        ) => {
            lemma_fields_ts_sig(w, t1, g1, t2, g2);
        },
        (
            TxIngestMsg::BadFee { timestamp: t1, signature: g1 },
            TxIngestMsg::BadFee { timestamp: t2, signature: g2 },
        ) => {
            lemma_fields_ts_sig(w, t1, g1, t2, g2);
        },
        (
            TxIngestMsg::Fee { timestamp: t1, signature: g1, fee: f1 },
            TxIngestMsg::Fee { timestamp: t2, signature: g2, fee: f2 },
        ) => {
            lemma_fields_ts_sig_u64(w, t1, g1, f1, t2, g2, f2);
        },
        (
            TxIngestMsg::WillBeLeader { timestamp: t1, slots: s1 },
            TxIngestMsg::WillBeLeader { timestamp: t2, slots: s2 },
        ) => {
            lemma_fields_ts_u8(w, t1, s1, t2, s2);
        },
        (
            TxIngestMsg::BeginLeader { timestamp: t1 },
            TxIngestMsg::BeginLeader { timestamp: t2 },
        ) => {
            lemma_auto_spec_u64_to_from_le_bytes();
            assert(spec_u64_from_le_bytes(spec_u64_to_le_bytes(t1)) == t1);
            assert(spec_u64_from_le_bytes(spec_u64_to_le_bytes(t2)) == t2);
        },
        (TxIngestMsg::EndLeader { timestamp: t1 }, TxIngestMsg::EndLeader { timestamp: t2 }) => {
            lemma_auto_spec_u64_to_from_le_bytes();
            assert(spec_u64_from_le_bytes(spec_u64_to_le_bytes(t1)) == t1);
            assert(spec_u64_from_le_bytes(spec_u64_to_le_bytes(t2)) == t2);
        },
        _ => {
            assert(false);
        },
    }
}

} // verus!
