//! The event taxonomy: a closed set of lifecycle events, pure data.
//!
//! Every variant carries a timestamp in milliseconds since the Unix
//! epoch.  Addresses, public keys and signatures are held as plain
//! bytes so that the codec's layout can be stated exactly.

use vstd::prelude::*;

verus! {

/// A 32-byte public key identifying a staked peer.
#[derive(Clone, Copy, Debug, PartialEq, Eq)]
pub struct Pubkey(pub [u8; 32]);

/// A 64-byte transaction signature.
#[derive(Clone, Copy, Debug, PartialEq, Eq)]
pub struct Signature(pub [u8; 64]);

/// An IP address, version 4 or 6, as raw octets.
#[derive(Clone, Copy, Debug, PartialEq, Eq)]
pub enum IpAddress {
    V4([u8; 4]),
    V6([u8; 16]),
}

/// A full socket endpoint: IP address plus port.
#[derive(Clone, Copy, Debug, PartialEq, Eq)]
pub struct SocketAddress {
    pub ip: IpAddress,
    pub port: u16,
}

// timestamp in all messages is number of milliseconds since Unix Epoch
#[derive(Clone, Copy, Debug, PartialEq, Eq)]
pub enum TxIngestMsg {
    /// Failed to negotiate a connection from a remote peer because of a
    /// protocol error.
    Failed { timestamp: u64, peer_addr: SocketAddress },
    /// A new connection from the remote peer was rejected because the
    /// peer would exceed the number of connections/streams it may make.
    Exceeded {
        timestamp: u64,
        peer_addr: SocketAddress,
        peer_pubkey: Option<Pubkey>,
        stake: u64,
    },
    /// A connection has been fully established; the stake of the remote
    /// peer is known at this point.  May be issued more than once per
    /// physical connection.
    Stake {
        timestamp: u64,
        peer_addr: SocketAddress,
        peer_pubkey: Option<Pubkey>,
        stake: u64,
    },
    /// An established connection was pruned by the local peer to make
    /// room for other connections; Closed will follow.
    Pruned { timestamp: u64, peer_addr: SocketAddress },
    /// An established connection has been closed by peer action, error,
    /// or timeout.
    Closed { timestamp: u64, peer_addr: SocketAddress },
    /// A simple vote transaction was received from the remote peer.
    VoteTx { timestamp: u64, peer_addr: IpAddress, peer_port: u16 },
    /// A user transaction was received from the remote peer.
    UserTx {
        timestamp: u64,
        peer_addr: IpAddress,
        peer_port: u16,
        signature: Signature,
    },
    /// A transaction was forwarded to a remote leader.
    Forwarded { timestamp: u64, signature: Signature },
    /// A transaction was not able to pay its fee.
    BadFee { timestamp: u64, signature: Signature },
    /// A transaction was executed and paid a fee.
    Fee { timestamp: u64, signature: Signature, fee: u64 },
    /// Self will be leader in `slots` slots.
    WillBeLeader { timestamp: u64, slots: u8 },
    /// Self is now leader.
    BeginLeader { timestamp: u64 },
    /// Self is no longer leader.
    EndLeader { timestamp: u64 },
}

} // verus!
