use vstd::prelude::*;
use crate::domain::Index;

verus! {

/// A packet could not be handed to its transport.
#[derive(PartialEq, Eq, Structural, Clone, Copy, Debug)]
pub enum Error {
    Unknown,
}

/// The transport that packets for one domain take.
#[derive(PartialEq, Eq, Structural, Clone, Copy, Debug)]
pub enum PacketSender {
    /// A bounded channel within this process.
    Local,
    /// An unbounded channel within this process.
    LocalUnbounded,
    /// A connection to another process that hosts `domain`.
    Remote { domain: Index, input: bool, bounded: bool },
}

/// Where `send` hands a packet.
#[derive(PartialEq, Eq, Structural, Clone, Copy, Debug)]
pub enum Route {
    /// Onto the bounded local channel.
    Local,
    /// Onto the unbounded local channel.
    LocalUnbounded,
    /// Back to the one who asked for an unbounded sender: this one.
    ReplyWith(PacketSender),
    /// To the remote domain's unbounded queue.
    RemoteUnbounded(Index),
    /// To the remote domain's input queue.
    RemoteInput(Index),
    /// To the remote domain's ordinary queue.
    Remote(Index),
}

/// Where a packet goes through `s`; `request_unbounded` marks a request for
/// an unbounded sender.
pub open spec fn route_of(s: PacketSender, request_unbounded: bool) -> Route {
    match s {
        PacketSender::Local => Route::Local,
        PacketSender::LocalUnbounded => Route::LocalUnbounded,
        PacketSender::Remote { domain, input, bounded } => if request_unbounded {
            Route::ReplyWith(PacketSender::Remote { domain, input: false, bounded: false })
        } else if !bounded {
            Route::RemoteUnbounded(domain)
        } else if input {
            Route::RemoteInput(domain)
        } else {
            Route::Remote(domain)
        },
    }
}

impl PacketSender {
    /// A bounded sender to a remote domain.
    pub fn make_remote(domain: Index) -> (r: PacketSender)
        ensures
            r == (PacketSender::Remote { domain, input: false, bounded: true }),
    {
        PacketSender::Remote { domain, input: false, bounded: true }
    }

    /// A bounded sender to the input queue of a remote domain.
    pub fn make_remote_input(domain: Index) -> (r: PacketSender)
        ensures
            r == (PacketSender::Remote { domain, input: true, bounded: true }),
    {
        PacketSender::Remote { domain, input: true, bounded: true }
    }

    /// An unbounded sender to a remote domain.
    pub fn make_remote_unbounded(domain: Index) -> (r: PacketSender)
        ensures
            r == (PacketSender::Remote { domain, input: false, bounded: false }),
    {
        PacketSender::Remote { domain, input: false, bounded: false }
    }

    /// Where `send` hands a packet: local senders use their channel; a
    /// remote one answers a request for an unbounded sender with an unbounded
    /// copy of itself, and otherwise picks the remote queue by its kind.
    pub fn route(&self, request_unbounded: bool) -> (r: Route)
        ensures
            r == route_of(*self, request_unbounded),
    {
        match *self {
            PacketSender::Local => Route::Local,
            PacketSender::LocalUnbounded => Route::LocalUnbounded,
            PacketSender::Remote { domain, input, bounded } => {
                if request_unbounded {
                    Route::ReplyWith(PacketSender::make_remote_unbounded(domain))
                } else if !bounded {
                    Route::RemoteUnbounded(domain)
                } else if input {
                    Route::RemoteInput(domain)
                } else {
                    Route::Remote(domain)
                }
            },
        }
    }

    /// Whether this is a bounded local sender.
    pub fn is_local(&self) -> (r: bool)
        ensures
            r == (*self == PacketSender::Local),
    {
        match *self {
            PacketSender::Local => true,
            _ => false,
        }
    }

    /// Whether this is an unbounded local sender.
    pub fn is_local_unbounded(&self) -> (r: bool)
        ensures
            r == (*self == PacketSender::LocalUnbounded),
    {
        match *self {
            PacketSender::LocalUnbounded => true,
            _ => false,
        }
    }

    /// Whether this sender reaches another process.
    pub fn is_remote(&self) -> (r: bool)
        ensures
            r == (*self is Remote),
    {
        match *self {
            PacketSender::Remote { .. } => true,
            _ => false,
        }
    }
}

} // verus!
