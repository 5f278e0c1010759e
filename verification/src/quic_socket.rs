//! What the shared UDP dispatcher hands to the HTTP/3 endpoint.
//!
//! Only the dispatcher receives from the real socket. Datagrams for terminated
//! connections pass through a bounded queue, so that two receivers never race on
//! one port.

use crate::net::SocketAddr;
use crate::octets;
use crate::quic_runtime;
use crate::quic_runtime::{AcquireError, ByteBudget};
use std::sync::Arc;
use vstd::prelude::*;

verus! {

/// How many datagrams the queue holds.
pub const DISPATCH_QUEUE: usize = 1024;

/// The largest datagram that the dispatcher and the endpoint agree on, which is
/// the most that the protocol allows. Loopback and jumbo paths can deliver more
/// than an Ethernet frame before the transport parameters are known.
pub const H3_MAX_UDP_PAYLOAD_SIZE: u16 = 65527;

/// A datagram on its way to the endpoint, with its share of the byte budget.
#[derive(Debug)]
pub struct InboundDatagram {
    peer: SocketAddr,
    bytes: Vec<u8>,
    queued_bytes: tokio::sync::OwnedSemaphorePermit,
}

impl View for InboundDatagram {
    type V = (SocketAddr, Seq<u8>);

    closed spec fn view(&self) -> (SocketAddr, Seq<u8>) {
        (self.peer, self.bytes@)
    }
}

impl InboundDatagram {
    /// How much of the budget the datagram holds.
    pub closed spec fn held(&self) -> nat {
        quic_runtime::permits_held(self.queued_bytes)
    }

    /// Who has sent it.
    pub fn peer(&self) -> (r: SocketAddr)
        ensures
            r == self@.0,
    {
        self.peer
    }

    /// The datagram.
    pub fn bytes(&self) -> (r: &[u8])
        ensures
            r@ == self@.1,
    {
        self.bytes.as_slice()
    }

    /// What becomes of a datagram once the byte budget has answered: a copy of it goes
    /// beside what was granted, or it is refused.
    pub fn granted(
        peer: SocketAddr,
        bytes: &[u8],
        answer: Result<tokio::sync::OwnedSemaphorePermit, AcquireError>,
    ) -> (r: Result<Self, IngressSendError>)
        ensures
            match answer {
                Ok(permit) => r is Ok && r->Ok_0@ == (peer, bytes@) && r->Ok_0.held() == quic_runtime::permits_held(
                    permit,
                ),
                Err(_) => r == Err::<Self, IngressSendError>(IngressSendError::ByteBudgetExhausted),
            },
    {
        match answer {
            Ok(permit) => Ok(InboundDatagram { peer, bytes: octets::to_vec(bytes), queued_bytes: permit }),
            Err(_) => Err(IngressSendError::ByteBudgetExhausted),
        }
    }
}

/// Why a datagram does not reach the endpoint.
#[derive(Debug, Clone, Copy, PartialEq, Eq, Structural)]
pub enum IngressSendError {
    /// It is larger than the endpoint's receive buffers.
    Oversized,
    /// Too many bytes are queued in this process.
    ByteBudgetExhausted,
    /// Too many datagrams are queued.
    QueueFull,
    /// The endpoint is gone.
    Closed,
}

#[verifier::external_type_specification]
#[verifier::external_body]
#[verifier::reject_recursive_types(T)]
pub struct ExSender<T>(tokio::sync::mpsc::Sender<T>);

/// `tokio::sync::mpsc::Sender::try_send`. Whether there is room in the queue, and
/// whether anyone still reads it, depends on the other end.
#[verifier::external_body]
fn enqueue(tx: &tokio::sync::mpsc::Sender<InboundDatagram>, datagram: InboundDatagram) -> (r: Result<
    (),
    IngressSendError,
>)
    ensures
        r is Err ==> r->Err_0 == IngressSendError::QueueFull || r->Err_0 == IngressSendError::Closed,
{
    match tx.try_send(datagram) {
        Ok(()) => Ok(()),
        Err(tokio::sync::mpsc::error::TrySendError::Full(_)) => Err(IngressSendError::QueueFull),
        Err(tokio::sync::mpsc::error::TrySendError::Closed(_)) => Err(IngressSendError::Closed),
    }
}

/// The dispatcher's end of the queue.
#[derive(Debug)]
pub struct QuicIngress {
    tx: tokio::sync::mpsc::Sender<InboundDatagram>,
    max_datagram_size: usize,
    byte_budget: Arc<ByteBudget>,
}

impl QuicIngress {
    /// The largest datagram that is let through.
    pub closed spec fn limit(&self) -> usize {
        self.max_datagram_size
    }

    /// How many bytes may be queued.
    pub closed spec fn budget_size(&self) -> usize {
        self.byte_budget.size()
    }

    /// The budget is sound.
    pub closed spec fn valid(&self) -> bool {
        self.byte_budget.valid()
    }

    /// The dispatcher's end of a queue.
    pub fn new(
        tx: tokio::sync::mpsc::Sender<InboundDatagram>,
        max_datagram_size: usize,
        byte_budget: Arc<ByteBudget>,
    ) -> (r: Self)
        requires
            byte_budget.valid(),
        ensures
            r.valid(),
            r.limit() == max_datagram_size,
            r.budget_size() == byte_budget.size(),
    {
        QuicIngress { tx, max_datagram_size, byte_budget }
    }

    /// The largest datagram that is let through.
    pub fn max_datagram_size(&self) -> (r: usize)
        ensures
            r == self.limit(),
    {
        self.max_datagram_size
    }

    /// Copy a datagram for the queue. One that the endpoint could not receive is
    /// refused before it is copied, or counted: it would surface there as a fatal
    /// error.
    pub fn prepare(&self, peer: SocketAddr, bytes: &[u8]) -> (r: Result<InboundDatagram, IngressSendError>)
        requires
            self.valid(),
        ensures
            match r {
                Ok(datagram) => datagram@ == (peer, bytes@) && datagram.held() == bytes@.len() && bytes@.len()
                    <= self.limit() && bytes@.len() <= self.budget_size() && bytes@.len() <= u32::MAX,
                Err(e) => if bytes@.len() > self.limit() {
                    e == IngressSendError::Oversized
                } else {
                    e == IngressSendError::ByteBudgetExhausted
                },
            },
    {
        if bytes.len() > self.max_datagram_size {
            return Err(IngressSendError::Oversized);
        }
        InboundDatagram::granted(peer, bytes, self.byte_budget.try_acquire(bytes.len()))
    }

    /// Queue a datagram for the endpoint, without waiting.
    pub fn try_send(&self, peer: SocketAddr, bytes: &[u8]) -> (r: Result<(), IngressSendError>)
        requires
            self.valid(),
        ensures
            r == Err::<(), IngressSendError>(IngressSendError::Oversized) <==> bytes@.len() > self.limit(),
            bytes@.len() <= self.limit() && (bytes@.len() > self.budget_size() || bytes@.len() > u32::MAX) ==> r
                == Err::<(), IngressSendError>(IngressSendError::ByteBudgetExhausted),
    {
        match self.prepare(peer, bytes) {
            Ok(datagram) => enqueue(&self.tx, datagram),
            Err(e) => Err(e),
        }
    }
}

/// What the endpoint's receive path does with a queued datagram.
#[derive(Debug, Clone, Copy, PartialEq, Eq, Structural)]
pub enum Receive {
    /// Skip it: it does not fit, and must not become an error of the socket.
    Skip,
    /// Copy this many bytes.
    Copy(usize),
}

/// Decide on a queued datagram by the room in the receive buffer.
pub fn receive(len: usize, capacity: usize) -> (r: Receive)
    ensures
        r == (if len > capacity {
            Receive::Skip
        } else {
            Receive::Copy(len)
        }),
{
    if len > capacity {
        Receive::Skip
    } else {
        Receive::Copy(len)
    }
}

/// The queue holds 1024 datagrams, each of the largest size that UDP carries at most.
pub proof fn law_queue_is_bounded()
    ensures
        DISPATCH_QUEUE == 1024,
        H3_MAX_UDP_PAYLOAD_SIZE == 65535 - 8,
{
}

} // verus!
