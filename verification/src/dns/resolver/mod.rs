//! The decisions of a forwarder that puts each question to an upstream
//! server on its own. Sending and receiving are left to the caller: this
//! module says what to send next and what to make of what came back.

use crate::common::{AsBytes, DnsReader, ParseError};
use crate::dns::packet::{packet_views, packet_wire, reply_parsed, Packet, PacketView};
use vstd::prelude::*;

verus! {

/// An upstream server, known by its address.
pub struct DnsResolver {
    addr: String,
}

/// Why a reply of the upstream server was not accepted.
#[derive(Debug, Clone, Copy, PartialEq, Eq)]
pub enum ResolveError {
    /// The reply could not be decoded.
    Malformed(ParseError),
    /// The reply carries another identifier than the request it was
    /// received for.
    TransactionMismatch { expected: u16, received: u16 },
}

/// The requests of one forwarding, in order, and the replies accepted so
/// far. The `i`-th reply answers the `i`-th request.
pub struct Forwarding {
    requests: Vec<Packet>,
    replies: Vec<Packet>,
}

/// Whether every message of a list has a wire form.
pub open spec fn all_encodable(packets: Seq<Packet>) -> bool {
    forall|i: int| 0 <= i < packets.len() ==> (#[trigger] packets[i]).encodable()
}

/// What accepting a datagram as the reply to `request` gives: the message it
/// holds, if it can be decoded as a reply and carries the identifier of the
/// request.
pub open spec fn reply_accepted(request: PacketView, datagram: Seq<u8>) -> Result<
    PacketView,
    ResolveError,
> {
    match reply_parsed(datagram, 0).outcome {
        Err(e) => Err(ResolveError::Malformed(e)),
        Ok(reply) => if reply.header.id == request.header.id {
            Ok(reply)
        } else {
            Err(
                ResolveError::TransactionMismatch {
                    expected: request.header.id,
                    received: reply.header.id,
                },
            )
        },
    }
}

impl DnsResolver {
    /// The address of the upstream server, as text.
    pub closed spec fn address(&self) -> Seq<char> {
        self.addr@
    }

    /// An upstream server at `addr`.
    pub fn new(addr: String) -> (resolver: Self)
        ensures
            resolver.address() == addr@,
    {
        Self { addr }
    }

    /// The address of the upstream server.
    pub fn addr(&self) -> (addr: &String)
        ensures
            addr@ == self.address(),
    {
        &self.addr
    }

    /// Starts forwarding `packets`, one after the other.
    pub fn begin(&self, packets: Vec<Packet>) -> (forwarding: Forwarding)
        requires
            all_encodable(packets@),
        ensures
            forwarding.wf(),
            forwarding.requests() == packet_views(packets@),
            forwarding.replies().len() == 0,
    {
        Forwarding { requests: packets, replies: Vec::new() }
    }

    /// Checks one datagram against the request it was received for: it must
    /// decode as a reply, and carry the request's identifier.
    pub fn check_reply(request: &Packet, datagram: &[u8]) -> (r: Result<Packet, ResolveError>)
        ensures
            match reply_accepted(request@, datagram@) {
                Ok(reply) => r is Ok && r->Ok_0@ == reply,
                Err(e) => r is Err && r->Err_0 == e,
            },
    {
        let mut dns_reader = DnsReader::new(datagram);
        match Packet::parse_reply(&mut dns_reader) {
            Err(e) => Err(ResolveError::Malformed(e)),
            Ok(received_packet) => {
                if request.header.id == received_packet.header.id {
                    Ok(received_packet)
                } else {
                    Err(
                        ResolveError::TransactionMismatch {
                            expected: request.header.id,
                            received: received_packet.header.id,
                        },
                    )
                }
            },
        }
    }
}

impl Forwarding {
    /// The requests, in order.
    pub closed spec fn requests(&self) -> Seq<PacketView> {
        packet_views(self.requests@)
    }

    /// The replies accepted so far, in order.
    pub closed spec fn replies(&self) -> Seq<PacketView> {
        packet_views(self.replies@)
    }

    /// Every request can be sent, and no more replies were accepted than
    /// there are requests.
    pub closed spec fn wf(&self) -> bool {
        &&& all_encodable(self.requests@)
        &&& self.replies@.len() <= self.requests@.len()
    }

    /// Whether every request has its reply.
    pub open spec fn done(&self) -> bool {
        self.replies().len() == self.requests().len()
    }

    /// The datagram to send next: the request that has no reply yet and
    /// stands first. `None` when every request has its reply.
    pub fn next_request(&self) -> (datagram: Option<Vec<u8>>)
        requires
            self.wf(),
        ensures
            self.done() <==> datagram is None,
            datagram is Some ==> datagram->0@ == packet_wire(
                self.requests()[self.replies().len() as int],
            ),
    {
        let at = self.replies.len();
        if at < self.requests.len() {
            assert(self.requests@[at as int].encodable());
            Some(self.requests[at].as_bytes())
        } else {
            None
        }
    }

    /// Takes the datagram that came back for the request sent last. If it
    /// is accepted, its message becomes the reply to that request; if not,
    /// nothing changes.
    pub fn accept_reply(&mut self, datagram: &[u8]) -> (r: Result<(), ResolveError>)
        requires
            old(self).wf(),
            !old(self).done(),
        ensures
            final(self).wf(),
            final(self).requests() == old(self).requests(),
            match reply_accepted(
                old(self).requests()[old(self).replies().len() as int],
                datagram@,
            ) {
                Ok(reply) => r is Ok && final(self).replies() == old(self).replies().push(reply),
                Err(e) => r == Err::<(), ResolveError>(e) && final(self).replies() == old(
                    self,
                ).replies(),
            },
    {
        let at = self.replies.len();
        match DnsResolver::check_reply(&self.requests[at], datagram) {
            Ok(reply) => {
                proof {
                    assert(packet_views(self.replies@.push(reply)) =~= packet_views(
                        self.replies@,
                    ).push(reply@));
                }
                self.replies.push(reply);
                Ok(())
            },
            Err(e) => Err(e),
        }
    }

    /// Ends the forwarding and hands out the replies, in the order of the
    /// requests.
    pub fn into_replies(self) -> (replies: Vec<Packet>)
        ensures
            packet_views(replies@) == self.replies(),
    {
        self.replies
    }
}

} // verus!
