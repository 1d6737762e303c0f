//! The decision core of the iterative resolver.
//!
//! Each delegation hop is one decision over a decoded reply; the
//! datagram transport that carries the queries lives outside this
//! library and hands replies back in.

use vstd::prelude::*;

use crate::dns_packet::{resolved_ns_for, unresolved_ns_for, DnsPacket, PacketV};
use crate::dns_question::DnsQuestion;
use crate::errors::DnsServerError;
use crate::query_type::QueryType;
use crate::result_code::ResultCode;

verus! {

pub type DnsServerResult<T> = Result<T, DnsServerError>;

/// The resolver's fixed configuration: the bootstrap root server's
/// IPv4 address and the local port its queries go out from.
pub struct DnsServer {
    pub root: u32,
    pub port: u16,
}

/// What one delegation hop decides to do next.
pub enum LookupStep {
    /// Return the reply as it stands: a final answer, a definitive
    /// negative, or the best the chain gave.
    Answer,
    /// Query the given server next: a delegation whose address is
    /// already known.
    QueryServer { addr: u32 },
    /// Resolve the given name-server host first, then query it.
    ResolveNs { host: Vec<u8> },
}

/// The mathematical image of a decision.
pub enum LookupStepV {
    Answer,
    QueryServer { addr: u32 },
    ResolveNs { host: Seq<u8> },
}

impl View for LookupStep {
    type V = LookupStepV;

    open spec fn view(&self) -> LookupStepV {
        match self {
            LookupStep::Answer => LookupStepV::Answer,
            LookupStep::QueryServer { addr } => LookupStepV::QueryServer { addr: *addr },
            LookupStep::ResolveNs { host } => LookupStepV::ResolveNs { host: host@ },
        }
    }
}

/// The decision the delegation loop takes on one reply: answers and
/// definitive negatives end it; otherwise a resolved NS is queried, an
/// unresolved one is resolved first, and with no matching NS the reply
/// stands as it is.
pub open spec fn spec_next_step(p: PacketV, qname: Seq<u8>) -> LookupStepV {
    if p.answers.len() > 0 && p.header.rescode == ResultCode::NOERROR {
        LookupStepV::Answer
    } else if p.header.rescode == ResultCode::NXDOMAIN {
        LookupStepV::Answer
    } else {
        match resolved_ns_for(p.authorities, p.resources, qname) {
            Some(addr) => LookupStepV::QueryServer { addr },
            None => match unresolved_ns_for(p.authorities, qname) {
                Some(host) => LookupStepV::ResolveNs { host },
                None => LookupStepV::Answer,
            },
        }
    }
}

/// A fresh 16-bit transaction id.
/// Relies on rand::random: a uniformly drawn value of the asked type;
/// nothing can be promised of which one comes back.
#[verifier::external_body]
fn random_id() -> u16 {
    rand::random::<u16>()
}

impl DnsServer {
    /// The conventional bootstrap: one of the root servers, and an
    /// arbitrary high local port.
    pub fn new() -> (r: Self)
        ensures
            r.root == 0xC629_0004u32,
            r.port == 43210,
    {
        DnsServer { root: 0xC629_0004, port: 43210 }
    }

    /// Decides the next step of the delegation loop from one reply.
    pub fn next_lookup_step(&self, response: &DnsPacket, qname: &Vec<u8>) -> (r: LookupStep)
        ensures
            r@ == spec_next_step(response@, qname@),
    {
        if self.packet_has_answer(response) {
            return LookupStep::Answer;
        }
        if response.header.rescode == ResultCode::NXDOMAIN {
            return LookupStep::Answer;
        }
        match response.get_resolved_ns(qname) {
            Some(addr) => {
                return LookupStep::QueryServer { addr };
            },
            None => {},
        }
        match response.get_unresolved_ns(qname) {
            Some(host) => LookupStep::ResolveNs { host },
            None => LookupStep::Answer,
        }
    }

    /// Whether a reply already carries a usable answer section.
    fn packet_has_answer(&self, response: &DnsPacket) -> (r: bool)
        ensures
            r == (response@.answers.len() > 0 && response@.header.rescode
                == ResultCode::NOERROR),
    {
        response.answers.len() > 0 && response.header.rescode == ResultCode::NOERROR
    }

    /// Builds the outbound query for one hop: a fresh transaction id,
    /// recursion desired, and the single question.
    pub fn build_lookup_request(&self, qname: &Vec<u8>, qtype: QueryType) -> (r: DnsPacket)
        ensures
            r@.header.recursion_desired,
            r@.header.rescode == ResultCode::NOERROR,
            !r@.header.response,
            r@.questions.len() == 1,
            r@.questions[0].name == qname@,
            r@.questions[0].query_type == qtype,
            r@.answers.len() == 0,
            r@.authorities.len() == 0,
            r@.resources.len() == 0,
    {
        let mut packet = DnsPacket::new();
        packet.header.id = random_id();
        packet.header.recursion_desired = true;
        let question = DnsQuestion::new(qname.clone(), qtype);
        let ghost qv = question@;
        packet.questions.push(question);
        proof {
            assert(packet.questions@.map_values(|q: DnsQuestion| q@) =~= seq![qv]);
        }
        packet
    }
}

/// Accepts a reply only when it answers the request that was sent:
/// a transaction id other than the one sent is refused, with both ids
/// named.
pub fn check_response_id(sent_id: u16, response: &DnsPacket) -> (r: DnsServerResult<()>)
    ensures
        (r is Ok) <==> response@.header.id == sent_id,
        r is Err ==> r->Err_0 == (DnsServerError::PacketIdCorrupted {
            sent_id,
            received_id: response@.header.id,
        }),
{
    if response.header.id != sent_id {
        return Err(
            DnsServerError::PacketIdCorrupted { sent_id, received_id: response.header.id },
        );
    }
    Ok(())
}

/// Builds the reply to one inbound query: the request's id with the
/// reply flags set; then `FORMERR` for a request without a question,
/// `SERVFAIL` for a failed resolution, and otherwise the resolution's
/// result code and all three of its record sections behind the
/// question.
pub fn build_response(
    request_id: u16,
    question: Option<DnsQuestion>,
    outcome: Option<DnsPacket>,
) -> (r: DnsPacket)
    ensures
        r@.header.id == request_id,
        r@.header.recursion_desired,
        r@.header.recursion_available,
        r@.header.response,
        question is None ==> r@.header.rescode == ResultCode::FORMERR && r@.questions.len() == 0
            && r@.answers.len() == 0 && r@.authorities.len() == 0 && r@.resources.len() == 0,
        (question is Some && outcome is None) ==> r@.header.rescode == ResultCode::SERVFAIL
            && r@.questions.len() == 0 && r@.answers.len() == 0 && r@.authorities.len() == 0
            && r@.resources.len() == 0,
        (question is Some && outcome is Some) ==> r@.header.rescode
            == outcome->Some_0@.header.rescode && r@.questions == seq![question->Some_0@]
            && r@.answers == outcome->Some_0@.answers && r@.authorities
            == outcome->Some_0@.authorities && r@.resources == outcome->Some_0@.resources,
{
    let mut packet = DnsPacket::new();
    packet.header.id = request_id;
    packet.header.recursion_desired = true;
    packet.header.recursion_available = true;
    packet.header.response = true;

    match question {
        Some(q) => {
            match outcome {
                Some(result) => {
                    packet.header.rescode = result.header.rescode;
                    proof {
                        assert(seq![q].map_values(|x: DnsQuestion| x@) =~= seq![q@]);
                    }
                    packet.questions.push(q);
                    proof {
                        assert(packet.questions@.map_values(|x: DnsQuestion| x@) =~= seq![q@]);
                    }
                    packet.answers = result.answers;
                    packet.authorities = result.authorities;
                    packet.resources = result.resources;
                },
                None => {
                    packet.header.rescode = ResultCode::SERVFAIL;
                },
            }
        },
        None => {
            packet.header.rescode = ResultCode::FORMERR;
        },
    }
    packet
}

} // verus!
