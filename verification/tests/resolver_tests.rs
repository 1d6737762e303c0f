use dns_resolver::dns_packet::DnsPacket;
use dns_resolver::dns_question::DnsQuestion;
use dns_resolver::dns_records::DnsRecord;
use dns_resolver::dns_server::{build_response, check_response_id, DnsServer, LookupStep};
use dns_resolver::errors::DnsServerError;
use dns_resolver::query_type::QueryType;
use dns_resolver::result_code::ResultCode;

fn delegation_reply() -> DnsPacket {
    let mut reply = DnsPacket::new();
    reply.header.response = true;
    reply.header.rescode = ResultCode::NOERROR;
    reply.authorities.push(DnsRecord::NS {
        domain: b"example.com".to_vec(),
        host: b"ns1.example.com".to_vec(),
        ttl: 86400,
    });
    reply.resources.push(DnsRecord::A {
        domain: b"ns1.example.com".to_vec(),
        addr: 0xC0000201, // 192.0.2.1
        ttl: 86400,
    });
    reply
}

#[test]
fn delegation_with_glue_queries_the_resolved_server() {
    let server = DnsServer::new();
    let reply = delegation_reply();
    let step = server.next_lookup_step(&reply, &b"www.example.com".to_vec());
    match step {
        LookupStep::QueryServer { addr } => assert_eq!(addr, 0xC0000201),
        _ => panic!("expected the next query to go to the glued address"),
    }
}

#[test]
fn delegation_without_glue_resolves_the_ns_host_first() {
    let server = DnsServer::new();
    let mut reply = delegation_reply();
    reply.resources.clear();
    let step = server.next_lookup_step(&reply, &b"www.example.com".to_vec());
    match step {
        LookupStep::ResolveNs { host } => assert_eq!(host, b"ns1.example.com".to_vec()),
        _ => panic!("expected the unresolved name server to be looked up"),
    }
}

#[test]
fn an_answer_ends_the_delegation_loop() {
    let server = DnsServer::new();
    let mut reply = delegation_reply();
    reply.answers.push(DnsRecord::A {
        domain: b"www.example.com".to_vec(),
        addr: 0x5DB8D822,
        ttl: 300,
    });
    let step = server.next_lookup_step(&reply, &b"www.example.com".to_vec());
    assert!(matches!(step, LookupStep::Answer));
}

#[test]
fn nxdomain_ends_the_delegation_loop() {
    let server = DnsServer::new();
    let mut reply = delegation_reply();
    reply.header.rescode = ResultCode::NXDOMAIN;
    let step = server.next_lookup_step(&reply, &b"www.example.com".to_vec());
    assert!(matches!(step, LookupStep::Answer));
}

#[test]
fn an_ns_for_another_zone_is_ignored() {
    let server = DnsServer::new();
    let reply = delegation_reply();
    let step = server.next_lookup_step(&reply, &b"www.elsewhere.org".to_vec());
    assert!(matches!(step, LookupStep::Answer));
}

#[test]
fn first_a_record_comes_from_the_answers() {
    let mut reply = DnsPacket::new();
    assert_eq!(reply.get_first_a_record(), None);
    reply.answers.push(DnsRecord::CNAME {
        domain: b"www.example.com".to_vec(),
        host: b"example.com".to_vec(),
        ttl: 60,
    });
    reply.answers.push(DnsRecord::A {
        domain: b"example.com".to_vec(),
        addr: 0x01020304,
        ttl: 60,
    });
    assert_eq!(reply.get_first_a_record(), Some(0x01020304));
}

#[test]
fn mismatched_transaction_id_is_refused() {
    let mut reply = DnsPacket::new();
    reply.header.id = 0x4444;
    assert_eq!(
        check_response_id(0x1111, &reply),
        Err(DnsServerError::PacketIdCorrupted { sent_id: 0x1111, received_id: 0x4444 })
    );
    assert_eq!(check_response_id(0x4444, &reply), Ok(()));
}

#[test]
fn lookup_request_carries_the_question() {
    let server = DnsServer::new();
    let request = server.build_lookup_request(&b"example.com".to_vec(), QueryType::A);
    assert!(request.header.recursion_desired);
    assert_eq!(request.questions.len(), 1);
    assert_eq!(request.questions[0].name, b"example.com".to_vec());
    assert_eq!(request.questions[0].query_type, QueryType::A);
    assert!(request.answers.is_empty());
}

#[test]
fn response_to_a_question_copies_the_resolution() {
    let question = DnsQuestion::new(b"www.example.com".to_vec(), QueryType::A);
    let mut outcome = DnsPacket::new();
    outcome.header.rescode = ResultCode::NOERROR;
    outcome.answers.push(DnsRecord::A {
        domain: b"www.example.com".to_vec(),
        addr: 0x5DB8D822,
        ttl: 300,
    });

    let reply = build_response(0x7777, Some(question.clone()), Some(outcome.clone()));
    assert_eq!(reply.header.id, 0x7777);
    assert!(reply.header.response);
    assert!(reply.header.recursion_available);
    assert_eq!(reply.header.rescode, ResultCode::NOERROR);
    assert_eq!(reply.questions, vec![question]);
    assert_eq!(reply.answers, outcome.answers);
}

#[test]
fn failed_resolution_answers_servfail() {
    let question = DnsQuestion::new(b"www.example.com".to_vec(), QueryType::A);
    let reply = build_response(0x7777, Some(question), None);
    assert_eq!(reply.header.rescode, ResultCode::SERVFAIL);
    assert!(reply.questions.is_empty());
    assert!(reply.answers.is_empty());
}

#[test]
fn a_request_without_a_question_answers_formerr() {
    let reply = build_response(0x7777, None, None);
    assert_eq!(reply.header.rescode, ResultCode::FORMERR);
    assert!(reply.questions.is_empty());
}
