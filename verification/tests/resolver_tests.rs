use dns_resolver::packet::DNSPacket;
use dns_resolver::question::DNSQuestion;
use dns_resolver::record::DNSRecord;
use dns_resolver::resolver::Step;
use dns_resolver::resolver::build_response;
use dns_resolver::resolver::default_root;
use dns_resolver::resolver::make_query;
use dns_resolver::resolver::resolve_step;
use dns_resolver::types::Ipv4Addr;
use dns_resolver::types::QueryType;
use dns_resolver::types::ResultCode;

fn ns(domain: &[u8], host: &[u8]) -> DNSRecord {
    DNSRecord::NS { domain: domain.to_vec(), host: host.to_vec(), ttl: 86400 }
}

fn a(domain: &[u8], o0: u8, o1: u8, o2: u8, o3: u8) -> DNSRecord {
    DNSRecord::A { domain: domain.to_vec(), addr: Ipv4Addr::new(o0, o1, o2, o3), ttl: 300 }
}

#[test]
fn default_root_is_a_root_servers_net() {
    assert_eq!(default_root(), Ipv4Addr::new(198, 41, 0, 4));
}

#[test]
fn glued_ns_is_first_in_wire_order() {
    let mut resp = DNSPacket::new();
    resp.authorities.push(ns(b"example.com", b"ns1.example.net"));
    resp.authorities.push(ns(b"example.com", b"ns2.example.net"));
    resp.resources.push(a(b"ns2.example.net", 10, 0, 0, 2));
    resp.resources.push(a(b"ns1.example.net", 10, 0, 0, 1));
    // first NS in on-wire order that has glue wins: ns1 has glue too
    let got = resp.get_resolved_ns(&b"www.example.com".to_vec());
    assert_eq!(got, Some(Ipv4Addr::new(10, 0, 0, 1)));
}

#[test]
fn glue_matching_is_case_insensitive_and_label_aligned() {
    let mut resp = DNSPacket::new();
    resp.authorities.push(ns(b"le.com", b"evil.example.net"));
    resp.authorities.push(ns(b"Example.COM", b"NS1.Example.NET"));
    resp.resources.push(a(b"evil.example.net", 6, 6, 6, 6));
    resp.resources.push(a(b"ns1.example.net", 10, 0, 0, 1));
    // "le.com" is not label-aligned with "www.example.com"
    let got = resp.get_resolved_ns(&b"WWW.example.com".to_vec());
    assert_eq!(got, Some(Ipv4Addr::new(10, 0, 0, 1)));
}

#[test]
fn unresolved_ns_is_first_without_glue() {
    let mut resp = DNSPacket::new();
    resp.authorities.push(ns(b"example.com", b"ns1.example.net"));
    resp.authorities.push(ns(b"example.com", b"ns2.example.net"));
    resp.resources.push(a(b"ns2.example.net", 10, 0, 0, 2));
    let got = resp.get_unresolved_ns(&b"www.example.com".to_vec());
    assert_eq!(got, Some(b"ns1.example.net".to_vec()));
}

#[test]
fn random_a_is_first_answer_a() {
    let mut resp = DNSPacket::new();
    resp.answers.push(ns(b"example.com", b"ns1.example.net"));
    resp.answers.push(a(b"example.com", 1, 2, 3, 4));
    resp.answers.push(a(b"example.com", 5, 6, 7, 8));
    assert_eq!(resp.get_random_a(), Some(Ipv4Addr::new(1, 2, 3, 4)));
    let empty = DNSPacket::new();
    assert_eq!(empty.get_random_a(), None);
}

#[test]
fn nxdomain_short_circuits() {
    let mut resp = DNSPacket::new();
    resp.header.rescode = ResultCode::NXDOMAIN;
    // even with a followable delegation present, the walk stops
    resp.authorities.push(ns(b"example.com", b"ns1.example.net"));
    resp.resources.push(a(b"ns1.example.net", 10, 0, 0, 1));
    let step = resolve_step(&resp, &b"www.example.com".to_vec());
    assert_eq!(step, Step::Nxdomain);
}

#[test]
fn dead_end_returns_the_response() {
    // no answers, no matching NS authorities: the walk gives up
    let mut resp = DNSPacket::new();
    resp.authorities.push(ns(b"other.org", b"ns1.other.org"));
    let step = resolve_step(&resp, &b"www.example.com".to_vec());
    assert_eq!(step, Step::GiveUp);
}

#[test]
fn answers_end_the_walk() {
    let mut resp = DNSPacket::new();
    resp.answers.push(a(b"example.com", 93, 184, 216, 34));
    let step = resolve_step(&resp, &b"example.com".to_vec());
    assert_eq!(step, Step::Answered);
}

#[test]
fn unglued_delegation_asks_for_sub_resolution() {
    let mut resp = DNSPacket::new();
    resp.authorities.push(ns(b"example.com", b"ns1.example.net"));
    let step = resolve_step(&resp, &b"www.example.com".to_vec());
    assert_eq!(step, Step::Unglued(b"ns1.example.net".to_vec()));
}

#[test]
fn recursive_descent_one_glue_hop() {
    // the root stub delegates example.com with glue
    let qname = b"example.com".to_vec();
    let mut root_resp = DNSPacket::new();
    root_resp.authorities.push(ns(b"example.com", b"a.iana-servers.net"));
    root_resp.resources.push(a(b"a.iana-servers.net", 199, 43, 135, 53));
    let step = resolve_step(&root_resp, &qname);
    // the second query goes to the glued address
    assert_eq!(step, Step::Glued(Ipv4Addr::new(199, 43, 135, 53)));

    // that server answers; resolution returns exactly those answers
    let mut leaf_resp = DNSPacket::new();
    leaf_resp.answers.push(a(b"example.com", 93, 184, 216, 34));
    assert_eq!(resolve_step(&leaf_resp, &qname), Step::Answered);
    assert_eq!(leaf_resp.header.rescode, ResultCode::NOERROR);
    assert_eq!(
        leaf_resp.answers,
        vec![DNSRecord::A {
            domain: b"example.com".to_vec(),
            addr: Ipv4Addr::new(93, 184, 216, 34),
            ttl: 300,
        }]
    );
}

#[test]
fn make_query_has_one_question_and_no_recursion() {
    let q = make_query(0x1337, b"example.com".to_vec(), QueryType::A);
    assert_eq!(q.header.id, 0x1337);
    assert!(!q.header.response);
    assert!(!q.header.recursion_desired);
    assert_eq!(q.header.questions, 1);
    assert_eq!(q.questions.len(), 1);
    assert_eq!(q.questions[0].name, b"example.com".to_vec());
    assert_eq!(q.questions[0].qtype, QueryType::A);
    assert!(q.answers.is_empty());
}

#[test]
fn response_to_empty_request_is_formerr() {
    let r = build_response(9, None, None);
    assert_eq!(r.header.id, 9);
    assert!(r.header.response);
    assert!(r.header.recursion_desired);
    assert!(r.header.recursion_available);
    assert_eq!(r.header.rescode, ResultCode::FORMERR);
    assert!(r.questions.is_empty());
}

#[test]
fn response_to_failed_lookup_is_servfail() {
    let q = DNSQuestion::new(b"example.com".to_vec(), QueryType::A);
    let r = build_response(9, Some(q), None);
    assert_eq!(r.header.rescode, ResultCode::SERVFAIL);
    assert!(r.questions.is_empty());
    assert!(r.answers.is_empty());
}

#[test]
fn response_copies_result_sections_and_echoes_question() {
    let q = DNSQuestion::new(b"example.com".to_vec(), QueryType::A);
    let mut looked_up = DNSPacket::new();
    looked_up.header.rescode = ResultCode::NOERROR;
    looked_up.answers.push(a(b"example.com", 93, 184, 216, 34));
    looked_up.authorities.push(ns(b"example.com", b"a.iana-servers.net"));
    looked_up.resources.push(a(b"a.iana-servers.net", 199, 43, 135, 53));
    let r = build_response(0x1337, Some(q), Some(looked_up));
    assert_eq!(r.header.id, 0x1337);
    assert_eq!(r.header.rescode, ResultCode::NOERROR);
    assert_eq!(r.questions.len(), 1);
    assert_eq!(r.questions[0].name, b"example.com".to_vec());
    assert_eq!(r.answers.len(), 1);
    assert_eq!(r.authorities.len(), 1);
    assert_eq!(r.resources.len(), 1);
}
