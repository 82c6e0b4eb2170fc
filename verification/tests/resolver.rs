use rdns::header::ResultCode;
use rdns::packet::DnsPacket;
use rdns::question::{DnsQuestion, QueryType};
use rdns::record::{DnsRecord, Ipv4Address};
use rdns::resolver::{build_query, build_response, ResolveStep};

fn ip(o0: u8, o1: u8, o2: u8, o3: u8) -> Ipv4Address {
    Ipv4Address { o0, o1, o2, o3 }
}

fn answer_packet(qname: &str, addr: Ipv4Address) -> DnsPacket {
    let mut p = DnsPacket::new();
    p.header.response = true;
    p.header.rescode = ResultCode::NOERROR;
    p.answers.push(DnsRecord::A { domain: String::from(qname), addr, ttl: 60 });
    p
}

fn nxdomain_packet() -> DnsPacket {
    let mut p = DnsPacket::new();
    p.header.response = true;
    p.header.rescode = ResultCode::NXDOMAIN;
    p
}

fn referral_packet(zone: &str, ns_host: &str, glue: Option<Ipv4Address>) -> DnsPacket {
    let mut p = DnsPacket::new();
    p.header.response = true;
    p.header.rescode = ResultCode::NOERROR;
    p.authorities.push(DnsRecord::NS {
        domain: String::from(zone),
        host: String::from(ns_host),
        ttl: 60,
    });
    if let Some(addr) = glue {
        p.resources.push(DnsRecord::A { domain: String::from(ns_host), addr, ttl: 60 });
    }
    p
}

/// The delegation-chasing loop, driven by a mock transport that maps the
/// queried server address to a canned response.
fn run_resolver(
    transport: &mut dyn FnMut(&str, QueryType, Ipv4Address) -> DnsPacket,
    qname: &str,
    qtype: QueryType,
    seed: Ipv4Address,
    depth: usize,
) -> Option<DnsPacket> {
    let mut ns = seed;
    loop {
        let response = transport(qname, qtype, ns);
        match response.resolve_step(qname, 0) {
            ResolveStep::Done(p) => return Some(p),
            ResolveStep::Query(addr) => {
                ns = addr;
            }
            ResolveStep::SubResolve(host, fallback) => {
                if depth >= 5 {
                    return Some(fallback);
                }
                match run_resolver(transport, &host, QueryType::A, seed, depth + 1) {
                    Some(sub) => match sub.get_random_a(0) {
                        Some(addr) => {
                            ns = addr;
                        }
                        None => return Some(fallback),
                    },
                    None => return None,
                }
            }
        }
    }
}

#[test]
fn nxdomain_terminates_in_one_round_trip() {
    let mut round_trips = 0;
    let mut transport = |_q: &str, _t: QueryType, _server: Ipv4Address| {
        round_trips += 1;
        nxdomain_packet()
    };
    let result =
        run_resolver(&mut transport, "missing.example", QueryType::A, ip(192, 33, 4, 12), 0)
            .unwrap();
    assert_eq!(round_trips, 1);
    assert_eq!(result.header.rescode, ResultCode::NXDOMAIN);
}

#[test]
fn glued_referral_takes_two_round_trips() {
    let seed = ip(192, 33, 4, 12);
    let ns2 = ip(10, 0, 0, 2);
    let final_addr = ip(93, 184, 216, 34);
    let mut round_trips = 0;
    let mut transport = |q: &str, _t: QueryType, server: Ipv4Address| {
        round_trips += 1;
        if server == seed {
            referral_packet("example.", "ns2.example.", Some(ns2))
        } else {
            assert_eq!(server, ns2);
            answer_packet(q, final_addr)
        }
    };
    let result =
        run_resolver(&mut transport, "www.example.", QueryType::A, seed, 0).unwrap();
    assert_eq!(round_trips, 2);
    assert_eq!(result.header.rescode, ResultCode::NOERROR);
    assert_eq!(result.get_random_a(0), Some(final_addr));
}

#[test]
fn glueless_referral_resolves_the_name_server_first() {
    let seed = ip(192, 33, 4, 12);
    let ns3 = ip(10, 0, 0, 3);
    let final_addr = ip(93, 184, 216, 34);
    let mut round_trips = 0;
    let mut transport = |q: &str, _t: QueryType, server: Ipv4Address| {
        round_trips += 1;
        if q == "ns3.example." {
            // The sub-resolution: one round trip against the seed.
            assert_eq!(server, seed);
            answer_packet(q, ns3)
        } else if server == seed {
            referral_packet("example.", "ns3.example.", None)
        } else {
            assert_eq!(server, ns3);
            answer_packet(q, final_addr)
        }
    };
    let result =
        run_resolver(&mut transport, "www.example.", QueryType::A, seed, 0).unwrap();
    // One sub-resolution round trip, plus the referral and the final query.
    assert_eq!(round_trips, 1 + 2);
    assert_eq!(result.get_random_a(0), Some(final_addr));
}

#[test]
fn referral_without_usable_address_returns_best_effort() {
    let seed = ip(192, 33, 4, 12);
    let mut transport = |q: &str, _t: QueryType, _server: Ipv4Address| {
        if q == "ns4.example." {
            // The sub-resolution dead-ends: no answer, no referral.
            let mut p = DnsPacket::new();
            p.header.response = true;
            p
        } else {
            referral_packet("example.", "ns4.example.", None)
        }
    };
    let result =
        run_resolver(&mut transport, "www.example.", QueryType::A, seed, 0).unwrap();
    // The original referral comes back as the best effort.
    assert_eq!(result.authorities.len(), 1);
    assert_eq!(result.answers.len(), 0);
}

#[test]
fn pick_index_selects_among_answers() {
    let mut p = DnsPacket::new();
    p.answers.push(DnsRecord::A { domain: String::from("a.example"), addr: ip(1, 1, 1, 1), ttl: 1 });
    p.answers.push(DnsRecord::NS {
        domain: String::from("a.example"),
        host: String::from("ns.example"),
        ttl: 1,
    });
    p.answers.push(DnsRecord::A { domain: String::from("a.example"), addr: ip(2, 2, 2, 2), ttl: 1 });
    assert_eq!(p.get_random_a(0), Some(ip(1, 1, 1, 1)));
    assert_eq!(p.get_random_a(1), Some(ip(2, 2, 2, 2)));
    assert_eq!(p.get_random_a(2), Some(ip(1, 1, 1, 1)));
    assert_eq!(DnsPacket::new().get_random_a(0), None);
}

#[test]
fn resolved_ns_needs_matching_zone_and_glue() {
    let glued = referral_packet("example.", "ns2.example.", Some(ip(10, 0, 0, 2)));
    assert_eq!(glued.get_resolved_ns("www.example.", 0), Some(ip(10, 0, 0, 2)));
    // The zone does not match the queried name: no candidate.
    assert_eq!(glued.get_resolved_ns("www.elsewhere.", 0), None);
    // Without glue there is no resolved candidate, only an unresolved one.
    let glueless = referral_packet("example.", "ns3.example.", None);
    assert_eq!(glueless.get_resolved_ns("www.example.", 0), None);
    assert_eq!(glueless.get_unresolved_ns("www.example.", 0), Some(String::from("ns3.example.")));
    assert_eq!(glueless.get_unresolved_ns("www.elsewhere.", 0), None);
}

#[test]
fn build_query_sets_header_and_question() {
    let q = build_query(0x1234, "www.example.com", QueryType::MX);
    assert_eq!(q.header.id, 0x1234);
    assert!(q.header.recursion_desired);
    assert_eq!(q.header.questions, 1);
    assert_eq!(q.questions.len(), 1);
    assert_eq!(q.questions[0], DnsQuestion::new("www.example.com", QueryType::MX));
    assert_eq!(q.answers.len(), 0);
}

#[test]
fn zero_question_request_gets_formerr_with_echoed_id() {
    // An inbound request with no questions, as the server loop sees it.
    let mut request = DnsPacket::new();
    request.header.id = 0xABCD;
    let mut buffer = rdns::buffer::BytePacketBuffer::new();
    request.write(&mut buffer).unwrap();
    buffer.seek(0).unwrap();
    let decoded = DnsPacket::from_buffer(&mut buffer).unwrap();
    assert!(decoded.questions.is_empty());

    let response = build_response(decoded.header.id, None, None);
    assert_eq!(response.header.id, 0xABCD);
    assert_eq!(response.header.rescode, ResultCode::FORMERR);
    assert!(response.header.response);
    assert!(response.questions.is_empty());
    assert!(response.answers.is_empty());
    assert!(response.authorities.is_empty());
    assert!(response.resources.is_empty());
}

#[test]
fn failed_lookup_gets_servfail() {
    let question = DnsQuestion::new("www.example.com", QueryType::A);
    let response = build_response(7, Some(&question), None);
    assert_eq!(response.header.rescode, ResultCode::SERVFAIL);
    assert!(response.questions.is_empty());
    assert!(response.answers.is_empty());
}

#[test]
fn successful_lookup_copies_sections() {
    let question = DnsQuestion::new("www.example.", QueryType::A);
    let mut result = answer_packet("www.example.", ip(9, 9, 9, 9));
    result.authorities.push(DnsRecord::NS {
        domain: String::from("example."),
        host: String::from("ns.example."),
        ttl: 60,
    });
    let response = build_response(7, Some(&question), Some(result));
    assert_eq!(response.header.id, 7);
    assert_eq!(response.header.rescode, ResultCode::NOERROR);
    assert_eq!(response.questions, vec![question]);
    assert_eq!(response.answers.len(), 1);
    assert_eq!(response.authorities.len(), 1);
    assert!(response.resources.is_empty());
}
