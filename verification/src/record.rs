//! Resource records: the tagged variants keyed by query type, with their
//! bit-exact decode and encode (including back-patched length fields).

use vstd::prelude::*;

use crate::buffer::{
    be16, be32, lemma_splice_concat, lemma_splice_within, lemma_u32_from_split, splice, u16_from,
    u32_from, BytePacketBuffer, BUF_SIZE,
};
use crate::errors::DnsError;
use crate::name::{check_name, lemma_name_wire_len, name_end, name_ok, name_wire, parse_name};
use crate::question::{qtype_of, QueryType};

verus! {

/// An IPv4 address as its four octets.
#[derive(Copy, Clone, Debug, PartialEq, Eq, Hash, PartialOrd, Ord, Structural)]
pub struct Ipv4Address {
    pub o0: u8,
    pub o1: u8,
    pub o2: u8,
    pub o3: u8,
}

/// An IPv6 address as its eight 16-bit segments.
#[derive(Copy, Clone, Debug, PartialEq, Eq, Hash, PartialOrd, Ord, Structural)]
pub struct Ipv6Address {
    pub s0: u16,
    pub s1: u16,
    pub s2: u16,
    pub s3: u16,
    pub s4: u16,
    pub s5: u16,
    pub s6: u16,
    pub s7: u16,
}

/// The mathematical value of a record.
#[verifier::ext_equal]
pub enum RecordView {
    UNKNOWN { domain: Seq<char>, qtype: u16, data_len: u16, ttl: u32 },
    A { domain: Seq<char>, addr: Ipv4Address, ttl: u32 },
    NS { domain: Seq<char>, host: Seq<char>, ttl: u32 },
    CNAME { domain: Seq<char>, host: Seq<char>, ttl: u32 },
    MX { domain: Seq<char>, priority: u16, host: Seq<char>, ttl: u32 },
    AAAA { domain: Seq<char>, addr: Ipv6Address, ttl: u32 },
}

/// A resource record. The `UNKNOWN` variant keeps the raw type code and the
/// declared payload length; its payload bytes are skipped on decode and it
/// is silently dropped on encode.
#[derive(Debug, Clone, PartialEq, Eq, Hash, PartialOrd, Ord)]
pub enum DnsRecord {
    UNKNOWN { domain: String, qtype: u16, data_len: u16, ttl: u32 },
    A { domain: String, addr: Ipv4Address, ttl: u32 },
    NS { domain: String, host: String, ttl: u32 },
    CNAME { domain: String, host: String, ttl: u32 },
    MX { domain: String, priority: u16, host: String, ttl: u32 },
    AAAA { domain: String, addr: Ipv6Address, ttl: u32 },
}

impl View for DnsRecord {
    type V = RecordView;

    open spec fn view(&self) -> RecordView {
        match self {
            DnsRecord::UNKNOWN { domain, qtype, data_len, ttl } => RecordView::UNKNOWN {
                domain: domain@,
                qtype: *qtype,
                data_len: *data_len,
                ttl: *ttl,
            },
            DnsRecord::A { domain, addr, ttl } => RecordView::A {
                domain: domain@,
                addr: *addr,
                ttl: *ttl,
            },
            DnsRecord::NS { domain, host, ttl } => RecordView::NS {
                domain: domain@,
                host: host@,
                ttl: *ttl,
            },
            DnsRecord::CNAME { domain, host, ttl } => RecordView::CNAME {
                domain: domain@,
                host: host@,
                ttl: *ttl,
            },
            DnsRecord::MX { domain, priority, host, ttl } => RecordView::MX {
                domain: domain@,
                priority: *priority,
                host: host@,
                ttl: *ttl,
            },
            DnsRecord::AAAA { domain, addr, ttl } => RecordView::AAAA {
                domain: domain@,
                addr: *addr,
                ttl: *ttl,
            },
        }
    }
}

/// Whether every name in the record can be encoded.
pub open spec fn record_names_ok(r: RecordView) -> bool {
    match r {
        RecordView::UNKNOWN { .. } => true,
        RecordView::A { domain, .. } => name_ok(domain),
        RecordView::NS { domain, host, .. } => name_ok(domain) && name_ok(host),
        RecordView::CNAME { domain, host, .. } => name_ok(domain) && name_ok(host),
        RecordView::MX { domain, host, .. } => name_ok(domain) && name_ok(host),
        RecordView::AAAA { domain, .. } => name_ok(domain),
    }
}

/// The wire bytes the encoder produces for a record: name, type, class IN,
/// TTL, payload length, payload. An `UNKNOWN` record produces nothing.
pub open spec fn record_wire(r: RecordView) -> Seq<u8> {
    match r {
        RecordView::UNKNOWN { .. } => Seq::empty(),
        RecordView::A { domain, addr, ttl } => name_wire(domain) + be16(1) + be16(1) + be32(ttl)
            + be16(4) + seq![addr.o0, addr.o1, addr.o2, addr.o3],
        RecordView::NS { domain, host, ttl } => name_wire(domain) + be16(2) + be16(1) + be32(ttl)
            + be16((host.len() + 2) as u16) + name_wire(host),
        RecordView::CNAME { domain, host, ttl } => name_wire(domain) + be16(5) + be16(1) + be32(
            ttl,
        ) + be16((host.len() + 2) as u16) + name_wire(host),
        RecordView::MX { domain, priority, host, ttl } => name_wire(domain) + be16(15) + be16(1)
            + be32(ttl) + be16((host.len() + 4) as u16) + be16(priority) + name_wire(host),
        RecordView::AAAA { domain, addr, ttl } => name_wire(domain) + be16(28) + be16(1) + be32(
            ttl,
        ) + be16(16) + be16(addr.s0) + be16(addr.s1) + be16(addr.s2) + be16(addr.s3) + be16(
            addr.s4,
        ) + be16(addr.s5) + be16(addr.s6) + be16(addr.s7),
    }
}

/// The payload of a recognized record type decoded at `p2`, after the
/// fixed fields have been read.
pub open spec fn parse_record_payload(
    b: Seq<u8>,
    p2: int,
    domain: Seq<char>,
    qnum: u16,
    ttl: u32,
    dlen: u16,
) -> Result<(RecordView, int), DnsError> {
    match qtype_of(qnum) {
        QueryType::A => {
            if p2 + 4 > b.len() {
                Err(DnsError::EndOfBuffer)
            } else {
                Ok(
                    (
                        RecordView::A {
                            domain,
                            addr: Ipv4Address {
                                o0: b[p2],
                                o1: b[p2 + 1],
                                o2: b[p2 + 2],
                                o3: b[p2 + 3],
                            },
                            ttl,
                        },
                        p2 + 4,
                    ),
                )
            }
        },
        QueryType::NS => match parse_name(b, p2) {
            Err(e) => Err(e),
            Ok(host) => Ok((RecordView::NS { domain, host, ttl }, name_end(b, p2))),
        },
        QueryType::CNAME => match parse_name(b, p2) {
            Err(e) => Err(e),
            Ok(host) => Ok((RecordView::CNAME { domain, host, ttl }, name_end(b, p2))),
        },
        QueryType::MX => {
            if p2 + 2 > b.len() {
                Err(DnsError::EndOfBuffer)
            } else {
                let priority = u16_from(b[p2], b[p2 + 1]) as u16;
                match parse_name(b, p2 + 2) {
                    Err(e) => Err(e),
                    Ok(host) => Ok(
                        (RecordView::MX { domain, priority, host, ttl }, name_end(b, p2 + 2)),
                    ),
                }
            }
        },
        QueryType::AAAA => {
            if p2 + 16 > b.len() {
                Err(DnsError::EndOfBuffer)
            } else {
                Ok(
                    (
                        RecordView::AAAA {
                            domain,
                            addr: Ipv6Address {
                                s0: u16_from(b[p2], b[p2 + 1]) as u16,
                                s1: u16_from(b[p2 + 2], b[p2 + 3]) as u16,
                                s2: u16_from(b[p2 + 4], b[p2 + 5]) as u16,
                                s3: u16_from(b[p2 + 6], b[p2 + 7]) as u16,
                                s4: u16_from(b[p2 + 8], b[p2 + 9]) as u16,
                                s5: u16_from(b[p2 + 10], b[p2 + 11]) as u16,
                                s6: u16_from(b[p2 + 12], b[p2 + 13]) as u16,
                                s7: u16_from(b[p2 + 14], b[p2 + 15]) as u16,
                            },
                            ttl,
                        },
                        p2 + 16,
                    ),
                )
            }
        },
        QueryType::UNKNOWN(_) => Ok(
            (RecordView::UNKNOWN { domain, qtype: qnum, data_len: dlen, ttl }, p2 + dlen),
        ),
    }
}

/// The fixed fields of a record decoded at `p1` (just past its name): type
/// code, class (discarded), TTL, payload length, then the payload.
pub open spec fn parse_record_fields(b: Seq<u8>, p1: int, domain: Seq<char>) -> Result<
    (RecordView, int),
    DnsError,
> {
    if p1 + 10 > b.len() {
        Err(DnsError::EndOfBuffer)
    } else {
        parse_record_payload(
            b,
            p1 + 10,
            domain,
            u16_from(b[p1], b[p1 + 1]) as u16,
            u32_from(b[p1 + 4], b[p1 + 5], b[p1 + 6], b[p1 + 7]) as u32,
            u16_from(b[p1 + 8], b[p1 + 9]) as u16,
        )
    }
}

/// The record decoded from `b` at `p` and the cursor position after it.
pub open spec fn parse_record(b: Seq<u8>, p: int) -> Result<(RecordView, int), DnsError> {
    match parse_name(b, p) {
        Err(e) => Err(e),
        Ok(domain) => parse_record_fields(b, name_end(b, p), domain),
    }
}

impl DnsRecord {
    /// Decode the A payload: four address octets.
    fn read_a(buffer: &mut BytePacketBuffer, domain: String, ttl: u32) -> (r: Result<
        DnsRecord,
        DnsError,
    >)
        requires
            old(buffer).wf(),
        ensures
            final(buffer).wf(),
            final(buffer).buf@ == old(buffer).buf@,
            old(buffer).pos + 4 <= BUF_SIZE ==> (r matches Ok(rec) && rec@ == RecordView::A {
                domain: domain@,
                addr: Ipv4Address {
                    o0: old(buffer).buf@[old(buffer).pos as int],
                    o1: old(buffer).buf@[old(buffer).pos + 1],
                    o2: old(buffer).buf@[old(buffer).pos + 2],
                    o3: old(buffer).buf@[old(buffer).pos + 3],
                },
                ttl,
            } && final(buffer).pos == old(buffer).pos + 4),
            old(buffer).pos + 4 > BUF_SIZE ==> r == Err::<DnsRecord, DnsError>(
                DnsError::EndOfBuffer,
            ) && *final(buffer) == *old(buffer),
    {
        let raw_addr = match buffer.read_u32() {
            Ok(v) => v,
            Err(e) => {
                return Err(e);
            }
        };
        proof {
            let b = buffer.buf@;
            let p2 = buffer.pos - 4;
            lemma_u32_from_split(b[p2], b[p2 + 1], b[p2 + 2], b[p2 + 3]);
        }
        let addr = Ipv4Address {
            o0: (raw_addr / 0x1000000) as u8,
            o1: ((raw_addr / 0x10000) % 256) as u8,
            o2: ((raw_addr / 256) % 256) as u8,
            o3: (raw_addr % 256) as u8,
        };
        Ok(DnsRecord::A { domain, addr, ttl })
    }

    /// Decode the AAAA payload: eight 16-bit address segments.
    fn read_aaaa(buffer: &mut BytePacketBuffer, domain: String, ttl: u32) -> (r: Result<
        DnsRecord,
        DnsError,
    >)
        requires
            old(buffer).wf(),
        ensures
            final(buffer).wf(),
            final(buffer).buf@ == old(buffer).buf@,
            old(buffer).pos + 16 <= BUF_SIZE ==> (r matches Ok(rec) && rec@ == RecordView::AAAA {
                domain: domain@,
                addr: ({
                    let b = old(buffer).buf@;
                    let p2 = old(buffer).pos as int;
                    Ipv6Address {
                        s0: u16_from(b[p2], b[p2 + 1]) as u16,
                        s1: u16_from(b[p2 + 2], b[p2 + 3]) as u16,
                        s2: u16_from(b[p2 + 4], b[p2 + 5]) as u16,
                        s3: u16_from(b[p2 + 6], b[p2 + 7]) as u16,
                        s4: u16_from(b[p2 + 8], b[p2 + 9]) as u16,
                        s5: u16_from(b[p2 + 10], b[p2 + 11]) as u16,
                        s6: u16_from(b[p2 + 12], b[p2 + 13]) as u16,
                        s7: u16_from(b[p2 + 14], b[p2 + 15]) as u16,
                    }
                }),
                ttl,
            } && final(buffer).pos == old(buffer).pos + 16),
            old(buffer).pos + 16 > BUF_SIZE ==> r == Err::<DnsRecord, DnsError>(
                DnsError::EndOfBuffer,
            ),
    {
        if buffer.pos > BUF_SIZE - 16 {
            return Err(DnsError::EndOfBuffer);
        }
        let s0 = match buffer.read_u16() {
            Ok(v) => v,
            Err(e) => {
                return Err(e);
            }
        };
        let s1 = match buffer.read_u16() {
            Ok(v) => v,
            Err(e) => {
                return Err(e);
            }
        };
        let s2 = match buffer.read_u16() {
            Ok(v) => v,
            Err(e) => {
                return Err(e);
            }
        };
        let s3 = match buffer.read_u16() {
            Ok(v) => v,
            Err(e) => {
                return Err(e);
            }
        };
        let s4 = match buffer.read_u16() {
            Ok(v) => v,
            Err(e) => {
                return Err(e);
            }
        };
        let s5 = match buffer.read_u16() {
            Ok(v) => v,
            Err(e) => {
                return Err(e);
            }
        };
        let s6 = match buffer.read_u16() {
            Ok(v) => v,
            Err(e) => {
                return Err(e);
            }
        };
        let s7 = match buffer.read_u16() {
            Ok(v) => v,
            Err(e) => {
                return Err(e);
            }
        };
        let addr = Ipv6Address { s0, s1, s2, s3, s4, s5, s6, s7 };
        Ok(DnsRecord::AAAA { domain, addr, ttl })
    }

    /// Decode the fixed record fields at the cursor: type code, class
    /// (discarded), TTL, payload length.
    fn read_fields(buffer: &mut BytePacketBuffer) -> (r: Result<(u16, u32, u16), DnsError>)
        requires
            old(buffer).wf(),
        ensures
            final(buffer).wf(),
            final(buffer).buf@ == old(buffer).buf@,
            old(buffer).pos + 10 <= BUF_SIZE ==> (r matches Ok((qnum, ttl, dlen)) && {
                let b = old(buffer).buf@;
                let p1 = old(buffer).pos as int;
                &&& qnum == u16_from(b[p1], b[p1 + 1]) as u16
                &&& ttl == u32_from(b[p1 + 4], b[p1 + 5], b[p1 + 6], b[p1 + 7]) as u32
                &&& dlen == u16_from(b[p1 + 8], b[p1 + 9]) as u16
                &&& final(buffer).pos == old(buffer).pos + 10
            }),
            old(buffer).pos + 10 > BUF_SIZE ==> r == Err::<(u16, u32, u16), DnsError>(
                DnsError::EndOfBuffer,
            ),
    {
        if buffer.pos > BUF_SIZE - 10 {
            return Err(DnsError::EndOfBuffer);
        }
        let qnum = match buffer.read_u16() {
            Ok(v) => v,
            Err(e) => {
                return Err(e);
            }
        };
        match buffer.read_u16() {
            Ok(_) => {}
            Err(e) => {
                return Err(e);
            }
        }
        let ttl = match buffer.read_u32() {
            Ok(v) => v,
            Err(e) => {
                return Err(e);
            }
        };
        let dlen = match buffer.read_u16() {
            Ok(v) => v,
            Err(e) => {
                return Err(e);
            }
        };
        Ok((qnum, ttl, dlen))
    }

    /// Decode one record at the cursor.
    #[verifier::rlimit(100)]
    #[verifier::spinoff_prover]
    pub fn read(buffer: &mut BytePacketBuffer) -> (r: Result<DnsRecord, DnsError>)
        requires
            old(buffer).wf(),
        ensures
            final(buffer).wf(),
            final(buffer).buf@ == old(buffer).buf@,
            ({
                let res = parse_record(old(buffer).buf@, old(buffer).pos as int);
                match r {
                    Ok(rec) => res matches Ok((v, end)) && rec@ == v && final(buffer).pos == end,
                    Err(e) => res == Err::<(RecordView, int), DnsError>(e),
                }
            }),
    {
        let ghost b = buffer.buf@;
        let ghost p = buffer.pos as int;
        let mut domain = String::new();
        match buffer.read_qname(&mut domain) {
            Ok(_) => {}
            Err(e) => {
                return Err(e);
            }
        }
        let ghost p1 = buffer.pos as int;
        let (qtype_num, ttl, data_len) = match Self::read_fields(buffer) {
            Ok(v) => v,
            Err(e) => {
                return Err(e);
            }
        };
        let ghost p2 = buffer.pos as int;
        proof {
            assert(parse_record(b, p) == parse_record_payload(
                b,
                p2,
                domain@,
                qtype_num,
                ttl,
                data_len,
            ));
        }
        let qtype = QueryType::from_num(qtype_num);

        match qtype {
            QueryType::A => {
                match Self::read_a(buffer, domain, ttl) {
                    Ok(rec) => Ok(rec),
                    Err(e) => Err(e),
                }
            }
            QueryType::NS => {
                let mut host = String::new();
                match buffer.read_qname(&mut host) {
                    Ok(_) => {}
                    Err(e) => {
                        return Err(e);
                    }
                }
                Ok(DnsRecord::NS { domain, host, ttl })
            }
            QueryType::CNAME => {
                let mut host = String::new();
                match buffer.read_qname(&mut host) {
                    Ok(_) => {}
                    Err(e) => {
                        return Err(e);
                    }
                }
                Ok(DnsRecord::CNAME { domain, host, ttl })
            }
            QueryType::MX => {
                let priority = match buffer.read_u16() {
                    Ok(v) => v,
                    Err(e) => {
                        return Err(e);
                    }
                };
                let mut host = String::new();
                match buffer.read_qname(&mut host) {
                    Ok(_) => {}
                    Err(e) => {
                        return Err(e);
                    }
                }
                Ok(DnsRecord::MX { domain, priority, host, ttl })
            }
            QueryType::AAAA => {
                match Self::read_aaaa(buffer, domain, ttl) {
                    Ok(rec) => Ok(rec),
                    Err(e) => Err(e),
                }
            }
            QueryType::UNKNOWN(_) => {
                match buffer.step(data_len as usize) {
                    Ok(_) => {}
                    Err(e) => {
                        return Err(e);
                    }
                }
                Ok(DnsRecord::UNKNOWN { domain, qtype: qtype_num, data_len, ttl })
            }
        }
    }
}

/// The wire bytes of a record whose payload is a single host name (NS and
/// CNAME), for a given type code.
pub open spec fn host_record_wire(domain: Seq<char>, host: Seq<char>, ttl: u32, qnum: u16) -> Seq<
    u8,
> {
    name_wire(domain) + be16(qnum) + be16(1) + be32(ttl) + be16((host.len() + 2) as u16)
        + name_wire(host)
}

impl DnsRecord {
    /// Encode the fixed prefix shared by every record: name, type code,
    /// class IN, TTL.
    fn write_prefix(buffer: &mut BytePacketBuffer, domain: &String, qnum: u16, ttl: u32) -> (r:
        Result<(), DnsError>)
        requires
            old(buffer).wf(),
            name_ok(domain@),
            old(buffer).pos + domain@.len() + 10 <= BUF_SIZE,
        ensures
            final(buffer).wf(),
            r is Ok,
            final(buffer).buf@ == splice(
                old(buffer).buf@,
                old(buffer).pos as int,
                name_wire(domain@) + be16(qnum) + be16(1) + be32(ttl),
            ),
            final(buffer).pos == old(buffer).pos + domain@.len() + 10,
    {
        proof {
            lemma_name_wire_len(domain@);
        }
        let ghost b0 = buffer.buf@;
        let ghost start = buffer.pos as int;
        match buffer.write_qname(domain.as_str()) {
            Ok(_) => {}
            Err(_) => {
                proof {
                    assert(false);
                }
                return Err(DnsError::EndOfBuffer);
            }
        }
        match buffer.write_u16(qnum) {
            Ok(_) => {}
            Err(_) => {
                proof {
                    assert(false);
                }
                return Err(DnsError::EndOfBuffer);
            }
        }
        match buffer.write_u16(1) {
            Ok(_) => {}
            Err(_) => {
                proof {
                    assert(false);
                }
                return Err(DnsError::EndOfBuffer);
            }
        }
        match buffer.write_u32(ttl) {
            Ok(_) => {}
            Err(_) => {
                proof {
                    assert(false);
                }
                return Err(DnsError::EndOfBuffer);
            }
        }
        proof {
            let w1 = name_wire(domain@);
            lemma_splice_concat(b0, start, w1, be16(qnum));
            let w2 = w1 + be16(qnum);
            lemma_splice_concat(b0, start, w2, be16(1));
            let w3 = w2 + be16(1);
            lemma_splice_concat(b0, start, w3, be32(ttl));
            assert(buffer.buf@ =~= splice(b0, start, w3 + be32(ttl)));
        }
        Ok(())
    }

    /// Encode an A record; all or nothing.
    fn write_a(buffer: &mut BytePacketBuffer, domain: &String, addr: Ipv4Address, ttl: u32) -> (r:
        Result<usize, DnsError>)
        requires
            old(buffer).wf(),
        ensures
            final(buffer).wf(),
            ({
                let v = RecordView::A { domain: domain@, addr, ttl };
                &&& (!name_ok(domain@) ==> r == Err::<usize, DnsError>(DnsError::LabelTooLong)
                    && *final(buffer) == *old(buffer))
                &&& (name_ok(domain@) && old(buffer).pos + record_wire(v).len() > BUF_SIZE ==> r
                    == Err::<usize, DnsError>(DnsError::EndOfBuffer)
                    && *final(buffer) == *old(buffer))
                &&& (name_ok(domain@) && old(buffer).pos + record_wire(v).len() <= BUF_SIZE ==> (r
                    matches Ok(sz) && sz == record_wire(v).len() && final(buffer).buf@ == splice(
                    old(buffer).buf@,
                    old(buffer).pos as int,
                    record_wire(v),
                ) && final(buffer).pos == old(buffer).pos + record_wire(v).len()))
            }),
    {
        proof {
            lemma_name_wire_len(domain@);
        }
        if !check_name(domain.as_str()) {
            return Err(DnsError::LabelTooLong);
        }
        let n = domain.unicode_len();
        if n > BUF_SIZE || buffer.pos > BUF_SIZE || buffer.pos + n + 16 > BUF_SIZE {
            return Err(DnsError::EndOfBuffer);
        }
        let ghost b0 = buffer.buf@;
        let ghost start = buffer.pos as int;
        match Self::write_prefix(buffer, domain, 1, ttl) {
            Ok(_) => {}
            Err(e) => {
                proof {
                    assert(false);
                }
                return Err(e);
            }
        }
        match buffer.write_u16(4) {
            Ok(_) => {}
            Err(_) => {
                proof {
                    assert(false);
                }
                return Err(DnsError::EndOfBuffer);
            }
        }
        match buffer.write(addr.o0) {
            Ok(_) => {}
            Err(_) => {
                proof {
                    assert(false);
                }
                return Err(DnsError::EndOfBuffer);
            }
        }
        match buffer.write(addr.o1) {
            Ok(_) => {}
            Err(_) => {
                proof {
                    assert(false);
                }
                return Err(DnsError::EndOfBuffer);
            }
        }
        match buffer.write(addr.o2) {
            Ok(_) => {}
            Err(_) => {
                proof {
                    assert(false);
                }
                return Err(DnsError::EndOfBuffer);
            }
        }
        match buffer.write(addr.o3) {
            Ok(_) => {}
            Err(_) => {
                proof {
                    assert(false);
                }
                return Err(DnsError::EndOfBuffer);
            }
        }
        proof {
            let v = RecordView::A { domain: domain@, addr, ttl };
            let w4 = name_wire(domain@) + be16(1) + be16(1) + be32(ttl);
            lemma_splice_concat(b0, start, w4, be16(4));
            let w5 = w4 + be16(4);
            assert(buffer.buf@ =~= splice(b0, start, w5 + seq![addr.o0, addr.o1, addr.o2, addr.o3]));
            assert(w5 + seq![addr.o0, addr.o1, addr.o2, addr.o3] =~= record_wire(v));
        }
        Ok(n + 16)
    }

    /// Encode an NS or CNAME record, back-patching the payload length after
    /// the host name is written; all or nothing.
    #[verifier::rlimit(60)]
    #[verifier::spinoff_prover]
    fn write_host(buffer: &mut BytePacketBuffer, domain: &String, host: &String, ttl: u32, qnum:
        u16) -> (r: Result<usize, DnsError>)
        requires
            old(buffer).wf(),
        ensures
            final(buffer).wf(),
            !name_ok(domain@) || !name_ok(host@) ==> r == Err::<usize, DnsError>(
                DnsError::LabelTooLong,
            ) && *final(buffer) == *old(buffer),
            name_ok(domain@) && name_ok(host@) && old(buffer).pos + domain@.len() + host@.len()
                + 14 > BUF_SIZE ==> r == Err::<usize, DnsError>(DnsError::EndOfBuffer)
                && *final(buffer) == *old(buffer),
            name_ok(domain@) && name_ok(host@) && old(buffer).pos + domain@.len() + host@.len()
                + 14 <= BUF_SIZE ==> (r matches Ok(sz) && sz == domain@.len() + host@.len() + 14
                && final(buffer).buf@ == splice(
                old(buffer).buf@,
                old(buffer).pos as int,
                host_record_wire(domain@, host@, ttl, qnum),
            ) && final(buffer).pos == old(buffer).pos + domain@.len() + host@.len() + 14),
    {
        proof {
            lemma_name_wire_len(domain@);
            lemma_name_wire_len(host@);
        }
        if !check_name(domain.as_str()) {
            return Err(DnsError::LabelTooLong);
        }
        if !check_name(host.as_str()) {
            return Err(DnsError::LabelTooLong);
        }
        let n1 = domain.unicode_len();
        let n2 = host.unicode_len();
        if n1 > BUF_SIZE || n2 > BUF_SIZE || buffer.pos > BUF_SIZE || buffer.pos + n1 + n2 + 14
            > BUF_SIZE {
            return Err(DnsError::EndOfBuffer);
        }
        let ghost b0 = buffer.buf@;
        let ghost start = buffer.pos as int;
        match Self::write_prefix(buffer, domain, qnum, ttl) {
            Ok(_) => {}
            Err(e) => {
                proof {
                    assert(false);
                }
                return Err(e);
            }
        }
        let pos_len = buffer.pos();
        match buffer.write_u16(0) {
            Ok(_) => {}
            Err(_) => {
                proof {
                    assert(false);
                }
                return Err(DnsError::EndOfBuffer);
            }
        }
        match buffer.write_qname(host.as_str()) {
            Ok(_) => {}
            Err(_) => {
                proof {
                    assert(false);
                }
                return Err(DnsError::EndOfBuffer);
            }
        }
        let size = buffer.pos() - (pos_len + 2);
        match buffer.set_u16(pos_len, size as u16) {
            Ok(_) => {}
            Err(_) => {
                proof {
                    assert(false);
                }
                return Err(DnsError::EndOfBuffer);
            }
        }
        proof {
            let w4 = name_wire(domain@) + be16(qnum) + be16(1) + be32(ttl);
            lemma_splice_concat(b0, start, w4, be16(0));
            let w5 = w4 + be16(0);
            lemma_splice_concat(b0, start, w5, name_wire(host@));
            let w6 = w5 + name_wire(host@);
            let k = n1 + 10;
            lemma_splice_within(b0, start, w6, k as int, be16(size as u16));
            assert(splice(w6, k as int, be16(size as u16)) =~= host_record_wire(
                domain@,
                host@,
                ttl,
                qnum,
            ));
            assert(buffer.buf@ =~= splice(b0, start, host_record_wire(domain@, host@, ttl, qnum)));
        }
        Ok(n1 + n2 + 14)
    }
}

impl DnsRecord {
    /// Encode an MX record: priority then mail-exchange host, with the
    /// payload length back-patched; all or nothing.
    #[verifier::rlimit(60)]
    #[verifier::spinoff_prover]
    fn write_mx(
        buffer: &mut BytePacketBuffer,
        domain: &String,
        priority: u16,
        host: &String,
        ttl: u32,
    ) -> (r: Result<usize, DnsError>)
        requires
            old(buffer).wf(),
        ensures
            final(buffer).wf(),
            ({
                let v = RecordView::MX { domain: domain@, priority, host: host@, ttl };
                &&& (!name_ok(domain@) || !name_ok(host@) ==> r == Err::<usize, DnsError>(
                    DnsError::LabelTooLong,
                ) && *final(buffer) == *old(buffer))
                &&& (name_ok(domain@) && name_ok(host@) && old(buffer).pos + record_wire(v).len()
                    > BUF_SIZE ==> r == Err::<usize, DnsError>(DnsError::EndOfBuffer)
                    && *final(buffer) == *old(buffer))
                &&& (name_ok(domain@) && name_ok(host@) && old(buffer).pos + record_wire(v).len()
                    <= BUF_SIZE ==> (r matches Ok(sz) && sz == record_wire(v).len()
                    && final(buffer).buf@ == splice(
                    old(buffer).buf@,
                    old(buffer).pos as int,
                    record_wire(v),
                ) && final(buffer).pos == old(buffer).pos + record_wire(v).len()))
            }),
    {
        proof {
            lemma_name_wire_len(domain@);
            lemma_name_wire_len(host@);
        }
        if !check_name(domain.as_str()) {
            return Err(DnsError::LabelTooLong);
        }
        if !check_name(host.as_str()) {
            return Err(DnsError::LabelTooLong);
        }
        let n1 = domain.unicode_len();
        let n2 = host.unicode_len();
        if n1 > BUF_SIZE || n2 > BUF_SIZE || buffer.pos > BUF_SIZE || buffer.pos + n1 + n2 + 16
            > BUF_SIZE {
            return Err(DnsError::EndOfBuffer);
        }
        let ghost b0 = buffer.buf@;
        let ghost start = buffer.pos as int;
        match Self::write_prefix(buffer, domain, 15, ttl) {
            Ok(_) => {}
            Err(e) => {
                proof {
                    assert(false);
                }
                return Err(e);
            }
        }
        let pos_len = buffer.pos();
        match buffer.write_u16(0) {
            Ok(_) => {}
            Err(_) => {
                proof {
                    assert(false);
                }
                return Err(DnsError::EndOfBuffer);
            }
        }
        match buffer.write_u16(priority) {
            Ok(_) => {}
            Err(_) => {
                proof {
                    assert(false);
                }
                return Err(DnsError::EndOfBuffer);
            }
        }
        match buffer.write_qname(host.as_str()) {
            Ok(_) => {}
            Err(_) => {
                proof {
                    assert(false);
                }
                return Err(DnsError::EndOfBuffer);
            }
        }
        let size = buffer.pos() - (pos_len + 2);
        match buffer.set_u16(pos_len, size as u16) {
            Ok(_) => {}
            Err(_) => {
                proof {
                    assert(false);
                }
                return Err(DnsError::EndOfBuffer);
            }
        }
        proof {
            let v = RecordView::MX { domain: domain@, priority, host: host@, ttl };
            let w4 = name_wire(domain@) + be16(15) + be16(1) + be32(ttl);
            lemma_splice_concat(b0, start, w4, be16(0));
            let w5 = w4 + be16(0);
            lemma_splice_concat(b0, start, w5, be16(priority));
            let w6 = w5 + be16(priority);
            lemma_splice_concat(b0, start, w6, name_wire(host@));
            let w7 = w6 + name_wire(host@);
            let k = n1 + 10;
            lemma_splice_within(b0, start, w7, k as int, be16(size as u16));
            assert(splice(w7, k as int, be16(size as u16)) =~= record_wire(v));
            assert(buffer.buf@ =~= splice(b0, start, record_wire(v)));
        }
        Ok(n1 + n2 + 16)
    }

    /// Encode an AAAA record; all or nothing.
    #[verifier::rlimit(60)]
    #[verifier::spinoff_prover]
    fn write_aaaa(buffer: &mut BytePacketBuffer, domain: &String, addr: Ipv6Address, ttl: u32) -> (r:
        Result<usize, DnsError>)
        requires
            old(buffer).wf(),
        ensures
            final(buffer).wf(),
            ({
                let v = RecordView::AAAA { domain: domain@, addr, ttl };
                &&& (!name_ok(domain@) ==> r == Err::<usize, DnsError>(DnsError::LabelTooLong)
                    && *final(buffer) == *old(buffer))
                &&& (name_ok(domain@) && old(buffer).pos + record_wire(v).len() > BUF_SIZE ==> r
                    == Err::<usize, DnsError>(DnsError::EndOfBuffer)
                    && *final(buffer) == *old(buffer))
                &&& (name_ok(domain@) && old(buffer).pos + record_wire(v).len() <= BUF_SIZE ==> (r
                    matches Ok(sz) && sz == record_wire(v).len() && final(buffer).buf@ == splice(
                    old(buffer).buf@,
                    old(buffer).pos as int,
                    record_wire(v),
                ) && final(buffer).pos == old(buffer).pos + record_wire(v).len()))
            }),
    {
        proof {
            lemma_name_wire_len(domain@);
        }
        if !check_name(domain.as_str()) {
            return Err(DnsError::LabelTooLong);
        }
        let n = domain.unicode_len();
        if n > BUF_SIZE || buffer.pos > BUF_SIZE || buffer.pos + n + 28 > BUF_SIZE {
            return Err(DnsError::EndOfBuffer);
        }
        let ghost b0 = buffer.buf@;
        let ghost start = buffer.pos as int;
        match Self::write_prefix(buffer, domain, 28, ttl) {
            Ok(_) => {}
            Err(e) => {
                proof {
                    assert(false);
                }
                return Err(e);
            }
        }
        match buffer.write_u16(16) {
            Ok(_) => {}
            Err(_) => {
                proof {
                    assert(false);
                }
                return Err(DnsError::EndOfBuffer);
            }
        }
        let ghost mut w = name_wire(domain@) + be16(28) + be16(1) + be32(ttl) + be16(16);
        proof {
            lemma_splice_concat(
                b0,
                start,
                name_wire(domain@) + be16(28) + be16(1) + be32(ttl),
                be16(16),
            );
        }
        match buffer.write_u16(addr.s0) {
            Ok(_) => {}
            Err(_) => {
                proof {
                    assert(false);
                }
                return Err(DnsError::EndOfBuffer);
            }
        }
        proof {
            lemma_splice_concat(b0, start, w, be16(addr.s0));
            w = w + be16(addr.s0);
        }
        match buffer.write_u16(addr.s1) {
            Ok(_) => {}
            Err(_) => {
                proof {
                    assert(false);
                }
                return Err(DnsError::EndOfBuffer);
            }
        }
        proof {
            lemma_splice_concat(b0, start, w, be16(addr.s1));
            w = w + be16(addr.s1);
        }
        match buffer.write_u16(addr.s2) {
            Ok(_) => {}
            Err(_) => {
                proof {
                    assert(false);
                }
                return Err(DnsError::EndOfBuffer);
            }
        }
        proof {
            lemma_splice_concat(b0, start, w, be16(addr.s2));
            w = w + be16(addr.s2);
        }
        match buffer.write_u16(addr.s3) {
            Ok(_) => {}
            Err(_) => {
                proof {
                    assert(false);
                }
                return Err(DnsError::EndOfBuffer);
            }
        }
        proof {
            lemma_splice_concat(b0, start, w, be16(addr.s3));
            w = w + be16(addr.s3);
        }
        match buffer.write_u16(addr.s4) {
            Ok(_) => {}
            Err(_) => {
                proof {
                    assert(false);
                }
                return Err(DnsError::EndOfBuffer);
            }
        }
        proof {
            lemma_splice_concat(b0, start, w, be16(addr.s4));
            w = w + be16(addr.s4);
        }
        match buffer.write_u16(addr.s5) {
            Ok(_) => {}
            Err(_) => {
                proof {
                    assert(false);
                }
                return Err(DnsError::EndOfBuffer);
            }
        }
        proof {
            lemma_splice_concat(b0, start, w, be16(addr.s5));
            w = w + be16(addr.s5);
        }
        match buffer.write_u16(addr.s6) {
            Ok(_) => {}
            Err(_) => {
                proof {
                    assert(false);
                }
                return Err(DnsError::EndOfBuffer);
            }
        }
        proof {
            lemma_splice_concat(b0, start, w, be16(addr.s6));
            w = w + be16(addr.s6);
        }
        match buffer.write_u16(addr.s7) {
            Ok(_) => {}
            Err(_) => {
                proof {
                    assert(false);
                }
                return Err(DnsError::EndOfBuffer);
            }
        }
        proof {
            lemma_splice_concat(b0, start, w, be16(addr.s7));
            w = w + be16(addr.s7);
        }
        proof {
            let v = RecordView::AAAA { domain: domain@, addr, ttl };
            assert(w =~= record_wire(v));
            assert(buffer.buf@ == splice(b0, start, record_wire(v)));
        }
        Ok(n + 28)
    }
}

impl DnsRecord {
    /// Encode this record at the cursor and return how many bytes were
    /// written; an `UNKNOWN` record is silently dropped (its payload was
    /// not retained), every other variant is written whole or not at all.
    pub fn write(&self, buffer: &mut BytePacketBuffer) -> (r: Result<usize, DnsError>)
        requires
            old(buffer).wf(),
        ensures
            final(buffer).wf(),
            self@ is UNKNOWN ==> r == Ok::<usize, DnsError>(0) && *final(buffer) == *old(buffer),
            !(self@ is UNKNOWN) && !record_names_ok(self@) ==> r == Err::<usize, DnsError>(
                DnsError::LabelTooLong,
            ) && *final(buffer) == *old(buffer),
            !(self@ is UNKNOWN) && record_names_ok(self@) && old(buffer).pos + record_wire(
                self@,
            ).len() > BUF_SIZE ==> r == Err::<usize, DnsError>(DnsError::EndOfBuffer)
                && *final(buffer) == *old(buffer),
            !(self@ is UNKNOWN) && record_names_ok(self@) && old(buffer).pos + record_wire(
                self@,
            ).len() <= BUF_SIZE ==> (r matches Ok(sz) && sz == record_wire(self@).len()
                && final(buffer).buf@ == splice(
                old(buffer).buf@,
                old(buffer).pos as int,
                record_wire(self@),
            ) && final(buffer).pos == old(buffer).pos + record_wire(self@).len()),
    {
        match self {
            DnsRecord::UNKNOWN { .. } => Ok(0),
            DnsRecord::A { domain, addr, ttl } => Self::write_a(buffer, domain, *addr, *ttl),
            DnsRecord::NS { domain, host, ttl } => {
                let r = Self::write_host(buffer, domain, host, *ttl, 2);
                proof {
                    lemma_name_wire_len(domain@);
                    lemma_name_wire_len(host@);
                    assert(host_record_wire(domain@, host@, *ttl, 2) =~= record_wire(self@));
                }
                r
            }
            DnsRecord::CNAME { domain, host, ttl } => {
                let r = Self::write_host(buffer, domain, host, *ttl, 5);
                proof {
                    lemma_name_wire_len(domain@);
                    lemma_name_wire_len(host@);
                    assert(host_record_wire(domain@, host@, *ttl, 5) =~= record_wire(self@));
                }
                r
            }
            DnsRecord::MX { domain, priority, host, ttl } => Self::write_mx(
                buffer,
                domain,
                *priority,
                host,
                *ttl,
            ),
            DnsRecord::AAAA { domain, addr, ttl } => Self::write_aaaa(buffer, domain, *addr, *ttl),
        }
    }
}

} // verus!
