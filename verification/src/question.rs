//! Query types and the question section entry.

use vstd::prelude::*;

use crate::buffer::{be16, lemma_splice_concat, splice, u16_from, BytePacketBuffer, BUF_SIZE};
use crate::errors::DnsError;
use crate::name::{name_end, name_ok, name_wire, parse_name};

verus! {

/// The record types this resolver models, with an open fallback that keeps
/// the raw 16-bit code of anything else.
#[derive(PartialEq, Eq, Clone, Copy, Debug, Hash, Structural)]
pub enum QueryType {
    UNKNOWN(u16),
    A,
    NS,
    CNAME,
    MX,
    AAAA,
}

/// The wire code of a query type.
pub open spec fn qtype_num(t: QueryType) -> u16 {
    match t {
        QueryType::UNKNOWN(x) => x,
        QueryType::A => 1,
        QueryType::NS => 2,
        QueryType::CNAME => 5,
        QueryType::MX => 15,
        QueryType::AAAA => 28,
    }
}

/// The query type decoded from a wire code.
pub open spec fn qtype_of(num: u16) -> QueryType {
    if num == 1 {
        QueryType::A
    } else if num == 2 {
        QueryType::NS
    } else if num == 5 {
        QueryType::CNAME
    } else if num == 15 {
        QueryType::MX
    } else if num == 28 {
        QueryType::AAAA
    } else {
        QueryType::UNKNOWN(num)
    }
}

impl QueryType {
    /// Decode a query type from its wire code.
    pub fn from_num(num: u16) -> (r: QueryType)
        ensures
            r == qtype_of(num),
    {
        match num {
            1 => QueryType::A,
            2 => QueryType::NS,
            5 => QueryType::CNAME,
            15 => QueryType::MX,
            28 => QueryType::AAAA,
            _ => QueryType::UNKNOWN(num),
        }
    }

    /// The wire code of this query type.
    pub fn to_num(&self) -> (r: u16)
        ensures
            r == qtype_num(*self),
    {
        match *self {
            QueryType::UNKNOWN(x) => x,
            QueryType::A => 1,
            QueryType::NS => 2,
            QueryType::CNAME => 5,
            QueryType::MX => 15,
            QueryType::AAAA => 28,
        }
    }
}

/// The mathematical value of a question: its name's characters and its type.
#[verifier::ext_equal]
pub struct QuestionView {
    pub name: Seq<char>,
    pub qtype: QueryType,
}

/// One entry of the question section: a domain name and a query type (the
/// class is always IN on the wire and is not modeled).
#[derive(Debug, Clone, PartialEq, Eq)]
pub struct DnsQuestion {
    pub name: String,
    pub qtype: QueryType,
}

impl View for DnsQuestion {
    type V = QuestionView;

    open spec fn view(&self) -> QuestionView {
        QuestionView { name: self.name@, qtype: self.qtype }
    }
}

/// The wire bytes of a question: the name, then the type code and class IN.
pub open spec fn question_wire(q: QuestionView) -> Seq<u8> {
    name_wire(q.name) + be16(qtype_num(q.qtype)) + be16(1)
}

/// The question decoded from `b` at `p` and the cursor position after it.
pub open spec fn parse_question(b: Seq<u8>, p: int) -> Result<(QuestionView, int), DnsError> {
    match parse_name(b, p) {
        Err(e) => Err(e),
        Ok(name) => {
            let p2 = name_end(b, p);
            if p2 + 4 > b.len() {
                Err(DnsError::EndOfBuffer)
            } else {
                Ok(
                    (
                        QuestionView { name, qtype: qtype_of(u16_from(b[p2], b[p2 + 1]) as u16) },
                        p2 + 4,
                    ),
                )
            }
        },
    }
}

impl DnsQuestion {
    /// A question for `name` with query type `qtype`.
    pub fn new(name: &str, qtype: QueryType) -> (r: DnsQuestion)
        ensures
            r@.name == name@,
            r@.qtype == qtype,
    {
        DnsQuestion { name: name.to_owned(), qtype }
    }

    /// Decode a question at the cursor: its name is appended to `self.name`
    /// and its type replaces `self.qtype`; the class is read and discarded.
    pub fn read(&mut self, buffer: &mut BytePacketBuffer) -> (r: Result<(), DnsError>)
        requires
            old(buffer).wf(),
        ensures
            final(buffer).wf(),
            final(buffer).buf@ == old(buffer).buf@,
            ({
                let res = parse_question(old(buffer).buf@, old(buffer).pos as int);
                match r {
                    Ok(_) => res matches Ok((q, end)) && final(self)@.name == old(self)@.name
                        + q.name && final(self)@.qtype == q.qtype && final(buffer).pos == end,
                    Err(e) => res == Err::<(QuestionView, int), DnsError>(e),
                }
            }),
    {
        match buffer.read_qname(&mut self.name) {
            Ok(_) => {}
            Err(e) => {
                return Err(e);
            }
        }
        let qnum = match buffer.read_u16() {
            Ok(v) => v,
            Err(e) => {
                return Err(e);
            }
        };
        self.qtype = QueryType::from_num(qnum);
        match buffer.read_u16() {
            Ok(_) => {}
            Err(e) => {
                return Err(e);
            }
        }
        Ok(())
    }

    /// Encode this question at the cursor; all or nothing.
    pub fn write(&self, buffer: &mut BytePacketBuffer) -> (r: Result<(), DnsError>)
        requires
            old(buffer).wf(),
        ensures
            final(buffer).wf(),
            !name_ok(self@.name) ==> r == Err::<(), DnsError>(DnsError::LabelTooLong)
                && *final(buffer) == *old(buffer),
            name_ok(self@.name) && old(buffer).pos + question_wire(self@).len() > BUF_SIZE ==> r
                == Err::<(), DnsError>(DnsError::EndOfBuffer) && *final(buffer) == *old(buffer),
            name_ok(self@.name) && old(buffer).pos + question_wire(self@).len() <= BUF_SIZE ==> {
                &&& r is Ok
                &&& final(buffer).buf@ == splice(
                    old(buffer).buf@,
                    old(buffer).pos as int,
                    question_wire(self@),
                )
                &&& final(buffer).pos == old(buffer).pos + question_wire(self@).len()
            },
    {
        proof {
            crate::name::lemma_name_wire_len(self@.name);
        }
        let n = self.name.unicode_len();
        if n > BUF_SIZE {
            // A name longer than the buffer never fits; decide which error
            // applies without touching the buffer.
            if !crate::name::check_name(self.name.as_str()) {
                return Err(DnsError::LabelTooLong);
            }
            return Err(DnsError::EndOfBuffer);
        }
        if buffer.pos > BUF_SIZE || n + 6 > BUF_SIZE - buffer.pos {
            if !crate::name::check_name(self.name.as_str()) {
                return Err(DnsError::LabelTooLong);
            }
            return Err(DnsError::EndOfBuffer);
        }
        let ghost b0 = buffer.buf@;
        let ghost start = buffer.pos as int;
        match buffer.write_qname(self.name.as_str()) {
            Ok(_) => {}
            Err(e) => {
                return Err(e);
            }
        }
        match buffer.write_u16(self.qtype.to_num()) {
            Ok(_) => {}
            Err(_) => {
                proof {
                    assert(false);
                }
                return Err(DnsError::EndOfBuffer);
            }
        }
        match buffer.write_u16(1) {
            Ok(_) => {}
            Err(_) => {
                proof {
                    assert(false);
                }
                return Err(DnsError::EndOfBuffer);
            }
        }
        proof {
            lemma_splice_concat(b0, start, name_wire(self@.name), be16(qtype_num(self@.qtype)));
            lemma_splice_concat(
                b0,
                start,
                name_wire(self@.name) + be16(qtype_num(self@.qtype)),
                be16(1),
            );
            assert(name_wire(self@.name) + be16(qtype_num(self@.qtype)) + be16(1)
                =~= question_wire(self@));
        }
        Ok(())
    }
}

} // verus!
