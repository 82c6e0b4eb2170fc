//! The DNS message header: transaction id, bit-packed flag bytes, and the
//! four section counts, twelve bytes on the wire.

use vstd::prelude::*;

use crate::buffer::{
    be16, lemma_splice_concat, lemma_u16_from_split, splice, u16_from, BytePacketBuffer, BUF_SIZE,
};
use crate::errors::DnsError;

verus! {

/// The 4-bit response code of a DNS header. Decoding normalizes any value
/// above five to `NOERROR`.
#[derive(Copy, Clone, Debug, PartialEq, Eq, Structural)]
pub enum ResultCode {
    NOERROR,
    FORMERR,
    SERVFAIL,
    NXDOMAIN,
    NOTIMP,
    REFUSED,
}

/// The wire value of a response code.
pub open spec fn rescode_num(rc: ResultCode) -> u8 {
    match rc {
        ResultCode::NOERROR => 0,
        ResultCode::FORMERR => 1,
        ResultCode::SERVFAIL => 2,
        ResultCode::NXDOMAIN => 3,
        ResultCode::NOTIMP => 4,
        ResultCode::REFUSED => 5,
    }
}

/// The response code decoded from a 4-bit wire value: one of the six codes,
/// anything else normalized to `NOERROR`.
pub open spec fn rescode_of(num: u8) -> ResultCode {
    if num == 1 {
        ResultCode::FORMERR
    } else if num == 2 {
        ResultCode::SERVFAIL
    } else if num == 3 {
        ResultCode::NXDOMAIN
    } else if num == 4 {
        ResultCode::NOTIMP
    } else if num == 5 {
        ResultCode::REFUSED
    } else {
        ResultCode::NOERROR
    }
}

impl ResultCode {
    /// Decode a response code from its wire value.
    pub fn from_num(num: u8) -> (r: ResultCode)
        ensures
            r == rescode_of(num),
    {
        match num {
            1 => ResultCode::FORMERR,
            2 => ResultCode::SERVFAIL,
            3 => ResultCode::NXDOMAIN,
            4 => ResultCode::NOTIMP,
            5 => ResultCode::REFUSED,
            _ => ResultCode::NOERROR,
        }
    }

    /// The wire value of this response code.
    pub fn to_num(&self) -> (r: u8)
        ensures
            r == rescode_num(*self),
    {
        match *self {
            ResultCode::NOERROR => 0,
            ResultCode::FORMERR => 1,
            ResultCode::SERVFAIL => 2,
            ResultCode::NXDOMAIN => 3,
            ResultCode::NOTIMP => 4,
            ResultCode::REFUSED => 5,
        }
    }
}

/// The header of a DNS message.
#[derive(Copy, Clone, Debug, PartialEq, Eq, Structural)]
pub struct DnsHeader {
    pub id: u16,
    pub recursion_desired: bool,
    pub truncated_message: bool,
    pub authoritative_answer: bool,
    pub opcode: u8,
    pub response: bool,
    pub rescode: ResultCode,
    pub checking_disabled: bool,
    pub authed_data: bool,
    pub z: bool,
    pub recursion_available: bool,
    pub questions: u16,
    pub answers: u16,
    pub authoritative_entries: u16,
    pub resource_entries: u16,
}

/// The first flag byte: response bit 7, opcode bits 3..=6, authoritative
/// answer bit 2, truncation bit 1, recursion desired bit 0.
pub open spec fn flags_a(h: DnsHeader) -> u8 {
    ((if h.response {
        128int
    } else {
        0int
    }) + (h.opcode % 16) * 8 + (if h.authoritative_answer {
        4int
    } else {
        0int
    }) + (if h.truncated_message {
        2int
    } else {
        0int
    }) + (if h.recursion_desired {
        1int
    } else {
        0int
    })) as u8
}

/// The second flag byte: recursion available bit 7, z bit 6, authenticated
/// data bit 5, checking disabled bit 4, response code bits 0..=3.
pub open spec fn flags_b(h: DnsHeader) -> u8 {
    ((if h.recursion_available {
        128int
    } else {
        0int
    }) + (if h.z {
        64int
    } else {
        0int
    }) + (if h.authed_data {
        32int
    } else {
        0int
    }) + (if h.checking_disabled {
        16int
    } else {
        0int
    }) + rescode_num(h.rescode)) as u8
}

/// The twelve wire bytes of a header.
pub open spec fn header_bytes(h: DnsHeader) -> Seq<u8> {
    be16(h.id) + seq![flags_a(h), flags_b(h)] + be16(h.questions) + be16(h.answers) + be16(
        h.authoritative_entries,
    ) + be16(h.resource_entries)
}

/// The header decoded from the twelve bytes at `p` (callers check bounds).
pub open spec fn parse_header(b: Seq<u8>, p: int) -> DnsHeader {
    DnsHeader {
        id: u16_from(b[p], b[p + 1]) as u16,
        recursion_desired: b[p + 2] % 2 == 1,
        truncated_message: (b[p + 2] / 2) % 2 == 1,
        authoritative_answer: (b[p + 2] / 4) % 2 == 1,
        opcode: ((b[p + 2] / 8) % 16) as u8,
        response: (b[p + 2] / 128) % 2 == 1,
        rescode: rescode_of((b[p + 3] % 16) as u8),
        checking_disabled: (b[p + 3] / 16) % 2 == 1,
        authed_data: (b[p + 3] / 32) % 2 == 1,
        z: (b[p + 3] / 64) % 2 == 1,
        recursion_available: (b[p + 3] / 128) % 2 == 1,
        questions: u16_from(b[p + 4], b[p + 5]) as u16,
        answers: u16_from(b[p + 6], b[p + 7]) as u16,
        authoritative_entries: u16_from(b[p + 8], b[p + 9]) as u16,
        resource_entries: u16_from(b[p + 10], b[p + 11]) as u16,
    }
}

/// The header every message starts from: all fields zero, false, or
/// `NOERROR`.
pub open spec fn empty_header() -> DnsHeader {
    DnsHeader {
        id: 0,
        recursion_desired: false,
        truncated_message: false,
        authoritative_answer: false,
        opcode: 0,
        response: false,
        rescode: ResultCode::NOERROR,
        checking_disabled: false,
        authed_data: false,
        z: false,
        recursion_available: false,
        questions: 0,
        answers: 0,
        authoritative_entries: 0,
        resource_entries: 0,
    }
}

impl DnsHeader {
    /// Pack the first flag byte.
    fn flag_byte_a(&self) -> (a: u8)
        ensures
            a == flags_a(*self),
    {
        (if self.response {
            128
        } else {
            0
        }) + (self.opcode % 16) * 8 + (if self.authoritative_answer {
            4
        } else {
            0
        }) + (if self.truncated_message {
            2
        } else {
            0
        }) + (if self.recursion_desired {
            1
        } else {
            0
        })
    }

    /// Pack the second flag byte.
    fn flag_byte_b(&self) -> (b: u8)
        ensures
            b == flags_b(*self),
    {
        (if self.recursion_available {
            128
        } else {
            0
        }) + (if self.z {
            64
        } else {
            0
        }) + (if self.authed_data {
            32
        } else {
            0
        }) + (if self.checking_disabled {
            16
        } else {
            0
        }) + self.rescode.to_num()
    }
}

impl DnsHeader {
    /// A header with every field zero, false, or `NOERROR`.
    pub fn new() -> (r: DnsHeader)
        ensures
            r == empty_header(),
    {
        DnsHeader {
            id: 0,
            recursion_desired: false,
            truncated_message: false,
            authoritative_answer: false,
            opcode: 0,
            response: false,
            rescode: ResultCode::NOERROR,
            checking_disabled: false,
            authed_data: false,
            z: false,
            recursion_available: false,
            questions: 0,
            answers: 0,
            authoritative_entries: 0,
            resource_entries: 0,
        }
    }

    /// Decode the twelve header bytes at the cursor into `self`; all or
    /// nothing.
    pub fn read(&mut self, buffer: &mut BytePacketBuffer) -> (r: Result<(), DnsError>)
        requires
            old(buffer).wf(),
        ensures
            final(buffer).wf(),
            final(buffer).buf@ == old(buffer).buf@,
            old(buffer).pos + 12 <= BUF_SIZE ==> {
                &&& r is Ok
                &&& *final(self) == parse_header(old(buffer).buf@, old(buffer).pos as int)
                &&& final(buffer).pos == old(buffer).pos + 12
            },
            old(buffer).pos + 12 > BUF_SIZE ==> r == Err::<(), DnsError>(DnsError::EndOfBuffer)
                && *final(buffer) == *old(buffer) && *final(self) == *old(self),
    {
        if buffer.pos > BUF_SIZE - 12 {
            return Err(DnsError::EndOfBuffer);
        }
        let id = match buffer.read_u16() {
            Ok(v) => v,
            Err(e) => {
                return Err(e);
            }
        };
        self.id = id;

        let flags = match buffer.read_u16() {
            Ok(v) => v,
            Err(e) => {
                return Err(e);
            }
        };
        proof {
            lemma_u16_from_split(
                old(buffer).buf@[old(buffer).pos + 2],
                old(buffer).buf@[old(buffer).pos + 3],
            );
        }
        let a = (flags / 256) as u8;
        let b = (flags % 256) as u8;
        self.recursion_desired = a % 2 == 1;
        self.truncated_message = (a / 2) % 2 == 1;
        self.authoritative_answer = (a / 4) % 2 == 1;
        self.opcode = (a / 8) % 16;
        self.response = (a / 128) % 2 == 1;

        self.rescode = ResultCode::from_num(b % 16);
        self.checking_disabled = (b / 16) % 2 == 1;
        self.authed_data = (b / 32) % 2 == 1;
        self.z = (b / 64) % 2 == 1;
        self.recursion_available = (b / 128) % 2 == 1;

        self.questions = match buffer.read_u16() {
            Ok(v) => v,
            Err(e) => {
                return Err(e);
            }
        };
        self.answers = match buffer.read_u16() {
            Ok(v) => v,
            Err(e) => {
                return Err(e);
            }
        };
        self.authoritative_entries = match buffer.read_u16() {
            Ok(v) => v,
            Err(e) => {
                return Err(e);
            }
        };
        self.resource_entries = match buffer.read_u16() {
            Ok(v) => v,
            Err(e) => {
                return Err(e);
            }
        };
        Ok(())
    }

    /// Encode this header as its twelve wire bytes at the cursor; all or
    /// nothing.
    #[verifier::rlimit(60)]
    pub fn write(&self, buffer: &mut BytePacketBuffer) -> (r: Result<(), DnsError>)
        requires
            old(buffer).wf(),
        ensures
            final(buffer).wf(),
            old(buffer).pos + 12 <= BUF_SIZE ==> {
                &&& r is Ok
                &&& final(buffer).buf@ == splice(
                    old(buffer).buf@,
                    old(buffer).pos as int,
                    header_bytes(*self),
                )
                &&& final(buffer).pos == old(buffer).pos + 12
            },
            old(buffer).pos + 12 > BUF_SIZE ==> r == Err::<(), DnsError>(DnsError::EndOfBuffer)
                && *final(buffer) == *old(buffer),
    {
        if buffer.pos > BUF_SIZE - 12 {
            return Err(DnsError::EndOfBuffer);
        }
        let ghost b0 = buffer.buf@;
        let ghost start = buffer.pos as int;

        let a: u8 = self.flag_byte_a();
        let b: u8 = self.flag_byte_b();

        match buffer.write_u16(self.id) {
            Ok(_) => {}
            Err(e) => {
                proof {
                    assert(false);
                }
                return Err(e);
            }
        }
        match buffer.write_u8(a) {
            Ok(_) => {}
            Err(e) => {
                proof {
                    assert(false);
                }
                return Err(e);
            }
        }
        match buffer.write_u8(b) {
            Ok(_) => {}
            Err(e) => {
                proof {
                    assert(false);
                }
                return Err(e);
            }
        }
        proof {
            let w0 = be16(self.id);
            assert(buffer.buf@ =~= splice(b0, start, w0 + seq![flags_a(*self), flags_b(*self)]));
        }
        let ghost w1 = be16(self.id) + seq![flags_a(*self), flags_b(*self)];
        match buffer.write_u16(self.questions) {
            Ok(_) => {}
            Err(e) => {
                proof {
                    assert(false);
                }
                return Err(e);
            }
        }
        match buffer.write_u16(self.answers) {
            Ok(_) => {}
            Err(e) => {
                proof {
                    assert(false);
                }
                return Err(e);
            }
        }
        match buffer.write_u16(self.authoritative_entries) {
            Ok(_) => {}
            Err(e) => {
                proof {
                    assert(false);
                }
                return Err(e);
            }
        }
        match buffer.write_u16(self.resource_entries) {
            Ok(_) => {}
            Err(e) => {
                proof {
                    assert(false);
                }
                return Err(e);
            }
        }
        proof {
            lemma_splice_concat(b0, start, w1, be16(self.questions));
            let w2 = w1 + be16(self.questions);
            lemma_splice_concat(b0, start, w2, be16(self.answers));
            let w3 = w2 + be16(self.answers);
            lemma_splice_concat(b0, start, w3, be16(self.authoritative_entries));
            let w4 = w3 + be16(self.authoritative_entries);
            lemma_splice_concat(b0, start, w4, be16(self.resource_entries));
            let w5 = w4 + be16(self.resource_entries);
            assert(buffer.buf@ =~= splice(b0, start, w5));
            assert(w5 =~= header_bytes(*self));
        }
        Ok(())
    }
}

} // verus!
