//! The DNS packet aggregate: header, question section, and the three
//! record sections, with whole-message decode and encode.

use vstd::prelude::*;

use crate::buffer::{splice, BytePacketBuffer, BUF_SIZE};
use crate::errors::DnsError;
use crate::header::{empty_header, header_bytes, parse_header, DnsHeader};
use crate::name::name_ok;
use crate::question::{
    parse_question, question_wire, DnsQuestion, QueryType, QuestionView,
};
use crate::record::{
    parse_record, record_names_ok, record_wire, DnsRecord, RecordView,
};

verus! {

/// The mathematical value of a packet.
#[verifier::ext_equal]
pub struct PacketView {
    pub header: DnsHeader,
    pub questions: Seq<QuestionView>,
    pub answers: Seq<RecordView>,
    pub authorities: Seq<RecordView>,
    pub resources: Seq<RecordView>,
}

/// The views of a sequence of questions.
pub open spec fn question_views(v: Seq<DnsQuestion>) -> Seq<QuestionView> {
    v.map_values(|q: DnsQuestion| q@)
}

/// The views of a sequence of records.
pub open spec fn record_views(v: Seq<DnsRecord>) -> Seq<RecordView> {
    v.map_values(|r: DnsRecord| r@)
}

/// A whole DNS message: one header, then the question, answer, authority
/// and additional sections in wire order.
#[derive(Debug, Clone)]
pub struct DnsPacket {
    pub header: DnsHeader,
    pub questions: Vec<DnsQuestion>,
    pub answers: Vec<DnsRecord>,
    pub authorities: Vec<DnsRecord>,
    pub resources: Vec<DnsRecord>,
}

impl View for DnsPacket {
    type V = PacketView;

    open spec fn view(&self) -> PacketView {
        PacketView {
            header: self.header,
            questions: question_views(self.questions@),
            answers: record_views(self.answers@),
            authorities: record_views(self.authorities@),
            resources: record_views(self.resources@),
        }
    }
}

/// `n` questions decoded one after another from `b` starting at `p`.
pub open spec fn parse_questions(b: Seq<u8>, p: int, n: int) -> Result<
    (Seq<QuestionView>, int),
    DnsError,
>
    decreases n,
{
    if n <= 0 {
        Ok((Seq::empty(), p))
    } else {
        match parse_question(b, p) {
            Err(e) => Err(e),
            Ok((q, p2)) => match parse_questions(b, p2, n - 1) {
                Err(e) => Err(e),
                Ok((qs, end)) => Ok((seq![q] + qs, end)),
            },
        }
    }
}

/// `n` records decoded one after another from `b` starting at `p`.
pub open spec fn parse_records(b: Seq<u8>, p: int, n: int) -> Result<
    (Seq<RecordView>, int),
    DnsError,
>
    decreases n,
{
    if n <= 0 {
        Ok((Seq::empty(), p))
    } else {
        match parse_record(b, p) {
            Err(e) => Err(e),
            Ok((r, p2)) => match parse_records(b, p2, n - 1) {
                Err(e) => Err(e),
                Ok((rs, end)) => Ok((seq![r] + rs, end)),
            },
        }
    }
}

/// The packet decoded from `b` at `p` and the cursor position after it:
/// the header, then as many entries per section as its counts claim.
pub open spec fn parse_packet(b: Seq<u8>, p: int) -> Result<(PacketView, int), DnsError> {
    if p + 12 > b.len() {
        Err(DnsError::EndOfBuffer)
    } else {
        let h = parse_header(b, p);
        match parse_questions(b, p + 12, h.questions as int) {
            Err(e) => Err(e),
            Ok((qs, p1)) => match parse_records(b, p1, h.answers as int) {
                Err(e) => Err(e),
                Ok((ans, p2)) => match parse_records(b, p2, h.authoritative_entries as int) {
                    Err(e) => Err(e),
                    Ok((auth, p3)) => match parse_records(b, p3, h.resource_entries as int) {
                        Err(e) => Err(e),
                        Ok((res, p4)) => Ok(
                            (
                                PacketView {
                                    header: h,
                                    questions: qs,
                                    answers: ans,
                                    authorities: auth,
                                    resources: res,
                                },
                                p4,
                            ),
                        ),
                    },
                },
            },
        }
    }
}

/// Whether every name in the packet can be encoded.
pub open spec fn packet_names_ok(v: PacketView) -> bool {
    &&& (forall|i: int| 0 <= i < v.questions.len() ==> name_ok(#[trigger] v.questions[i].name))
    &&& (forall|i: int| 0 <= i < v.answers.len() ==> record_names_ok(#[trigger] v.answers[i]))
    &&& (forall|i: int|
        0 <= i < v.authorities.len() ==> record_names_ok(#[trigger] v.authorities[i]))
    &&& (forall|i: int| 0 <= i < v.resources.len() ==> record_names_ok(#[trigger] v.resources[i]))
}

/// The wire bytes of a question section.
pub open spec fn questions_wire(qs: Seq<QuestionView>) -> Seq<u8>
    decreases qs.len(),
{
    if qs.len() == 0 {
        Seq::empty()
    } else {
        question_wire(qs[0]) + questions_wire(qs.skip(1))
    }
}

/// The wire bytes of a record section.
pub open spec fn records_wire(rs: Seq<RecordView>) -> Seq<u8>
    decreases rs.len(),
{
    if rs.len() == 0 {
        Seq::empty()
    } else {
        record_wire(rs[0]) + records_wire(rs.skip(1))
    }
}

/// The wire bytes the encoder produces for a whole packet.
pub open spec fn packet_wire(v: PacketView) -> Seq<u8> {
    header_bytes(v.header) + questions_wire(v.questions) + records_wire(v.answers) + records_wire(
        v.authorities,
    ) + records_wire(v.resources)
}

/// The header of `v` with its section counts recomputed from the sections
/// themselves, as the encoder always does before writing.
pub open spec fn with_recounted_header(v: PacketView) -> PacketView {
    PacketView {
        header: DnsHeader {
            questions: v.questions.len() as u16,
            answers: v.answers.len() as u16,
            authoritative_entries: v.authorities.len() as u16,
            resource_entries: v.resources.len() as u16,
            ..v.header
        },
        ..v
    }
}

impl DnsPacket {
    /// An empty packet: a fresh header and four empty sections.
    pub fn new() -> (r: DnsPacket)
        ensures
            r.header == empty_header(),
            r@.questions.len() == 0,
            r@.answers.len() == 0,
            r@.authorities.len() == 0,
            r@.resources.len() == 0,
    {
        let r = DnsPacket {
            header: DnsHeader::new(),
            questions: Vec::new(),
            answers: Vec::new(),
            authorities: Vec::new(),
            resources: Vec::new(),
        };
        proof {
            assert(r@.questions =~= Seq::<QuestionView>::empty());
            assert(r@.answers =~= Seq::<RecordView>::empty());
            assert(r@.authorities =~= Seq::<RecordView>::empty());
            assert(r@.resources =~= Seq::<RecordView>::empty());
        }
        r
    }

    /// Decode `n` questions at the cursor.
    fn read_questions(buffer: &mut BytePacketBuffer, n: u16) -> (r: Result<
        Vec<DnsQuestion>,
        DnsError,
    >)
        requires
            old(buffer).wf(),
        ensures
            final(buffer).wf(),
            final(buffer).buf@ == old(buffer).buf@,
            ({
                let res = parse_questions(old(buffer).buf@, old(buffer).pos as int, n as int);
                match r {
                    Ok(qs) => res matches Ok((vs, end)) && question_views(qs@) == vs
                        && final(buffer).pos == end,
                    Err(e) => res == Err::<(Seq<QuestionView>, int), DnsError>(e),
                }
            }),
    {
        let ghost b = buffer.buf@;
        let ghost start = buffer.pos as int;
        let mut out: Vec<DnsQuestion> = Vec::new();
        let mut i: u16 = 0;
        proof {
            assert(question_views(out@) =~= Seq::<QuestionView>::empty());
        }
        while i < n
            invariant
                buffer.wf(),
                buffer.buf@ == b,
                b == old(buffer).buf@,
                start == old(buffer).pos,
                i <= n,
                out@.len() == i,
                ({
                    match parse_questions(b, buffer.pos as int, n - i) {
                        Ok((vs, end)) => parse_questions(b, start, n as int) matches Ok((all, e2))
                            && all == question_views(out@) + vs && e2 == end,
                        Err(e) => parse_questions(b, start, n as int) == Err::<
                            (Seq<QuestionView>, int),
                            DnsError,
                        >(e),
                    }
                }),
            decreases n - i,
        {
            let mut question = DnsQuestion { name: String::new(), qtype: QueryType::UNKNOWN(0) };
            let ghost pos0 = buffer.pos as int;
            match question.read(buffer) {
                Ok(_) => {}
                Err(e) => {
                    return Err(e);
                }
            }
            out.push(question);
            i = i + 1;
            proof {
                let (q, p2) = parse_question(b, pos0)->Ok_0;
                if parse_questions(b, p2, n - i) is Ok {
                    let (vs, end) = parse_questions(b, p2, n - i)->Ok_0;
                    assert(question_views(out@) =~= question_views(out@.take(out@.len() - 1)).push(
                        q,
                    ));
                    assert(question_views(out@.take(out@.len() - 1))
                        == question_views(out@).take(out@.len() - 1));
                    assert(question_views(out@) + vs =~= question_views(out@.take(out@.len() - 1))
                        + (seq![q] + vs));
                }
            }
        }
        Ok(out)
    }

    /// Decode `n` records at the cursor.
    fn read_records(buffer: &mut BytePacketBuffer, n: u16) -> (r: Result<Vec<DnsRecord>, DnsError>)
        requires
            old(buffer).wf(),
        ensures
            final(buffer).wf(),
            final(buffer).buf@ == old(buffer).buf@,
            ({
                let res = parse_records(old(buffer).buf@, old(buffer).pos as int, n as int);
                match r {
                    Ok(rs) => res matches Ok((vs, end)) && record_views(rs@) == vs
                        && final(buffer).pos == end,
                    Err(e) => res == Err::<(Seq<RecordView>, int), DnsError>(e),
                }
            }),
    {
        let ghost b = buffer.buf@;
        let ghost start = buffer.pos as int;
        let mut out: Vec<DnsRecord> = Vec::new();
        let mut i: u16 = 0;
        proof {
            assert(record_views(out@) =~= Seq::<RecordView>::empty());
        }
        while i < n
            invariant
                buffer.wf(),
                buffer.buf@ == b,
                b == old(buffer).buf@,
                start == old(buffer).pos,
                i <= n,
                out@.len() == i,
                ({
                    match parse_records(b, buffer.pos as int, n - i) {
                        Ok((vs, end)) => parse_records(b, start, n as int) matches Ok((all, e2))
                            && all == record_views(out@) + vs && e2 == end,
                        Err(e) => parse_records(b, start, n as int) == Err::<
                            (Seq<RecordView>, int),
                            DnsError,
                        >(e),
                    }
                }),
            decreases n - i,
        {
            let ghost pos0 = buffer.pos as int;
            let rec = match DnsRecord::read(buffer) {
                Ok(v) => v,
                Err(e) => {
                    return Err(e);
                }
            };
            out.push(rec);
            i = i + 1;
            proof {
                let (rv, p2) = parse_record(b, pos0)->Ok_0;
                if parse_records(b, p2, n - i) is Ok {
                    let (vs, end) = parse_records(b, p2, n - i)->Ok_0;
                    assert(record_views(out@) =~= record_views(out@.take(out@.len() - 1)).push(rv));
                    assert(record_views(out@.take(out@.len() - 1)) == record_views(out@).take(
                        out@.len() - 1,
                    ));
                    assert(record_views(out@) + vs =~= record_views(out@.take(out@.len() - 1)) + (
                    seq![rv] + vs));
                }
            }
        }
        Ok(out)
    }

    /// Decode a whole packet at the cursor: the header, then exactly as
    /// many questions and records as the header's counts claim.
    pub fn from_buffer(buffer: &mut BytePacketBuffer) -> (r: Result<DnsPacket, DnsError>)
        requires
            old(buffer).wf(),
        ensures
            final(buffer).wf(),
            final(buffer).buf@ == old(buffer).buf@,
            ({
                let res = parse_packet(old(buffer).buf@, old(buffer).pos as int);
                match r {
                    Ok(p) => res matches Ok((v, end)) && p@ == v && final(buffer).pos == end,
                    Err(e) => res == Err::<(PacketView, int), DnsError>(e),
                }
            }),
    {
        let mut result = DnsPacket::new();
        if buffer.pos > BUF_SIZE - 12 {
            return Err(DnsError::EndOfBuffer);
        }
        match result.header.read(buffer) {
            Ok(_) => {}
            Err(e) => {
                proof {
                    assert(false);
                }
                return Err(e);
            }
        }
        result.questions = match Self::read_questions(buffer, result.header.questions) {
            Ok(v) => v,
            Err(e) => {
                return Err(e);
            }
        };
        result.answers = match Self::read_records(buffer, result.header.answers) {
            Ok(v) => v,
            Err(e) => {
                return Err(e);
            }
        };
        result.authorities = match Self::read_records(buffer, result.header.authoritative_entries) {
            Ok(v) => v,
            Err(e) => {
                return Err(e);
            }
        };
        result.resources = match Self::read_records(buffer, result.header.resource_entries) {
            Ok(v) => v,
            Err(e) => {
                return Err(e);
            }
        };
        Ok(result)
    }
}

impl DnsPacket {
    /// Whether every name in one record can be encoded.
    fn record_ok(rec: &DnsRecord) -> (ok: bool)
        ensures
            ok == record_names_ok(rec@),
    {
        match rec {
            DnsRecord::UNKNOWN { .. } => true,
            DnsRecord::A { domain, .. } => crate::name::check_name(domain.as_str()),
            DnsRecord::NS { domain, host, .. } => crate::name::check_name(domain.as_str())
                && crate::name::check_name(host.as_str()),
            DnsRecord::CNAME { domain, host, .. } => crate::name::check_name(domain.as_str())
                && crate::name::check_name(host.as_str()),
            DnsRecord::MX { domain, host, .. } => crate::name::check_name(domain.as_str())
                && crate::name::check_name(host.as_str()),
            DnsRecord::AAAA { domain, .. } => crate::name::check_name(domain.as_str()),
        }
    }

    /// Whether every name in a record section can be encoded.
    fn records_ok(recs: &Vec<DnsRecord>) -> (ok: bool)
        ensures
            ok == (forall|i: int|
                0 <= i < recs@.len() ==> record_names_ok(#[trigger] record_views(recs@)[i])),
    {
        let mut i: usize = 0;
        while i < recs.len()
            invariant
                i <= recs@.len(),
                forall|j: int| 0 <= j < i ==> record_names_ok(#[trigger] record_views(recs@)[j]),
            decreases recs@.len() - i,
        {
            if !Self::record_ok(&recs[i]) {
                proof {
                    assert(record_views(recs@)[i as int] == recs@[i as int]@);
                }
                return false;
            }
            i = i + 1;
        }
        true
    }

    /// Whether every name anywhere in this packet can be encoded.
    fn all_names_ok(&self) -> (ok: bool)
        ensures
            ok == packet_names_ok(self@),
    {
        let mut i: usize = 0;
        while i < self.questions.len()
            invariant
                i <= self.questions@.len(),
                forall|j: int|
                    0 <= j < i ==> name_ok(#[trigger] question_views(self.questions@)[j].name),
            decreases self.questions@.len() - i,
        {
            if !crate::name::check_name(self.questions[i].name.as_str()) {
                proof {
                    assert(question_views(self.questions@)[i as int] == self.questions@[
                        i as int]@);
                    assert(!name_ok(self@.questions[i as int].name));
                }
                return false;
            }
            i = i + 1;
        }
        if !Self::records_ok(&self.answers) {
            proof {
                let k = choose|k: int|
                    0 <= k < self.answers@.len() && !record_names_ok(
                        #[trigger] record_views(self.answers@)[k],
                    );
                assert(!record_names_ok(self@.answers[k]));
            }
            return false;
        }
        if !Self::records_ok(&self.authorities) {
            proof {
                let k = choose|k: int|
                    0 <= k < self.authorities@.len() && !record_names_ok(
                        #[trigger] record_views(self.authorities@)[k],
                    );
                assert(!record_names_ok(self@.authorities[k]));
            }
            return false;
        }
        if !Self::records_ok(&self.resources) {
            proof {
                let k = choose|k: int|
                    0 <= k < self.resources@.len() && !record_names_ok(
                        #[trigger] record_views(self.resources@)[k],
                    );
                assert(!record_names_ok(self@.resources[k]));
            }
            return false;
        }
        true
    }

    /// Encode a question section at the cursor; fails with `EndOfBuffer`
    /// exactly when it does not fit.
    fn write_questions(buffer: &mut BytePacketBuffer, qs: &Vec<DnsQuestion>) -> (r: Result<
        (),
        DnsError,
    >)
        requires
            old(buffer).wf(),
            old(buffer).pos <= BUF_SIZE,
            forall|i: int| 0 <= i < qs@.len() ==> name_ok(#[trigger] question_views(qs@)[i].name),
        ensures
            final(buffer).wf(),
            old(buffer).pos + questions_wire(question_views(qs@)).len() <= BUF_SIZE ==> {
                &&& r is Ok
                &&& final(buffer).buf@ == splice(
                    old(buffer).buf@,
                    old(buffer).pos as int,
                    questions_wire(question_views(qs@)),
                )
                &&& final(buffer).pos == old(buffer).pos + questions_wire(
                    question_views(qs@),
                ).len()
            },
            old(buffer).pos + questions_wire(question_views(qs@)).len() > BUF_SIZE ==> r == Err::<
                (),
                DnsError,
            >(DnsError::EndOfBuffer),
    {
        let ghost b0 = buffer.buf@;
        let ghost start = buffer.pos as int;
        let ghost views = question_views(qs@);
        let ghost mut w: Seq<u8> = Seq::empty();
        proof {
            assert(views.skip(0) =~= views);
            assert(questions_wire(views) =~= w + questions_wire(views.skip(0)));
            assert(splice(b0, start, Seq::<u8>::empty()) =~= b0);
        }
        let mut i: usize = 0;
        while i < qs.len()
            invariant
                buffer.wf(),
                buffer.buf@.len() == BUF_SIZE,
                b0.len() == BUF_SIZE,
                b0 == old(buffer).buf@,
                start == old(buffer).pos,
                views == question_views(qs@),
                forall|k: int| 0 <= k < views.len() ==> name_ok(#[trigger] views[k].name),
                i <= qs@.len(),
                views.len() == qs@.len(),
                questions_wire(views) == w + questions_wire(views.skip(i as int)),
                buffer.buf@ == splice(b0, start, w),
                buffer.pos == start + w.len(),
                buffer.pos <= BUF_SIZE,
            decreases qs@.len() - i,
        {
            proof {
                assert(views.skip(i as int)[0] == views[i as int]);
                assert(views.skip(i as int).skip(1) =~= views.skip(i + 1));
            }
            match qs[i].write(buffer) {
                Ok(_) => {}
                Err(_) => {
                    proof {
                        assert(questions_wire(views).len() >= w.len() + question_wire(
                            views[i as int],
                        ).len());
                    }
                    return Err(DnsError::EndOfBuffer);
                }
            }
            proof {
                crate::buffer::lemma_splice_concat(b0, start, w, question_wire(views[i as int]));
                w = w + question_wire(views[i as int]);
            }
            i = i + 1;
        }
        proof {
            assert(views.skip(qs@.len() as int) =~= Seq::<QuestionView>::empty());
            assert(questions_wire(views) =~= w);
        }
        Ok(())
    }

    /// Encode a record section at the cursor; fails with `EndOfBuffer`
    /// exactly when it does not fit.
    fn write_records(buffer: &mut BytePacketBuffer, recs: &Vec<DnsRecord>) -> (r: Result<
        (),
        DnsError,
    >)
        requires
            old(buffer).wf(),
            old(buffer).pos <= BUF_SIZE,
            forall|i: int|
                0 <= i < recs@.len() ==> record_names_ok(#[trigger] record_views(recs@)[i]),
        ensures
            final(buffer).wf(),
            old(buffer).pos + records_wire(record_views(recs@)).len() <= BUF_SIZE ==> {
                &&& r is Ok
                &&& final(buffer).buf@ == splice(
                    old(buffer).buf@,
                    old(buffer).pos as int,
                    records_wire(record_views(recs@)),
                )
                &&& final(buffer).pos == old(buffer).pos + records_wire(record_views(recs@)).len()
            },
            old(buffer).pos + records_wire(record_views(recs@)).len() > BUF_SIZE ==> r == Err::<
                (),
                DnsError,
            >(DnsError::EndOfBuffer),
    {
        let ghost b0 = buffer.buf@;
        let ghost start = buffer.pos as int;
        let ghost views = record_views(recs@);
        let ghost mut w: Seq<u8> = Seq::empty();
        proof {
            assert(views.skip(0) =~= views);
            assert(records_wire(views) =~= w + records_wire(views.skip(0)));
            assert(splice(b0, start, Seq::<u8>::empty()) =~= b0);
        }
        let mut i: usize = 0;
        while i < recs.len()
            invariant
                buffer.wf(),
                buffer.buf@.len() == BUF_SIZE,
                b0.len() == BUF_SIZE,
                b0 == old(buffer).buf@,
                start == old(buffer).pos,
                views == record_views(recs@),
                forall|k: int| 0 <= k < views.len() ==> record_names_ok(#[trigger] views[k]),
                i <= recs@.len(),
                views.len() == recs@.len(),
                records_wire(views) == w + records_wire(views.skip(i as int)),
                buffer.buf@ == splice(b0, start, w),
                buffer.pos == start + w.len(),
                buffer.pos <= BUF_SIZE,
            decreases recs@.len() - i,
        {
            proof {
                assert(views.skip(i as int)[0] == views[i as int]);
                assert(views.skip(i as int).skip(1) =~= views.skip(i + 1));
            }
            match recs[i].write(buffer) {
                Ok(_) => {}
                Err(_) => {
                    proof {
                        assert(records_wire(views).len() >= w.len() + record_wire(
                            views[i as int],
                        ).len());
                    }
                    return Err(DnsError::EndOfBuffer);
                }
            }
            proof {
                crate::buffer::lemma_splice_concat(b0, start, w, record_wire(views[i as int]));
                w = w + record_wire(views[i as int]);
            }
            i = i + 1;
        }
        proof {
            assert(views.skip(recs@.len() as int) =~= Seq::<RecordView>::empty());
            assert(records_wire(views) =~= w);
        }
        Ok(())
    }

    /// Encode this packet's header and four sections in wire order; the
    /// caller has already recomputed the counts and checked every name.
    #[verifier::rlimit(60)]
    #[verifier::spinoff_prover]
    fn write_sections(&self, buffer: &mut BytePacketBuffer) -> (r: Result<(), DnsError>)
        requires
            old(buffer).wf(),
            packet_names_ok(self@),
            self@.header.questions == self@.questions.len(),
            self@.header.answers == self@.answers.len(),
            self@.header.authoritative_entries == self@.authorities.len(),
            self@.header.resource_entries == self@.resources.len(),
        ensures
            final(buffer).wf(),
            old(buffer).pos + packet_wire(self@).len() <= BUF_SIZE ==> {
                &&& r is Ok
                &&& final(buffer).buf@ == splice(
                    old(buffer).buf@,
                    old(buffer).pos as int,
                    packet_wire(self@),
                )
                &&& final(buffer).pos == old(buffer).pos + packet_wire(self@).len()
            },
            old(buffer).pos + packet_wire(self@).len() > BUF_SIZE ==> r == Err::<(), DnsError>(
                DnsError::EndOfBuffer,
            ),
    {
        let ghost v = self@;
        let ghost b0 = buffer.buf@;
        let ghost start = buffer.pos as int;
        match self.header.write(buffer) {
            Ok(_) => {}
            Err(_) => {
                return Err(DnsError::EndOfBuffer);
            }
        }
        let ghost w1 = header_bytes(v.header);
        match Self::write_questions(buffer, &self.questions) {
            Ok(_) => {}
            Err(_) => {
                return Err(DnsError::EndOfBuffer);
            }
        }
        proof {
            crate::buffer::lemma_splice_concat(b0, start, w1, questions_wire(v.questions));
        }
        let ghost w2 = w1 + questions_wire(v.questions);
        match Self::write_records(buffer, &self.answers) {
            Ok(_) => {}
            Err(_) => {
                return Err(DnsError::EndOfBuffer);
            }
        }
        proof {
            crate::buffer::lemma_splice_concat(b0, start, w2, records_wire(v.answers));
        }
        let ghost w3 = w2 + records_wire(v.answers);
        match Self::write_records(buffer, &self.authorities) {
            Ok(_) => {}
            Err(_) => {
                return Err(DnsError::EndOfBuffer);
            }
        }
        proof {
            crate::buffer::lemma_splice_concat(b0, start, w3, records_wire(v.authorities));
        }
        let ghost w4 = w3 + records_wire(v.authorities);
        match Self::write_records(buffer, &self.resources) {
            Ok(_) => {}
            Err(_) => {
                return Err(DnsError::EndOfBuffer);
            }
        }
        proof {
            crate::buffer::lemma_splice_concat(b0, start, w4, records_wire(v.resources));
            assert(w4 + records_wire(v.resources) =~= packet_wire(v));
        }
        Ok(())
    }

    /// Encode this packet at the cursor: the section counts are recomputed
    /// from the sections themselves, then the header and the four sections
    /// are written in wire order. Fails with `LabelTooLong` (and writes
    /// nothing) when some name cannot be encoded, and with `EndOfBuffer`
    /// when the message does not fit in 512 bytes.
    pub fn write(&mut self, buffer: &mut BytePacketBuffer) -> (r: Result<(), DnsError>)
        requires
            old(buffer).wf(),
            old(self)@.questions.len() <= 0xFFFF,
            old(self)@.answers.len() <= 0xFFFF,
            old(self)@.authorities.len() <= 0xFFFF,
            old(self)@.resources.len() <= 0xFFFF,
        ensures
            final(buffer).wf(),
            final(self)@ == with_recounted_header(old(self)@),
            ({
                let v = with_recounted_header(old(self)@);
                &&& (!packet_names_ok(v) ==> r == Err::<(), DnsError>(DnsError::LabelTooLong)
                    && *final(buffer) == *old(buffer))
                &&& (packet_names_ok(v) && old(buffer).pos + packet_wire(v).len() <= BUF_SIZE
                    ==> {
                    &&& r is Ok
                    &&& final(buffer).buf@ == splice(
                        old(buffer).buf@,
                        old(buffer).pos as int,
                        packet_wire(v),
                    )
                    &&& final(buffer).pos == old(buffer).pos + packet_wire(v).len()
                })
                &&& (packet_names_ok(v) && old(buffer).pos + packet_wire(v).len() > BUF_SIZE ==> r
                    == Err::<(), DnsError>(DnsError::EndOfBuffer))
            }),
    {
        self.header.questions = self.questions.len() as u16;
        self.header.answers = self.answers.len() as u16;
        self.header.authoritative_entries = self.authorities.len() as u16;
        self.header.resource_entries = self.resources.len() as u16;
        let ghost v = with_recounted_header(old(self)@);
        proof {
            assert(self@ == v);
        }
        if !self.all_names_ok() {
            return Err(DnsError::LabelTooLong);
        }
        self.write_sections(buffer)
    }
}

} // verus!
