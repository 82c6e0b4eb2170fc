//! The encode/decode round trip: a packet built from decodable values,
//! once encoded, decodes back to itself.

use vstd::prelude::*;

use crate::buffer::{be16, be32, lemma_be16_inverse, lemma_be32_inverse};
use crate::header::{
    flags_a, flags_b, header_bytes, parse_header, rescode_num, rescode_of, DnsHeader,
};
use crate::name::{
    char_byte, first_label_len, label_chars, lemma_first_label_len_le, lemma_name_wire_len,
    lower_byte, name_end, name_ok, name_wire, parse_name_rec,
};

verus! {

/// A character that survives the byte round trip unchanged: one wire byte,
/// and already lowercase so the decoder's lowercasing keeps it.
pub open spec fn canonical_char(c: char) -> bool {
    (c as u32) < 256 && !(65 <= c as u32 <= 90)
}

/// A name the codec round-trips exactly: non-empty labels of at most 63
/// canonical characters each. (An empty name or an empty label encodes a
/// stray zero octet that stops the decoder early; an uppercase character
/// comes back lowercased.)
pub open spec fn canonical_name(s: Seq<char>) -> bool
    decreases s.len(),
    via canonical_name_decreases
{
    let l = first_label_len(s);
    &&& 1 <= l <= 63
    &&& (forall|i: int| 0 <= i < l ==> canonical_char(#[trigger] s[i]))
    &&& (l < s.len() ==> canonical_name(s.skip(l + 1 as int)))
}

#[via_fn]
proof fn canonical_name_decreases(s: Seq<char>) {
    lemma_first_label_len_le(s);
}

/// A canonical name is in particular one the encoder accepts.
pub proof fn lemma_canonical_name_ok(s: Seq<char>)
    requires
        canonical_name(s),
    ensures
        name_ok(s),
    decreases s.len(),
{
    lemma_first_label_len_le(s);
    let l = first_label_len(s) as int;
    if l < s.len() {
        lemma_canonical_name_ok(s.skip(l + 1));
    }
}

/// Decoding an encoded canonical name yields the name again, with the
/// cursor just past its terminating zero octet, whatever jump budget is
/// already spent.
pub proof fn lemma_name_round_trip(b: Seq<u8>, pos: int, s: Seq<char>, jumps: int)
    requires
        0 <= pos,
        pos + s.len() + 2 <= b.len(),
        canonical_name(s),
        b.subrange(pos, pos + s.len() + 2) == name_wire(s),
        0 <= jumps <= 5,
    ensures
        parse_name_rec(b, pos, jumps) == Ok::<Seq<char>, crate::errors::DnsError>(s),
        name_end(b, pos) == pos + s.len() + 2,
    decreases s.len(),
{
    lemma_name_wire_len(s);
    lemma_first_label_len_le(s);
    let l = first_label_len(s) as int;
    let w = name_wire(s);
    assert(b[pos] == w[0]);
    assert(w[0] == l as u8);
    assert forall|i: int| 0 <= i < l implies b[pos + 1 + i] == char_byte(s[i]) by {
        assert(w[1 + i] == char_byte(s[i]));
        assert(b[pos + 1 + i] == w[1 + i]);
    }
    assert forall|i: int| 0 <= i < l implies lower_byte(char_byte(s[i])) as char == s[i] by {
        assert(canonical_char(s[i]));
        let c = s[i];
        let x = char_byte(c);
        assert((c as u32) % 256 == c as u32);
        assert(x as u32 == c as u32);
        assert(!(65 <= x <= 90));
        assert(lower_byte(x) == x);
        vstd::utf8::char_u32_cast(c, c as u32);
        assert((c as u32) as char == c);
        assert(x as char == (c as u32) as char);
    }
    if l == s.len() {
        assert(b[pos + 1 + l] == w[1 + l]);
        assert(w[1 + l] == 0u8);
        assert(parse_name_rec(b, pos + 1 + l, jumps) == Ok::<
            Seq<char>,
            crate::errors::DnsError,
        >(Seq::empty()));
        assert(label_chars(b, pos + 1, l) =~= s);
        assert(name_end(b, pos + 1 + l) == pos + 1 + l + 1);
    } else {
        let rest = s.skip(l + 1);
        assert(rest.len() == s.len() - l - 1);
        assert(b.subrange(pos + 1 + l, pos + s.len() + 2) =~= name_wire(rest)) by {
            assert forall|i: int| 0 <= i < rest.len() + 2 implies b[pos + 1 + l + i] == name_wire(
                rest,
            )[i] by {
                assert(b[pos + 1 + l + i] == w[1 + l + i]);
                assert(w[1 + l + i] == name_wire(rest)[i]);
            }
            lemma_name_wire_len(rest);
        }
        lemma_name_round_trip(b, pos + 1 + l, rest, jumps);
        assert(canonical_name(rest));
        assert(rest.len() > 0) by {
            lemma_first_label_len_le(rest);
            assert(first_label_len(rest) >= 1);
        }
        assert(label_chars(b, pos + 1, l) + seq!['.'] + rest =~= s) by {
            assert(s[l] == '.') by {
                crate::name::lemma_first_label_shape(s);
            }
        }
        assert(label_chars(b, pos + 1, l) + (seq!['.'] + rest) =~= label_chars(b, pos + 1, l)
            + seq!['.'] + rest);
        assert(name_end(b, pos) == name_end(b, pos + 1 + l));
    }
}


/// A name whose wire form decodes at all: non-empty labels of at most 63
/// characters, each character one wire byte (its case may be anything).
pub open spec fn decodable_name(s: Seq<char>) -> bool
    decreases s.len(),
    via decodable_name_decreases
{
    let l = first_label_len(s);
    &&& 1 <= l <= 63
    &&& (forall|i: int| 0 <= i < l ==> (#[trigger] s[i] as u32) < 256)
    &&& (l < s.len() ==> decodable_name(s.skip(l + 1 as int)))
}

#[via_fn]
proof fn decodable_name_decreases(s: Seq<char>) {
    lemma_first_label_len_le(s);
}

/// The decoder's lowercasing applied to a whole name, character by
/// character.
pub open spec fn lower_name(s: Seq<char>) -> Seq<char> {
    s.map_values(|c: char| lower_byte(char_byte(c)) as char)
}

/// Name-codec idempotence up to case: decoding an encoded name yields the
/// name again, lowercased, with the cursor just past its terminating zero
/// octet.
pub proof fn lemma_name_decode_lowercases(b: Seq<u8>, pos: int, s: Seq<char>, jumps: int)
    requires
        0 <= pos,
        pos + s.len() + 2 <= b.len(),
        decodable_name(s),
        b.subrange(pos, pos + s.len() + 2) == name_wire(s),
        0 <= jumps <= 5,
    ensures
        parse_name_rec(b, pos, jumps) == Ok::<Seq<char>, crate::errors::DnsError>(lower_name(s)),
        name_end(b, pos) == pos + s.len() + 2,
    decreases s.len(),
{
    lemma_name_wire_len(s);
    lemma_first_label_len_le(s);
    let l = first_label_len(s) as int;
    let w = name_wire(s);
    assert(b[pos] == w[0]);
    assert(w[0] == l as u8);
    assert forall|i: int| 0 <= i < l implies b[pos + 1 + i] == char_byte(s[i]) by {
        assert(w[1 + i] == char_byte(s[i]));
        assert(b[pos + 1 + i] == w[1 + i]);
    }
    if l == s.len() {
        assert(b[pos + 1 + l] == w[1 + l]);
        assert(w[1 + l] == 0u8);
        assert(parse_name_rec(b, pos + 1 + l, jumps) == Ok::<
            Seq<char>,
            crate::errors::DnsError,
        >(Seq::empty()));
        assert(label_chars(b, pos + 1, l) =~= lower_name(s));
        assert(name_end(b, pos + 1 + l) == pos + 1 + l + 1);
    } else {
        let rest = s.skip(l + 1);
        assert(rest.len() == s.len() - l - 1);
        assert(b.subrange(pos + 1 + l, pos + s.len() + 2) =~= name_wire(rest)) by {
            assert forall|i: int| 0 <= i < rest.len() + 2 implies b[pos + 1 + l + i] == name_wire(
                rest,
            )[i] by {
                assert(b[pos + 1 + l + i] == w[1 + l + i]);
                assert(w[1 + l + i] == name_wire(rest)[i]);
            }
            lemma_name_wire_len(rest);
        }
        lemma_name_decode_lowercases(b, pos + 1 + l, rest, jumps);
        assert(decodable_name(rest));
        assert(rest.len() > 0) by {
            lemma_first_label_len_le(rest);
            assert(first_label_len(rest) >= 1);
        }
        assert(lower_name(rest).len() > 0);
        assert(s[l] == '.') by {
            crate::name::lemma_first_label_shape(s);
        }
        assert(lower_byte(char_byte('.')) as char == '.') by {
            assert(('.' as u32) == 46);
            vstd::utf8::char_u32_cast('.', 46);
        }
        assert(label_chars(b, pos + 1, l) + (seq!['.'] + lower_name(rest)) =~= lower_name(s));
        assert(name_end(b, pos) == name_end(b, pos + 1 + l));
    }
}

/// A slice of an already matched write: the bytes of one part stand at
/// their offset inside the whole.
pub proof fn lemma_subrange_part(b: Seq<u8>, p: int, w: Seq<u8>, off: int, part: Seq<u8>)
    requires
        0 <= p,
        p + w.len() <= b.len(),
        b.subrange(p, p + w.len()) == w,
        0 <= off,
        off + part.len() <= w.len(),
        part == w.subrange(off, off + part.len()),
    ensures
        b.subrange(p + off, p + off + part.len()) == part,
{
    assert(b.subrange(p + off, p + off + part.len()) =~= part) by {
        assert forall|i: int| 0 <= i < part.len() implies b[p + off + i] == part[i] by {
            assert(b.subrange(p, p + w.len())[off + i] == w[off + i]);
            assert(w.subrange(off, off + part.len())[i] == w[off + i]);
        }
    }
}

/// A query type whose raw code decodes back to itself: every named type,
/// and an unknown only when its code is not one of the named ones.
pub open spec fn canonical_qtype(t: crate::question::QueryType) -> bool {
    match t {
        crate::question::QueryType::UNKNOWN(x) => crate::question::qtype_of(
            x,
        ) is UNKNOWN,
        _ => true,
    }
}

/// Decoding an encoded query type yields the type again.
pub proof fn lemma_qtype_round_trip(t: crate::question::QueryType)
    requires
        canonical_qtype(t),
    ensures
        crate::question::qtype_of(crate::question::qtype_num(t)) == t,
{
}

/// Decoding an encoded response code yields the code again.
pub proof fn lemma_rescode_round_trip(rc: crate::header::ResultCode)
    ensures
        rescode_of(rescode_num(rc)) == rc,
{
}

/// Decoding the twelve encoded header bytes yields the header again, for
/// any header whose opcode fits its four wire bits.
pub proof fn lemma_header_round_trip(b: Seq<u8>, p: int, h: DnsHeader)
    requires
        0 <= p,
        p + 12 <= b.len(),
        h.opcode < 16,
        b.subrange(p, p + 12) == header_bytes(h),
    ensures
        parse_header(b, p) == h,
{
    let w = header_bytes(h);
    assert forall|i: int| 0 <= i < 12 implies b[p + i] == #[trigger] w[i] by {
        assert(b.subrange(p, p + 12)[i] == w[i]);
    }
    assert(b[p] == w[0] && b[p + 1] == w[1] && b[p + 2] == w[2] && b[p + 3] == w[3] && b[p + 4]
        == w[4] && b[p + 5] == w[5] && b[p + 6] == w[6] && b[p + 7] == w[7] && b[p + 8] == w[8]
        && b[p + 9] == w[9] && b[p + 10] == w[10] && b[p + 11] == w[11]);
    assert(w[0] == be16(h.id)[0] && w[1] == be16(h.id)[1]);
    assert(w[2] == flags_a(h) && w[3] == flags_b(h));
    assert(w[4] == be16(h.questions)[0] && w[5] == be16(h.questions)[1]);
    assert(w[6] == be16(h.answers)[0] && w[7] == be16(h.answers)[1]);
    assert(w[8] == be16(h.authoritative_entries)[0] && w[9] == be16(h.authoritative_entries)[1]);
    assert(w[10] == be16(h.resource_entries)[0] && w[11] == be16(h.resource_entries)[1]);
    lemma_be16_inverse(h.id);
    lemma_be16_inverse(h.questions);
    lemma_be16_inverse(h.answers);
    lemma_be16_inverse(h.authoritative_entries);
    lemma_be16_inverse(h.resource_entries);
    lemma_rescode_round_trip(h.rescode);

    let a = flags_a(h);
    let r: u8 = if h.response {
        1
    } else {
        0
    };
    let o: u8 = h.opcode;
    let aa: u8 = if h.authoritative_answer {
        1
    } else {
        0
    };
    let tc: u8 = if h.truncated_message {
        1
    } else {
        0
    };
    let rd: u8 = if h.recursion_desired {
        1
    } else {
        0
    };
    assert(a as int == 128 * r + 8 * o + 4 * aa + 2 * tc + rd);
    assert(a % 2 == rd && (a / 2) % 2 == tc && (a / 4) % 2 == aa && (a / 8) % 16 == o && (a / 128)
        % 2 == r) by (bit_vector)
        requires
            a as int == 128 * r + 8 * o + 4 * aa + 2 * tc + rd,
            o < 16 && r <= 1 && aa <= 1 && tc <= 1 && rd <= 1,
    ;

    let bb = flags_b(h);
    let ra: u8 = if h.recursion_available {
        1
    } else {
        0
    };
    let z: u8 = if h.z {
        1
    } else {
        0
    };
    let ad: u8 = if h.authed_data {
        1
    } else {
        0
    };
    let cd: u8 = if h.checking_disabled {
        1
    } else {
        0
    };
    let rc: u8 = rescode_num(h.rescode);
    assert(rc < 16);
    assert(bb as int == 128 * ra + 64 * z + 32 * ad + 16 * cd + rc);
    assert(bb % 16 == rc && (bb / 16) % 2 == cd && (bb / 32) % 2 == ad && (bb / 64) % 2 == z && (
    bb / 128) % 2 == ra) by (bit_vector)
        requires
            bb as int == 128 * ra + 64 * z + 32 * ad + 16 * cd + rc,
            rc < 16 && ra <= 1 && z <= 1 && ad <= 1 && cd <= 1,
    ;
    assert(b[p + 2] == a);
    assert(b[p + 3] == bb);
}

/// Decoding an encoded canonical question yields the question again, with
/// the cursor just past its class field.
pub proof fn lemma_question_round_trip(b: Seq<u8>, p: int, q: crate::question::QuestionView)
    requires
        0 <= p,
        p + q.name.len() + 6 <= b.len(),
        canonical_name(q.name),
        canonical_qtype(q.qtype),
        b.subrange(p, p + q.name.len() + 6) == crate::question::question_wire(q),
    ensures
        crate::question::parse_question(b, p) == Ok::<
            (crate::question::QuestionView, int),
            crate::errors::DnsError,
        >((q, p + q.name.len() + 6)),
{
    lemma_name_wire_len(q.name);
    let w = crate::question::question_wire(q);
    let n = q.name.len() as int;
    assert(w.len() == n + 6);
    assert(name_wire(q.name) =~= w.subrange(0, n + 2));
    lemma_subrange_part(b, p, w, 0, name_wire(q.name));
    lemma_name_round_trip(b, p, q.name, 0);
    let p2 = p + n + 2;
    assert forall|i: int| 0 <= i < 4 implies b[p2 + i] == #[trigger] w[n + 2 + i] by {
        assert(b.subrange(p, p + n + 6)[n + 2 + i] == w[n + 2 + i]);
    }
    assert(w[n + 2] == be16(crate::question::qtype_num(q.qtype))[0] && w[n + 3] == be16(
        crate::question::qtype_num(q.qtype),
    )[1]);
    assert(b[p2] == w[n + 2] && b[p2 + 1] == w[n + 3]);
    lemma_be16_inverse(crate::question::qtype_num(q.qtype));
    lemma_qtype_round_trip(q.qtype);
    assert(name_end(b, p) == p + n + 2);
    assert(crate::question::parse_question(b, p) matches Ok((qv, end)) && qv =~~= q && end == p + n
        + 6);
}

/// A record the codec round-trips exactly: canonical names throughout, and
/// not the `UNKNOWN` variant (whose payload the encoder drops).
pub open spec fn canonical_record(r: crate::record::RecordView) -> bool {
    match r {
        crate::record::RecordView::UNKNOWN { .. } => false,
        crate::record::RecordView::A { domain, .. } => canonical_name(domain),
        crate::record::RecordView::NS { domain, host, .. } => canonical_name(domain)
            && canonical_name(host),
        crate::record::RecordView::CNAME { domain, host, .. } => canonical_name(domain)
            && canonical_name(host),
        crate::record::RecordView::MX { domain, host, .. } => canonical_name(domain)
            && canonical_name(host),
        crate::record::RecordView::AAAA { domain, .. } => canonical_name(domain),
    }
}

/// Decoding an encoded canonical record yields the record again, with the
/// cursor just past its payload.
#[verifier::rlimit(100)]
#[verifier::spinoff_prover]
pub proof fn lemma_record_round_trip(b: Seq<u8>, p: int, r: crate::record::RecordView)
    requires
        0 <= p,
        p + crate::record::record_wire(r).len() <= b.len(),
        canonical_record(r),
        b.subrange(p, p + crate::record::record_wire(r).len()) == crate::record::record_wire(r),
    ensures
        crate::record::parse_record(b, p) == Ok::<
            (crate::record::RecordView, int),
            crate::errors::DnsError,
        >((r, p + crate::record::record_wire(r).len())),
{
    let w = crate::record::record_wire(r);
    let domain = match r {
        crate::record::RecordView::UNKNOWN { domain, .. } => domain,
        crate::record::RecordView::A { domain, .. } => domain,
        crate::record::RecordView::NS { domain, .. } => domain,
        crate::record::RecordView::CNAME { domain, .. } => domain,
        crate::record::RecordView::MX { domain, .. } => domain,
        crate::record::RecordView::AAAA { domain, .. } => domain,
    };
    let n = domain.len() as int;
    lemma_name_wire_len(domain);
    assert(name_wire(domain) =~= w.subrange(0, n + 2));
    lemma_subrange_part(b, p, w, 0, name_wire(domain));
    lemma_name_round_trip(b, p, domain, 0);
    assert(name_end(b, p) == p + n + 2);
    let p1 = p + n + 2;
    assert forall|i: int| 0 <= i < w.len() implies b[p + i] == #[trigger] w[i] by {
        assert(b.subrange(p, p + w.len())[i] == w[i]);
    }
    match r {
        crate::record::RecordView::UNKNOWN { .. } => {
        }
        crate::record::RecordView::A { addr, ttl, .. } => {
            assert(w =~= name_wire(domain) + be16(1) + be16(1) + be32(ttl) + be16(4) + seq![
                addr.o0, addr.o1, addr.o2, addr.o3]);
            assert(b[p1] == w[n + 2] && w[n + 2] == be16(1)[0]);
            assert(b[p1 + 1] == w[n + 3] && w[n + 3] == be16(1)[1]);
            assert(b[p1 + 4] == w[n + 6] && w[n + 6] == be32(ttl)[0]);
            assert(b[p1 + 5] == w[n + 7] && w[n + 7] == be32(ttl)[1]);
            assert(b[p1 + 6] == w[n + 8] && w[n + 8] == be32(ttl)[2]);
            assert(b[p1 + 7] == w[n + 9] && w[n + 9] == be32(ttl)[3]);
            lemma_be16_inverse(1);
            lemma_be32_inverse(ttl);
            assert(b[p1 + 10] == w[n + 12] && w[n + 12] == addr.o0);
            assert(b[p1 + 11] == w[n + 13] && w[n + 13] == addr.o1);
            assert(b[p1 + 12] == w[n + 14] && w[n + 14] == addr.o2);
            assert(b[p1 + 13] == w[n + 15] && w[n + 15] == addr.o3);
        }
        crate::record::RecordView::NS { host, ttl, .. } => {
            assert(w =~= name_wire(domain) + be16(2) + be16(1) + be32(ttl) + be16(
                (host.len() + 2) as u16,
            ) + name_wire(host));
            assert(b[p1] == w[n + 2] && w[n + 2] == be16(2)[0]);
            assert(b[p1 + 1] == w[n + 3] && w[n + 3] == be16(2)[1]);
            assert(b[p1 + 4] == w[n + 6] && w[n + 6] == be32(ttl)[0]);
            assert(b[p1 + 5] == w[n + 7] && w[n + 7] == be32(ttl)[1]);
            assert(b[p1 + 6] == w[n + 8] && w[n + 8] == be32(ttl)[2]);
            assert(b[p1 + 7] == w[n + 9] && w[n + 9] == be32(ttl)[3]);
            lemma_be16_inverse(2);
            lemma_be32_inverse(ttl);
            lemma_name_wire_len(host);
            assert(name_wire(host) =~= w.subrange(n + 12, n + 12 + host.len() + 2));
            lemma_subrange_part(b, p, w, n + 12, name_wire(host));
            lemma_name_round_trip(b, p1 + 10, host, 0);
        }
        crate::record::RecordView::CNAME { host, ttl, .. } => {
            assert(w =~= name_wire(domain) + be16(5) + be16(1) + be32(ttl) + be16(
                (host.len() + 2) as u16,
            ) + name_wire(host));
            assert(b[p1] == w[n + 2] && w[n + 2] == be16(5)[0]);
            assert(b[p1 + 1] == w[n + 3] && w[n + 3] == be16(5)[1]);
            assert(b[p1 + 4] == w[n + 6] && w[n + 6] == be32(ttl)[0]);
            assert(b[p1 + 5] == w[n + 7] && w[n + 7] == be32(ttl)[1]);
            assert(b[p1 + 6] == w[n + 8] && w[n + 8] == be32(ttl)[2]);
            assert(b[p1 + 7] == w[n + 9] && w[n + 9] == be32(ttl)[3]);
            lemma_be16_inverse(5);
            lemma_be32_inverse(ttl);
            lemma_name_wire_len(host);
            assert(name_wire(host) =~= w.subrange(n + 12, n + 12 + host.len() + 2));
            lemma_subrange_part(b, p, w, n + 12, name_wire(host));
            lemma_name_round_trip(b, p1 + 10, host, 0);
        }
        crate::record::RecordView::MX { priority, host, ttl, .. } => {
            assert(w =~= name_wire(domain) + be16(15) + be16(1) + be32(ttl) + be16(
                (host.len() + 4) as u16,
            ) + be16(priority) + name_wire(host));
            assert(b[p1] == w[n + 2] && w[n + 2] == be16(15)[0]);
            assert(b[p1 + 1] == w[n + 3] && w[n + 3] == be16(15)[1]);
            assert(b[p1 + 4] == w[n + 6] && w[n + 6] == be32(ttl)[0]);
            assert(b[p1 + 5] == w[n + 7] && w[n + 7] == be32(ttl)[1]);
            assert(b[p1 + 6] == w[n + 8] && w[n + 8] == be32(ttl)[2]);
            assert(b[p1 + 7] == w[n + 9] && w[n + 9] == be32(ttl)[3]);
            assert(b[p1 + 10] == w[n + 12] && w[n + 12] == be16(priority)[0]);
            assert(b[p1 + 11] == w[n + 13] && w[n + 13] == be16(priority)[1]);
            lemma_be16_inverse(15);
            lemma_be16_inverse(priority);
            lemma_be32_inverse(ttl);
            lemma_name_wire_len(host);
            assert(name_wire(host) =~= w.subrange(n + 14, n + 14 + host.len() + 2));
            lemma_subrange_part(b, p, w, n + 14, name_wire(host));
            lemma_name_round_trip(b, p1 + 12, host, 0);
        }
        crate::record::RecordView::AAAA { addr, ttl, .. } => {
            assert(w =~= name_wire(domain) + be16(28) + be16(1) + be32(ttl) + be16(16) + be16(
                addr.s0,
            ) + be16(addr.s1) + be16(addr.s2) + be16(addr.s3) + be16(addr.s4) + be16(addr.s5)
                + be16(addr.s6) + be16(addr.s7));
            assert(b[p1] == w[n + 2] && w[n + 2] == be16(28)[0]);
            assert(b[p1 + 1] == w[n + 3] && w[n + 3] == be16(28)[1]);
            assert(b[p1 + 4] == w[n + 6] && w[n + 6] == be32(ttl)[0]);
            assert(b[p1 + 5] == w[n + 7] && w[n + 7] == be32(ttl)[1]);
            assert(b[p1 + 6] == w[n + 8] && w[n + 8] == be32(ttl)[2]);
            assert(b[p1 + 7] == w[n + 9] && w[n + 9] == be32(ttl)[3]);
            lemma_be16_inverse(28);
            lemma_be32_inverse(ttl);
            assert(b[p1 + 10] == w[n + 12] && w[n + 12] == be16(addr.s0)[0]);
            assert(b[p1 + 11] == w[n + 13] && w[n + 13] == be16(addr.s0)[1]);
            assert(b[p1 + 12] == w[n + 14] && w[n + 14] == be16(addr.s1)[0]);
            assert(b[p1 + 13] == w[n + 15] && w[n + 15] == be16(addr.s1)[1]);
            assert(b[p1 + 14] == w[n + 16] && w[n + 16] == be16(addr.s2)[0]);
            assert(b[p1 + 15] == w[n + 17] && w[n + 17] == be16(addr.s2)[1]);
            assert(b[p1 + 16] == w[n + 18] && w[n + 18] == be16(addr.s3)[0]);
            assert(b[p1 + 17] == w[n + 19] && w[n + 19] == be16(addr.s3)[1]);
            assert(b[p1 + 18] == w[n + 20] && w[n + 20] == be16(addr.s4)[0]);
            assert(b[p1 + 19] == w[n + 21] && w[n + 21] == be16(addr.s4)[1]);
            assert(b[p1 + 20] == w[n + 22] && w[n + 22] == be16(addr.s5)[0]);
            assert(b[p1 + 21] == w[n + 23] && w[n + 23] == be16(addr.s5)[1]);
            assert(b[p1 + 22] == w[n + 24] && w[n + 24] == be16(addr.s6)[0]);
            assert(b[p1 + 23] == w[n + 25] && w[n + 25] == be16(addr.s6)[1]);
            assert(b[p1 + 24] == w[n + 26] && w[n + 26] == be16(addr.s7)[0]);
            assert(b[p1 + 25] == w[n + 27] && w[n + 27] == be16(addr.s7)[1]);
            lemma_be16_inverse(addr.s0);
            lemma_be16_inverse(addr.s1);
            lemma_be16_inverse(addr.s2);
            lemma_be16_inverse(addr.s3);
            lemma_be16_inverse(addr.s4);
            lemma_be16_inverse(addr.s5);
            lemma_be16_inverse(addr.s6);
            lemma_be16_inverse(addr.s7);
        }
    }
    assert(crate::record::parse_record(b, p) matches Ok((rv, end)) && rv =~~= r && end == p
        + w.len());
}

/// A question the codec round-trips exactly.
pub open spec fn canonical_question(q: crate::question::QuestionView) -> bool {
    canonical_name(q.name) && canonical_qtype(q.qtype)
}

/// Decoding an encoded section of canonical questions yields the same
/// questions, with the cursor just past the last one.
pub proof fn lemma_questions_round_trip(b: Seq<u8>, p: int, qs: Seq<crate::question::QuestionView>)
    requires
        0 <= p,
        p + crate::packet::questions_wire(qs).len() <= b.len(),
        forall|i: int| 0 <= i < qs.len() ==> canonical_question(#[trigger] qs[i]),
        b.subrange(p, p + crate::packet::questions_wire(qs).len())
            == crate::packet::questions_wire(qs),
    ensures
        crate::packet::parse_questions(b, p, qs.len() as int) == Ok::<
            (Seq<crate::question::QuestionView>, int),
            crate::errors::DnsError,
        >((qs, p + crate::packet::questions_wire(qs).len())),
    decreases qs.len(),
{
    let w = crate::packet::questions_wire(qs);
    if qs.len() == 0 {
        assert(w =~= Seq::<u8>::empty());
        assert(qs =~= Seq::<crate::question::QuestionView>::empty());
    } else {
        let q0 = qs[0];
        let w0 = crate::question::question_wire(q0);
        lemma_name_wire_len(q0.name);
        assert(w == w0 + crate::packet::questions_wire(qs.skip(1)));
        assert(w0 =~= w.subrange(0, w0.len() as int));
        lemma_subrange_part(b, p, w, 0, w0);
        lemma_question_round_trip(b, p, q0);
        let rest_w = crate::packet::questions_wire(qs.skip(1));
        assert(rest_w =~= w.subrange(w0.len() as int, w.len() as int));
        lemma_subrange_part(b, p, w, w0.len() as int, rest_w);
        assert(forall|i: int| 0 <= i < qs.skip(1).len() ==> canonical_question(
            #[trigger] qs.skip(1)[i],
        ));
        lemma_questions_round_trip(b, p + w0.len(), qs.skip(1));
        assert(seq![q0] + qs.skip(1) =~= qs);
    }
}

/// Decoding an encoded section of canonical records yields the same
/// records, with the cursor just past the last one.
pub proof fn lemma_records_round_trip(b: Seq<u8>, p: int, rs: Seq<crate::record::RecordView>)
    requires
        0 <= p,
        p + crate::packet::records_wire(rs).len() <= b.len(),
        forall|i: int| 0 <= i < rs.len() ==> canonical_record(#[trigger] rs[i]),
        b.subrange(p, p + crate::packet::records_wire(rs).len()) == crate::packet::records_wire(
            rs,
        ),
    ensures
        crate::packet::parse_records(b, p, rs.len() as int) == Ok::<
            (Seq<crate::record::RecordView>, int),
            crate::errors::DnsError,
        >((rs, p + crate::packet::records_wire(rs).len())),
    decreases rs.len(),
{
    let w = crate::packet::records_wire(rs);
    if rs.len() == 0 {
        assert(w =~= Seq::<u8>::empty());
        assert(rs =~= Seq::<crate::record::RecordView>::empty());
    } else {
        let r0 = rs[0];
        let w0 = crate::record::record_wire(r0);
        assert(w == w0 + crate::packet::records_wire(rs.skip(1)));
        assert(w0 =~= w.subrange(0, w0.len() as int));
        lemma_subrange_part(b, p, w, 0, w0);
        lemma_record_round_trip(b, p, r0);
        let rest_w = crate::packet::records_wire(rs.skip(1));
        assert(rest_w =~= w.subrange(w0.len() as int, w.len() as int));
        lemma_subrange_part(b, p, w, w0.len() as int, rest_w);
        assert(forall|i: int| 0 <= i < rs.skip(1).len() ==> canonical_record(
            #[trigger] rs.skip(1)[i],
        ));
        lemma_records_round_trip(b, p + w0.len(), rs.skip(1));
        assert(seq![r0] + rs.skip(1) =~= rs);
    }
}

/// A packet the codec round-trips exactly: canonical questions and records
/// throughout, an opcode that fits its four wire bits, and sections short
/// enough for their 16-bit counts.
pub open spec fn canonical_packet(v: crate::packet::PacketView) -> bool {
    &&& v.header.opcode < 16
    &&& v.questions.len() <= 0xFFFF
    &&& v.answers.len() <= 0xFFFF
    &&& v.authorities.len() <= 0xFFFF
    &&& v.resources.len() <= 0xFFFF
    &&& (forall|i: int| 0 <= i < v.questions.len() ==> canonical_question(#[trigger] v.questions[i]))
    &&& (forall|i: int| 0 <= i < v.answers.len() ==> canonical_record(#[trigger] v.answers[i]))
    &&& (forall|i: int| 0 <= i < v.authorities.len() ==> canonical_record(#[trigger] v.authorities[i]))
    &&& (forall|i: int| 0 <= i < v.resources.len() ==> canonical_record(#[trigger] v.resources[i]))
}

/// Round trip: encoding a canonical packet and decoding the result yields
/// the packet back, header (with its counts as the encoder recomputes
/// them), questions, and all three record sections alike.
#[verifier::rlimit(100)]
#[verifier::spinoff_prover]
pub proof fn lemma_packet_round_trip(b: Seq<u8>, v: crate::packet::PacketView)
    requires
        canonical_packet(v),
        v == crate::packet::with_recounted_header(v),
        crate::packet::packet_wire(v).len() <= b.len(),
        b.subrange(0, crate::packet::packet_wire(v).len() as int) == crate::packet::packet_wire(v),
    ensures
        crate::packet::parse_packet(b, 0) == Ok::<
            (crate::packet::PacketView, int),
            crate::errors::DnsError,
        >((v, crate::packet::packet_wire(v).len() as int)),
{
    let w = crate::packet::packet_wire(v);
    let hw = header_bytes(v.header);
    let qw = crate::packet::questions_wire(v.questions);
    let aw = crate::packet::records_wire(v.answers);
    let uw = crate::packet::records_wire(v.authorities);
    let rw = crate::packet::records_wire(v.resources);
    assert(w == hw + qw + aw + uw + rw);
    assert(hw =~= w.subrange(0, 12));
    lemma_subrange_part(b, 0, w, 0, hw);
    lemma_header_round_trip(b, 0, v.header);
    let p1 = 12;
    assert(qw =~= w.subrange(p1, p1 + qw.len()));
    lemma_subrange_part(b, 0, w, p1, qw);
    lemma_questions_round_trip(b, p1, v.questions);
    assert(v.header.questions as int == v.questions.len() as int);
    let p2 = p1 + qw.len() as int;
    assert(aw =~= w.subrange(p2, p2 + aw.len()));
    lemma_subrange_part(b, 0, w, p2, aw);
    lemma_records_round_trip(b, p2, v.answers);
    assert(v.header.answers as int == v.answers.len() as int);
    let p3 = p2 + aw.len() as int;
    assert(uw =~= w.subrange(p3, p3 + uw.len()));
    lemma_subrange_part(b, 0, w, p3, uw);
    lemma_records_round_trip(b, p3, v.authorities);
    assert(v.header.authoritative_entries as int == v.authorities.len() as int);
    let p4 = p3 + uw.len() as int;
    assert(rw =~= w.subrange(p4, p4 + rw.len()));
    lemma_subrange_part(b, 0, w, p4, rw);
    lemma_records_round_trip(b, p4, v.resources);
    assert(v.header.resource_entries as int == v.resources.len() as int);
    assert(crate::packet::parse_packet(b, 0) matches Ok((pv, end)) && pv =~~= v && end
        == w.len());
}

/// Round trip, as the encoder and decoder actually run: what
/// `DnsPacket::write` lays down for a canonical packet, `from_buffer`
/// decodes back to the packet whose header counts the encoder recomputed.
pub proof fn lemma_encode_then_decode(b: Seq<u8>, v: crate::packet::PacketView)
    requires
        canonical_packet(v),
        crate::packet::packet_wire(crate::packet::with_recounted_header(v)).len() <= b.len(),
        b.subrange(
            0,
            crate::packet::packet_wire(crate::packet::with_recounted_header(v)).len() as int,
        ) == crate::packet::packet_wire(crate::packet::with_recounted_header(v)),
    ensures
        crate::packet::parse_packet(b, 0) == Ok::<
            (crate::packet::PacketView, int),
            crate::errors::DnsError,
        >((
            crate::packet::with_recounted_header(v),
            crate::packet::packet_wire(crate::packet::with_recounted_header(v)).len() as int,
        )),
{
    let rv = crate::packet::with_recounted_header(v);
    assert(canonical_packet(rv));
    assert(rv == crate::packet::with_recounted_header(rv)) by {
        assert(rv.header =~= crate::packet::with_recounted_header(rv).header);
        assert(rv =~= crate::packet::with_recounted_header(rv));
    }
    lemma_packet_round_trip(b, rv);
}

/// Compression-pointer decode: a name that begins with a pointer decodes to
/// exactly what decodes at the pointer's target (one more jump spent), and
/// the cursor ends right after the two pointer bytes.
pub proof fn lemma_pointer_decode(b: Seq<u8>, p: int, jumps: int)
    requires
        0 <= p,
        p + 1 < b.len(),
        crate::name::is_pointer(b[p]),
        0 <= jumps <= 5,
    ensures
        parse_name_rec(b, p, jumps) == parse_name_rec(
            b,
            crate::name::pointer_target(b[p], b[p + 1]),
            jumps + 1,
        ),
        name_end(b, p) == p + 2,
{
}
} // verus!
