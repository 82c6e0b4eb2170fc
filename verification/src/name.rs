//! Domain-name codec: decoding compressed or uncompressed names and
//! encoding names as length-prefixed label sequences.
//!
//! On the wire a name is a run of labels, each a length octet (1..=63)
//! followed by that many bytes, ended by a zero octet. A length octet with
//! its top two bits set (value >= 192) is instead a compression pointer: its
//! low 6 bits and the following octet form an absolute buffer offset where
//! reading continues. At most five pointers may be followed per name.

use vstd::prelude::*;
use vstd::string::*;

use crate::buffer::{splice, BytePacketBuffer, BUF_SIZE};
use crate::errors::DnsError;

verus! {

/// Maximum number of compression pointers followed while decoding one name.
pub const MAX_JUMPS: usize = 5;

/// Maximum byte length of a single label on the wire.
pub const MAX_LABEL_LEN: usize = 63;

/// ASCII lowercasing of a single byte, as the decoder applies it.
pub open spec fn lower_byte(b: u8) -> u8 {
    if 65 <= b <= 90 {
        (b + 32) as u8
    } else {
        b
    }
}

/// A length octet that announces a compression pointer (top two bits set).
pub open spec fn is_pointer(b: u8) -> bool {
    b >= 192
}

/// The absolute offset named by a compression pointer.
pub open spec fn pointer_target(b: u8, b2: u8) -> int {
    (b - 192) * 256 + b2
}

/// The characters of one decoded label: `len` bytes at `start`, lowercased.
pub open spec fn label_chars(buf: Seq<u8>, start: int, len: int) -> Seq<char> {
    Seq::new(len as nat, |i: int| lower_byte(buf[start + i]) as char)
}

/// The name decoded from `buf` at `pos` after already following `jumps`
/// compression pointers: labels joined by `.`, with no leading or trailing
/// dot. Fails with `JumpLimitExceeded` past the fifth pointer and with
/// `EndOfBuffer` when any read would leave the region.
pub open spec fn parse_name_rec(buf: Seq<u8>, pos: int, jumps: int) -> Result<
    Seq<char>,
    DnsError,
>
    decreases
            (if jumps > MAX_JUMPS { 0int } else { MAX_JUMPS + 1 - jumps }),
            (if pos < 0 || pos > buf.len() {
                0int
            } else {
                buf.len() - pos
            }),
{
    if jumps > MAX_JUMPS {
        Err(DnsError::JumpLimitExceeded)
    } else if pos < 0 || pos >= buf.len() {
        Err(DnsError::EndOfBuffer)
    } else {
        let len = buf[pos];
        if is_pointer(len) {
            if pos + 1 >= buf.len() {
                Err(DnsError::EndOfBuffer)
            } else {
                parse_name_rec(buf, pointer_target(len, buf[pos + 1]), jumps + 1)
            }
        } else if len == 0 {
            Ok(Seq::empty())
        } else if pos + 1 + len > buf.len() {
            Err(DnsError::EndOfBuffer)
        } else {
            match parse_name_rec(buf, pos + 1 + len, jumps) {
                Ok(rest) => Ok(
                    label_chars(buf, pos + 1, len as int) + if rest.len() == 0 {
                        Seq::empty()
                    } else {
                        seq!['.'] + rest
                    },
                ),
                Err(e) => Err(e),
            }
        }
    }
}

/// The name decoded from `buf` at `pos` with no pointer followed yet.
pub open spec fn parse_name(buf: Seq<u8>, pos: int) -> Result<Seq<char>, DnsError> {
    parse_name_rec(buf, pos, 0)
}

/// Where the cursor stands after reading a name that starts at `pos`: just
/// past the first compression pointer if one occurs, else just past the
/// terminating zero octet. Only meaningful when `parse_name` succeeds.
pub open spec fn name_end(buf: Seq<u8>, pos: int) -> int
    decreases
            (if pos < 0 || pos > buf.len() {
                0int
            } else {
                buf.len() - pos
            }),
{
    if pos < 0 || pos >= buf.len() {
        pos
    } else if is_pointer(buf[pos]) {
        pos + 2
    } else if buf[pos] == 0 {
        pos + 1
    } else {
        name_end(buf, pos + 1 + buf[pos])
    }
}

/// Length of the first label of `s`: the number of characters before the
/// first `.` (all of `s` if it has no dot).
pub open spec fn first_label_len(s: Seq<char>) -> nat
    decreases s.len(),
{
    if s.len() == 0 || s[0] == '.' {
        0
    } else {
        1 + first_label_len(s.skip(1))
    }
}

/// The first label is never longer than the whole name.
pub proof fn lemma_first_label_len_le(s: Seq<char>)
    ensures
        first_label_len(s) <= s.len(),
    decreases s.len(),
{
    if s.len() > 0 && s[0] != '.' {
        lemma_first_label_len_le(s.skip(1));
    }
}

/// What `first_label_len` means: no dot before it, and a dot (or the end of
/// the name) right after it.
pub proof fn lemma_first_label_shape(s: Seq<char>)
    ensures
        first_label_len(s) <= s.len(),
        forall|i: int| 0 <= i < first_label_len(s) ==> s[i] != '.',
        first_label_len(s) < s.len() ==> s[first_label_len(s) as int] == '.',
    decreases s.len(),
{
    lemma_first_label_len_le(s);
    if s.len() > 0 && s[0] != '.' {
        lemma_first_label_shape(s.skip(1));
        let l = first_label_len(s);
        assert forall|i: int| 0 <= i < l implies s[i] != '.' by {
            if i > 0 {
                assert(s.skip(1)[i - 1] != '.');
            }
        }
        if l < s.len() {
            assert(s.skip(1)[l - 1] == '.');
        }
    }
}

/// A dot-free run of `l` characters ended by a dot or the end of the name is
/// exactly the first label.
pub proof fn lemma_first_label_from_shape(s: Seq<char>, l: int)
    requires
        0 <= l <= s.len(),
        forall|i: int| 0 <= i < l ==> s[i] != '.',
        l < s.len() ==> s[l] == '.',
    ensures
        first_label_len(s) == l,
    decreases s.len(),
{
    if s.len() == 0 || s[0] == '.' {
    } else {
        assert(l != 0);
        assert forall|i: int| 0 <= i < l - 1 implies s.skip(1)[i] != '.' by {
            assert(s[i + 1] != '.');
        }
        lemma_first_label_from_shape(s.skip(1), l - 1);
    }
}

/// A name the encoder accepts: every label at most 63 characters, every
/// character a single byte on the wire.
pub open spec fn name_ok(s: Seq<char>) -> bool
    decreases s.len(),
    via name_ok_decreases
{
    let l = first_label_len(s);
    &&& l <= MAX_LABEL_LEN
    &&& (forall|i: int| 0 <= i < l ==> (s[i] as u32) < 256)
    &&& (l < s.len() ==> name_ok(s.skip(l + 1 as int)))
}

#[via_fn]
proof fn name_ok_decreases(s: Seq<char>) {
    lemma_first_label_len_le(s);
}

/// The single wire byte for one name character.
pub open spec fn char_byte(c: char) -> u8 {
    ((c as u32) % 256) as u8
}

/// The wire form the encoder produces for `s`: each label as a length octet
/// followed by its characters as bytes, ended by a zero octet.
pub open spec fn name_wire(s: Seq<char>) -> Seq<u8>
    decreases s.len(),
    via name_wire_decreases
{
    let l = first_label_len(s);
    seq![l as u8] + Seq::new(l, |i: int| char_byte(s[i])) + if l == s.len() {
        seq![0u8]
    } else {
        name_wire(s.skip(l + 1 as int))
    }
}

#[via_fn]
proof fn name_wire_decreases(s: Seq<char>) {
    lemma_first_label_len_le(s);
}

/// The wire form of a name is exactly two bytes longer than the name: one
/// length octet per label (a dot's worth each, plus one) and the terminator.
pub proof fn lemma_name_wire_len(s: Seq<char>)
    ensures
        name_wire(s).len() == s.len() + 2,
    decreases s.len(),
{
    lemma_first_label_len_le(s);
    let l = first_label_len(s);
    if l < s.len() {
        lemma_name_wire_len(s.skip(l + 1 as int));
    }
}

/// How a partly decoded name (labels already emitted) combines with the
/// decode of the remaining labels.
pub open spec fn join_labels(acc: Seq<char>, rest: Seq<char>) -> Seq<char> {
    if acc.len() == 0 {
        rest
    } else if rest.len() == 0 {
        acc
    } else {
        acc + seq!['.'] + rest
    }
}

/// Relies on `String::push`: appends the given character to the end of the
/// string.
#[verifier::external_body]
fn push_char(s: &mut String, c: char)
    ensures
        final(s)@ == old(s)@.push(c),
{
    s.push(c);
}

impl BytePacketBuffer {
    /// Decode the domain name that starts at the cursor, appending it to
    /// `outstr`. The cursor ends just past the name's first compression
    /// pointer if it has one, else just past its terminating zero octet; on
    /// an error the cursor is left where the failed read put it.
    #[verifier::rlimit(60)]
    #[verifier::spinoff_prover]
    pub fn read_qname(&mut self, outstr: &mut String) -> (r: Result<(), DnsError>)
        requires
            old(self).wf(),
        ensures
            final(self).wf(),
            final(self).buf@ == old(self).buf@,
            ({
                let res = parse_name(old(self).buf@, old(self).pos as int);
                match r {
                    Ok(_) => res is Ok && final(outstr)@ == old(outstr)@ + res->Ok_0
                        && final(self).pos == name_end(old(self).buf@, old(self).pos as int),
                    Err(e) => res == Err::<Seq<char>, DnsError>(e),
                }
            }),
    {
        let ghost b = self.buf@;
        let ghost start = self.pos as int;
        let mut pos: usize = self.pos;
        let mut jumped = false;
        let mut first = true;
        let mut jumps_performed: usize = 0;
        let ghost mut acc: Seq<char> = Seq::empty();
        loop
            invariant_except_break
                !jumped ==> self.pos == start && name_end(b, start) == name_end(b, pos as int),
                ({
                    match parse_name_rec(b, pos as int, jumps_performed as int) {
                        Ok(rest) => parse_name(b, start) == Ok::<Seq<char>, DnsError>(
                            join_labels(acc, rest),
                        ),
                        Err(e) => parse_name(b, start) == Err::<Seq<char>, DnsError>(e),
                    }
                }),
            invariant
                self.wf(),
                self.buf@ == b,
                b == old(self).buf@,
                start == old(self).pos,
                jumps_performed <= MAX_JUMPS + 1,
                pos == start || pos <= 0x4000,
                outstr@ == old(outstr)@ + acc,
                first <==> acc.len() == 0,
                jumped ==> self.pos == name_end(b, start),
            ensures
                self.wf(),
                self.buf@ == b,
                parse_name(b, start) is Ok,
                outstr@ == old(outstr)@ + parse_name(b, start)->Ok_0,
                jumped ==> self.pos == name_end(b, start),
                !jumped ==> self.pos == start && pos == name_end(b, start),
            decreases
                MAX_JUMPS + 1 - jumps_performed,
                (if pos > BUF_SIZE {
                    0int
                } else {
                    BUF_SIZE - pos
                }),
        {
            if jumps_performed > MAX_JUMPS {
                return Err(DnsError::JumpLimitExceeded);
            }
            let len = match self.get(pos) {
                Ok(v) => v,
                Err(e) => {
                    return Err(e);
                }
            };
            if len >= 192 {
                // A compression pointer: the caller's cursor resumes right
                // after the first one; reading continues at the target.
                if !jumped {
                    match self.seek(pos + 2) {
                        Ok(_) => {}
                        Err(e) => {
                            return Err(e);
                        }
                    }
                }
                let b2 = match self.get(pos + 1) {
                    Ok(v) => v,
                    Err(e) => {
                        return Err(e);
                    }
                };
                pos = (len as usize - 192) * 256 + b2 as usize;
                jumped = true;
                jumps_performed = jumps_performed + 1;
            } else {
                let ghost pos0 = pos as int;
                let ghost acc0 = acc;
                pos = pos + 1;
                if len == 0 {
                    proof {
                        assert(parse_name_rec(b, pos0, jumps_performed as int)
                            == Ok::<Seq<char>, DnsError>(Seq::<char>::empty()));
                        assert(join_labels(acc, Seq::<char>::empty()) == acc);
                    }
                    break;
                }
                if !first {
                    push_char(outstr, '.');
                    proof {
                        acc = acc.push('.');
                    }
                }
                first = false;
                let ghost acc_dotted = acc;
                if pos > BUF_SIZE || len as usize > BUF_SIZE - pos {
                    return Err(DnsError::EndOfBuffer);
                }
                let ghost label_start = pos as int;
                let mut i: usize = 0;
                while i < len as usize
                    invariant
                        self.wf(),
                        self.buf@ == b,
                        label_start == pos,
                        label_start + len <= BUF_SIZE,
                        label_start >= 0,
                        i <= len,
                        outstr@ == old(outstr)@ + acc,
                        acc == acc_dotted + label_chars(b, label_start, i as int),
                    decreases len as usize - i,
                {
                    let byte = match self.get(pos + i) {
                        Ok(v) => v,
                        Err(_) => {
                            proof {
                                assert(false);
                            }
                            return Err(DnsError::EndOfBuffer);
                        }
                    };
                    let lowered = if 65 <= byte && byte <= 90 {
                        byte + 32
                    } else {
                        byte
                    };
                    push_char(outstr, lowered as char);
                    proof {
                        acc = acc.push(lowered as char);
                        assert(acc =~= acc_dotted + label_chars(b, label_start, i + 1));
                    }
                    i = i + 1;
                }
                proof {
                    let lbl = label_chars(b, label_start, len as int);
                    let rest_res = parse_name_rec(b, label_start + len, jumps_performed as int);
                    if rest_res is Ok {
                        let rest = rest_res->Ok_0;
                        let sep_rest: Seq<char> = if rest.len() == 0 {
                            Seq::empty()
                        } else {
                            seq!['.'] + rest
                        };
                        assert(parse_name_rec(b, pos0, jumps_performed as int)
                            == Ok::<Seq<char>, DnsError>(lbl + sep_rest));
                        assert(lbl.len() > 0);
                        if acc0.len() == 0 {
                            assert(join_labels(acc, rest) =~= join_labels(acc0, lbl + sep_rest));
                        } else if rest.len() == 0 {
                            assert(join_labels(acc, rest) =~= acc0 + seq!['.'] + lbl);
                            assert(join_labels(acc0, lbl + sep_rest) =~= acc0 + seq!['.'] + lbl);
                        } else {
                            assert(join_labels(acc, rest) =~= acc0 + seq!['.'] + (lbl + sep_rest));
                            assert(join_labels(acc0, lbl + sep_rest) =~= acc0 + seq!['.'] + (lbl
                                + sep_rest));
                        }
                    }
                }
                pos = pos + len as usize;
            }
        }
        if !jumped {
            match self.seek(pos) {
                Ok(_) => {}
                Err(e) => {
                    return Err(e);
                }
            }
        }
        Ok(())
    }
}

/// Scan the label that starts at `idx`: its length, up to the next dot or
/// the end of the name.
fn label_len_at(s: &str, idx: usize) -> (l: usize)
    requires
        idx <= s@.len(),
        s@.len() < usize::MAX,
    ensures
        l == first_label_len(s@.skip(idx as int)),
        idx + l <= s@.len(),
{
    let n = s.unicode_len();
    let mut j = idx;
    while j < n && s.get_char(j) != '.'
        invariant
            idx <= j <= n,
            n == s@.len(),
            forall|k: int| idx <= k < j ==> s@[k] != '.',
        decreases n - j,
    {
        j = j + 1;
    }
    proof {
        let rem = s@.skip(idx as int);
        assert forall|i: int| 0 <= i < j - idx implies rem[i] != '.' by {
            assert(s@[idx + i] != '.');
        }
        lemma_first_label_from_shape(rem, j - idx);
    }
    j - idx
}

/// Whether every label of `s` is at most 63 characters and every character
/// fits in one wire byte.
pub fn check_name(s: &str) -> (ok: bool)
    ensures
        ok == name_ok(s@),
{
    let n = s.unicode_len();
    proof {
        assert(s@.skip(0) =~= s@);
    }
    let mut idx: usize = 0;
    loop
        invariant
            idx <= n,
            n == s@.len(),
            name_ok(s@) == name_ok(s@.skip(idx as int)),
        decreases n - idx,
    {
        let ghost rem = s@.skip(idx as int);
        let mut j = idx;
        while j < n && s.get_char(j) != '.'
            invariant
                idx <= j <= n,
                n == s@.len(),
                rem == s@.skip(idx as int),
                name_ok(s@) == name_ok(rem),
                j - idx <= MAX_LABEL_LEN,
                forall|k: int| idx <= k < j ==> s@[k] != '.' && (s@[k] as u32) < 256,
            decreases n - j,
        {
            let c = s.get_char(j);
            if c as u32 >= 256 {
                proof {
                    lemma_first_label_shape(rem);
                    let l = first_label_len(rem) as int;
                    assert forall|i: int| 0 <= i < j - idx implies rem[i] != '.' by {
                        assert(s@[idx + i] != '.');
                    }
                    if l <= j - idx {
                        assert(l < rem.len());
                        assert(rem[l] == '.');
                        assert(s@[idx + l] != '.');
                    }
                    assert(rem[j - idx] == s@[j as int]);
                    assert(!name_ok(rem));
                }
                return false;
            }
            j = j + 1;
            if j - idx > MAX_LABEL_LEN {
                proof {
                    lemma_first_label_shape(rem);
                    let l = first_label_len(rem) as int;
                    assert forall|i: int| 0 <= i < j - idx implies rem[i] != '.' by {
                        assert(s@[idx + i] != '.');
                    }
                    if l <= MAX_LABEL_LEN {
                        assert(l < j - idx);
                        assert(l < rem.len());
                        assert(rem[l] == '.');
                        assert(s@[idx + l] != '.');
                    }
                    assert(!name_ok(rem));
                }
                return false;
            }
        }
        proof {
            assert forall|i: int| 0 <= i < j - idx implies rem[i] != '.' by {
                assert(s@[idx + i] != '.');
            }
            lemma_first_label_from_shape(rem, j - idx);
            assert forall|i: int| 0 <= i < first_label_len(rem) implies (rem[i] as u32)
                < 256 by {
                assert((s@[idx + i] as u32) < 256);
            }
        }
        if j == n {
            proof {
                assert(name_ok(rem));
            }
            return true;
        }
        proof {
            assert(rem.skip(j - idx + 1) =~= s@.skip(j + 1));
        }
        idx = j + 1;
    }
}


impl BytePacketBuffer {
    /// Encode `qname` at the cursor as length-prefixed labels ended by a
    /// zero octet (compression is never produced). Fails with
    /// `LabelTooLong` when a label exceeds 63 characters or a character
    /// does not fit in one wire byte, and with `EndOfBuffer` when the
    /// encoded name would not fit; on failure nothing is written.
    #[verifier::rlimit(60)]
    #[verifier::spinoff_prover]
    pub fn write_qname(&mut self, qname: &str) -> (r: Result<(), DnsError>)
        requires
            old(self).wf(),
        ensures
            final(self).wf(),
            !name_ok(qname@) ==> r == Err::<(), DnsError>(DnsError::LabelTooLong)
                && *final(self) == *old(self),
            name_ok(qname@) && old(self).pos + qname@.len() + 2 > BUF_SIZE ==> r == Err::<
                (),
                DnsError,
            >(DnsError::EndOfBuffer) && *final(self) == *old(self),
            name_ok(qname@) && old(self).pos + qname@.len() + 2 <= BUF_SIZE ==> {
                &&& r is Ok
                &&& final(self).buf@ == splice(
                    old(self).buf@,
                    old(self).pos as int,
                    name_wire(qname@),
                )
                &&& final(self).pos == old(self).pos + qname@.len() + 2
            },
    {
        let n = qname.unicode_len();
        if !check_name(qname) {
            return Err(DnsError::LabelTooLong);
        }
        if self.pos > BUF_SIZE - 2 || n > BUF_SIZE - 2 - self.pos {
            return Err(DnsError::EndOfBuffer);
        }
        let ghost b0 = self.buf@;
        let ghost start = self.pos as int;
        let ghost full = qname@;
        let ghost mut written: Seq<u8> = Seq::empty();
        proof {
            assert(full.skip(0) =~= full);
            assert(name_wire(full) =~= written + name_wire(full.skip(0)));
            lemma_name_wire_len(full);
        }
        let mut idx: usize = 0;
        loop
            invariant_except_break
                name_wire(full) == written + name_wire(full.skip(idx as int)),
                name_ok(full.skip(idx as int)),
                written.len() == idx,
                self.pos == start + idx,
            invariant
                self.wf(),
                self.buf@.len() == BUF_SIZE,
                b0.len() == BUF_SIZE,
                b0 == old(self).buf@,
                start == old(self).pos,
                full == qname@,
                n == full.len(),
                idx <= n,
                start + n + 2 <= BUF_SIZE,
                self.buf@ == splice(b0, start, written),
            ensures
                self.wf(),
                self.buf@ == splice(b0, start, name_wire(full)),
                self.pos == start + n + 2,
            decreases n - idx,
        {
            let ghost rem = full.skip(idx as int);
            let l = label_len_at(qname, idx);
            proof {
                lemma_name_wire_len(rem);
                assert(name_wire(rem) == seq![l as u8] + Seq::new(
                    l as nat,
                    |i: int| char_byte(rem[i]),
                ) + (if l == rem.len() {
                    seq![0u8]
                } else {
                    name_wire(rem.skip(l + 1))
                }));
            }
            match self.write_u8(l as u8) {
                Ok(_) => {}
                Err(_) => {
                    proof {
                        assert(false);
                    }
                    return Err(DnsError::EndOfBuffer);
                }
            }
            proof {
                written = written.push(l as u8);
                assert(self.buf@ =~= splice(b0, start, written));
            }
            let ghost w1 = written;
            let mut k: usize = 0;
            while k < l
                invariant
                    self.wf(),
                    self.buf@.len() == BUF_SIZE,
                    b0.len() == BUF_SIZE,
                    k <= l,
                    idx + l <= n,
                    n == full.len(),
                    full == qname@,
                    start + n + 2 <= BUF_SIZE,
                    rem == full.skip(idx as int),
                    forall|i: int| 0 <= i < l ==> (rem[i] as u32) < 256,
                    w1.len() == idx + 1,
                    written == w1 + Seq::new(k as nat, |i: int| char_byte(rem[i])),
                    self.pos == start + idx + 1 + k,
                    self.buf@ == splice(b0, start, written),
                decreases l - k,
            {
                let c = qname.get_char(idx + k);
                let v: u8 = ((c as u32) % 256) as u8;
                match self.write_u8(v) {
                    Ok(_) => {}
                    Err(_) => {
                        proof {
                            assert(false);
                        }
                        return Err(DnsError::EndOfBuffer);
                    }
                }
                proof {
                    assert(rem[k as int] == full[idx + k]);
                    assert(v == char_byte(rem[k as int]));
                    written = written.push(v);
                    assert(written =~= w1 + Seq::new((k + 1) as nat, |i: int| char_byte(rem[i])));
                    assert(self.buf@ =~= splice(b0, start, written));
                }
                k = k + 1;
            }
            if idx + l == n {
                match self.write_u8(0) {
                    Ok(_) => {}
                    Err(_) => {
                        proof {
                            assert(false);
                        }
                        return Err(DnsError::EndOfBuffer);
                    }
                }
                proof {
                    written = written.push(0u8);
                    assert(self.buf@ =~= splice(b0, start, written));
                    assert(l == rem.len());
                    assert(written =~= (written.subrange(0, idx as int)) + name_wire(rem)) by {
                        assert(name_wire(rem) =~= seq![l as u8] + Seq::new(
                            l as nat,
                            |i: int| char_byte(rem[i]),
                        ) + seq![0u8]);
                    }
                    assert(name_wire(full) =~= written);
                }
                break;
            }
            proof {
                assert(l < rem.len());
                assert(rem.skip(l + 1) =~= full.skip(idx + l + 1));
                assert(name_wire(full) =~= (written + name_wire(full.skip(idx + l + 1)))) by {
                    assert(name_wire(rem) =~= seq![l as u8] + Seq::new(
                        l as nat,
                        |i: int| char_byte(rem[i]),
                    ) + name_wire(rem.skip(l + 1)));
                    assert(written =~= (written.subrange(0, idx as int)) + (seq![l as u8]
                        + Seq::new(l as nat, |i: int| char_byte(rem[i]))));
                }
            }
            idx = idx + l + 1;
        }
        Ok(())
    }
}

} // verus!
