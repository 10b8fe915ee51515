//! The byte layout of a state sent over the network: a header with the qubit
//! count and an entangled flag, then either one 16-byte record per qubit
//! (its two amplitudes as four single-precision bit patterns) or records of
//! the most significant amplitudes (a 4-byte index and two 2-byte signed
//! parts in thousandths). All integers are little-endian.

use crate::bits::{qubit_mask, two_pow};
use vstd::prelude::*;

verus! {

/// One qubit's amplitudes `alpha`, `beta`, as single-precision bit patterns.
#[derive(Clone, Copy, Debug, PartialEq, Eq)]
pub struct QubitRecord {
    pub alpha_re: u32,
    pub alpha_im: u32,
    pub beta_re: u32,
    pub beta_im: u32,
}

/// One amplitude: its basis index and its parts in thousandths, each as
/// the two's-complement bit pattern of a 16-bit signed integer.
#[derive(Clone, Copy, Debug, PartialEq, Eq)]
pub struct AmplitudeRecord {
    pub index: u32,
    pub re: u16,
    pub im: u16,
}

/// What follows the header.
#[derive(Clone, Debug, PartialEq, Eq)]
pub enum StateBody {
    /// The state is a product of single-qubit states.
    Qubits(Vec<QubitRecord>),
    /// The state is entangled; these are its most significant amplitudes.
    Amplitudes(Vec<AmplitudeRecord>),
}

/// A state as it travels.
#[derive(Clone, Debug, PartialEq, Eq)]
pub struct StateFrame {
    pub qubit_count: u32,
    pub body: StateBody,
}

/// Why bytes are not a state.
#[derive(Clone, Copy, Debug, PartialEq, Eq)]
pub enum WireError {
    /// Fewer than the 8 header bytes.
    TooShort,
    /// The qubit count is 0 or above 30.
    BadQubitCount,
}

pub open spec fn u32_bytes(x: u32) -> Seq<u8> {
    seq![
        (x & 0xff) as u8,
        ((x >> 8u32) & 0xff) as u8,
        ((x >> 16u32) & 0xff) as u8,
        ((x >> 24u32) & 0xff) as u8,
    ]
}

pub open spec fn u16_bytes(x: u16) -> Seq<u8> {
    seq![(x & 0xff) as u8, (x >> 8u16) as u8]
}

/// The little-endian `u32` at `off`.
pub open spec fn u32_at(b: Seq<u8>, off: int) -> u32 {
    (b[off] as u32) | ((b[off + 1] as u32) << 8u32) | ((b[off + 2] as u32) << 16u32) | ((b[off
        + 3] as u32) << 24u32)
}

/// The little-endian `u16` at `off`.
pub open spec fn u16_at(b: Seq<u8>, off: int) -> u16 {
    (b[off] as u16) | ((b[off + 1] as u16) << 8u16)
}

pub open spec fn qubit_record_bytes(r: QubitRecord) -> Seq<u8> {
    u32_bytes(r.alpha_re) + u32_bytes(r.alpha_im) + u32_bytes(r.beta_re) + u32_bytes(r.beta_im)
}

pub open spec fn amplitude_record_bytes(r: AmplitudeRecord) -> Seq<u8> {
    u32_bytes(r.index) + u16_bytes(r.re) + u16_bytes(r.im)
}

pub open spec fn qubit_records_bytes(rs: Seq<QubitRecord>) -> Seq<u8>
    decreases rs.len(),
{
    if rs.len() == 0 {
        Seq::empty()
    } else {
        qubit_record_bytes(rs[0]) + qubit_records_bytes(rs.drop_first())
    }
}

pub open spec fn amplitude_records_bytes(rs: Seq<AmplitudeRecord>) -> Seq<u8>
    decreases rs.len(),
{
    if rs.len() == 0 {
        Seq::empty()
    } else {
        amplitude_record_bytes(rs[0]) + amplitude_records_bytes(rs.drop_first())
    }
}

/// The bytes of a frame.
pub open spec fn frame_bytes(f: StateFrame) -> Seq<u8> {
    let flag: u8 = if f.body is Amplitudes {
        1
    } else {
        0
    };
    u32_bytes(f.qubit_count) + seq![flag, 0u8, 0u8, 0u8] + match f.body {
        StateBody::Qubits(rs) => qubit_records_bytes(rs@),
        StateBody::Amplitudes(rs) => amplitude_records_bytes(rs@),
    }
}

proof fn lemma_u32_round_trip(x: u32)
    ensures
        u32_at(u32_bytes(x), 0) == x,
{
    let b = u32_bytes(x);
    let b0 = (x & 0xff) as u8;
    let b1 = ((x >> 8u32) & 0xff) as u8;
    let b2 = ((x >> 16u32) & 0xff) as u8;
    let b3 = ((x >> 24u32) & 0xff) as u8;
    assert(b[0] == b0 && b[1] == b1 && b[2] == b2 && b[3] == b3);
    assert((b0 as u32) | ((b1 as u32) << 8u32) | ((b2 as u32) << 16u32) | ((b3 as u32) << 24u32)
        == x) by (bit_vector)
        requires
            b0 == (x & 0xff) as u8,
            b1 == ((x >> 8u32) & 0xff) as u8,
            b2 == ((x >> 16u32) & 0xff) as u8,
            b3 == ((x >> 24u32) & 0xff) as u8,
    ;
}

proof fn lemma_u16_round_trip(x: u16)
    ensures
        u16_at(u16_bytes(x), 0) == x,
{
    let b = u16_bytes(x);
    let b0 = (x & 0xff) as u8;
    let b1 = (x >> 8u16) as u8;
    assert(b[0] == b0 && b[1] == b1);
    assert(((b0 as u16) | ((b1 as u16) << 8u16)) == x) by (bit_vector)
        requires
            b0 == (x & 0xff) as u8,
            b1 == (x >> 8u16) as u8,
    ;
}

/// The qubit records read from `off` on: record `i` onwards, while fewer
/// than `q` have been read and 16 bytes remain.
pub open spec fn parse_qubits(b: Seq<u8>, q: int, off: int, i: int) -> Seq<QubitRecord>
    decreases q - i,
{
    if i >= q || off < 0 || off + 16 > b.len() {
        Seq::empty()
    } else {
        seq![
            QubitRecord {
                alpha_re: u32_at(b, off),
                alpha_im: u32_at(b, off + 4),
                beta_re: u32_at(b, off + 8),
                beta_im: u32_at(b, off + 12),
            },
        ] + parse_qubits(b, q, off + 16, i + 1)
    }
}

/// The amplitude records read from `off` on, while 8 bytes remain; an index
/// outside a register of `q` qubits skips its 4 bytes and reading goes on
/// from there.
pub open spec fn parse_amplitudes(b: Seq<u8>, q: nat, off: int) -> Seq<AmplitudeRecord>
    decreases b.len() - off,
{
    if off < 0 || off + 8 > b.len() {
        Seq::empty()
    } else if (u32_at(b, off) as nat) < two_pow(q) {
        seq![AmplitudeRecord { index: u32_at(b, off), re: u16_at(b, off + 4), im: u16_at(b, off + 6) }]
            + parse_amplitudes(b, q, off + 8)
    } else {
        parse_amplitudes(b, q, off + 4)
    }
}

/// A frame that reads back as itself: 1 to 30 qubits, at most one record
/// per qubit, and every amplitude index inside the register.
pub open spec fn valid_frame(f: StateFrame) -> bool {
    &&& 1 <= f.qubit_count <= 30
    &&& match f.body {
        StateBody::Qubits(rs) => rs@.len() <= f.qubit_count,
        StateBody::Amplitudes(rs) => forall|k: int|
            0 <= k < rs@.len() ==> ((#[trigger] rs@[k]).index as nat) < two_pow(
                f.qubit_count as nat,
            ),
    }
}

proof fn lemma_qubit_records_len(rs: Seq<QubitRecord>)
    ensures
        qubit_records_bytes(rs).len() == 16 * rs.len(),
    decreases rs.len(),
{
    if rs.len() > 0 {
        lemma_qubit_records_len(rs.drop_first());
    }
}

proof fn lemma_amplitude_records_len(rs: Seq<AmplitudeRecord>)
    ensures
        amplitude_records_bytes(rs).len() == 8 * rs.len(),
    decreases rs.len(),
{
    if rs.len() > 0 {
        lemma_amplitude_records_len(rs.drop_first());
    }
}

proof fn lemma_u32_at_shift(b: Seq<u8>, off: int, x: u32)
    requires
        0 <= off,
        off + 4 <= b.len(),
        b.subrange(off, off + 4) == u32_bytes(x),
    ensures
        u32_at(b, off) == x,
{
    lemma_u32_round_trip(x);
    let c = b.subrange(off, off + 4);
    assert(b[off] == c[0] && b[off + 1] == c[1] && b[off + 2] == c[2] && b[off + 3] == c[3]);
}

proof fn lemma_u16_at_shift(b: Seq<u8>, off: int, x: u16)
    requires
        0 <= off,
        off + 2 <= b.len(),
        b.subrange(off, off + 2) == u16_bytes(x),
    ensures
        u16_at(b, off) == x,
{
    lemma_u16_round_trip(x);
    let c = b.subrange(off, off + 2);
    assert(b[off] == c[0] && b[off + 1] == c[1]);
}

/// Reading the amplitude records back from their bytes, placed at `off`
/// and running to the end, gives the records.
proof fn lemma_parse_amplitudes(b: Seq<u8>, q: nat, off: int, rs: Seq<AmplitudeRecord>)
    requires
        0 <= off,
        b.len() == off + 8 * rs.len(),
        b.subrange(off, b.len() as int) == amplitude_records_bytes(rs),
        forall|k: int| 0 <= k < rs.len() ==> ((#[trigger] rs[k]).index as nat) < two_pow(q),
    ensures
        parse_amplitudes(b, q, off) == rs,
    decreases rs.len(),
{
    if rs.len() > 0 {
        let r = rs[0];
        let rest = rs.drop_first();
        let tail = b.subrange(off, b.len() as int);
        lemma_amplitude_records_len(rest);
        assert(tail == amplitude_record_bytes(r) + amplitude_records_bytes(rest));
        assert(b.subrange(off, off + 4) =~= u32_bytes(r.index)) by {
            assert(b.subrange(off, off + 4) =~= tail.subrange(0, 4));
        }
        assert(b.subrange(off + 4, off + 6) =~= u16_bytes(r.re)) by {
            assert(b.subrange(off + 4, off + 6) =~= tail.subrange(4, 6));
        }
        assert(b.subrange(off + 6, off + 8) =~= u16_bytes(r.im)) by {
            assert(b.subrange(off + 6, off + 8) =~= tail.subrange(6, 8));
        }
        lemma_u32_at_shift(b, off, r.index);
        lemma_u16_at_shift(b, off + 4, r.re);
        lemma_u16_at_shift(b, off + 6, r.im);
        assert(b.subrange(off + 8, b.len() as int) =~= amplitude_records_bytes(rest)) by {
            assert(b.subrange(off + 8, b.len() as int) =~= tail.subrange(8, tail.len() as int));
        }
        assert forall|k: int| 0 <= k < rest.len() implies ((#[trigger] rest[k]).index as nat)
            < two_pow(q) by {
            assert(rest[k] == rs[k + 1]);
        }
        lemma_parse_amplitudes(b, q, off + 8, rest);
        assert(rs =~= seq![r] + rest);
    }
}

/// Reading the qubit records back from their bytes, placed at `off` and
/// running to the end, gives the records when there are at most `q - i`.
proof fn lemma_parse_qubits(b: Seq<u8>, q: int, off: int, i: int, rs: Seq<QubitRecord>)
    requires
        0 <= off,
        0 <= i,
        i + rs.len() <= q,
        b.len() == off + 16 * rs.len(),
        b.subrange(off, b.len() as int) == qubit_records_bytes(rs),
    ensures
        parse_qubits(b, q, off, i) == rs,
    decreases rs.len(),
{
    if rs.len() > 0 {
        let r = rs[0];
        let rest = rs.drop_first();
        let tail = b.subrange(off, b.len() as int);
        lemma_qubit_records_len(rest);
        assert(tail == qubit_record_bytes(r) + qubit_records_bytes(rest));
        assert(b.subrange(off, off + 4) =~= u32_bytes(r.alpha_re)) by {
            assert(b.subrange(off, off + 4) =~= tail.subrange(0, 4));
        }
        assert(b.subrange(off + 4, off + 8) =~= u32_bytes(r.alpha_im)) by {
            assert(b.subrange(off + 4, off + 8) =~= tail.subrange(4, 8));
        }
        assert(b.subrange(off + 8, off + 12) =~= u32_bytes(r.beta_re)) by {
            assert(b.subrange(off + 8, off + 12) =~= tail.subrange(8, 12));
        }
        assert(b.subrange(off + 12, off + 16) =~= u32_bytes(r.beta_im)) by {
            assert(b.subrange(off + 12, off + 16) =~= tail.subrange(12, 16));
        }
        lemma_u32_at_shift(b, off, r.alpha_re);
        lemma_u32_at_shift(b, off + 4, r.alpha_im);
        lemma_u32_at_shift(b, off + 8, r.beta_re);
        lemma_u32_at_shift(b, off + 12, r.beta_im);
        assert(b.subrange(off + 16, b.len() as int) =~= qubit_records_bytes(rest)) by {
            assert(b.subrange(off + 16, b.len() as int) =~= tail.subrange(16, tail.len() as int));
        }
        lemma_parse_qubits(b, q, off + 16, i + 1, rest);
        assert(rs =~= seq![r] + rest);
    }
}

/// Encoding a valid frame and reading the bytes back gives the frame:
/// the qubit count, the entangled flag and every record.
pub proof fn lemma_frame_round_trip(f: StateFrame)
    requires
        valid_frame(f),
    ensures
        ({
            let b = frame_bytes(f);
            &&& b.len() >= 8
            &&& u32_at(b, 0) == f.qubit_count
            &&& (b[4] != 0) == (f.body is Amplitudes)
            &&& match f.body {
                StateBody::Qubits(rs) => parse_qubits(b, f.qubit_count as int, 8, 0) == rs@,
                StateBody::Amplitudes(rs) => parse_amplitudes(b, f.qubit_count as nat, 8) == rs@,
            }
        }),
{
    let b = frame_bytes(f);
    let flag: u8 = if f.body is Amplitudes {
        1
    } else {
        0
    };
    let head = u32_bytes(f.qubit_count) + seq![flag, 0u8, 0u8, 0u8];
    assert(b.subrange(0, 4) =~= u32_bytes(f.qubit_count));
    lemma_u32_at_shift(b, 0, f.qubit_count);
    match f.body {
        StateBody::Qubits(rs) => {
            lemma_qubit_records_len(rs@);
            assert(b.subrange(8, b.len() as int) =~= qubit_records_bytes(rs@));
            lemma_parse_qubits(b, f.qubit_count as int, 8, 0, rs@);
        },
        StateBody::Amplitudes(rs) => {
            lemma_amplitude_records_len(rs@);
            assert(b.subrange(8, b.len() as int) =~= amplitude_records_bytes(rs@));
            lemma_parse_amplitudes(b, f.qubit_count as nat, 8, rs@);
        },
    }
}

proof fn lemma_qubit_records_push(a: Seq<QubitRecord>, r: QubitRecord)
    ensures
        qubit_records_bytes(a.push(r)) == qubit_records_bytes(a) + qubit_record_bytes(r),
    decreases a.len(),
{
    if a.len() == 0 {
        assert(a.push(r).drop_first() =~= Seq::<QubitRecord>::empty());
        assert(qubit_records_bytes(Seq::<QubitRecord>::empty()) == Seq::<u8>::empty());
        assert(a.push(r)[0] == r);
        assert(qubit_records_bytes(a.push(r)) =~= qubit_record_bytes(r));
    } else {
        lemma_qubit_records_push(a.drop_first(), r);
        assert(a.push(r).drop_first() =~= a.drop_first().push(r));
        assert(qubit_records_bytes(a.push(r)) =~= qubit_records_bytes(a) + qubit_record_bytes(r));
    }
}

proof fn lemma_amplitude_records_push(a: Seq<AmplitudeRecord>, r: AmplitudeRecord)
    ensures
        amplitude_records_bytes(a.push(r)) == amplitude_records_bytes(a) + amplitude_record_bytes(r),
    decreases a.len(),
{
    if a.len() == 0 {
        assert(a.push(r).drop_first() =~= Seq::<AmplitudeRecord>::empty());
        assert(amplitude_records_bytes(Seq::<AmplitudeRecord>::empty()) == Seq::<u8>::empty());
        assert(a.push(r)[0] == r);
        assert(amplitude_records_bytes(a.push(r)) =~= amplitude_record_bytes(r));
    } else {
        lemma_amplitude_records_push(a.drop_first(), r);
        assert(a.push(r).drop_first() =~= a.drop_first().push(r));
        assert(amplitude_records_bytes(a.push(r)) =~= amplitude_records_bytes(a)
            + amplitude_record_bytes(r));
    }
}

fn push_u32(out: &mut Vec<u8>, x: u32)
    ensures
        final(out)@ == old(out)@ + u32_bytes(x),
{
    out.push((x & 0xff) as u8);
    out.push(((x >> 8u32) & 0xff) as u8);
    out.push(((x >> 16u32) & 0xff) as u8);
    out.push(((x >> 24u32) & 0xff) as u8);
    assert(final(out)@ =~= old(out)@ + u32_bytes(x));
}

fn push_u16(out: &mut Vec<u8>, x: u16)
    ensures
        final(out)@ == old(out)@ + u16_bytes(x),
{
    out.push((x & 0xff) as u8);
    out.push((x >> 8u16) as u8);
    assert(final(out)@ =~= old(out)@ + u16_bytes(x));
}

/// The bytes of `frame`, as `frame_bytes` lays them out.
pub fn encode_state(frame: &StateFrame) -> (r: Vec<u8>)
    ensures
        r@ == frame_bytes(*frame),
{
    let mut out: Vec<u8> = Vec::new();
    push_u32(&mut out, frame.qubit_count);
    let flag: u8 = match &frame.body {
        StateBody::Qubits(_) => 0,
        StateBody::Amplitudes(_) => 1,
    };
    out.push(flag);
    out.push(0);
    out.push(0);
    out.push(0);
    let ghost head = out@;
    assert(head =~= u32_bytes(frame.qubit_count) + seq![flag, 0u8, 0u8, 0u8]);
    match &frame.body {
        StateBody::Qubits(rs) => {
            let mut i: usize = 0;
            assert(rs@.subrange(0, 0) =~= Seq::<QubitRecord>::empty());
            assert(out@ =~= head + qubit_records_bytes(rs@.subrange(0, 0)));
            while i < rs.len()
                invariant
                    i <= rs@.len(),
                    out@ == head + qubit_records_bytes(rs@.subrange(0, i as int)),
                decreases rs@.len() - i,
            {
                let r = rs[i];
                push_u32(&mut out, r.alpha_re);
                push_u32(&mut out, r.alpha_im);
                push_u32(&mut out, r.beta_re);
                push_u32(&mut out, r.beta_im);
                proof {
                    lemma_qubit_records_push(rs@.subrange(0, i as int), r);
                    assert(rs@.subrange(0, i + 1) =~= rs@.subrange(0, i as int).push(r));
                    assert(out@ =~= head + qubit_records_bytes(rs@.subrange(0, i + 1)));
                }
                i = i + 1;
            }
            assert(rs@.subrange(0, rs@.len() as int) =~= rs@);
        },
        StateBody::Amplitudes(rs) => {
            let mut i: usize = 0;
            assert(rs@.subrange(0, 0) =~= Seq::<AmplitudeRecord>::empty());
            assert(out@ =~= head + amplitude_records_bytes(rs@.subrange(0, 0)));
            while i < rs.len()
                invariant
                    i <= rs@.len(),
                    out@ == head + amplitude_records_bytes(rs@.subrange(0, i as int)),
                decreases rs@.len() - i,
            {
                let r = rs[i];
                push_u32(&mut out, r.index);
                push_u16(&mut out, r.re);
                push_u16(&mut out, r.im);
                proof {
                    lemma_amplitude_records_push(rs@.subrange(0, i as int), r);
                    assert(rs@.subrange(0, i + 1) =~= rs@.subrange(0, i as int).push(r));
                    assert(out@ =~= head + amplitude_records_bytes(rs@.subrange(0, i + 1)));
                }
                i = i + 1;
            }
            assert(rs@.subrange(0, rs@.len() as int) =~= rs@);
        },
    }
    out
}

fn read_u32(b: &Vec<u8>, off: usize) -> (r: u32)
    requires
        off + 4 <= b@.len(),
    ensures
        r == u32_at(b@, off as int),
{
    let _n = b.len();
    (b[off] as u32) | ((b[off + 1] as u32) << 8u32) | ((b[off + 2] as u32) << 16u32) | ((b[off
        + 3] as u32) << 24u32)
}

fn read_u16(b: &Vec<u8>, off: usize) -> (r: u16)
    requires
        off + 2 <= b@.len(),
    ensures
        r == u16_at(b@, off as int),
{
    let _n = b.len();
    (b[off] as u16) | ((b[off + 1] as u16) << 8u16)
}

/// Reads a frame: the header, then the records its flag announces, as
/// `parse_qubits` and `parse_amplitudes` say.
pub fn decode_state(bytes: &Vec<u8>) -> (r: Result<StateFrame, WireError>)
    ensures
        bytes@.len() < 8 ==> r == Err::<StateFrame, WireError>(WireError::TooShort),
        bytes@.len() >= 8 && (u32_at(bytes@, 0) == 0 || u32_at(bytes@, 0) > 30) ==> r == Err::<
            StateFrame,
            WireError,
        >(WireError::BadQubitCount),
        bytes@.len() >= 8 && 1 <= u32_at(bytes@, 0) <= 30 ==> (r matches Ok(f) && {
            &&& f.qubit_count == u32_at(bytes@, 0)
            &&& (bytes@[4] != 0) == (f.body is Amplitudes)
            &&& match f.body {
                StateBody::Qubits(rs) => rs@ == parse_qubits(bytes@, f.qubit_count as int, 8, 0),
                StateBody::Amplitudes(rs) => rs@ == parse_amplitudes(
                    bytes@,
                    f.qubit_count as nat,
                    8,
                ),
            }
        }),
{
    if bytes.len() < 8 {
        return Err(WireError::TooShort);
    }
    let q = read_u32(bytes, 0);
    if q == 0 || q > 30 {
        return Err(WireError::BadQubitCount);
    }
    let len = bytes.len();
    if bytes[4] == 0 {
        let mut out: Vec<QubitRecord> = Vec::new();
        let mut off: usize = 8;
        let mut i: u32 = 0;
        while i < q && len - off >= 16
            invariant
                len == bytes@.len(),
                8 <= off <= len,
                i <= q,
                out@ + parse_qubits(bytes@, q as int, off as int, i as int) == parse_qubits(
                    bytes@,
                    q as int,
                    8,
                    0,
                ),
            decreases q - i,
        {
            let rec = QubitRecord {
                alpha_re: read_u32(bytes, off),
                alpha_im: read_u32(bytes, off + 4),
                beta_re: read_u32(bytes, off + 8),
                beta_im: read_u32(bytes, off + 12),
            };
            let ghost before = out@;
            out.push(rec);
            proof {
                assert(parse_qubits(bytes@, q as int, off as int, i as int) == seq![rec]
                    + parse_qubits(bytes@, q as int, off + 16, i + 1));
                assert(out@ + parse_qubits(bytes@, q as int, off + 16, i + 1) =~= before
                    + parse_qubits(bytes@, q as int, off as int, i as int));
            }
            off = off + 16;
            i = i + 1;
        }
        assert(out@ =~= out@ + parse_qubits(bytes@, q as int, off as int, i as int));
        Ok(StateFrame { qubit_count: q, body: StateBody::Qubits(out) })
    } else {
        let mask = qubit_mask(q as usize);
        let mut out: Vec<AmplitudeRecord> = Vec::new();
        let mut off: usize = 8;
        while len - off >= 8
            invariant
                len == bytes@.len(),
                8 <= off <= len,
                mask == two_pow(q as nat),
                out@ + parse_amplitudes(bytes@, q as nat, off as int) == parse_amplitudes(
                    bytes@,
                    q as nat,
                    8,
                ),
            decreases len - off,
        {
            let idx = read_u32(bytes, off);
            let ghost before = out@;
            if (idx as usize) < mask {
                let rec = AmplitudeRecord {
                    index: idx,
                    re: read_u16(bytes, off + 4),
                    im: read_u16(bytes, off + 6),
                };
                out.push(rec);
                proof {
                    assert(out@ + parse_amplitudes(bytes@, q as nat, off + 8) =~= before
                        + parse_amplitudes(bytes@, q as nat, off as int));
                }
                off = off + 8;
            } else {
                off = off + 4;
            }
        }
        assert(out@ =~= out@ + parse_amplitudes(bytes@, q as nat, off as int));
        Ok(StateFrame { qubit_count: q, body: StateBody::Amplitudes(out) })
    }
}

} // verus!
