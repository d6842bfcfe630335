//! The binary codec: little-endian four-byte words, records, and the
//! fixed-format header, each with exact decode and encode functions and
//! proofs that the two directions invert one another.

use vstd::prelude::*;
use vstd::arithmetic::div_mod::{
    lemma_div_denominator, lemma_fundamental_div_mod, lemma_fundamental_div_mod_converse,
};

use crate::error::{EGSError, EGSResult};
use crate::header::{Header, Mode};
use crate::record::Record;

verus! {

/// Number of meaningful bytes at the start of the header slot; the rest of
/// the slot, up to one record size, is padding.
pub const HEADER_LENGTH: usize = 25;

/// The little-endian word that four bytes spell.
pub open spec fn spec_le32(s: Seq<u8>) -> int
    recommends
        s.len() == 4,
{
    s[0] + s[1] * 0x100 + s[2] * 0x1_0000 + s[3] * 0x100_0000
}

/// The four bytes that spell a word, least significant first.
pub open spec fn le32_bytes(x: u32) -> Seq<u8> {
    seq![
        (x as int % 0x100) as u8,
        (x as int / 0x100 % 0x100) as u8,
        (x as int / 0x1_0000 % 0x100) as u8,
        (x as int / 0x100_0000) as u8,
    ]
}

/// Reading back the four bytes of a word gives the word.
pub proof fn lemma_le32_roundtrip(x: u32)
    ensures
        le32_bytes(x).len() == 4,
        spec_le32(le32_bytes(x)) == x,
{
    let b = x as int;
    let q1 = b / 0x100;
    let q2 = b / 0x1_0000;
    let q3 = b / 0x100_0000;
    lemma_fundamental_div_mod(b, 0x100);
    lemma_fundamental_div_mod(q1, 0x100);
    lemma_fundamental_div_mod(q2, 0x100);
    lemma_div_denominator(b, 0x100, 0x100);
    lemma_div_denominator(b, 0x1_0000, 0x100);
    assert(q1 / 0x100 == q2);
    assert(q2 / 0x100 == q3);
    assert(q3 < 0x100 && q3 >= 0) by {
        lemma_fundamental_div_mod(b, 0x100_0000);
        if q3 >= 0x100 {
            vstd::arithmetic::mul::lemma_mul_inequality(0x100, q3, 0x100_0000);
        }
        if q3 < 0 {
            vstd::arithmetic::mul::lemma_mul_inequality(q3, -1, 0x100_0000);
        }
    };
    assert(b == ((q3 * 0x100 + q2 % 0x100) * 0x100 + q1 % 0x100) * 0x100 + b % 0x100);
    assert(((q3 * 0x100 + q2 % 0x100) * 0x100 + q1 % 0x100) * 0x100 == q3 * 0x100_0000 + (q2
        % 0x100) * 0x1_0000 + (q1 % 0x100) * 0x100) by (nonlinear_arith);
}

/// Spelling out the word that four bytes read as gives back those bytes.
pub proof fn lemma_le32_bytes_of(s: Seq<u8>)
    requires
        s.len() == 4,
    ensures
        0 <= spec_le32(s) < 0x1_0000_0000,
        le32_bytes(spec_le32(s) as u32) == s,
{
    let u = spec_le32(s);
    let t1 = s[1] + s[2] * 0x100 + s[3] * 0x1_0000;
    let t2 = s[2] + s[3] * 0x100;
    let t3 = s[3] as int;
    assert(u == t1 * 0x100 + s[0]) by (nonlinear_arith)
        requires
            u == s[0] + s[1] * 0x100 + s[2] * 0x1_0000 + s[3] * 0x100_0000,
            t1 == s[1] + s[2] * 0x100 + s[3] * 0x1_0000,
    ;
    lemma_fundamental_div_mod_converse(u, 0x100, t1, s[0] as int);
    assert(t1 == t2 * 0x100 + s[1]) by (nonlinear_arith)
        requires
            t1 == s[1] + s[2] * 0x100 + s[3] * 0x1_0000,
            t2 == s[2] + s[3] * 0x100,
    ;
    lemma_fundamental_div_mod_converse(t1, 0x100, t2, s[1] as int);
    lemma_fundamental_div_mod_converse(t2, 0x100, t3, s[2] as int);
    lemma_div_denominator(u, 0x100, 0x100);
    lemma_div_denominator(u, 0x1_0000, 0x100);
    assert(u / 0x100 == t1);
    assert(u / 0x1_0000 == t2);
    assert(u / 0x100_0000 == t3);
    assert(le32_bytes(u as u32) =~= s);
}

/// The little-endian word of four bytes, read as a signed count.
pub open spec fn spec_le_i32(s: Seq<u8>) -> int
    recommends
        s.len() == 4,
{
    if spec_le32(s) < 0x8000_0000 {
        spec_le32(s)
    } else {
        spec_le32(s) - 0x1_0000_0000
    }
}

/// The four bytes that spell a signed count.
pub open spec fn le_i32_bytes(v: i32) -> Seq<u8> {
    if v >= 0 {
        le32_bytes(v as u32)
    } else {
        le32_bytes((v + 0x1_0000_0000) as u32)
    }
}

/// Reading back the four bytes of a signed count gives the count.
pub proof fn lemma_le_i32_roundtrip(v: i32)
    ensures
        le_i32_bytes(v).len() == 4,
        spec_le_i32(le_i32_bytes(v)) == v,
{
    if v >= 0 {
        lemma_le32_roundtrip(v as u32);
    } else {
        lemma_le32_roundtrip((v + 0x1_0000_0000) as u32);
    }
}

/// Spelling out the count that four bytes read as gives back those bytes.
pub proof fn lemma_le_i32_bytes_of(s: Seq<u8>)
    requires
        s.len() == 4,
    ensures
        -0x8000_0000 <= spec_le_i32(s) < 0x8000_0000,
        le_i32_bytes(spec_le_i32(s) as i32) == s,
{
    lemma_le32_bytes_of(s);
}

/// The word at byte offset `off` of the data, least significant byte first.
pub fn get_le32(data: &Vec<u8>, off: usize) -> (r: u32)
    requires
        off + 4 <= data@.len(),
    ensures
        r == spec_le32(data@.subrange(off as int, off as int + 4)),
{
    let n = data.len();
    let r = data[off] as u32 + data[off + 1] as u32 * 0x100 + data[off + 2] as u32 * 0x1_0000
        + data[off + 3] as u32 * 0x100_0000;
    proof {
        let s = data@.subrange(off as int, off as int + 4);
        assert(s[0] == data@[off as int]);
        assert(s[1] == data@[off as int + 1]);
        assert(s[2] == data@[off as int + 2]);
        assert(s[3] == data@[off as int + 3]);
    }
    r
}

/// The signed count at byte offset `off` of the data.
pub fn get_le_i32(data: &Vec<u8>, off: usize) -> (r: i32)
    requires
        off + 4 <= data@.len(),
    ensures
        r == spec_le_i32(data@.subrange(off as int, off as int + 4)),
{
    let u = get_le32(data, off);
    if u < 0x8000_0000 {
        u as i32
    } else {
        ((u as i64) - 0x1_0000_0000i64) as i32
    }
}

/// Append the four bytes of a word, least significant first.
pub fn push_le32(out: &mut Vec<u8>, x: u32)
    ensures
        final(out)@ == old(out)@ + le32_bytes(x),
{
    out.push((x % 0x100) as u8);
    out.push((x / 0x100 % 0x100) as u8);
    out.push((x / 0x1_0000 % 0x100) as u8);
    out.push((x / 0x100_0000) as u8);
    proof {
        assert(out@ =~= old(out)@ + le32_bytes(x));
    }
}

/// Append the four bytes of a signed count, least significant first.
pub fn push_le_i32(out: &mut Vec<u8>, v: i32)
    ensures
        final(out)@ == old(out)@ + le_i32_bytes(v),
{
    if v >= 0 {
        push_le32(out, v as u32);
    } else {
        push_le32(out, ((v as i64) + 0x1_0000_0000i64) as u32);
    }
}

/// The record that a record-sized span of bytes holds, under the given
/// layout.
pub open spec fn spec_decode_record(s: Seq<u8>, zlast: bool) -> Record
    recommends
        s.len() == if zlast {
            32int
        } else {
            28int
        },
{
    Record {
        latch: spec_le32(s.subrange(0, 4)) as u32,
        total_energy: spec_le32(s.subrange(4, 8)) as u32,
        x_cm: spec_le32(s.subrange(8, 12)) as u32,
        y_cm: spec_le32(s.subrange(12, 16)) as u32,
        x_cos: spec_le32(s.subrange(16, 20)) as u32,
        y_cos: spec_le32(s.subrange(20, 24)) as u32,
        weight: spec_le32(s.subrange(24, 28)) as u32,
        zlast: if zlast {
            Some(spec_le32(s.subrange(28, 32)) as u32)
        } else {
            None
        },
    }
}

/// The bytes that one record writes: seven words, and the trailing word
/// exactly when the record carries one.
pub open spec fn record_bytes(r: Record) -> Seq<u8> {
    le32_bytes(r.latch) + le32_bytes(r.total_energy) + le32_bytes(r.x_cm) + le32_bytes(r.y_cm)
        + le32_bytes(r.x_cos) + le32_bytes(r.y_cos) + le32_bytes(r.weight) + (match r.zlast {
        Some(z) => le32_bytes(z),
        None => Seq::<u8>::empty(),
    })
}

/// How long one record's bytes are.
pub proof fn lemma_record_bytes_len(r: Record)
    ensures
        record_bytes(r).len() == if r.zlast is Some {
            32int
        } else {
            28int
        },
{
}

/// Decoding bytes and writing the record back gives the same bytes.
pub proof fn lemma_record_bytes_of(s: Seq<u8>, zlast: bool)
    requires
        s.len() == if zlast {
            32int
        } else {
            28int
        },
    ensures
        record_bytes(spec_decode_record(s, zlast)) == s,
{
    lemma_le32_bytes_of(s.subrange(0, 4));
    lemma_le32_bytes_of(s.subrange(4, 8));
    lemma_le32_bytes_of(s.subrange(8, 12));
    lemma_le32_bytes_of(s.subrange(12, 16));
    lemma_le32_bytes_of(s.subrange(16, 20));
    lemma_le32_bytes_of(s.subrange(20, 24));
    lemma_le32_bytes_of(s.subrange(24, 28));
    if zlast {
        lemma_le32_bytes_of(s.subrange(28, 32));
    }
    assert(record_bytes(spec_decode_record(s, zlast)) =~= s);
}

/// Writing a record and decoding the bytes gives the same record, provided
/// its shape matches the layout written.
pub proof fn lemma_record_roundtrip(r: Record, zlast: bool)
    requires
        (r.zlast is Some) == zlast,
    ensures
        spec_decode_record(record_bytes(r), zlast) == r,
{
    let s = record_bytes(r);
    lemma_le32_roundtrip(r.latch);
    lemma_le32_roundtrip(r.total_energy);
    lemma_le32_roundtrip(r.x_cm);
    lemma_le32_roundtrip(r.y_cm);
    lemma_le32_roundtrip(r.x_cos);
    lemma_le32_roundtrip(r.y_cos);
    lemma_le32_roundtrip(r.weight);
    assert(s.subrange(0, 4) =~= le32_bytes(r.latch));
    assert(s.subrange(4, 8) =~= le32_bytes(r.total_energy));
    assert(s.subrange(8, 12) =~= le32_bytes(r.x_cm));
    assert(s.subrange(12, 16) =~= le32_bytes(r.y_cm));
    assert(s.subrange(16, 20) =~= le32_bytes(r.x_cos));
    assert(s.subrange(20, 24) =~= le32_bytes(r.y_cos));
    assert(s.subrange(24, 28) =~= le32_bytes(r.weight));
    match r.zlast {
        Some(z) => {
            lemma_le32_roundtrip(z);
            assert(s.subrange(28, 32) =~= le32_bytes(z));
        },
        None => {},
    }
}

/// The record at byte offset `off` of the data, under the given layout.
pub fn decode_record(data: &Vec<u8>, off: usize, zlast: bool) -> (r: Record)
    requires
        off + (if zlast {
            32int
        } else {
            28int
        }) <= data@.len(),
    ensures
        r == spec_decode_record(
            data@.subrange(
                off as int,
                off as int + (if zlast {
                    32int
                } else {
                    28int
                }),
            ),
            zlast,
        ),
{
    let n = data.len();
    let r = Record {
        latch: get_le32(data, off),
        total_energy: get_le32(data, off + 4),
        x_cm: get_le32(data, off + 8),
        y_cm: get_le32(data, off + 12),
        x_cos: get_le32(data, off + 16),
        y_cos: get_le32(data, off + 20),
        weight: get_le32(data, off + 24),
        zlast: if zlast {
            Some(get_le32(data, off + 28))
        } else {
            None
        },
    };
    proof {
        let o = off as int;
        let w = o + (if zlast {
            32int
        } else {
            28int
        });
        let s = data@.subrange(o, w);
        assert(s.subrange(0, 4) =~= data@.subrange(o, o + 4));
        assert(s.subrange(4, 8) =~= data@.subrange(o + 4, o + 8));
        assert(s.subrange(8, 12) =~= data@.subrange(o + 8, o + 12));
        assert(s.subrange(12, 16) =~= data@.subrange(o + 12, o + 16));
        assert(s.subrange(16, 20) =~= data@.subrange(o + 16, o + 20));
        assert(s.subrange(20, 24) =~= data@.subrange(o + 20, o + 24));
        assert(s.subrange(24, 28) =~= data@.subrange(o + 24, o + 28));
        if zlast {
            assert(s.subrange(28, 32) =~= data@.subrange(o + 28, o + 32));
        }
    }
    r
}

/// The mode that the first five bytes of the data announce, if any.
pub open spec fn spec_parse_mode(s: Seq<u8>) -> Option<Mode> {
    if s.len() >= 5 && s.subrange(0, 5) == Mode::Mode0.tag_bytes() {
        Some(Mode::Mode0)
    } else if s.len() >= 5 && s.subrange(0, 5) == Mode::Mode2.tag_bytes() {
        Some(Mode::Mode2)
    } else {
        None
    }
}

/// The record count that the header of the data declares.
pub open spec fn file_total(s: Seq<u8>) -> int
    recommends
        s.len() >= 9,
{
    spec_le_i32(s.subrange(5, 9))
}

/// A well-formed file: a known mode, a non-negative record count, and a
/// byte length of exactly one record-sized slot for the header plus one
/// record-sized span per declared record.
pub open spec fn wf_file(s: Seq<u8>) -> bool {
    &&& s.len() >= 25
    &&& spec_parse_mode(s) is Some
    &&& 0 <= file_total(s)
    &&& s.len() == (file_total(s) + 1) * spec_parse_mode(s).unwrap().spec_record_size()
}

/// The header that a well-formed file carries.
pub open spec fn file_header(s: Seq<u8>) -> Header
    recommends
        wf_file(s),
{
    let mode = spec_parse_mode(s).unwrap();
    Header {
        mode,
        total_particles: file_total(s) as i32,
        total_photons: spec_le_i32(s.subrange(9, 13)) as i32,
        max_energy: spec_le32(s.subrange(13, 17)) as u32,
        min_energy: spec_le32(s.subrange(17, 21)) as u32,
        total_particles_in_source: spec_le32(s.subrange(21, 25)) as u32,
        record_size: mode.spec_record_size() as u64,
        using_zlast: mode.spec_uses_zlast(),
    }
}

/// The records that a well-formed file carries, in file order.
pub open spec fn file_records(s: Seq<u8>) -> Seq<Record>
    recommends
        wf_file(s),
{
    let mode = spec_parse_mode(s).unwrap();
    let rs = mode.spec_record_size();
    Seq::new(
        file_total(s) as nat,
        |i: int| spec_decode_record(s.subrange((i + 1) * rs, (i + 2) * rs), mode.spec_uses_zlast()),
    )
}

/// Whether the unused tail of the header slot holds only zero bytes, as
/// this library's writer leaves it.
pub open spec fn header_padding_zero(s: Seq<u8>) -> bool
    recommends
        wf_file(s),
{
    forall|i: int|
        25 <= i < spec_parse_mode(s).unwrap().spec_record_size() ==> #[trigger] s[i] == 0u8
}

/// What `parse_header` returns on any input: too little data or a length
/// that disagrees with the declared count is a bad length, an unknown tag a
/// bad mode, and a well-formed file yields its header.
pub open spec fn spec_parse_header(s: Seq<u8>) -> Result<Header, EGSError> {
    if s.len() < 25 {
        Err(EGSError::BadLength)
    } else if spec_parse_mode(s) is None {
        Err(EGSError::BadMode)
    } else if !wf_file(s) {
        Err(EGSError::BadLength)
    } else {
        Ok(file_header(s))
    }
}

/// The mode announced by the first five bytes, if any.
fn parse_mode(data: &Vec<u8>) -> (r: Option<Mode>)
    requires
        data@.len() >= 5,
    ensures
        r == spec_parse_mode(data@),
{
    if data[0] == 0x4D && data[1] == 0x4F && data[2] == 0x44 && data[3] == 0x45 {
        if data[4] == 0x30 {
            proof {
                assert(data@.subrange(0, 5) =~= Mode::Mode0.tag_bytes());
            }
            Some(Mode::Mode0)
        } else if data[4] == 0x32 {
            proof {
                assert(data@.subrange(0, 5) =~= Mode::Mode2.tag_bytes());
                assert(data@.subrange(0, 5)[4] == 0x32u8);
            }
            Some(Mode::Mode2)
        } else {
            proof {
                assert(data@.subrange(0, 5)[4] == data@[4]);
            }
            None
        }
    } else {
        proof {
            let s = data@.subrange(0, 5);
            assert(s[0] == data@[0] && s[1] == data@[1] && s[2] == data@[2] && s[3] == data@[3]);
        }
        None
    }
}

/// Decode and validate the header at the start of the data.  Validation is
/// strict: a byte length that disagrees with the declared record count is
/// rejected rather than only reported.
pub fn parse_header(data: &Vec<u8>) -> (r: EGSResult<Header>)
    ensures
        r == spec_parse_header(data@),
        r is Ok ==> wf_file(data@) && r == Ok::<Header, EGSError>(file_header(data@))
            && file_header(data@).wf() && data@.len() == file_header(data@).spec_expected_size(),
{
    if data.len() < 25 {
        return Err(EGSError::BadLength);
    }
    let mode = match parse_mode(data) {
        Some(m) => m,
        None => { return Err(EGSError::BadMode) },
    };
    let total = get_le_i32(data, 5);
    proof {
        assert(file_total(data@) == total);
    }
    if total < 0 {
        return Err(EGSError::BadLength);
    }
    let rs = mode.record_size();
    let expected = (total as u64 + 1) * rs;
    proof {
        assert((total as u64 + 1) * rs <= 0x8000_0000u64 * 32) by (nonlinear_arith)
            requires
                0 <= total < 0x8000_0000,
                rs == 28 || rs == 32,
        ;
    }
    if data.len() as u64 != expected {
        return Err(EGSError::BadLength);
    }
    Ok(
        Header {
            mode,
            total_particles: total,
            total_photons: get_le_i32(data, 9),
            max_energy: get_le32(data, 13),
            min_energy: get_le32(data, 17),
            total_particles_in_source: get_le32(data, 21),
            record_size: rs,
            using_zlast: mode.uses_zlast(),
        },
    )
}

/// The bytes of one header slot: the five-byte tag, the five fields, and
/// zero padding out to one record size.
pub open spec fn header_bytes(h: Header) -> Seq<u8> {
    h.mode.tag_bytes() + le_i32_bytes(h.total_particles) + le_i32_bytes(h.total_photons)
        + le32_bytes(h.max_energy) + le32_bytes(h.min_energy) + le32_bytes(
        h.total_particles_in_source,
    ) + Seq::new((h.record_size - 25) as nat, |i: int| 0u8)
}

/// A well-formed header writes exactly one record-sized slot.
pub proof fn lemma_header_bytes_len(h: Header)
    requires
        h.wf(),
    ensures
        header_bytes(h).len() == h.record_size,
{
}

/// Append one header slot's bytes.
pub fn append_header(out: &mut Vec<u8>, h: &Header)
    requires
        h.wf(),
    ensures
        final(out)@ == old(out)@ + header_bytes(*h),
{
    match h.mode {
        Mode::Mode0 => {
            out.push(0x4D);
            out.push(0x4F);
            out.push(0x44);
            out.push(0x45);
            out.push(0x30);
        },
        Mode::Mode2 => {
            out.push(0x4D);
            out.push(0x4F);
            out.push(0x44);
            out.push(0x45);
            out.push(0x32);
        },
    }
    push_le_i32(out, h.total_particles);
    push_le_i32(out, h.total_photons);
    push_le32(out, h.max_energy);
    push_le32(out, h.min_energy);
    push_le32(out, h.total_particles_in_source);
    proof {
        assert(out@ =~= old(out)@ + h.mode.tag_bytes() + le_i32_bytes(h.total_particles)
            + le_i32_bytes(h.total_photons) + le32_bytes(h.max_energy) + le32_bytes(h.min_energy)
            + le32_bytes(h.total_particles_in_source));
    }
    let ghost before_padding = out@;
    let mut i: u64 = 25;
    while i < h.record_size
        invariant
            25 <= i <= h.record_size,
            h.record_size <= 32,
            out@ == before_padding + Seq::new((i - 25) as nat, |j: int| 0u8),
        decreases h.record_size - i,
    {
        out.push(0);
        i = i + 1;
        proof {
            assert(out@ =~= before_padding + Seq::new((i - 25) as nat, |j: int| 0u8));
        }
    }
    proof {
        assert(out@ =~= old(out)@ + header_bytes(*h));
    }
}

/// The bytes of a run of records, in order.
pub open spec fn records_bytes(recs: Seq<Record>) -> Seq<u8>
    decreases recs.len(),
{
    if recs.len() == 0 {
        Seq::empty()
    } else {
        records_bytes(recs.drop_last()) + record_bytes(recs.last())
    }
}

/// The bytes of a whole file: one header slot, then the records.
pub open spec fn file_bytes(h: Header, recs: Seq<Record>) -> Seq<u8> {
    header_bytes(h) + records_bytes(recs)
}

/// The bytes of a run of records of one shape take one record size per
/// record.
pub proof fn lemma_records_bytes_len(recs: Seq<Record>, zlast: bool)
    requires
        forall|i: int| 0 <= i < recs.len() ==> ((#[trigger] recs[i]).zlast is Some) == zlast,
    ensures
        records_bytes(recs).len() == recs.len() * (if zlast {
            32int
        } else {
            28int
        }),
    decreases recs.len(),
{
    let rs: int = if zlast {
        32
    } else {
        28
    };
    if recs.len() != 0 {
        lemma_records_bytes_len(recs.drop_last(), zlast);
        lemma_record_bytes_len(recs.last());
        assert(recs.len() * rs == (recs.len() - 1) * rs + rs) by (nonlinear_arith);
    }
}

/// Within the bytes of a run of records of one shape, record `k` occupies
/// the `k`-th record-sized span.
pub proof fn lemma_records_bytes_index(recs: Seq<Record>, zlast: bool, k: int)
    requires
        forall|i: int| 0 <= i < recs.len() ==> ((#[trigger] recs[i]).zlast is Some) == zlast,
        0 <= k < recs.len(),
    ensures
        ({
            let rs: int = if zlast {
                32
            } else {
                28
            };
            records_bytes(recs).subrange(k * rs, (k + 1) * rs) == record_bytes(recs[k])
        }),
    decreases recs.len(),
{
    let rs: int = if zlast {
        32
    } else {
        28
    };
    lemma_records_bytes_len(recs, zlast);
    lemma_records_bytes_len(recs.drop_last(), zlast);
    lemma_record_bytes_len(recs.last());
    assert(recs.len() * rs == (recs.len() - 1) * rs + rs) by (nonlinear_arith);
    if k == recs.len() - 1 {
        assert(records_bytes(recs).subrange(k * rs, (k + 1) * rs) =~= record_bytes(recs[k]));
    } else {
        lemma_records_bytes_index(recs.drop_last(), zlast, k);
        assert((k + 1) * rs <= (recs.len() - 1) * rs) by (nonlinear_arith)
            requires
                k + 1 <= recs.len() - 1,
                rs > 0,
        ;
        assert(0 <= k * rs) by (nonlinear_arith)
            requires
                0 <= k,
                rs > 0,
        ;
        assert(records_bytes(recs).subrange(k * rs, (k + 1) * rs) =~= records_bytes(
            recs.drop_last(),
        ).subrange(k * rs, (k + 1) * rs));
    }
}

/// Re-encoding the header of a well-formed, zero-padded file reproduces its
/// first record-sized slot byte for byte.
pub proof fn lemma_header_bytes_of(s: Seq<u8>)
    requires
        wf_file(s),
        header_padding_zero(s),
    ensures
        header_bytes(file_header(s)) == s.subrange(
            0,
            spec_parse_mode(s).unwrap().spec_record_size(),
        ),
{
    let mode = spec_parse_mode(s).unwrap();
    let rs = mode.spec_record_size();
    let h = file_header(s);
    vstd::arithmetic::mul::lemma_mul_inequality(1, file_total(s) + 1, rs);
    lemma_le_i32_bytes_of(s.subrange(5, 9));
    lemma_le_i32_bytes_of(s.subrange(9, 13));
    lemma_le32_bytes_of(s.subrange(13, 17));
    lemma_le32_bytes_of(s.subrange(17, 21));
    lemma_le32_bytes_of(s.subrange(21, 25));
    assert(header_bytes(h) =~= s.subrange(0, rs));
}

/// The records of a well-formed file, re-encoded in order, reproduce the
/// file's record area: the first `k` records yield exactly the bytes up to
/// span `k`.
#[verifier::rlimit(100)]
proof fn lemma_file_records_prefix(s: Seq<u8>, k: int)
    requires
        wf_file(s),
        0 <= k <= file_total(s),
    ensures
        ({
            let rs = spec_parse_mode(s).unwrap().spec_record_size();
            records_bytes(file_records(s).take(k)) == s.subrange(rs, (k + 1) * rs)
        }),
    decreases k,
{
    let mode = spec_parse_mode(s).unwrap();
    let rs = mode.spec_record_size();
    let recs = file_records(s);
    vstd::arithmetic::mul::lemma_mul_inequality(k + 1, file_total(s) + 1, rs);
    if k == 0 {
        assert(records_bytes(recs.take(0)) =~= s.subrange(rs, rs));
    } else {
        lemma_file_records_prefix(s, k - 1);
        assert(recs.take(k).drop_last() =~= recs.take(k - 1));
        assert(recs.take(k).last() == recs[k - 1]);
        vstd::arithmetic::mul::lemma_mul_inequality(k, file_total(s) + 1, rs);
        assert(k * rs + rs == (k + 1) * rs) by (nonlinear_arith);
        assert((k - 1 + 1) * rs == k * rs);
        assert(0 <= k * rs) by (nonlinear_arith)
            requires
                0 <= k,
                rs > 0,
        ;
        lemma_record_bytes_of(s.subrange(k * rs, (k + 1) * rs), mode.spec_uses_zlast());
        assert(recs[k - 1] == spec_decode_record(
            s.subrange(k * rs, (k + 1) * rs),
            mode.spec_uses_zlast(),
        ));
        assert(s.subrange(rs, (k + 1) * rs) =~= s.subrange(rs, k * rs) + s.subrange(
            k * rs,
            (k + 1) * rs,
        ));
        assert(records_bytes(recs.take(k)) == records_bytes(recs.take(k - 1)) + record_bytes(
            recs[k - 1],
        ));
    }
}

/// Re-encoding everything a well-formed, zero-padded file holds reproduces
/// the file byte for byte.
pub proof fn lemma_file_identity(s: Seq<u8>)
    requires
        wf_file(s),
        header_padding_zero(s),
    ensures
        file_bytes(file_header(s), file_records(s)) == s,
{
    let rs = spec_parse_mode(s).unwrap().spec_record_size();
    let total = file_total(s);
    lemma_header_bytes_of(s);
    lemma_file_records_prefix(s, total);
    assert(file_records(s).take(total) =~= file_records(s));
    assert(s =~= s.subrange(0, rs) + s.subrange(rs, (total + 1) * rs));
    assert(file_bytes(file_header(s), file_records(s)) =~= s);
}

/// Parsing the bytes that a header and a matching run of records write
/// gives back exactly that header and those records.
#[verifier::rlimit(100)]
pub proof fn lemma_parse_of_file_bytes(h: Header, recs: Seq<Record>)
    requires
        h.wf(),
        recs.len() == h.total_particles,
        forall|i: int|
            0 <= i < recs.len() ==> ((#[trigger] recs[i]).zlast is Some) == h.using_zlast,
    ensures
        ({
            let s = file_bytes(h, recs);
            &&& s.len() == (h.total_particles + 1) * h.record_size
            &&& wf_file(s)
            &&& header_padding_zero(s)
            &&& file_header(s) == h
            &&& file_records(s) == recs
        }),
{
    let s = file_bytes(h, recs);
    let rs = h.mode.spec_record_size();
    let zl = h.mode.spec_uses_zlast();
    lemma_header_bytes_len(h);
    lemma_records_bytes_len(recs, zl);
    assert(s.len() == rs + recs.len() * rs);
    assert(rs + recs.len() * rs == (recs.len() + 1) * rs) by (nonlinear_arith);
    // the head of the slot: tag and the five fields
    lemma_le_i32_roundtrip(h.total_particles);
    lemma_le_i32_roundtrip(h.total_photons);
    lemma_le32_roundtrip(h.max_energy);
    lemma_le32_roundtrip(h.min_energy);
    lemma_le32_roundtrip(h.total_particles_in_source);
    assert(s.subrange(0, 5) =~= h.mode.tag_bytes());
    assert(spec_parse_mode(s) == Some(h.mode)) by {
        if h.mode is Mode0 {
            assert(s.subrange(0, 5) == Mode::Mode0.tag_bytes());
        } else {
            assert(s.subrange(0, 5)[4] == 0x32u8);
            assert(Mode::Mode0.tag_bytes()[4] == 0x30u8);
            assert(s.subrange(0, 5) != Mode::Mode0.tag_bytes());
            assert(s.subrange(0, 5) == Mode::Mode2.tag_bytes());
        }
    };
    assert(s.subrange(5, 9) =~= le_i32_bytes(h.total_particles));
    assert(s.subrange(9, 13) =~= le_i32_bytes(h.total_photons));
    assert(s.subrange(13, 17) =~= le32_bytes(h.max_energy));
    assert(s.subrange(17, 21) =~= le32_bytes(h.min_energy));
    assert(s.subrange(21, 25) =~= le32_bytes(h.total_particles_in_source));
    assert(wf_file(s));
    assert(file_header(s) == h);
    assert forall|i: int| 25 <= i < rs implies #[trigger] s[i] == 0u8 by {
        assert(s[i] == header_bytes(h)[i]);
    };
    // each record-sized span of the record area decodes to its record
    assert forall|i: int| 0 <= i < recs.len() implies file_records(s)[i] == recs[i] by {
        lemma_records_bytes_index(recs, zl, i);
        lemma_record_roundtrip(recs[i], zl);
        assert(0 <= i * rs) by (nonlinear_arith)
            requires
                0 <= i,
                rs > 0,
        ;
        assert((i + 1) * rs <= recs.len() * rs) by (nonlinear_arith)
            requires
                i + 1 <= recs.len(),
                rs > 0,
        ;
        assert(i * rs + rs == (i + 1) * rs) by (nonlinear_arith);
        assert(s.subrange((i + 1) * rs, (i + 2) * rs) =~= records_bytes(recs).subrange(
            i * rs,
            (i + 1) * rs,
        ));
        assert((i + 1) * rs + rs == (i + 2) * rs) by (nonlinear_arith);
    };
    assert(file_records(s) =~= recs);
}

/// Append one record's bytes.
pub fn append_record(out: &mut Vec<u8>, r: &Record)
    ensures
        final(out)@ == old(out)@ + record_bytes(*r),
{
    push_le32(out, r.latch);
    push_le32(out, r.total_energy);
    push_le32(out, r.x_cm);
    push_le32(out, r.y_cm);
    push_le32(out, r.x_cos);
    push_le32(out, r.y_cos);
    push_le32(out, r.weight);
    match r.zlast {
        Some(z) => push_le32(out, z),
        None => (),
    }
    proof {
        assert(out@ =~= old(out)@ + record_bytes(*r));
    }
}

} // verus!
