//! The file-level operations: combining, comparing, resampling, mapping
//! and permuting whole file images.  Each works on byte images in memory;
//! reading those images from disk and writing them back is the thin outer
//! layer's business.

use vstd::prelude::*;

use crate::binary32::{max_bits, min_bits, spec_max_bits, spec_min_bits};
use crate::codec::{
    file_bytes, file_header, file_records, file_total, header_padding_zero,
    lemma_file_identity, lemma_parse_of_file_bytes, parse_header, spec_parse_header, wf_file,
};
use crate::error::{EGSError, EGSResult};
use crate::header::{Header, Mode};
use crate::record::{
    energy_positive, lemma_record_similar_self, record_finite, record_similar, Record,
};
use crate::rng::{rng_from_seed, rng_next_u64, shuffle};
use rand::rngs::StdRng;
use crate::stream::{read_file, write_file, PHSPWriter};
use vstd::seq_lib::{group_to_multiset_ensures, lemma_multiset_commutative, to_multiset_remove};
use vstd::multiset::Multiset;

verus! {

/// The first `k` inputs all parse as well-formed files.
pub open spec fn all_wf(ins: Seq<Vec<u8>>, k: int) -> bool {
    forall|i: int| 0 <= i < k ==> wf_file(#[trigger] ins[i]@)
}

/// The summed record count of the first `k` inputs.
pub open spec fn sum_totals(ins: Seq<Vec<u8>>, k: int) -> int
    decreases k,
{
    if k <= 0 {
        0
    } else {
        sum_totals(ins, k - 1) + file_total(ins[k - 1]@)
    }
}

/// The summed photon count of the first `k` inputs.
pub open spec fn sum_photons(ins: Seq<Vec<u8>>, k: int) -> int
    decreases k,
{
    if k <= 0 {
        0
    } else {
        sum_photons(ins, k - 1) + file_header(ins[k - 1]@).total_photons
    }
}

/// The records of the first `k` inputs, in input order.
pub open spec fn concat_records(ins: Seq<Vec<u8>>, k: int) -> Seq<Record>
    decreases k,
{
    if k <= 0 {
        Seq::empty()
    } else {
        concat_records(ins, k - 1) + file_records(ins[k - 1]@)
    }
}

/// The lowest minimum-energy pattern among the first `k` inputs, folded
/// left as merging does.
pub open spec fn fold_min_energy(ins: Seq<Vec<u8>>, k: int) -> u32
    decreases k,
{
    if k <= 1 {
        file_header(ins[0]@).min_energy
    } else {
        spec_min_bits(fold_min_energy(ins, k - 1), file_header(ins[k - 1]@).min_energy)
    }
}

/// The highest maximum-energy pattern among the first `k` inputs, folded
/// left as merging does.
pub open spec fn fold_max_energy(ins: Seq<Vec<u8>>, k: int) -> u32
    decreases k,
{
    if k <= 1 {
        file_header(ins[0]@).max_energy
    } else {
        spec_max_bits(fold_max_energy(ins, k - 1), file_header(ins[k - 1]@).max_energy)
    }
}

/// `source` is a possible left fold of the caller's addition over the
/// source counts of the first `k` inputs.
pub open spec fn source_chain<F: Fn(u32, u32) -> u32>(
    f: F,
    ins: Seq<Vec<u8>>,
    k: int,
    source: u32,
) -> bool
    decreases k,
{
    if k <= 1 {
        source == file_header(ins[0]@).total_particles_in_source
    } else {
        exists|prev: u32|
            source_chain(f, ins, k - 1, prev) && #[trigger] call_ensures(
                f,
                (prev, file_header(ins[k - 1]@).total_particles_in_source),
                source,
            )
    }
}

/// The header that combining the first `k` inputs produces, given the
/// source count that the fold of the caller's addition yielded.
pub open spec fn combined_header(ins: Seq<Vec<u8>>, k: int, source: u32) -> Header {
    Header {
        mode: file_header(ins[0]@).mode,
        total_particles: sum_totals(ins, k) as i32,
        total_photons: sum_photons(ins, k) as i32,
        min_energy: fold_min_energy(ins, k),
        max_energy: fold_max_energy(ins, k),
        total_particles_in_source: source,
        record_size: file_header(ins[0]@).record_size,
        using_zlast: file_header(ins[0]@).using_zlast,
    }
}

/// Every partial count that combining would accumulate stays within the
/// header's signed four-byte count fields.  Combining inputs whose counts
/// overflow those fields is a programming error, as it is in the header
/// merge itself.
pub open spec fn counts_fit(ins: Seq<Vec<u8>>) -> bool {
    forall|k: int|
        1 <= k <= ins.len() && all_wf(ins, k) ==> (#[trigger] sum_totals(ins, k)) < 0x8000_0000
            && -0x8000_0000 <= sum_photons(ins, k) < 0x8000_0000
}

/// The error that combining stops on, scanning the inputs in order: the
/// first input that does not parse, or the first whose mode differs from
/// the first input's.
pub open spec fn first_combine_error(ins: Seq<Vec<u8>>, k: int) -> Option<EGSError>
    decreases k,
{
    if k <= 0 {
        None
    } else if first_combine_error(ins, k - 1) is Some {
        first_combine_error(ins, k - 1)
    } else if !wf_file(ins[k - 1]@) {
        Some(spec_parse_header(ins[k - 1]@)->Err_0)
    } else if k >= 2 && file_header(ins[k - 1]@).mode != file_header(ins[0]@).mode {
        Some(EGSError::ModeMismatch)
    } else {
        None
    }
}

/// A run of well-formed inputs contributes exactly its summed record
/// count.
proof fn lemma_concat_records_len(ins: Seq<Vec<u8>>, k: int)
    requires
        0 <= k <= ins.len(),
        all_wf(ins, k),
    ensures
        concat_records(ins, k).len() == sum_totals(ins, k),
    decreases k,
{
    if k > 0 {
        lemma_concat_records_len(ins, k - 1);
    }
}

/// Concatenate one or more files: the headers merge (counts sum, energy
/// bounds widen, and `add_source`, the caller's addition on the stored
/// four-byte source counts, folds the source fields), and every record of
/// every input follows in input order.  Succeeds exactly when every input
/// parses and all carry the same mode.
#[verifier::rlimit(100)]
pub fn combine<F: Fn(u32, u32) -> u32>(inputs: &Vec<Vec<u8>>, add_source: &F) -> (r: EGSResult<
    Vec<u8>,
>)
    requires
        inputs@.len() >= 1,
        forall|args: (u32, u32)| #[trigger] call_requires(*add_source, args),
        counts_fit(inputs@),
    ensures
        match r {
            Ok(out) => {
                &&& first_combine_error(inputs@, inputs@.len() as int) is None
                &&& wf_file(out@)
                &&& header_padding_zero(out@)
                &&& file_header(out@) == combined_header(
                    inputs@,
                    inputs@.len() as int,
                    file_header(out@).total_particles_in_source,
                )
                &&& source_chain(
                    *add_source,
                    inputs@,
                    inputs@.len() as int,
                    file_header(out@).total_particles_in_source,
                )
                &&& file_records(out@) == concat_records(inputs@, inputs@.len() as int)
                &&& out@ == file_bytes(file_header(out@), file_records(out@))
            },
            Err(e) => first_combine_error(inputs@, inputs@.len() as int) == Some(e),
        },
{
    let ghost ins = inputs@;
    let ghost n = inputs@.len() as int;
    proof {
        assert(first_combine_error(ins, 0) is None);
        assert(sum_totals(ins, 0) == 0);
        assert(sum_photons(ins, 0) == 0);
        assert(concat_records(ins, 0) =~= Seq::<Record>::empty());
    }
    let mut final_header = match parse_header(&inputs[0]) {
        Ok(h) => h,
        Err(e) => {
            proof {
                assert(first_combine_error(ins, 1) == Some(e));
                lemma_first_error_sticks(ins, 1, n);
            }
            return Err(e);
        },
    };
    let mut j: usize = 1;
    while j < inputs.len()
        invariant
            1 <= j <= n,
            n == inputs@.len(),
            ins == inputs@,
            inputs@.len() >= 1,
            forall|args: (u32, u32)| #[trigger] call_requires(*add_source, args),
            counts_fit(ins),
            all_wf(ins, j as int),
            forall|i: int|
                0 <= i < j ==> file_header(#[trigger] ins[i]@).mode == file_header(ins[0]@).mode,
            first_combine_error(ins, j as int) is None,
            final_header.wf(),
            final_header == combined_header(
                ins,
                j as int,
                final_header.total_particles_in_source,
            ),
            source_chain(*add_source, ins, j as int, final_header.total_particles_in_source),
        decreases n - j,
    {
        let h = match parse_header(&inputs[j]) {
            Ok(h) => h,
            Err(e) => {
                proof {
                    assert(first_combine_error(ins, j + 1) == Some(e));
                    lemma_first_error_sticks(ins, j + 1, n);
                }
                return Err(e);
            },
        };
        if h.mode != final_header.mode {
            proof {
                assert(first_combine_error(ins, j + 1) == Some(EGSError::ModeMismatch));
                lemma_first_error_sticks(ins, j + 1, n);
            }
            return Err(EGSError::ModeMismatch);
        }
        proof {
            assert(all_wf(ins, j + 1));
            assert(sum_totals(ins, j + 1) < 0x8000_0000 && -0x8000_0000 <= sum_photons(
                ins,
                j + 1,
            ) < 0x8000_0000);
            assert(sum_totals(ins, j as int) >= 0) by {
                lemma_sum_totals_nonneg(ins, j as int);
            };
        }
        let ghost prev_src = final_header.total_particles_in_source;
        final_header.merge(&h, add_source);
        j = j + 1;
        proof {
            assert(source_chain(
                *add_source,
                ins,
                j as int,
                final_header.total_particles_in_source,
            )) by {
                assert(source_chain(*add_source, ins, j - 1, prev_src));
                assert(call_ensures(
                    *add_source,
                    (prev_src, file_header(ins[j - 1]@).total_particles_in_source),
                    final_header.total_particles_in_source,
                ));
            };
        }
    }
    proof {
        lemma_concat_records_len(ins, n);
        lemma_sum_totals_nonneg(ins, n);
    }
    let mut writer = PHSPWriter::from(&final_header);
    let mut i: usize = 0;
    while i < inputs.len()
        invariant
            0 <= i <= n,
            n == inputs@.len(),
            ins == inputs@,
            all_wf(ins, n),
            forall|k: int|
                0 <= k < n ==> file_header(#[trigger] ins[k]@).mode == file_header(ins[0]@).mode,
            writer.wf(),
            writer.spec_header() == final_header,
            final_header.wf(),
            final_header.mode == file_header(ins[0]@).mode,
            writer.written_records() == concat_records(ins, i as int),
        decreases n - i,
    {
        let (h, records) = match read_file(&inputs[i]) {
            Ok(p) => p,
            Err(e) => {
                proof {
                    assert(false);
                }
                return Err(e);
            },
        };
        let mut t: usize = 0;
        proof {
            assert(writer.written_records() =~= concat_records(ins, i as int) + records@.take(0));
        }
        while t < records.len()
            invariant
                0 <= t <= records@.len(),
                0 <= i < n,
                ins == inputs@,
                records@ == file_records(ins[i as int]@),
                wf_file(ins[i as int]@),
                file_header(ins[i as int]@).mode == final_header.mode,
                writer.wf(),
                writer.spec_header() == final_header,
                final_header.wf(),
                writer.written_records() == concat_records(ins, i as int) + records@.take(
                    t as int,
                ),
            decreases records@.len() - t,
        {
            let rec = records[t];
            proof {
                lemma_file_record_shapes(ins[i as int]@, t as int);
            }
            writer.write(&rec);
            t = t + 1;
            proof {
                assert(concat_records(ins, i as int) + records@.take(t as int)
                    =~= (concat_records(ins, i as int) + records@.take(t - 1)).push(
                    records@[t - 1],
                ));
            }
        }
        i = i + 1;
        proof {
            assert(records@.take(records@.len() as int) =~= records@);
            assert(writer.written_records() == concat_records(ins, i as int));
        }
    }
    let ghost written = writer.written_records();
    let out = writer.into_bytes();
    proof {
        lemma_concat_records_shapes(ins, n, final_header.using_zlast);
        lemma_parse_of_file_bytes(final_header, written);
    }
    Ok(out)
}

/// What comparing two file images decides: a parse failure of either side
/// first, then a header difference, then the first dissimilar record pair.
pub open spec fn spec_compare(s1: Seq<u8>, s2: Seq<u8>) -> Result<(), EGSError> {
    if !wf_file(s1) {
        Err(spec_parse_header(s1)->Err_0)
    } else if !wf_file(s2) {
        Err(spec_parse_header(s2)->Err_0)
    } else if !file_header(s1).similar_spec(file_header(s2)) {
        Err(EGSError::HeaderMismatch)
    } else if exists|i: int|
        0 <= i < file_records(s1).len() && i < file_records(s2).len() && !#[trigger] record_similar(
            file_records(s1)[i],
            file_records(s2)[i],
        ) {
        Err(EGSError::RecordMismatch)
    } else {
        Ok(())
    }
}

/// Compare two file images: the headers must be similar (equal modes and
/// counts, near-equal energy bounds and source counts), and then every
/// record pair in file order must be similar under the fixed tolerance.
pub fn compare(first: &Vec<u8>, second: &Vec<u8>) -> (r: EGSResult<()>)
    ensures
        r == spec_compare(first@, second@),
{
    let (h1, recs1) = match read_file(first) {
        Ok(p) => p,
        Err(e) => { return Err(e) },
    };
    let (h2, recs2) = match read_file(second) {
        Ok(p) => p,
        Err(e) => { return Err(e) },
    };
    if !h1.similar_to(&h2) {
        return Err(EGSError::HeaderMismatch);
    }
    let mut i: usize = 0;
    while i < recs1.len() && i < recs2.len()
        invariant
            recs1@ == file_records(first@),
            recs2@ == file_records(second@),
            wf_file(first@),
            wf_file(second@),
            file_header(first@).similar_spec(file_header(second@)),
            0 <= i <= recs1@.len(),
            i <= recs2@.len(),
            forall|k: int|
                0 <= k < i ==> #[trigger] record_similar(recs1@[k], recs2@[k]),
        decreases recs1@.len() - i,
    {
        let a = recs1[i];
        let b = recs2[i];
        if !a.similar_to(&b) {
            proof {
                assert(!record_similar(
                    file_records(first@)[i as int],
                    file_records(second@)[i as int],
                ));
            }
            return Err(EGSError::RecordMismatch);
        }
        i = i + 1;
    }
    proof {
        assert(recs1@.len() == recs2@.len());
    }
    Ok(())
}

/// Comparing a well-formed file with itself succeeds, provided every
/// record field encodes a finite number: a header is always similar to
/// itself, and a record of finite fields differs from itself by nothing.
pub proof fn lemma_compare_self(s: Seq<u8>)
    requires
        wf_file(s),
        forall|i: int|
            0 <= i < file_records(s).len() ==> record_finite(#[trigger] file_records(s)[i]),
    ensures
        spec_compare(s, s) == Ok::<(), EGSError>(()),
{
    assert forall|i: int|
        0 <= i < file_records(s).len() implies #[trigger] record_similar(
        file_records(s)[i],
        file_records(s)[i],
    ) by {
        lemma_record_similar_self(file_records(s)[i]);
    };
}

/// Apply a caller-supplied record map to every record of a file image,
/// keeping the header: the shared body of the geometric transforms and of
/// reweighting.  The map must keep each record's layout (it may not add or
/// drop the trailing field).
pub fn map_records<F: Fn(Record) -> Record>(data: &Vec<u8>, f: &F) -> (r: EGSResult<Vec<u8>>)
    requires
        forall|rec: Record| #[trigger] call_requires(*f, (rec,)),
        forall|rec: Record, out: Record|
            #[trigger] call_ensures(*f, (rec,), out) ==> (out.zlast is Some) == (rec.zlast
                is Some),
    ensures
        match r {
            Ok(out) => {
                &&& wf_file(data@)
                &&& wf_file(out@)
                &&& header_padding_zero(out@)
                &&& file_header(out@) == file_header(data@)
                &&& file_records(out@).len() == file_records(data@).len()
                &&& forall|i: int|
                    0 <= i < file_records(data@).len() ==> call_ensures(
                        *f,
                        (file_records(data@)[i],),
                        #[trigger] file_records(out@)[i],
                    )
                &&& out@ == file_bytes(file_header(data@), file_records(out@))
            },
            Err(e) => {
                &&& !wf_file(data@)
                &&& spec_parse_header(data@) == Err::<Header, EGSError>(e)
            },
        },
{
    let (header, records) = match read_file(data) {
        Ok(p) => p,
        Err(e) => { return Err(e) },
    };
    let mut writer = PHSPWriter::from(&header);
    let mut i: usize = 0;
    while i < records.len()
        invariant
            wf_file(data@),
            records@ == file_records(data@),
            header == file_header(data@),
            header.wf(),
            writer.wf(),
            writer.spec_header() == header,
            0 <= i <= records@.len(),
            writer.written_records().len() == i,
            forall|k: int|
                0 <= k < i ==> call_ensures(
                    *f,
                    (records@[k],),
                    #[trigger] writer.written_records()[k],
                ),
            forall|rec: Record| #[trigger] call_requires(*f, (rec,)),
            forall|rec: Record, out: Record|
                #[trigger] call_ensures(*f, (rec,), out) ==> (out.zlast is Some) == (rec.zlast
                    is Some),
        decreases records@.len() - i,
    {
        let rec = records[i];
        let mapped = f(rec);
        proof {
            lemma_file_record_shapes(data@, i as int);
        }
        writer.write(&mapped);
        i = i + 1;
    }
    let ghost written = writer.written_records();
    let out = writer.into_bytes();
    proof {
        assert forall|k: int|
            0 <= k < written.len() implies ((#[trigger] written[k]).zlast is Some)
            == header.using_zlast by {
            lemma_file_record_shapes(data@, k);
        };
        lemma_parse_of_file_bytes(header, written);
    }
    Ok(out)
}

/// Writing back every record of a zero-padded file unchanged, under its
/// own header, reproduces the file byte for byte: a record map that leaves
/// every record alone leaves the whole image alone.
pub proof fn lemma_map_unchanged(data: Seq<u8>, mapped: Seq<Record>)
    requires
        wf_file(data),
        header_padding_zero(data),
        mapped == file_records(data),
    ensures
        file_bytes(file_header(data), mapped) == data,
{
    lemma_file_identity(data);
}

/// Once the scan has found an error, every longer scan reports the same
/// one.
proof fn lemma_first_error_sticks(ins: Seq<Vec<u8>>, k: int, n: int)
    requires
        0 <= k <= n,
        first_combine_error(ins, k) is Some,
    ensures
        first_combine_error(ins, n) == first_combine_error(ins, k),
    decreases n - k,
{
    if k < n {
        lemma_first_error_sticks(ins, k + 1, n);
    }
}

/// Summed record counts of well-formed files only grow with more files.
proof fn lemma_sum_totals_mono(ins: Seq<Vec<u8>>, a: int, b: int)
    requires
        0 <= a <= b <= ins.len(),
        all_wf(ins, b),
    ensures
        sum_totals(ins, a) <= sum_totals(ins, b),
    decreases b - a,
{
    if a < b {
        lemma_sum_totals_mono(ins, a, b - 1);
    }
}

/// Summed record counts of well-formed files never go negative.
proof fn lemma_sum_totals_nonneg(ins: Seq<Vec<u8>>, k: int)
    requires
        0 <= k <= ins.len(),
        all_wf(ins, k),
    ensures
        sum_totals(ins, k) >= 0,
    decreases k,
{
    if k > 0 {
        lemma_sum_totals_nonneg(ins, k - 1);
    }
}

/// Each record of a well-formed file has the shape of the file's mode.
proof fn lemma_file_record_shapes(s: Seq<u8>, i: int)
    requires
        wf_file(s),
        0 <= i < file_records(s).len(),
    ensures
        (file_records(s)[i].zlast is Some) == file_header(s).using_zlast,
{
}

/// All records of a run of same-mode files share that mode's shape.
proof fn lemma_concat_records_shapes(ins: Seq<Vec<u8>>, k: int, zlast: bool)
    requires
        0 <= k <= ins.len(),
        all_wf(ins, k),
        forall|i: int|
            0 <= i < k ==> file_header(#[trigger] ins[i]@).using_zlast == zlast,
    ensures
        forall|i: int|
            0 <= i < concat_records(ins, k).len() ==> ((#[trigger] concat_records(ins, k)[i]).zlast
                is Some) == zlast,
    decreases k,
{
    if k > 0 {
        lemma_concat_records_shapes(ins, k - 1, zlast);
        assert forall|i: int| 0 <= i < concat_records(ins, k).len() implies ((
        #[trigger] concat_records(ins, k)[i]).zlast is Some) == zlast by {
            let prefix = concat_records(ins, k - 1);
            if i < prefix.len() {
                assert(concat_records(ins, k)[i] == prefix[i]);
            } else {
                lemma_file_record_shapes(ins[k - 1]@, i - prefix.len());
            }
        };
    }
}

/// Combining a single zero-padded file writes it back byte for byte: the
/// lone header folds to itself, the record run is its own, and re-encoding
/// a well-formed zero-padded image is the identity.
#[verifier::rlimit(100)]
pub proof fn lemma_combine_single(ins: Seq<Vec<u8>>, source: u32)
    requires
        ins.len() == 1,
        wf_file(ins[0]@),
        header_padding_zero(ins[0]@),
        source == file_header(ins[0]@).total_particles_in_source,
    ensures
        combined_header(ins, 1, source) == file_header(ins[0]@),
        concat_records(ins, 1) == file_records(ins[0]@),
        file_bytes(combined_header(ins, 1, source), concat_records(ins, 1)) == ins[0]@,
{
    assert(concat_records(ins, 0) =~= Seq::<Record>::empty());
    assert(concat_records(ins, 1) =~= file_records(ins[0]@));
    assert(sum_totals(ins, 0) == 0);
    assert(sum_photons(ins, 0) == 0);
    assert(combined_header(ins, 1, source).total_particles == file_header(
        ins[0]@,
    ).total_particles);
    assert(combined_header(ins, 1, source).total_photons == file_header(ins[0]@).total_photons);
    lemma_file_identity(ins[0]@);
}

/// How a resampling keeps records: every one, or exactly those whose
/// 64-bit draw from the generator falls below a threshold.  The outer
/// layer turns a keep probability into a threshold of `probability * 2^64`
/// draws.
#[derive(Clone, Copy, Debug, PartialEq, Eq, Structural)]
pub enum SampleRate {
    /// Keep every record.
    KeepAll,
    /// Keep a record when its draw is below this value.
    Threshold(u64),
}

/// Every partial record count that an operation would accumulate stays
/// within the header's signed four-byte count field.
pub open spec fn totals_fit(ins: Seq<Vec<u8>>) -> bool {
    forall|k: int|
        1 <= k <= ins.len() && all_wf(ins, k) ==> (#[trigger] sum_totals(ins, k)) < 0x8000_0000
}

/// The error that a plain scan of the inputs stops on: the first input
/// that does not parse.
pub open spec fn first_parse_error(ins: Seq<Vec<u8>>, k: int) -> Option<EGSError>
    decreases k,
{
    if k <= 0 {
        None
    } else if first_parse_error(ins, k - 1) is Some {
        first_parse_error(ins, k - 1)
    } else if !wf_file(ins[k - 1]@) {
        Some(spec_parse_header(ins[k - 1]@)->Err_0)
    } else {
        None
    }
}

/// The records that a keep-mask retains, in order.
pub open spec fn filter_mask(recs: Seq<Record>, keep: Seq<bool>) -> Seq<Record>
    recommends
        keep.len() == recs.len(),
    decreases recs.len(),
{
    if recs.len() == 0 {
        Seq::empty()
    } else {
        filter_mask(recs.drop_last(), keep.drop_last()) + (if keep.len() >= 1 && keep.last() {
            seq![recs.last()]
        } else {
            Seq::empty()
        })
    }
}

/// How many of a run of records are photons (carry no charge).
pub open spec fn count_photons(recs: Seq<Record>) -> int
    decreases recs.len(),
{
    if recs.len() == 0 {
        0
    } else {
        count_photons(recs.drop_last()) + (if recs.last().latch & 0x4000_0000u32 == 0 {
            1int
        } else {
            0int
        })
    }
}

/// The lowest stored energy among the records with positive energy, folded
/// in order from the fixed initial bound of one thousand.
pub open spec fn sampled_min_energy(recs: Seq<Record>) -> u32
    decreases recs.len(),
{
    if recs.len() == 0 {
        0x447A_0000u32
    } else if energy_positive(recs.last()) {
        spec_min_bits(sampled_min_energy(recs.drop_last()), recs.last().total_energy)
    } else {
        sampled_min_energy(recs.drop_last())
    }
}

/// The highest stored energy among the records with positive energy,
/// folded in order from zero.
pub open spec fn sampled_max_energy(recs: Seq<Record>) -> u32
    decreases recs.len(),
{
    if recs.len() == 0 {
        0u32
    } else if energy_positive(recs.last()) {
        spec_max_bits(sampled_max_energy(recs.drop_last()), recs.last().total_energy)
    } else {
        sampled_max_energy(recs.drop_last())
    }
}

/// `v` is a possible left fold of the caller's addition over the stored
/// source counts of the first `k` inputs, starting from zero.
pub open spec fn sample_source_chain<F: Fn(u32, u32) -> u32>(
    f: F,
    ins: Seq<Vec<u8>>,
    k: int,
    v: u32,
) -> bool
    decreases k,
{
    if k <= 0 {
        v == 0u32
    } else {
        exists|prev: u32|
            sample_source_chain(f, ins, k - 1, prev) && #[trigger] call_ensures(
                f,
                (prev, file_header(ins[k - 1]@).total_particles_in_source),
                v,
            )
    }
}

/// The header that a resampling writes for the records it kept: the
/// shorter layout, counts and energy bounds recomputed from the kept
/// records alone, and the given source count.
pub open spec fn sampled_header(kept: Seq<Record>, source: u32) -> Header {
    Header {
        mode: Mode::Mode0,
        total_particles: kept.len() as i32,
        total_photons: count_photons(kept) as i32,
        min_energy: sampled_min_energy(kept),
        max_energy: sampled_max_energy(kept),
        total_particles_in_source: source,
        record_size: 28,
        using_zlast: false,
    }
}

/// Appending one record to a masked run: a kept record lands at the end,
/// a dropped one leaves the kept run alone.
proof fn lemma_filter_mask_push(recs: Seq<Record>, keep: Seq<bool>, r: Record, b: bool)
    requires
        keep.len() == recs.len(),
    ensures
        filter_mask(recs.push(r), keep.push(b)) == (if b {
            filter_mask(recs, keep).push(r)
        } else {
            filter_mask(recs, keep)
        }),
{
    assert(recs.push(r).drop_last() =~= recs);
    assert(keep.push(b).drop_last() =~= keep);
    if b {
        assert(filter_mask(recs, keep) + seq![r] =~= filter_mask(recs, keep).push(r));
    } else {
        assert(filter_mask(recs, keep) + Seq::<Record>::empty() =~= filter_mask(recs, keep));
    }
}

/// Appending one kept record updates the header statistics one step.
proof fn lemma_stats_push(kept: Seq<Record>, r: Record)
    ensures
        count_photons(kept.push(r)) == count_photons(kept) + (if r.latch & 0x4000_0000u32 == 0 {
            1int
        } else {
            0int
        }),
        sampled_min_energy(kept.push(r)) == (if energy_positive(r) {
            spec_min_bits(sampled_min_energy(kept), r.total_energy)
        } else {
            sampled_min_energy(kept)
        }),
        sampled_max_energy(kept.push(r)) == (if energy_positive(r) {
            spec_max_bits(sampled_max_energy(kept), r.total_energy)
        } else {
            sampled_max_energy(kept)
        }),
{
    assert(kept.push(r).drop_last() =~= kept);
}

/// No run holds more photons than records.
proof fn lemma_count_photons_bounds(recs: Seq<Record>)
    ensures
        0 <= count_photons(recs) <= recs.len(),
    decreases recs.len(),
{
    if recs.len() != 0 {
        lemma_count_photons_bounds(recs.drop_last());
    }
}

/// Keep each record of each input independently — every record, or those
/// whose draw from the seeded generator falls below the threshold — and
/// write the kept records under a recomputed header.  Only inputs of the
/// shorter record layout are accepted; `add_source` (the caller's addition
/// on stored source counts) accumulates the source counts of all inputs,
/// and `scale_source` (the caller's scaling by the keep rate) adjusts the
/// sum once at the end.
#[verifier::rlimit(100)]
pub fn sample_combine<F: Fn(u32, u32) -> u32, G: Fn(u32) -> u32>(
    inputs: &Vec<Vec<u8>>,
    rate: SampleRate,
    seed: u64,
    add_source: &F,
    scale_source: &G,
) -> (r: EGSResult<Vec<u8>>)
    requires
        inputs@.len() >= 1,
        totals_fit(inputs@),
        forall|args: (u32, u32)| #[trigger] call_requires(*add_source, args),
        forall|args: (u32,)| #[trigger] call_requires(*scale_source, args),
        forall|i: int|
            0 <= i < inputs@.len() && wf_file(#[trigger] inputs@[i]@) ==> !file_header(
                inputs@[i]@,
            ).using_zlast,
    ensures
        match r {
            Ok(out) => {
                &&& first_parse_error(inputs@, inputs@.len() as int) is None
                &&& wf_file(out@)
                &&& header_padding_zero(out@)
                &&& out@ == file_bytes(file_header(out@), file_records(out@))
                &&& file_header(out@) == sampled_header(
                    file_records(out@),
                    file_header(out@).total_particles_in_source,
                )
                &&& exists|keep: Seq<bool>|
                    keep.len() == concat_records(inputs@, inputs@.len() as int).len()
                        && file_records(out@) == #[trigger] filter_mask(
                        concat_records(inputs@, inputs@.len() as int),
                        keep,
                    )
                &&& rate == SampleRate::KeepAll ==> file_records(out@) == concat_records(
                    inputs@,
                    inputs@.len() as int,
                )
                &&& rate == SampleRate::Threshold(0u64) ==> file_records(out@)
                    == Seq::<Record>::empty()
                &&& exists|cv: u32|
                    #[trigger] sample_source_chain(
                        *add_source,
                        inputs@,
                        inputs@.len() as int,
                        cv,
                    ) && call_ensures(
                        *scale_source,
                        (cv,),
                        file_header(out@).total_particles_in_source,
                    )
            },
            Err(e) => first_parse_error(inputs@, inputs@.len() as int) == Some(e),
        },
{
    let ghost ins = inputs@;
    let ghost n = inputs@.len() as int;
    let mut rng = rng_from_seed(seed);
    let mut kept: Vec<Record> = Vec::new();
    let mut photons: i32 = 0;
    let mut min_e: u32 = 0x447A_0000;
    let mut max_e: u32 = 0;
    let mut src: u32 = 0;
    let ghost mut mask: Seq<bool> = Seq::empty();
    proof {
        assert(first_parse_error(ins, 0) is None);
        assert(sum_totals(ins, 0) == 0);
        assert(concat_records(ins, 0) =~= Seq::<Record>::empty());
        assert(kept@ =~= filter_mask(concat_records(ins, 0), mask));
    }
    let mut i: usize = 0;
    while i < inputs.len()
        invariant
            0 <= i <= n,
            n == inputs@.len(),
            ins == inputs@,
            totals_fit(ins),
            forall|args: (u32, u32)| #[trigger] call_requires(*add_source, args),
            forall|j: int|
                0 <= j < n && wf_file(#[trigger] ins[j]@) ==> !file_header(ins[j]@).using_zlast,
            all_wf(ins, i as int),
            first_parse_error(ins, i as int) is None,
            mask.len() == concat_records(ins, i as int).len(),
            kept@ == filter_mask(concat_records(ins, i as int), mask),
            kept@.len() <= sum_totals(ins, i as int),
            photons == count_photons(kept@),
            0 <= photons <= kept@.len(),
            min_e == sampled_min_energy(kept@),
            max_e == sampled_max_energy(kept@),
            sample_source_chain(*add_source, ins, i as int, src),
            rate == SampleRate::KeepAll ==> kept@ == concat_records(ins, i as int),
            rate == SampleRate::Threshold(0u64) ==> kept@.len() == 0,
            forall|k: int| 0 <= k < kept@.len() ==> (#[trigger] kept@[k]).zlast is None,
        decreases n - i,
    {
        let (h, records) = match read_file(&inputs[i]) {
            Ok(p) => p,
            Err(e) => {
                proof {
                    assert(first_parse_error(ins, i + 1) == Some(e));
                    lemma_parse_error_sticks(ins, i + 1, n);
                }
                return Err(e);
            },
        };
        let ghost prev_src = src;
        src = add_source(src, h.total_particles_in_source);
        proof {
            assert(all_wf(ins, i + 1));
            assert(sample_source_chain(*add_source, ins, i + 1, src)) by {
                assert(sample_source_chain(*add_source, ins, i as int, prev_src));
                assert(call_ensures(
                    *add_source,
                    (prev_src, file_header(ins[i as int]@).total_particles_in_source),
                    src,
                ));
            };
            lemma_sum_totals_nonneg(ins, i as int);
            lemma_concat_records_len(ins, i as int);
        }
        let mut t: usize = 0;
        while t < records.len()
            invariant
                0 <= i < n,
                n == inputs@.len(),
                ins == inputs@,
                totals_fit(ins),
                all_wf(ins, i + 1),
                wf_file(ins[i as int]@),
                records@ == file_records(ins[i as int]@),
                !file_header(ins[i as int]@).using_zlast,
                0 <= t <= records@.len(),
                mask.len() == concat_records(ins, i as int).len() + t,
                kept@ == filter_mask(concat_records(ins, i as int) + records@.take(t as int), mask),
                kept@.len() <= sum_totals(ins, i as int) + t,
                sum_totals(ins, i as int) >= 0,
                sum_totals(ins, i as int) + records@.len() == sum_totals(ins, i + 1),
                photons == count_photons(kept@),
                0 <= photons <= kept@.len(),
                min_e == sampled_min_energy(kept@),
                max_e == sampled_max_energy(kept@),
                rate == SampleRate::KeepAll ==> kept@ == concat_records(ins, i as int)
                    + records@.take(t as int),
                rate == SampleRate::Threshold(0u64) ==> kept@.len() == 0,
                forall|k: int| 0 <= k < kept@.len() ==> (#[trigger] kept@[k]).zlast is None,
            decreases records@.len() - t,
        {
            let rec = records[t];
            let ghost conc = concat_records(ins, i as int) + records@.take(t as int);
            let ghost kept0 = kept@;
            let ghost mask0 = mask;
            proof {
                lemma_file_record_shapes(ins[i as int]@, t as int);
                assert(sum_totals(ins, i + 1) < 0x8000_0000);
            }
            let keep_it = match rate {
                SampleRate::KeepAll => true,
                SampleRate::Threshold(th) => rng_next_u64(&mut rng) < th,
            };
            if keep_it {
                kept.push(rec);
                if rec.latch & 0x4000_0000 == 0 {
                    photons = photons + 1;
                }
                if rec.stored_energy_positive() {
                    min_e = min_bits(min_e, rec.total_energy);
                    max_e = max_bits(max_e, rec.total_energy);
                }
            }
            proof {
                mask = mask.push(keep_it);
                lemma_filter_mask_push(conc, mask0, records@[t as int], keep_it);
                if keep_it {
                    lemma_stats_push(kept0, records@[t as int]);
                }
                assert(records@.take(t + 1) =~= records@.take(t as int).push(
                    records@[t as int],
                ));
                assert(concat_records(ins, i as int) + records@.take(t + 1) =~= conc.push(
                    records@[t as int],
                ));
            }
            t = t + 1;
        }
        i = i + 1;
        proof {
            assert(records@.take(records@.len() as int) =~= records@);
            assert(concat_records(ins, i - 1) + records@ == concat_records(ins, i as int));
        }
    }
    let ghost chain_v = src;
    let src_scaled = scale_source(src);
    let total = kept.len() as i32;
    proof {
        lemma_sum_totals_nonneg(ins, n);
        assert(sum_totals(ins, n) < 0x8000_0000);
    }
    let header = Header {
        mode: Mode::Mode0,
        total_particles: total,
        total_photons: photons,
        min_energy: min_e,
        max_energy: max_e,
        total_particles_in_source: src_scaled,
        record_size: 28,
        using_zlast: false,
    };
    let out = write_file(&header, &kept);
    proof {
        lemma_parse_of_file_bytes(header, kept@);
        assert(file_header(out@) == header);
        assert(file_records(out@) == kept@);
        assert(header == sampled_header(kept@, src_scaled));
        assert(exists|keep: Seq<bool>|
            keep.len() == concat_records(ins, n).len() && file_records(out@)
                == #[trigger] filter_mask(concat_records(ins, n), keep)) by {
            assert(file_records(out@) == filter_mask(concat_records(ins, n), mask));
        };
        assert(exists|cv: u32|
            #[trigger] sample_source_chain(*add_source, ins, n, cv) && call_ensures(
                *scale_source,
                (cv,),
                file_header(out@).total_particles_in_source,
            )) by {
            assert(sample_source_chain(*add_source, ins, n, chain_v));
            assert(call_ensures(*scale_source, (chain_v,), src_scaled));
        };
    }
    Ok(out)
}

/// Pushing an element onto an index list raises its count by one and no
/// other's.
proof fn lemma_push_index_counts(s: Seq<usize>, x: usize)
    ensures
        forall|b: usize|
            #[trigger] s.push(x).to_multiset().count(b) == s.to_multiset().count(b) + (if b == x {
                1int
            } else {
                0int
            }),
{
    broadcast use group_to_multiset_ensures;
    broadcast use vstd::multiset::group_multiset_axioms;

}

/// The empty index list counts nothing.
proof fn lemma_empty_index_counts()
    ensures
        forall|b: usize| #[trigger] Seq::<usize>::empty().to_multiset().count(b) == 0,
{
    broadcast use group_to_multiset_ensures;
    broadcast use vstd::multiset::group_multiset_axioms;

    assert forall|b: usize| #[trigger]
        Seq::<usize>::empty().to_multiset().count(b) == 0 by {
        if Seq::<usize>::empty().to_multiset().count(b) > 0 {
            assert(Seq::<usize>::empty().contains(b));
        }
    };
}

/// Pushing one record adds exactly it to the run's records.
proof fn lemma_push_record_ms(s: Seq<Record>, x: Record)
    ensures
        s.push(x).to_multiset() == s.to_multiset().insert(x),
{
    broadcast use group_to_multiset_ensures;

}

/// Moving one element across a union leaves the union unchanged.
proof fn lemma_shift_insert(a: Multiset<Record>, b: Multiset<Record>, r: Record)
    ensures
        a.insert(r).add(b) == a.add(b.insert(r)),
        a.insert(r).add(b).len() == a.add(b).len() + 1,
{
    broadcast use vstd::multiset::group_multiset_axioms;

    assert(a.insert(r).add(b) =~= a.add(b.insert(r)));
}

/// Putting one record into a multiset grows it by one.
proof fn lemma_insert_len(m: Multiset<Record>, r: Record)
    ensures
        m.insert(r).len() == m.len() + 1,
{
    broadcast use vstd::multiset::group_multiset_axioms;

}

/// An empty run of records holds the empty multiset.
proof fn lemma_empty_record_ms()
    ensures
        Seq::<Record>::empty().to_multiset() == Multiset::<Record>::empty(),
{
    broadcast use group_to_multiset_ensures;
    broadcast use vstd::multiset::group_multiset_axioms;

    assert forall|r: Record| #[trigger]
        Seq::<Record>::empty().to_multiset().count(r) == 0 by {
        if Seq::<Record>::empty().to_multiset().count(r) > 0 {
            assert(Seq::<Record>::empty().contains(r));
        }
    };
    assert(Seq::<Record>::empty().to_multiset() =~= Multiset::<Record>::empty());
}

/// How many batches the permutation partitions a file into.  Bounded so
/// that reading them back side by side stays within ordinary resource
/// limits.
pub const BATCHES: usize = 128;

/// The records the first `k` batches hold.
spec fn batches_ms(batches: Seq<Vec<Record>>, k: int) -> Multiset<Record>
    decreases k,
{
    if k <= 0 {
        Multiset::empty()
    } else {
        batches_ms(batches, k - 1).add(batches[k - 1]@.to_multiset())
    }
}

/// The records still unread in the first `k` batches, batch `b` having
/// been read up to `pos[b]`.
spec fn remaining_ms(batches: Seq<Vec<Record>>, pos: Seq<usize>, k: int) -> Multiset<Record>
    decreases k,
{
    if k <= 0 {
        Multiset::empty()
    } else {
        remaining_ms(batches, pos, k - 1).add(
            batches[k - 1]@.skip(pos[k - 1] as int).to_multiset(),
        )
    }
}

/// With every batch unread, the unread records are all of them.
proof fn lemma_remaining_ms_start(batches: Seq<Vec<Record>>, pos: Seq<usize>, k: int)
    requires
        0 <= k <= batches.len(),
        k <= pos.len(),
        forall|b: int| 0 <= b < k ==> pos[b] == 0,
    ensures
        remaining_ms(batches, pos, k) == batches_ms(batches, k),
    decreases k,
{
    if k > 0 {
        lemma_remaining_ms_start(batches, pos, k - 1);
        assert(batches[k - 1]@.skip(0) =~= batches[k - 1]@);
    }
}

/// Prefixes of the batch list contribute the same records whatever stands
/// beyond them.
proof fn lemma_batches_ms_grow(b1: Seq<Vec<Record>>, b2: Seq<Vec<Record>>, k: int)
    requires
        0 <= k <= b1.len(),
        k <= b2.len(),
        forall|b: int| 0 <= b < k ==> b1[b]@ == b2[b]@,
    ensures
        batches_ms(b1, k) == batches_ms(b2, k),
    decreases k,
{
    if k > 0 {
        lemma_batches_ms_grow(b1, b2, k - 1);
    }
}

/// Reading one record out of batch `b` moves exactly that record from the
/// unread set: putting it back restores the set.
proof fn lemma_remaining_ms_advance(
    batches: Seq<Vec<Record>>,
    pos: Seq<usize>,
    pos2: Seq<usize>,
    b: int,
    k: int,
)
    requires
        0 <= b < batches.len(),
        pos.len() == batches.len(),
        pos2.len() == batches.len(),
        pos[b] < batches[b]@.len(),
        pos2[b] == pos[b] + 1,
        forall|j: int| 0 <= j < batches.len() && j != b ==> pos2[j] == pos[j],
        0 <= k <= batches.len(),
    ensures
        k > b ==> remaining_ms(batches, pos2, k).insert(batches[b]@[pos[b] as int])
            == remaining_ms(batches, pos, k),
        k <= b ==> remaining_ms(batches, pos2, k) == remaining_ms(batches, pos, k),
    decreases k,
{
    broadcast use group_to_multiset_ensures;

    if k > 0 {
        lemma_remaining_ms_advance(batches, pos, pos2, b, k - 1);
        if k - 1 == b {
            let s = batches[b]@;
            let p = pos[b] as int;
            assert(s.skip(p) =~= seq![s[p]] + s.skip(p + 1));
            lemma_multiset_commutative(seq![s[p]], s.skip(p + 1));
            assert(seq![s[p]].to_multiset() =~= Multiset::empty().insert(s[p]));
            assert(s.skip(p).to_multiset() =~= s.skip(p + 1).to_multiset().insert(s[p]));
            assert(remaining_ms(batches, pos2, k).insert(s[p]) =~= remaining_ms(
                batches,
                pos,
                k,
            ));
        } else if k - 1 > b {
            assert(remaining_ms(batches, pos2, k).insert(batches[b]@[pos[b] as int])
                =~= remaining_ms(batches, pos, k));
        }
    }
}

/// Two runs holding the same records element for element as multisets
/// draw on the same element pool.
proof fn lemma_permutation_elements(a: Seq<Record>, b: Seq<Record>)
    requires
        a.to_multiset() == b.to_multiset(),
    ensures
        forall|i: int| 0 <= i < b.len() ==> a.contains(#[trigger] b[i]),
{
    broadcast use group_to_multiset_ensures;

    assert forall|i: int| 0 <= i < b.len() implies a.contains(#[trigger] b[i]) by {
        assert(b.contains(b[i]));
        assert(b.to_multiset().count(b[i]) > 0);
    };
}

/// An index that appears twice in a run counts at least twice in its
/// multiset.
proof fn lemma_duplicate_counts_twice(s: Seq<usize>, i: int, j: int)
    requires
        0 <= i < j < s.len(),
        s[i] == s[j],
    ensures
        s.to_multiset().count(s[i]) >= 2,
{
    broadcast use group_to_multiset_ensures;

    to_multiset_remove(s, j);
    assert(s.remove(j).contains(s[i])) by {
        assert(s.remove(j)[i] == s[i]);
    };
    assert(s.remove(j).to_multiset().count(s[i]) > 0);
}

/// Deal the records into the fixed number of batches in order, shuffling
/// each batch on its own: the partition phase of the permutation.
#[verifier::rlimit(100)]
fn deal_into_batches(records: &Vec<Record>, rng: &mut StdRng, zlast: bool) -> (r: Vec<Vec<Record>>)
    requires
        forall|i: int|
            0 <= i < records@.len() ==> ((#[trigger] records@[i]).zlast is Some) == zlast,
    ensures
        r@.len() == BATCHES,
        batches_ms(r@, BATCHES as int) == records@.to_multiset(),
        forall|b: int, q: int|
            0 <= b < r@.len() && 0 <= q < r@[b]@.len() ==> ((#[trigger] r@[b]@[q]).zlast is Some)
                == zlast,
{
    let ghost all = records@;
    let n = records.len();
    let per_batch = n / BATCHES + 1;
    let mut batches: Vec<Vec<Record>> = Vec::new();
    let mut idx: usize = 0;
    proof {
        assert(all.take(0) =~= Seq::<Record>::empty());
        lemma_empty_record_ms();
    }
    while batches.len() < BATCHES
        invariant
            records@ == all,
            n == all.len(),
            per_batch == n as int / BATCHES as int + 1,
            per_batch >= 1,
            batches@.len() <= BATCHES,
            idx <= n,
            idx == n || idx >= batches@.len() * per_batch,
            batches_ms(batches@, batches@.len() as int) == all.take(idx as int).to_multiset(),
            forall|b: int, q: int|
                0 <= b < batches@.len() && 0 <= q < batches@[b]@.len() ==> ((
                #[trigger] batches@[b]@[q]).zlast is Some) == zlast,
            forall|i: int| 0 <= i < all.len() ==> ((#[trigger] all[i]).zlast is Some) == zlast,
        decreases BATCHES - batches@.len(),
    {
        let ghost batches0 = batches@;
        let ghost idx0 = idx;
        let mut batch: Vec<Record> = Vec::new();
        while batch.len() < per_batch && idx < n
            invariant
                records@ == all,
                n == all.len(),
                idx0 <= idx <= n,
                per_batch >= 1,
                idx - idx0 <= per_batch,
                batch@ == all.subrange(idx0 as int, idx as int),
                batch@.len() == idx - idx0,
            decreases n - idx,
        {
            batch.push(records[idx]);
            idx = idx + 1;
            proof {
                assert(batch@ =~= all.subrange(idx0 as int, idx as int));
            }
        }
        let ghost dealt = batch@;
        shuffle(&mut batch, rng);
        proof {
            lemma_permutation_elements(dealt, batch@);
        }
        batches.push(batch);
        proof {
            lemma_batches_ms_grow(batches0, batches@, batches0.len() as int);
            assert(all.take(idx as int) =~= all.take(idx0 as int) + all.subrange(
                idx0 as int,
                idx as int,
            ));
            lemma_multiset_commutative(all.take(idx0 as int), all.subrange(
                idx0 as int,
                idx as int,
            ));
            assert(batches_ms(batches@, batches@.len() as int) == batches_ms(
                batches0,
                batches0.len() as int,
            ).add(dealt.to_multiset()));
            assert((batches0.len() + 1) * per_batch == batches0.len() * per_batch + per_batch)
                by (nonlinear_arith);
            if idx != n {
                assert(idx - idx0 == per_batch);
                assert(idx0 != n);
                assert(idx0 >= batches0.len() * per_batch);
                assert(idx as int >= (batches0.len() + 1) * per_batch);
            }
        }
    }
    proof {
        // the deal covered the whole file: the batch count times the batch
        // bound overshoots the record count
        assert(idx == n) by {
            if idx != n {
                assert(idx >= BATCHES * per_batch);
                vstd::arithmetic::div_mod::lemma_fundamental_div_mod(n as int, BATCHES as int);
                assert(BATCHES * per_batch > n) by (nonlinear_arith)
                    requires
                        per_batch == n as int / BATCHES as int + 1,
                        n as int == BATCHES as int * (n as int / BATCHES as int) + (n as int) % (
                        BATCHES as int),
                        0 <= (n as int) % (BATCHES as int) < BATCHES as int,
                        BATCHES == 128,
                ;
            }
        };
        assert(all.take(n as int) =~= all);
    }
    batches
}

/// One drain step keeps the book of still-open batches straight: after
/// pulling from batch `b` (and re-listing it only if it stays open), the
/// next round's list counts exactly the batches that this round has
/// touched and that remain open.
#[verifier::rlimit(100)]
proof fn lemma_next_counts(
    active: Seq<usize>,
    next0: Seq<usize>,
    next1: Seq<usize>,
    pos_before: Seq<usize>,
    pos_now: Seq<usize>,
    batches: Seq<Vec<Record>>,
    b: usize,
    jj: int,
    pushed: bool,
)
    requires
        batches.len() == BATCHES,
        pos_before.len() == BATCHES,
        pos_now.len() == BATCHES,
        1 <= jj <= active.len(),
        active[jj - 1] == b,
        (b as int) < BATCHES,
        pos_before[b as int] < batches[b as int]@.len(),
        pos_now[b as int] == pos_before[b as int] + 1,
        forall|j: int| 0 <= j < BATCHES && j != b as int ==> pos_now[j] == pos_before[j],
        pushed == (pos_before[b as int] + 1 < batches[b as int]@.len()),
        next1 == (if pushed {
            next0.push(b)
        } else {
            next0
        }),
        !active.take(jj - 1).contains(b),
        forall|x: usize|
            #[trigger] active.take(jj).contains(x) == (active.take(jj - 1).contains(x) || x
                == b),
        forall|bb: usize|
            bb < BATCHES ==> #[trigger] next0.to_multiset().count(bb) == (if active.take(
                jj - 1,
            ).contains(bb) && pos_before[bb as int] < batches[bb as int]@.len() {
                1int
            } else {
                0int
            }),
    ensures
        forall|bb: usize|
            bb < BATCHES ==> #[trigger] next1.to_multiset().count(bb) == (if active.take(
                jj,
            ).contains(bb) && pos_now[bb as int] < batches[bb as int]@.len() {
                1int
            } else {
                0int
            }),
{
    if pushed {
        lemma_push_index_counts(next0, b);
    }
    assert forall|bb: usize|
        bb < BATCHES implies #[trigger] next1.to_multiset().count(bb) == (if active.take(
        jj,
    ).contains(bb) && pos_now[bb as int] < batches[bb as int]@.len() {
        1int
    } else {
        0int
    }) by {
        if bb == b {
            assert(next0.to_multiset().count(b) == 0);
            assert(active.take(jj).contains(b));
            if pushed {
                assert(next1 == next0.push(b));
                assert(next1.to_multiset().count(b) == next0.to_multiset().count(b) + 1);
                assert(pos_now[b as int] < batches[b as int]@.len());
            } else {
                assert(next1 == next0);
                assert(next1.to_multiset().count(b) == 0);
                assert(!(pos_now[b as int] < batches[b as int]@.len()));
            }
        } else {
            assert(pos_now[bb as int] == pos_before[bb as int]);
            if pushed {
                assert(next1 == next0.push(b));
                assert(next1.to_multiset().count(bb) == next0.to_multiset().count(bb));
            } else {
                assert(next1 == next0);
            }
            assert(active.take(jj).contains(bb) == active.take(jj - 1).contains(bb));
            assert(next0.to_multiset().count(bb) == (if active.take(jj - 1).contains(bb)
                && pos_before[bb as int] < batches[bb as int]@.len() {
                1int
            } else {
                0int
            }));
        }
    };
}

/// Drain the batches one record at a time, in a freshly shuffled batch
/// order each round, dropping a batch once it runs dry: the interleave
/// phase of the permutation.
#[verifier::rlimit(100)]
fn interleave_batches(batches: &Vec<Vec<Record>>, writer: &mut PHSPWriter, rng: &mut StdRng)
    requires
        batches@.len() == BATCHES,
        old(writer).wf(),
        forall|b: int, q: int|
            0 <= b < batches@.len() && 0 <= q < batches@[b]@.len() ==> ((
            #[trigger] batches@[b]@[q]).zlast is Some) == old(writer).spec_header().using_zlast,
    ensures
        final(writer).wf(),
        final(writer).spec_header() == old(writer).spec_header(),
        final(writer).written_records().to_multiset() == old(
            writer,
        ).written_records().to_multiset().add(batches_ms(batches@, BATCHES as int)),
{
    let ghost header = writer.spec_header();
    let ghost base = old(writer).written_records().to_multiset();
    let mut pos: Vec<usize> = Vec::new();
    let mut active: Vec<usize> = Vec::new();
    proof {
        lemma_empty_index_counts();
        assert(active@ =~= Seq::<usize>::empty());
    }
    let mut b0: usize = 0;
    while b0 < BATCHES
        invariant
            batches@.len() == BATCHES,
            pos@.len() == b0,
            b0 <= BATCHES,
            forall|b: int| 0 <= b < b0 ==> pos@[b] == 0,
            forall|b: usize|
                b < b0 ==> #[trigger] active@.to_multiset().count(b) == (
                if batches@[b as int]@.len() > 0 {
                    1int
                } else {
                    0int
                }),
            forall|b: usize|
                b0 <= b < BATCHES ==> #[trigger] active@.to_multiset().count(b) == 0,
            forall|i: int| 0 <= i < active@.len() ==> (#[trigger] active@[i]) < b0,
        decreases BATCHES - b0,
    {
        let ghost act0 = active@;
        pos.push(0);
        if batches[b0].len() > 0 {
            active.push(b0);
            proof {
                lemma_push_index_counts(act0, b0);
            }
        }
        b0 = b0 + 1;
    }
    proof {
        broadcast use vstd::multiset::group_multiset_axioms;

        lemma_remaining_ms_start(batches@, pos@, BATCHES as int);
    }
    while active.len() > 0
        invariant
            batches@.len() == BATCHES,
            pos@.len() == BATCHES,
            forall|b: int| 0 <= b < BATCHES ==> pos@[b] <= batches@[b]@.len(),
            forall|b: usize|
                b < BATCHES ==> #[trigger] active@.to_multiset().count(b) == (
                if pos@[b as int] < batches@[b as int]@.len() {
                    1int
                } else {
                    0int
                }),
            forall|i: int| 0 <= i < active@.len() ==> (#[trigger] active@[i]) < BATCHES,
            writer.wf(),
            writer.spec_header() == header,
            writer.written_records().to_multiset().add(
                remaining_ms(batches@, pos@, BATCHES as int),
            ) == base.add(batches_ms(batches@, BATCHES as int)),
            forall|b: int, q: int|
                0 <= b < batches@.len() && 0 <= q < batches@[b]@.len() ==> ((
                #[trigger] batches@[b]@[q]).zlast is Some) == header.using_zlast,
        decreases remaining_ms(batches@, pos@, BATCHES as int).len(),
    {
        let ghost remaining0 = remaining_ms(batches@, pos@, BATCHES as int);
        let ghost active0 = active@;
        shuffle(&mut active, rng);
        proof {
            broadcast use group_to_multiset_ensures;

            assert forall|i: int| 0 <= i < active@.len() implies (#[trigger] active@[i])
                < BATCHES by {
                assert(active@.contains(active@[i]));
                assert(active@.to_multiset().count(active@[i]) > 0);
                assert(active0.contains(active@[i]));
            };
            assert forall|k: int|
                0 <= k < active@.len() implies pos@[#[trigger] active@[k] as int]
                < batches@[active@[k] as int]@.len() by {
                assert(active@.contains(active@[k]));
                assert(active@.to_multiset().count(active@[k]) > 0);
            };
            assert(active@.take(0) =~= Seq::<usize>::empty());
            lemma_empty_index_counts();
        }
        let mut next_active: Vec<usize> = Vec::new();
        let mut jj: usize = 0;
        while jj < active.len()
            invariant
                batches@.len() == BATCHES,
                pos@.len() == BATCHES,
                jj <= active@.len(),
                forall|b: int| 0 <= b < BATCHES ==> pos@[b] <= batches@[b]@.len(),
                forall|i: int| 0 <= i < active@.len() ==> (#[trigger] active@[i]) < BATCHES,
                forall|b: usize|
                    b < BATCHES ==> #[trigger] active@.to_multiset().count(b) == (
                    if (pos@[b as int] < batches@[b as int]@.len() || active@.take(
                        jj as int,
                    ).contains(b)) {
                        1int
                    } else {
                        0int
                    }),
                forall|k: int|
                    jj <= k < active@.len() ==> pos@[#[trigger] active@[k] as int]
                        < batches@[active@[k] as int]@.len(),
                forall|b: usize|
                    b < BATCHES ==> #[trigger] next_active@.to_multiset().count(b) == (
                    if active@.take(jj as int).contains(b) && pos@[b as int]
                        < batches@[b as int]@.len() {
                        1int
                    } else {
                        0int
                    }),
                forall|i: int| 0 <= i < next_active@.len() ==> (#[trigger] next_active@[i])
                    < BATCHES,
                writer.wf(),
                writer.spec_header() == header,
                writer.written_records().to_multiset().add(
                    remaining_ms(batches@, pos@, BATCHES as int),
                ) == base.add(batches_ms(batches@, BATCHES as int)),
                remaining_ms(batches@, pos@, BATCHES as int).len() == remaining0.len() - jj,
                forall|b: int, q: int|
                    0 <= b < batches@.len() && 0 <= q < batches@[b]@.len() ==> ((
                    #[trigger] batches@[b]@[q]).zlast is Some) == header.using_zlast,
            decreases active@.len() - jj,
        {
            let b = active[jj];
            let p = pos[b];
            let batch_ref = &batches[b];
            let blen = batch_ref.len();
            proof {
                // batch b is still open: it stands in the unprocessed part
                // of the round
                assert(pos@[b as int] < batches@[b as int]@.len());
            }
            let rec = batch_ref[p];
            let ghost pos_before = pos@;
            let ghost written_before = writer.written_records();
            pos.set(b, p + 1);
            writer.write(&rec);
            proof {
                lemma_remaining_ms_advance(batches@, pos_before, pos@, b as int, BATCHES as int);
                lemma_push_record_ms(written_before, rec);
                lemma_shift_insert(
                    written_before.to_multiset(),
                    remaining_ms(batches@, pos@, BATCHES as int),
                    rec,
                );
                lemma_insert_len(remaining_ms(batches@, pos@, BATCHES as int), rec);
            }
            let ghost next0 = next_active@;
            let ghost pushed = p + 1 < blen;
            if p + 1 < blen {
                next_active.push(b);
                proof {
                    lemma_push_index_counts(next0, b);
                }
            }
            jj = jj + 1;
            proof {
                broadcast use group_to_multiset_ensures;

                assert(active@.take(jj as int) =~= active@.take(jj - 1).push(b));
                assert forall|x: usize| #[trigger]
                    active@.take(jj as int).contains(x) implies (active@.take(jj - 1).contains(x)
                    || x == b) by {
                    let i = choose|i: int|
                        0 <= i < jj && #[trigger] active@.take(jj as int)[i] == x;
                    if i < jj - 1 {
                        assert(active@.take(jj - 1)[i] == x);
                    }
                };
                assert forall|x: usize|
                    active@.take(jj - 1).contains(x) || x == b implies #[trigger] active@.take(
                    jj as int,
                ).contains(x) by {
                    if x == b {
                        assert(active@.take(jj as int)[jj - 1] == b);
                    } else {
                        let i = choose|i: int|
                            0 <= i < jj - 1 && #[trigger] active@.take(jj - 1)[i] == x;
                        assert(active@.take(jj as int)[i] == x);
                    }
                };
                // b does not recur in this round: it counts at most once
                assert(!active@.take(jj - 1).contains(b)) by {
                    if active@.take(jj - 1).contains(b) {
                        let k = choose|k: int|
                            0 <= k < jj - 1 && #[trigger] active@.take(jj - 1)[k] == b;
                        lemma_duplicate_counts_twice(active@, k, jj - 1);
                    }
                };
                lemma_next_counts(
                    active@,
                    next0,
                    next_active@,
                    pos_before,
                    pos@,
                    batches@,
                    b,
                    jj as int,
                    pushed,
                );
                assert forall|k: int|
                    jj <= k < active@.len() implies pos@[#[trigger] active@[k] as int]
                    < batches@[active@[k] as int]@.len() by {
                    if active@[k] == b {
                        lemma_duplicate_counts_twice(active@, jj - 1, k);
                    }
                };
            }
        }
        let ghost prev_active = active@;
        active = next_active;
        proof {
            broadcast use group_to_multiset_ensures;

            assert(prev_active.take(prev_active.len() as int) =~= prev_active);
            assert forall|b: usize|
                b < BATCHES implies #[trigger] active@.to_multiset().count(b) == (
            if pos@[b as int] < batches@[b as int]@.len() {
                1int
            } else {
                0int
            }) by {
                if pos@[b as int] < batches@[b as int]@.len() {
                    assert(prev_active.to_multiset().count(b) == 1);
                    assert(prev_active.contains(b));
                }
            };
        }
    }
    proof {
        broadcast use vstd::multiset::group_multiset_axioms;

        lemma_empty_index_counts();
        assert(active@ =~= Seq::<usize>::empty());
        assert forall|b: int| 0 <= b < BATCHES implies pos@[b] == batches@[b]@.len() by {
            assert(active@.to_multiset().count((b as usize)) == 0) by {
                assert(Seq::<usize>::empty().to_multiset().count((b as usize)) == 0);
            };
        };
        lemma_remaining_empty(batches@, pos@, BATCHES as int);
        assert(writer.written_records().to_multiset().add(Multiset::<Record>::empty())
            =~= writer.written_records().to_multiset());
    }
}

/// Produce a seeded pseudo-random permutation of a file's records under a
/// bounded working set: the records are dealt sequentially into a fixed
/// number of batches, each batch is shuffled on its own, and the batches
/// are then drained one record at a time in freshly shuffled batch order
/// each round.  The header is kept as it was; every record comes back
/// exactly once, in an order derived from the seed alone.
#[verifier::rlimit(100)]
pub fn randomize(data: &Vec<u8>, seed: u64) -> (r: EGSResult<Vec<u8>>)
    ensures
        match r {
            Ok(out) => {
                &&& wf_file(data@)
                &&& wf_file(out@)
                &&& header_padding_zero(out@)
                &&& file_header(out@) == file_header(data@)
                &&& file_records(out@).to_multiset() == file_records(data@).to_multiset()
                &&& file_records(out@).len() == file_records(data@).len()
                &&& out@ == file_bytes(file_header(out@), file_records(out@))
            },
            Err(e) => {
                &&& !wf_file(data@)
                &&& spec_parse_header(data@) == Err::<Header, EGSError>(e)
            },
        },
{
    let (header, records) = match read_file(data) {
        Ok(p) => p,
        Err(e) => { return Err(e) },
    };
    let ghost all = records@;
    let mut rng = rng_from_seed(seed);
    proof {
        assert forall|i: int|
            0 <= i < all.len() implies ((#[trigger] all[i]).zlast is Some)
            == header.using_zlast by {
            lemma_file_record_shapes(data@, i);
        };
    }
    let batches = deal_into_batches(&records, &mut rng, header.using_zlast);
    let mut writer = PHSPWriter::from(&header);
    proof {
        broadcast use vstd::multiset::group_multiset_axioms;

        lemma_empty_record_ms();
    }
    interleave_batches(&batches, &mut writer, &mut rng);
    let ghost written = writer.written_records();
    proof {
        crate::stream::lemma_writer_shapes(writer);
        lemma_randomize_summary(data@, header, written);
    }
    let out = writer.into_bytes();
    Ok(out)
}

/// What draining freshly dealt batches leaves in the writer: the file's
/// own records as a multiset, so the written image parses back to the same
/// header and a permutation of the same records.
proof fn lemma_randomize_summary(data: Seq<u8>, header: Header, written: Seq<Record>)
    requires
        wf_file(data),
        header == file_header(data),
        written.to_multiset() == Seq::<Record>::empty().to_multiset().add(
            file_records(data).to_multiset(),
        ),
        forall|i: int|
            0 <= i < written.len() ==> ((#[trigger] written[i]).zlast is Some)
                == header.using_zlast,
    ensures
        written.to_multiset() == file_records(data).to_multiset(),
        written.len() == file_records(data).len(),
        written.len() == header.total_particles,
        ({
            let s = file_bytes(header, written);
            &&& wf_file(s)
            &&& header_padding_zero(s)
            &&& file_header(s) == header
            &&& file_records(s) == written
            &&& s == file_bytes(file_header(s), file_records(s))
        }),
{
    broadcast use vstd::multiset::group_multiset_axioms;

    lemma_empty_record_ms();
    vstd::seq_lib::to_multiset_len::<Record>(written);
    vstd::seq_lib::to_multiset_len::<Record>(file_records(data));
    lemma_parse_of_file_bytes(header, written);
}

/// Batches that are all read to their ends hold nothing unread.
proof fn lemma_remaining_empty(batches: Seq<Vec<Record>>, pos: Seq<usize>, k: int)
    requires
        0 <= k <= batches.len(),
        k <= pos.len(),
        forall|b: int| 0 <= b < k ==> pos[b] == batches[b]@.len(),
    ensures
        remaining_ms(batches, pos, k) == Multiset::<Record>::empty(),
    decreases k,
{
    broadcast use vstd::multiset::group_multiset_axioms;

    if k > 0 {
        lemma_remaining_empty(batches, pos, k - 1);
        assert(batches[k - 1]@.skip(pos[k - 1] as int) =~= Seq::<Record>::empty());
        lemma_empty_record_ms();
        assert(remaining_ms(batches, pos, k) =~= remaining_ms(batches, pos, k - 1));
    }
}

/// Once the plain scan has found an error, every longer scan reports the
/// same one.
proof fn lemma_parse_error_sticks(ins: Seq<Vec<u8>>, k: int, n: int)
    requires
        0 <= k <= n,
        first_parse_error(ins, k) is Some,
    ensures
        first_parse_error(ins, n) == first_parse_error(ins, k),
    decreases n - k,
{
    if k < n {
        lemma_parse_error_sticks(ins, k + 1, n);
    }
}

/// The first input's records come back out of a combine as the leading
/// run, in order: reading the combined records sequentially for the first
/// file's count reproduces that file's records exactly.
pub proof fn lemma_combine_keeps_first_run(ins: Seq<Vec<u8>>, k: int)
    requires
        1 <= k <= ins.len(),
        all_wf(ins, k),
    ensures
        concat_records(ins, k).take(file_total(ins[0]@)) == file_records(ins[0]@),
    decreases k,
{
    lemma_concat_records_len(ins, k);
    lemma_sum_totals_nonneg(ins, k);
    if k == 1 {
        assert(concat_records(ins, 0) =~= Seq::<Record>::empty());
        assert(concat_records(ins, 1) =~= file_records(ins[0]@));
        assert(concat_records(ins, 1).take(file_total(ins[0]@)) =~= file_records(ins[0]@));
    } else {
        lemma_combine_keeps_first_run(ins, k - 1);
        lemma_concat_records_len(ins, k - 1);
        lemma_sum_totals_nonneg(ins, k - 1);
        lemma_sum_totals_mono(ins, 1, k - 1);
        assert(sum_totals(ins, 0) == 0);
        assert(sum_totals(ins, 1) == file_total(ins[0]@));
        assert(file_total(ins[0]@) <= concat_records(ins, k - 1).len());
        assert(concat_records(ins, k).take(file_total(ins[0]@)) =~= concat_records(
            ins,
            k - 1,
        ).take(file_total(ins[0]@)));
    }
}

} // verus!
