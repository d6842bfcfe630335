//! Sequential access to a file image: a reader that decodes the header once
//! and then hands out records in file order, and a writer that lays down
//! the header slot first and appends records one at a time.
//!
//! Length validation is strict: a byte length that disagrees with the
//! header's declared record count is rejected when the reader is opened, so
//! every later pull is guaranteed to find its bytes.

use vstd::prelude::*;
use vstd::arithmetic::mul::lemma_mul_inequality;

use crate::codec::{
    append_header, append_record, decode_record, file_bytes, file_header, file_records,
    file_total, parse_header, record_bytes, records_bytes, spec_parse_header, wf_file,
};
use crate::error::{EGSError, EGSResult};
use crate::header::Header;
use crate::record::Record;

verus! {

/// A sequential reader over one file image.
pub struct PHSPReader {
    data: Vec<u8>,
    /// The validated header of the file being read.
    pub header: Header,
    next_record: u64,
}

impl PHSPReader {
    /// The reader holds a well-formed file image, its header, and a cursor
    /// within the declared record count.
    pub closed spec fn wf(self) -> bool {
        &&& wf_file(self.data@)
        &&& self.header == file_header(self.data@)
        &&& self.next_record <= file_total(self.data@)
    }

    /// The raw bytes the reader walks.
    pub closed spec fn source(self) -> Seq<u8> {
        self.data@
    }

    /// The header the reader decoded, for use in contracts.
    pub closed spec fn spec_header(self) -> Header {
        self.header
    }

    /// Every record of the file, in file order.
    pub closed spec fn records(self) -> Seq<Record> {
        file_records(self.data@)
    }

    /// How many records have been handed out so far.
    pub closed spec fn position(self) -> int {
        self.next_record as int
    }

    /// Open a reader over a file image: decode the header and validate the
    /// byte length against the declared record count.
    pub fn from(data: Vec<u8>) -> (r: EGSResult<PHSPReader>)
        ensures
            match r {
                Ok(reader) => {
                    &&& wf_file(data@)
                    &&& reader.wf()
                    &&& reader.source() == data@
                    &&& reader.spec_header() == file_header(data@)
                    &&& reader.records() == file_records(data@)
                    &&& reader.position() == 0
                },
                Err(e) => {
                    &&& !wf_file(data@)
                    &&& spec_parse_header(data@) == Err::<Header, EGSError>(e)
                },
            },
    {
        let header = match parse_header(&data) {
            Ok(h) => h,
            Err(e) => { return Err(e) },
        };
        Ok(PHSPReader { data, header, next_record: 0 })
    }

    /// Whether every declared record has been handed out.
    pub fn exhausted(&self) -> (r: bool)
        requires
            self.wf(),
        ensures
            r == (self.position() == self.records().len()),
    {
        self.next_record >= self.header.total_particles as u64
    }

    /// The next record, or nothing once the declared count is exhausted.
    /// On a validated image every pull before that point succeeds.
    pub fn next(&mut self) -> (r: Option<Record>)
        requires
            old(self).wf(),
        ensures
            final(self).wf(),
            final(self).source() == old(self).source(),
            final(self).spec_header() == old(self).spec_header(),
            final(self).records() == old(self).records(),
            if old(self).position() < old(self).records().len() {
                r == Some(old(self).records()[old(self).position()]) && final(self).position()
                    == old(self).position() + 1
            } else {
                r is None && final(self).position() == old(self).position()
            },
    {
        if self.next_record >= self.header.total_particles as u64 {
            return None;
        }
        let rs = self.header.record_size;
        let n = self.data.len();
        proof {
            let total = file_total(self.data@);
            let nr = self.next_record as int;
            let rsi = rs as int;
            lemma_mul_inequality(nr + 2, total + 1, rsi);
            assert((nr + 1) * rsi + rsi == (nr + 2) * rsi) by (nonlinear_arith);
            assert(0 <= (nr + 1) * rsi) by (nonlinear_arith)
                requires
                    0 <= nr + 1,
                    rsi > 0,
            ;
            assert((nr + 1) * rsi + rsi <= n as int);
        }
        let off64 = (self.next_record + 1) * rs;
        let off = off64 as usize;
        let record = decode_record(&self.data, off, self.header.using_zlast);
        self.next_record = self.next_record + 1;
        proof {
            let i = self.next_record as int - 1;
            let rsi = self.header.record_size as int;
            assert((i + 1) * rsi == off as int);
            assert((i + 2) * rsi == off as int + (if self.header.using_zlast {
                32int
            } else {
                28int
            }));
        }
        Some(record)
    }
}

/// A sequential writer that builds one file image.
pub struct PHSPWriter {
    data: Vec<u8>,
    /// The header the writer was opened with; every record must match its
    /// layout.
    pub header: Header,
    written: Ghost<Seq<Record>>,
}

impl PHSPWriter {
    /// The image holds the header slot followed by exactly the records
    /// written so far, each matching the header's layout.
    pub closed spec fn wf(self) -> bool {
        &&& self.header.wf()
        &&& self.data@ == file_bytes(self.header, self.written@)
        &&& forall|i: int|
            0 <= i < self.written@.len() ==> ((#[trigger] self.written@[i]).zlast is Some)
                == self.header.using_zlast
    }

    /// The records written so far, in order.
    pub closed spec fn written_records(self) -> Seq<Record> {
        self.written@
    }

    /// The header the writer was opened with, for use in contracts.
    pub closed spec fn spec_header(self) -> Header {
        self.header
    }

    /// Open a writer: the header slot is laid down at once.
    pub fn from(header: &Header) -> (w: PHSPWriter)
        requires
            header.wf(),
        ensures
            w.wf(),
            w.spec_header() == *header,
            w.written_records() == Seq::<Record>::empty(),
    {
        let mut data = Vec::new();
        append_header(&mut data, header);
        proof {
            assert(data@ =~= file_bytes(*header, Seq::<Record>::empty()));
        }
        PHSPWriter { data, header: *header, written: Ghost(Seq::empty()) }
    }

    /// Append one record in the layout fixed at opening.  Handing a record
    /// of the other shape to a writer is a programming error, which the
    /// precondition rules out.
    pub fn write(&mut self, record: &Record)
        requires
            old(self).wf(),
            (record.zlast is Some) == old(self).spec_header().using_zlast,
        ensures
            final(self).wf(),
            final(self).spec_header() == old(self).spec_header(),
            final(self).written_records() == old(self).written_records().push(*record),
    {
        append_record(&mut self.data, record);
        proof {
            self.written@ = self.written@.push(*record);
            let w = old(self).written@;
            assert(w.push(*record).drop_last() =~= w);
            assert(records_bytes(w.push(*record)) == records_bytes(w) + record_bytes(*record));
            assert(self.data@ =~= file_bytes(self.header, self.written@));
        }
    }

    /// Give up the writer and take the finished image.
    pub fn into_bytes(self) -> (r: Vec<u8>)
        requires
            self.wf(),
        ensures
            r@ == file_bytes(self.spec_header(), self.written_records()),
    {
        self.data
    }
}

/// Every record a well-formed writer has taken matches its header's
/// layout.
pub proof fn lemma_writer_shapes(w: PHSPWriter)
    requires
        w.wf(),
    ensures
        forall|i: int|
            0 <= i < w.written_records().len() ==> ((#[trigger] w.written_records()[i]).zlast
                is Some) == w.spec_header().using_zlast,
{
}

/// Decode a whole file image: its header and every record, in order.
pub fn read_file(data: &Vec<u8>) -> (r: EGSResult<(Header, Vec<Record>)>)
    ensures
        match r {
            Ok(pair) => {
                &&& wf_file(data@)
                &&& pair.0 == file_header(data@)
                &&& pair.0.wf()
                &&& pair.1@ == file_records(data@)
            },
            Err(e) => {
                &&& !wf_file(data@)
                &&& spec_parse_header(data@) == Err::<Header, EGSError>(e)
            },
        },
{
    let mut reader = match PHSPReader::from(clone_bytes(data)) {
        Ok(rd) => rd,
        Err(e) => { return Err(e) },
    };
    let header = reader.header;
    let mut records: Vec<Record> = Vec::new();
    while !reader.exhausted()
        invariant
            reader.wf(),
            reader.source() == data@,
            reader.header == header,
            records@ == reader.records().take(reader.position()),
            reader.position() == records@.len(),
        decreases reader.records().len() - reader.position(),
    {
        match reader.next() {
            Some(rec) => {
                records.push(rec);
                proof {
                    assert(records@ =~= reader.records().take(reader.position()));
                }
            },
            None => {
                proof {
                    assert(false);
                }
            },
        }
    }
    proof {
        assert(records@ =~= file_records(data@));
    }
    Ok((header, records))
}

/// Encode a whole file image from a header and records of its layout.
pub fn write_file(header: &Header, records: &Vec<Record>) -> (r: Vec<u8>)
    requires
        header.wf(),
        forall|i: int|
            0 <= i < records@.len() ==> ((#[trigger] records@[i]).zlast is Some)
                == header.using_zlast,
    ensures
        r@ == file_bytes(*header, records@),
{
    let mut writer = PHSPWriter::from(header);
    let mut i: usize = 0;
    while i < records.len()
        invariant
            writer.wf(),
            writer.spec_header() == *header,
            header.wf(),
            i <= records@.len(),
            writer.written_records() == records@.take(i as int),
            forall|k: int|
                0 <= k < records@.len() ==> ((#[trigger] records@[k]).zlast is Some)
                    == header.using_zlast,
        decreases records@.len() - i,
    {
        let rec = records[i];
        writer.write(&rec);
        i = i + 1;
        proof {
            assert(writer.written_records() =~= records@.take(i as int));
        }
    }
    proof {
        assert(records@.take(records@.len() as int) =~= records@);
    }
    writer.into_bytes()
}

/// A fresh vector with the same bytes.
fn clone_bytes(data: &Vec<u8>) -> (r: Vec<u8>)
    ensures
        r@ == data@,
{
    let mut out: Vec<u8> = Vec::new();
    let mut i: usize = 0;
    while i < data.len()
        invariant
            i <= data@.len(),
            out@ == data@.take(i as int),
        decreases data@.len() - i,
    {
        out.push(data[i]);
        i = i + 1;
        proof {
            assert(out@ =~= data@.take(i as int));
        }
    }
    proof {
        assert(data@.take(data@.len() as int) =~= data@);
    }
    out
}

} // verus!
