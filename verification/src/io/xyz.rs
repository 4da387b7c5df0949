//! The internal binary point-cloud format.
//!
//! A file holds the four magic bytes `XYZB`, the number of records as a
//! little-endian `u64`, and then the records, each 24 bytes long: the x and y
//! coordinates (`f64` bit patterns, little-endian), the z coordinate (`f32` bit
//! pattern, little-endian), the classification, the number of returns, the
//! return number and one padding byte.

use vstd::prelude::*;
use vstd::bytes::*;
use crate::io::stream::{sink_write_all, sink_seek_from_start, source_read_exact, io_error_other, io_error_invalid_data};

verus! {

/// Size in bytes of one encoded record.
pub const RECORD_SIZE: usize = 24;

/// Number of records that the reader decodes per chunk.
pub const READ_CHUNK_RECORDS: u64 = 1024;

/// A single record of an observed laser data point. The coordinates are held as
/// the bit patterns of the floating-point values (`f64::to_bits` for x and y,
/// `f32::to_bits` for z), which is exactly what the file stores.
#[derive(Clone, Copy, Debug, PartialEq, Eq, Structural)]
pub struct XyzRecord {
    pub x_bits: u64,
    pub y_bits: u64,
    pub z_bits: u32,
    pub classification: u8,
    pub number_of_returns: u8,
    pub return_number: u8,
    pub padding: u8,
}

/// The magic number that identifies a file of this format: `XYZB`.
pub open spec fn xyz_magic() -> Seq<u8> {
    seq![88u8, 89u8, 90u8, 66u8]
}

/// The 24 bytes that encode one record.
pub open spec fn record_bytes(r: XyzRecord) -> Seq<u8> {
    spec_u64_to_le_bytes(r.x_bits) + spec_u64_to_le_bytes(r.y_bits) + spec_u32_to_le_bytes(r.z_bits)
        + seq![r.classification, r.number_of_returns, r.return_number, r.padding]
}

/// The record that 24 bytes encode.
pub open spec fn decode_record(b: Seq<u8>) -> XyzRecord {
    XyzRecord {
        x_bits: spec_u64_from_le_bytes(b.subrange(0, 8)),
        y_bits: spec_u64_from_le_bytes(b.subrange(8, 16)),
        z_bits: spec_u32_from_le_bytes(b.subrange(16, 20)),
        classification: b[20],
        number_of_returns: b[21],
        return_number: b[22],
        padding: b[23],
    }
}

/// The encodings of the records, one after the other.
pub open spec fn records_bytes(rs: Seq<XyzRecord>) -> Seq<u8>
    decreases rs.len(),
{
    if rs.len() == 0 {
        Seq::empty()
    } else {
        records_bytes(rs.drop_last()) + record_bytes(rs.last())
    }
}

/// The records encoded by consecutive 24-byte blocks (a shorter tail is ignored).
pub open spec fn decode_records(b: Seq<u8>) -> Seq<XyzRecord> {
    Seq::new(b.len() / 24, |i: int| decode_record(b.subrange(24 * i, 24 * i + 24)))
}

/// The header: magic number and record count.
pub open spec fn header_bytes(count: u64) -> Seq<u8> {
    xyz_magic() + spec_u64_to_le_bytes(count)
}

/// The complete file that holds the given records.
pub open spec fn file_bytes(rs: Seq<XyzRecord>) -> Seq<u8> {
    header_bytes(rs.len() as u64) + records_bytes(rs)
}

/// `stream` with the bytes from offset `at` on replaced by `patch`.
pub open spec fn patched(stream: Seq<u8>, at: int, patch: Seq<u8>) -> Seq<u8> {
    stream.subrange(0, at) + patch + stream.subrange(at + patch.len(), stream.len() as int)
}

/// What a writer hands its sink for the records `rs` before it is finished:
/// nothing for no records, else the header with the placeholder count and the
/// records.
pub open spec fn unfinished_stream(rs: Seq<XyzRecord>) -> Seq<u8> {
    if rs.len() == 0 {
        Seq::empty()
    } else {
        header_bytes(u64::MAX) + records_bytes(rs)
    }
}

pub proof fn lemma_record_bytes(r: XyzRecord)
    ensures
        record_bytes(r).len() == 24,
        decode_record(record_bytes(r)) == r,
{
    lemma_auto_spec_u64_to_from_le_bytes();
    lemma_auto_spec_u32_to_from_le_bytes();
    let b = record_bytes(r);
    assert(b.subrange(0, 8) =~= spec_u64_to_le_bytes(r.x_bits));
    assert(b.subrange(8, 16) =~= spec_u64_to_le_bytes(r.y_bits));
    assert(b.subrange(16, 20) =~= spec_u32_to_le_bytes(r.z_bits));
}

pub proof fn lemma_records_bytes_len(rs: Seq<XyzRecord>)
    ensures
        records_bytes(rs).len() == 24 * rs.len(),
    decreases rs.len(),
{
    if rs.len() > 0 {
        lemma_records_bytes_len(rs.drop_last());
        lemma_record_bytes(rs.last());
    }
}

/// Encoding a concatenation concatenates the encodings.
pub proof fn lemma_records_bytes_append(a: Seq<XyzRecord>, b: Seq<XyzRecord>)
    ensures
        records_bytes(a + b) == records_bytes(a) + records_bytes(b),
    decreases b.len(),
{
    if b.len() == 0 {
        assert(a + b =~= a);
        assert(records_bytes(a) + records_bytes(b) =~= records_bytes(a));
    } else {
        lemma_records_bytes_append(a, b.drop_last());
        assert((a + b).drop_last() =~= a + b.drop_last());
        assert((a + b).last() == b.last());
        assert(records_bytes(a) + records_bytes(b) =~= records_bytes(a) + records_bytes(
            b.drop_last(),
        ) + record_bytes(b.last()));
    }
}

proof fn lemma_records_bytes_block(rs: Seq<XyzRecord>, i: int)
    requires
        0 <= i < rs.len(),
    ensures
        records_bytes(rs).subrange(24 * i, 24 * i + 24) == record_bytes(rs[i]),
    decreases rs.len(),
{
    lemma_records_bytes_len(rs.drop_last());
    lemma_record_bytes(rs.last());
    let p = records_bytes(rs.drop_last());
    if i < rs.len() - 1 {
        lemma_records_bytes_block(rs.drop_last(), i);
        assert(records_bytes(rs).subrange(24 * i, 24 * i + 24) =~= p.subrange(24 * i, 24 * i + 24));
    } else {
        assert(records_bytes(rs).subrange(24 * i, 24 * i + 24) =~= record_bytes(rs.last()));
    }
}

/// Decoding the encoding of records gives back the records.
pub proof fn lemma_decode_records_bytes(rs: Seq<XyzRecord>)
    ensures
        decode_records(records_bytes(rs)) == rs,
{
    lemma_records_bytes_len(rs);
    let b = records_bytes(rs);
    assert(b.len() / 24 == rs.len()) by {
        vstd::arithmetic::div_mod::lemma_div_multiples_vanish(rs.len() as int, 24);
    }
    assert forall|i: int| 0 <= i < rs.len() implies #[trigger] decode_records(b)[i] == rs[i] by {
        lemma_records_bytes_block(rs, i);
        lemma_record_bytes(rs[i]);
    }
    assert(decode_records(b) =~= rs);
}

/// Decoding a concatenation of whole blocks concatenates the decodings.
pub proof fn lemma_decode_records_append(a: Seq<u8>, b: Seq<u8>)
    requires
        a.len() % 24 == 0,
    ensures
        decode_records(a + b) == decode_records(a) + decode_records(b),
{
    let n = a.len() / 24;
    assert(a.len() == 24 * n) by {
        vstd::arithmetic::div_mod::lemma_fundamental_div_mod(a.len() as int, 24);
    }
    assert((a + b).len() / 24 == n + b.len() / 24) by {
        let m = b.len() as int;
        vstd::arithmetic::div_mod::lemma_fundamental_div_mod(m, 24);
        vstd::arithmetic::div_mod::lemma_fundamental_div_mod_converse(
            24 * n + m,
            24,
            n + m / 24,
            m % 24,
        );
    }
    assert forall|i: int| 0 <= i < decode_records(a + b).len() implies #[trigger] decode_records(a + b)[i]
        == (decode_records(a) + decode_records(b))[i] by {
        if i < n {
            assert((a + b).subrange(24 * i, 24 * i + 24) =~= a.subrange(24 * i, 24 * i + 24));
        } else {
            let j = i - n;
            assert((a + b).subrange(24 * i, 24 * i + 24) =~= b.subrange(24 * j, 24 * j + 24));
        }
    }
    assert(decode_records(a + b) =~= decode_records(a) + decode_records(b));
}

/// What the writer hands to its sink, once the count at offset 4 is patched in,
/// is the file that holds the records written.
pub proof fn lemma_patched_stream_is_file(rs: Seq<XyzRecord>)
    requires
        rs.len() <= u64::MAX,
    ensures
        patched(header_bytes(u64::MAX) + records_bytes(rs), 4, spec_u64_to_le_bytes(rs.len() as u64))
            == file_bytes(rs),
{
    lemma_auto_spec_u64_to_from_le_bytes();
    lemma_records_bytes_len(rs);
    let s = header_bytes(u64::MAX) + records_bytes(rs);
    assert(s.subrange(0, 4) =~= xyz_magic());
    assert(s.subrange(12, s.len() as int) =~= records_bytes(rs));
    assert(patched(s, 4, spec_u64_to_le_bytes(rs.len() as u64)) =~= file_bytes(rs));
}

/// A file that holds records starts with the magic number, gives their count,
/// and decodes to them.
pub proof fn lemma_file_bytes_read_back(rs: Seq<XyzRecord>)
    requires
        rs.len() <= u64::MAX,
    ensures
        file_bytes(rs).len() >= 12,
        file_bytes(rs).subrange(0, 4) == xyz_magic(),
        spec_u64_from_le_bytes(file_bytes(rs).subrange(4, 12)) == rs.len(),
        decode_records(file_bytes(rs).subrange(12, file_bytes(rs).len() as int)) == rs,
{
    lemma_auto_spec_u64_to_from_le_bytes();
    lemma_records_bytes_len(rs);
    let f = file_bytes(rs);
    assert(f.subrange(0, 4) =~= xyz_magic());
    assert(f.subrange(4, 12) =~= spec_u64_to_le_bytes(rs.len() as u64));
    assert(f.subrange(12, f.len() as int) =~= records_bytes(rs));
    lemma_decode_records_bytes(rs);
}

/// The record count that a twelve-byte header gives: `None` unless it holds
/// twelve bytes and starts with the magic number.
pub open spec fn header_count(header: Seq<u8>) -> Option<u64> {
    if header.len() == 12 && header.subrange(0, 4) == xyz_magic() {
        Some(spec_u64_from_le_bytes(header.subrange(4, 12)))
    } else {
        None
    }
}

/// Reads the record count from a header: the little-endian count after the
/// magic number, or `None` when the bytes are not a header.
pub fn header_record_count(header: &[u8]) -> (r: Option<u64>)
    ensures
        r == header_count(header@),
{
    if header.len() != 12 {
        return None;
    }
    let magic = vstd::slice::slice_subrange(header, 0, 4);
    if !is_xyz_magic(magic) {
        return None;
    }
    let count = vstd::slice::slice_subrange(header, 4, 12);
    Some(u64_from_le_bytes(count))
}

/// Why a header was refused.
#[derive(Debug, Clone, Copy, PartialEq, Eq, Structural)]
pub enum HeaderFault {
    /// The file does not start with the magic number.
    BadMagic,
}

/// Checks the first four bytes of a file: `Ok` exactly when they are the
/// magic number, else the fault `BadMagic`.
pub fn check_magic(bytes: &[u8]) -> (r: Result<(), HeaderFault>)
    ensures
        r == (if bytes@ == xyz_magic() {
            Ok::<(), HeaderFault>(())
        } else {
            Err(HeaderFault::BadMagic)
        }),
{
    if is_xyz_magic(bytes) {
        Ok(())
    } else {
        Err(HeaderFault::BadMagic)
    }
}

/// Returns the magic number as bytes.
pub fn xyz_magic_bytes() -> (r: Vec<u8>)
    ensures
        r@ == xyz_magic(),
{
    let r = vec![88u8, 89u8, 90u8, 66u8];
    assert(r@ =~= xyz_magic());
    r
}

/// Whether `bytes` are the magic number.
pub fn is_xyz_magic(bytes: &[u8]) -> (r: bool)
    ensures
        r == (bytes@ == xyz_magic()),
{
    if bytes.len() != 4 {
        return false;
    }
    let r = bytes[0] == 88u8 && bytes[1] == 89u8 && bytes[2] == 90u8 && bytes[3] == 66u8;
    if r {
        assert(bytes@ =~= xyz_magic());
    }
    r
}

/// Appends the encoding of `r` to `out`.
pub fn push_record_bytes(out: &mut Vec<u8>, r: &XyzRecord)
    ensures
        final(out)@ == old(out)@ + record_bytes(*r),
{
    let mut x = u64_to_le_bytes(r.x_bits);
    let mut y = u64_to_le_bytes(r.y_bits);
    let mut z = u32_to_le_bytes(r.z_bits);
    out.append(&mut x);
    out.append(&mut y);
    out.append(&mut z);
    out.push(r.classification);
    out.push(r.number_of_returns);
    out.push(r.return_number);
    out.push(r.padding);
    assert(final(out)@ =~= old(out)@ + record_bytes(*r));
}

/// The encoding of the records, one after the other.
pub fn encode_records(records: &[XyzRecord]) -> (r: Vec<u8>)
    ensures
        r@ == records_bytes(records@),
{
    let mut out: Vec<u8> = Vec::new();
    let mut i: usize = 0;
    while i < records.len()
        invariant
            i <= records@.len(),
            out@ == records_bytes(records@.subrange(0, i as int)),
        decreases records@.len() - i,
    {
        proof {
            let s = records@.subrange(0, i as int + 1);
            assert(s.drop_last() =~= records@.subrange(0, i as int));
            assert(s.last() == records@[i as int]);
        }
        push_record_bytes(&mut out, &records[i]);
        i = i + 1;
    }
    assert(records@.subrange(0, records@.len() as int) =~= records@);
    out
}

/// Decodes the record held in `bytes[off..off + 24]`.
pub fn decode_record_at(bytes: &[u8], off: usize) -> (r: XyzRecord)
    requires
        off + 24 <= bytes@.len(),
    ensures
        r == decode_record(bytes@.subrange(off as int, off + 24)),
{
    let ghost b = bytes@.subrange(off as int, off + 24);
    let _len = bytes.len();
    let x = u64_from_le_bytes(vstd::slice::slice_subrange(bytes, off, off + 8));
    let y = u64_from_le_bytes(vstd::slice::slice_subrange(bytes, off + 8, off + 16));
    let z = u32_from_le_bytes(vstd::slice::slice_subrange(bytes, off + 16, off + 20));
    assert(b.subrange(0, 8) =~= bytes@.subrange(off as int, off + 8));
    assert(b.subrange(8, 16) =~= bytes@.subrange(off + 8, off + 16));
    assert(b.subrange(16, 20) =~= bytes@.subrange(off + 16, off + 20));
    XyzRecord {
        x_bits: x,
        y_bits: y,
        z_bits: z,
        classification: bytes[off + 20],
        number_of_returns: bytes[off + 21],
        return_number: bytes[off + 22],
        padding: bytes[off + 23],
    }
}

/// Replaces the contents of `out` with the records that `bytes` encode.
pub fn decode_records_into(bytes: &[u8], out: &mut Vec<XyzRecord>)
    ensures
        final(out)@ == decode_records(bytes@),
{
    out.clear();
    let n = bytes.len() / 24;
    let mut i: usize = 0;
    while i < n
        invariant
            n == bytes@.len() / 24,
            i <= n,
            out@ =~= decode_records(bytes@).subrange(0, i as int),
        decreases n - i,
    {
        let _len = bytes.len();
        assert(24 * i + 24 <= bytes@.len()) by {
            vstd::arithmetic::div_mod::lemma_fundamental_div_mod(bytes@.len() as int, 24);
        }
        let r = decode_record_at(bytes, 24 * i);
        out.push(r);
        i = i + 1;
    }
}


/// Writes records in the binary format to a sink. The header is written with
/// the first non-empty batch of records, with a placeholder count; `finish`
/// seeks back and writes the real count. The writer has no `Drop` that
/// finishes it (a `drop` must be proved never to unwind, which the sink's calls
/// cannot be): dropped unfinished, it leaves the placeholder count, so its user
/// calls `finish`, or wraps it in a type whose `Drop` does.
///
/// The sink itself is not modelled: the contracts speak of the ghost log
/// `emitted` of the bytes handed to successful `write_all` calls, kept by these
/// functions. A further call on the sink that the log does not record would not
/// be caught; tying the log to the sink would need a model of the stream.
pub struct XyzInternalWriter<W> {
    inner: Option<W>,
    records_written: u64,
    /// The bytes handed to the sink by calls of `write_all` that succeeded, in order.
    emitted: Ghost<Seq<u8>>,
    /// The records of the batches whose writing succeeded, in order.
    written: Ghost<Seq<XyzRecord>>,
    /// After a successful `finish`: the bytes written at offset 4.
    count_patch: Ghost<Option<Seq<u8>>>,
    /// After a successful `finish`: the position, as the sink reported it after
    /// seeking, at which the count was written.
    count_at: Ghost<Option<u64>>,
    /// Whether every write handed to the sink so far succeeded.
    intact: Ghost<bool>,
}

impl<W> XyzInternalWriter<W> {
    /// Whether the writer has handed its sink back (or lost it in a failed `finish`).
    pub closed spec fn is_finished(&self) -> bool {
        self.inner is None
    }

    /// The number of records written so far.
    pub closed spec fn records_written(&self) -> u64 {
        self.records_written
    }

    /// The bytes handed to the sink by successful sequential writes.
    pub closed spec fn emitted(&self) -> Seq<u8> {
        self.emitted@
    }

    /// The records written so far.
    pub closed spec fn written(&self) -> Seq<XyzRecord> {
        self.written@
    }

    /// After a successful `finish`, the bytes written over offset 4.
    pub closed spec fn count_patch(&self) -> Option<Seq<u8>> {
        self.count_patch@
    }

    /// After a successful `finish`, the position that the sink reported after
    /// the seek, where the count was written.
    pub closed spec fn count_at(&self) -> Option<u64> {
        self.count_at@
    }

    /// Whether every write handed to the sink so far succeeded.
    pub closed spec fn intact(&self) -> bool {
        self.intact@
    }

    /// The writer's internal consistency.
    pub closed spec fn wf(&self) -> bool {
        &&& self.records_written == self.written@.len()
        &&& self.intact@ ==> self.emitted@ == unfinished_stream(self.written@)
    }
}

impl<W: std::io::Write + std::io::Seek> XyzInternalWriter<W> {
    /// A writer that has written nothing to `inner` yet.
    pub fn new(inner: W) -> (r: Self)
        ensures
            r.wf(),
            !r.is_finished(),
            r.records_written() == 0,
            r.written() == Seq::<XyzRecord>::empty(),
            r.emitted() == Seq::<u8>::empty(),
            r.count_patch() is None,
            r.count_at() is None,
            r.intact(),
    {
        XyzInternalWriter {
            inner: Some(inner),
            records_written: 0,
            emitted: Ghost(Seq::empty()),
            written: Ghost(Seq::empty()),
            count_patch: Ghost(None),
            count_at: Ghost(None),
            intact: Ghost(true),
        }
    }

    /// Writes a batch of records. The first non-empty batch is preceded by the
    /// header, whose count is the placeholder `u64::MAX` until `finish`.
    /// Fails, changing nothing, when the writer has been finished.
    pub fn write_records(&mut self, records: &[XyzRecord]) -> (r: Result<(), std::io::Error>)
        requires
            old(self).wf(),
            !old(self).is_finished() && records@.len() > 0 ==> old(self).records_written() + records@.len()
                <= u64::MAX,
        ensures
            final(self).wf(),
            final(self).records_written() == final(self).written().len(),
            r is Ok ==> final(self).records_written() == old(self).records_written() + records@.len(),
            r is Err ==> final(self).records_written() == old(self).records_written(),
            final(self).count_patch() == old(self).count_patch(),
            final(self).count_at() == old(self).count_at(),
            final(self).intact() ==> final(self).emitted() == unfinished_stream(final(self).written()),
            r is Ok ==> final(self).intact() == old(self).intact(),
            old(self).is_finished() ==> final(self).intact() == old(self).intact(),
            final(self).intact() ==> old(self).intact(),
            final(self).is_finished() == old(self).is_finished(),
            old(self).is_finished() ==> r is Err && final(self).written() == old(self).written()
                && final(self).emitted() == old(self).emitted(),
            !old(self).is_finished() && records@.len() == 0 ==> r is Ok && final(self).written()
                == old(self).written() && final(self).emitted() == old(self).emitted(),
            !old(self).is_finished() && records@.len() > 0 && r is Ok ==> {
                &&& final(self).written() == old(self).written() + records@
                &&& final(self).emitted() == old(self).emitted() + (if old(self).records_written() == 0 {
                    header_bytes(u64::MAX)
                } else {
                    Seq::<u8>::empty()
                }) + records_bytes(records@)
            },
            r is Err ==> final(self).written() == old(self).written() && old(self).emitted().is_prefix_of(
                final(self).emitted(),
            ),
    {
        let finished = self.inner.is_none();
        if finished {
            return Err(io_error_other("writer has already been finished"));
        }
        if records.len() == 0 {
            return Ok(());
        }
        let ghost start = self.emitted@;
        let first = self.records_written == 0;
        let bytes = encode_records(records);
        let mut res: Result<(), std::io::Error> = Ok(());
        match &mut self.inner {
            Some(w) => {
                if first {
                    let magic = xyz_magic_bytes();
                    match sink_write_all(w, magic.as_slice()) {
                        Ok(()) => {
                            proof {
                                self.emitted@ = self.emitted@ + magic@;
                            }
                            let count = u64_to_le_bytes(u64::MAX);
                            match sink_write_all(w, count.as_slice()) {
                                Ok(()) => {
                                    proof {
                                        self.emitted@ = self.emitted@ + count@;
                                    }
                                },
                                Err(e) => {
                                    res = Err(e);
                                },
                            }
                        },
                        Err(e) => {
                            res = Err(e);
                        },
                    }
                }
                if res.is_ok() {
                    match sink_write_all(w, bytes.as_slice()) {
                        Ok(()) => {
                            proof {
                                self.emitted@ = self.emitted@ + bytes@;
                            }
                        },
                        Err(e) => {
                            res = Err(e);
                        },
                    }
                }
            },
            None => {},
        }
        if res.is_err() {
            assert(start.is_prefix_of(self.emitted@));
            proof {
                self.intact@ = false;
            }
            return res;
        }
        self.records_written = self.records_written + records.len() as u64;
        proof {
            let ghost before = self.written@;
            self.written@ = self.written@ + records@;
            if first {
                assert(self.emitted@ =~= start + header_bytes(u64::MAX) + records_bytes(records@));
                if self.intact@ {
                    assert(before.len() == 0);
                    assert(self.written@ =~= records@);
                }
            } else {
                assert(self.emitted@ =~= start + Seq::<u8>::empty() + records_bytes(records@));
                if self.intact@ {
                    lemma_records_bytes_append(before, records@);
                    assert(self.emitted@ =~= unfinished_stream(self.written@));
                }
            }
        }
        Ok(())
    }

    /// Seeks back to offset 4 and writes the number of records written, then
    /// hands the sink back. Fails when the writer has already been finished.
    /// The writer is finished afterwards in every case. When it succeeds after
    /// records were written and every write succeeded, the bytes handed to the
    /// sink, with the count written over them at the position the seek
    /// reported, are exactly the file that holds the records.
    pub fn finish(&mut self) -> (r: Result<W, std::io::Error>)
        requires
            old(self).wf(),
        ensures
            final(self).wf(),
            final(self).is_finished(),
            final(self).written() == old(self).written(),
            final(self).emitted() == old(self).emitted(),
            final(self).records_written() == old(self).records_written(),
            final(self).records_written() == final(self).written().len(),
            old(self).is_finished() ==> r is Err,
            !old(self).is_finished() && r is Ok ==> final(self).count_patch() == Some(
                spec_u64_to_le_bytes(old(self).records_written()),
            ),
            !old(self).is_finished() && r is Ok ==> final(self).count_patch() == Some(
                spec_u64_to_le_bytes(old(self).written().len() as u64),
            ),
            !old(self).is_finished() && r is Ok ==> final(self).count_at() == Some(4u64),
            final(self).intact() == old(self).intact(),
            !old(self).is_finished() && r is Ok && old(self).intact() && old(self).written().len() > 0
                ==> patched(
                final(self).emitted(),
                final(self).count_at()->0 as int,
                final(self).count_patch()->0,
            ) == file_bytes(old(self).written()),
            r is Err ==> final(self).count_patch() == old(self).count_patch(),
            r is Err ==> final(self).count_at() == old(self).count_at(),
    {
        let taken = self.inner.take();
        match taken {
            None => Err(io_error_other("writer has already been finished")),
            Some(mut inner) => {
                let at = match sink_seek_from_start(&mut inner, 4) {
                    Err(e) => {
                        return Err(e);
                    },
                    Ok(p) => p,
                };
                let count = u64_to_le_bytes(self.records_written);
                match sink_write_all(&mut inner, count.as_slice()) {
                    Err(e) => Err(e),
                    Ok(()) => {
                        proof {
                            self.count_patch@ = Some(count@);
                            self.count_at@ = Some(at);
                            if self.intact@ && self.written@.len() > 0 {
                                lemma_patched_stream_is_file(self.written@);
                            }
                        }
                        Ok(inner)
                    },
                }
            },
        }
    }
}

/// Reads records in the binary format from a source, a chunk at a time.
///
/// The source itself is not modelled: the contracts speak of the ghost log
/// `consumed` of the bytes obtained from successful `read_exact` calls, kept by
/// these functions, and nothing is said of bytes read on a path that fails. A
/// read whose bytes the log does not record would not be caught; tying the log
/// to the source would need a model of the stream.
pub struct XyzInternalReader<R> {
    inner: R,
    n_records: u64,
    records_read: u64,
    buffer: Vec<XyzRecord>,
    /// The bytes obtained from the source so far.
    consumed: Ghost<Seq<u8>>,
}

impl<R> XyzInternalReader<R> {
    /// The record count that the header gives.
    pub closed spec fn n_records(&self) -> u64 {
        self.n_records
    }

    /// The number of records handed out so far.
    pub closed spec fn records_read(&self) -> u64 {
        self.records_read
    }

    /// The bytes obtained from the source so far.
    pub closed spec fn consumed(&self) -> Seq<u8> {
        self.consumed@
    }

    /// The reader's internal consistency: the header was read and checked, the
    /// count is the one it gives, and exactly the records handed out have been
    /// read after it.
    pub closed spec fn wf(&self) -> bool {
        &&& self.consumed@.len() == 12 + 24 * self.records_read
        &&& self.consumed@.subrange(0, 4) == xyz_magic()
        &&& self.n_records == spec_u64_from_le_bytes(self.consumed@.subrange(4, 12))
        &&& self.records_read <= self.n_records
    }

    /// The records handed out so far, in order.
    pub open spec fn delivered(&self) -> Seq<XyzRecord> {
        decode_records(self.consumed().subrange(12, self.consumed().len() as int))
    }
}

impl<R: std::io::Read> XyzInternalReader<R> {
    /// Reads and checks the magic number and reads the record count. Fails with
    /// `InvalidData` when `check_magic` refuses the first four bytes, and with
    /// the source's error when it cannot supply the twelve header bytes. Every
    /// path reads from the source first, so whether it succeeds always depends
    /// on the source; what the bytes read on a failing path were is not stated.
    pub fn new(inner: R) -> (r: Result<Self, std::io::Error>)
        ensures
            r matches Ok(rd) ==> (rd.wf() && rd.records_read() == 0 && rd.consumed().len() == 12),
            r matches Ok(rd) ==> header_count(rd.consumed()) == Some(rd.n_records()),
    {
        let mut inner = inner;
        let mut magic: Vec<u8> = vec![0u8; 4];
        match source_read_exact(&mut inner, &mut magic) {
            Err(e) => {
                return Err(e);
            },
            Ok(()) => {},
        }
        match check_magic(magic.as_slice()) {
            Ok(()) => {},
            Err(HeaderFault::BadMagic) => {
                return Err(io_error_invalid_data("invalid magic number"));
            },
        }
        let mut count: Vec<u8> = vec![0u8; 8];
        match source_read_exact(&mut inner, &mut count) {
            Err(e) => {
                return Err(e);
            },
            Ok(()) => {},
        }
        let mut header = magic;
        header.append(&mut count);
        match header_record_count(header.as_slice()) {
            None => Err(io_error_invalid_data("invalid magic number")),
            Some(n_records) => {
                assert(header@.subrange(0, 4) =~= xyz_magic());
                Ok(XyzInternalReader {
                    inner,
                    n_records,
                    records_read: 0,
                    buffer: Vec::new(),
                    consumed: Ghost(header@),
                })
            },
        }
    }

    /// Reads the next chunk: as many of the remaining records as fit in a chunk
    /// of 1024. Returns `None`, reading nothing, once all records announced by
    /// the header have been read.
    pub fn next_chunk(&mut self) -> (r: Result<Option<&[XyzRecord]>, std::io::Error>)
        requires
            old(self).wf(),
        ensures
            final(self).wf(),
            final(self).n_records() == old(self).n_records(),
            old(self).records_read() >= old(self).n_records() ==> (r matches Ok(None))
                && final(self).consumed() == old(self).consumed(),
            r matches Ok(Some(chunk)) ==> {
                let k = if old(self).n_records() - old(self).records_read() < READ_CHUNK_RECORDS {
                    old(self).n_records() - old(self).records_read()
                } else {
                    READ_CHUNK_RECORDS as int
                };
                &&& old(self).records_read() < old(self).n_records()
                &&& chunk@.len() == k
                &&& final(self).records_read() == old(self).records_read() + k
                &&& final(self).consumed().subrange(0, old(self).consumed().len() as int)
                    == old(self).consumed()
                &&& chunk@ == decode_records(
                    final(self).consumed().subrange(
                        old(self).consumed().len() as int,
                        final(self).consumed().len() as int,
                    ),
                )
                &&& final(self).delivered() == old(self).delivered() + chunk@
            },
            r is Err ==> final(self).consumed() == old(self).consumed(),
            r matches Ok(None) ==> old(self).records_read() >= old(self).n_records(),
    {
        if self.records_read >= self.n_records {
            return Ok(None);
        }
        let left = self.n_records - self.records_read;
        let k: u64 = if left < READ_CHUNK_RECORDS {
            left
        } else {
            READ_CHUNK_RECORDS
        };
        let nbytes: usize = (k as usize) * RECORD_SIZE;
        let mut bytes: Vec<u8> = vec![0u8; nbytes];
        match source_read_exact(&mut self.inner, &mut bytes) {
            Err(e) => {
                return Err(e);
            },
            Ok(()) => {},
        }
        decode_records_into(bytes.as_slice(), &mut self.buffer);
        let ghost old_consumed = self.consumed@;
        self.records_read = self.records_read + k;
        proof {
            self.consumed@ = self.consumed@ + bytes@;
            let c = self.consumed@;
            assert(c.subrange(0, 4) =~= old_consumed.subrange(0, 4));
            assert(c.subrange(4, 12) =~= old_consumed.subrange(4, 12));
            assert(c.subrange(0, old_consumed.len() as int) =~= old_consumed);
            assert(c.subrange(old_consumed.len() as int, c.len() as int) =~= bytes@);
            let before = old_consumed.subrange(12, old_consumed.len() as int);
            assert(before.len() % 24 == 0) by {
                vstd::arithmetic::div_mod::lemma_mod_multiples_basic(
                    (old_consumed.len() - 12) / 24,
                    24,
                );
            }
            assert(c.subrange(12, c.len() as int) =~= before + bytes@);
            lemma_decode_records_append(before, bytes@);
        }
        Ok(Some(self.buffer.as_slice()))
    }
}

} // verus!
