//! The calls into `std::io` that the readers and writers of this crate make.
//! Each item here is trusted: Verus believes its contract without proof.

use vstd::prelude::*;

verus! {

/// `std::io::Error`, carried through as an opaque value.
#[verifier::external_type_specification]
#[verifier::external_body]
pub struct ExIoError(std::io::Error);

/// Calls `std::io::Write::write_all`. Nothing is claimed of the sink: on `Ok`
/// the caller knows only that the call returned without error, which the
/// documentation of `write_all` says means that every byte was accepted.
#[verifier::external_body]
pub(crate) fn sink_write_all<W: std::io::Write>(sink: &mut W, bytes: &[u8]) -> (r: Result<(), std::io::Error>)
{
    sink.write_all(bytes)
}

/// Calls `std::io::Seek::seek` with `SeekFrom::Start(offset)`. Its
/// documentation says that a successful seek returns the new position from the
/// start of the stream, which for `SeekFrom::Start(offset)` is `offset`; that is
/// what this contract states. Whether it succeeds depends on the sink.
#[verifier::external_body]
pub(crate) fn sink_seek_from_start<W: std::io::Seek>(sink: &mut W, offset: u64) -> (r: Result<u64, std::io::Error>)
    ensures
        r matches Ok(p) ==> p == offset,
{
    sink.seek(std::io::SeekFrom::Start(offset))
}

/// Calls `std::io::Read::read_exact` on the whole of `buf`. The documentation of
/// `read_exact` says it fills the given slice or fails; the slice keeps its
/// length either way, which is what this contract states. What the bytes are
/// depends on the source and is not stated.
#[verifier::external_body]
pub(crate) fn source_read_exact<R: std::io::Read>(source: &mut R, buf: &mut Vec<u8>) -> (r: Result<(), std::io::Error>)
    ensures
        final(buf)@.len() == old(buf)@.len(),
{
    source.read_exact(buf.as_mut_slice())
}

/// Calls `std::io::Error::other` with a message. The error is opaque.
#[verifier::external_body]
pub(crate) fn io_error_other(msg: &str) -> (r: std::io::Error)
{
    std::io::Error::other(msg.to_string())
}

/// Calls `std::io::Error::new` with `ErrorKind::InvalidData` and a message. The
/// error is opaque.
#[verifier::external_body]
pub(crate) fn io_error_invalid_data(msg: &str) -> (r: std::io::Error)
{
    std::io::Error::new(std::io::ErrorKind::InvalidData, msg.to_string())
}

}
