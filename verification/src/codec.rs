use vstd::prelude::*;
use vstd::slice::slice_subrange;

use crate::archive::{entry_views, DecodeError, EncodeError, EntryView, SaveArchive, SaveEntry};
use crate::format::{append_u32, build_payload, entries_fit, le32, parse_payload, parse_payload_spec, payload_bytes};
use crate::zlib::{
    zlib_compress, zlib_compressed, zlib_decompress, zlib_decompressed, zlib_write_fails,
    CompressStep,
};

verus! {

/// The marker that starts every archive: the ASCII letters `GSSG`.
pub open spec fn gssg_marker() -> Seq<u8> {
    seq![0x47u8, 0x53u8, 0x53u8, 0x47u8]
}

/// The zlib compression level of archives: 9, the best.
pub open spec fn gssg_level() -> u32 {
    9
}

/// What `encode` gives for entries `es`: the marker, the payload size as a
/// little-endian `u32` (truncated to 32 bits), and the zlib stream of the payload
/// at level 9, which inflates back to the payload; or the error of the zlib step
/// that failed.
pub open spec fn encode_result(es: Seq<EntryView>, res: Result<Vec<u8>, EncodeError>) -> bool {
    let payload = payload_bytes(es);
    match zlib_compressed(payload, gssg_level()) {
        Some(c) => {
            &&& res matches Ok(out)
            &&& out@ == gssg_marker() + le32(payload.len()) + c
            &&& zlib_decompressed(c) == Some(payload)
        },
        None => if zlib_write_fails(payload, gssg_level()) {
            res matches Err(EncodeError::Compress(_))
        } else {
            res matches Err(EncodeError::Finish(_))
        },
    }
}

/// What `decode` gives for the bytes `raw` of an archive.
pub open spec fn decode_result(raw: Seq<u8>, res: Result<SaveArchive, DecodeError>) -> bool {
    if raw.len() < 8 {
        res matches Err(DecodeError::TooSmall)
    } else {
        match zlib_decompressed(raw.skip(8)) {
            None => res matches Err(DecodeError::Decompress(_)),
            Some(payload) => match parse_payload_spec(payload) {
                Ok(es) => res matches Ok(a) && a.magic@ == raw.take(4) && entry_views(a.entries@)
                    == es,
                Err(e) => res matches Err(r) && r == e,
            },
        }
    }
}

/// Reads an archive: keeps its first four bytes as the marker, skips the size
/// field, inflates the rest and reads the entries listed in the payload. The
/// marker and the size field are not checked.
pub fn decode(raw: &[u8]) -> (res: Result<SaveArchive, DecodeError>)
    ensures
        decode_result(raw@, res),
{
    if raw.len() < 8 {
        return Err(DecodeError::TooSmall);
    }
    let magic: [u8; 4] = [raw[0], raw[1], raw[2], raw[3]];
    assert(magic@ =~= raw@.take(4));
    let compressed = slice_subrange(raw, 8, raw.len());
    assert(compressed@ =~= raw@.skip(8));
    let payload = match zlib_decompress(compressed) {
        Ok(p) => p,
        Err(e) => {
            return Err(DecodeError::Decompress(e.to_string()));
        },
    };
    match parse_payload(payload.as_slice()) {
        Ok(entries) => Ok(SaveArchive { magic, entries }),
        Err(e) => Err(e),
    }
}

/// Builds an archive holding `entries`, in their order.
pub fn encode(entries: &[SaveEntry]) -> (res: Result<Vec<u8>, EncodeError>)
    requires
        entries_fit(entry_views(entries@)),
    ensures
        encode_result(entry_views(entries@), res),
{
    let payload = build_payload(entries);
    let compressed = match zlib_compress(payload.as_slice(), 9) {
        Ok(c) => c,
        Err((CompressStep::Write, e)) => {
            return Err(EncodeError::Compress(e.to_string()));
        },
        Err((CompressStep::Finish, e)) => {
            return Err(EncodeError::Finish(e.to_string()));
        },
    };
    let size = (payload.len() as u64 % 0x1_0000_0000) as u32;
    proof {
        crate::format::lemma_le32_value(payload@.len());
    }
    let mut out: Vec<u8> = Vec::new();
    out.push(0x47u8);
    out.push(0x53u8);
    out.push(0x53u8);
    out.push(0x47u8);
    append_u32(&mut out, size);
    let ghost c_view = compressed@;
    let mut body = compressed;
    out.append(&mut body);
    assert(out@ =~= gssg_marker() + le32(payload@.len()) + c_view);
    Ok(out)
}

/// Builds an archive from the entries found in a directory; finding none is an
/// error.
pub fn encode_dir(entries: &[SaveEntry]) -> (res: Result<Vec<u8>, EncodeError>)
    requires
        entries_fit(entry_views(entries@)),
    ensures
        entries@.len() == 0 ==> res matches Err(EncodeError::NoFiles),
        entries@.len() > 0 ==> encode_result(entry_views(entries@), res),
{
    if entries.len() == 0 {
        return Err(EncodeError::NoFiles);
    }
    encode(entries)
}

} // verus!
