//! The on-disk chunk record format.  The first byte of a record is a
//! type tag: 0 for raw bytes, 1 for an LZ4 frame, 2 for a zstd frame,
//! 3 for a delta record (a base digest, a zero byte, then a compressed
//! delta payload).

use vstd::prelude::*;
use crate::errors::BlazeError;

verus! {

broadcast use vstd::string::group_string_axioms;

/// The largest chunk payload the codec accepts; readers decompress with
/// this capacity.
pub const MAX_CHUNK_PAYLOAD: usize = 16 * 1024 * 1024;

/// What zstd::bulk::compress returns: a function of the input bytes and
/// the level alone.
pub uninterp spec fn zstd_compressed(data: Seq<u8>, level: int) -> Seq<u8>;

/// What lz4_flex::compress_prepend_size returns: a function of the
/// input bytes alone.
pub uninterp spec fn lz4_compressed(data: Seq<u8>) -> Seq<u8>;

/// Relies on zstd::bulk::compress: deterministic in its input and
/// level.
#[verifier::external_body]
fn zstd_compress(data: &[u8], level: i32) -> (r: Result<Vec<u8>, BlazeError>)
    ensures
        r matches Ok(v) ==> v@ == zstd_compressed(data@, level as int),
        r matches Err(e) ==> e is Chunk,
{
    match zstd::bulk::compress(data, level) {
        Ok(v) => Ok(v),
        Err(e) => Err(BlazeError::Chunk(format!("zstd compression failed: {}", e))),
    }
}

/// Relies on zstd::bulk::decompress: decompressing what compress
/// produced yields the original bytes whenever they fit the capacity.
#[verifier::external_body]
fn zstd_decompress(data: &[u8], capacity: usize) -> (r: Result<Vec<u8>, BlazeError>)
    ensures
        forall|orig: Seq<u8>, level: int|
            data@ == zstd_compressed(orig, level) && orig.len() <= capacity
                ==> r is Ok && r->Ok_0@ == orig,
        r matches Err(e) ==> e is Chunk,
{
    match zstd::bulk::decompress(data, capacity) {
        Ok(v) => Ok(v),
        Err(e) => Err(BlazeError::Chunk(format!("zstd decompression failed: {}", e))),
    }
}

/// Relies on lz4_flex::compress_prepend_size: deterministic in its
/// input; the uncompressed size is prepended as a little-endian u32, so
/// inputs are capped at what a u32 can state.
#[verifier::external_body]
fn lz4_compress(data: &[u8]) -> (r: Vec<u8>)
    requires
        data@.len() <= u32::MAX,
    ensures
        r@ == lz4_compressed(data@),
{
    lz4_flex::compress_prepend_size(data)
}

/// Relies on lz4_flex::decompress_size_prepended: the inverse of
/// compress_prepend_size.
#[verifier::external_body]
fn lz4_decompress(data: &[u8]) -> (r: Result<Vec<u8>, BlazeError>)
    ensures
        forall|orig: Seq<u8>|
            data@ == lz4_compressed(orig) && orig.len() <= u32::MAX
                ==> r is Ok && r->Ok_0@ == orig,
        r matches Err(e) ==> e is Chunk,
{
    match lz4_flex::decompress_size_prepended(data) {
        Ok(v) => Ok(v),
        Err(e) => Err(BlazeError::Chunk(format!("LZ4 decompression failed: {}", e))),
    }
}

/// How a stored record relates to the chunk bytes it encodes: the tag
/// byte names the frame, and the remainder is the raw bytes, an LZ4
/// frame of them, or a zstd frame of them.
pub open spec fn decodes_to(enc: Seq<u8>, data: Seq<u8>) -> bool {
    enc.len() >= 1 && data.len() <= MAX_CHUNK_PAYLOAD && ((enc[0] == 0 && enc.skip(1) == data) || (
    enc[0] == 1 && enc.skip(1) == lz4_compressed(data)) || (enc[0] == 2 && exists|level: int|
        enc.skip(1) == zstd_compressed(data, level)))
}

fn tagged_record(tag: u8, payload: &[u8]) -> (r: Vec<u8>)
    ensures
        r@ == seq![tag] + payload@,
{
    let mut out: Vec<u8> = Vec::new();
    out.push(tag);
    let mut i: usize = 0;
    while i < payload.len()
        invariant
            0 <= i <= payload@.len(),
            out@ == seq![tag] + payload@.take(i as int),
        decreases payload@.len() - i,
    {
        out.push(payload[i]);
        proof {
            assert(out@ =~= seq![tag] + payload@.take(i + 1));
        }
        i += 1;
    }
    proof {
        assert(payload@.take(payload@.len() as int) =~= payload@);
    }
    out
}

/// Encode chunk bytes as a stored record.  Small inputs are stored raw;
/// larger inputs try zstd at a size-tiered level, kept only when it
/// saves at least 10%; LZ4 is the fallback, kept only when it saves at
/// least 5%; otherwise the bytes are stored raw.
pub fn compress_chunk_data(data: &[u8]) -> (r: Result<Vec<u8>, BlazeError>)
    requires
        data@.len() <= MAX_CHUNK_PAYLOAD,
    ensures
        r is Ok,
        r matches Ok(enc) ==> decodes_to(enc@, data@),
        r matches Ok(enc) ==> enc@.len() <= data@.len() + 1,
        r matches Ok(enc) ==> (data@.len() < 128 ==> enc@[0] == 0),
        r matches Ok(enc) ==> (enc@[0] == 2 ==> enc@.len() - 1 < data@.len() * 9 / 10),
        r matches Ok(enc) ==> (enc@[0] == 1 ==> enc@.len() - 1 < data@.len() * 95 / 100),
{
    if data.len() < 128 {
        let out = tagged_record(0, data);
        proof {
            assert(out@.skip(1) =~= data@);
        }
        return Ok(out);
    }
    let level: i32 = if data.len() > 1024 * 1024 {
        6
    } else if data.len() > 64 * 1024 {
        4
    } else {
        2
    };
    match zstd_compress(data, level) {
        Ok(compressed) => {
            if compressed.len() < data.len() * 9 / 10 {
                let out = tagged_record(2, compressed.as_slice());
                proof {
                    assert(out@.skip(1) =~= compressed@);
                }
                return Ok(out);
            }
        },
        Err(_) => {},
    }
    let lz4 = lz4_compress(data);
    if lz4.len() < data.len() * 95 / 100 {
        let out = tagged_record(1, lz4.as_slice());
        proof {
            assert(out@.skip(1) =~= lz4@);
        }
        Ok(out)
    } else {
        let out = tagged_record(0, data);
        proof {
            assert(out@.skip(1) =~= data@);
        }
        Ok(out)
    }
}

/// Decode a stored record back to chunk bytes.  An empty record or an
/// unknown tag is a chunk error; whenever the record is a valid
/// encoding of some bytes, exactly those bytes come back.
pub fn decompress_chunk_data(compressed: &[u8]) -> (r: Result<Vec<u8>, BlazeError>)
    ensures
        forall|orig: Seq<u8>| decodes_to(compressed@, orig) ==> r is Ok && r->Ok_0@ == orig,
        compressed@.len() == 0 ==> r is Err,
        compressed@.len() >= 1 && compressed@[0] == 0 ==> r is Ok && r->Ok_0@ == compressed@.skip(
            1),
        compressed@.len() >= 1 && !(compressed@[0] == 0 || compressed@[0] == 1 || compressed@[0]
            == 2) ==> r is Err,
        r matches Err(e) ==> e is Chunk,
{
    if compressed.len() == 0 {
        return Err(BlazeError::Chunk(String::from_str("Empty compressed data")));
    }
    let tag = compressed[0];
    let payload = vstd::slice::slice_subrange(compressed, 1, compressed.len());
    proof {
        assert(payload@ =~= compressed@.skip(1));
    }
    if tag == 0 {
        let out = vstd::slice::slice_to_vec(payload);
        return Ok(out);
    }
    if tag == 1 {
        let res = lz4_decompress(payload);
        match res {
            Ok(v) => {
                proof {
                    assert forall|orig: Seq<u8>| decodes_to(compressed@, orig) implies v@
                        == orig by {
                        assert(compressed@.skip(1) == lz4_compressed(orig));
                    }
                }
                return Ok(v);
            },
            Err(e) => {
                proof {
                    assert forall|orig: Seq<u8>| !decodes_to(compressed@, orig) by {
                        if decodes_to(compressed@, orig) {
                            assert(compressed@.skip(1) == lz4_compressed(orig));
                        }
                    }
                }
                return Err(e);
            },
        }
    }
    if tag == 2 {
        let res = zstd_decompress(payload, MAX_CHUNK_PAYLOAD);
        match res {
            Ok(v) => {
                proof {
                    assert forall|orig: Seq<u8>| decodes_to(compressed@, orig) implies v@
                        == orig by {
                        let level = choose|level: int|
                            compressed@.skip(1) == zstd_compressed(orig, level);
                        assert(compressed@.skip(1) == zstd_compressed(orig, level));
                    }
                }
                return Ok(v);
            },
            Err(e) => {
                proof {
                    assert forall|orig: Seq<u8>| !decodes_to(compressed@, orig) by {
                        if decodes_to(compressed@, orig) {
                            let level = choose|level: int|
                                compressed@.skip(1) == zstd_compressed(orig, level);
                            assert(compressed@.skip(1) == zstd_compressed(orig, level));
                        }
                    }
                }
                return Err(e);
            },
        }
    }
    Err(BlazeError::Chunk(String::from_str("Unknown compression type")))
}

} // verus!
