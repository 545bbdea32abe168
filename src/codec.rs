//! The outside codecs and hashes the archive relies on, each behind one trusted item.
use vstd::prelude::*;
use std::io::Read;
use sha2::Digest;
use std::hash::{Hash, Hasher};

verus! {

/// The compression level used for every cluster.
pub const LEVEL: i32 = 3;

/// The zstd frame that compressing `data` at the archive's level yields, with the
/// preloaded dictionary `dict` if there is one (only meaningful where compression with
/// that dictionary succeeds; the contracts claim nothing else of it).
pub uninterp spec fn zstd_frame(data: Seq<u8>, dict: Option<Seq<u8>>) -> Seq<u8>;

/// The BLAKE3 digest of `data`.
pub uninterp spec fn blake3_of(data: Seq<u8>) -> Seq<u8>;

/// The SHA-256 digest of `data`.
pub uninterp spec fn sha256_of(data: Seq<u8>) -> Seq<u8>;

/// The FxHash of a text, hashed as `str` hashes (its bytes, then 0xff): fixed for a
/// given target (it reads words in native byte order and pointer width).
pub uninterp spec fn fx_str(s: Seq<char>) -> u64;

/// The 64-bit FxHash of a 32-byte digest, hashed as an array: fixed for a given target
/// (it reads words in native byte order).
pub uninterp spec fn fx_digest(d: Seq<u8>) -> u64;

/// Whether a dictionary is absent or is loaded as raw content (it does not begin with
/// the magic number of zstd's dictionary format).
pub open spec fn raw_dictionary(dict: Option<Seq<u8>>) -> bool {
    match dict {
        None => true,
        Some(d) => !(d.len() >= 4 && d[0] == 0x37 && d[1] == 0xa4 && d[2] == 0x30 && d[3] == 0xec),
    }
}

/// The contents of an optional dictionary.
pub open spec fn dict_view(dict: Option<&[u8]>) -> Option<Seq<u8>> {
    match dict {
        None => None,
        Some(d) => Some(d@),
    }
}

/// Relies on `zstd::bulk::Compressor::compress` (level 3, with `with_dictionary` when
/// a dictionary is given): the frame is a function of the data and the dictionary; it is
/// written into a buffer of `zstd_safe::compress_bound` bytes (at most n + n/256 + 64
/// for inputs below the maximum size); only memory exhaustion makes it fail, and only a
/// dictionary in zstd's own format (magic `37 a4 30 ec`) can be rejected when loaded.
#[verifier::external_body]
pub(crate) fn zstd_compress(data: &[u8], dict: Option<&[u8]>) -> (r: Result<Vec<u8>, ()>)
    ensures
        r matches Ok(c) ==> c@ == zstd_frame(data@, dict_view(dict)),
        r matches Ok(c) ==> c@.len() <= data@.len() + data@.len() / 256 + 64,
        raw_dictionary(dict_view(dict)) ==> r is Ok,
{
    let made = match dict {
        Some(d) => zstd::bulk::Compressor::with_dictionary(LEVEL, d),
        None => zstd::bulk::Compressor::new(LEVEL),
    };
    match made {
        Ok(mut c) => c.compress(data).map_err(|_| ()),
        Err(_) => Err(()),
    }
}

/// Relies on `zstd::stream::read::Decoder` (with `with_dictionary` when a dictionary is
/// given) read to the end: zstd is lossless, so whatever decodes is the data the frame was
/// made from; and a frame that compressing some data made decodes, with the same
/// dictionary, when that dictionary is loaded as raw content (a dictionary in zstd's own
/// format may be rejected when loaded).
#[verifier::external_body]
pub(crate) fn zstd_decompress(frame: &[u8], dict: Option<&[u8]>) -> (r: Result<Vec<u8>, ()>)
    ensures
        raw_dictionary(dict_view(dict)) && (exists|x: Seq<u8>| frame@ == zstd_frame(x, dict_view(dict))) ==> r is Ok,
        r matches Ok(d) ==> forall|x: Seq<u8>| frame@ == zstd_frame(x, dict_view(dict)) ==> d@ == x,
{
    let mut out: Vec<u8> = Vec::new();
    let done = match dict {
        Some(d) => zstd::stream::read::Decoder::with_dictionary(frame, d).and_then(|mut dec| dec.read_to_end(&mut out)),
        None => zstd::stream::read::Decoder::new(frame).and_then(|mut dec| dec.read_to_end(&mut out)),
    };
    match done {
        Ok(_) => Ok(out),
        Err(_) => Err(()),
    }
}

/// Relies on `blake3::hash`: a 32-byte digest of the data.
#[verifier::external_body]
pub(crate) fn blake3_hash(data: &[u8]) -> (r: [u8; 32])
    ensures
        r@ == blake3_of(data@),
        r@.len() == 32,
{
    *blake3::hash(data).as_bytes()
}

/// Relies on `sha2::Sha256::digest`: a 32-byte digest of the data.
#[verifier::external_body]
pub(crate) fn sha256(data: &[u8]) -> (r: [u8; 32])
    ensures
        r@ == sha256_of(data@),
        r@.len() == 32,
{
    sha2::Sha256::digest(data).into()
}

/// Relies on `fxhash::FxHasher` fed through `Hash for str`: an unseeded hash of the text,
/// the same on every run on one target.
#[verifier::external_body]
pub(crate) fn fx_hash_str(s: &str) -> (r: u64)
    ensures
        r == fx_str(s@),
{
    let mut h = fxhash::FxHasher::default();
    s.hash(&mut h);
    h.finish()
}

/// Relies on `fxhash::hash64` of a 32-byte array: an unseeded hash of the bytes, the same
/// on every run on one target.
#[verifier::external_body]
pub(crate) fn fx_hash_digest(d: &[u8; 32]) -> (r: u64)
    ensures
        r == fx_digest(d@),
{
    fxhash::hash64(d)
}

} // verus!
