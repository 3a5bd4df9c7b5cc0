//! The content-addressed store's compute side: hashing, the compression
//! envelope, and reading a compressed stream back into an object.
//!
//! The digest and the compressed stream are produced by outside crates
//! behind trusted wrappers; everything around them is verified.  The
//! filesystem half of the store — sharded paths, existence checks,
//! exclusive creation — lives with the caller, which persists the
//! compressed stream this module computes.

use vstd::prelude::*;
use crate::codec::{
    decode_object, encode_object, encode_object_spec, parse_object_spec, push_all, wf_object,
};
use crate::hex::{all_hex_digits, hex_encode, hex_of, lemma_hex_of_all_hex};
use crate::objects::{ObjectHashTypes, ObjectView, StoreError};

verus! {

/// The SHA-1 digest of a byte string: 20 bytes, a function of the input
/// alone.
pub uninterp spec fn sha1_of(data: Seq<u8>) -> Seq<u8>;

/// The zlib stream that compressing a byte string produces: a function of
/// the input alone for the compressor built here.
pub uninterp spec fn zlib_of(data: Seq<u8>) -> Seq<u8>;

/// Relies on sha1::Sha1 through the Digest API: the digest depends on the
/// input bytes alone and is always 20 bytes long.
#[verifier::external_body]
fn sha1_digest(data: &[u8]) -> (r: Vec<u8>)
    ensures
        r@ == sha1_of(data@),
        r@.len() == 20,
{
    let mut hasher = <sha1::Sha1 as sha1::Digest>::new();
    sha1::Digest::update(&mut hasher, data);
    let out = sha1::Digest::finalize(hasher);
    out.to_vec()
}

/// Relies on flate2::write::ZlibEncoder at the default level: writing into
/// a Vec cannot fail, and the stream depends on the input bytes alone.
#[verifier::external_body]
fn zlib_compress(data: &[u8]) -> (r: Vec<u8>)
    ensures
        r@ == zlib_of(data@),
{
    let mut enc = flate2::write::ZlibEncoder::new(Vec::new(), flate2::Compression::default());
    let _ = std::io::Write::write_all(&mut enc, data);
    enc.finish().unwrap_or_default()
}

/// Relies on flate2::read::ZlibDecoder: decompression inverts compression,
/// so the stream `zlib_of(o)` reads back exactly `o`; any other input may
/// fail.
#[verifier::external_body]
fn zlib_decompress(data: &[u8]) -> (r: Result<Vec<u8>, StoreError>)
    ensures
        forall|o: Seq<u8>| data@ == #[trigger] zlib_of(o) ==> r is Ok && r->Ok_0@ == o,
{
    let mut dec = flate2::read::ZlibDecoder::new(data);
    let mut out = Vec::new();
    match std::io::Read::read_to_end(&mut dec, &mut out) {
        Ok(_) => Ok(out),
        Err(_) => Err(StoreError::StoreReadError),
    }
}

/// The identifier derived from an object's header and body bytes.
pub open spec fn id_of_bytes(meta: Seq<u8>, content: Seq<u8>) -> Seq<u8> {
    hex_of(sha1_of(meta + content))
}

/// The identifier of an object: the lowercase hex digest of its full
/// encoding.
pub open spec fn object_id_spec(o: ObjectView) -> Seq<u8> {
    hex_of(sha1_of(encode_object_spec(o)))
}

/// Computes what a store write persists for the given header and body:
/// the 40-character identifier and the compressed stream.  The caller
/// puts the stream on disk under the identifier's sharded path.
pub fn write_object(meta_data: &[u8], content: &[u8]) -> (r: (Vec<u8>, Vec<u8>))
    ensures
        r.0@ == id_of_bytes(meta_data@, content@),
        r.0@.len() == 40,
        all_hex_digits(r.0@),
        r.1@ == zlib_of(meta_data@ + content@),
{
    let mut full: Vec<u8> = Vec::new();
    push_all(&mut full, meta_data);
    push_all(&mut full, content);
    let digest = sha1_digest(full.as_slice());
    let id = hex_encode(digest.as_slice());
    proof {
        lemma_hex_of_all_hex(digest@);
    }
    let stream = zlib_compress(full.as_slice());
    (id, stream)
}

/// Encodes an object and computes its identifier and compressed stream.
pub fn write_object_hash(object_hash_type: &ObjectHashTypes) -> (r: (Vec<u8>, Vec<u8>))
    requires
        wf_object(object_hash_type@),
    ensures
        r.0@ == object_id_spec(object_hash_type@),
        r.0@.len() == 40,
        all_hex_digits(r.0@),
        r.1@ == zlib_of(encode_object_spec(object_hash_type@)),
{
    let enc = encode_object(object_hash_type);
    let r = write_object(enc.0.as_slice(), enc.1.as_slice());
    proof {
        assert(enc.0@ + enc.1@ == encode_object_spec(object_hash_type@));
    }
    r
}

/// Decompresses a stored stream and decodes the object in it.  For any
/// bytes `d` whose compression the stream is, the result is exactly the
/// decoding of `d`; a stream that does not decompress is a read error.
pub fn read_object(compressed: &[u8]) -> (r: Result<ObjectHashTypes, StoreError>)
    ensures
        forall|d: Seq<u8>|
            compressed@ == #[trigger] zlib_of(d) ==> match r {
                Ok(o) => parse_object_spec(d) == Ok::<ObjectView, StoreError>(o@),
                Err(e) => parse_object_spec(d) == Err::<ObjectView, StoreError>(e),
            },
{
    let plain = match zlib_decompress(compressed) {
        Ok(p) => p,
        Err(e) => {
            return Err(e);
        },
    };
    decode_object(plain.as_slice())
}

/// Writing identical content twice computes the identical identifier and
/// the identical stream: both are functions of the header and body bytes
/// alone, so the second write may be skipped once the first is on disk.
pub proof fn lemma_write_idempotent(
    meta1: Seq<u8>,
    content1: Seq<u8>,
    meta2: Seq<u8>,
    content2: Seq<u8>,
)
    requires
        meta1 == meta2,
        content1 == content2,
    ensures
        id_of_bytes(meta1, content1) == id_of_bytes(meta2, content2),
        zlib_of(meta1 + content1) == zlib_of(meta2 + content2),
{
}

} // verus!
