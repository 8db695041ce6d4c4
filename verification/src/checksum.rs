//! Content checksums: the CRC32 used by the duplicate-detection cache, and
//! the full digest set kept on assets of the older library layout.

use vstd::prelude::*;
use vstd::string::StringExecFns;
use crate::color::{hex_char_spec, hex_char_str};

verus! {

/// The CRC32 of a byte string, a function of the bytes alone.
pub uninterp spec fn crc32_of(b: Seq<u8>) -> u32;

/// Relies on `crc32fast::hash`: the CRC32 checksum of the bytes.
#[verifier::external_body]
pub(crate) fn crc32(bytes: &[u8]) -> (r: u32)
    ensures
        r == crc32_of(bytes@),
{
    crc32fast::hash(bytes)
}

/// The MD5 digest of a byte string, a function of the bytes alone.
pub uninterp spec fn md5_of(b: Seq<u8>) -> Seq<u8>;

/// Relies on `md5::compute`: the 16-byte MD5 digest of the bytes.
#[verifier::external_body]
fn md5_digest(bytes: &[u8]) -> (r: Vec<u8>)
    ensures
        r@ == md5_of(bytes@),
        r@.len() == 16,
{
    md5::compute(bytes).0.to_vec()
}

/// The SHA-1 digest of a byte string, a function of the bytes alone.
pub uninterp spec fn sha1_of(b: Seq<u8>) -> Seq<u8>;

/// Relies on `sha1::Sha1` through the `Digest` trait: the 20-byte SHA-1
/// digest of the bytes.
#[verifier::external_body]
fn sha1_digest(bytes: &[u8]) -> (r: Vec<u8>)
    ensures
        r@ == sha1_of(bytes@),
        r@.len() == 20,
{
    <sha1::Sha1 as sha1::Digest>::digest(bytes).to_vec()
}

/// The SHA-256 digest of a byte string, a function of the bytes alone.
pub uninterp spec fn sha256_of(b: Seq<u8>) -> Seq<u8>;

/// Relies on `sha2::Sha256` through the `Digest` trait: the 32-byte SHA-256
/// digest of the bytes.
#[verifier::external_body]
fn sha256_digest(bytes: &[u8]) -> (r: Vec<u8>)
    ensures
        r@ == sha256_of(bytes@),
        r@.len() == 32,
{
    <sha2::Sha256 as sha2::Digest>::digest(bytes).to_vec()
}

/// The lowercase hex rendering of a byte string: two digits per byte.
pub open spec fn spec_bytes_hex(b: Seq<u8>) -> Seq<char> {
    Seq::new(
        b.len() * 2,
        |i: int| if i % 2 == 0 {
            hex_char_spec(b[i / 2] as int / 16)
        } else {
            hex_char_spec(b[i / 2] as int % 16)
        },
    )
}

/// Renders bytes as lowercase hex, two digits per byte.
pub fn bytes_hex(b: &Vec<u8>) -> (r: String)
    ensures
        r@ == spec_bytes_hex(b@),
{
    let mut s = String::new();
    let n = b.len();
    let mut i: usize = 0;
    while i < n
        invariant
            n == b@.len(),
            i <= n,
            s@ == spec_bytes_hex(b@).subrange(0, 2 * i as int),
        decreases n - i,
    {
        let x = b[i];
        s.append(hex_char_str(x / 16));
        s.append(hex_char_str(x % 16));
        proof {
            assert(s@ =~= spec_bytes_hex(b@).subrange(0, 2 * (i + 1)));
        }
        i += 1;
    }
    proof {
        assert(spec_bytes_hex(b@).subrange(0, 2 * n as int) =~= spec_bytes_hex(b@));
    }
    s
}

/// The checksum set of one asset's content.
#[derive(Clone, Debug)]
pub struct Checksums {
    pub crc32: u32,
    pub md5: String,
    pub sha1: String,
    pub sha256: String,
}

impl Checksums {
    /// All four checksums of a content buffer; the digests are rendered as
    /// lowercase hex.
    pub fn from_bytes(bytes: &Vec<u8>) -> (r: Checksums)
        ensures
            r.crc32 == crc32_of(bytes@),
            r.md5@ == spec_bytes_hex(md5_of(bytes@)),
            r.sha1@ == spec_bytes_hex(sha1_of(bytes@)),
            r.sha256@ == spec_bytes_hex(sha256_of(bytes@)),
    {
        Checksums {
            crc32: crc32(bytes.as_slice()),
            md5: bytes_hex(&md5_digest(bytes.as_slice())),
            sha1: bytes_hex(&sha1_digest(bytes.as_slice())),
            sha256: bytes_hex(&sha256_digest(bytes.as_slice())),
        }
    }
}

} // verus!
