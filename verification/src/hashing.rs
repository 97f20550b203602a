//! Content hashes for sync decisions and content-addressed keys.
//!
//! The digests come from outside code and are named; rendering a digest to
//! lower-case hex is verified here.

use md5::Digest as _;
use sha2::Digest as _;
use vstd::prelude::*;

verus! {

/// The MD5 digest of the bytes: a function of the contents alone.
pub uninterp spec fn md5_of(data: Seq<u8>) -> Seq<u8>;

/// The SHA-256 digest of the bytes: a function of the contents alone.
pub uninterp spec fn sha256_of(data: Seq<u8>) -> Seq<u8>;

/// Relies on `md5::Md5` (`Digest::digest`): 16 bytes determined by the
/// input alone.
#[verifier::external_body]
pub fn md5_digest(data: &[u8]) -> (r: Vec<u8>)
    ensures
        r@ == md5_of(data@),
        r@.len() == 16,
{
    md5::Md5::digest(data).to_vec()
}

/// Relies on `sha2::Sha256` (`Digest::digest`): 32 bytes determined by the
/// input alone.
#[verifier::external_body]
pub fn sha256_digest(data: &[u8]) -> (r: Vec<u8>)
    ensures
        r@ == sha256_of(data@),
        r@.len() == 32,
{
    sha2::Sha256::digest(data).to_vec()
}

pub open spec fn spec_hex_digit(d: nat) -> char {
    if d == 0 {
        '0'
    } else if d == 1 {
        '1'
    } else if d == 2 {
        '2'
    } else if d == 3 {
        '3'
    } else if d == 4 {
        '4'
    } else if d == 5 {
        '5'
    } else if d == 6 {
        '6'
    } else if d == 7 {
        '7'
    } else if d == 8 {
        '8'
    } else if d == 9 {
        '9'
    } else if d == 10 {
        'a'
    } else if d == 11 {
        'b'
    } else if d == 12 {
        'c'
    } else if d == 13 {
        'd'
    } else if d == 14 {
        'e'
    } else {
        'f'
    }
}

/// Lower-case hex: two digits per byte, in order.
pub open spec fn spec_hex(data: Seq<u8>) -> Seq<char>
    decreases data.len(),
{
    if data.len() == 0 {
        Seq::empty()
    } else {
        spec_hex(data.drop_last()) + seq![
            spec_hex_digit((data.last() / 16) as nat),
            spec_hex_digit((data.last() % 16) as nat),
        ]
    }
}

fn hex_digit(d: u8) -> (r: char)
    requires
        d < 16,
    ensures
        r == spec_hex_digit(d as nat),
{
    if d == 0 {
        '0'
    } else if d == 1 {
        '1'
    } else if d == 2 {
        '2'
    } else if d == 3 {
        '3'
    } else if d == 4 {
        '4'
    } else if d == 5 {
        '5'
    } else if d == 6 {
        '6'
    } else if d == 7 {
        '7'
    } else if d == 8 {
        '8'
    } else if d == 9 {
        '9'
    } else if d == 10 {
        'a'
    } else if d == 11 {
        'b'
    } else if d == 12 {
        'c'
    } else if d == 13 {
        'd'
    } else if d == 14 {
        'e'
    } else {
        'f'
    }
}

/// Render bytes as lower-case hex.
pub fn to_hex(data: &Vec<u8>) -> (r: String)
    ensures
        r@ == spec_hex(data@),
{
    let n = data.len();
    let mut out: Vec<char> = Vec::new();
    for i in 0..n
        invariant
            n == data@.len(),
            out@ == spec_hex(data@.subrange(0, i as int)),
    {
        let b = data[i];
        out.push(hex_digit(b / 16));
        out.push(hex_digit(b % 16));
        proof {
            let pre = data@.subrange(0, i as int);
            let ext = data@.subrange(0, i + 1);
            assert(ext.drop_last() =~= pre);
            assert(out@ =~= spec_hex(ext));
        }
    }
    proof {
        assert(data@.subrange(0, n as int) =~= data@);
    }
    crate::strkit::string_of(out)
}

/// The MD5 of the bytes, in the lower-case hex form that names remote
/// objects.
pub fn md5_hex(data: &[u8]) -> (r: String)
    ensures
        r@ == spec_hex(md5_of(data@)),
        r@.len() == 32,
{
    let digest = md5_digest(data);
    proof {
        lemma_hex_len(digest@);
    }
    to_hex(&digest)
}

/// The SHA-256 of the bytes, in lower-case hex, as the sync catalog stores
/// it.
pub fn sha256_hex(data: &[u8]) -> (r: String)
    ensures
        r@ == spec_hex(sha256_of(data@)),
        r@.len() == 64,
{
    let digest = sha256_digest(data);
    proof {
        lemma_hex_len(digest@);
    }
    to_hex(&digest)
}

proof fn lemma_hex_len(data: Seq<u8>)
    ensures
        spec_hex(data).len() == 2 * data.len(),
    decreases data.len(),
{
    if data.len() > 0 {
        lemma_hex_len(data.drop_last());
    }
}

} // verus!
