//! Hash-derived identifiers: paths are named by a digest of their node
//! identifiers, shortened and forced to start with a letter.
use vstd::prelude::*;

use crate::bytes::subvec;
use crate::error::TsgError;

verus! {

/// What the digest function returns for given input bytes: 32 bytes that
/// depend on the input alone.
pub uninterp spec fn sha256_of(data: Seq<u8>) -> Seq<u8>;

/// Relies on sha2::Sha256::digest: the 32-byte SHA-256 digest of the
/// input, a function of the input bytes alone.
#[verifier::external_body]
fn sha256(data: &Vec<u8>) -> (r: Vec<u8>)
    ensures
        r@ == sha256_of(data@),
        r@.len() == 32,
{
    let out = <sha2::Sha256 as sha2::Digest>::digest(data.as_slice());
    out.as_slice().to_vec()
}

/// The lower-case hex digit for a value below 16.
pub open spec fn hex_digit(v: u8) -> u8 {
    if v < 10 {
        (48 + v) as u8
    } else {
        (87 + v) as u8
    }
}

/// The lower-case hex text of the bytes, two digits each.
pub open spec fn hex_rep(s: Seq<u8>) -> Seq<u8>
    decreases s.len(),
{
    if s.len() == 0 {
        Seq::<u8>::empty()
    } else {
        hex_rep(s.drop_last()) + seq![
            hex_digit(s.last() / 16),
            hex_digit(s.last() % 16),
        ]
    }
}

/// Hex-encode bytes, two lower-case digits per byte.
pub fn to_hex(data: &Vec<u8>) -> (r: Vec<u8>)
    ensures
        r@ == hex_rep(data@),
        r@.len() == 2 * data@.len(),
{
    let mut out: Vec<u8> = Vec::new();
    let mut i: usize = 0;
    proof {
        lemma_hex_rep_len(data@.take(0));
    }
    while i < data.len()
        invariant
            0 <= i <= data@.len(),
            out@ == hex_rep(data@.take(i as int)),
            out@.len() == 2 * i,
        decreases data.len() - i,
    {
        proof {
            assert(data@.take(i as int + 1).drop_last() =~= data@.take(i as int));
            assert(data@.take(i as int + 1).last() == data@[i as int]);
        }
        let b = data[i];
        let hi = b / 16;
        let lo = b % 16;
        out.push(if hi < 10 {
            48 + hi
        } else {
            87 + hi
        });
        out.push(if lo < 10 {
            48 + lo
        } else {
            87 + lo
        });
        i = i + 1;
        proof {
            assert(out@ =~= hex_rep(data@.take(i as int)));
        }
    }
    proof {
        assert(data@.take(data@.len() as int) =~= data@);
        lemma_hex_rep_len(data@);
    }
    out
}

proof fn lemma_hex_rep_len(s: Seq<u8>)
    ensures
        hex_rep(s).len() == 2 * s.len(),
    decreases s.len(),
{
    if s.len() > 0 {
        lemma_hex_rep_len(s.drop_last());
    }
}

/// The identifier derived from input bytes: the hex digest, cut to the
/// requested length (or 64 without one), its first byte turned into `a`
/// when it is a decimal digit so the result starts with a letter.
pub open spec fn hash_ident(data: Seq<u8>, len: int) -> Seq<u8> {
    let hex = hex_rep(sha256_of(data));
    let cut = if len < hex.len() {
        hex.take(len)
    } else {
        hex
    };
    if cut.len() > 0 && 48 <= cut[0] <= 57 {
        cut.update(0, 97u8)
    } else {
        cut
    }
}

/// Convert bytes to a hash-based identifier of the requested length; a
/// requested length of zero is rejected.
pub fn to_hash_identifier(input: &Vec<u8>, length: Option<usize>) -> (r: Result<Vec<u8>, TsgError>)
    ensures
        match r {
            Ok(v) => length != Some(0usize) && v@ == hash_ident(
                input@,
                match length {
                    Some(l) => l as int,
                    None => 64,
                },
            ),
            Err(_) => length == Some(0usize),
        },
{
    let len: usize = match length {
        Some(l) => {
            if l == 0 {
                return Err(TsgError::InvalidRecord(Vec::new()));
            }
            l
        },
        None => 64,
    };
    let digest = sha256(input);
    let hex = to_hex(&digest);
    let mut result = if len < hex.len() {
        let cut = subvec(&hex, 0, len);
        proof {
            assert(cut@ =~= hex@.take(len as int));
        }
        cut
    } else {
        hex
    };
    if result.len() > 0 {
        let b = result[0];
        if 48 <= b && b <= 57 {
            result.set(0, 97);
        }
    }
    Ok(result)
}

} // verus!
