//! The fixed 8-byte container header: magic, version, algorithm id and a
//! reserved byte, prepended to every compressed payload so that decompression
//! can recover the algorithm without external metadata.

use vstd::prelude::*;

use crate::error::CodecError;

verus! {

/// The algorithm identifier persisted inside a container header.
#[derive(Clone, Copy, Debug, PartialEq, Eq, Structural)]
pub enum Algorithm {
    RLE,
    LZ,
}

/// The single supported header version.
pub const VERSION: u8 = 1;

/// The length of a container header in bytes.
pub const HEADER_LEN: usize = 8;

/// The magic constant "RSCMP" in ASCII.
pub open spec fn magic() -> Seq<u8> {
    seq![82u8, 83u8, 67u8, 77u8, 80u8]
}

/// The algorithm byte stored at offset 6 of a header.
pub open spec fn algorithm_id(a: Algorithm) -> u8 {
    match a {
        Algorithm::RLE => 1,
        Algorithm::LZ => 2,
    }
}

/// The 8 bytes of a header: magic, version, algorithm id, reserved zero.
pub open spec fn header_bytes(a: Algorithm) -> Seq<u8> {
    magic() + seq![VERSION, algorithm_id(a), 0u8]
}

/// What reading a header yields on any byte sequence: the stored algorithm,
/// or the first validation failure in checking order (length, magic, version,
/// algorithm id).
pub open spec fn read_header_spec(s: Seq<u8>) -> Result<Algorithm, CodecError> {
    if s.len() < 8 {
        Err(CodecError::InvalidFormat)
    } else if s.subrange(0, 5) != magic() {
        Err(CodecError::InvalidMagic)
    } else if s[5] != VERSION {
        Err(CodecError::UnsupportedVersion)
    } else if s[6] == 1 {
        Ok(Algorithm::RLE)
    } else if s[6] == 2 {
        Ok(Algorithm::LZ)
    } else {
        Err(CodecError::InvalidAlgorithmId)
    }
}

/// Builds the 8-byte header identifying the given algorithm.
pub fn create_header(algorithm: Algorithm) -> (r: Vec<u8>)
    ensures
        r@ == header_bytes(algorithm),
{
    let mut header: Vec<u8> = Vec::with_capacity(8);
    header.push(82); // 'R'
    header.push(83); // 'S'
    header.push(67); // 'C'
    header.push(77); // 'M'
    header.push(80); // 'P'
    header.push(VERSION);
    header.push(match algorithm {
        Algorithm::RLE => 1,
        Algorithm::LZ => 2,
    });
    header.push(0); // reserved byte
    proof {
        assert(header@ =~= header_bytes(algorithm));
    }
    header
}

/// Validates a header and recovers the algorithm stored in it.
pub fn read_header(data: &[u8]) -> (r: Result<Algorithm, CodecError>)
    ensures
        r == read_header_spec(data@),
{
    if data.len() < HEADER_LEN {
        return Err(CodecError::InvalidFormat);
    }
    if data[0] != 82 || data[1] != 83 || data[2] != 67 || data[3] != 77 || data[4] != 80 {
        proof {
            assert(data@.subrange(0, 5) != magic()) by {
                let sub = data@.subrange(0, 5);
                if data@[0] != 82 {
                    assert(sub[0] != magic()[0]);
                } else if data@[1] != 83 {
                    assert(sub[1] != magic()[1]);
                } else if data@[2] != 67 {
                    assert(sub[2] != magic()[2]);
                } else if data@[3] != 77 {
                    assert(sub[3] != magic()[3]);
                } else {
                    assert(sub[4] != magic()[4]);
                }
            }
        }
        return Err(CodecError::InvalidMagic);
    }
    proof {
        assert(data@.subrange(0, 5) =~= magic());
    }
    if data[5] != VERSION {
        return Err(CodecError::UnsupportedVersion);
    }
    match data[6] {
        1 => Ok(Algorithm::RLE),
        2 => Ok(Algorithm::LZ),
        _ => Err(CodecError::InvalidAlgorithmId),
    }
}

/// Header round-trip law: reading back a freshly created header yields the
/// algorithm it was created for.
pub proof fn lemma_header_roundtrip(a: Algorithm)
    ensures
        read_header_spec(header_bytes(a)) == Ok::<Algorithm, CodecError>(a),
{
    let h = header_bytes(a);
    assert(h.subrange(0, 5) =~= magic());
}

} // verus!
