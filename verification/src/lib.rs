//! A small compression library: run-length encoding and a windowed LZ77
//! variant, selected explicitly or from file-content heuristics, around a
//! self-describing 8-byte container header.
//!
//! The engine lives here: compression classifies the input (in Auto mode),
//! selects a codec, encodes, and prepends a header naming the codec;
//! decompression reads the header back and decodes. Only Auto-mode
//! decompression strips a header: in explicit mode the whole input is
//! treated as payload, so explicit-mode callers hand over the payload bytes
//! themselves.

pub mod error;
pub mod file_type;
pub mod header;
pub mod le;
pub mod lz;
pub mod lz_tokens;

use vstd::prelude::*;

use crate::error::CodecError;

verus! {

/// The caller-facing algorithm choice: one of the two codecs, or automatic
/// selection from the content.
#[derive(Clone, Copy, Debug, PartialEq, Eq, Structural)]
pub enum Algorithm {
    RLE,
    LZ,
    Auto,
}

/// One compressed buffer: the self-describing bytes, the codec that was
/// used, and the name the caller gave the input.
#[derive(Clone)]
pub struct CompressionResult {
    pub data: Vec<u8>,
    pub algorithm: Algorithm,
    pub filename: String,
}

/// The outcome of a batch compression: per-item successes and per-item
/// failures, in input order; one item's failure never aborts its siblings.
pub struct BatchResult {
    pub results: Vec<CompressionResult>,
    pub errors: Vec<(String, CodecError)>,
}

impl BatchResult {
    /// The successfully compressed items, in input order.
    pub fn results(&self) -> (r: &Vec<CompressionResult>)
        ensures
            r == &self.results,
    {
        &self.results
    }

    /// The failed items with their failures, in input order.
    pub fn errors(&self) -> (r: &Vec<(String, CodecError)>)
        ensures
            r == &self.errors,
    {
        &self.errors
    }
}

/// The caller-facing name of a header-level algorithm.
pub open spec fn algorithm_of(a: header::Algorithm) -> Algorithm {
    match a {
        header::Algorithm::RLE => Algorithm::RLE,
        header::Algorithm::LZ => Algorithm::LZ,
    }
}

/// The codec a compression call uses: the explicit choice, or in Auto mode
/// the selector's answer on the classified content.
pub open spec fn chosen_algorithm(algorithm: Algorithm, s: Seq<u8>) -> header::Algorithm {
    match algorithm {
        Algorithm::RLE => header::Algorithm::RLE,
        Algorithm::LZ => header::Algorithm::LZ,
        Algorithm::Auto => match file_type::select_spec(file_type::classify_spec(s), s) {
            file_type::Algorithm::RLE => header::Algorithm::RLE,
            file_type::Algorithm::LZ => header::Algorithm::LZ,
        },
    }
}

/// The payload decodes back to the original bytes under algorithm a.
pub open spec fn payload_restores(payload: Seq<u8>, a: header::Algorithm, original: Seq<u8>) -> bool {
    match a {
        header::Algorithm::RLE => le::rle_decode(payload) == original,
        header::Algorithm::LZ => lz::lz_decode(payload) == Some(original),
    }
}

/// Everything a compression call promises of its result: the data is the
/// 8-byte header for the chosen codec followed by a payload that decodes
/// back to the input, and the record carries that codec and the caller's
/// filename.
pub open spec fn compress_post(
    input: Seq<u8>,
    algorithm: Algorithm,
    filename: Seq<char>,
    res: CompressionResult,
) -> bool {
    let a = chosen_algorithm(algorithm, input);
    &&& res.data@.len() >= 8
    &&& res.data@.take(8) == header::header_bytes(a)
    &&& payload_restores(res.data@.skip(8), a, input)
    &&& res.algorithm == algorithm_of(a)
    &&& res.filename@ == filename
}

/// What decoding a payload yields under algorithm a: run-length decoding
/// never fails; LZ77 decoding fails on a malformed payload.
pub open spec fn decode_payload_spec(payload: Seq<u8>, a: header::Algorithm) -> Result<
    Seq<u8>,
    CodecError,
> {
    match a {
        header::Algorithm::RLE => Ok(le::rle_decode(payload)),
        header::Algorithm::LZ => match lz::lz_decode(payload) {
            Some(v) => Ok(v),
            None => Err(CodecError::MalformedPayload),
        },
    }
}

/// What a decompression call yields. In Auto mode the header picks the codec
/// and the payload starts at offset 8; a header failure is the call's
/// failure. In explicit mode the entire input is the payload: no header is
/// expected or stripped.
pub open spec fn decompress_spec(s: Seq<u8>, algorithm: Algorithm) -> Result<Seq<u8>, CodecError> {
    match algorithm {
        Algorithm::RLE => decode_payload_spec(s, header::Algorithm::RLE),
        Algorithm::LZ => decode_payload_spec(s, header::Algorithm::LZ),
        Algorithm::Auto => match header::read_header_spec(s) {
            Ok(a) => decode_payload_spec(s.skip(8), a),
            Err(e) => Err(e),
        },
    }
}

/// Compresses the input with the given or automatically selected codec and
/// wraps the payload in a container header. Never fails.
pub fn compress(input: &[u8], algorithm: Algorithm, filename: &str) -> (r: Result<
    CompressionResult,
    CodecError,
>)
    ensures
        r is Ok,
        compress_post(input@, algorithm, filename@, r->Ok_0),
{
    let selected = match algorithm {
        Algorithm::Auto => {
            let ft = file_type::detect_file_type(input);
            file_type::select_algorithm(ft, input)
        },
        Algorithm::RLE => file_type::Algorithm::RLE,
        Algorithm::LZ => file_type::Algorithm::LZ,
    };

    let mut compressed_data = match selected {
        file_type::Algorithm::RLE => le::compress(input),
        file_type::Algorithm::LZ => lz::compress(input),
    };

    let halg = match selected {
        file_type::Algorithm::RLE => header::Algorithm::RLE,
        file_type::Algorithm::LZ => header::Algorithm::LZ,
    };
    proof {
        assert(halg == chosen_algorithm(algorithm, input@));
        if halg == header::Algorithm::RLE {
            le::lemma_rle_roundtrip(input@);
        }
    }

    let ghost payload = compressed_data@;
    let mut data = header::create_header(halg);
    data.append(&mut compressed_data);
    proof {
        assert(data@.take(8) =~= header::header_bytes(halg));
        assert(data@.skip(8) =~= payload);
    }

    Ok(
        CompressionResult {
            data,
            algorithm: match halg {
                header::Algorithm::RLE => Algorithm::RLE,
                header::Algorithm::LZ => Algorithm::LZ,
            },
            filename: filename.to_owned(),
        },
    )
}

/// Decodes a payload with the named codec.
fn decode_payload(payload: &[u8], a: header::Algorithm) -> (r: Result<Vec<u8>, CodecError>)
    ensures
        match r {
            Ok(v) => decode_payload_spec(payload@, a) == Ok::<Seq<u8>, CodecError>(v@),
            Err(e) => decode_payload_spec(payload@, a) == Err::<Seq<u8>, CodecError>(e),
        },
{
    match a {
        header::Algorithm::RLE => Ok(le::decompress(payload)),
        header::Algorithm::LZ => lz::decompress(payload),
    }
}

/// Decompresses the input. In Auto mode the container header is read and
/// stripped; in explicit mode the entire input is decoded as payload.
pub fn decompress(input: &[u8], algorithm: Algorithm) -> (r: Result<Vec<u8>, CodecError>)
    ensures
        match r {
            Ok(v) => decompress_spec(input@, algorithm) == Ok::<Seq<u8>, CodecError>(v@),
            Err(e) => decompress_spec(input@, algorithm) == Err::<Seq<u8>, CodecError>(e),
        },
{
    match algorithm {
        Algorithm::Auto => {
            match header::read_header(input) {
                Ok(a) => {
                    let payload = &input[8..input.len()];
                    proof {
                        assert(payload@ =~= input@.skip(8));
                    }
                    decode_payload(payload, a)
                },
                Err(e) => Err(e),
            }
        },
        Algorithm::RLE => decode_payload(input, header::Algorithm::RLE),
        Algorithm::LZ => decode_payload(input, header::Algorithm::LZ),
    }
}

/// The views of a list of named byte buffers.
pub open spec fn named_buffer_views(v: Seq<(String, Vec<u8>)>) -> Seq<(Seq<char>, Seq<u8>)> {
    v.map_values(|p: (String, Vec<u8>)| (p.0@, p.1@))
}

/// The views of a list of named failures.
pub open spec fn named_error_views(v: Seq<(String, CodecError)>) -> Seq<(Seq<char>, CodecError)> {
    v.map_values(|p: (String, CodecError)| (p.0@, p.1))
}

/// The successes of a batch decompression, named and in input order.
pub open spec fn decompress_batch_oks(files: Seq<(String, Vec<u8>)>, algorithm: Algorithm) -> Seq<
    (Seq<char>, Seq<u8>),
>
    decreases files.len(),
{
    if files.len() == 0 {
        Seq::empty()
    } else {
        let prev = decompress_batch_oks(files.drop_last(), algorithm);
        let f = files.last();
        match decompress_spec(f.1@, algorithm) {
            Ok(v) => prev.push((f.0@, v)),
            Err(_) => prev,
        }
    }
}

/// The failures of a batch decompression, named and in input order.
pub open spec fn decompress_batch_errs(files: Seq<(String, Vec<u8>)>, algorithm: Algorithm) -> Seq<
    (Seq<char>, CodecError),
>
    decreases files.len(),
{
    if files.len() == 0 {
        Seq::empty()
    } else {
        let prev = decompress_batch_errs(files.drop_last(), algorithm);
        let f = files.last();
        match decompress_spec(f.1@, algorithm) {
            Ok(_) => prev,
            Err(e) => prev.push((f.0@, e)),
        }
    }
}

/// Compresses every named buffer with the same algorithm choice; compression
/// never fails, so every item succeeds and the error list is empty.
pub fn compress_batch(files: &Vec<(String, Vec<u8>)>, algorithm: Algorithm) -> (r: BatchResult)
    ensures
        r.results@.len() == files@.len(),
        r.errors@.len() == 0,
        forall|k: int|
            0 <= k < files@.len() ==> compress_post(
                files@[k].1@,
                algorithm,
                files@[k].0@,
                #[trigger] r.results@[k],
            ),
{
    let mut results: Vec<CompressionResult> = Vec::new();
    let errors: Vec<(String, CodecError)> = Vec::new();
    let mut i: usize = 0;
    while i < files.len()
        invariant
            i <= files@.len(),
            results@.len() == i,
            forall|k: int|
                0 <= k < i ==> compress_post(
                    files@[k].1@,
                    algorithm,
                    files@[k].0@,
                    #[trigger] results@[k],
                ),
        decreases files@.len() - i,
    {
        let name = files[i].0.as_str();
        let data = files[i].1.as_slice();
        match compress(data, algorithm, name) {
            Ok(res) => results.push(res),
            Err(_) => (),
        }
        i = i + 1;
    }
    BatchResult { results, errors }
}

/// Decompresses every named buffer with the same algorithm choice,
/// collecting successes and failures separately, in input order; one item's
/// failure never aborts its siblings.
pub fn decompress_batch(files: &Vec<(String, Vec<u8>)>, algorithm: Algorithm) -> (r: (
    Vec<(String, Vec<u8>)>,
    Vec<(String, CodecError)>,
))
    ensures
        named_buffer_views(r.0@) == decompress_batch_oks(files@, algorithm),
        named_error_views(r.1@) == decompress_batch_errs(files@, algorithm),
{
    let mut results: Vec<(String, Vec<u8>)> = Vec::new();
    let mut errors: Vec<(String, CodecError)> = Vec::new();
    let mut i: usize = 0;
    proof {
        assert(files@.take(0) =~= Seq::<(String, Vec<u8>)>::empty());
        assert(named_buffer_views(results@) =~= decompress_batch_oks(files@.take(0), algorithm));
        assert(named_error_views(errors@) =~= decompress_batch_errs(files@.take(0), algorithm));
    }
    while i < files.len()
        invariant
            i <= files@.len(),
            named_buffer_views(results@) == decompress_batch_oks(files@.take(i as int), algorithm),
            named_error_views(errors@) == decompress_batch_errs(files@.take(i as int), algorithm),
        decreases files@.len() - i,
    {
        let name = files[i].0.clone();
        let data = files[i].1.as_slice();
        let ghost old_results = results@;
        let ghost old_errors = errors@;
        match decompress(data, algorithm) {
            Ok(out) => results.push((name, out)),
            Err(e) => errors.push((name, e)),
        }
        proof {
            let t = files@.take(i + 1);
            assert(t.drop_last() =~= files@.take(i as int));
            assert(t.last() == files@[i as int]);
            match decompress_spec(files@[i as int].1@, algorithm) {
                Ok(v) => {
                    assert(named_buffer_views(results@) =~= named_buffer_views(old_results).push(
                        (files@[i as int].0@, v),
                    ));
                    assert(named_error_views(errors@) =~= named_error_views(old_errors));
                },
                Err(e) => {
                    assert(named_buffer_views(results@) =~= named_buffer_views(old_results));
                    assert(named_error_views(errors@) =~= named_error_views(old_errors).push(
                        (files@[i as int].0@, e),
                    ));
                },
            }
        }
        i = i + 1;
    }
    proof {
        assert(files@.take(i as int) =~= files@);
    }
    (results, errors)
}

} // verus!
