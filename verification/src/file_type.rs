//! Content classification and algorithm selection: a file is categorised from
//! its raw bytes, and the category (with a run-ratio probe for binary data)
//! picks the compression algorithm.

use vstd::prelude::*;

verus! {

/// The content category of a byte buffer. Unknown is never produced by the
/// classifier; it is kept for forward extensibility and handled defensively
/// by the selector.
#[derive(Clone, Copy, Debug, PartialEq, Eq, Structural)]
pub enum FileType {
    Text,
    Binary,
    Image,
    Unknown,
}

/// The algorithm the selector chooses between.
#[derive(Clone, Copy, Debug, PartialEq, Eq, Structural)]
pub enum Algorithm {
    RLE,
    LZ,
}

/// A byte the text classifier accepts: ASCII-printable, newline, carriage
/// return or tab.
pub open spec fn is_text_byte(b: u8) -> bool {
    (0x20 <= b && b <= 0x7E) || b == 0x0A || b == 0x0D || b == 0x09
}

/// Every byte of s is acceptable text; vacuously true of the empty buffer.
pub open spec fn all_text(s: Seq<u8>) -> bool {
    forall|k: int| 0 <= k < s.len() ==> is_text_byte(#[trigger] s[k])
}

/// The 8-byte PNG signature.
pub open spec fn has_png_signature(s: Seq<u8>) -> bool {
    s.len() >= 8 && s[0] == 0x89 && s[1] == 0x50 && s[2] == 0x4E && s[3] == 0x47 && s[4] == 0x0D
        && s[5] == 0x0A && s[6] == 0x1A && s[7] == 0x0A
}

/// The 3-byte JPEG signature.
pub open spec fn has_jpeg_signature(s: Seq<u8>) -> bool {
    s.len() >= 3 && s[0] == 0xFF && s[1] == 0xD8 && s[2] == 0xFF
}

/// The 6-byte GIF signature, in its GIF87a or GIF89a form.
pub open spec fn has_gif_signature(s: Seq<u8>) -> bool {
    s.len() >= 6 && s[0] == 0x47 && s[1] == 0x49 && s[2] == 0x46 && s[3] == 0x38 && (s[4] == 0x37
        || s[4] == 0x39) && s[5] == 0x61
}

/// What classification yields: Text if every byte is acceptable text, else
/// Image if the buffer is at least 8 bytes long and starts with a known image
/// signature, else Binary.
pub open spec fn classify_spec(s: Seq<u8>) -> FileType {
    if all_text(s) {
        FileType::Text
    } else if s.len() >= 8 && (has_png_signature(s) || has_jpeg_signature(s) || has_gif_signature(
        s,
    )) {
        FileType::Image
    } else {
        FileType::Binary
    }
}

/// The number of maximal runs of identical consecutive bytes in s.
pub open spec fn run_count(s: Seq<u8>) -> nat
    decreases s.len(),
{
    if s.len() == 0 {
        0
    } else if s.len() == 1 {
        1
    } else if s.last() == s[s.len() - 2] {
        run_count(s.drop_last())
    } else {
        1 + run_count(s.drop_last())
    }
}

/// The run-ratio test favouring RLE for binary data: the ratio of encoded
/// run pairs to input bytes, 2 * run_count(s) / s.len(), exceeds one half.
/// Stated over the integers: 4 * run_count(s) > s.len(). Empty input has
/// ratio zero and fails the test.
pub open spec fn rle_favored(s: Seq<u8>) -> bool {
    s.len() > 0 && 4 * run_count(s) > s.len()
}

/// What selection yields: LZ for text (repeated substrings dominate), RLE
/// for images (pixel runs dominate), the run-ratio test for binary data, and
/// LZ as the safe default for unknown content.
pub open spec fn select_spec(file_type: FileType, s: Seq<u8>) -> Algorithm {
    match file_type {
        FileType::Text => Algorithm::LZ,
        FileType::Image => Algorithm::RLE,
        FileType::Binary => if rle_favored(s) {
            Algorithm::RLE
        } else {
            Algorithm::LZ
        },
        FileType::Unknown => Algorithm::LZ,
    }
}

/// A sequence has no more runs than bytes.
proof fn lemma_run_count_le_len(s: Seq<u8>)
    ensures
        run_count(s) <= s.len(),
    decreases s.len(),
{
    if s.len() > 1 {
        lemma_run_count_le_len(s.drop_last());
    }
}

/// Classifies raw bytes into a content category.
pub fn detect_file_type(data: &[u8]) -> (r: FileType)
    ensures
        r == classify_spec(data@),
{
    let mut is_text = true;
    let mut i: usize = 0;
    while i < data.len()
        invariant
            i <= data@.len(),
            is_text <==> (forall|k: int| 0 <= k < i ==> is_text_byte(#[trigger] data@[k])),
        decreases data@.len() - i,
    {
        let b = data[i];
        let ok = (0x20 <= b && b <= 0x7E) || b == 0x0A || b == 0x0D || b == 0x09;
        if !ok {
            is_text = false;
            proof {
                assert(!is_text_byte(data@[i as int]));
            }
        }
        i = i + 1;
    }
    if is_text {
        return FileType::Text;
    }

    if data.len() >= 8 {
        let png = data[0] == 0x89 && data[1] == 0x50 && data[2] == 0x4E && data[3] == 0x47
            && data[4] == 0x0D && data[5] == 0x0A && data[6] == 0x1A && data[7] == 0x0A;
        let jpeg = data[0] == 0xFF && data[1] == 0xD8 && data[2] == 0xFF;
        let gif = data[0] == 0x47 && data[1] == 0x49 && data[2] == 0x46 && data[3] == 0x38 && (
        data[4] == 0x37 || data[4] == 0x39) && data[5] == 0x61;
        if png || jpeg || gif {
            return FileType::Image;
        }
    }

    FileType::Binary
}

/// Counts the maximal runs of identical consecutive bytes; the first byte
/// always starts a run.
fn count_runs(data: &[u8]) -> (r: usize)
    ensures
        r == run_count(data@),
{
    if data.len() == 0 {
        proof {
            assert(data@ =~= Seq::<u8>::empty());
        }
        return 0;
    }
    let mut total_runs: usize = 1;
    let mut i: usize = 1;
    proof {
        assert(data@.take(1).len() == 1);
        assert(run_count(data@.take(1)) == 1);
    }
    while i < data.len()
        invariant
            1 <= i <= data@.len(),
            total_runs <= i,
            total_runs == run_count(data@.take(i as int)),
        decreases data@.len() - i,
    {
        proof {
            let t = data@.take(i + 1);
            assert(t.drop_last() =~= data@.take(i as int));
            assert(t.last() == data@[i as int]);
            assert(t[t.len() - 2] == data@[i - 1]);
        }
        if data[i] != data[i - 1] {
            total_runs = total_runs + 1;
        }
        i = i + 1;
    }
    proof {
        assert(data@.take(i as int) =~= data@);
    }
    total_runs
}

/// Selects the compression algorithm for a category, probing binary data
/// with the run-ratio test.
pub fn select_algorithm(file_type: FileType, data: &[u8]) -> (r: Algorithm)
    ensures
        r == select_spec(file_type, data@),
{
    match file_type {
        FileType::Text => Algorithm::LZ,
        FileType::Image => Algorithm::RLE,
        FileType::Binary => {
            let runs = count_runs(data);
            proof {
                lemma_run_count_le_len(data@);
            }
            // ratio 2 * runs / len > 1 / 2, exactly, over the integers
            if data.len() > 0 && (runs as u128) * 4 > (data.len() as u128) {
                Algorithm::RLE
            } else {
                Algorithm::LZ
            }
        },
        FileType::Unknown => Algorithm::LZ,
    }
}

/// Selector determinism law: the chosen algorithm is a function of the
/// category and the bytes alone, so identical inputs always select the same
/// algorithm.
pub proof fn lemma_select_deterministic(
    file_type1: FileType,
    s1: Seq<u8>,
    file_type2: FileType,
    s2: Seq<u8>,
)
    requires
        file_type1 == file_type2,
        s1 == s2,
    ensures
        select_spec(file_type1, s1) == select_spec(file_type2, s2),
{
}

} // verus!
