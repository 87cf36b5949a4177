//! The windowed LZ77 codec: two-byte tokens, either a literal (flag byte 0)
//! or a back-reference match packing a 12-bit offset and a 4-bit length
//! field (length minus 3) into the flag byte's nibbles and the second byte.

use vstd::prelude::*;

use crate::error::CodecError;

verus! {

/// The longest match a token can encode: a 4-bit field stores length - 3.
pub const MAX_MATCH: usize = 18;

/// The farthest back a token can reach: a 12-bit offset field.
pub const MAX_OFFSET: usize = 4095;

/// The shortest match worth a token; anything shorter is emitted literally.
pub const MIN_MATCH: usize = 3;

/// Appends len bytes to out, each copied from offset positions before the
/// current end of the growing sequence, as the decoder does byte by byte;
/// an offset smaller than len replicates the copied prefix.
pub open spec fn back_copy(out: Seq<u8>, offset: int, len: int) -> Seq<u8>
    recommends
        1 <= offset <= out.len(),
    decreases len,
{
    if len <= 0 {
        out
    } else {
        back_copy(out.push(out[out.len() - offset]), offset, len - 1)
    }
}

/// Runs the token decoder over s, appending to out. Two bytes at a time: a
/// zero flag byte appends the second byte literally; a nonzero flag byte is
/// a match of length flag % 16 + 3 at offset (flag / 16) * 256 + second.
/// None marks a malformed payload: a match whose offset is zero or reaches
/// back past the start of the output. A single trailing unpaired byte is
/// ignored.
pub open spec fn lz_decode_rec(s: Seq<u8>, out: Seq<u8>) -> Option<Seq<u8>>
    decreases s.len(),
{
    if s.len() < 2 {
        Some(out)
    } else {
        let flag = s[0];
        let second = s[1];
        if flag == 0 {
            lz_decode_rec(s.skip(2), out.push(second))
        } else {
            let length = flag as int % 16 + 3;
            let offset = (flag as int / 16) * 256 + second as int;
            if offset == 0 || offset > out.len() {
                None
            } else {
                lz_decode_rec(s.skip(2), back_copy(out, offset, length))
            }
        }
    }
}

/// What decoding a whole token stream yields, starting from empty output.
pub open spec fn lz_decode(s: Seq<u8>) -> Option<Seq<u8>> {
    lz_decode_rec(s, Seq::empty())
}

/// A back copy lengthens the output by exactly the copied length.
pub(crate) proof fn lemma_back_copy_len(out: Seq<u8>, offset: int, len: int)
    requires
        1 <= offset <= out.len(),
        0 <= len,
    ensures
        back_copy(out, offset, len).len() == out.len() + len,
    decreases len,
{
    if len > 0 {
        lemma_back_copy_len(out.push(out[out.len() - offset]), offset, len - 1);
    }
}

/// A back copy of len + 1 bytes is a back copy of len bytes followed by one
/// more copied byte: the recursion peels bytes from the front, the decoder's
/// loop appends them at the back.
pub(crate) proof fn lemma_back_copy_snoc(out: Seq<u8>, offset: int, len: int)
    requires
        1 <= offset <= out.len(),
        0 <= len,
    ensures
        ({
            let b = back_copy(out, offset, len);
            back_copy(out, offset, len + 1) == b.push(b[b.len() - offset])
        }),
    decreases len,
{
    let out2 = out.push(out[out.len() - offset]);
    if len == 0 {
        assert(back_copy(out, offset, 1) == back_copy(out2, offset, 0));
        assert(back_copy(out2, offset, 0) == out2);
        assert(back_copy(out, offset, 0) == out);
    } else {
        lemma_back_copy_snoc(out2, offset, len - 1);
        assert(back_copy(out, offset, len + 1) == back_copy(out2, offset, len));
        assert(back_copy(out, offset, len) == back_copy(out2, offset, len - 1));
        lemma_back_copy_len(out, offset, len);
    }
}

/// Copying len bytes from offset positions back extends a prefix of s to a
/// longer prefix of s, provided s repeats itself at that distance.
pub(crate) proof fn lemma_back_copy_take(s: Seq<u8>, i: int, offset: int, len: int)
    requires
        1 <= offset <= i,
        0 <= len,
        i + len <= s.len(),
        forall|k: int| 0 <= k < len ==> #[trigger] s[i + k] == s[i - offset + k],
    ensures
        back_copy(s.take(i), offset, len) == s.take(i + len),
    decreases len,
{
    if len == 0 {
        assert(back_copy(s.take(i), offset, 0) =~= s.take(i));
    } else {
        let t = s.take(i);
        assert(t[t.len() - offset] == s[i - offset]);
        assert(s[i + 0] == s[i - offset + 0]);
        assert(t.push(s[i]) =~= s.take(i + 1));
        assert forall|k: int| 0 <= k < len - 1 implies #[trigger] s[i + 1 + k] == s[i + 1 - offset
            + k] by {
            assert(s[i + (k + 1)] == s[i - offset + (k + 1)]);
        }
        lemma_back_copy_take(s, i + 1, offset, len - 1);
    }
}

/// Decoding a concatenation decodes the first part, then the second from
/// where the first left off, as long as the first part is whole tokens.
proof fn lemma_lz_decode_append(s: Seq<u8>, t: Seq<u8>, out: Seq<u8>)
    requires
        s.len() % 2 == 0,
    ensures
        lz_decode_rec(s + t, out) == match lz_decode_rec(s, out) {
            Some(o) => lz_decode_rec(t, o),
            None => None,
        },
    decreases s.len(),
{
    if s.len() == 0 {
        assert(s + t =~= t);
    } else {
        let u = s + t;
        assert(u[0] == s[0]);
        assert(u[1] == s[1]);
        assert(u.skip(2) =~= s.skip(2) + t);
        lemma_lz_decode_append(s.skip(2), t, out.push(s[1]));
        let flag = s[0];
        if flag != 0 {
            let length = flag as int % 16 + 3;
            let offset = (flag as int / 16) * 256 + s[1] as int;
            if !(offset == 0 || offset > out.len()) {
                lemma_lz_decode_append(s.skip(2), t, back_copy(out, offset, length));
            }
        }
    }
}

/// Encodes the input greedily: at each position the longest window match of
/// at least 3 bytes becomes a match token, anything else a literal token.
/// A match that would collide with the literal flag byte (offset under 256
/// and length exactly 3) is emitted literally instead, so decoding always
/// restores the input exactly. Empty input yields empty output.
pub fn compress(input: &[u8]) -> (r: Vec<u8>)
    ensures
        lz_decode(r@) == Some(input@),
        r@.len() % 2 == 0,
        input@.len() == 0 ==> r@.len() == 0,
{
    let mut output: Vec<u8> = Vec::new();
    let mut i: usize = 0;
    proof {
        assert(input@.take(0) =~= Seq::<u8>::empty());
    }

    while i < input.len()
        invariant
            i <= input@.len(),
            output@.len() % 2 == 0,
            output@.len() <= 2 * i,
            lz_decode(output@) == Some(input@.take(i as int)),
        decreases input@.len() - i,
    {
        let mut best_off: usize = 0;
        let mut best_len: usize = 0;
        let start = if i > MAX_OFFSET {
            i - MAX_OFFSET
        } else {
            0
        };
        let mut j = start;
        while j < i
            invariant
                start <= j <= i,
                i < input@.len(),
                input@.len() <= usize::MAX,
                i - start <= MAX_OFFSET,
                best_len <= MAX_MATCH,
                i + best_len <= input@.len(),
                best_len > 0 ==> 1 <= best_off <= i - start,
                best_len > 0 ==> forall|k: int|
                    0 <= k < best_len ==> #[trigger] input@[i + k] == input@[i - best_off + k],
            decreases i - j,
        {
            let mut match_len: usize = 0;
            while i + match_len < input.len() && match_len < MAX_MATCH && input[j + match_len]
                == input[i + match_len]
                invariant
                    start <= j < i,
                    input@.len() <= usize::MAX,
                    i + match_len <= input@.len(),
                    match_len <= MAX_MATCH,
                    forall|k: int|
                        0 <= k < match_len ==> #[trigger] input@[i + k] == input@[j + k],
                decreases input@.len() - i - match_len,
            {
                match_len = match_len + 1;
            }
            if match_len > best_len {
                best_len = match_len;
                best_off = i - j;
            }
            j = j + 1;
        }

        let ghost prev = output@;
        if best_len >= MIN_MATCH && (best_len > MIN_MATCH || best_off > 255) {
            let flag = ((best_off / 256) * 16 + (best_len - 3)) as u8;
            let second = (best_off % 256) as u8;
            output.push(flag);
            output.push(second);
            proof {
                let high = best_off as int / 256;
                let low = best_off as int % 256;
                assert(0 <= high <= 15);
                assert(flag as int == high * 16 + (best_len - 3));
                assert(flag as int % 16 == best_len - 3);
                assert(flag as int / 16 == high);
                assert(flag != 0);
                assert(second as int == low);
                assert(output@ =~= prev + seq![flag, second]);
                lemma_lz_decode_append(prev, seq![flag, second], Seq::empty());
                let taken = input@.take(i as int);
                let tok = seq![flag, second];
                assert(tok[0] == flag);
                assert(tok[1] == second);
                assert((flag as int / 16) * 256 + second as int == best_off as int);
                assert(tok.skip(2) =~= Seq::<u8>::empty());
                lemma_back_copy_take(input@, i as int, best_off as int, best_len as int);
                assert(lz_decode_rec(tok, taken) == lz_decode_rec(
                    tok.skip(2),
                    back_copy(taken, best_off as int, best_len as int),
                ));
                assert(lz_decode_rec(tok.skip(2), input@.take(i + best_len)) == Some(
                    input@.take(i + best_len),
                ));
            }
            i = i + best_len;
        } else {
            output.push(0);
            output.push(input[i]);
            proof {
                assert(output@ =~= prev + seq![0u8, input@[i as int]]);
                lemma_lz_decode_append(prev, seq![0u8, input@[i as int]], Seq::empty());
                let taken = input@.take(i as int);
                let tok = seq![0u8, input@[i as int]];
                assert(tok[0] == 0);
                assert(tok[1] == input@[i as int]);
                assert(tok.skip(2) =~= Seq::<u8>::empty());
                assert(lz_decode_rec(tok, taken) == lz_decode_rec(
                    tok.skip(2),
                    taken.push(input@[i as int]),
                ));
                assert(lz_decode_rec(tok.skip(2), taken.push(input@[i as int])) == Some(
                    taken.push(input@[i as int]),
                ));
                assert(taken.push(input@[i as int]) =~= input@.take(i + 1));
            }
            i = i + 1;
        }
    }
    proof {
        assert(input@.take(i as int) =~= input@);
    }
    output
}

/// Decodes a token stream from empty output; fails on a match token whose
/// offset is zero or reaches back past the start of the output.
pub fn decompress(input: &[u8]) -> (r: Result<Vec<u8>, CodecError>)
    ensures
        match r {
            Ok(v) => lz_decode(input@) == Some(v@),
            Err(e) => lz_decode(input@) == None::<Seq<u8>> && e == CodecError::MalformedPayload,
        },
{
    let mut output: Vec<u8> = Vec::new();
    let mut i: usize = 0;
    proof {
        assert(input@.skip(0) =~= input@);
    }

    while input.len() - i >= 2
        invariant
            i <= input@.len(),
            lz_decode(input@) == lz_decode_rec(input@.skip(i as int), output@),
        decreases input@.len() - i,
    {
        let flag = input[i];
        let second = input[i + 1];
        proof {
            let t = input@.skip(i as int);
            assert(t[0] == flag);
            assert(t[1] == second);
            assert(t.skip(2) =~= input@.skip(i + 2));
        }
        if flag == 0 {
            output.push(second);
        } else {
            let length = (flag as usize % 16) + 3;
            let offset = (flag as usize / 16) * 256 + second as usize;
            if offset == 0 || offset > output.len() {
                return Err(CodecError::MalformedPayload);
            }
            let ghost orig = output@;
            let mut q: usize = 0;
            proof {
                assert(back_copy(orig, offset as int, 0) == orig);
            }
            while q < length
                invariant
                    q <= length,
                    1 <= offset <= orig.len(),
                    output@ == back_copy(orig, offset as int, q as int),
                    output@.len() == orig.len() + q,
                decreases length - q,
            {
                proof {
                    lemma_back_copy_snoc(orig, offset as int, q as int);
                    lemma_back_copy_len(orig, offset as int, q + 1);
                }
                let idx = output.len() - offset;
                let b = output[idx];
                output.push(b);
                q = q + 1;
            }
        }
        i = i + 2;
    }
    proof {
        assert(input@.skip(i as int).len() < 2);
    }
    Ok(output)
}

} // verus!
