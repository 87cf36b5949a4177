//! A token-level LZ77 variant: each token carries an explicit offset, match
//! length and following literal byte, with a short 10-byte window. A zero
//! next_char is a sentinel for "no following byte", so a stream built from
//! input containing no zero byte decodes back exactly; inputs with zero
//! bytes do not round-trip through this representation.

use vstd::prelude::*;

use crate::error::CodecError;
use crate::lz::{back_copy, lemma_back_copy_len, lemma_back_copy_snoc, lemma_back_copy_take};

verus! {

/// One token: a back-reference of length bytes at the given offset (length
/// zero means no back-reference), followed by next_char if it is nonzero.
#[derive(Clone, Copy, Debug, PartialEq, Eq, Structural)]
pub struct Lz77Token {
    pub offset: usize,
    pub length: usize,
    pub next_char: u8,
}

/// Runs the token decoder over tokens, appending to out: first the back
/// copy, when the token has one, then the next_char byte, when it is
/// nonzero. None marks a malformed stream: a back-reference whose offset is
/// zero or reaches back past the start of the output.
pub open spec fn tok_decode_rec(tokens: Seq<Lz77Token>, out: Seq<u8>) -> Option<Seq<u8>>
    decreases tokens.len(),
{
    if tokens.len() == 0 {
        Some(out)
    } else {
        let t = tokens[0];
        if t.length > 0 && (t.offset == 0 || t.offset > out.len()) {
            None
        } else {
            let copied = if t.length > 0 {
                back_copy(out, t.offset as int, t.length as int)
            } else {
                out
            };
            let emitted = if t.next_char != 0 {
                copied.push(t.next_char)
            } else {
                copied
            };
            tok_decode_rec(tokens.skip(1), emitted)
        }
    }
}

/// What decoding a whole token stream yields, starting from empty output.
pub open spec fn tok_decode(tokens: Seq<Lz77Token>) -> Option<Seq<u8>> {
    tok_decode_rec(tokens, Seq::empty())
}

/// The length of the longest common prefix of the suffixes of s at x and y,
/// scanning at most n positions.
pub open spec fn common_len(s: Seq<u8>, x: int, y: int, n: int) -> int
    recommends
        0 <= x,
        0 <= y,
        x + n <= s.len(),
        y + n <= s.len(),
    decreases n,
{
    if n <= 0 {
        0
    } else if s[x] == s[y] {
        1 + common_len(s, x + 1, y + 1, n - 1)
    } else {
        0
    }
}

/// The match length the scan finds at window position j for input position
/// pos: the common prefix of the suffixes at j and pos, stopped at maxpos
/// and before a candidate reads at or past pos.
pub open spec fn scan_len(s: Seq<u8>, j: int, pos: int, maxpos: int) -> int {
    common_len(
        s,
        j,
        pos,
        if maxpos - pos <= pos - j {
            maxpos - pos
        } else {
            pos - j
        },
    )
}

/// The suffixes agree on every position below their common prefix length.
proof fn lemma_common_len_agrees(s: Seq<u8>, x: int, y: int, n: int)
    ensures
        forall|k: int| 0 <= k < common_len(s, x, y, n) ==> #[trigger] s[x + k] == s[y + k],
    decreases n,
{
    if n > 0 && s[x] == s[y] {
        lemma_common_len_agrees(s, x + 1, y + 1, n - 1);
        assert forall|k: int| 0 <= k < common_len(s, x, y, n) implies #[trigger] s[x + k] == s[y
            + k] by {
            if k > 0 {
                assert(s[x + 1 + (k - 1)] == s[y + 1 + (k - 1)]);
            }
        }
    }
}

/// A block of agreement of length m, ended by the scanning bound or by a
/// mismatch, is exactly the common prefix length.
proof fn lemma_common_len_exact(s: Seq<u8>, x: int, y: int, n: int, m: int)
    requires
        0 <= m <= n,
        forall|k: int| 0 <= k < m ==> #[trigger] s[x + k] == s[y + k],
        m < n ==> s[x + m] != s[y + m],
    ensures
        common_len(s, x, y, n) == m,
    decreases m,
{
    if m == 0 {
        if n > 0 {
            assert(s[x + 0] != s[y + 0]);
        }
    } else {
        assert(s[x + 0] == s[y + 0]);
        assert forall|k: int| 0 <= k < m - 1 implies #[trigger] s[x + 1 + k] == s[y + 1 + k] by {
            assert(s[x + (k + 1)] == s[y + (k + 1)]);
        }
        assert(m - 1 < n - 1 ==> s[x + 1 + (m - 1)] != s[y + 1 + (m - 1)]) by {
            if m < n {
                assert(s[x + m] != s[y + m]);
            }
        }
        lemma_common_len_exact(s, x + 1, y + 1, n - 1, m - 1);
    }
}

/// Decoding a concatenation decodes the first part, then the second from
/// where the first left off.
proof fn lemma_tok_decode_append(a: Seq<Lz77Token>, b: Seq<Lz77Token>, out: Seq<u8>)
    ensures
        tok_decode_rec(a + b, out) == match tok_decode_rec(a, out) {
            Some(o) => tok_decode_rec(b, o),
            None => None,
        },
    decreases a.len(),
{
    if a.len() == 0 {
        assert(a + b =~= b);
    } else {
        let u = a + b;
        assert(u[0] == a[0]);
        assert(u.skip(1) =~= a.skip(1) + b);
        let t = a[0];
        if !(t.length > 0 && (t.offset == 0 || t.offset > out.len())) {
            let copied = if t.length > 0 {
                back_copy(out, t.offset as int, t.length as int)
            } else {
                out
            };
            let emitted = if t.next_char != 0 {
                copied.push(t.next_char)
            } else {
                copied
            };
            lemma_tok_decode_append(a.skip(1), b, emitted);
        }
    }
}

/// Finds the longest match for the suffix at pos among the window positions
/// before it, scanning at most 255 bytes ahead; on equal lengths the
/// earliest window position wins, giving the largest offset. Returns
/// (offset, length); both are zero when no position matches at all.
pub fn find_longest_match(input: &[u8], pos: usize, window_size: usize) -> (r: (usize, usize))
    requires
        pos <= input@.len(),
    ensures
        ({
            let start = if pos > window_size {
                pos - window_size
            } else {
                0
            };
            let maxpos = if input@.len() - pos > 255 {
                pos + 255
            } else {
                input@.len() as int
            };
            &&& r.1 <= 255
            &&& pos + r.1 <= input@.len()
            &&& forall|j: int|
                start <= j < pos ==> #[trigger] scan_len(input@, j, pos as int, maxpos) <= r.1
            &&& (r.1 == 0 ==> r.0 == 0)
            &&& (r.1 > 0 ==> start <= pos - r.0 < pos && scan_len(
                input@,
                pos - r.0,
                pos as int,
                maxpos,
            ) == r.1 && (forall|j: int|
                start <= j < pos - r.0 ==> #[trigger] scan_len(input@, j, pos as int, maxpos)
                    < r.1))
        }),
{
    let start = if pos > window_size {
        pos - window_size
    } else {
        0
    };
    let max_pos = if input.len() - pos > 255 {
        pos + 255
    } else {
        input.len()
    };

    let mut best_offset: usize = 0;
    let mut best_length: usize = 0;

    let mut i: usize = start;
    while i < pos
        invariant
            start <= i <= pos,
            pos <= input@.len(),
            input@.len() <= usize::MAX,
            pos <= max_pos <= input@.len(),
            max_pos - pos <= 255,
            max_pos == (if input@.len() - pos > 255 {
                pos + 255
            } else {
                input@.len() as int
            }),
            best_length <= 255,
            pos + best_length <= input@.len(),
            forall|j: int|
                start <= j < i ==> #[trigger] scan_len(input@, j, pos as int, max_pos as int)
                    <= best_length,
            best_length == 0 ==> best_offset == 0,
            best_length > 0 ==> start <= pos - best_offset < i && scan_len(
                input@,
                pos - best_offset,
                pos as int,
                max_pos as int,
            ) == best_length && (forall|j: int|
                start <= j < pos - best_offset ==> #[trigger] scan_len(
                    input@,
                    j,
                    pos as int,
                    max_pos as int,
                ) < best_length),
        decreases pos - i,
    {
        let mut current_length: usize = 0;
        while pos + current_length < max_pos && i + current_length < pos && input[i
            + current_length] == input[pos + current_length]
            invariant
                start <= i < pos,
                pos <= max_pos <= input@.len(),
                input@.len() <= usize::MAX,
                pos + current_length <= max_pos,
                i + current_length <= pos,
                forall|k: int|
                    0 <= k < current_length ==> #[trigger] input@[i + k] == input@[pos + k],
            decreases max_pos - pos - current_length,
        {
            current_length = current_length + 1;
        }
        proof {
            let limit = if max_pos - pos <= pos - i {
                max_pos - pos
            } else {
                (pos - i) as int
            };
            assert(current_length <= limit);
            assert(current_length < limit ==> input@[i + current_length as int] != input@[pos
                + current_length as int]);
            lemma_common_len_exact(
                input@,
                i as int,
                pos as int,
                limit,
                current_length as int,
            );
            assert(scan_len(input@, i as int, pos as int, max_pos as int)
                == current_length as int);
        }
        if current_length > best_length {
            best_length = current_length;
            best_offset = pos - i;
        }
        i = i + 1;
    }
    (best_offset, best_length)
}

/// Tokenises the input greedily: the longest window match (if any) plus the
/// byte that follows it becomes one token; a position with no match at all
/// becomes a bare literal token. The zero sentinel makes the stream decode
/// back exactly whenever the input contains no zero byte, and a token
/// stream is never longer than the input.
#[allow(non_snake_case)]
pub fn lzCompress(input: &[u8]) -> (r: Vec<Lz77Token>)
    ensures
        r@.len() <= input@.len(),
        (forall|k: int| 0 <= k < input@.len() ==> input@[k] != 0) ==> tok_decode(r@) == Some(
            input@,
        ),
{
    let mut output: Vec<Lz77Token> = Vec::new();
    let mut pos: usize = 0;
    let window_size: usize = 10;
    let ghost len = input@.len() as int;
    proof {
        assert(input@.take(0) =~= Seq::<u8>::empty());
    }

    while pos < input.len()
        invariant
            pos <= len,
            len == input@.len(),
            output@.len() <= pos,
            (forall|k: int| 0 <= k < len ==> input@[k] != 0) ==> tok_decode(output@) == Some(
                input@.take(pos as int),
            ),
        decreases len - pos,
    {
        let (best_offset, best_length) = find_longest_match(input, pos, window_size);
        let ghost prev = output@;
        let ghost start = if pos > window_size {
            (pos - window_size) as int
        } else {
            0
        };
        let ghost maxpos = if input@.len() - pos > 255 {
            pos + 255
        } else {
            input@.len() as int
        };

        if best_length > 0 {
            let has_next = pos + best_length < input.len();
            let next_char = if has_next {
                input[pos + best_length]
            } else {
                0
            };
            let token = Lz77Token { offset: best_offset, length: best_length, next_char };
            output.push(token);
            proof {
                if forall|k: int| 0 <= k < len ==> input@[k] != 0 {
                    let taken = input@.take(pos as int);
                    assert(output@ =~= prev + seq![token]);
                    lemma_tok_decode_append(prev, seq![token], Seq::empty());
                    assert(scan_len(input@, pos - best_offset, pos as int, maxpos)
                        == best_length);
                    lemma_common_len_agrees(
                        input@,
                        pos - best_offset,
                        pos as int,
                        if maxpos - pos <= best_offset {
                            maxpos - pos
                        } else {
                            best_offset as int
                        },
                    );
                    assert forall|k: int| 0 <= k < best_length implies #[trigger] input@[pos + k]
                        == input@[pos - best_offset + k] by {
                        assert(input@[pos - best_offset + k] == input@[pos + k]);
                    }
                    lemma_back_copy_take(input@, pos as int, best_offset as int,
                        best_length as int);
                    let tokseq = seq![token];
                    assert(tokseq[0] == token);
                    assert(tokseq.skip(1) =~= Seq::<Lz77Token>::empty());
                    assert(taken.len() == pos);
                    assert(1 <= token.offset <= taken.len());
                    let copied = back_copy(taken, best_offset as int, best_length as int);
                    assert(copied == input@.take(pos + best_length));
                    if has_next {
                        assert(token.next_char == input@[pos + best_length]);
                        assert(token.next_char != 0);
                        assert(tok_decode_rec(tokseq, taken) == tok_decode_rec(
                            tokseq.skip(1),
                            copied.push(token.next_char),
                        ));
                        assert(tok_decode_rec(tokseq.skip(1), copied.push(token.next_char))
                            == Some(copied.push(token.next_char)));
                        assert(copied.push(input@[pos + best_length]) =~= input@.take(
                            pos + best_length + 1,
                        ));
                        assert(tok_decode(output@) == Some(input@.take(pos + best_length + 1)));
                    } else {
                        assert(token.next_char == 0);
                        assert(tok_decode_rec(tokseq, taken) == tok_decode_rec(
                            tokseq.skip(1),
                            copied,
                        ));
                        assert(tok_decode_rec(tokseq.skip(1), copied) == Some(copied));
                        assert(tok_decode(output@) == Some(input@.take(pos + best_length)));
                        assert(pos + best_length == len);
                    }
                }
            }
            pos = pos + best_length;
            if pos < input.len() {
                // the token also consumed the byte that follows the match
                pos = pos + 1;
            }
        } else {
            let token = Lz77Token { offset: 0, length: 0, next_char: input[pos] };
            output.push(token);
            proof {
                if forall|k: int| 0 <= k < len ==> input@[k] != 0 {
                    let taken = input@.take(pos as int);
                    assert(output@ =~= prev + seq![token]);
                    lemma_tok_decode_append(prev, seq![token], Seq::empty());
                    let tokseq = seq![token];
                    assert(tokseq[0] == token);
                    assert(tokseq.skip(1) =~= Seq::<Lz77Token>::empty());
                    assert(token.next_char == input@[pos as int]);
                    assert(token.next_char != 0);
                    assert(tok_decode_rec(tokseq, taken) == tok_decode_rec(
                        tokseq.skip(1),
                        taken.push(token.next_char),
                    ));
                    assert(tok_decode_rec(tokseq.skip(1), taken.push(token.next_char)) == Some(
                        taken.push(token.next_char),
                    ));
                    assert(taken.push(input@[pos as int]) =~= input@.take(pos + 1));
                    assert(tok_decode(output@) == Some(input@.take(pos + 1)));
                }
            }
            pos = pos + 1;
        }
    }
    proof {
        assert(input@.take(len) =~= input@);
    }
    output
}

/// Decodes a token stream from empty output; fails on a back-reference
/// whose offset is zero or reaches back past the start of the output.
#[allow(non_snake_case)]
pub fn lzDecompress(tokens: &[Lz77Token]) -> (r: Result<Vec<u8>, CodecError>)
    ensures
        match r {
            Ok(v) => tok_decode(tokens@) == Some(v@),
            Err(e) => tok_decode(tokens@) == None::<Seq<u8>> && e == CodecError::MalformedPayload,
        },
{
    let mut output: Vec<u8> = Vec::new();
    let mut i: usize = 0;
    proof {
        assert(tokens@.skip(0) =~= tokens@);
    }

    while i < tokens.len()
        invariant
            i <= tokens@.len(),
            tok_decode(tokens@) == tok_decode_rec(tokens@.skip(i as int), output@),
        decreases tokens@.len() - i,
    {
        let token = tokens[i];
        proof {
            let t = tokens@.skip(i as int);
            assert(t[0] == tokens@[i as int]);
            assert(t.skip(1) =~= tokens@.skip(i + 1));
        }
        if token.length > 0 {
            if token.offset == 0 || token.offset > output.len() {
                return Err(CodecError::MalformedPayload);
            }
            let ghost orig = output@;
            let start = output.len() - token.offset;
            let mut q: usize = 0;
            proof {
                assert(back_copy(orig, token.offset as int, 0) == orig);
            }
            while q < token.length
                invariant
                    q <= token.length,
                    1 <= token.offset <= orig.len(),
                    start == orig.len() - token.offset,
                    output@ == back_copy(orig, token.offset as int, q as int),
                    output@.len() == orig.len() + q,
                decreases token.length - q,
            {
                proof {
                    lemma_back_copy_snoc(orig, token.offset as int, q as int);
                    lemma_back_copy_len(orig, token.offset as int, q + 1);
                }
                let idx = output.len() - token.offset;
                let b = output[idx];
                output.push(b);
                q = q + 1;
            }
        }
        if token.next_char != 0 {
            output.push(token.next_char);
        }
        i = i + 1;
    }
    proof {
        assert(tokens@.skip(i as int).len() == 0);
    }
    Ok(output)
}

} // verus!
