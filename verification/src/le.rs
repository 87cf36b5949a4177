//! The run-length codec: maximal runs of identical bytes, capped at 255
//! repetitions, encoded as (count, value) pairs.

use vstd::prelude::*;

verus! {

/// Length of the maximal run of bytes equal to s[0] at the start of s.
pub open spec fn first_run_len(s: Seq<u8>) -> nat
    decreases s.len(),
{
    if s.len() == 0 {
        0
    } else if s.len() == 1 {
        1
    } else if s[1] == s[0] {
        1 + first_run_len(s.skip(1))
    } else {
        1
    }
}

/// The run-length encoding of a byte sequence: each maximal run, split into
/// pieces of at most 255 repetitions, becomes one (count, value) pair.
pub open spec fn rle_encode(s: Seq<u8>) -> Seq<u8>
    decreases s.len(),
        via rle_encode_decreases
{
    if s.len() == 0 {
        Seq::empty()
    } else {
        let run = first_run_len(s);
        let n: nat = if run > 255 { 255 } else if run == 0 { 1 } else { run };
        seq![n as u8, s[0]] + rle_encode(s.skip(n as int))
    }
}

#[via_fn]
proof fn rle_encode_decreases(s: Seq<u8>) {
    if s.len() > 0 {
        lemma_first_run_props(s);
    }
}

/// The run-length decoding of a byte sequence: (count, value) pairs read two
/// bytes at a time, each contributing count repetitions of value; a single
/// trailing unpaired byte is ignored.
pub open spec fn rle_decode(s: Seq<u8>) -> Seq<u8>
    decreases s.len(),
{
    if s.len() < 2 {
        Seq::empty()
    } else {
        Seq::new(s[0] as nat, |i: int| s[1]) + rle_decode(s.skip(2))
    }
}

/// The first run of a nonempty sequence is nonempty, no longer than the
/// sequence, and consists of bytes equal to the first.
proof fn lemma_first_run_props(s: Seq<u8>)
    requires
        s.len() > 0,
    ensures
        1 <= first_run_len(s) <= s.len(),
        forall|k: int| 0 <= k < first_run_len(s) ==> #[trigger] s[k] == s[0],
    decreases s.len(),
{
    if s.len() > 1 && s[1] == s[0] {
        lemma_first_run_props(s.skip(1));
        assert forall|k: int| 0 <= k < first_run_len(s) implies #[trigger] s[k] == s[0] by {
            if k >= 1 {
                assert(s.skip(1)[k - 1] == s[k]);
                assert(s.skip(1)[0] == s[1]);
            }
        }
    }
}

/// A block of equal bytes at the start of s, ended by the end of s or by a
/// differing byte, is exactly the first run.
proof fn lemma_first_run_exact(s: Seq<u8>, m: int)
    requires
        1 <= m <= s.len(),
        forall|k: int| 0 <= k < m ==> #[trigger] s[k] == s[0],
        m < s.len() ==> s[m] != s[0],
    ensures
        first_run_len(s) == m,
    decreases m,
{
    if m == 1 {
        if s.len() > 1 {
            assert(s[1] != s[0]);
        }
    } else {
        assert(s[1] == s[0]);
        let t = s.skip(1);
        assert forall|k: int| 0 <= k < m - 1 implies #[trigger] t[k] == t[0] by {
            assert(t[k] == s[k + 1]);
            assert(t[0] == s[1]);
        }
        assert(m - 1 < t.len() ==> t[m - 1] != t[0]) by {
            if m - 1 < t.len() {
                assert(t[m - 1] == s[m]);
            }
        }
        lemma_first_run_exact(t, m - 1);
    }
}

/// A block of equal bytes at the start of s is no longer than the first run.
proof fn lemma_first_run_at_least(s: Seq<u8>, m: int)
    requires
        0 <= m <= s.len(),
        forall|k: int| 0 <= k < m ==> #[trigger] s[k] == s[0],
    ensures
        first_run_len(s) >= m,
    decreases m,
{
    if m >= 2 {
        assert(s[1] == s[0]);
        let t = s.skip(1);
        assert forall|k: int| 0 <= k < m - 1 implies #[trigger] t[k] == t[0] by {
            assert(t[k] == s[k + 1]);
            assert(t[0] == s[1]);
        }
        lemma_first_run_at_least(t, m - 1);
    }
}

/// One flush of the encoder: if the bytes from p up to i are one run piece
/// (equal bytes, at most 255 of them, ended by the end of the input, a
/// differing byte, or the 255 cap), the encoding of the suffix from p starts
/// with that pair.
proof fn lemma_encode_step(s: Seq<u8>, p: int, i: int)
    requires
        0 <= p < i <= s.len(),
        i - p <= 255,
        forall|k: int| p <= k < i ==> #[trigger] s[k] == s[p],
        i < s.len() ==> (s[i] != s[p] || i - p == 255),
    ensures
        rle_encode(s.skip(p)) == seq![(i - p) as u8, s[p]] + rle_encode(s.skip(i)),
{
    let t = s.skip(p);
    let m = i - p;
    assert(t.len() == s.len() - p);
    assert forall|k: int| 0 <= k < m implies #[trigger] t[k] == t[0] by {
        assert(t[k] == s[p + k]);
        assert(t[0] == s[p]);
    }
    lemma_first_run_props(t);
    let run = first_run_len(t);
    let n: nat = if run > 255 { 255 } else if run == 0 { 1 } else { run };
    if i < s.len() && s[i] == s[p] {
        // the run continues past the cap of 255
        assert(t[m] == s[i]);
        lemma_first_run_at_least(t, m + 1);
        assert(n == 255);
    } else {
        assert(m < t.len() ==> t[m] != t[0]) by {
            if m < t.len() {
                assert(t[m] == s[i]);
            }
        }
        lemma_first_run_exact(t, m);
        assert(n == m);
    }
    assert(t[0] == s[p]);
    assert(t.skip(n as int) =~= s.skip(i));
}

/// Builds the run-length encoding of the input. Empty input yields empty
/// output.
pub fn compress(input: &[u8]) -> (r: Vec<u8>)
    ensures
        r@ == rle_encode(input@),
{
    let mut compressed: Vec<u8> = Vec::new();
    if input.len() == 0 {
        return compressed;
    }

    let mut current: u8 = input[0];
    let mut count: u8 = 1;
    let mut i: usize = 1;
    proof {
        assert(input@.skip(0) =~= input@);
        assert(compressed@ + rle_encode(input@) =~= rle_encode(input@));
    }

    while i < input.len()
        invariant
            1 <= i <= input@.len(),
            1 <= count <= 255,
            count as int <= i as int,
            forall|k: int| i - count <= k < i ==> #[trigger] input@[k] == current,
            rle_encode(input@) == compressed@ + rle_encode(input@.skip(i - count as int)),
        decreases input@.len() - i,
    {
        let byte = input[i];
        if byte == current && count < 255 {
            count = count + 1;
        } else {
            compressed.push(count);
            compressed.push(current);
            proof {
                let p = i - count as int;
                assert(input@[p] == current);
                lemma_encode_step(input@, p, i as int);
                assert(compressed@ + rle_encode(input@.skip(i as int)) =~= (
                compressed@.drop_last().drop_last() + seq![count, current]) + rle_encode(
                    input@.skip(i as int),
                ));
            }
            current = byte;
            count = 1;
        }
        i = i + 1;
    }

    compressed.push(count);
    compressed.push(current);
    proof {
        let p = i - count as int;
        assert(input@[p] == current);
        lemma_encode_step(input@, p, i as int);
        assert(input@.skip(i as int).len() == 0);
        assert(rle_encode(input@.skip(i as int)) =~= Seq::<u8>::empty());
        assert(compressed@ =~= (compressed@.drop_last().drop_last() + seq![count, current])
            + rle_encode(input@.skip(i as int)));
    }
    compressed
}

/// Decodes (count, value) pairs two bytes at a time; a single trailing
/// unpaired byte is ignored.
pub fn decompress(compressed: &[u8]) -> (r: Vec<u8>)
    ensures
        r@ == rle_decode(compressed@),
{
    let mut decompressed: Vec<u8> = Vec::new();
    let mut i: usize = 0;
    proof {
        assert(compressed@.skip(0) =~= compressed@);
        assert(decompressed@ + rle_decode(compressed@) =~= rle_decode(compressed@));
    }

    while compressed.len() - i >= 2
        invariant
            i <= compressed@.len(),
            rle_decode(compressed@) == decompressed@ + rle_decode(compressed@.skip(i as int)),
        decreases compressed@.len() - i,
    {
        let count = compressed[i];
        let byte = compressed[i + 1];
        let ghost prev = decompressed@;
        let mut j: u8 = 0;
        while j < count
            invariant
                j <= count,
                decompressed@ == prev + Seq::new(j as nat, |k: int| byte),
            decreases count - j,
        {
            decompressed.push(byte);
            proof {
                assert(decompressed@ =~= prev + Seq::new((j + 1) as nat, |k: int| byte));
            }
            j = j + 1;
        }
        proof {
            let t = compressed@.skip(i as int);
            assert(t[0] == count);
            assert(t[1] == byte);
            assert(t.skip(2) =~= compressed@.skip(i + 2));
            assert(rle_decode(t) == Seq::new(count as nat, |k: int| byte) + rle_decode(
                compressed@.skip(i + 2),
            ));
            assert(decompressed@ + rle_decode(compressed@.skip(i + 2)) =~= (prev + Seq::new(
                count as nat,
                |k: int| byte,
            )) + rle_decode(compressed@.skip(i + 2)));
        }
        i = i + 2;
    }
    proof {
        assert(compressed@.skip(i as int).len() < 2);
        assert(rle_decode(compressed@.skip(i as int)) =~= Seq::<u8>::empty());
        assert(decompressed@ + Seq::<u8>::empty() =~= decompressed@);
    }
    decompressed
}

/// Round-trip law: decoding a run-length encoding restores the original
/// bytes, for every byte sequence.
pub proof fn lemma_rle_roundtrip(s: Seq<u8>)
    ensures
        rle_decode(rle_encode(s)) == s,
    decreases s.len(),
{
    if s.len() == 0 {
        assert(rle_decode(rle_encode(s)) =~= s);
    } else {
        lemma_first_run_props(s);
        let run = first_run_len(s);
        let n: nat = if run > 255 { 255 } else if run == 0 { 1 } else { run };
        let e = rle_encode(s);
        let rest = rle_encode(s.skip(n as int));
        assert(e == seq![n as u8, s[0]] + rest);
        assert(e[0] == n as u8);
        assert(e[1] == s[0]);
        assert(e.skip(2) =~= rest);
        lemma_rle_roundtrip(s.skip(n as int));
        assert(rle_decode(e) == Seq::new(n, |i: int| s[0]) + s.skip(n as int));
        assert(Seq::new(n, |i: int| s[0]) =~= s.take(n as int));
        assert(s.take(n as int) + s.skip(n as int) =~= s);
    }
}

} // verus!
