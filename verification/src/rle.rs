//! Run-length coding. Compressed data is a flat sequence of pairs, a byte and
//! the length of its run; a run is at most 255 long, and a longer stretch of one
//! byte takes several pairs.

use crate::traits::{CompressionError, CompressionScheme};
use vstd::prelude::*;

verus! {

/// The run-length scheme.
pub struct RLE;

/// How many of the first elements of `s`, `cap` at most, are `byte`.
pub open spec fn leading(s: Seq<u8>, byte: u8, cap: nat) -> nat
    decreases s.len(),
{
    if s.len() == 0 || cap == 0 || s[0] != byte {
        0
    } else {
        1 + leading(s.skip(1), byte, (cap - 1) as nat)
    }
}

/// The run-length encoding of `s`: for each run in turn, cut after 255 bytes,
/// its byte and its length.
pub open spec fn encoded(s: Seq<u8>) -> Seq<u8>
    decreases s.len(),
{
    if s.len() == 0 {
        Seq::empty()
    } else {
        let n = leading(s, s[0], 255);
        proof {
            lemma_leading(s, s[0], 255);
        }
        seq![s[0], n as u8] + encoded(s.skip(n as int))
    }
}

/// The bytes that a sequence of pairs stands for: each byte as often as its
/// length says. A last element without a partner stands for nothing.
pub open spec fn decoded(s: Seq<u8>) -> Seq<u8>
    decreases s.len(),
{
    if s.len() < 2 {
        Seq::empty()
    } else {
        Seq::new(s[1] as nat, |i: int| s[0]) + decoded(s.skip(2))
    }
}

/// A leading run lies within the sequence and the cap, holds only `byte`, and
/// is not empty where `s` begins with `byte` and the cap allows one.
pub proof fn lemma_leading(s: Seq<u8>, byte: u8, cap: nat)
    ensures
        leading(s, byte, cap) <= s.len(),
        leading(s, byte, cap) <= cap,
        forall|i: int| 0 <= i < leading(s, byte, cap) ==> s[i] == byte,
        s.len() > 0 && cap > 0 && s[0] == byte ==> leading(s, byte, cap) >= 1,
        leading(s, byte, cap) < cap && leading(s, byte, cap) < s.len() ==> byte != s[leading(
            s,
            byte,
            cap,
        ) as int],
    decreases s.len(),
{
    if !(s.len() == 0 || cap == 0 || s[0] != byte) {
        let rest = s.skip(1);
        lemma_leading(rest, byte, (cap - 1) as nat);
        assert forall|i: int| 0 <= i < leading(s, byte, cap) implies s[i] == byte by {
            if i > 0 {
                assert(rest[i - 1] == s[i]);
            }
        }
        let n = leading(rest, byte, (cap - 1) as nat);
        if n < rest.len() {
            assert(rest[n as int] == s[n as int + 1]);
        }
    }
}

/// A stretch of `byte` at the front of `s` that ends at the cap, at the end of
/// `s` or before another byte is the leading run.
pub proof fn lemma_leading_is(s: Seq<u8>, byte: u8, cap: nat, k: nat)
    requires
        k <= cap,
        k <= s.len(),
        forall|i: int| 0 <= i < k ==> s[i] == byte,
        k == cap || k == s.len() || s[k as int] != byte,
    ensures
        leading(s, byte, cap) == k,
    decreases k,
{
    if k > 0 {
        let rest = s.skip(1);
        assert forall|i: int| 0 <= i < k - 1 implies rest[i] == byte by {
            assert(rest[i] == s[i + 1]);
        }
        lemma_leading_is(rest, byte, (cap - 1) as nat, (k - 1) as nat);
    }
}

/// In an encoding every run has a length of 1 at least, and a pair is followed
/// by a pair with the same byte only where its run is 255 long.
pub proof fn lemma_encoded_runs(s: Seq<u8>, i: int)
    requires
        0 <= i,
        2 * i + 1 < encoded(s).len(),
    ensures
        encoded(s)[2 * i + 1] >= 1,
        2 * i + 2 < encoded(s).len() && encoded(s)[2 * i] == encoded(s)[2 * i + 2] ==> encoded(
            s,
        )[2 * i + 1] == 255,
    decreases s.len(),
{
    if s.len() > 0 {
        let n = leading(s, s[0], 255);
        lemma_leading(s, s[0], 255);
        let rest = s.skip(n as int);
        let e = encoded(s);
        assert(e.skip(2) =~= encoded(rest));
        if i == 0 {
            if 2 < e.len() {
                assert(e[2] == encoded(rest)[0]);
                assert(rest.len() > 0);
                assert(rest[0] == s[n as int]);
            }
        } else {
            lemma_encoded_runs(rest, i - 1);
            assert(e[2 * i] == encoded(rest)[2 * (i - 1)]);
            assert(e[2 * i + 1] == encoded(rest)[2 * (i - 1) + 1]);
            if 2 * i + 2 < e.len() {
                assert(e[2 * i + 2] == encoded(rest)[2 * (i - 1) + 2]);
            }
        }
    }
}

/// An encoding is made of whole pairs, and decodes to what was encoded.
pub proof fn lemma_round_trip(s: Seq<u8>)
    ensures
        encoded(s).len() % 2 == 0,
        decoded(encoded(s)) == s,
    decreases s.len(),
{
    if s.len() > 0 {
        let n = leading(s, s[0], 255);
        lemma_leading(s, s[0], 255);
        let rest = s.skip(n as int);
        lemma_round_trip(rest);
        let e = encoded(s);
        assert(e.skip(2) =~= encoded(rest));
        assert(e[0] == s[0] && e[1] == n as u8);
        assert(Seq::new(n, |i: int| s[0]) =~= s.take(n as int));
        assert(s.take(n as int) + rest =~= s);
    } else {
        assert(decoded(encoded(s)) =~= s);
    }
}

impl CompressionScheme for RLE {
    type Compressed = Vec<u8>;

    /// Every input can be compressed.
    open spec fn accepts(input: Seq<u8>) -> bool {
        true
    }

    /// The run-length encoding of the input.
    open spec fn compressed(input: Seq<u8>) -> Seq<u8> {
        encoded(input)
    }

    /// Whole pairs stand for their bytes; an odd number of bytes is incomplete.
    open spec fn restored(packed: Seq<u8>) -> Result<Seq<u8>, CompressionError> {
        if packed.len() % 2 == 0 {
            Ok(decoded(packed))
        } else {
            Err(CompressionError::IncompleteInput)
        }
    }

    /// Encodes `input` in one pass, holding the run in progress.
    fn compress(input: &[u8]) -> (packed: Vec<u8>) {
        let mut output: Vec<u8> = Vec::new();
        let mut run_byte: u8 = 0;
        let mut run_length: u8 = 0;
        let mut i: usize = 0;
        assert(input@.skip(0) =~= input@);
        while i < input.len()
            invariant
                i <= input.len(),
                run_length as int <= i,
                run_length == 0 <==> i == 0,
                forall|j: int| i - run_length <= j < i ==> input@[j] == run_byte,
                encoded(input@) == output@ + encoded(input@.skip(i - run_length)),
            decreases input.len() - i,
        {
            let byte = input[i];
            if run_length == 0 {
                run_byte = byte;
            }
            if run_length == u8::MAX || run_byte != byte {
                proof {
                    let run = input@.skip(i - run_length);
                    lemma_leading_is(run, run_byte, 255, run_length as nat);
                    assert(run.skip(run_length as int) =~= input@.skip(i as int));
                    assert(output@.push(run_byte).push(run_length) + encoded(
                        input@.skip(i as int),
                    ) =~= output@ + encoded(run));
                }
                output.push(run_byte);
                output.push(run_length);
                run_byte = byte;
                run_length = 1;
            } else {
                run_length += 1
            }
            i += 1;
        }
        if run_length > 0 {
            proof {
                let run = input@.skip(i - run_length);
                lemma_leading_is(run, run_byte, 255, run_length as nat);
                assert(run[0] == run_byte);
                assert(run.skip(run_length as int) =~= Seq::<u8>::empty());
                assert(encoded(Seq::<u8>::empty()) =~= Seq::<u8>::empty());
                assert(encoded(run) =~= seq![run_byte, run_length]);
                assert(output@.push(run_byte).push(run_length) =~= output@ + encoded(run));
            }
            output.push(run_byte);
            output.push(run_length);
        } else {
            assert(output@ =~= output@ + encoded(input@.skip(0)));
        }
        output
    }

    /// Expands `packed` pair by pair. Nothing is returned of data that ends inside
    /// a pair.
    fn decompress(packed: &Vec<u8>) -> (output: Result<Vec<u8>, CompressionError>) {
        let mut output: Vec<u8> = Vec::new();
        let mut i: usize = 0;
        assert(packed@.skip(0) =~= packed@);
        while i < packed.len()
            invariant
                i <= packed.len(),
                i % 2 == 0,
                decoded(packed@) == output@ + decoded(packed@.skip(i as int)),
            decreases packed.len() - i,
        {
            if packed.len() - i < 2 {
                return Err(CompressionError::IncompleteInput);
            }
            let byte = packed[i];
            let count = packed[i + 1];
            let ghost before = output@;
            let mut written: u8 = 0;
            while written < count
                invariant
                    written <= count,
                    output@ == before + Seq::new(written as nat, |k: int| byte),
                decreases count - written,
            {
                output.push(byte);
                written += 1;
                assert(output@ =~= before + Seq::new(written as nat, |k: int| byte));
            }
            proof {
                let pair = packed@.skip(i as int);
                assert(pair[0] == byte && pair[1] == count);
                assert(pair.skip(2) =~= packed@.skip(i + 2));
                assert(output@ + decoded(packed@.skip(i + 2)) =~= before + decoded(pair));
            }
            i += 2;
        }
        assert(output@ =~= output@ + decoded(packed@.skip(i as int)));
        Ok(output)
    }

    /// The encoding of an input decodes to that input.
    proof fn lossless(input: Seq<u8>) {
        lemma_round_trip(input);
    }
}

} // verus!
