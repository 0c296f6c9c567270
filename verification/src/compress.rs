use vstd::prelude::*;

use crate::errors::ContainerError;
use crate::tree::nat_min;

verus! {

/// `n` copies of the byte `x`.
pub open spec fn spec_repeat(x: u8, n: nat) -> Seq<u8> {
    Seq::new(n, |i: int| x)
}

/// The length of the longest prefix of `s` holding only the byte `x`.
pub open spec fn spec_run(s: Seq<u8>, x: u8) -> nat
    decreases s.len(),
{
    if s.len() == 0 || s[0] != x {
        0
    } else {
        1 + spec_run(s.drop_first(), x)
    }
}

/// The run-length form of `s`: pairs of a count, at least one and at most
/// two hundred fifty-five, and the repeated byte.
pub open spec fn spec_rle_encode(s: Seq<u8>) -> Seq<u8>
    decreases s.len(),
    via rle_encode_decreases
{
    if s.len() == 0 {
        Seq::<u8>::empty()
    } else {
        let n = 1 + nat_min(spec_run(s.drop_first(), s[0]), 254);
        seq![n as u8, s[0]] + spec_rle_encode(s.skip(n as int))
    }
}

#[via_fn]
proof fn rle_encode_decreases(s: Seq<u8>) {
    if s.len() > 0 {
        lemma_run_prefix(s.drop_first(), s[0]);
    }
}

/// What run-length decoding yields: `None` on a dangling half pair or a
/// zero count, else the runs expanded in order.
pub open spec fn spec_rle_decode(b: Seq<u8>) -> Option<Seq<u8>>
    decreases b.len(),
{
    if b.len() == 0 {
        Some(Seq::<u8>::empty())
    } else if b.len() == 1 || b[0] == 0 {
        None
    } else {
        match spec_rle_decode(b.skip(2)) {
            Some(rest) => Some(spec_repeat(b[1], b[0] as nat) + rest),
            None => None,
        }
    }
}

/// The first `spec_run` bytes of `s` really are the run byte.
proof fn lemma_run_prefix(s: Seq<u8>, x: u8)
    ensures
        spec_run(s, x) <= s.len(),
        forall|i: int| 0 <= i < spec_run(s, x) ==> s[i] == x,
    decreases s.len(),
{
    if s.len() > 0 && s[0] == x {
        lemma_run_prefix(s.drop_first(), x);
        assert forall|i: int| 0 <= i < spec_run(s, x) implies s[i] == x by {
            if i > 0 {
                assert(s.drop_first()[i - 1] == s[i]);
            }
        }
    }
}

/// Run-length decoding undoes run-length encoding: the compressed payload
/// form is exactly invertible.
pub proof fn lemma_rle_round_trip(s: Seq<u8>)
    ensures
        spec_rle_decode(spec_rle_encode(s)) == Some(s),
    decreases s.len(),
{
    if s.len() > 0 {
        let x = s[0];
        let n = 1 + nat_min(spec_run(s.drop_first(), x), 254);
        lemma_run_prefix(s.drop_first(), x);
        assert(n <= s.len());
        lemma_rle_round_trip(s.skip(n as int));
        let b = spec_rle_encode(s);
        assert(b.skip(2) =~= spec_rle_encode(s.skip(n as int)));
        assert forall|i: int| 0 <= i < n implies s[i] == x by {
            if i > 0 {
                assert(s.drop_first()[i - 1] == x);
            }
        }
        assert(spec_repeat(x, n) + s.skip(n as int) =~= s);
    } else {
        assert(spec_rle_encode(s) =~= Seq::<u8>::empty());
    }
}

/// Compress bytes into their run-length form.
pub fn rle_compress(input: &Vec<u8>) -> (r: Vec<u8>)
    ensures
        r@ == spec_rle_encode(input@),
{
    let mut out: Vec<u8> = Vec::new();
    rle_compress_from(input, 0, &mut out);
    proof {
        assert(input@.skip(0) =~= input@);
        assert(out@ =~= spec_rle_encode(input@));
    }
    out
}

fn rle_compress_from(input: &Vec<u8>, i: usize, out: &mut Vec<u8>)
    requires
        i <= input@.len(),
    ensures
        final(out)@ == old(out)@ + spec_rle_encode(input@.skip(i as int)),
    decreases input@.len() - i,
{
    if i == input.len() {
        proof {
            assert(out@ =~= out@ + spec_rle_encode(input@.skip(i as int)));
        }
        return ;
    }
    let ghost s = input@.skip(i as int);
    let x = input[i];
    let mut j: usize = i + 1;
    while j < input.len() && j - i < 255 && input[j] == x
        invariant
            i < j <= input@.len(),
            j - i <= 255,
            input@[i as int] == x,
            forall|k: int| i < k < j ==> input@[k] == x,
        decreases input@.len() - j,
    {
        j = j + 1;
    }
    proof {
        assert(s[0] == x);
        assert(s.drop_first() =~= input@.skip(i as int + 1));
        lemma_run_characterized(input@.skip(i as int + 1), x, (j - i - 1) as nat, j == input@.len()
            || j - i == 255);
        assert(1 + nat_min(spec_run(s.drop_first(), x), 254) == j - i);
        assert(s.skip(j - i) =~= input@.skip(j as int));
    }
    out.push((j - i) as u8);
    out.push(x);
    rle_compress_from(input, j, out);
    proof {
        assert(out@ =~= old(out)@ + spec_rle_encode(input@.skip(i as int)));
    }
}

/// A counted prefix of equal bytes pins `spec_run`: it is the count when
/// the run stops there, and at least the count when the scan was cut short.
proof fn lemma_run_characterized(s: Seq<u8>, x: u8, c: nat, cut: bool)
    requires
        c <= s.len(),
        forall|k: int| 0 <= k < c ==> s[k] == x,
        c < s.len() && !cut ==> s[c as int] != x,
    ensures
        spec_run(s, x) >= c,
        c == s.len() || s[c as int] != x ==> spec_run(s, x) == c,
    decreases c,
{
    if c > 0 {
        assert(s[0] == x);
        lemma_run_characterized(s.drop_first(), x, (c - 1) as nat, cut);
        assert forall|k: int| 0 <= k < c - 1 implies s.drop_first()[k] == x by {
            assert(s.drop_first()[k] == s[k + 1]);
        }
    } else {
        if s.len() > 0 && s[0] != x {
        }
    }
}

/// Expand a run-length form; fails with `DecompressionError` exactly on
/// malformed input: a dangling half pair or a zero count.
pub fn rle_decompress(input: &Vec<u8>) -> (r: Result<Vec<u8>, ContainerError>)
    ensures
        match r {
            Ok(out) => spec_rle_decode(input@) == Some(out@),
            Err(e) => e == ContainerError::DecompressionError && spec_rle_decode(input@) is None,
        },
{
    let mut out: Vec<u8> = Vec::new();
    match rle_decompress_from(input, 0, &mut out) {
        Ok(_) => {
            proof {
                assert(input@.skip(0) =~= input@);
                assert(out@ =~= spec_rle_decode(input@).unwrap());
                assert(spec_rle_decode(input@) == Some(spec_rle_decode(input@).unwrap()));
            }
            Ok(out)
        },
        Err(e) => {
            proof {
                assert(input@.skip(0) =~= input@);
            }
            Err(e)
        },
    }
}

fn rle_decompress_from(input: &Vec<u8>, i: usize, out: &mut Vec<u8>) -> (r: Result<
    (),
    ContainerError,
>)
    requires
        i <= input@.len(),
    ensures
        match r {
            Ok(_) => spec_rle_decode(input@.skip(i as int)) is Some && final(out)@ == old(
                out,
            )@ + spec_rle_decode(input@.skip(i as int)).unwrap(),
            Err(e) => e == ContainerError::DecompressionError && spec_rle_decode(
                input@.skip(i as int),
            ) is None,
        },
    decreases input@.len() - i,
{
    let ghost s = input@.skip(i as int);
    if i == input.len() {
        proof {
            assert(out@ =~= out@ + Seq::<u8>::empty());
        }
        return Ok(());
    }
    if input.len() - i == 1 {
        return Err(ContainerError::DecompressionError);
    }
    let c = input[i];
    if c == 0 {
        return Err(ContainerError::DecompressionError);
    }
    let x = input[i + 1];
    proof {
        assert(s[0] == c);
        assert(s[1] == x);
    }
    let mut k: usize = 0;
    while k < c as usize
        invariant
            k <= c as usize,
            out@ == old(out)@ + spec_repeat(x, k as nat),
        decreases c as usize - k,
    {
        out.push(x);
        proof {
            assert(old(out)@ + spec_repeat(x, k as nat) + seq![x] =~= old(out)@ + spec_repeat(
                x,
                k as nat + 1,
            ));
        }
        k = k + 1;
    }
    proof {
        assert(s.skip(2) =~= input@.skip(i as int + 2));
    }
    match rle_decompress_from(input, i + 2, out) {
        Ok(_) => {
            proof {
                assert(out@ =~= old(out)@ + (spec_repeat(x, c as nat)
                    + spec_rle_decode(s.skip(2)).unwrap()));
            }
            Ok(())
        },
        Err(e) => Err(e),
    }
}

} // verus!
