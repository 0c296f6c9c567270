use vstd::prelude::*;

verus! {

/// Append every byte of `src` to `dst`.
pub fn push_all(dst: &mut Vec<u8>, src: &Vec<u8>)
    ensures
        final(dst)@ == old(dst)@ + src@,
{
    let ghost start = dst@;
    let mut i: usize = 0;
    while i < src.len()
        invariant
            i <= src@.len(),
            dst@ == start + src@.subrange(0, i as int),
        decreases src@.len() - i,
    {
        dst.push(src[i]);
        proof {
            assert(start + src@.subrange(0, i as int) + seq![src@[i as int]] =~= start
                + src@.subrange(0, i + 1));
        }
        i = i + 1;
    }
    proof {
        assert(start + src@.subrange(0, src@.len() as int) =~= start + src@);
    }
}

/// The pointwise exclusive-or of two equally long byte sequences.
pub open spec fn spec_xor(a: Seq<u8>, b: Seq<u8>) -> Seq<u8> {
    Seq::new(a.len(), |i: int| a[i] ^ b[i])
}

/// Exclusive-or applied twice with the same keystream gives the bytes back;
/// this is what makes the stream cipher invertible.
pub proof fn lemma_xor_involutive(a: Seq<u8>, k: Seq<u8>)
    requires
        a.len() == k.len(),
    ensures
        spec_xor(spec_xor(a, k), k) == a,
{
    assert forall|i: int| 0 <= i < a.len() implies spec_xor(spec_xor(a, k), k)[i] == a[i] by {
        let x = a[i];
        let y = k[i];
        assert((x ^ y) ^ y == x) by (bit_vector);
    }
    assert(spec_xor(spec_xor(a, k), k) =~= a);
}

/// Two distinct bytes stay distinct after exclusive-or with the same byte,
/// so one flipped ciphertext byte means one flipped plaintext byte.
pub proof fn lemma_xor_distinct(x: u8, y: u8, k: u8)
    requires
        x != y,
    ensures
        (x ^ k) != (y ^ k),
{
    assert(x != y ==> (x ^ k) != (y ^ k)) by (bit_vector);
}

/// Compute the pointwise exclusive-or of two equally long byte vectors.
pub fn xor_bytes(a: &Vec<u8>, b: &Vec<u8>) -> (r: Vec<u8>)
    requires
        a@.len() == b@.len(),
    ensures
        r@ == spec_xor(a@, b@),
{
    let mut out: Vec<u8> = Vec::new();
    let mut i: usize = 0;
    while i < a.len()
        invariant
            i <= a@.len(),
            a@.len() == b@.len(),
            out@ == spec_xor(a@, b@).subrange(0, i as int),
        decreases a@.len() - i,
    {
        out.push(a[i] ^ b[i]);
        proof {
            assert(spec_xor(a@, b@).subrange(0, i as int).push(a@[i as int] ^ b@[i as int])
                =~= spec_xor(a@, b@).subrange(0, i + 1));
        }
        i = i + 1;
    }
    proof {
        assert(spec_xor(a@, b@).subrange(0, a@.len() as int) =~= spec_xor(a@, b@));
    }
    out
}

/// Copy the bytes of `src` between `from` and `to` into a fresh vector.
pub fn copy_range(src: &Vec<u8>, from: usize, to: usize) -> (r: Vec<u8>)
    requires
        from <= to <= src@.len(),
    ensures
        r@ == src@.subrange(from as int, to as int),
{
    let mut out: Vec<u8> = Vec::new();
    let mut i: usize = from;
    while i < to
        invariant
            from <= i <= to <= src@.len(),
            out@ == src@.subrange(from as int, i as int),
        decreases to - i,
    {
        out.push(src[i]);
        proof {
            assert(src@.subrange(from as int, i as int).push(src@[i as int]) =~= src@.subrange(
                from as int,
                i + 1,
            ));
        }
        i = i + 1;
    }
    out
}

/// Compare two byte vectors for equality of their contents.
pub fn eq_bytes(a: &Vec<u8>, b: &Vec<u8>) -> (r: bool)
    ensures
        r <==> a@ == b@,
{
    if a.len() != b.len() {
        proof {
            assert(a@.len() != b@.len());
        }
        return false;
    }
    let mut i: usize = 0;
    while i < a.len()
        invariant
            i <= a@.len(),
            a@.len() == b@.len(),
            forall|j: int| 0 <= j < i ==> a@[j] == b@[j],
        decreases a@.len() - i,
    {
        if a[i] != b[i] {
            return false;
        }
        i = i + 1;
    }
    proof {
        assert(a@ =~= b@);
    }
    true
}

} // verus!
