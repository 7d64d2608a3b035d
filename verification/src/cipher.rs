//! XOR transform of data with a keystream.

use vstd::prelude::*;

verus! {

/// Each output byte is the data byte XORed with the keystream byte at the
/// same position; the output is as long as the data.
pub open spec fn xor_seq(data: Seq<u8>, keystream: Seq<u8>) -> Seq<u8>
    recommends
        keystream.len() >= data.len(),
{
    Seq::new(data.len(), |i: int| data[i] ^ keystream[i])
}

/// XOR encrypt or decrypt: the same operation both ways.
pub fn xor_cipher(data: &[u8], keystream: &[u8]) -> (r: Vec<u8>)
    requires
        data@.len() <= keystream@.len(),
    ensures
        r@ == xor_seq(data@, keystream@),
{
    let mut out: Vec<u8> = Vec::new();
    let mut i: usize = 0;
    while i < data.len()
        invariant
            i <= data@.len() <= keystream@.len(),
            out@ == xor_seq(data@, keystream@).subrange(0, i as int),
        decreases data@.len() - i,
    {
        out.push(data[i] ^ keystream[i]);
        i = i + 1;
        proof {
            assert(out@ =~= xor_seq(data@, keystream@).subrange(0, i as int));
        }
    }
    proof {
        assert(out@ =~= xor_seq(data@, keystream@));
    }
    out
}

/// XORing a byte twice with the same byte restores it.
proof fn lemma_xor_cancel()
    by (bit_vector)
    ensures
        forall|x: u8, y: u8| #[trigger] ((x ^ y) ^ y) == x,
{
}

/// Law: the XOR transform is an involution.  Applying it twice with the same
/// keystream restores the original data, whenever the keystream covers it.
pub proof fn lemma_xor_involution(data: Seq<u8>, keystream: Seq<u8>)
    requires
        keystream.len() >= data.len(),
    ensures
        xor_seq(xor_seq(data, keystream), keystream) == data,
{
    lemma_xor_cancel();
    assert(xor_seq(xor_seq(data, keystream), keystream) =~= data);
}

} // verus!
