//! Frame codecs: masking, frame reading and writing state, extension configs.
use vstd::prelude::*;

pub mod deflate;
pub mod deflate_stream;
pub mod frame;



verus! {

/// split something into two parts
pub trait Split {
    /// read half type
    type R;
    /// write half type
    type W;
    /// consume and return parts
    fn split(self) -> (Self::R, Self::W);
}

/// `data` with every byte XOR-ed with the key byte at its position modulo 4.
pub open spec fn masked(data: Seq<u8>, key: [u8; 4]) -> Seq<u8> {
    Seq::new(data.len(), |i: int| data[i] ^ key@[i % 4])
}

/// Masking twice with one key gives the data back (RFC 6455, 5.3).
pub proof fn lemma_mask_involution(data: Seq<u8>, key: [u8; 4])
    ensures
        masked(masked(data, key), key) == data,
{
    assert forall|i: int| 0 <= i < data.len() implies #[trigger] masked(masked(data, key), key)[i]
        == data[i] by {
        let a = data[i];
        let b = key@[i % 4];
        assert((a ^ b) ^ b == a) by (bit_vector);
    }
    assert(masked(masked(data, key), key) =~= data);
}

/// apply websocket mask to buf by given key
pub fn apply_mask(buf: &mut [u8], mask: [u8; 4])
    ensures
        final(buf)@ == masked(old(buf)@, mask),
{
    apply_mask_fallback(buf, mask)
}

fn apply_mask_fallback(buf: &mut [u8], mask: [u8; 4])
    ensures
        final(buf)@ == masked(old(buf)@, mask),
{
    let n = buf.len();
    let mut i: usize = 0;
    while i < n
        invariant
            n == buf@.len(),
            n == old(buf)@.len(),
            i <= n,
            forall|j: int| 0 <= j < i ==> buf@[j] == old(buf)@[j] ^ mask@[j % 4],
            forall|j: int| i <= j < n ==> buf@[j] == old(buf)@[j],
        decreases n - i,
    {
        let b = buf[i];
        buf[i] = b ^ mask[i % 4];
        i += 1;
    }
    assert(buf@ =~= masked(old(buf)@, mask));
}

/// apply websocket mask to buf by given key, four bytes at a time
pub fn apply_mask_fast32(buf: &mut [u8], mask: [u8; 4])
    ensures
        final(buf)@ == masked(old(buf)@, mask),
{
    let n = buf.len();
    let words = n / 4;
    let mut w: usize = 0;
    while w < words
        invariant
            n == buf@.len(),
            n == old(buf)@.len(),
            words == n / 4,
            w <= words,
            forall|j: int| 0 <= j < 4 * w ==> buf@[j] == old(buf)@[j] ^ mask@[j % 4],
            forall|j: int| 4 * w <= j < n ==> buf@[j] == old(buf)@[j],
        decreases words - w,
    {
        let s = 4 * w;
        let b0 = buf[s];
        buf[s] = b0 ^ mask[0];
        let b1 = buf[s + 1];
        buf[s + 1] = b1 ^ mask[1];
        let b2 = buf[s + 2];
        buf[s + 2] = b2 ^ mask[2];
        let b3 = buf[s + 3];
        buf[s + 3] = b3 ^ mask[3];
        assert(s % 4 == 0 && (s + 1) % 4 == 1 && (s + 2) % 4 == 2 && (s + 3) % 4 == 3);
        w += 1;
    }
    let mut i: usize = 4 * words;
    while i < n
        invariant
            n == buf@.len(),
            n == old(buf)@.len(),
            4 * words <= i <= n,
            forall|j: int| 0 <= j < i ==> buf@[j] == old(buf)@[j] ^ mask@[j % 4],
            forall|j: int| i <= j < n ==> buf@[j] == old(buf)@[j],
        decreases n - i,
    {
        let b = buf[i];
        buf[i] = b ^ mask[i % 4];
        i += 1;
    }
    assert(buf@ =~= masked(old(buf)@, mask));
}

} // verus!
