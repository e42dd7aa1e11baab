//! Property-name hashing.

use vstd::prelude::*;

verus! {

/// The hash of a byte string: start at 5381 and fold every byte in with
/// `h = h * 33 + byte`, keeping the low 64 bits.
pub open spec fn hash_bytes(bytes: Seq<u8>) -> u64
    decreases bytes.len(),
{
    if bytes.len() == 0 {
        5381
    } else {
        ((hash_bytes(bytes.drop_last()) * 33 + bytes.last()) % 0x1_0000_0000_0000_0000) as u64
    }
}

/// The hash of a string is the hash of its UTF-8 encoding.
pub open spec fn hash_of(s: Seq<char>) -> u64 {
    hash_bytes(vstd::utf8::encode_utf8(s))
}

/// The hash of a byte string with one more byte is one folding step on
/// from the hash of the byte string.
pub proof fn lemma_hash_push(bytes: Seq<u8>, byte: u8)
    ensures
        hash_bytes(bytes.push(byte)) == ((hash_bytes(bytes) * 33 + byte)
            % 0x1_0000_0000_0000_0000) as u64,
{
    assert(bytes.push(byte).drop_last() =~= bytes);
}

/// One folding step of the hash, on machine integers.
fn hash_step(h: u64, b: u8) -> (r: u64)
    ensures
        r == ((h * 33 + b) % 0x1_0000_0000_0000_0000) as u64,
{
    let m: u64 = h.wrapping_mul(33);
    let r: u64 = m.wrapping_add(b as u64);
    assert(m == (h * 33) % 0x1_0000_0000_0000_0000) by {
        vstd::arithmetic::div_mod::lemma_fundamental_div_mod(h * 33, 0x1_0000_0000_0000_0000);
    }
    r
}

/// Hashes a property name to the 64-bit key under which it is stored.
pub fn hash(s: &str) -> (h: u64)
    ensures
        h == hash_of(s@),
{
    let bytes = s.as_bytes();
    let mut val: u64 = 5381;
    let mut i: usize = 0;
    while i < bytes.len()
        invariant
            i <= bytes.len(),
            val == hash_bytes(bytes@.subrange(0, i as int)),
        decreases bytes.len() - i,
    {
        assert(bytes@.subrange(0, i + 1).drop_last() =~= bytes@.subrange(0, i as int));
        val = hash_step(val, bytes[i]);
        i += 1;
    }
    assert(bytes@.subrange(0, i as int) =~= bytes@);
    val
}

} // verus!
