//! The weak additive checksum.
//!
//! It is the sum of the byte values, kept to 32 bits. It guards against
//! accidents, not against an adversary: many byte strings share a sum.

use vstd::prelude::*;

verus! {

/// The sum of the byte values, without a bound.
pub open spec fn byte_sum(bytes: Seq<u8>) -> nat
    decreases bytes.len(),
{
    if bytes.len() == 0 {
        0
    } else {
        byte_sum(bytes.drop_last()) + bytes.last() as nat
    }
}

/// The checksum of a byte string: its byte sum modulo 2^32.
pub open spec fn checksum(bytes: Seq<u8>) -> u32 {
    (byte_sum(bytes) % 0x1_0000_0000) as u32
}

/// Adding two 32-bit values and keeping the low 32 bits.
pub open spec fn wrapping_sum(a: u32, b: u32) -> u32 {
    ((a + b) % 0x1_0000_0000) as u32
}

/// A byte string of `n` bytes sums to at most `255 * n`.
pub proof fn lemma_byte_sum_bound(bytes: Seq<u8>)
    ensures
        byte_sum(bytes) <= 255 * bytes.len(),
    decreases bytes.len(),
{
    if bytes.len() > 0 {
        lemma_byte_sum_bound(bytes.drop_last());
    }
}

/// The byte sum of a concatenation is the sum of the byte sums.
pub proof fn lemma_byte_sum_concat(a: Seq<u8>, b: Seq<u8>)
    ensures
        byte_sum(a + b) == byte_sum(a) + byte_sum(b),
    decreases b.len(),
{
    if b.len() == 0 {
        assert(a + b =~= a);
    } else {
        assert((a + b).drop_last() =~= a + b.drop_last());
        lemma_byte_sum_concat(a, b.drop_last());
    }
}

/// Two sums that differ by less than 2^32 differ modulo 2^32.
pub proof fn lemma_near_sums_differ(x: int, y: int)
    requires
        x != y,
        -0x1_0000_0000 < x - y < 0x1_0000_0000,
    ensures
        x % 0x1_0000_0000 != y % 0x1_0000_0000,
{
    let m = 0x1_0000_0000int;
    if x % m == y % m {
        vstd::arithmetic::div_mod::lemma_fundamental_div_mod(x, m);
        vstd::arithmetic::div_mod::lemma_fundamental_div_mod(y, m);
        let d = x / m - y / m;
        assert(x - y == m * d) by (nonlinear_arith)
            requires
                x == m * (x / m) + x % m,
                y == m * (y / m) + y % m,
                x % m == y % m,
                d == x / m - y / m,
        ;
        assert(d == 0) by (nonlinear_arith)
            requires
                -m < m * d < m,
                m == 0x1_0000_0000int,
        ;
    }
}

/// Replacing one byte moves the byte sum by the difference of the two bytes.
pub proof fn lemma_byte_sum_update(bytes: Seq<u8>, i: int, b: u8)
    requires
        0 <= i < bytes.len(),
    ensures
        byte_sum(bytes.update(i, b)) == byte_sum(bytes) - bytes[i] + b,
    decreases bytes.len(),
{
    if i == bytes.len() - 1 {
        assert(bytes.update(i, b).drop_last() =~= bytes.drop_last());
    } else {
        assert(bytes.update(i, b).drop_last() =~= bytes.drop_last().update(i, b));
        lemma_byte_sum_update(bytes.drop_last(), i, b);
    }
}

/// Changing a single byte always changes the checksum.
pub proof fn lemma_checksum_detects_single_byte(bytes: Seq<u8>, i: int, b: u8)
    requires
        0 <= i < bytes.len(),
        b != bytes[i],
    ensures
        checksum(bytes.update(i, b)) != checksum(bytes),
{
    lemma_byte_sum_update(bytes, i, b);
    lemma_near_sums_differ(byte_sum(bytes) as int, byte_sum(bytes.update(i, b)) as int);
}

/// Computes the checksum of a block of bytes.
pub fn read_chksum(data: &[u8]) -> (chk: u32)
    ensures
        chk == checksum(data@),
{
    let mut chk: u32 = 0;
    let mut i: usize = 0;
    while i < data.len()
        invariant
            i <= data.len(),
            chk == checksum(data@.subrange(0, i as int)),
        decreases data.len() - i,
    {
        proof {
            let prev = data@.subrange(0, i as int);
            let next = data@.subrange(0, i + 1);
            assert(next.drop_last() =~= prev);
            vstd::arithmetic::div_mod::lemma_add_mod_noop(
                byte_sum(prev) as int,
                data@[i as int] as int,
                0x1_0000_0000,
            );
        }
        chk = chk.wrapping_add(data[i] as u32);
        i += 1;
    }
    assert(data@.subrange(0, i as int) =~= data@);
    chk
}

/// Adds a checksum into a running total, keeping the low 32 bits.
pub fn add_chksum(total: u32, chk: u32) -> (sum: u32)
    ensures
        sum == wrapping_sum(total, chk),
{
    total.wrapping_add(chk)
}

} // verus!
