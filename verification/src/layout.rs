//! Blocks of bytes at fixed offsets.

use vstd::prelude::*;

verus! {

/// The `len` bytes that a read at `offset` yields: the bytes of `data` as far
/// as they go, and zeros after its end.
pub open spec fn padded_block(data: Seq<u8>, offset: int, len: nat) -> Seq<u8> {
    Seq::new(
        len,
        |i: int|
            if 0 <= offset + i < data.len() {
                data[offset + i]
            } else {
                0u8
            },
    )
}

/// Where the data holds the whole block, the block is a plain subrange.
pub proof fn lemma_padded_block_inside(data: Seq<u8>, offset: int, len: nat)
    requires
        0 <= offset,
        offset + len <= data.len(),
    ensures
        padded_block(data, offset, len) == data.subrange(offset, offset + len),
{
    assert(padded_block(data, offset, len) =~= data.subrange(offset, offset + len));
}

/// A block is its first part followed by the rest.
pub proof fn lemma_padded_block_split(data: Seq<u8>, offset: int, first: nat, rest: nat)
    requires
        0 <= offset,
    ensures
        padded_block(data, offset, first + rest) == padded_block(data, offset, first)
            + padded_block(data, offset + first, rest),
{
    assert(padded_block(data, offset, first + rest) =~= padded_block(data, offset, first)
        + padded_block(data, offset + first, rest));
}

/// Reads `len` bytes at `offset`, with zeros for what lies past the end.
pub fn read_block(data: &[u8], offset: u64, len: usize) -> (block: Vec<u8>)
    ensures
        block@ == padded_block(data@, offset as int, len as nat),
{
    let size = data.len();
    let start: usize = if offset >= size as u64 {
        size
    } else {
        offset as usize
    };
    let mut block: Vec<u8> = Vec::new();
    let mut i: usize = 0;
    while i < len
        invariant
            i <= len,
            size == data@.len(),
            start <= size,
            start == offset || (start == size && offset >= size),
            block@ == padded_block(data@, offset as int, i as nat),
        decreases len - i,
    {
        let byte: u8 = if i < size - start {
            data[start + i]
        } else {
            0
        };
        block.push(byte);
        i += 1;
        assert(block@ =~= padded_block(data@, offset as int, i as nat));
    }
    block
}

/// Appends a block of bytes to a growing buffer.
pub fn append_bytes(out: &mut Vec<u8>, data: &[u8])
    ensures
        final(out)@ == old(out)@ + data@,
{
    let mut i: usize = 0;
    while i < data.len()
        invariant
            i <= data.len(),
            out@ == old(out)@ + data@.subrange(0, i as int),
        decreases data.len() - i,
    {
        out.push(data[i]);
        i += 1;
        assert(out@ =~= old(out)@ + data@.subrange(0, i as int));
    }
    assert(data@.subrange(0, i as int) =~= data@);
}

} // verus!
