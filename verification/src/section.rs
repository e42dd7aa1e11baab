//! Section headers and section storage.

use crate::checksum::byte_sum;
use crate::checksum::checksum;
use crate::checksum::lemma_byte_sum_bound;
use crate::checksum::read_chksum;
use crate::endian::read_u32;
use crate::endian::read_u64;
use crate::endian::u32_from_le;
use crate::endian::u32_to_le;
use crate::endian::u64_from_le;
use crate::endian::u64_to_le;
use crate::endian::write_u32;
use crate::endian::write_u64;
use crate::error::Error;
use crate::layout::append_bytes;
use crate::layout::padded_block;
use crate::layout::read_block;
use crate::xz::xz_decode;
use crate::xz::xz_decoded;
use crate::xz::xz_encode;
use crate::xz::xz_encoded;
use vstd::prelude::*;
use vstd::slice::slice_subrange;

verus! {

/// The size in bytes of a section header in the container.
pub const SIZE_SECTION_HEADER: usize = 24;

/// Flag bit: the payload went through the retired zlib compressor.
pub const FLAG_COMPRESS_ZLIB: u8 = 0x1;

/// Flag bit: the payload is an XZ stream.
pub const FLAG_COMPRESS_XZ: u8 = 0x2;

/// Flag bit: the payload is guarded by the retired CRC32 check.
pub const FLAG_CHECK_CRC32: u8 = 0x4;

/// Flag bit: the content is guarded by the weak additive checksum.
pub const FLAG_CHECK_WEAK: u8 = 0x8;

/// Sections of at least this many bytes are compressed when saved.
pub const READ_BLOCK_SIZE: usize = 65536;

/// Sections of more than this many bytes are huge.
pub const HUGE_SECTION_SIZE: u32 = 1000000;

/// The descriptor of one section, as the section header table holds it.
#[derive(Copy, Clone, Debug, PartialEq, Eq, Structural)]
pub struct BPXSectionHeader {
    /// Where the payload starts in the container.
    pub pointer: u64,
    /// The size of the payload as stored.
    pub csize: u32,
    /// The size of the content once decompressed.
    pub size: u32,
    /// The checksum of the content.
    pub chksum: u32,
    /// What the section is for; the meaning is the caller's.
    pub btype: u8,
    /// How the payload is compressed and checked.
    pub flags: u8,
}

/// The 24 bytes that stand for a header in the container.
pub open spec fn section_header_bytes(h: BPXSectionHeader) -> Seq<u8> {
    u64_to_le(h.pointer) + u32_to_le(h.csize) + u32_to_le(h.size) + u32_to_le(h.chksum)
        + seq![h.btype, h.flags, 0u8, 0u8]
}

/// The header that a block of 24 bytes stands for.
pub open spec fn section_header_of(block: Seq<u8>) -> BPXSectionHeader
    recommends
        block.len() == SIZE_SECTION_HEADER,
{
    BPXSectionHeader {
        pointer: u64_from_le(block.subrange(0, 8)),
        csize: u32_from_le(block.subrange(8, 12)),
        size: u32_from_le(block.subrange(12, 16)),
        chksum: u32_from_le(block.subrange(16, 20)),
        btype: block[20],
        flags: block[21],
    }
}

/// Reading the bytes of a header gives the header back.
pub proof fn lemma_section_header_round_trip(h: BPXSectionHeader)
    ensures
        section_header_bytes(h).len() == SIZE_SECTION_HEADER,
        section_header_of(section_header_bytes(h)) == h,
{
    let b = section_header_bytes(h);
    crate::endian::lemma_u64_le_round_trip(h.pointer);
    crate::endian::lemma_u32_le_round_trip(h.csize);
    crate::endian::lemma_u32_le_round_trip(h.size);
    crate::endian::lemma_u32_le_round_trip(h.chksum);
    assert(b.subrange(0, 8) =~= u64_to_le(h.pointer));
    assert(b.subrange(8, 12) =~= u32_to_le(h.csize));
    assert(b.subrange(12, 16) =~= u32_to_le(h.size));
    assert(b.subrange(16, 20) =~= u32_to_le(h.chksum));
}

impl BPXSectionHeader {
    /// Reads the header that stands at `offset` in `data`, together with the
    /// sum of its 24 bytes. Bytes past the end of `data` read as zero.
    pub fn read(data: &[u8], offset: u64) -> (r: (u32, BPXSectionHeader))
        ensures
            r.0 == checksum(padded_block(data@, offset as int, SIZE_SECTION_HEADER as nat)),
            r.0 == byte_sum(padded_block(data@, offset as int, SIZE_SECTION_HEADER as nat)),
            r.1 == section_header_of(
                padded_block(data@, offset as int, SIZE_SECTION_HEADER as nat),
            ),
    {
        let buf = read_block(data, offset, SIZE_SECTION_HEADER);
        let sum = read_chksum(buf.as_slice());
        proof {
            lemma_byte_sum_bound(buf@);
        }
        let header = BPXSectionHeader {
            pointer: read_u64(slice_subrange(buf.as_slice(), 0, 8)),
            csize: read_u32(slice_subrange(buf.as_slice(), 8, 12)),
            size: read_u32(slice_subrange(buf.as_slice(), 12, 16)),
            chksum: read_u32(slice_subrange(buf.as_slice(), 16, 20)),
            btype: buf[20],
            flags: buf[21],
        };
        proof {
            assert(buf@.subrange(0, 8).subrange(0, 8) =~= buf@.subrange(0, 8));
            assert(buf@.subrange(8, 12).subrange(0, 4) =~= buf@.subrange(8, 12));
            assert(buf@.subrange(12, 16).subrange(0, 4) =~= buf@.subrange(12, 16));
            assert(buf@.subrange(16, 20).subrange(0, 4) =~= buf@.subrange(16, 20));
        }
        (sum, header)
    }

    /// The header of a fresh section: nothing stored yet, content to be
    /// guarded by the weak checksum.
    pub fn new(size: u32, btype: u8) -> (h: BPXSectionHeader)
        ensures
            h == (BPXSectionHeader {
                pointer: 0,
                csize: 0,
                size: size,
                chksum: 0,
                btype: btype,
                flags: FLAG_CHECK_WEAK,
            }),
    {
        BPXSectionHeader {
            pointer: 0,
            csize: 0,
            size: size,
            chksum: 0,
            btype: btype,
            flags: FLAG_CHECK_WEAK,
        }
    }

    /// Whether the content is too large to be held in memory as a matter of
    /// course: more than 1,000,000 bytes.
    pub fn is_huge_section(&self) -> (huge: bool)
        ensures
            huge == (self.size > HUGE_SECTION_SIZE),
    {
        self.size > HUGE_SECTION_SIZE
    }

    /// The 24 bytes of this header.
    pub fn to_bytes(&self) -> (block: Vec<u8>)
        ensures
            block@ == section_header_bytes(*self),
            block@.len() == SIZE_SECTION_HEADER,
    {
        let mut block: Vec<u8> = Vec::new();
        let pointer = write_u64(self.pointer);
        let csize = write_u32(self.csize);
        let size = write_u32(self.size);
        let chksum = write_u32(self.chksum);
        append_bytes(&mut block, pointer.as_slice());
        append_bytes(&mut block, csize.as_slice());
        append_bytes(&mut block, size.as_slice());
        append_bytes(&mut block, chksum.as_slice());
        block.push(self.btype);
        block.push(self.flags);
        block.push(0);
        block.push(0);
        assert(block@ =~= section_header_bytes(*self));
        block
    }

    /// The sum of the 24 bytes of this header.
    pub fn get_checksum(&self) -> (sum: u32)
        ensures
            sum == byte_sum(section_header_bytes(*self)),
            sum == checksum(section_header_bytes(*self)),
    {
        let buf = self.to_bytes();
        proof {
            lemma_byte_sum_bound(buf@);
        }
        read_chksum(buf.as_slice())
    }

    /// Appends the 24 bytes of this header to the writer.
    pub fn write(&self, writer: &mut Vec<u8>)
        ensures
            final(writer)@ == old(writer)@ + section_header_bytes(*self),
    {
        let buf = self.to_bytes();
        append_bytes(writer, buf.as_slice());
    }
}

/// Where a seek is measured from.
#[derive(Copy, Clone, Debug, PartialEq, Eq, Structural)]
pub enum SeekFrom {
    /// From the first byte.
    Start(u64),
    /// From the end of the stored bytes.
    End(i64),
    /// From the cursor.
    Current(i64),
}

/// The position that a seek asks for.
pub open spec fn seek_target(len: nat, cursor: nat, pos: SeekFrom) -> int {
    match pos {
        SeekFrom::Start(p) => p as int,
        SeekFrom::End(off) => len + off,
        SeekFrom::Current(off) => cursor + off,
    }
}

/// What a read of up to `count` bytes at `cursor` yields.
pub open spec fn readable(data: Seq<u8>, cursor: nat, count: nat) -> Seq<u8> {
    if cursor >= data.len() {
        Seq::empty()
    } else if cursor + count <= data.len() {
        data.subrange(cursor as int, (cursor + count) as int)
    } else {
        data.subrange(cursor as int, data.len() as int)
    }
}

/// The stored bytes after `buf` was written at `at`: the bytes under the
/// write are replaced, the store grows as far as the write reaches, and a gap
/// between the old end and the write reads as zeros.
pub open spec fn overwritten(data: Seq<u8>, at: nat, buf: Seq<u8>) -> Seq<u8> {
    Seq::new(
        if data.len() >= at + buf.len() {
            data.len()
        } else {
            at + buf.len()
        },
        |i: int|
            if at <= i < at + buf.len() {
                buf[i - at]
            } else if i < data.len() {
                data[i]
            } else {
                0u8
            },
    )
}

/// How many bytes of a write of `len` bytes at `cursor` are taken, where
/// nothing can be stored at or past `limit`.
pub open spec fn accepted(limit: nat, cursor: nat, len: nat) -> nat {
    if cursor >= limit {
        0
    } else if cursor + len <= limit {
        len
    } else {
        (limit - cursor) as nat
    }
}

/// The logical size after a write that ended at `end`.
pub open spec fn grown(size: nat, end: int) -> nat {
    if size >= end {
        size
    } else {
        end as nat
    }
}

/// Moves a position by a signed offset.
pub fn slow_but_correct_add(value: usize, offset: i64) -> (r: usize)
    requires
        0 <= value + offset <= usize::MAX,
    ensures
        r == value + offset,
{
    if offset < 0 {
        let back: u64 = (-(offset + 1)) as u64 + 1;
        (value as u64 - back) as usize
    } else {
        (value as u64 + offset as u64) as usize
    }
}

/// A section's content as a seekable stream of bytes.
///
/// A section stores bytes from offset 0, has a cursor at which reads and
/// writes take place, and a logical size: the furthest that a write has
/// reached. The size never shrinks.
pub trait Section: Sized {
    /// What holds of every section that the library hands out.
    spec fn wf(&self) -> bool;

    /// The bytes stored, from offset 0.
    spec fn data(&self) -> Seq<u8>;

    /// The offset of the next read or write.
    spec fn cursor(&self) -> nat;

    /// The logical size.
    spec fn spec_size(&self) -> nat;

    /// The offset at and past which nothing can be written.
    spec fn limit(&self) -> nat;

    /// The logical size lies inside the stored bytes, and these inside the
    /// limit.
    proof fn lemma_size_in_data(&self)
        requires
            self.wf(),
        ensures
            self.spec_size() <= self.data().len() <= self.limit(),
    ;

    /// The whole of the stored bytes.
    fn load_in_memory(&mut self) -> (v: Vec<u8>)
        requires
            old(self).wf(),
        ensures
            *final(self) == *old(self),
            v@ == old(self).data(),
    ;

    /// The logical size: how far the section has been written.
    fn size(&self) -> (n: usize)
        requires
            self.wf(),
        ensures
            n == self.spec_size(),
    ;

    /// Reads up to `count` bytes at the cursor and moves the cursor past
    /// them. Fewer bytes come back only where the stored bytes end.
    fn read(&mut self, count: usize) -> (out: Vec<u8>)
        requires
            old(self).wf(),
        ensures
            final(self).wf(),
            out@ == readable(old(self).data(), old(self).cursor(), count as nat),
            final(self).data() == old(self).data(),
            final(self).cursor() == old(self).cursor() + out@.len(),
            final(self).spec_size() == old(self).spec_size(),
            final(self).limit() == old(self).limit(),
    ;

    /// Writes the bytes at the cursor, as many as fit under the limit, and
    /// moves the cursor past them. Returns how many were written.
    fn write(&mut self, buf: &[u8]) -> (n: usize)
        requires
            old(self).wf(),
        ensures
            final(self).wf(),
            n == accepted(old(self).limit(), old(self).cursor(), buf@.len()),
            final(self).cursor() == old(self).cursor() + n,
            final(self).limit() == old(self).limit(),
            n == 0 ==> final(self).data() == old(self).data() && final(self).spec_size() == old(
                self,
            ).spec_size(),
            n > 0 ==> final(self).data() == overwritten(
                old(self).data(),
                old(self).cursor(),
                buf@.subrange(0, n as int),
            ),
            n > 0 ==> final(self).spec_size() == grown(old(self).spec_size(), old(self).cursor() + n),
    ;

    /// Moves the cursor and returns its new offset.
    fn seek(&mut self, pos: SeekFrom) -> (at: u64)
        requires
            old(self).wf(),
            0 <= seek_target(old(self).data().len(), old(self).cursor(), pos) <= usize::MAX,
        ensures
            final(self).wf(),
            at == seek_target(old(self).data().len(), old(self).cursor(), pos),
            final(self).cursor() == at,
            final(self).data() == old(self).data(),
            final(self).spec_size() == old(self).spec_size(),
            final(self).limit() == old(self).limit(),
    ;
}

/// The content of a section: the stored bytes up to the logical size.
pub open spec fn content<S: Section>(s: &S) -> Seq<u8> {
    s.data().subrange(0, s.spec_size() as int)
}

/// The cursor after a seek, computed on machine integers.
fn seek_position(len: usize, cursor: usize, pos: SeekFrom) -> (at: usize)
    requires
        0 <= seek_target(len as nat, cursor as nat, pos) <= usize::MAX,
    ensures
        at == seek_target(len as nat, cursor as nat, pos),
{
    match pos {
        SeekFrom::Start(p) => p as usize,
        SeekFrom::End(off) => slow_but_correct_add(len, off),
        SeekFrom::Current(off) => slow_but_correct_add(cursor, off),
    }
}

/// Reads up to `count` bytes of `data` at `cursor`.
fn read_at(data: &Vec<u8>, cursor: usize, count: usize) -> (out: Vec<u8>)
    ensures
        out@ == readable(data@, cursor as nat, count as nat),
        cursor + out@.len() <= usize::MAX,
{
    let len = data.len();
    if cursor >= len {
        return Vec::new();
    }
    let avail = len - cursor;
    let n = if count < avail {
        count
    } else {
        avail
    };
    vstd::slice::slice_to_vec(slice_subrange(data.as_slice(), cursor, cursor + n))
}

/// A section in a buffer of fixed length, made when the size is known ahead.
/// Writes stop at the end of the buffer.
pub struct InMemorySection {
    data: Vec<u8>,
    cursor: usize,
    cur_size: usize,
}

impl InMemorySection {
    /// A section over the given buffer, with the cursor at the start and
    /// nothing written yet.
    pub fn new(data: Vec<u8>) -> (s: InMemorySection)
        ensures
            s.wf(),
            s.data() == data@,
            s.cursor() == 0,
            s.spec_size() == 0,
            s.limit() == data@.len(),
    {
        InMemorySection { data: data, cursor: 0, cur_size: 0 }
    }

    /// A section over the given buffer that counts all of it as written.
    pub fn filled(data: Vec<u8>) -> (s: InMemorySection)
        ensures
            s.wf(),
            s.data() == data@,
            s.cursor() == 0,
            s.spec_size() == data@.len(),
            s.limit() == data@.len(),
    {
        let cur_size = data.len();
        InMemorySection { data: data, cursor: 0, cur_size: cur_size }
    }
}

impl Section for InMemorySection {
    closed spec fn wf(&self) -> bool {
        self.cur_size <= self.data@.len()
    }

    closed spec fn data(&self) -> Seq<u8> {
        self.data@
    }

    closed spec fn cursor(&self) -> nat {
        self.cursor as nat
    }

    closed spec fn spec_size(&self) -> nat {
        self.cur_size as nat
    }

    closed spec fn limit(&self) -> nat {
        self.data@.len()
    }

    proof fn lemma_size_in_data(&self) {
    }

    fn load_in_memory(&mut self) -> (v: Vec<u8>) {
        vstd::slice::slice_to_vec(self.data.as_slice())
    }

    fn size(&self) -> (n: usize) {
        self.cur_size
    }

    fn read(&mut self, count: usize) -> (out: Vec<u8>) {
        let out = read_at(&self.data, self.cursor, count);
        self.cursor = self.cursor + out.len();
        out
    }

    fn write(&mut self, buf: &[u8]) -> (n: usize) {
        let len = self.data.len();
        if self.cursor >= len {
            return 0;
        }
        let room = len - self.cursor;
        let n = if buf.len() < room {
            buf.len()
        } else {
            room
        };
        if n == 0 {
            return 0;
        }
        let start = self.cursor;
        let mut i: usize = 0;
        while i < n
            invariant
                i <= n,
                start + n <= len,
                n <= buf@.len(),
                self.data@.len() == len,
                self.cursor == start,
                self.cur_size == old(self).cur_size,
                self.data@ == overwritten(old(self).data@, start as nat, buf@.subrange(0, i as int)),
            decreases n - i,
        {
            self.data.set(start + i, buf[i]);
            i += 1;
            assert(self.data@ =~= overwritten(
                old(self).data@,
                start as nat,
                buf@.subrange(0, i as int),
            ));
        }
        self.cursor = start + n;
        if self.cursor > self.cur_size {
            self.cur_size = self.cursor;
        }
        n
    }

    fn seek(&mut self, pos: SeekFrom) -> (at: u64) {
        self.cursor = seek_position(self.data.len(), self.cursor, pos);
        self.cursor as u64
    }
}

/// A section in scratch storage, made when the size is not known ahead or
/// is huge. It grows as it is written, so that its logical size is the length
/// of what it stores. A host short of memory keeps such a section in a
/// temporary file.
pub struct ScratchSection {
    data: Vec<u8>,
    cursor: usize,
}

impl ScratchSection {
    /// An empty section.
    pub fn new() -> (s: ScratchSection)
        ensures
            s.wf(),
            s.data() == Seq::<u8>::empty(),
            s.cursor() == 0,
            s.spec_size() == 0,
            s.limit() == usize::MAX,
    {
        ScratchSection { data: Vec::new(), cursor: 0 }
    }

    /// A section that holds the given bytes, with the cursor at the start.
    pub fn filled(data: Vec<u8>) -> (s: ScratchSection)
        ensures
            s.wf(),
            s.data() == data@,
            s.cursor() == 0,
            s.spec_size() == data@.len(),
            s.limit() == usize::MAX,
    {
        ScratchSection { data: data, cursor: 0 }
    }
}

impl Section for ScratchSection {
    closed spec fn wf(&self) -> bool {
        true
    }

    closed spec fn data(&self) -> Seq<u8> {
        self.data@
    }

    closed spec fn cursor(&self) -> nat {
        self.cursor as nat
    }

    closed spec fn spec_size(&self) -> nat {
        self.data@.len()
    }

    closed spec fn limit(&self) -> nat {
        usize::MAX as nat
    }

    proof fn lemma_size_in_data(&self) {
        vstd::std_specs::vec::axiom_spec_len(&self.data);
    }

    fn load_in_memory(&mut self) -> (v: Vec<u8>) {
        vstd::slice::slice_to_vec(self.data.as_slice())
    }

    fn size(&self) -> (n: usize) {
        self.data.len()
    }

    fn read(&mut self, count: usize) -> (out: Vec<u8>) {
        let out = read_at(&self.data, self.cursor, count);
        self.cursor = self.cursor + out.len();
        out
    }

    fn write(&mut self, buf: &[u8]) -> (n: usize) {
        let start = self.cursor;
        if start >= usize::MAX {
            return 0;
        }
        let room = usize::MAX - start;
        let n = if buf.len() < room {
            buf.len()
        } else {
            room
        };
        if n == 0 {
            return 0;
        }
        while self.data.len() < start
            invariant
                self.cursor == start,
                self.data@ == overwritten(old(self).data@, self.data@.len(), Seq::<u8>::empty()),
                old(self).data@.len() <= self.data@.len(),
                self.data@.len() <= start || self.data@ == old(self).data@,
            decreases start - self.data@.len(),
        {
            self.data.push(0);
            assert(self.data@ =~= overwritten(
                old(self).data@,
                self.data@.len(),
                Seq::<u8>::empty(),
            ));
        }
        let ghost padded = self.data@;
        let mut i: usize = 0;
        while i < n
            invariant
                i <= n,
                n <= buf@.len(),
                start + n <= usize::MAX,
                self.cursor == start,
                start <= padded.len(),
                padded == overwritten(old(self).data@, padded.len(), Seq::<u8>::empty()),
                old(self).data@.len() <= padded.len(),
                padded.len() <= start || padded == old(self).data@,
                self.data@ == overwritten(padded, start as nat, buf@.subrange(0, i as int)),
            decreases n - i,
        {
            if start + i < self.data.len() {
                self.data.set(start + i, buf[i]);
            } else {
                self.data.push(buf[i]);
            }
            i += 1;
            assert(self.data@ =~= overwritten(padded, start as nat, buf@.subrange(0, i as int)));
        }
        assert(self.data@ =~= overwritten(
            old(self).data@,
            start as nat,
            buf@.subrange(0, n as int),
        ));
        self.cursor = start + n;
        n
    }

    fn seek(&mut self, pos: SeekFrom) -> (at: u64) {
        self.cursor = seek_position(self.data.len(), self.cursor, pos);
        self.cursor as u64
    }
}

/// The storage of a section: a buffer of fixed length or scratch storage.
pub enum SectionStore {
    /// A buffer as long as the size that the header announces.
    Memory(InMemorySection),
    /// Scratch storage that grows with the content.
    Scratch(ScratchSection),
}

impl SectionStore {
    /// Whether the section lives in scratch storage.
    pub fn is_scratch(&self) -> (scratch: bool)
        ensures
            scratch == (self is Scratch),
    {
        match self {
            SectionStore::Memory(_) => false,
            SectionStore::Scratch(_) => true,
        }
    }
}

impl Section for SectionStore {
    open spec fn wf(&self) -> bool {
        match self {
            SectionStore::Memory(s) => s.wf(),
            SectionStore::Scratch(s) => s.wf(),
        }
    }

    open spec fn data(&self) -> Seq<u8> {
        match self {
            SectionStore::Memory(s) => s.data(),
            SectionStore::Scratch(s) => s.data(),
        }
    }

    open spec fn cursor(&self) -> nat {
        match self {
            SectionStore::Memory(s) => s.cursor(),
            SectionStore::Scratch(s) => s.cursor(),
        }
    }

    open spec fn spec_size(&self) -> nat {
        match self {
            SectionStore::Memory(s) => s.spec_size(),
            SectionStore::Scratch(s) => s.spec_size(),
        }
    }

    open spec fn limit(&self) -> nat {
        match self {
            SectionStore::Memory(s) => s.limit(),
            SectionStore::Scratch(s) => s.limit(),
        }
    }

    proof fn lemma_size_in_data(&self) {
        match self {
            SectionStore::Memory(s) => s.lemma_size_in_data(),
            SectionStore::Scratch(s) => s.lemma_size_in_data(),
        }
    }

    fn load_in_memory(&mut self) -> (v: Vec<u8>) {
        match self {
            SectionStore::Memory(s) => s.load_in_memory(),
            SectionStore::Scratch(s) => s.load_in_memory(),
        }
    }

    fn size(&self) -> (n: usize) {
        match self {
            SectionStore::Memory(s) => s.size(),
            SectionStore::Scratch(s) => s.size(),
        }
    }

    fn read(&mut self, count: usize) -> (out: Vec<u8>) {
        match self {
            SectionStore::Memory(s) => s.read(count),
            SectionStore::Scratch(s) => s.read(count),
        }
    }

    fn write(&mut self, buf: &[u8]) -> (n: usize) {
        match self {
            SectionStore::Memory(s) => s.write(buf),
            SectionStore::Scratch(s) => s.write(buf),
        }
    }

    fn seek(&mut self, pos: SeekFrom) -> (at: u64) {
        match self {
            SectionStore::Memory(s) => s.seek(pos),
            SectionStore::Scratch(s) => s.seek(pos),
        }
    }
}

/// A buffer of `n` zero bytes.
fn zeroed(n: usize) -> (v: Vec<u8>)
    ensures
        v@ == Seq::new(n as nat, |i: int| 0u8),
{
    let mut v: Vec<u8> = Vec::new();
    let mut i: usize = 0;
    while i < n
        invariant
            i <= n,
            v@ == Seq::new(i as nat, |j: int| 0u8),
        decreases n - i,
    {
        v.push(0);
        i += 1;
        assert(v@ =~= Seq::new(i as nat, |j: int| 0u8));
    }
    v
}

/// Whether a section of the announced size is made in scratch storage: when
/// the size is not known (0) or huge.
pub open spec fn created_in_scratch(size: u32) -> bool {
    size == 0 || size > HUGE_SECTION_SIZE
}

/// Makes the storage for a new section. A section of unknown or huge size
/// goes to scratch storage; any other gets a zeroed buffer of its size.
pub fn create_section(header: &BPXSectionHeader) -> (section: SectionStore)
    ensures
        section.wf(),
        (section is Scratch) == created_in_scratch(header.size),
        section.cursor() == 0,
        section.spec_size() == 0,
        section is Scratch ==> section.data() == Seq::<u8>::empty() && section.limit()
            == usize::MAX,
        section is Memory ==> section.data() == Seq::new(header.size as nat, |i: int| 0u8)
            && section.limit() == header.size,
{
    if header.is_huge_section() || header.size == 0 {
        SectionStore::Scratch(ScratchSection::new())
    } else {
        SectionStore::Memory(InMemorySection::new(zeroed(header.size as usize)))
    }
}

/// Whether content of this length is compressed when saved.
pub open spec fn saved_compressed(len: nat) -> bool {
    len >= READ_BLOCK_SIZE
}

/// The flags of a saved section.
pub open spec fn saved_flags(content: Seq<u8>) -> u8 {
    if saved_compressed(content.len()) {
        0xA
    } else {
        0x8
    }
}

/// The payload of a saved section: the content itself where it is short, its
/// XZ stream otherwise.
pub open spec fn saved_payload(content: Seq<u8>) -> Seq<u8> {
    if saved_compressed(content.len()) {
        xz_encoded(content)
    } else {
        content
    }
}

/// The room that the compressor gets for content of the given size: the
/// size itself, a sixteenth of it and 4096 bytes on top. Incompressible
/// content makes a stream a little longer than itself, and this is well
/// above what it needs.
pub open spec fn room_for(size: nat) -> nat {
    size + size / 16 + 4096
}

/// The room that is given to the compressor for content of the given size:
/// the size itself, a sixteenth of it and 4096 bytes on top, as far as the
/// machine can count.
fn encoder_room(size: usize) -> (room: usize)
    ensures
        room == if room_for(size as nat) <= usize::MAX {
            room_for(size as nat)
        } else {
            usize::MAX as nat
        },
{
    let extra = size / 16 + 4096;
    if size > usize::MAX - extra {
        usize::MAX
    } else {
        size + extra
    }
}

/// Appends the payload of a section to `out` and returns the payload's size,
/// the checksum of the content and the flags for the header.
///
/// Content shorter than 65536 bytes is stored as it is; longer content is
/// compressed. The section is read from its start, and its cursor ends
/// behind its content. Only the compressor can refuse, and then nothing is
/// appended. The compressor is given room for a stream somewhat longer than
/// the content and is held to have refused where it wants more.
pub fn write_section<S: Section>(section: &mut S, out: &mut Vec<u8>) -> (r: Result<
    (usize, u32, u8),
    Error,
>)
    requires
        old(section).wf(),
    ensures
        final(section).wf(),
        final(section).data() == old(section).data(),
        final(section).spec_size() == old(section).spec_size(),
        final(section).limit() == old(section).limit(),
        final(section).cursor() == old(section).spec_size(),
        !saved_compressed(old(section).spec_size()) ==> r is Ok,
        match r {
            Ok((csize, chksum, flags)) => {
                &&& final(out)@ == old(out)@ + saved_payload(content(old(section)))
                &&& csize == saved_payload(content(old(section))).len()
                &&& chksum == checksum(content(old(section)))
                &&& flags == saved_flags(content(old(section)))
                &&& saved_compressed(old(section).spec_size()) ==> xz_decoded(
                    saved_payload(content(old(section))),
                ) == Some(content(old(section)))
            },
            Err(e) => e == Error::Deflate && final(out)@ == old(out)@,
        },
{
    proof {
        section.lemma_size_in_data();
    }
    section.seek(SeekFrom::Start(0));
    let size = section.size();
    let data = section.read(size);
    assert(data@ == content(old(section)));
    let chksum = read_chksum(data.as_slice());
    if size < READ_BLOCK_SIZE {
        append_bytes(out, data.as_slice());
        Ok((size, chksum, FLAG_CHECK_WEAK))
    } else {
        match xz_encode(data.as_slice(), encoder_room(size)) {
            Some(packed) => {
                append_bytes(out, packed.as_slice());
                assert(0x8u8 | 0x2u8 == 0xAu8) by (bit_vector);
                Ok((packed.len(), chksum, FLAG_CHECK_WEAK | FLAG_COMPRESS_XZ))
            },
            None => Err(Error::Deflate),
        }
    }
}

/// Whether the XZ flag is set.
pub open spec fn is_xz(flags: u8) -> bool {
    flags & FLAG_COMPRESS_XZ == FLAG_COMPRESS_XZ
}

/// Whether the weak checksum flag is set.
pub open spec fn is_weak_checked(flags: u8) -> bool {
    flags & FLAG_CHECK_WEAK == FLAG_CHECK_WEAK
}

/// The part of a compressed payload that the container holds: `csize` bytes
/// at the pointer, or fewer where the container ends before.
pub open spec fn stored_stream(file: Seq<u8>, header: BPXSectionHeader) -> Seq<u8> {
    if header.pointer >= file.len() {
        Seq::empty()
    } else if header.pointer + header.csize <= file.len() {
        file.subrange(header.pointer as int, header.pointer + header.csize)
    } else {
        file.subrange(header.pointer as int, file.len() as int)
    }
}

/// The content checked against the header: refused where the header asks
/// for the weak checksum and the sums differ.
pub open spec fn checked_content(header: BPXSectionHeader, bytes: Seq<u8>) -> Result<
    Seq<u8>,
    Error,
> {
    if is_weak_checked(header.flags) && checksum(bytes) != header.chksum {
        Err(Error::SectionChecksumMismatch)
    } else {
        Ok(bytes)
    }
}

/// The content of the section that a header describes, as the container
/// holds it.
pub open spec fn section_content(file: Seq<u8>, header: BPXSectionHeader) -> Result<
    Seq<u8>,
    Error,
> {
    if is_xz(header.flags) {
        match xz_decoded(stored_stream(file, header)) {
            Some(bytes) => checked_content(header, bytes),
            None => Err(Error::Inflate),
        }
    } else {
        checked_content(header, padded_block(file, header.pointer as int, header.size as nat))
    }
}

/// Turns the bytes of a section into a section, once they are out of the
/// container: `bytes` is the raw payload of a section stored as it is, or
/// what the decompressor made of a compressed one (`None` where it failed).
///
/// The bytes are checked against the header's checksum where the header asks
/// for it. A huge section goes to scratch storage, any other to memory.
pub fn finish_section(header: &BPXSectionHeader, bytes: Option<Vec<u8>>) -> (r: Result<
    SectionStore,
    Error,
>)
    ensures
        match r {
            Ok(section) => {
                &&& bytes is Some
                &&& checked_content(*header, bytes->0@) == Ok::<Seq<u8>, Error>(bytes->0@)
                &&& section.wf()
                &&& section.data() == bytes->0@
                &&& content(&section) == bytes->0@
                &&& section.spec_size() == bytes->0@.len()
                &&& section.cursor() == 0
                &&& (section is Scratch) == (header.size > HUGE_SECTION_SIZE)
            },
            Err(e) => match bytes {
                Some(b) => checked_content(*header, b@) == Err::<Seq<u8>, Error>(e),
                None => e == Error::Inflate,
            },
        },
{
    match bytes {
        None => Err(Error::Inflate),
        Some(data) => {
            let chksum = read_chksum(data.as_slice());
            if header.flags & FLAG_CHECK_WEAK == FLAG_CHECK_WEAK && chksum != header.chksum {
                return Err(Error::SectionChecksumMismatch);
            }
            let section = if header.is_huge_section() {
                SectionStore::Scratch(ScratchSection::filled(data))
            } else {
                SectionStore::Memory(InMemorySection::filled(data))
            };
            assert(section.data() =~= content(&section));
            Ok(section)
        },
    }
}

/// Opens the section that a header describes: takes the payload out of the
/// container, decompresses it where the header says so, checks it and hands
/// it back as a section with the cursor at the start.
///
/// The result is the one that `section_content` gives, but for one case: a
/// compressed section is refused with `Inflate` where the decompressor
/// fails for want of memory, or where the stream holds more bytes than the
/// header announces.
pub fn open_section(bpx: &[u8], header: &BPXSectionHeader) -> (r: Result<SectionStore, Error>)
    ensures
        match r {
            Ok(section) => {
                &&& section_content(bpx@, *header) == Ok::<Seq<u8>, Error>(content(&section))
                &&& section.wf()
                &&& section.data() == content(&section)
                &&& section.cursor() == 0
                &&& (section is Scratch) == (header.size > HUGE_SECTION_SIZE)
            },
            Err(e) => section_content(bpx@, *header) == Err::<Seq<u8>, Error>(e) || (is_xz(
                header.flags,
            ) && e == Error::Inflate),
        },
        !is_xz(header.flags) ==> (r is Ok <==> section_content(bpx@, *header) is Ok),
{
    if header.flags & FLAG_COMPRESS_XZ == FLAG_COMPRESS_XZ {
        let len = bpx.len();
        let start: usize = if header.pointer >= len as u64 {
            len
        } else {
            header.pointer as usize
        };
        let room = len - start;
        let end: usize = if header.csize as u64 <= room as u64 {
            start + header.csize as usize
        } else {
            len
        };
        let stream = slice_subrange(bpx, start, end);
        assert(stream@ =~= stored_stream(bpx@, *header));
        let r = finish_section(header, xz_decode(stream, header.size as usize));
        r
    } else {
        let data = read_block(bpx, header.pointer, header.size as usize);
        let r = finish_section(header, Some(data));
        r
    }
}

} // verus!
