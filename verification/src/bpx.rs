//! The container: main header, section header table and payloads.

use crate::checksum::add_chksum;
use crate::checksum::byte_sum;
use crate::checksum::checksum;
use crate::checksum::lemma_byte_sum_bound;
use crate::checksum::lemma_byte_sum_concat;
use crate::checksum::read_chksum;
use crate::checksum::wrapping_sum;
use crate::endian::read_u32;
use crate::endian::read_u64;
use crate::endian::u32_from_le;
use crate::endian::u32_to_le;
use crate::endian::u64_from_le;
use crate::endian::u64_to_le;
use crate::endian::write_u32;
use crate::endian::write_u64;
use crate::error::Error;
use crate::layout::append_bytes;
use crate::layout::lemma_padded_block_split;
use crate::layout::padded_block;
use crate::layout::read_block;
use crate::section::section_header_bytes;
use crate::section::section_header_of;
use crate::section::content;
use crate::section::create_section;
use crate::section::is_weak_checked;
use crate::section::is_xz;
use crate::section::lemma_section_header_round_trip;
use crate::section::saved_compressed;
use crate::section::saved_flags;
use crate::section::saved_payload;
use crate::section::stored_stream;
use crate::section::write_section;
use crate::section::open_section;
use crate::section::section_content;
use crate::section::BPXSectionHeader;
use crate::section::Section;
use crate::section::SectionStore;
use crate::section::HUGE_SECTION_SIZE;
use crate::section::FLAG_CHECK_CRC32;
use crate::section::FLAG_COMPRESS_ZLIB;
use crate::section::SIZE_SECTION_HEADER;
use crate::xz::xz_decoded;
use vstd::prelude::*;
use vstd::slice::slice_subrange;

verus! {

/// The size in bytes of the main header.
pub const SIZE_MAIN_HEADER: usize = 40;

/// The type of the section that holds the string table.
pub const STRING_SECTION_TYPE: u8 = 0xFF;

/// The only format version there is.
pub const BPX_VERSION: u32 = 1;

/// The main header of a container.
#[derive(Copy, Clone, Debug)]
pub struct BPXPMainHeader {
    /// The three bytes that open the container.
    pub signature: [u8; 3],
    /// What kind of container this is; the meaning is the caller's.
    pub btype: u8,
    /// The checksum over both kinds of header.
    pub chksum: u32,
    /// The size of the whole container in bytes.
    pub file_size: u64,
    /// How many sections the container holds.
    pub section_num: u32,
    /// The format version.
    pub version: u32,
    /// Sixteen bytes whose meaning depends on the kind of container.
    pub type_ext: [u8; 16],
}

/// The signature that opens every container: the letters `BPX`.
pub open spec fn bpx_signature() -> Seq<u8> {
    seq![0x42u8, 0x50u8, 0x58u8]
}

/// The sum of the bytes of a main header block but for the four bytes of
/// the checksum field.
pub open spec fn main_header_sum(block: Seq<u8>) -> nat
    recommends
        block.len() == SIZE_MAIN_HEADER,
{
    byte_sum(block.subrange(0, 4)) + byte_sum(block.subrange(8, 40))
}

/// Why a main header block is refused, if it is.
pub open spec fn main_header_fault(block: Seq<u8>) -> Option<Error>
    recommends
        block.len() == SIZE_MAIN_HEADER,
{
    if block.subrange(0, 3) != bpx_signature() {
        Some(Error::BadSignature)
    } else if u32_from_le(block.subrange(20, 24)) != BPX_VERSION {
        Some(Error::UnsupportedVersion(u32_from_le(block.subrange(20, 24))))
    } else {
        None
    }
}

impl BPXPMainHeader {
    /// The 40 bytes that stand for the header in the container.
    pub open spec fn bytes(&self) -> Seq<u8> {
        self.signature@ + seq![self.btype] + u32_to_le(self.chksum) + u64_to_le(
            self.file_size,
        ) + u32_to_le(self.section_num) + u32_to_le(self.version) + self.type_ext@
    }

    /// Whether this is the header that a block of 40 bytes stands for.
    pub open spec fn stands_in(&self, block: Seq<u8>) -> bool
        recommends
            block.len() == SIZE_MAIN_HEADER,
    {
        &&& self.signature@ == block.subrange(0, 3)
        &&& self.btype == block[3]
        &&& self.chksum == u32_from_le(block.subrange(4, 8))
        &&& self.file_size == u64_from_le(block.subrange(8, 16))
        &&& self.section_num == u32_from_le(block.subrange(16, 20))
        &&& self.version == u32_from_le(block.subrange(20, 24))
        &&& self.type_ext@ == block.subrange(24, 40)
    }

    /// A header stands in its own bytes, which are 40.
    pub proof fn lemma_stands_in_bytes(&self)
        ensures
            self.bytes().len() == SIZE_MAIN_HEADER,
            self.stands_in(self.bytes()),
    {
        let b = self.bytes();
        crate::endian::lemma_u32_le_round_trip(self.chksum);
        crate::endian::lemma_u64_le_round_trip(self.file_size);
        crate::endian::lemma_u32_le_round_trip(self.section_num);
        crate::endian::lemma_u32_le_round_trip(self.version);
        assert(self.signature@.len() == 3);
        assert(self.type_ext@.len() == 16);
        assert(b.subrange(0, 3) =~= self.signature@);
        assert(b.subrange(4, 8) =~= u32_to_le(self.chksum));
        assert(b.subrange(8, 16) =~= u64_to_le(self.file_size));
        assert(b.subrange(16, 20) =~= u32_to_le(self.section_num));
        assert(b.subrange(20, 24) =~= u32_to_le(self.version));
        assert(b.subrange(24, 40) =~= self.type_ext@);
    }

    /// Reads the main header from the first 40 bytes of `data`, together
    /// with the sum of its bytes but for the checksum field. Bytes past the
    /// end of `data` read as zero.
    ///
    /// The header is refused when its signature is not `BPX`, and failing
    /// that when its version is not 1. Nothing after the first 40 bytes
    /// plays a part.
    pub fn read(data: &[u8]) -> (r: Result<(u32, BPXPMainHeader), Error>)
        ensures
            match r {
                Ok((sum, head)) => {
                    &&& main_header_fault(padded_block(data@, 0, SIZE_MAIN_HEADER as nat)) is None
                    &&& sum == main_header_sum(padded_block(data@, 0, SIZE_MAIN_HEADER as nat))
                    &&& head.stands_in(padded_block(data@, 0, SIZE_MAIN_HEADER as nat))
                },
                Err(e) => main_header_fault(padded_block(data@, 0, SIZE_MAIN_HEADER as nat))
                    == Some(e),
            },
    {
        let buf = read_block(data, 0, SIZE_MAIN_HEADER);
        let low = read_chksum(slice_subrange(buf.as_slice(), 0, 4));
        let high = read_chksum(slice_subrange(buf.as_slice(), 8, 40));
        proof {
            lemma_byte_sum_bound(buf@.subrange(0, 4));
            lemma_byte_sum_bound(buf@.subrange(8, 40));
        }
        let sum: u32 = low + high;
        let head = BPXPMainHeader {
            signature: [buf[0], buf[1], buf[2]],
            btype: buf[3],
            chksum: read_u32(slice_subrange(buf.as_slice(), 4, 8)),
            file_size: read_u64(slice_subrange(buf.as_slice(), 8, 16)),
            section_num: read_u32(slice_subrange(buf.as_slice(), 16, 20)),
            version: read_u32(slice_subrange(buf.as_slice(), 20, 24)),
            type_ext: [
                buf[24],
                buf[25],
                buf[26],
                buf[27],
                buf[28],
                buf[29],
                buf[30],
                buf[31],
                buf[32],
                buf[33],
                buf[34],
                buf[35],
                buf[36],
                buf[37],
                buf[38],
                buf[39],
            ],
        };
        proof {
            assert(buf@.subrange(4, 8).subrange(0, 4) =~= buf@.subrange(4, 8));
            assert(buf@.subrange(8, 16).subrange(0, 8) =~= buf@.subrange(8, 16));
            assert(buf@.subrange(16, 20).subrange(0, 4) =~= buf@.subrange(16, 20));
            assert(buf@.subrange(20, 24).subrange(0, 4) =~= buf@.subrange(20, 24));
            assert(head.signature@ =~= buf@.subrange(0, 3));
            assert(head.type_ext@ =~= buf@.subrange(24, 40));
        }
        if head.signature[0] != 0x42 || head.signature[1] != 0x50 || head.signature[2] != 0x58 {
            assert(buf@.subrange(0, 3) != bpx_signature()) by {
                if buf@.subrange(0, 3) == bpx_signature() {
                    assert(bpx_signature()[0] == 0x42 && bpx_signature()[1] == 0x50
                        && bpx_signature()[2] == 0x58);
                }
            }
            return Err(Error::BadSignature);
        }
        assert(buf@.subrange(0, 3) =~= bpx_signature());
        if head.version != BPX_VERSION {
            return Err(Error::UnsupportedVersion(head.version));
        }
        Ok((sum, head))
    }

    /// The header of an empty package container: type `P`, version 1, no
    /// section, 40 bytes in all.
    pub fn new() -> (head: BPXPMainHeader)
        ensures
            head.signature@ == bpx_signature(),
            head.btype == 0x50,
            head.chksum == 0,
            head.file_size == SIZE_MAIN_HEADER,
            head.section_num == 0,
            head.version == BPX_VERSION,
            head.type_ext@ == Seq::new(16, |i: int| 0u8),
    {
        let head = BPXPMainHeader {
            signature: [0x42, 0x50, 0x58],
            btype: 0x50,
            chksum: 0,
            file_size: SIZE_MAIN_HEADER as u64,
            section_num: 0,
            version: BPX_VERSION,
            type_ext: [0u8; 16],
        };
        assert(head.signature@ =~= bpx_signature());
        assert(head.type_ext@ =~= Seq::new(16, |i: int| 0u8));
        head
    }

    /// The 40 bytes of this header.
    pub fn to_bytes(&self) -> (block: Vec<u8>)
        ensures
            block@ == self.bytes(),
            block@.len() == SIZE_MAIN_HEADER,
    {
        let mut block: Vec<u8> = Vec::new();
        let chksum = write_u32(self.chksum);
        let file_size = write_u64(self.file_size);
        let section_num = write_u32(self.section_num);
        let version = write_u32(self.version);
        append_bytes(&mut block, self.signature.as_slice());
        block.push(self.btype);
        append_bytes(&mut block, chksum.as_slice());
        append_bytes(&mut block, file_size.as_slice());
        append_bytes(&mut block, section_num.as_slice());
        append_bytes(&mut block, version.as_slice());
        append_bytes(&mut block, self.type_ext.as_slice());
        assert(block@ =~= self.bytes());
        block
    }

    /// The sum of the bytes of this header but for the checksum field.
    pub fn get_checksum(&self) -> (sum: u32)
        ensures
            sum == main_header_sum(self.bytes()),
    {
        let buf = self.to_bytes();
        let low = read_chksum(slice_subrange(buf.as_slice(), 0, 4));
        let high = read_chksum(slice_subrange(buf.as_slice(), 8, 40));
        proof {
            lemma_byte_sum_bound(buf@.subrange(0, 4));
            lemma_byte_sum_bound(buf@.subrange(8, 40));
        }
        low + high
    }

    /// Appends the 40 bytes of this header to the writer.
    pub fn write(&self, writer: &mut Vec<u8>)
        ensures
            final(writer)@ == old(writer)@ + self.bytes(),
    {
        let buf = self.to_bytes();
        append_bytes(writer, buf.as_slice());
    }
}

/// Why the flags of a section header are refused, if they are: the two
/// retired schemes are not read.
pub open spec fn flags_fault(flags: u8) -> Option<Error> {
    if flags & FLAG_COMPRESS_ZLIB == FLAG_COMPRESS_ZLIB {
        Some(Error::UnsupportedCompression)
    } else if flags & FLAG_CHECK_CRC32 == FLAG_CHECK_CRC32 {
        Some(Error::UnsupportedChecksum)
    } else {
        None
    }
}

/// The main header block of a container.
pub open spec fn main_block(file: Seq<u8>) -> Seq<u8> {
    padded_block(file, 0, SIZE_MAIN_HEADER as nat)
}

/// The number of sections that the main header announces.
pub open spec fn announced_sections(file: Seq<u8>) -> nat {
    u32_from_le(main_block(file).subrange(16, 20)) as nat
}

/// The checksum that the main header holds.
pub open spec fn announced_checksum(file: Seq<u8>) -> u32 {
    u32_from_le(main_block(file).subrange(4, 8))
}

/// The block of the section header table that holds its first `n` headers.
pub open spec fn table_block(file: Seq<u8>, n: nat) -> Seq<u8> {
    padded_block(file, SIZE_MAIN_HEADER as int, SIZE_SECTION_HEADER as nat * n)
}

/// The `i`-th header of the section header table.
pub open spec fn header_at(file: Seq<u8>, i: int) -> BPXSectionHeader {
    section_header_of(
        padded_block(file, SIZE_MAIN_HEADER + SIZE_SECTION_HEADER * i, SIZE_SECTION_HEADER as nat),
    )
}

/// The first `n` headers of the section header table.
pub open spec fn headers_of(file: Seq<u8>, n: nat) -> Seq<BPXSectionHeader> {
    Seq::new(n, |i: int| header_at(file, i))
}

/// Why the first `n` headers of the table are refused, if they are: the
/// fault of the first header that has one.
pub open spec fn table_fault(file: Seq<u8>, n: nat) -> Option<Error>
    decreases n,
{
    if n == 0 {
        None
    } else {
        match table_fault(file, (n - 1) as nat) {
            Some(e) => Some(e),
            None => flags_fault(header_at(file, n - 1).flags),
        }
    }
}

/// The checksum over the headers of a container: the bytes of the main
/// header but for its checksum field, and the bytes of the table.
pub open spec fn header_checksum(file: Seq<u8>) -> u32 {
    ((main_header_sum(main_block(file)) + byte_sum(table_block(file, announced_sections(file))))
        % 0x1_0000_0000) as u32
}

/// Why a container is refused, if it is. The main header is judged first,
/// then the flags of each section header in turn, then the checksum.
pub open spec fn container_fault(file: Seq<u8>) -> Option<Error> {
    if main_header_fault(main_block(file)) is Some {
        main_header_fault(main_block(file))
    } else if table_fault(file, announced_sections(file)) is Some {
        table_fault(file, announced_sections(file))
    } else if header_checksum(file) != announced_checksum(file) {
        Some(Error::HeaderChecksumMismatch)
    } else {
        None
    }
}

/// The first header of the given type, if there is one.
pub open spec fn first_of_type(headers: Seq<BPXSectionHeader>, btype: u8) -> Option<int>
    decreases headers.len(),
{
    if headers.len() == 0 {
        None
    } else {
        match first_of_type(headers.drop_last(), btype) {
            Some(i) => Some(i),
            None => if headers.last().btype == btype {
                Some(headers.len() - 1)
            } else {
                None
            },
        }
    }
}

/// What `first_of_type` finds is the first header of the type, and it finds
/// nothing only where there is none.
pub proof fn lemma_first_of_type(headers: Seq<BPXSectionHeader>, btype: u8)
    ensures
        match first_of_type(headers, btype) {
            Some(i) => {
                &&& 0 <= i < headers.len()
                &&& headers[i].btype == btype
                &&& forall|j: int| 0 <= j < i ==> headers[j].btype != btype
            },
            None => forall|j: int| 0 <= j < headers.len() ==> headers[j].btype != btype,
        },
    decreases headers.len(),
{
    if headers.len() > 0 {
        let front = headers.drop_last();
        lemma_first_of_type(front, btype);
        match first_of_type(front, btype) {
            Some(i) => {
                assert(front[i] == headers[i]);
                assert forall|j: int| 0 <= j < i implies headers[j].btype != btype by {
                    assert(front[j] == headers[j]);
                }
            },
            None => {
                assert forall|j: int| 0 <= j < front.len() implies headers[j].btype != btype by {
                    assert(front[j] == headers[j]);
                }
            },
        }
    }
}

/// A container that has been opened and found sound.
pub struct Decoder {
    /// The main header as read.
    pub main_header: BPXPMainHeader,
    sections: Vec<BPXSectionHeader>,
    file: Vec<u8>,
}

impl Decoder {
    /// The bytes of the container.
    pub closed spec fn file(&self) -> Seq<u8> {
        self.file@
    }

    /// The section header table.
    pub closed spec fn headers(&self) -> Seq<BPXSectionHeader> {
        self.sections@
    }

    /// The main header as read.
    pub closed spec fn header(&self) -> BPXPMainHeader {
        self.main_header
    }

    fn read_section_header_table(&mut self, checksum: u32) -> (r: Result<(), Error>)
        requires
            old(self).sections@.len() == 0,
            checksum == main_header_sum(main_block(old(self).file@)),
            old(self).main_header.section_num == announced_sections(old(self).file@),
            old(self).main_header.chksum == announced_checksum(old(self).file@),
        ensures
            final(self).file == old(self).file,
            final(self).main_header == old(self).main_header,
            match r {
                Ok(()) => {
                    &&& table_fault(old(self).file@, announced_sections(old(self).file@)) is None
                    &&& header_checksum(old(self).file@) == announced_checksum(old(self).file@)
                    &&& final(self).sections@ == headers_of(
                        old(self).file@,
                        announced_sections(old(self).file@),
                    )
                },
                Err(e) => {
                    ||| table_fault(old(self).file@, announced_sections(old(self).file@)) == Some(e)
                    ||| {
                        &&& table_fault(old(self).file@, announced_sections(old(self).file@)) is None
                        &&& header_checksum(old(self).file@) != announced_checksum(old(self).file@)
                        &&& e == Error::HeaderChecksumMismatch
                    }
                },
            },
    {
        let mut final_checksum = checksum;
        let num = self.main_header.section_num;
        let mut i: u32 = 0;
        proof {
            assert(table_block(self.file@, 0) =~= Seq::<u8>::empty());
        }
        while i < num
            invariant
                i <= num,
                num == announced_sections(self.file@),
                self.file == old(self).file,
                self.main_header == old(self).main_header,
                checksum == main_header_sum(main_block(self.file@)),
                self.sections@ == headers_of(self.file@, i as nat),
                table_fault(self.file@, i as nat) is None,
                final_checksum == ((checksum + byte_sum(table_block(self.file@, i as nat)))
                    % 0x1_0000_0000) as u32,
            decreases num - i,
        {
            let offset: u64 = SIZE_MAIN_HEADER as u64 + SIZE_SECTION_HEADER as u64 * (i as u64);
            let (sum, header) = BPXSectionHeader::read(self.file.as_slice(), offset);
            proof {
                assert(header == header_at(self.file@, i as int));
                reveal_with_fuel(table_fault, 2);
            }
            if header.flags & FLAG_COMPRESS_ZLIB == FLAG_COMPRESS_ZLIB {
                proof {
                    lemma_table_fault_stays(self.file@, (i + 1) as nat, num as nat);
                }
                return Err(Error::UnsupportedCompression);
            }
            if header.flags & FLAG_CHECK_CRC32 == FLAG_CHECK_CRC32 {
                proof {
                    lemma_table_fault_stays(self.file@, (i + 1) as nat, num as nat);
                }
                return Err(Error::UnsupportedChecksum);
            }
            proof {
                let before = table_block(self.file@, i as nat);
                let block = padded_block(
                    self.file@,
                    SIZE_MAIN_HEADER + SIZE_SECTION_HEADER * i,
                    SIZE_SECTION_HEADER as nat,
                );
                lemma_padded_block_split(
                    self.file@,
                    SIZE_MAIN_HEADER as int,
                    SIZE_SECTION_HEADER as nat * i as nat,
                    SIZE_SECTION_HEADER as nat,
                );
                assert(table_block(self.file@, (i + 1) as nat) == before + block);
                lemma_byte_sum_concat(before, block);
                lemma_byte_sum_bound(block);
                vstd::arithmetic::div_mod::lemma_add_mod_noop(
                    checksum + byte_sum(before),
                    byte_sum(block) as int,
                    0x1_0000_0000,
                );
                vstd::arithmetic::div_mod::lemma_small_mod(byte_sum(block), 0x1_0000_0000);
                vstd::arithmetic::div_mod::lemma_mod_twice(
                    checksum + byte_sum(before),
                    0x1_0000_0000,
                );
            }
            final_checksum = add_chksum(final_checksum, sum);
            self.sections.push(header);
            i += 1;
            assert(self.sections@ =~= headers_of(self.file@, i as nat));
        }
        if final_checksum != self.main_header.chksum {
            return Err(Error::HeaderChecksumMismatch);
        }
        Ok(())
    }

    /// The first section of the given type, in table order.
    pub fn find_section_by_type(&self, btype: u8) -> (r: Option<BPXSectionHeader>)
        ensures
            match r {
                Some(h) => first_of_type(self.headers(), btype) is Some && h == self.headers()[first_of_type(
                    self.headers(),
                    btype,
                )->0],
                None => first_of_type(self.headers(), btype) is None,
            },
    {
        let mut i: usize = 0;
        while i < self.sections.len()
            invariant
                i <= self.sections@.len(),
                first_of_type(self.sections@.subrange(0, i as int), btype) is None,
            decreases self.sections@.len() - i,
        {
            proof {
                assert(self.sections@.subrange(0, i + 1).drop_last() =~= self.sections@.subrange(
                    0,
                    i as int,
                ));
            }
            if self.sections[i].btype == btype {
                proof {
                    lemma_first_of_type_from(self.sections@, i as int, btype);
                }
                return Some(self.sections[i]);
            }
            i += 1;
        }
        assert(self.sections@.subrange(0, i as int) =~= self.sections@);
        None
    }

    /// All the sections of the given type, in table order.
    pub fn find_all_sections_of_type(&self, btype: u8) -> (v: Vec<BPXSectionHeader>)
        ensures
            v@ == self.headers().filter(|h: BPXSectionHeader| h.btype == btype),
    {
        let mut v: Vec<BPXSectionHeader> = Vec::new();
        let mut i: usize = 0;
        let ghost wanted = |h: BPXSectionHeader| h.btype == btype;
        assert(self.sections@.subrange(0, 0).filter(wanted) =~= Seq::<BPXSectionHeader>::empty())
            by {
            reveal(Seq::filter);
        }
        while i < self.sections.len()
            invariant
                i <= self.sections@.len(),
                wanted == (|h: BPXSectionHeader| h.btype == btype),
                v@ == self.sections@.subrange(0, i as int).filter(wanted),
            decreases self.sections@.len() - i,
        {
            proof {
                let next = self.sections@.subrange(0, i + 1);
                assert(next.drop_last() =~= self.sections@.subrange(0, i as int));
                reveal(Seq::filter);
            }
            if self.sections[i].btype == btype {
                v.push(self.sections[i]);
            }
            i += 1;
        }
        assert(self.sections@.subrange(0, i as int) =~= self.sections@);
        v
    }

    /// The section at the given place in the table, if the table is that
    /// long.
    pub fn find_section_by_index(&self, index: usize) -> (r: Option<BPXSectionHeader>)
        ensures
            r == if index < self.headers().len() {
                Some(self.headers()[index as int])
            } else {
                None
            },
    {
        if index < self.sections.len() {
            Some(self.sections[index])
        } else {
            None
        }
    }

    /// The section at the given place in the table.
    pub fn get_section_by_index(&self, index: usize) -> (h: BPXSectionHeader)
        requires
            index < self.headers().len(),
        ensures
            h == self.headers()[index as int],
    {
        self.sections[index]
    }

    /// How many sections the table holds.
    pub fn section_count(&self) -> (n: usize)
        ensures
            n == self.headers().len(),
    {
        self.sections.len()
    }

    /// The main header as read.
    pub fn get_main_header(&self) -> (head: BPXPMainHeader)
        ensures
            head == self.header(),
    {
        self.main_header
    }

    /// Opens a section of this container: see `section::open_section`.
    pub fn open_section(&self, section: &BPXSectionHeader) -> (r: Result<SectionStore, Error>)
        ensures
            match r {
                Ok(s) => {
                    &&& section_content(self.file(), *section) == Ok::<Seq<u8>, Error>(content(&s))
                    &&& s.wf()
                    &&& s.data() == content(&s)
                    &&& s.cursor() == 0
                    &&& (s is Scratch) == (section.size > HUGE_SECTION_SIZE)
                },
                Err(e) => section_content(self.file(), *section) == Err::<Seq<u8>, Error>(e) || (
                crate::section::is_xz(section.flags) && e == Error::Inflate),
            },
            !crate::section::is_xz(section.flags) ==> (r is Ok <==> section_content(
                self.file(),
                *section,
            ) is Ok),
    {
        open_section(self.file.as_slice(), section)
    }

    /// Opens the string table: the first section of type `0xFF`. Without
    /// such a section the error is `MissingStringSection`.
    pub fn load_string_section(&self) -> (r: Result<SectionStore, Error>)
        ensures
            first_of_type(self.headers(), STRING_SECTION_TYPE) is None ==> r == Err::<
                SectionStore,
                Error,
            >(Error::MissingStringSection),
            first_of_type(self.headers(), STRING_SECTION_TYPE) matches Some(i) ==> match r {
                Ok(s) => {
                    &&& section_content(self.file(), self.headers()[i]) == Ok::<Seq<u8>, Error>(
                        content(&s),
                    )
                    &&& s.wf()
                    &&& s.data() == content(&s)
                    &&& s.cursor() == 0
                },
                Err(e) => section_content(self.file(), self.headers()[i]) == Err::<Seq<u8>, Error>(
                    e,
                ) || (crate::section::is_xz(self.headers()[i].flags) && e == Error::Inflate),
            },
    {
        match self.find_section_by_type(STRING_SECTION_TYPE) {
            Some(section) => self.open_section(&section),
            None => Err(Error::MissingStringSection),
        }
    }

    /// Opens a container: reads and checks the main header, then the section
    /// header table, then the checksum over both.
    ///
    /// The container is taken if and only if `container_fault` finds nothing
    /// against it, and is refused with the error that `container_fault`
    /// names.
    pub fn new(file: Vec<u8>) -> (r: Result<Decoder, Error>)
        ensures
            match r {
                Ok(d) => {
                    &&& container_fault(file@) is None
                    &&& d.file() == file@
                    &&& d.header().stands_in(main_block(file@))
                    &&& d.headers() == headers_of(file@, announced_sections(file@))
                },
                Err(e) => container_fault(file@) == Some(e),
            },
    {
        let (checksum, header) = match BPXPMainHeader::read(file.as_slice()) {
            Ok(v) => v,
            Err(e) => {
                return Err(e);
            },
        };
        let mut decoder = Decoder { file: file, main_header: header, sections: Vec::new() };
        match decoder.read_section_header_table(checksum) {
            Ok(()) => Ok(decoder),
            Err(e) => Err(e),
        }
    }
}

/// A fault among the first headers of the table is the fault of every longer
/// stretch of it.
pub proof fn lemma_table_fault_stays(file: Seq<u8>, n: nat, m: nat)
    requires
        n <= m,
        table_fault(file, n) is Some,
    ensures
        table_fault(file, m) == table_fault(file, n),
    decreases m - n,
{
    if n < m {
        lemma_table_fault_stays(file, n, (m - 1) as nat);
    }
}

/// Where a stretch of the table holds no header of the type, the first one
/// of a longer stretch is the next header or lies behind it.
proof fn lemma_first_of_type_from(headers: Seq<BPXSectionHeader>, i: int, btype: u8)
    requires
        0 <= i < headers.len(),
        first_of_type(headers.subrange(0, i), btype) is None,
        headers[i].btype == btype,
    ensures
        first_of_type(headers, btype) == Some(i),
    decreases headers.len() - i,
{
    if i == headers.len() - 1 {
        assert(headers.drop_last() =~= headers.subrange(0, i));
    } else {
        assert(headers.drop_last().subrange(0, i) =~= headers.subrange(0, i));
        lemma_first_of_type_from(headers.drop_last(), i, btype);
    }
}

/// The bytes of a section header table.
pub open spec fn table_bytes(headers: Seq<BPXSectionHeader>) -> Seq<u8>
    decreases headers.len(),
{
    if headers.len() == 0 {
        Seq::empty()
    } else {
        table_bytes(headers.drop_last()) + section_header_bytes(headers.last())
    }
}

/// The payloads of sections with the given contents, one after the other.
pub open spec fn payloads(contents: Seq<Seq<u8>>) -> Seq<u8>
    decreases contents.len(),
{
    if contents.len() == 0 {
        Seq::empty()
    } else {
        payloads(contents.drop_last()) + saved_payload(contents.last())
    }
}

/// Where the payloads of a container of `n` sections start.
pub open spec fn payload_base(n: nat) -> nat {
    SIZE_MAIN_HEADER as nat + SIZE_SECTION_HEADER as nat * n
}

/// Whether the payload area of a container holds a section with the given
/// content where the header says: the flags are ones that a decoder takes,
/// the payload lies inside the area, and it is the content itself or an XZ
/// stream of it, with the content's checksum in the header. `base` is the
/// offset of the payload area in the container.
pub open spec fn carries(
    area: Seq<u8>,
    base: nat,
    header: BPXSectionHeader,
    content: Seq<u8>,
) -> bool {
    &&& flags_fault(header.flags) is None
    &&& is_weak_checked(header.flags) ==> header.chksum == checksum(content)
    &&& header.pointer >= base
    &&& if is_xz(header.flags) {
        &&& header.pointer - base + header.csize <= area.len()
        &&& xz_decoded(
            area.subrange(header.pointer - base, header.pointer - base + header.csize),
        ) == Some(content)
    } else {
        &&& header.size == content.len()
        &&& header.pointer - base + header.size <= area.len()
        &&& area.subrange(header.pointer - base, header.pointer - base + header.size) == content
    }
}

/// What the payload area carries, it still carries when more is appended.
pub proof fn lemma_carries_appended(
    area: Seq<u8>,
    more: Seq<u8>,
    base: nat,
    header: BPXSectionHeader,
    content: Seq<u8>,
)
    requires
        carries(area, base, header, content),
    ensures
        carries(area + more, base, header, content),
{
    let off = header.pointer - base;
    if is_xz(header.flags) {
        assert((area + more).subrange(off, off + header.csize) =~= area.subrange(
            off,
            off + header.csize,
        ));
    } else {
        assert((area + more).subrange(off, off + header.size) =~= area.subrange(
            off,
            off + header.size,
        ));
    }
}

/// A table of `n` headers takes `24 * n` bytes, and each header's bytes
/// stand at its place.
pub proof fn lemma_table_bytes(headers: Seq<BPXSectionHeader>)
    ensures
        table_bytes(headers).len() == SIZE_SECTION_HEADER * headers.len(),
        forall|k: int|
            0 <= k < headers.len() ==> #[trigger] table_bytes(headers).subrange(
                SIZE_SECTION_HEADER * k,
                SIZE_SECTION_HEADER * k + SIZE_SECTION_HEADER,
            ) == section_header_bytes(headers[k]),
    decreases headers.len(),
{
    if headers.len() > 0 {
        let front = headers.drop_last();
        lemma_table_bytes(front);
        lemma_section_header_round_trip(headers.last());
        let t = table_bytes(headers);
        assert forall|k: int| 0 <= k < headers.len() implies #[trigger] t.subrange(
            SIZE_SECTION_HEADER * k,
            SIZE_SECTION_HEADER * k + SIZE_SECTION_HEADER,
        ) == section_header_bytes(headers[k]) by {
            if k < front.len() {
                assert(front[k] == headers[k]);
                assert(t.subrange(24 * k, 24 * k + 24) =~= table_bytes(front).subrange(
                    24 * k,
                    24 * k + 24,
                ));
            } else {
                assert(t.subrange(24 * k, 24 * k + 24) =~= section_header_bytes(headers.last()));
            }
        }
    }
}

/// The sum over a main header's bytes, but for its checksum field, does not
/// depend on the checksum that the header holds.
pub proof fn lemma_main_header_sum_ignores_chksum(a: BPXPMainHeader, b: BPXPMainHeader)
    requires
        a.signature@ == b.signature@,
        a.btype == b.btype,
        a.file_size == b.file_size,
        a.section_num == b.section_num,
        a.version == b.version,
        a.type_ext@ == b.type_ext@,
    ensures
        main_header_sum(a.bytes()) == main_header_sum(b.bytes()),
{
    assert(a.signature@.len() == 3);
    assert(b.signature@.len() == 3);
    assert(a.bytes().subrange(0, 4) =~= b.bytes().subrange(0, 4));
    assert(a.bytes().subrange(8, 40) =~= b.bytes().subrange(8, 40));
}

/// The blocks of a container that is a 40-byte head, a table and an area:
/// each part reads back from its place.
proof fn lemma_container_blocks(head: Seq<u8>, table: Seq<u8>, area: Seq<u8>)
    requires
        head.len() == SIZE_MAIN_HEADER,
    ensures
        main_block(head + table + area) == head,
        padded_block(head + table + area, SIZE_MAIN_HEADER as int, table.len()) == table,
        forall|a: int, b: int|
            0 <= a <= b <= table.len() ==> #[trigger] padded_block(
                head + table + area,
                SIZE_MAIN_HEADER + a,
                (b - a) as nat,
            ) == table.subrange(a, b),
        forall|a: int, b: int|
            0 <= a <= b <= area.len() ==> #[trigger] (head + table + area).subrange(
                SIZE_MAIN_HEADER + table.len() + a,
                SIZE_MAIN_HEADER + table.len() + b,
            ) == area.subrange(a, b),
{
    let file = head + table + area;
    assert(main_block(file) =~= head);
    assert(padded_block(file, SIZE_MAIN_HEADER as int, table.len()) =~= table);
    assert forall|a: int, b: int| 0 <= a <= b <= table.len() implies #[trigger] padded_block(
        file,
        SIZE_MAIN_HEADER + a,
        (b - a) as nat,
    ) == table.subrange(a, b) by {
        assert(padded_block(file, SIZE_MAIN_HEADER + a, (b - a) as nat) =~= table.subrange(a, b));
    }
    assert forall|a: int, b: int| 0 <= a <= b <= area.len() implies #[trigger] file.subrange(
        SIZE_MAIN_HEADER + table.len() + a,
        SIZE_MAIN_HEADER + table.len() + b,
    ) == area.subrange(a, b) by {
        assert(file.subrange(
            SIZE_MAIN_HEADER + table.len() + a,
            SIZE_MAIN_HEADER + table.len() + b,
        ) =~= area.subrange(a, b));
    }
}

/// The section that a container holds for a header whose content the payload
/// area carries is that content.
proof fn lemma_carried_section_reads_back(
    file: Seq<u8>,
    area: Seq<u8>,
    base: nat,
    h: BPXSectionHeader,
    c: Seq<u8>,
)
    requires
        carries(area, base, h, c),
        file.len() == base + area.len(),
        forall|a: int, b: int|
            0 <= a <= b <= area.len() ==> #[trigger] file.subrange(base + a, base + b)
                == area.subrange(a, b),
    ensures
        section_content(file, h) == Ok::<Seq<u8>, Error>(c),
{
    let off = h.pointer - base;
    if is_xz(h.flags) {
        assert(file.subrange(base + off, base + (off + h.csize)) == area.subrange(
            off,
            off + h.csize,
        ));
        assert(stored_stream(file, h) =~= area.subrange(off, off + h.csize));
    } else {
        assert(file.subrange(base + off, base + (off + h.size)) == area.subrange(
            off,
            off + h.size,
        ));
        crate::layout::lemma_padded_block_inside(file, h.pointer as int, h.size as nat);
        assert(padded_block(file, h.pointer as int, h.size as nat) == c);
    }
}

/// A container reads back: where a main header with the right signature,
/// version, section count and checksum is followed by a table of headers and
/// a payload area that carries a content for each header, the container is
/// sound, its table is the table of headers, and every section has the
/// content that the area carries for it.
pub proof fn lemma_container_reads_back(
    head: BPXPMainHeader,
    headers: Seq<BPXSectionHeader>,
    area: Seq<u8>,
    contents: Seq<Seq<u8>>,
)
    requires
        head.signature@ == bpx_signature(),
        head.version == BPX_VERSION,
        head.section_num == headers.len(),
        headers.len() == contents.len(),
        head.chksum == ((main_header_sum(head.bytes()) + byte_sum(table_bytes(headers)))
            % 0x1_0000_0000) as u32,
        forall|k: int|
            0 <= k < headers.len() ==> #[trigger] carries(
                area,
                payload_base(headers.len()),
                headers[k],
                contents[k],
            ),
    ensures
        container_fault(head.bytes() + table_bytes(headers) + area) is None,
        head.stands_in(main_block(head.bytes() + table_bytes(headers) + area)),
        announced_sections(head.bytes() + table_bytes(headers) + area) == headers.len(),
        headers_of(head.bytes() + table_bytes(headers) + area, headers.len()) == headers,
        forall|k: int|
            0 <= k < headers.len() ==> #[trigger] section_content(
                head.bytes() + table_bytes(headers) + area,
                headers[k],
            ) == Ok::<Seq<u8>, Error>(contents[k]),
{
    let n = headers.len();
    let table = table_bytes(headers);
    let file = head.bytes() + table + area;
    let base = payload_base(n);
    head.lemma_stands_in_bytes();
    lemma_table_bytes(headers);
    lemma_container_blocks(head.bytes(), table, area);
    assert(table_block(file, n) == table);
    assert forall|k: int| 0 <= k < n implies header_at(file, k) == headers[k] by {
        assert(table.subrange(24 * k, 24 * k + 24) == section_header_bytes(headers[k]));
        assert(padded_block(file, 40 + 24 * k, (24 * k + 24 - 24 * k) as nat) == table.subrange(
            24 * k,
            24 * k + 24,
        ));
        lemma_section_header_round_trip(headers[k]);
    }
    assert(headers_of(file, n) =~= headers);
    lemma_no_table_fault(file, headers, base, area, contents, n);
    assert forall|k: int| 0 <= k < n implies #[trigger] section_content(file, headers[k]) == Ok::<
        Seq<u8>,
        Error,
    >(contents[k]) by {
        assert(carries(area, base, headers[k], contents[k]));
        lemma_carried_section_reads_back(file, area, base, headers[k], contents[k]);
    }
}

/// Where the area carries a content for each of the first `m` headers, none
/// of them has a fault.
proof fn lemma_no_table_fault(
    file: Seq<u8>,
    headers: Seq<BPXSectionHeader>,
    base: nat,
    area: Seq<u8>,
    contents: Seq<Seq<u8>>,
    m: nat,
)
    requires
        m <= headers.len(),
        headers.len() == contents.len(),
        forall|k: int| 0 <= k < headers.len() ==> header_at(file, k) == headers[k],
        forall|k: int|
            0 <= k < headers.len() ==> #[trigger] carries(area, base, headers[k], contents[k]),
    ensures
        table_fault(file, m) is None,
    decreases m,
{
    if m > 0 {
        lemma_no_table_fault(file, headers, base, area, contents, (m - 1) as nat);
        assert(carries(area, base, headers[m - 1], contents[m - 1]));
    }
}

/// Whether a header is the one that saving gives the `k`-th of the sections
/// with the given contents: the payload stands behind those of the sections
/// before it, and size, checksum and flags are those of the content.
pub open spec fn is_saved_header(
    header: BPXSectionHeader,
    contents: Seq<Seq<u8>>,
    k: int,
    btype: u8,
) -> bool {
    &&& header.pointer == payload_base(contents.len()) + payloads(contents.take(k)).len()
    &&& header.csize == saved_payload(contents[k]).len()
    &&& header.size == contents[k].len()
    &&& header.chksum == checksum(contents[k])
    &&& header.btype == btype
    &&& header.flags == saved_flags(contents[k])
}

/// Whether sections with the given contents fit the size fields of the
/// format: 32 bits for a content and for a payload, 64 for the container.
pub open spec fn fits_format(contents: Seq<Seq<u8>>) -> bool {
    &&& payload_base(contents.len()) + payloads(contents).len() <= u64::MAX
    &&& forall|k: int|
        0 <= k < contents.len() ==> (#[trigger] contents[k]).len() <= u32::MAX && saved_payload(
            contents[k],
        ).len() <= u32::MAX
}

/// Whether one of the contents is long enough to be compressed.
pub open spec fn any_compressed(contents: Seq<Seq<u8>>) -> bool {
    exists|k: int| 0 <= k < contents.len() && saved_compressed((#[trigger] contents[k]).len())
}

/// The payloads of the first sections are a part of the payloads of all.
pub proof fn lemma_payloads_prefix(contents: Seq<Seq<u8>>, k: int)
    requires
        0 <= k <= contents.len(),
    ensures
        payloads(contents.take(k)).len() <= payloads(contents).len(),
    decreases contents.len() - k,
{
    if k < contents.len() {
        assert(contents.drop_last().take(k) =~= contents.take(k));
        lemma_payloads_prefix(contents.drop_last(), k);
    } else {
        assert(contents.take(k) =~= contents);
    }
}

/// The flags that saving sets are flags that a decoder takes.
pub proof fn lemma_saved_flags(content: Seq<u8>)
    ensures
        flags_fault(saved_flags(content)) is None,
        is_weak_checked(saved_flags(content)),
        is_xz(saved_flags(content)) == saved_compressed(content.len()),
{
    assert(0x8u8 & 0x1u8 != 0x1u8 && 0x8u8 & 0x4u8 != 0x4u8 && 0x8u8 & 0x8u8 == 0x8u8 && 0x8u8
        & 0x2u8 != 0x2u8) by (bit_vector);
    assert(0xAu8 & 0x1u8 != 0x1u8 && 0xAu8 & 0x4u8 != 0x4u8 && 0xAu8 & 0x8u8 == 0x8u8 && 0xAu8
        & 0x2u8 == 0x2u8) by (bit_vector);
}

/// The contents of a row of sections.
pub open spec fn contents_of(stores: Seq<SectionStore>) -> Seq<Seq<u8>> {
    Seq::new(stores.len(), |i: int| content(&stores[i]))
}

/// How far each of a row of sections can be written.
pub open spec fn limits_of(stores: Seq<SectionStore>) -> Seq<nat> {
    Seq::new(stores.len(), |i: int| stores[i].limit())
}

/// Replacing a section by one with the same limit leaves the limits as they
/// are.
proof fn lemma_limits_kept(stores: Seq<SectionStore>, i: int, section: SectionStore)
    requires
        0 <= i < stores.len(),
        section.limit() == stores[i].limit(),
    ensures
        limits_of(stores.update(i, section)) == limits_of(stores),
{
    assert(limits_of(stores.update(i, section)) =~= limits_of(stores));
}

/// Replacing a section by one with the same content leaves the contents as
/// they are.
proof fn lemma_contents_kept(stores: Seq<SectionStore>, i: int, section: SectionStore)
    requires
        0 <= i < stores.len(),
        content(&section) == content(&stores[i]),
    ensures
        contents_of(stores.update(i, section)) == contents_of(stores),
{
    assert(contents_of(stores.update(i, section)) =~= contents_of(stores));
}

/// Adding the byte sum of one more header to the running sum of a table
/// gives the running sum of the longer table.
proof fn lemma_table_sum_step(before: Seq<BPXSectionHeader>, header: BPXSectionHeader, acc: u32)
    requires
        acc == (byte_sum(table_bytes(before)) % 0x1_0000_0000) as u32,
    ensures
        byte_sum(section_header_bytes(header)) <= u32::MAX,
        wrapping_sum(acc, byte_sum(section_header_bytes(header)) as u32) == (byte_sum(
            table_bytes(before.push(header)),
        ) % 0x1_0000_0000) as u32,
{
    let bytes = section_header_bytes(header);
    assert(before.push(header).drop_last() =~= before);
    lemma_byte_sum_concat(table_bytes(before), bytes);
    lemma_byte_sum_bound(bytes);
    lemma_section_header_round_trip(header);
    vstd::arithmetic::div_mod::lemma_add_mod_noop(
        byte_sum(table_bytes(before)) as int,
        byte_sum(bytes) as int,
        0x1_0000_0000,
    );
    vstd::arithmetic::div_mod::lemma_small_mod(byte_sum(bytes), 0x1_0000_0000);
}

/// The checksum of a main header, put together from the running sum of the
/// table and the header's own sum, is the checksum over all headers.
proof fn lemma_header_total(head: BPXPMainHeader, table: Seq<u8>, acc: u32, own: u32)
    requires
        acc == (byte_sum(table) % 0x1_0000_0000) as u32,
        own == main_header_sum(head.bytes()),
    ensures
        wrapping_sum(acc, own) == ((main_header_sum(head.bytes()) + byte_sum(table))
            % 0x1_0000_0000) as u32,
{
    vstd::arithmetic::div_mod::lemma_add_mod_noop(
        byte_sum(table) as int,
        own as int,
        0x1_0000_0000,
    );
    vstd::arithmetic::div_mod::lemma_small_mod(own as nat, 0x1_0000_0000);
}

/// Whether the first `i` sections have been framed: their headers are the
/// saved ones and the area carries their contents, while the headers behind
/// them are untouched.
pub open spec fn framed_upto(
    sections: Seq<BPXSectionHeader>,
    headers0: Seq<BPXSectionHeader>,
    contents: Seq<Seq<u8>>,
    area: Seq<u8>,
    i: int,
) -> bool {
    &&& sections.len() == headers0.len()
    &&& contents.len() == headers0.len()
    &&& 0 <= i <= headers0.len()
    &&& area == payloads(contents.take(i))
    &&& forall|k: int| i <= k < sections.len() ==> #[trigger] sections[k] == headers0[k]
    &&& forall|k: int|
        0 <= k < i ==> #[trigger] is_saved_header(sections[k], contents, k, headers0[k].btype)
    &&& forall|k: int|
        0 <= k < i ==> #[trigger] carries(
            area,
            payload_base(contents.len()),
            sections[k],
            contents[k],
        )
}

/// Framing one more section keeps what was framed before.
proof fn lemma_frame_step(
    sections: Seq<BPXSectionHeader>,
    headers0: Seq<BPXSectionHeader>,
    contents: Seq<Seq<u8>>,
    area: Seq<u8>,
    i: int,
    header: BPXSectionHeader,
)
    requires
        framed_upto(sections, headers0, contents, area, i),
        i < headers0.len(),
        header.pointer == payload_base(contents.len()) + area.len(),
        header.csize == saved_payload(contents[i]).len(),
        header.size == contents[i].len(),
        header.chksum == checksum(contents[i]),
        header.btype == headers0[i].btype,
        header.flags == saved_flags(contents[i]),
        carries(
            area + saved_payload(contents[i]),
            payload_base(contents.len()),
            header,
            contents[i],
        ),
    ensures
        framed_upto(
            sections.update(i, header),
            headers0,
            contents,
            area + saved_payload(contents[i]),
            i + 1,
        ),
{
    let base = payload_base(contents.len());
    let c = contents[i];
    let after = sections.update(i, header);
    let area1 = area + saved_payload(c);
    let next = contents.take(i + 1);
    assert(next.drop_last() =~= contents.take(i));
    assert(next.last() == c);
    assert forall|k: int| 0 <= k < i + 1 implies #[trigger] carries(
        area1,
        base,
        after[k],
        contents[k],
    ) by {
        if k < i {
            assert(carries(area, base, sections[k], contents[k]));
            lemma_carries_appended(area, saved_payload(c), base, sections[k], contents[k]);
        }
    }
    assert forall|k: int| 0 <= k < i + 1 implies #[trigger] is_saved_header(
        after[k],
        contents,
        k,
        headers0[k].btype,
    ) by {
        if k < i {
            assert(is_saved_header(sections[k], contents, k, headers0[k].btype));
        }
    }
    assert forall|k: int| i + 1 <= k < after.len() implies #[trigger] after[k] == headers0[k] by {
        assert(sections[k] == headers0[k]);
    }
}

/// Frames one section behind the payloads that the area holds already, and
/// returns the header that describes it there.
fn frame_section(section: &mut SectionStore, area: &mut Vec<u8>, base: u64, btype: u8) -> (r:
    Result<BPXSectionHeader, Error>)
    requires
        old(section).wf(),
        base + old(area)@.len() <= u64::MAX,
    ensures
        final(section).wf(),
        final(section).limit() == old(section).limit(),
        content(final(section)) == content(old(section)),
        match r {
            Ok(h) => {
                &&& final(area)@ == old(area)@ + saved_payload(content(old(section)))
                &&& base + final(area)@.len() <= u64::MAX
                &&& h.pointer == base + old(area)@.len()
                &&& h.csize == saved_payload(content(old(section))).len()
                &&& h.size == content(old(section)).len()
                &&& h.chksum == checksum(content(old(section)))
                &&& h.btype == btype
                &&& h.flags == saved_flags(content(old(section)))
                &&& carries(final(area)@, base as nat, h, content(old(section)))
            },
            Err(e) => {
                ||| e == Error::Deflate && saved_compressed(content(old(section)).len())
                ||| {
                    &&& e == Error::SectionTooLarge
                    &&& (content(old(section)).len() > u32::MAX || saved_payload(
                        content(old(section)),
                    ).len() > u32::MAX || base + old(area)@.len() + saved_payload(
                        content(old(section)),
                    ).len() > u64::MAX)
                }
            },
        },
{
    let ghost c = content(section);
    proof {
        section.lemma_size_in_data();
    }
    let size = section.size();
    if size > u32::MAX as usize {
        return Err(Error::SectionTooLarge);
    }
    let pointer: u64 = base + area.len() as u64;
    let ghost area0 = area@;
    let (csize, chksum, flags) = match write_section(section, area) {
        Ok(v) => v,
        Err(e) => {
            return Err(e);
        },
    };
    proof {
        section.lemma_size_in_data();
        assert(content(section) =~= c);
    }
    if csize > u32::MAX as usize {
        return Err(Error::SectionTooLarge);
    }
    if area.len() as u64 > u64::MAX - base {
        return Err(Error::SectionTooLarge);
    }
    let header = BPXSectionHeader {
        pointer: pointer,
        csize: csize as u32,
        size: size as u32,
        chksum: chksum,
        btype: btype,
        flags: flags,
    };
    proof {
        lemma_saved_flags(c);
        let off = area0.len() as int;
        assert(area@.subrange(off, off + csize) =~= saved_payload(c));
    }
    Ok(header)
}

/// What holds of a container that was put together from a sealed main
/// header, the headers of framed sections and their payload area.
proof fn lemma_saved_container(
    head: BPXPMainHeader,
    headers: Seq<BPXSectionHeader>,
    headers0: Seq<BPXSectionHeader>,
    contents: Seq<Seq<u8>>,
    area: Seq<u8>,
)
    requires
        head.signature@ == bpx_signature(),
        head.version == BPX_VERSION,
        head.section_num == headers.len(),
        head.chksum == ((main_header_sum(head.bytes()) + byte_sum(table_bytes(headers)))
            % 0x1_0000_0000) as u32,
        framed_upto(headers, headers0, contents, area, headers0.len() as int),
    ensures
        area == payloads(contents),
        (head.bytes() + table_bytes(headers) + area).len() == payload_base(headers.len())
            + area.len(),
        head.chksum == header_checksum(head.bytes() + table_bytes(headers) + area),
        forall|k: int|
            0 <= k < headers0.len() ==> #[trigger] is_saved_header(
                headers[k],
                contents,
                k,
                headers0[k].btype,
            ),
        container_fault(head.bytes() + table_bytes(headers) + area) is None,
        head.stands_in(main_block(head.bytes() + table_bytes(headers) + area)),
        headers_of(
            head.bytes() + table_bytes(headers) + area,
            announced_sections(head.bytes() + table_bytes(headers) + area),
        ) == headers,
        forall|k: int|
            0 <= k < headers0.len() ==> #[trigger] section_content(
                head.bytes() + table_bytes(headers) + area,
                headers[k],
            ) == Ok::<Seq<u8>, Error>(contents[k]),
{
    let n = headers.len();
    assert(contents.take(n as int) =~= contents);
    lemma_container_reads_back(head, headers, area, contents);
    lemma_table_bytes(headers);
    head.lemma_stands_in_bytes();
    lemma_container_blocks(head.bytes(), table_bytes(headers), area);
    let file = head.bytes() + table_bytes(headers) + area;
    assert(table_block(file, n) == table_bytes(headers));
}

/// A container in the making: a main header and sections to fill.
pub struct Encoder {
    /// The main header. `save` fills in its size, count and checksum.
    pub main_header: BPXPMainHeader,
    sections: Vec<BPXSectionHeader>,
    sections_data: Vec<SectionStore>,
}

impl Encoder {
    /// The section headers, in the order in which the sections were added.
    pub closed spec fn headers(&self) -> Seq<BPXSectionHeader> {
        self.sections@
    }

    /// The storage of the sections, in the same order.
    pub closed spec fn stores(&self) -> Seq<SectionStore> {
        self.sections_data@
    }

    /// The main header.
    pub closed spec fn header(&self) -> BPXPMainHeader {
        self.main_header
    }

    /// The contents of the sections.
    pub open spec fn contents(&self) -> Seq<Seq<u8>> {
        contents_of(self.stores())
    }

    /// What `save` relies on: a header and a storage for every section, at
    /// most `u32::MAX` of them, and a main header that a decoder will take.
    pub open spec fn wf(&self) -> bool {
        &&& self.headers().len() == self.stores().len()
        &&& self.headers().len() <= u32::MAX
        &&& self.header().signature@ == bpx_signature()
        &&& self.header().version == BPX_VERSION
        &&& forall|i: int| 0 <= i < self.stores().len() ==> (#[trigger] self.stores()[i]).wf()
    }

    /// An encoder for a package container without sections.
    pub fn new() -> (e: Encoder)
        ensures
            e.wf(),
            e.headers().len() == 0,
            e.header().btype == 0x50,
            e.header().section_num == 0,
            e.header().file_size == SIZE_MAIN_HEADER,
            e.header().chksum == 0,
            e.header().type_ext@ == Seq::new(16, |i: int| 0u8),
    {
        Encoder { main_header: BPXPMainHeader::new(), sections: Vec::new(), sections_data: Vec::new() }
    }

    /// Adds an empty section of the given type and returns its index. `size`
    /// is the size that the content is expected to reach, or 0 where it is
    /// not known; it decides where the section is stored.
    pub fn add_section(&mut self, btype: u8, size: u32) -> (r: Result<usize, Error>)
        requires
            old(self).wf(),
        ensures
            final(self).wf(),
            match r {
                Ok(index) => {
                    &&& old(self).headers().len() < u32::MAX
                    &&& index == old(self).headers().len()
                    &&& final(self).headers() == old(self).headers().push(
                        BPXSectionHeader {
                            pointer: 0,
                            csize: 0,
                            size: size,
                            chksum: 0,
                            btype: btype,
                            flags: crate::section::FLAG_CHECK_WEAK,
                        },
                    )
                    &&& final(self).stores().len() == index + 1
                    &&& final(self).stores().subrange(0, index as int) == old(self).stores()
                    &&& (final(self).stores()[index as int] is Scratch)
                        == crate::section::created_in_scratch(size)
                    &&& final(self).stores()[index as int].spec_size() == 0
                    &&& final(self).stores()[index as int].cursor() == 0
                    &&& final(self).stores()[index as int].limit() == if crate::section::created_in_scratch(
                        size,
                    ) {
                        usize::MAX as nat
                    } else {
                        size as nat
                    }
                    &&& final(self).header().section_num == index + 1
                    &&& final(self).header().btype == old(self).header().btype
                    &&& final(self).header().type_ext == old(self).header().type_ext
                },
                Err(e) => {
                    &&& e == Error::TooManySections
                    &&& old(self).headers().len() == u32::MAX
                    &&& *final(self) == *old(self)
                },
            },
    {
        let count = self.sections.len();
        if count >= u32::MAX as usize {
            return Err(Error::TooManySections);
        }
        let header = BPXSectionHeader::new(size, btype);
        let section = create_section(&header);
        self.sections.push(header);
        self.sections_data.push(section);
        self.main_header.section_num = (count + 1) as u32;
        assert(self.sections_data@.subrange(0, count as int) =~= old(self).sections_data@);
        Ok(count)
    }

    /// The index of the first section of the given type.
    pub fn find_section_by_type(&self, btype: u8) -> (r: Option<usize>)
        ensures
            match r {
                Some(i) => first_of_type(self.headers(), btype) == Some(i as int),
                None => first_of_type(self.headers(), btype) is None,
            },
    {
        let mut i: usize = 0;
        while i < self.sections.len()
            invariant
                i <= self.sections@.len(),
                first_of_type(self.sections@.subrange(0, i as int), btype) is None,
            decreases self.sections@.len() - i,
        {
            proof {
                assert(self.sections@.subrange(0, i + 1).drop_last() =~= self.sections@.subrange(
                    0,
                    i as int,
                ));
            }
            if self.sections[i].btype == btype {
                proof {
                    lemma_first_of_type_from(self.sections@, i as int, btype);
                }
                return Some(i);
            }
            i += 1;
        }
        assert(self.sections@.subrange(0, i as int) =~= self.sections@);
        None
    }

    /// How many sections have been added.
    pub fn section_count(&self) -> (n: usize)
        ensures
            n == self.headers().len(),
    {
        self.sections.len()
    }

    /// Frames every section into a payload area and brings its header up to
    /// date. Returns the area and the sum of the bytes of the header table.
    fn write_compress_sections(&mut self) -> (r: Result<(Vec<u8>, u32), Error>)
        requires
            old(self).wf(),
        ensures
            final(self).wf(),
            final(self).header() == old(self).header(),
            final(self).headers().len() == old(self).headers().len(),
            final(self).contents() == old(self).contents(),
            limits_of(final(self).stores()) == limits_of(old(self).stores()),
            match r {
                Ok((area, sum)) => {
                    &&& sum == (byte_sum(table_bytes(final(self).headers())) % 0x1_0000_0000) as u32
                    &&& payload_base(old(self).headers().len()) + area@.len() <= u64::MAX
                    &&& framed_upto(
                        final(self).headers(),
                        old(self).headers(),
                        old(self).contents(),
                        area@,
                        old(self).headers().len() as int,
                    )
                },
                Err(e) => {
                    ||| e == Error::Deflate && any_compressed(old(self).contents())
                    ||| e == Error::SectionTooLarge && !fits_format(old(self).contents())
                },
            },
    {
        let n = self.sections.len();
        assert(n <= u32::MAX);
        let base: u64 = SIZE_MAIN_HEADER as u64 + SIZE_SECTION_HEADER as u64 * (n as u64);
        let ghost contents0 = self.contents();
        let ghost headers0 = self.sections@;
        let mut area: Vec<u8> = Vec::new();
        let mut chksum_sht: u32 = 0;
        let mut i: usize = 0;
        proof {
            assert(contents0.take(0) =~= Seq::<Seq<u8>>::empty());
            assert(self.sections@.take(0) =~= Seq::<BPXSectionHeader>::empty());
        }
        while i < n
            invariant
                i <= n,
                n == self.sections@.len(),
                n == self.sections_data@.len(),
                n <= u32::MAX,
                headers0 == old(self).sections@,
                contents0 == old(self).contents(),
                n == headers0.len(),
                n == contents0.len(),
                old(self).wf(),
                base == payload_base(n as nat),
                self.main_header == old(self).main_header,
                forall|k: int| 0 <= k < n ==> (#[trigger] self.sections_data@[k]).wf(),
                contents_of(self.sections_data@) == contents0,
                limits_of(self.sections_data@) == limits_of(old(self).sections_data@),
                framed_upto(self.sections@, headers0, contents0, area@, i as int),
                base + area@.len() <= u64::MAX,
                chksum_sht == (byte_sum(table_bytes(self.sections@.take(i as int)))
                    % 0x1_0000_0000) as u32,
            decreases n - i,
        {
            let ghost area0 = area@;
            let ghost sections0 = self.sections@;
            let ghost stores0 = self.sections_data@;
            let btype = self.sections[i].btype;
            assert(stores0[i as int].wf());
            assert(contents0[i as int] == content(&stores0[i as int]));
            assert(sections0[i as int] == headers0[i as int]);
            let framed = frame_section(&mut self.sections_data[i], &mut area, base, btype);
            proof {
                lemma_contents_kept(stores0, i as int, self.sections_data@[i as int]);
                lemma_limits_kept(stores0, i as int, self.sections_data@[i as int]);
                assert forall|k: int| 0 <= k < n implies (#[trigger] self.sections_data@[k]).wf() by {
                    if k != i {
                        assert(self.sections_data@[k] == stores0[k]);
                        assert(stores0[k].wf());
                    }
                }
            }
            let header = match framed {
                Ok(h) => h,
                Err(e) => {
                    proof {
                        let c = contents0[i as int];
                        if e == Error::SectionTooLarge {
                            assert(contents0.take(i + 1).drop_last() =~= contents0.take(i as int));
                            assert(contents0.take(i + 1).last() == c);
                            lemma_payloads_prefix(contents0, i + 1);
                            assert(!fits_format(contents0));
                        } else {
                            assert(saved_compressed(c.len()));
                        }
                    }
                    return Err(e);
                },
            };
            self.sections.set(i, header);
            let header_sum = header.get_checksum();
            proof {
                lemma_table_sum_step(sections0.take(i as int), header, chksum_sht);
                assert(self.sections@.take(i + 1) =~= sections0.take(i as int).push(header));
                lemma_frame_step(sections0, headers0, contents0, area0, i as int, header);
            }
            chksum_sht = add_chksum(chksum_sht, header_sum);
            i += 1;
        }
        proof {
            assert(self.sections@.take(n as int) =~= self.sections@);
        }
        Ok((area, chksum_sht))
    }

    /// Writes the container: the main header, the section header table and
    /// the payloads, in this order, and returns its bytes.
    ///
    /// Every section is framed from its start: content shorter than 65536
    /// bytes is stored as it is, longer content as an XZ stream. The headers
    /// get pointer, sizes, checksum and flags, and the main header gets the
    /// size of the container, the number of sections and the checksum over
    /// all headers.
    ///
    /// What is written reads back: a decoder takes the container, finds the
    /// same table, and every section holds the content that was saved.
    ///
    /// Saving fails with `SectionTooLarge` where a size does not fit its
    /// field, and with `Deflate` where the compressor refuses; it cannot fail
    /// where no content is long enough to be compressed and the sizes fit.
    pub fn save(&mut self) -> (r: Result<Vec<u8>, Error>)
        requires
            old(self).wf(),
        ensures
            final(self).wf(),
            final(self).headers().len() == old(self).headers().len(),
            final(self).contents() == old(self).contents(),
            limits_of(final(self).stores()) == limits_of(old(self).stores()),
            final(self).header().signature == old(self).header().signature,
            final(self).header().btype == old(self).header().btype,
            final(self).header().version == old(self).header().version,
            final(self).header().type_ext == old(self).header().type_ext,
            fits_format(old(self).contents()) && !any_compressed(old(self).contents()) ==> r is Ok,
            match r {
                Ok(file) => {
                    &&& file@ == final(self).header().bytes() + table_bytes(final(self).headers())
                        + payloads(old(self).contents())
                    &&& final(self).header().section_num == old(self).headers().len()
                    &&& final(self).header().file_size == file@.len()
                    &&& final(self).header().chksum == header_checksum(file@)
                    &&& forall|k: int|
                        0 <= k < old(self).headers().len() ==> #[trigger] is_saved_header(
                            final(self).headers()[k],
                            old(self).contents(),
                            k,
                            old(self).headers()[k].btype,
                        )
                    &&& container_fault(file@) is None
                    &&& final(self).header().stands_in(main_block(file@))
                    &&& headers_of(file@, announced_sections(file@)) == final(self).headers()
                    &&& forall|k: int|
                        0 <= k < old(self).headers().len() ==> #[trigger] section_content(
                            file@,
                            final(self).headers()[k],
                        ) == Ok::<Seq<u8>, Error>(old(self).contents()[k])
                },
                Err(e) => {
                    ||| e == Error::Deflate && any_compressed(old(self).contents())
                    ||| e == Error::SectionTooLarge && !fits_format(old(self).contents())
                },
            },
    {
        let (area, chksum_sht) = match self.write_compress_sections() {
            Ok(v) => v,
            Err(e) => {
                return Err(e);
            },
        };
        let n = self.sections.len();
        self.main_header.file_size = SIZE_MAIN_HEADER as u64 + SIZE_SECTION_HEADER as u64 * (
        n as u64) + area.len() as u64;
        self.main_header.section_num = n as u32;
        let own = self.main_header.get_checksum();
        let ghost unsealed = self.main_header;
        self.main_header.chksum = add_chksum(chksum_sht, own);
        proof {
            lemma_main_header_sum_ignores_chksum(unsealed, self.main_header);
            lemma_header_total(self.main_header, table_bytes(self.sections@), chksum_sht, own);
        }
        let file = self.write_data_file(&area);
        proof {
            lemma_saved_container(
                self.main_header,
                self.sections@,
                old(self).sections@,
                old(self).contents(),
                area@,
            );
        }
        Ok(file)
    }

    /// Puts the container together: the main header, the section headers in
    /// order, and the payload area.
    fn write_data_file(&self, area: &Vec<u8>) -> (file: Vec<u8>)
        ensures
            file@ == self.main_header.bytes() + table_bytes(self.sections@) + area@,
    {
        let n = self.sections.len();
        let mut file: Vec<u8> = Vec::new();
        self.main_header.write(&mut file);
        let mut i: usize = 0;
        proof {
            assert(self.sections@.take(0) =~= Seq::<BPXSectionHeader>::empty());
            assert(file@ =~= self.main_header.bytes() + table_bytes(self.sections@.take(0)));
        }
        while i < n
            invariant
                i <= n,
                n == self.sections@.len(),
                file@ == self.main_header.bytes() + table_bytes(self.sections@.take(i as int)),
            decreases n - i,
        {
            self.sections[i].write(&mut file);
            proof {
                let after = self.sections@.take(i + 1);
                assert(after.drop_last() =~= self.sections@.take(i as int));
                assert(file@ =~= self.main_header.bytes() + table_bytes(after));
            }
            i += 1;
        }
        append_bytes(&mut file, area.as_slice());
        proof {
            assert(self.sections@.take(n as int) =~= self.sections@);
        }
        file
    }

    /// The main header as it stands.
    pub fn get_main_header(&self) -> (head: BPXPMainHeader)
        ensures
            head == self.header(),
    {
        self.main_header
    }

    /// The logical size of the section at the given index.
    pub fn size_of_section(&self, index: usize) -> (n: usize)
        requires
            index < self.stores().len(),
            self.stores()[index as int].wf(),
        ensures
            n == self.stores()[index as int].spec_size(),
    {
        self.sections_data[index].size()
    }

    /// Sets the kind of the container and the sixteen bytes that belong to
    /// the kind.
    pub fn set_type(&mut self, btype: u8, type_ext: [u8; 16])
        ensures
            final(self).header() == (BPXPMainHeader {
                btype: btype,
                type_ext: type_ext,
                ..old(self).header()
            }),
            final(self).headers() == old(self).headers(),
            final(self).stores() == old(self).stores(),
    {
        self.main_header.btype = btype;
        self.main_header.type_ext = type_ext;
    }

    /// The storage of the section at the given index, to read and write.
    pub fn get_section_by_index(&mut self, index: usize) -> (section: &mut SectionStore)
        requires
            index < old(self).stores().len(),
        ensures
            *section == old(self).stores()[index as int],
            final(self).stores() == old(self).stores().update(index as int, *final(section)),
            final(self).headers() == old(self).headers(),
            final(self).header() == old(self).header(),
    {
        &mut self.sections_data[index]
    }
}

} // verus!
