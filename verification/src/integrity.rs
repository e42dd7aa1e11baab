//! What the checks of the format catch.

use crate::bpx::announced_sections;
use crate::bpx::bpx_signature;
use crate::bpx::container_fault;
use crate::bpx::main_block;
use crate::bpx::main_header_fault;
use crate::bpx::table_block;
use crate::bpx::table_fault;
use crate::bpx::BPX_VERSION;
use crate::bpx::SIZE_MAIN_HEADER;
use crate::checksum::byte_sum;
use crate::checksum::checksum;
use crate::checksum::lemma_byte_sum_update;
use crate::checksum::lemma_checksum_detects_single_byte;
use crate::checksum::lemma_near_sums_differ;
use crate::endian::u32_from_le;
use crate::error::Error;
use crate::layout::padded_block;
use crate::section::is_weak_checked;
use crate::section::is_xz;
use crate::section::section_content;
use crate::section::BPXSectionHeader;
use crate::section::SIZE_SECTION_HEADER;
use vstd::prelude::*;

verus! {

/// A container without the signature `BPX` is refused for its signature, and
/// one with the signature and a version other than 1 for its version,
/// whatever else it holds.
pub proof fn lemma_signature_and_version_gate(file: Seq<u8>)
    ensures
        main_block(file).subrange(0, 3) != bpx_signature() ==> container_fault(file) == Some(
            Error::BadSignature,
        ),
        main_block(file).subrange(0, 3) == bpx_signature() && u32_from_le(
            main_block(file).subrange(20, 24),
        ) != BPX_VERSION ==> container_fault(file) == Some(
            Error::UnsupportedVersion(u32_from_le(main_block(file).subrange(20, 24))),
        ),
{
}

/// A container whose main header is refused is refused with the same error
/// as any other container that starts with the same 40 bytes: the section
/// header table plays no part.
pub proof fn lemma_main_header_judged_first(a: Seq<u8>, b: Seq<u8>)
    requires
        main_block(a) == main_block(b),
        main_header_fault(main_block(a)) is Some,
    ensures
        container_fault(a) == main_header_fault(main_block(a)),
        container_fault(b) == container_fault(a),
{
}

/// Changing one byte of the section header table of a sound container makes
/// the container unsound. Unless the change sets one of the retired flag
/// bits, which is reported as such, the error is the checksum mismatch.
pub proof fn lemma_table_change_detected(file: Seq<u8>, at: int, byte: u8)
    requires
        container_fault(file) is None,
        SIZE_MAIN_HEADER <= at < SIZE_MAIN_HEADER + SIZE_SECTION_HEADER * announced_sections(file),
        at < file.len(),
        byte != file[at],
    ensures
        container_fault(file.update(at, byte)) is Some,
        table_fault(file.update(at, byte), announced_sections(file)) is None ==> container_fault(
            file.update(at, byte),
        ) == Some(Error::HeaderChecksumMismatch),
        table_fault(file.update(at, byte), announced_sections(file)) is Some ==> container_fault(
            file.update(at, byte),
        ) == table_fault(file.update(at, byte), announced_sections(file)),
{
    let changed = file.update(at, byte);
    let n = announced_sections(file);
    assert(main_block(changed) =~= main_block(file));
    let table = table_block(file, n);
    assert(table_block(changed, n) =~= table.update(at - SIZE_MAIN_HEADER, byte));
    lemma_byte_sum_update(table, at - SIZE_MAIN_HEADER, byte);
    let own = crate::bpx::main_header_sum(main_block(file)) as int;
    lemma_near_sums_differ(own + byte_sum(table), own + byte_sum(table_block(changed, n)));
}

/// Changing one byte of the payload of a section that is stored as it is,
/// under the weak checksum, makes the section fail its checksum.
pub proof fn lemma_payload_change_detected(
    file: Seq<u8>,
    header: BPXSectionHeader,
    at: int,
    byte: u8,
)
    requires
        !is_xz(header.flags),
        is_weak_checked(header.flags),
        section_content(file, header) is Ok,
        header.pointer <= at < header.pointer + header.size,
        at < file.len(),
        byte != file[at],
    ensures
        section_content(file.update(at, byte), header) == Err::<Seq<u8>, Error>(
            Error::SectionChecksumMismatch,
        ),
{
    let block = padded_block(file, header.pointer as int, header.size as nat);
    let changed = padded_block(file.update(at, byte), header.pointer as int, header.size as nat);
    assert(changed =~= block.update(at - header.pointer, byte));
    lemma_checksum_detects_single_byte(block, at - header.pointer, byte);
}

} // verus!
