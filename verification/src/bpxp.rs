//! Packages: containers of type `P` that hold a tree of files.
//!
//! A package keeps the paths of its files in the string table and their
//! bytes in data sections. A file is a record of twelve bytes, its size and
//! the offset of its path, followed by its bytes. Where a data section is
//! full the bytes go on in the next one, without any mark.

use crate::bpx;
use crate::bpx::container_fault;
use crate::bpx::first_of_type;
use crate::bpx::main_block;
use crate::bpx::BPXPMainHeader;
use crate::endian::u32_to_le;
use crate::endian::u64_to_le;
use crate::section::is_xz;
use crate::section::section_content;
use crate::section::BPXSectionHeader;
use crate::section::SeekFrom;
use crate::strings::write_string;
use vstd::utf8::encode_utf8;
use crate::endian::u32_from_le;
use crate::endian::u64_from_le;
use crate::error::Error;
use crate::layout::append_bytes;
use crate::packing::held_files;
use crate::packing::is_last_data;
use crate::packing::path_sound;
use crate::packing::paths_sound;
use crate::sd::load_structured_data;
use crate::sd::Object;
use crate::section::content;
use crate::section::Section;
use crate::strings::get_string;
use crate::strings::string_at;
use vstd::prelude::*;
use vstd::slice::slice_subrange;

verus! {

/// The type of the sections that hold the bytes of the files.
pub const DATA_SECTION_TYPE: u8 = 0x1;

/// The type of the section that holds the metadata object.
pub const METADATA_SECTION_TYPE: u8 = 0xFE;

/// The container type of a package: the letter `P`.
pub const PACKAGE_TYPE: u8 = 0x50;

/// The size of the chunks in which the bytes of a file are written.
pub const DATA_WRITE_BUFFER_SIZE: usize = 8192;

/// The size at which a data section counts as full.
pub const MAX_DATA_SECTION_SIZE: usize = 200000000 - 8192;

/// The size of the record that precedes the bytes of a file.
pub const SIZE_FILE_HEADER: usize = 12;

/// The processor architecture that a package is built for.
#[derive(Copy, Clone, Debug, PartialEq, Eq, Structural)]
pub enum Architecture {
    X86_64,
    Aarch64,
    X86,
    Armv7hl,
    Any,
}

/// The operating system that a package is built for.
#[derive(Copy, Clone, Debug, PartialEq, Eq, Structural)]
pub enum Platform {
    Linux,
    Mac,
    Windows,
    Android,
    Any,
}

/// The architecture that a code stands for.
pub open spec fn architecture_of(code: u8) -> Option<Architecture> {
    if code == 0 {
        Some(Architecture::X86_64)
    } else if code == 1 {
        Some(Architecture::Aarch64)
    } else if code == 2 {
        Some(Architecture::X86)
    } else if code == 3 {
        Some(Architecture::Armv7hl)
    } else if code == 4 {
        Some(Architecture::Any)
    } else {
        None
    }
}

/// The platform that a code stands for.
pub open spec fn platform_of(code: u8) -> Option<Platform> {
    if code == 0 {
        Some(Platform::Linux)
    } else if code == 1 {
        Some(Platform::Mac)
    } else if code == 2 {
        Some(Platform::Windows)
    } else if code == 3 {
        Some(Platform::Android)
    } else if code == 4 {
        Some(Platform::Any)
    } else {
        None
    }
}

/// The code that stands for an architecture.
pub open spec fn architecture_code(a: Architecture) -> u8 {
    match a {
        Architecture::X86_64 => 0,
        Architecture::Aarch64 => 1,
        Architecture::X86 => 2,
        Architecture::Armv7hl => 3,
        Architecture::Any => 4,
    }
}

/// The code that stands for a platform.
pub open spec fn platform_code(p: Platform) -> u8 {
    match p {
        Platform::Linux => 0,
        Platform::Mac => 1,
        Platform::Windows => 2,
        Platform::Android => 3,
        Platform::Any => 4,
    }
}

/// The codes of an architecture and of a platform stand for them.
pub proof fn lemma_codes_round_trip(a: Architecture, p: Platform)
    ensures
        architecture_of(architecture_code(a)) == Some(a),
        platform_of(platform_code(p)) == Some(p),
{
}

/// The architecture and the platform that two codes stand for. An unknown
/// architecture code is reported before an unknown platform code.
pub fn get_arch_platform_from_code(acode: u8, pcode: u8) -> (r: Result<
    (Architecture, Platform),
    Error,
>)
    ensures
        r == match (architecture_of(acode), platform_of(pcode)) {
            (None, _) => Err::<(Architecture, Platform), Error>(Error::UnknownArchitecture),
            (Some(_), None) => Err::<(Architecture, Platform), Error>(Error::UnknownPlatform),
            (Some(a), Some(p)) => Ok::<(Architecture, Platform), Error>((a, p)),
        },
{
    let arch = match acode {
        0x0 => Architecture::X86_64,
        0x1 => Architecture::Aarch64,
        0x2 => Architecture::X86,
        0x3 => Architecture::Armv7hl,
        0x4 => Architecture::Any,
        _ => {
            return Err(Error::UnknownArchitecture);
        },
    };
    let platform = match pcode {
        0x0 => Platform::Linux,
        0x1 => Platform::Mac,
        0x2 => Platform::Windows,
        0x3 => Platform::Android,
        0x4 => Platform::Any,
        _ => {
            return Err(Error::UnknownPlatform);
        },
    };
    Ok((arch, platform))
}

/// The code of an architecture.
pub fn get_code_from_arch(a: Architecture) -> (code: u8)
    ensures
        code == architecture_code(a),
{
    match a {
        Architecture::X86_64 => 0x0,
        Architecture::Aarch64 => 0x1,
        Architecture::X86 => 0x2,
        Architecture::Armv7hl => 0x3,
        Architecture::Any => 0x4,
    }
}

/// The code of a platform.
pub fn get_code_from_platform(p: Platform) -> (code: u8)
    ensures
        code == platform_code(p),
{
    match p {
        Platform::Linux => 0x0,
        Platform::Mac => 0x1,
        Platform::Windows => 0x2,
        Platform::Android => 0x3,
        Platform::Any => 0x4,
    }
}

/// A file of a package: its path and its bytes.
#[derive(Clone, Debug, PartialEq, Eq)]
pub struct PackedFile {
    /// The path of the file, relative to the root of the package.
    pub path: String,
    /// The bytes of the file.
    pub data: Vec<u8>,
}

impl View for PackedFile {
    type V = (Seq<char>, Seq<u8>);

    open spec fn view(&self) -> (Seq<char>, Seq<u8>) {
        (self.path@, self.data@)
    }
}

/// The files that a row of packed files stands for.
pub open spec fn files_view(files: Seq<PackedFile>) -> Seq<(Seq<char>, Seq<u8>)> {
    Seq::new(files.len(), |i: int| files[i]@)
}

/// The bytes of a row of data sections.
pub open spec fn sections_view(sections: Seq<Vec<u8>>) -> Seq<Seq<u8>> {
    Seq::new(sections.len(), |i: int| sections[i]@)
}

/// The carry-over between data sections: the files unpacked so far, and how
/// many bytes the last of them still lacks.
pub struct Unpacking {
    pub files: Seq<(Seq<char>, Seq<u8>)>,
    pub remaining: nat,
}

/// The last file with more bytes behind it.
pub open spec fn extended(files: Seq<(Seq<char>, Seq<u8>)>, more: Seq<u8>) -> Seq<
    (Seq<char>, Seq<u8>),
> {
    files.update(files.len() - 1, (files.last().0, files.last().1 + more))
}

/// Reads the records of a data section from `pos` on.
///
/// A record that does not fit in what is left of the section is refused
/// with `UnexpectedEof`, a path that cannot be read with the error of the
/// string table, and an empty path with `EmptyPath`. Where the section ends
/// before the bytes of a file do, the file is carried over.
pub open spec fn unpack_entries(
    strings: Seq<u8>,
    data: Seq<u8>,
    pos: int,
    files: Seq<(Seq<char>, Seq<u8>)>,
) -> Result<Unpacking, Error>
    decreases data.len() - pos,
{
    if pos < 0 || pos >= data.len() {
        Ok(Unpacking { files: files, remaining: 0 })
    } else if pos + SIZE_FILE_HEADER > data.len() {
        Err(Error::UnexpectedEof)
    } else {
        let size = u64_from_le(data.subrange(pos, pos + 8));
        let ptr = u32_from_le(data.subrange(pos + 8, pos + 12));
        let start = pos + SIZE_FILE_HEADER;
        match string_at(strings, ptr as int) {
            Err(e) => Err(e),
            Ok(path) => if path.len() == 0 {
                Err(Error::EmptyPath)
            } else if start + size <= data.len() {
                unpack_entries(
                    strings,
                    data,
                    start + size,
                    files.push((path, data.subrange(start, start + size))),
                )
            } else {
                Ok(
                    Unpacking {
                        files: files.push((path, data.subrange(start, data.len() as int))),
                        remaining: (start + size - data.len()) as nat,
                    },
                )
            },
        }
    }
}

/// Unpacks one data section: first the bytes that the carried-over file
/// still lacks, then the records behind them.
pub open spec fn unpack_section(strings: Seq<u8>, data: Seq<u8>, carry: Unpacking) -> Result<
    Unpacking,
    Error,
> {
    if carry.remaining > 0 && carry.files.len() > 0 {
        if carry.remaining > data.len() {
            Ok(
                Unpacking {
                    files: extended(carry.files, data),
                    remaining: (carry.remaining - data.len()) as nat,
                },
            )
        } else {
            unpack_entries(
                strings,
                data,
                carry.remaining as int,
                extended(carry.files, data.subrange(0, carry.remaining as int)),
            )
        }
    } else {
        unpack_entries(strings, data, 0, carry.files)
    }
}

/// Unpacks a row of data sections, one after the other, and gives what is
/// carried over behind the last.
pub open spec fn unpack_state(strings: Seq<u8>, sections: Seq<Seq<u8>>, carry: Unpacking) -> Result<
    Unpacking,
    Error,
>
    decreases sections.len(),
{
    if sections.len() == 0 {
        Ok(carry)
    } else {
        match unpack_section(strings, sections[0], carry) {
            Err(e) => Err(e),
            Ok(next) => unpack_state(strings, sections.skip(1), next),
        }
    }
}

/// The files that are unpacked once the sections are used up. A file that
/// still lacks bytes then is refused with `UnexpectedEof`.
pub open spec fn unpack_end(state: Result<Unpacking, Error>) -> Result<
    Seq<(Seq<char>, Seq<u8>)>,
    Error,
> {
    match state {
        Err(e) => Err(e),
        Ok(carry) => if carry.remaining > 0 {
            Err(Error::UnexpectedEof)
        } else {
            Ok(carry.files)
        },
    }
}

/// The files that a string table and a row of data sections hold.
pub open spec fn unpacked(strings: Seq<u8>, sections: Seq<Seq<u8>>) -> Result<
    Seq<(Seq<char>, Seq<u8>)>,
    Error,
> {
    unpack_end(unpack_state(strings, sections, Unpacking { files: Seq::empty(), remaining: 0 }))
}

/// Reads the records of a data section from `pos` on and adds their files
/// to `files`. Returns how many bytes the last file still lacks.
fn extract_files<S: Section>(
    strings: &mut S,
    data: &[u8],
    pos: usize,
    files: &mut Vec<PackedFile>,
) -> (r: Result<u64, Error>)
    requires
        old(strings).wf(),
        pos <= data@.len(),
    ensures
        final(strings).wf(),
        final(strings).data() == old(strings).data(),
        match r {
            Ok(remaining) => unpack_entries(
                old(strings).data(),
                data@,
                pos as int,
                files_view(old(files)@),
            ) == Ok::<Unpacking, Error>(
                Unpacking { files: files_view(final(files)@), remaining: remaining as nat },
            ) && (remaining > 0 ==> final(files)@.len() > 0),
            Err(e) => unpack_entries(
                old(strings).data(),
                data@,
                pos as int,
                files_view(old(files)@),
            ) == Err::<Unpacking, Error>(e),
        },
{
    let len = data.len();
    let mut at: usize = pos;
    let ghost whole = unpack_entries(strings.data(), data@, pos as int, files_view(files@));
    while at < len
        invariant
            at <= len,
            len == data@.len(),
            strings.wf(),
            strings.data() == old(strings).data(),
            whole == unpack_entries(
                old(strings).data(),
                data@,
                pos as int,
                files_view(old(files)@),
            ),
            whole == unpack_entries(strings.data(), data@, at as int, files_view(files@)),
        decreases len - at,
    {
        if len - at < SIZE_FILE_HEADER {
            return Err(Error::UnexpectedEof);
        }
        let size = crate::endian::read_u64(slice_subrange(data, at, at + 8));
        let ptr = crate::endian::read_u32(slice_subrange(data, at + 8, at + 12));
        proof {
            assert(data@.subrange(at as int, at + 8).subrange(0, 8) =~= data@.subrange(
                at as int,
                at + 8,
            ));
            assert(data@.subrange(at + 8, at + 12).subrange(0, 4) =~= data@.subrange(
                at + 8,
                at + 12,
            ));
        }
        let path = match get_string(ptr, strings) {
            Ok(p) => p,
            Err(e) => {
                return Err(e);
            },
        };
        if path.as_str().unicode_len() == 0 {
            return Err(Error::EmptyPath);
        }
        let start = at + SIZE_FILE_HEADER;
        let avail = len - start;
        let ghost before = files_view(files@);
        if size <= avail as u64 {
            let end = start + size as usize;
            let bytes = vstd::slice::slice_to_vec(slice_subrange(data, start, end));
            files.push(PackedFile { path: path, data: bytes });
            assert(files_view(files@) =~= before.push((path@, data@.subrange(start as int, end as int))));
            at = end;
        } else {
            let bytes = vstd::slice::slice_to_vec(slice_subrange(data, start, len));
            files.push(PackedFile { path: path, data: bytes });
            assert(files_view(files@) =~= before.push((path@, data@.subrange(start as int, len as int))));
            return Ok(size - avail as u64);
        }
    }
    Ok(0)
}

/// Appends bytes to the last of the files.
fn continue_file(files: &mut Vec<PackedFile>, more: &[u8])
    requires
        old(files)@.len() > 0,
    ensures
        files_view(final(files)@) == extended(files_view(old(files)@), more@),
{
    let mut last = files.pop().unwrap();
    let ghost before = files_view(old(files)@);
    append_bytes(&mut last.data, more);
    files.push(last);
    assert(files_view(files@) =~= extended(before, more@));
}

/// Unpacks the files that a row of data sections holds, with their paths
/// from the string table.
///
/// The sections are read in order. A file whose bytes do not end with the
/// section goes on at the start of the next section, before any record of
/// that section is read.
///
/// Unpacking fails with `UnexpectedEof` where a record or a file is cut
/// short, with `EmptyPath` where a file has no path, and with the error of
/// the string table where a path cannot be read.
pub fn unpack_files<S: Section>(strings: &mut S, sections: &Vec<Vec<u8>>) -> (r: Result<
    Vec<PackedFile>,
    Error,
>)
    requires
        old(strings).wf(),
    ensures
        final(strings).wf(),
        final(strings).data() == old(strings).data(),
        match r {
            Ok(files) => unpacked(old(strings).data(), sections_view(sections@)) == Ok::<
                Seq<(Seq<char>, Seq<u8>)>,
                Error,
            >(files_view(files@)),
            Err(e) => unpacked(old(strings).data(), sections_view(sections@)) == Err::<
                Seq<(Seq<char>, Seq<u8>)>,
                Error,
            >(e),
        },
{
    let mut files: Vec<PackedFile> = Vec::new();
    let mut remaining: u64 = 0;
    let mut k: usize = 0;
    let ghost table = strings.data();
    let ghost all = sections_view(sections@);
    assert(files_view(files@) =~= Seq::<(Seq<char>, Seq<u8>)>::empty());
    assert(all.skip(0) =~= all);
    while k < sections.len()
        invariant
            k <= sections@.len(),
            strings.wf(),
            strings.data() == table,
            table == old(strings).data(),
            all == sections_view(sections@),
            remaining > 0 ==> files@.len() > 0,
            unpacked(table, all) == unpack_end(
                unpack_state(
                    table,
                    all.skip(k as int),
                    Unpacking { files: files_view(files@), remaining: remaining as nat },
                ),
            ),
        decreases sections@.len() - k,
    {
        let data = sections[k].as_slice();
        proof {
            assert(data@ == all.skip(k as int)[0]);
            assert(all.skip(k as int).skip(1) =~= all.skip(k + 1));
        }
        let mut pos: usize = 0;
        if remaining > 0 {
            if remaining > data.len() as u64 {
                continue_file(&mut files, data);
                remaining = remaining - data.len() as u64;
                k += 1;
                continue ;
            }
            pos = remaining as usize;
            continue_file(&mut files, slice_subrange(data, 0, pos));
        }
        remaining = match extract_files(strings, data, pos, &mut files) {
            Ok(r) => r,
            Err(e) => {
                return Err(e);
            },
        };
        k += 1;
    }
    if remaining > 0 {
        return Err(Error::UnexpectedEof);
    }
    Ok(files)
}

/// The first byte of the package variant: the letter `P`.
pub const VARIANT_FIRST: u8 = 0x50;

/// The second byte of the package variant: the letter `K`.
pub const VARIANT_SECOND: u8 = 0x4B;

/// Why a container is not a package that can be opened, if it is not: the
/// container is judged first, then the header of the package.
pub open spec fn package_fault(file: Seq<u8>) -> Option<Error> {
    if container_fault(file) is Some {
        container_fault(file)
    } else if main_block(file)[3] != PACKAGE_TYPE {
        Some(Error::UnknownContainerType(main_block(file)[3]))
    } else if architecture_of(main_block(file)[24]) is None {
        Some(Error::UnknownArchitecture)
    } else if platform_of(main_block(file)[25]) is None {
        Some(Error::UnknownPlatform)
    } else if main_block(file)[26] != VARIANT_FIRST || main_block(file)[27] != VARIANT_SECOND {
        Some(Error::UnsupportedVariant(main_block(file)[26], main_block(file)[27]))
    } else {
        None
    }
}

/// The content of each of the given sections of a container, where every
/// one of them can be read.
pub open spec fn contents_in(file: Seq<u8>, headers: Seq<BPXSectionHeader>) -> Seq<Seq<u8>> {
    Seq::new(headers.len(), |k: int| section_content(file, headers[k])->Ok_0)
}

/// Whether every one of the given sections of a container can be read.
pub open spec fn all_readable(file: Seq<u8>, headers: Seq<BPXSectionHeader>) -> bool {
    forall|k: int| 0 <= k < headers.len() ==> (#[trigger] section_content(file, headers[k])) is Ok
}

/// The metadata object of a container: the object that the content of the
/// first section of type `0xFE` starts with. Without such a section the
/// error is `MissingMetadataSection`.
pub open spec fn metadata_outcome(file: Seq<u8>, headers: Seq<BPXSectionHeader>) -> Result<
    Seq<(u64, crate::sd::SdValue)>,
    Error,
> {
    match first_of_type(headers, METADATA_SECTION_TYPE) {
        None => Err(Error::MissingMetadataSection),
        Some(i) => match section_content(file, headers[i]) {
            Err(e) => Err(e),
            Ok(c) => crate::sd::parse_object(c),
        },
    }
}

/// The error of the first of the given sections that cannot be read, if
/// there is one.
pub open spec fn first_unreadable(file: Seq<u8>, headers: Seq<BPXSectionHeader>) -> Option<Error>
    decreases headers.len(),
{
    if headers.len() == 0 {
        None
    } else {
        match first_unreadable(file, headers.drop_last()) {
            Some(e) => Some(e),
            None => match section_content(file, headers.last()) {
                Ok(_) => None,
                Err(e) => Some(e),
            },
        }
    }
}

/// The data sections of a table, in table order.
pub open spec fn data_sections(headers: Seq<BPXSectionHeader>) -> Seq<BPXSectionHeader> {
    headers.filter(|h: BPXSectionHeader| h.btype == DATA_SECTION_TYPE)
}

/// What unpacking a container gives: the files that the string table and
/// the data sections hold. Without a string table the error is
/// `MissingStringSection`; a section that cannot be read gives its error,
/// the string table before the data sections and these in table order.
pub open spec fn unpack_outcome(file: Seq<u8>, headers: Seq<BPXSectionHeader>) -> Result<
    Seq<(Seq<char>, Seq<u8>)>,
    Error,
> {
    match first_of_type(headers, bpx::STRING_SECTION_TYPE) {
        None => Err(Error::MissingStringSection),
        Some(i) => match section_content(file, headers[i]) {
            Err(e) => Err(e),
            Ok(table) => match first_unreadable(file, data_sections(headers)) {
                Some(e) => Err(e),
                None => unpacked(table, contents_in(file, data_sections(headers))),
            },
        },
    }
}

/// Where none of the sections is unreadable, all are readable.
pub proof fn lemma_first_unreadable(file: Seq<u8>, headers: Seq<BPXSectionHeader>)
    ensures
        first_unreadable(file, headers) is None <==> all_readable(file, headers),
    decreases headers.len(),
{
    if headers.len() > 0 {
        let front = headers.drop_last();
        lemma_first_unreadable(file, front);
        if first_unreadable(file, headers) is None {
            assert forall|k: int| 0 <= k < headers.len() implies (#[trigger] section_content(
                file,
                headers[k],
            )) is Ok by {
                if k < front.len() {
                    assert(front[k] == headers[k]);
                    assert(section_content(file, front[k]) is Ok);
                }
            }
        } else {
            if all_readable(file, headers) {
                assert(section_content(file, headers[headers.len() - 1]) is Ok);
                assert forall|k: int| 0 <= k < front.len() implies (#[trigger] section_content(
                    file,
                    front[k],
                )) is Ok by {
                    assert(front[k] == headers[k]);
                    assert(section_content(file, headers[k]) is Ok);
                }
            }
        }
    }
}

/// An unreadable section among the first of a row is the first unreadable
/// section of the row.
proof fn lemma_first_unreadable_stays(file: Seq<u8>, headers: Seq<BPXSectionHeader>, n: int)
    requires
        0 <= n <= headers.len(),
        first_unreadable(file, headers.take(n)) is Some,
    ensures
        first_unreadable(file, headers) == first_unreadable(file, headers.take(n)),
    decreases headers.len() - n,
{
    if n < headers.len() {
        assert(headers.drop_last().take(n) =~= headers.take(n));
        lemma_first_unreadable_stays(file, headers.drop_last(), n);
    } else {
        assert(headers.take(n) =~= headers);
    }
}

/// Whether one of the sections is stored compressed.
pub open spec fn any_xz(headers: Seq<BPXSectionHeader>) -> bool {
    exists|k: int| 0 <= k < headers.len() && is_xz((#[trigger] headers[k]).flags)
}

/// Whether unpacking a container reads a section that is stored compressed:
/// the string table or one of the data sections.
pub open spec fn unpack_reads_xz(headers: Seq<BPXSectionHeader>) -> bool {
    exists|k: int|
        0 <= k < headers.len() && is_xz((#[trigger] headers[k]).flags) && (headers[k].btype
            == DATA_SECTION_TYPE || first_of_type(headers, bpx::STRING_SECTION_TYPE) == Some(k))
}

/// Whether the metadata section of a container is stored compressed.
pub open spec fn metadata_is_xz(headers: Seq<BPXSectionHeader>) -> bool {
    first_of_type(headers, METADATA_SECTION_TYPE) matches Some(i) && is_xz(headers[i].flags)
}

/// A compressed section among the data sections of a table is a compressed
/// data section of the table.
proof fn lemma_xz_data_section(headers: Seq<BPXSectionHeader>)
    requires
        any_xz(data_sections(headers)),
    ensures
        exists|k: int|
            0 <= k < headers.len() && is_xz((#[trigger] headers[k]).flags) && headers[k].btype
                == DATA_SECTION_TYPE,
    decreases headers.len(),
{
    reveal(Seq::filter);
    let picked = data_sections(headers);
    let j = choose|j: int| 0 <= j < picked.len() && is_xz((#[trigger] picked[j]).flags);
    if headers.len() > 0 {
        let front = headers.drop_last();
        let last = headers.last();
        if last.btype == DATA_SECTION_TYPE {
            assert(picked =~= data_sections(front).push(last));
            if j == picked.len() - 1 {
                assert(is_xz(headers[headers.len() - 1].flags));
            } else {
                assert(data_sections(front)[j] == picked[j]);
                lemma_xz_data_section(front);
                let k = choose|k: int|
                    0 <= k < front.len() && is_xz((#[trigger] front[k]).flags) && front[k].btype
                        == DATA_SECTION_TYPE;
                assert(headers[k] == front[k]);
            }
        } else {
            assert(picked =~= data_sections(front));
            lemma_xz_data_section(front);
            let k = choose|k: int|
                0 <= k < front.len() && is_xz((#[trigger] front[k]).flags) && front[k].btype
                    == DATA_SECTION_TYPE;
            assert(headers[k] == front[k]);
        }
    }
}

/// A package that has been opened and found sound.
pub struct Decoder {
    /// The architecture that the package is built for.
    pub architecture: Architecture,
    /// The platform that the package is built for.
    pub platform: Platform,
    decoder: bpx::Decoder,
}

impl Decoder {
    /// The container under the package.
    pub closed spec fn container(&self) -> bpx::Decoder {
        self.decoder
    }

    /// The architecture and the platform as read.
    pub closed spec fn target(&self) -> (Architecture, Platform) {
        (self.architecture, self.platform)
    }

    /// Opens a package: opens the container, then checks that it is of type
    /// `P`, built for a known architecture and platform, and of variant `PK`.
    pub fn new(file: Vec<u8>) -> (r: Result<Decoder, Error>)
        ensures
            match r {
                Ok(d) => {
                    &&& package_fault(file@) is None
                    &&& d.container().file() == file@
                    &&& d.container().header().stands_in(main_block(file@))
                    &&& d.container().headers() == bpx::headers_of(
                        file@,
                        bpx::announced_sections(file@),
                    )
                    &&& architecture_of(main_block(file@)[24]) == Some(d.target().0)
                    &&& platform_of(main_block(file@)[25]) == Some(d.target().1)
                },
                Err(e) => package_fault(file@) == Some(e),
            },
    {
        let ghost block = main_block(file@);
        let decoder = match bpx::Decoder::new(file) {
            Ok(d) => d,
            Err(e) => {
                return Err(e);
            },
        };
        let head = decoder.get_main_header();
        proof {
            assert(head.type_ext@ == block.subrange(24, 40));
            assert(head.type_ext@[0] == block[24] && head.type_ext@[1] == block[25]);
            assert(head.type_ext@[2] == block[26] && head.type_ext@[3] == block[27]);
        }
        if head.btype != PACKAGE_TYPE {
            return Err(Error::UnknownContainerType(head.btype));
        }
        let (a, p) = match get_arch_platform_from_code(head.type_ext[0], head.type_ext[1]) {
            Ok(v) => v,
            Err(e) => {
                return Err(e);
            },
        };
        if head.type_ext[2] != VARIANT_FIRST || head.type_ext[3] != VARIANT_SECOND {
            return Err(Error::UnsupportedVariant(head.type_ext[2], head.type_ext[3]));
        }
        Ok(Decoder { architecture: a, platform: p, decoder: decoder })
    }

    /// Reads the metadata object of the package: the structured data in the
    /// first section of type `0xFE`.
    ///
    /// The result is the one that `metadata_outcome` gives, but for one
    /// case: a metadata section that is stored compressed may be refused
    /// with `Inflate` though its stream is sound, as `section::open_section`
    /// says. Where the section is stored as it is, the object is read if and
    /// only if `metadata_outcome` gives one.
    pub fn open_metadata(&self) -> (r: Result<Object, Error>)
        ensures
            match r {
                Ok(obj) => metadata_outcome(self.container().file(), self.container().headers())
                    == Ok::<Seq<(u64, crate::sd::SdValue)>, Error>(obj@),
                Err(e) => metadata_outcome(self.container().file(), self.container().headers())
                    == Err::<Seq<(u64, crate::sd::SdValue)>, Error>(e) || (e == Error::Inflate
                    && metadata_is_xz(self.container().headers())),
            },
            !metadata_is_xz(self.container().headers()) ==> (r is Ok <==> metadata_outcome(
                self.container().file(),
                self.container().headers(),
            ) is Ok),
    {
        match self.decoder.find_section_by_type(METADATA_SECTION_TYPE) {
            Some(section) => {
                let mut data = match self.decoder.open_section(&section) {
                    Ok(d) => d,
                    Err(e) => {
                        return Err(e);
                    },
                };
                let bytes = data.load_in_memory();
                load_structured_data(bytes.as_slice())
            },
            None => Err(Error::MissingMetadataSection),
        }
    }

    /// The content of each of the given sections, in order.
    fn load_sections(&self, headers: &Vec<BPXSectionHeader>) -> (r: Result<Vec<Vec<u8>>, Error>)
        ensures
            match r {
                Ok(sections) => first_unreadable(self.container().file(), headers@) is None
                    && sections_view(sections@) == contents_in(self.container().file(), headers@),
                Err(e) => first_unreadable(self.container().file(), headers@) == Some(e) || (e
                    == Error::Inflate && any_xz(headers@)),
            },
    {
        let mut sections: Vec<Vec<u8>> = Vec::new();
        let mut k: usize = 0;
        proof {
            assert(headers@.take(0) =~= Seq::<BPXSectionHeader>::empty());
        }
        while k < headers.len()
            invariant
                k <= headers@.len(),
                sections@.len() == k,
                first_unreadable(self.container().file(), headers@.take(k as int)) is None,
                forall|j: int|
                    0 <= j < k ==> #[trigger] section_content(
                        self.container().file(),
                        headers@[j],
                    ) == Ok::<Seq<u8>, Error>(sections@[j]@),
            decreases headers@.len() - k,
        {
            proof {
                let next = headers@.take(k + 1);
                assert(next.drop_last() =~= headers@.take(k as int));
                assert(next.last() == headers@[k as int]);
            }
            let mut section = match self.decoder.open_section(&headers[k]) {
                Ok(s) => s,
                Err(e) => {
                    proof {
                        if section_content(self.container().file(), headers@[k as int]) == Err::<
                            Seq<u8>,
                            Error,
                        >(e) {
                            lemma_first_unreadable_stays(
                                self.container().file(),
                                headers@,
                                k + 1,
                            );
                        } else {
                            assert(is_xz(headers@[k as int].flags));
                        }
                    }
                    return Err(e);
                },
            };
            let bytes = section.load_in_memory();
            sections.push(bytes);
            k += 1;
        }
        assert(headers@.take(k as int) =~= headers@);
        assert(sections_view(sections@) =~= contents_in(self.container().file(), headers@));
        Ok(sections)
    }

    /// Unpacks the files of the package: reads the string table and the
    /// data sections, in table order, and takes the files out of them as
    /// `unpack_files` does.
    ///
    /// The result is the one that `unpack_outcome` gives, but for one case:
    /// where the string table or a data section is stored compressed, it may
    /// be refused with `Inflate` though its stream is sound, as
    /// `section::open_section` says. Where none of them is compressed, the
    /// files are unpacked if and only if `unpack_outcome` gives them.
    pub fn unpack(&self) -> (r: Result<Vec<PackedFile>, Error>)
        ensures
            match r {
                Ok(files) => unpack_outcome(
                    self.container().file(),
                    self.container().headers(),
                ) == Ok::<Seq<(Seq<char>, Seq<u8>)>, Error>(files_view(files@)),
                Err(e) => unpack_outcome(self.container().file(), self.container().headers())
                    == Err::<Seq<(Seq<char>, Seq<u8>)>, Error>(e) || (e == Error::Inflate
                    && unpack_reads_xz(self.container().headers())),
            },
            !unpack_reads_xz(self.container().headers()) ==> (r is Ok <==> unpack_outcome(
                self.container().file(),
                self.container().headers(),
            ) is Ok),
    {
        proof {
            bpx::lemma_first_of_type(self.container().headers(), bpx::STRING_SECTION_TYPE);
        }
        let mut strings = match self.decoder.load_string_section() {
            Ok(s) => s,
            Err(e) => {
                return Err(e);
            },
        };
        let secs = self.decoder.find_all_sections_of_type(DATA_SECTION_TYPE);
        let sections = match self.load_sections(&secs) {
            Ok(s) => s,
            Err(e) => {
                proof {
                    if any_xz(secs@) {
                        lemma_xz_data_section(self.container().headers());
                    }
                }
                return Err(e);
            },
        };
        unpack_files(&mut strings, &sections)
    }
}

/// The record that precedes the bytes of a file: the size of the file and
/// the offset of its path in the string table.
pub open spec fn file_header(size: u64, ptr: u32) -> Seq<u8> {
    u64_to_le(size) + u32_to_le(ptr)
}

/// The number of bytes of the next chunk of a file.
pub open spec fn chunk_len(len: nat, pos: int) -> int {
    if len - pos < DATA_WRITE_BUFFER_SIZE {
        len - pos
    } else {
        DATA_WRITE_BUFFER_SIZE as int
    }
}

/// The data sections that the bytes of a file from `pos` on make of the
/// current data section: the current section as it ends up, and the sections
/// that are opened behind it.
///
/// The bytes are written in chunks of 8192. Whenever a chunk brings the
/// current section to the cap or beyond, the section is full and an empty
/// one takes its place.
pub open spec fn pack_chunks(current: Seq<u8>, data: Seq<u8>, pos: int, cap: nat) -> Seq<Seq<u8>>
    decreases data.len() - pos,
{
    if pos < 0 || pos >= data.len() {
        seq![current]
    } else {
        let grown = current + data.subrange(pos, pos + chunk_len(data.len(), pos));
        if grown.len() >= cap {
            seq![grown] + pack_chunks(Seq::empty(), data, pos + chunk_len(data.len(), pos), cap)
        } else {
            pack_chunks(grown, data, pos + chunk_len(data.len(), pos), cap)
        }
    }
}

/// The contents of the sections of a container after a file was packed:
/// the first of the data sections that the file made stands where the
/// current one stood, the others stand behind the sections that were there.
pub open spec fn placed(base: Seq<Seq<u8>>, data_id: int, made: Seq<Seq<u8>>) -> Seq<Seq<u8>> {
    base.update(data_id, made[0]) + made.skip(1)
}

/// As many headers of fresh data sections.
pub open spec fn fresh_data_headers(n: nat) -> Seq<BPXSectionHeader> {
    Seq::new(n, |i: int| BPXSectionHeader {
        pointer: 0,
        csize: 0,
        size: 0,
        chksum: 0,
        btype: DATA_SECTION_TYPE,
        flags: crate::section::FLAG_CHECK_WEAK,
    })
}

/// The index of the last of the data sections that a file made.
pub open spec fn last_made(count: nat, data_id: int, made: Seq<Seq<u8>>) -> int {
    if made.len() == 1 {
        data_id
    } else {
        count + made.len() - 2
    }
}

/// Growing the last of the made sections grows it where it is placed.
proof fn lemma_placed_grown(base: Seq<Seq<u8>>, data_id: int, made: Seq<Seq<u8>>, grown: Seq<u8>)
    requires
        0 <= data_id < base.len(),
        made.len() >= 1,
    ensures
        placed(base, data_id, made.update(made.len() - 1, grown)) == placed(
            base,
            data_id,
            made,
        ).update(last_made(base.len(), data_id, made), grown),
        placed(base, data_id, made).len() == base.len() + made.len() - 1,
        placed(base, data_id, made)[last_made(base.len(), data_id, made)] == made.last(),
{
    assert(placed(base, data_id, made.update(made.len() - 1, grown)) =~= placed(
        base,
        data_id,
        made,
    ).update(last_made(base.len(), data_id, made), grown));
}

/// A section made behind the others is placed behind the others.
proof fn lemma_placed_pushed(base: Seq<Seq<u8>>, data_id: int, made: Seq<Seq<u8>>, next: Seq<u8>)
    requires
        0 <= data_id < base.len(),
        made.len() >= 1,
    ensures
        placed(base, data_id, made.push(next)) == placed(base, data_id, made).push(next),
{
    assert(placed(base, data_id, made.push(next)) =~= placed(base, data_id, made).push(next));
}

/// Packing a chunk is growing the current section by it and, where that
/// fills the section, going on in an empty one.
proof fn lemma_pack_chunks_step(made: Seq<Seq<u8>>, data: Seq<u8>, pos: int, cap: nat)
    requires
        made.len() >= 1,
        0 <= pos < data.len(),
    ensures
        ({
            let n = chunk_len(data.len(), pos);
            let grown = made.last() + data.subrange(pos, pos + n);
            let kept = made.update(made.len() - 1, grown);
            made.drop_last() + pack_chunks(made.last(), data, pos, cap) == if grown.len() >= cap {
                kept.push(Seq::empty()).drop_last() + pack_chunks(Seq::empty(), data, pos + n, cap)
            } else {
                kept.drop_last() + pack_chunks(grown, data, pos + n, cap)
            }
        }),
{
    let n = chunk_len(data.len(), pos);
    let grown = made.last() + data.subrange(pos, pos + n);
    let kept = made.update(made.len() - 1, grown);
    if grown.len() >= cap {
        assert(kept.push(Seq::empty()).drop_last() =~= kept);
        assert(kept =~= made.drop_last() + seq![grown]);
        assert(made.drop_last() + (seq![grown] + pack_chunks(Seq::empty(), data, pos + n, cap))
            =~= kept + pack_chunks(Seq::empty(), data, pos + n, cap));
    } else {
        assert(kept.drop_last() =~= made.drop_last());
    }
}

/// The contents of the sections after the record of a file was written:
/// the path stands behind the string table, and the size of the file and the
/// offset of the path behind the current data section.
pub open spec fn with_record(
    contents: Seq<Seq<u8>>,
    strings_id: int,
    data_id: int,
    path: Seq<char>,
    size: nat,
) -> Seq<Seq<u8>> {
    contents.update(strings_id, contents[strings_id] + encode_utf8(path) + seq![0u8]).update(
        data_id,
        contents[data_id] + file_header(size as u64, contents[strings_id].len() as u32),
    )
}

/// The contents of the sections after a file was packed: its record is
/// written, then its bytes.
pub open spec fn with_file(
    contents: Seq<Seq<u8>>,
    strings_id: int,
    data_id: int,
    file: (Seq<char>, Seq<u8>),
    cap: nat,
) -> Seq<Seq<u8>> {
    placed(
        with_record(contents, strings_id, data_id, file.0, file.1.len()),
        data_id,
        pack_chunks(
            with_record(contents, strings_id, data_id, file.0, file.1.len())[data_id],
            file.1,
            0,
            cap,
        ),
    )
}

/// The data section in which the packing of a file ends.
pub open spec fn data_id_after(
    contents: Seq<Seq<u8>>,
    strings_id: int,
    data_id: int,
    file: (Seq<char>, Seq<u8>),
    cap: nat,
) -> int {
    last_made(
        contents.len(),
        data_id,
        pack_chunks(
            with_record(contents, strings_id, data_id, file.0, file.1.len())[data_id],
            file.1,
            0,
            cap,
        ),
    )
}

/// The contents of the sections after the files from the `k`-th on were
/// packed, one after the other.
pub open spec fn with_files(
    contents: Seq<Seq<u8>>,
    strings_id: int,
    data_id: int,
    files: Seq<(Seq<char>, Seq<u8>)>,
    k: int,
    cap: nat,
) -> Seq<Seq<u8>>
    decreases files.len() - k,
{
    if k < 0 || k >= files.len() {
        contents
    } else {
        with_files(
            with_file(contents, strings_id, data_id, files[k], cap),
            strings_id,
            data_id_after(contents, strings_id, data_id, files[k], cap),
            files,
            k + 1,
            cap,
        )
    }
}

/// Whether a file can be packed without a size running over: the path fits
/// behind the string table at an offset of 32 bits, the bytes fit behind the
/// current data section, and the sections that the file may open can be
/// counted in 32 bits.
pub open spec fn file_fits(
    contents: Seq<Seq<u8>>,
    strings_id: int,
    data_id: int,
    file: (Seq<char>, Seq<u8>),
) -> bool {
    &&& contents[strings_id].len() + encode_utf8(file.0).len() + 1 <= u32::MAX
    &&& contents[data_id].len() + SIZE_FILE_HEADER + file.1.len() <= usize::MAX
    &&& contents.len() + file.1.len() / 8192 + 1 <= u32::MAX
}

/// Whether the files from the `k`-th on can be packed, one after the other,
/// without a size running over.
pub open spec fn files_fit(
    contents: Seq<Seq<u8>>,
    strings_id: int,
    data_id: int,
    files: Seq<(Seq<char>, Seq<u8>)>,
    k: int,
    cap: nat,
) -> bool
    decreases files.len() - k,
{
    if k < 0 || k >= files.len() {
        true
    } else {
        &&& file_fits(contents, strings_id, data_id, files[k])
        &&& files_fit(
            with_file(contents, strings_id, data_id, files[k], cap),
            strings_id,
            data_id_after(contents, strings_id, data_id, files[k], cap),
            files,
            k + 1,
            cap,
        )
    }
}

/// The contents of the sections when packing starts: the string table is
/// added unless there is one, and a new data section is added.
pub open spec fn pack_start(contents: Seq<Seq<u8>>, strings: Option<int>) -> Seq<Seq<u8>> {
    if strings is Some {
        contents.push(Seq::empty())
    } else {
        contents.push(Seq::empty()).push(Seq::empty())
    }
}

/// The headers of the sections when packing starts.
pub open spec fn pack_start_headers(
    headers: Seq<BPXSectionHeader>,
    strings: Option<int>,
) -> Seq<BPXSectionHeader> {
    if strings is Some {
        headers + fresh_data_headers(1)
    } else {
        headers.push(
            BPXSectionHeader {
                pointer: 0,
                csize: 0,
                size: 0,
                chksum: 0,
                btype: bpx::STRING_SECTION_TYPE,
                flags: crate::section::FLAG_CHECK_WEAK,
            },
        ) + fresh_data_headers(1)
    }
}

/// The files that a container holds when packing starts: none where it has
/// neither a string table nor a data section yet, else the files that its
/// sections hold.
pub open spec fn held_before(contents: Seq<Seq<u8>>, headers: Seq<BPXSectionHeader>) -> Result<
    Seq<(Seq<char>, Seq<u8>)>,
    Error,
> {
    if first_of_type(headers, bpx::STRING_SECTION_TYPE) is None && crate::packing::data_contents(
        contents,
        headers,
    ).len() == 0 {
        Ok(Seq::empty())
    } else {
        held_files(contents, headers)
    }
}

/// The index of the string table when packing starts.
pub open spec fn pack_strings_id(contents: Seq<Seq<u8>>, strings: Option<int>) -> int {
    match strings {
        Some(i) => i,
        None => contents.len() as int,
    }
}

/// The sixteen bytes of a main header that belong to a package.
pub open spec fn package_ext(a: Architecture, p: Platform) -> Seq<u8> {
    seq![
        architecture_code(a),
        platform_code(p),
        VARIANT_FIRST,
        VARIANT_SECOND,
        0u8,
        0u8,
        0u8,
        0u8,
        0u8,
        0u8,
        0u8,
        0u8,
        0u8,
        0u8,
        0u8,
        0u8,
    ]
}

/// A main header of type `P` with the bytes of a package for an
/// architecture and a platform is, where it stands in a block, the header
/// of a package for that architecture and platform.
proof fn lemma_package_header_opens(
    head: BPXPMainHeader,
    block: Seq<u8>,
    a: Architecture,
    p: Platform,
)
    requires
        block.len() == bpx::SIZE_MAIN_HEADER,
        head.stands_in(block),
        head.btype == PACKAGE_TYPE,
        head.type_ext@ == package_ext(a, p),
    ensures
        block[3] == PACKAGE_TYPE,
        architecture_of(block[24]) == Some(a),
        platform_of(block[25]) == Some(p),
        block[26] == VARIANT_FIRST,
        block[27] == VARIANT_SECOND,
{
    lemma_codes_round_trip(a, p);
    assert(head.type_ext@ == block.subrange(24, 40));
    assert(head.type_ext@[0] == block[24] && head.type_ext@[1] == block[25]);
    assert(head.type_ext@[2] == block[26] && head.type_ext@[3] == block[27]);
}

/// Saving leaves the type of every section as it was.
proof fn lemma_saved_types(
    headers: Seq<BPXSectionHeader>,
    contents: Seq<Seq<u8>>,
    headers0: Seq<BPXSectionHeader>,
)
    requires
        headers.len() == headers0.len(),
        forall|k: int|
            0 <= k < headers0.len() ==> #[trigger] bpx::is_saved_header(
                headers[k],
                contents,
                k,
                headers0[k].btype,
            ),
    ensures
        forall|k: int| 0 <= k < headers0.len() ==> (#[trigger] headers[k]).btype == headers0[k].btype,
{
    assert forall|k: int| 0 <= k < headers0.len() implies (#[trigger] headers[k]).btype
        == headers0[k].btype by {
        assert(bpx::is_saved_header(headers[k], contents, k, headers0[k].btype));
    }
}

/// Appends bytes behind the content of a section.
fn append_to_section<S: Section>(section: &mut S, bytes: &[u8]) -> (r: Result<(), Error>)
    requires
        old(section).wf(),
    ensures
        final(section).wf(),
        final(section).limit() == old(section).limit(),
        old(section).spec_size() + bytes@.len() <= old(section).limit() ==> r is Ok,
        match r {
            Ok(()) => content(final(section)) == content(old(section)) + bytes@,
            Err(e) => e == Error::SectionTooLarge,
        },
{
    proof {
        section.lemma_size_in_data();
    }
    let size = section.size();
    section.seek(SeekFrom::Start(size as u64));
    let ghost before = content(section);
    let written = section.write(bytes);
    if written < bytes.len() {
        return Err(Error::SectionTooLarge);
    }
    proof {
        section.lemma_size_in_data();
        assert(bytes@.subrange(0, written as int) =~= bytes@);
        assert(content(section) =~= before + bytes@);
    }
    Ok(())
}

/// A package in the making.
pub struct Encoder {
    /// The architecture that the package is built for.
    pub architecture: Architecture,
    /// The platform that the package is built for.
    pub platform: Platform,
    encoder: bpx::Encoder,
    max_section_size: usize,
}

impl Encoder {
    /// The container under the package.
    pub closed spec fn container(&self) -> bpx::Encoder {
        self.encoder
    }

    /// The size at which a data section counts as full.
    pub closed spec fn section_cap(&self) -> nat {
        self.max_section_size as nat
    }

    /// The architecture and the platform as set.
    pub closed spec fn target(&self) -> (Architecture, Platform) {
        (self.architecture, self.platform)
    }

    /// What packing relies on: a sound container whose sections all grow
    /// as they are written.
    pub open spec fn wf(&self) -> bool {
        &&& self.container().wf()
        &&& self.container().header().btype == PACKAGE_TYPE
        &&& forall|i: int|
            0 <= i < self.container().stores().len() ==> (
            #[trigger] self.container().stores()[i]).limit() == usize::MAX
    }

    /// A package without files, for any architecture and platform, with data
    /// sections of up to 199,991,808 bytes.
    pub fn new() -> (e: Encoder)
        ensures
            e.wf(),
            e.container().headers().len() == 0,
            e.section_cap() == MAX_DATA_SECTION_SIZE,
            e.target() == (Architecture::Any, Platform::Any),
    {
        Encoder {
            architecture: Architecture::Any,
            platform: Platform::Any,
            encoder: bpx::Encoder::new(),
            max_section_size: MAX_DATA_SECTION_SIZE,
        }
    }

    /// A package without files whose data sections count as full at the
    /// given size.
    pub fn with_section_size(max_section_size: usize) -> (e: Encoder)
        ensures
            e.wf(),
            e.container().headers().len() == 0,
            e.section_cap() == max_section_size,
            e.target() == (Architecture::Any, Platform::Any),
    {
        Encoder {
            architecture: Architecture::Any,
            platform: Platform::Any,
            encoder: bpx::Encoder::new(),
            max_section_size: max_section_size,
        }
    }

    /// The architecture and the platform that the package is built for.
    pub fn get_target(&self) -> (target: (Architecture, Platform))
        ensures
            target == self.target(),
    {
        (self.architecture, self.platform)
    }

    /// Sets the architecture and the platform that the package is built for.
    pub fn set_target(&mut self, architecture: Architecture, platform: Platform)
        ensures
            final(self).target() == (architecture, platform),
            final(self).container() == old(self).container(),
            final(self).section_cap() == old(self).section_cap(),
    {
        self.architecture = architecture;
        self.platform = platform;
    }

    /// Adds a section that grows as it is written.
    fn add_growing_section(&mut self, btype: u8) -> (r: Result<usize, Error>)
        requires
            old(self).wf(),
        ensures
            final(self).wf(),
            final(self).section_cap() == old(self).section_cap(),
            final(self).target() == old(self).target(),
            final(self).container().header().btype == old(self).container().header().btype,
            final(self).container().header().type_ext == old(self).container().header().type_ext,
            match r {
                Ok(index) => {
                    &&& index == old(self).container().headers().len()
                    &&& final(self).container().headers() == old(self).container().headers().push(
                        BPXSectionHeader {
                            pointer: 0,
                            csize: 0,
                            size: 0,
                            chksum: 0,
                            btype: btype,
                            flags: crate::section::FLAG_CHECK_WEAK,
                        },
                    )
                    &&& final(self).container().contents() == old(self).container().contents().push(
                        Seq::empty(),
                    )
                },
                Err(e) => e == Error::TooManySections && old(self).container().headers().len()
                    == u32::MAX && final(self).container() == old(self).container(),
            },
    {
        let ghost stores0 = self.encoder.stores();
        let r = self.encoder.add_section(btype, 0);
        proof {
            if let Ok(index) = r {
                let stores = self.encoder.stores();
                assert forall|i: int| 0 <= i < stores.len() implies (#[trigger] stores[i]).limit()
                    == usize::MAX by {
                    if i < index {
                        assert(stores[i] == stores.subrange(0, index as int)[i]);
                    }
                }
                stores[index as int].lemma_size_in_data();
                assert(content(&stores[index as int]) =~= Seq::<u8>::empty());
                assert(self.encoder.contents() =~= bpx::contents_of(stores0).push(Seq::empty())) by {
                    assert forall|i: int| 0 <= i < index implies self.encoder.contents()[i]
                        == bpx::contents_of(stores0)[i] by {
                        assert(stores[i] == stores.subrange(0, index as int)[i]);
                    }
                }
            }
        }
        r
    }

    /// Appends bytes behind the content of the section at `id`.
    fn append_to(&mut self, id: usize, bytes: &[u8]) -> (r: Result<(), Error>)
        requires
            old(self).wf(),
            id < old(self).container().stores().len(),
        ensures
            final(self).wf(),
            final(self).section_cap() == old(self).section_cap(),
            final(self).target() == old(self).target(),
            final(self).container().headers() == old(self).container().headers(),
            final(self).container().header() == old(self).container().header(),
            old(self).container().contents()[id as int].len() + bytes@.len() <= usize::MAX ==> r
                is Ok,
            match r {
                Ok(()) => final(self).container().contents() == old(self).container().contents().update(
                    id as int,
                    old(self).container().contents()[id as int] + bytes@,
                ),
                Err(e) => e == Error::SectionTooLarge,
            },
    {
        let ghost stores0 = self.encoder.stores();
        proof {
            stores0[id as int].lemma_size_in_data();
        }
        let section = self.encoder.get_section_by_index(id);
        let r = append_to_section(section, bytes);
        proof {
            let stores = self.encoder.stores();
            assert forall|i: int| 0 <= i < stores.len() implies (#[trigger] stores[i]).wf()
                && stores[i].limit() == usize::MAX by {
                if i != id {
                    assert(stores[i] == stores0[i]);
                    assert(stores0[i].wf());
                }
            }
            if r is Ok {
                assert(self.encoder.contents() =~= bpx::contents_of(stores0).update(
                    id as int,
                    bpx::contents_of(stores0)[id as int] + bytes@,
                )) by {
                    assert forall|i: int| 0 <= i < stores.len() && i != id implies
                        self.encoder.contents()[i] == bpx::contents_of(stores0)[i] by {
                        assert(stores[i] == stores0[i]);
                    }
                }
            }
        }
        r
    }

    /// The size of the content of the section at `id`.
    fn size_of(&self, id: usize) -> (n: usize)
        requires
            self.wf(),
            id < self.container().stores().len(),
        ensures
            n == self.container().contents()[id as int].len(),
    {
        proof {
            self.encoder.stores()[id as int].lemma_size_in_data();
        }
        self.encoder.size_of_section(id)
    }

    /// Writes the bytes of a file into the data section at `data_id`, in
    /// chunks of 8192, and goes on in a new data section whenever a chunk
    /// has filled the current one. Returns the index of the section in which
    /// the writing ended.
    fn write_file(&mut self, data: &[u8], data_id: usize) -> (r: Result<usize, Error>)
        requires
            old(self).wf(),
            data_id < old(self).container().headers().len(),
        ensures
            final(self).wf(),
            final(self).section_cap() == old(self).section_cap(),
            final(self).target() == old(self).target(),
            final(self).container().header().btype == old(self).container().header().btype,
            old(self).container().contents()[data_id as int].len() + data@.len() <= usize::MAX
                && old(self).container().headers().len() + data@.len() / 8192 + 1 <= u32::MAX
                ==> r is Ok,
            match r {
                Ok(id) => {
                    let made = pack_chunks(
                        old(self).container().contents()[data_id as int],
                        data@,
                        0,
                        old(self).section_cap(),
                    );
                    &&& made.len() >= 1
                    &&& final(self).container().contents() == placed(
                        old(self).container().contents(),
                        data_id as int,
                        made,
                    )
                    &&& final(self).container().headers() == old(self).container().headers()
                        + fresh_data_headers((made.len() - 1) as nat)
                    &&& id == last_made(old(self).container().headers().len(), data_id as int, made)
                },
                Err(e) => e == Error::SectionTooLarge || e == Error::TooManySections,
            },
    {
        let len = data.len();
        let cap = self.max_section_size;
        let ghost base = self.encoder.contents();
        let ghost headers0 = self.encoder.headers();
        let ghost n0 = headers0.len();
        let ghost whole = pack_chunks(base[data_id as int], data@, 0, cap as nat);
        let ghost made = seq![base[data_id as int]];
        let ghost chunks: nat = 0;
        let mut id = data_id;
        let mut pos: usize = 0;
        proof {
            assert(made.drop_last() + whole =~= whole);
            assert(placed(base, data_id as int, made) =~= base);
            assert(headers0 + fresh_data_headers(0) =~= headers0);
        }
        while pos < len
            invariant
                pos <= len,
                len == data@.len(),
                cap == self.max_section_size,
                self.wf(),
                self.section_cap() == old(self).section_cap(),
                self.target() == old(self).target(),
                self.container().header().btype == old(self).container().header().btype,
                base == old(self).container().contents(),
                headers0 == old(self).container().headers(),
                n0 == headers0.len(),
                base.len() == n0,
                data_id < n0,
                made.len() >= 1,
                whole == pack_chunks(base[data_id as int], data@, 0, cap as nat),
                whole == made.drop_last() + pack_chunks(made.last(), data@, pos as int, cap as nat),
                self.container().contents() == placed(base, data_id as int, made),
                self.container().headers() == headers0 + fresh_data_headers(
                    (made.len() - 1) as nat,
                ),
                id == last_made(n0, data_id as int, made),
                made.last().len() <= base[data_id as int].len() + pos,
                made.len() - 1 <= chunks,
                pos < len ==> pos == 8192 * chunks,
                8192 * chunks <= pos + 8191,
            decreases len - pos,
        {
            let n: usize = if len - pos < DATA_WRITE_BUFFER_SIZE {
                len - pos
            } else {
                DATA_WRITE_BUFFER_SIZE
            };
            let ghost grown = made.last() + data@.subrange(pos as int, pos + n);
            proof {
                lemma_placed_grown(base, data_id as int, made, grown);
                lemma_pack_chunks_step(made, data@, pos as int, cap as nat);
                assert(self.container().contents().len() == self.container().stores().len());
                assert(self.container().headers().len() == n0 + made.len() - 1);
            }
            match self.append_to(id, slice_subrange(data, pos, pos + n)) {
                Ok(()) => {},
                Err(e) => {
                    return Err(e);
                },
            }
            proof {
                made = made.update(made.len() - 1, grown);
                chunks = chunks + 1;
            }
            pos = pos + n;
            if self.size_of(id) >= cap {
                proof {
                    lemma_placed_pushed(base, data_id as int, made, Seq::empty());
                }
                id = match self.add_growing_section(DATA_SECTION_TYPE) {
                    Ok(i) => i,
                    Err(e) => {
                        return Err(e);
                    },
                };
                proof {
                    assert(headers0 + fresh_data_headers((made.len() - 1) as nat).push(
                        BPXSectionHeader {
                            pointer: 0,
                            csize: 0,
                            size: 0,
                            chksum: 0,
                            btype: DATA_SECTION_TYPE,
                            flags: crate::section::FLAG_CHECK_WEAK,
                        },
                    ) =~= headers0 + fresh_data_headers(made.len() as nat));
                    assert((headers0 + fresh_data_headers((made.len() - 1) as nat)).push(
                        BPXSectionHeader {
                            pointer: 0,
                            csize: 0,
                            size: 0,
                            chksum: 0,
                            btype: DATA_SECTION_TYPE,
                            flags: crate::section::FLAG_CHECK_WEAK,
                        },
                    ) =~= headers0 + fresh_data_headers(made.len() as nat));
                    made = made.push(Seq::empty());
                }
            }
        }
        proof {
            assert(made.drop_last() + seq![made.last()] =~= made);
        }
        Ok(id)
    }

    /// Writes a path behind the string table at `strings_id` and returns the
    /// offset at which it stands.
    fn write_name(&mut self, strings_id: usize, name: &str) -> (r: Result<u32, Error>)
        requires
            old(self).wf(),
            strings_id < old(self).container().stores().len(),
        ensures
            final(self).wf(),
            final(self).section_cap() == old(self).section_cap(),
            final(self).target() == old(self).target(),
            final(self).container().headers() == old(self).container().headers(),
            old(self).container().contents()[strings_id as int].len() + encode_utf8(name@).len()
                + 1 <= u32::MAX ==> r is Ok,
            match r {
                Ok(ptr) => {
                    &&& ptr == old(self).container().contents()[strings_id as int].len()
                    &&& final(self).container().contents() == old(self).container().contents().update(
                        strings_id as int,
                        old(self).container().contents()[strings_id as int] + encode_utf8(name@)
                            + seq![0u8],
                    )
                },
                Err(e) => e == Error::SectionTooLarge,
            },
    {
        let ghost stores0 = self.encoder.stores();
        proof {
            stores0[strings_id as int].lemma_size_in_data();
        }
        let section = self.encoder.get_section_by_index(strings_id);
        let r = write_string(name, section);
        proof {
            let stores = self.encoder.stores();
            assert forall|i: int| 0 <= i < stores.len() implies (#[trigger] stores[i]).wf()
                && stores[i].limit() == usize::MAX by {
                if i != strings_id {
                    assert(stores[i] == stores0[i]);
                    assert(stores0[i].wf());
                }
            }
            if r is Ok {
                assert(self.encoder.contents() =~= bpx::contents_of(stores0).update(
                    strings_id as int,
                    bpx::contents_of(stores0)[strings_id as int] + encode_utf8(name@) + seq![0u8],
                )) by {
                    assert forall|i: int| 0 <= i < stores.len() && i != strings_id implies
                        self.encoder.contents()[i] == bpx::contents_of(stores0)[i] by {
                        assert(stores[i] == stores0[i]);
                    }
                }
            }
        }
        r
    }

    /// Packs one file: writes its path into the string table at
    /// `strings_id`, its record and its bytes into the data section at
    /// `data_id`, and goes on in new data sections where one is full.
    /// Returns the index of the data section in which the file ends, which is
    /// where the next file goes.
    ///
    /// A file that goes into the last data section of a container that
    /// holds files, with a path that is not empty and holds no zero byte, is
    /// held by the container behind the files that it held before.
    ///
    /// Packing fails with `SectionTooLarge` or `TooManySections` where a
    /// size or a count runs over, and only then.
    pub fn pack_file(&mut self, name: &str, data: &[u8], data_id: usize, strings_id: usize) -> (r:
        Result<usize, Error>)
        requires
            old(self).wf(),
            data_id < old(self).container().headers().len(),
            strings_id < old(self).container().headers().len(),
            data_id != strings_id,
        ensures
            final(self).wf(),
            final(self).section_cap() == old(self).section_cap(),
            final(self).target() == old(self).target(),
            file_fits(
                old(self).container().contents(),
                strings_id as int,
                data_id as int,
                (name@, data@),
            ) ==> r is Ok,
            match r {
                Ok(id) => {
                    &&& final(self).container().contents() == with_file(
                        old(self).container().contents(),
                        strings_id as int,
                        data_id as int,
                        (name@, data@),
                        old(self).section_cap(),
                    )
                    &&& id == data_id_after(
                        old(self).container().contents(),
                        strings_id as int,
                        data_id as int,
                        (name@, data@),
                        old(self).section_cap(),
                    )
                    &&& data_id <= id < final(self).container().headers().len()
                    &&& id != strings_id
                    &&& final(self).container().headers() == old(self).container().headers()
                        + fresh_data_headers(
                        (final(self).container().headers().len() - old(self).container().headers().len()) as nat,
                    )
                    &&& (held_files(
                        old(self).container().contents(),
                        old(self).container().headers(),
                    ) is Ok && first_of_type(
                        old(self).container().headers(),
                        bpx::STRING_SECTION_TYPE,
                    ) == Some(strings_id as int) && is_last_data(
                        old(self).container().headers(),
                        data_id as int,
                    ) && path_sound(name@)) ==> {
                        &&& held_files(
                            final(self).container().contents(),
                            final(self).container().headers(),
                        ) == Ok::<Seq<(Seq<char>, Seq<u8>)>, Error>(
                            held_files(
                                old(self).container().contents(),
                                old(self).container().headers(),
                            )->Ok_0.push((name@, data@)),
                        )
                        &&& first_of_type(
                            final(self).container().headers(),
                            bpx::STRING_SECTION_TYPE,
                        ) == Some(strings_id as int)
                        &&& is_last_data(final(self).container().headers(), id as int)
                    }
                },
                Err(e) => e == Error::SectionTooLarge || e == Error::TooManySections,
            },
    {
        let ghost contents0 = self.encoder.contents();
        let ghost headers0 = self.encoder.headers();
        assert(contents0.len() == headers0.len());
        let ptr = match self.write_name(strings_id, name) {
            Ok(p) => p,
            Err(e) => {
                return Err(e);
            },
        };
        let size = crate::endian::write_u64(data.len() as u64);
        let place = crate::endian::write_u32(ptr);
        let mut record: Vec<u8> = Vec::new();
        append_bytes(&mut record, size.as_slice());
        append_bytes(&mut record, place.as_slice());
        assert(record@ =~= file_header(data@.len() as u64, ptr));
        match self.append_to(data_id, record.as_slice()) {
            Ok(()) => {},
            Err(e) => {
                return Err(e);
            },
        }
        assert(self.encoder.contents() == with_record(
            contents0,
            strings_id as int,
            data_id as int,
            name@,
            data@.len(),
        ));
        let r = self.write_file(data, data_id);
        proof {
            if let Ok(id) = r {
                let recorded = with_record(
                    contents0,
                    strings_id as int,
                    data_id as int,
                    name@,
                    data@.len(),
                );
                let made = pack_chunks(recorded[data_id as int], data@, 0, old(self).section_cap());
                if held_files(contents0, headers0) is Ok && first_of_type(
                    headers0,
                    bpx::STRING_SECTION_TYPE,
                ) == Some(strings_id as int) && is_last_data(headers0, data_id as int)
                    && path_sound(name@) {
                    crate::packing::lemma_pack_file_holds(
                        contents0,
                        headers0,
                        strings_id as int,
                        data_id as int,
                        (name@, data@),
                        old(self).section_cap(),
                        held_files(contents0, headers0)->Ok_0,
                    );
                    crate::packing::lemma_last_made_is_last_data(
                        headers0,
                        data_id as int,
                        (made.len() - 1) as nat,
                    );
                }
            }
        }
        r
    }

    /// Adds the metadata object of the package: a section of type `0xFE`
    /// that holds the object in its binary form.
    ///
    /// The object is refused with `TooManyValues` where it cannot be
    /// written, and the section with `TooManySections` where the container
    /// is full. The files that the container holds stay as they are.
    pub fn add_metadata(&mut self, obj: &Object) -> (r: Result<(), Error>)
        requires
            old(self).wf(),
        ensures
            final(self).wf(),
            final(self).section_cap() == old(self).section_cap(),
            final(self).target() == old(self).target(),
            crate::sd::props_fit(obj@) && old(self).container().headers().len() < u32::MAX ==> r
                is Ok,
            match r {
                Ok(()) => {
                    &&& crate::sd::props_fit(obj@)
                    &&& final(self).container().contents() == old(self).container().contents().push(
                        crate::sd::encode_object(obj@),
                    )
                    &&& final(self).container().headers() == old(self).container().headers().push(
                        BPXSectionHeader {
                            pointer: 0,
                            csize: 0,
                            size: 0,
                            chksum: 0,
                            btype: METADATA_SECTION_TYPE,
                            flags: crate::section::FLAG_CHECK_WEAK,
                        },
                    )
                    &&& crate::sd::strings_clean(crate::sd::SdValue::Object(obj@))
                        ==> crate::sd::parse_object(crate::sd::encode_object(obj@)) == Ok::<
                        Seq<(u64, crate::sd::SdValue)>,
                        Error,
                    >(obj@)
                    &&& held_before(
                        final(self).container().contents(),
                        final(self).container().headers(),
                    ) == held_before(
                        old(self).container().contents(),
                        old(self).container().headers(),
                    )
                },
                Err(e) => {
                    ||| e == Error::TooManyValues && !crate::sd::props_fit(obj@) && final(self).container() == old(self).container()
                    ||| e == Error::TooManySections && old(self).container().headers().len()
                        == u32::MAX && final(self).container() == old(self).container()
                },
            },
    {
        let mut bytes: Vec<u8> = Vec::new();
        match crate::sd::write_structured_data(&mut bytes, obj) {
            Ok(()) => {},
            Err(e) => {
                return Err(e);
            },
        }
        assert(bytes@ =~= crate::sd::encode_object(obj@));
        let ghost contents0 = self.encoder.contents();
        let ghost headers0 = self.encoder.headers();
        assert(contents0.len() == headers0.len());
        let id = match self.add_growing_section(METADATA_SECTION_TYPE) {
            Ok(i) => i,
            Err(e) => {
                return Err(e);
            },
        };
        match self.append_to(id, bytes.as_slice()) {
            Ok(()) => {},
            Err(e) => {
                assert(false);
                return Err(e);
            },
        }
        proof {
            assert(self.encoder.contents() =~= contents0.push(bytes@));
            crate::packing::lemma_other_section_holds_nothing(
                contents0,
                headers0,
                bytes@,
                self.encoder.headers().last(),
            );
        }
        Ok(())
    }

    /// Packs files, in the order given: makes sure that there is a string
    /// table, opens a new data section, and packs one file after the other
    /// as `pack_file` does.
    ///
    /// Where the paths of the files are not empty and hold no zero byte, the
    /// container then holds the files that it held before and, behind them,
    /// the files that were packed.
    ///
    /// Packing fails with `SectionTooLarge` or `TooManySections` where a
    /// size or a count runs over, and only then.
    pub fn pack(&mut self, files: &Vec<PackedFile>) -> (r: Result<(), Error>)
        requires
            old(self).wf(),
        ensures
            final(self).wf(),
            final(self).section_cap() == old(self).section_cap(),
            final(self).target() == old(self).target(),
            old(self).container().headers().len() + 2 <= u32::MAX && files_fit(
                pack_start(
                    old(self).container().contents(),
                    first_of_type(old(self).container().headers(), bpx::STRING_SECTION_TYPE),
                ),
                pack_strings_id(
                    old(self).container().contents(),
                    first_of_type(old(self).container().headers(), bpx::STRING_SECTION_TYPE),
                ),
                pack_start(
                    old(self).container().contents(),
                    first_of_type(old(self).container().headers(), bpx::STRING_SECTION_TYPE),
                ).len() - 1,
                files_view(files@),
                0,
                old(self).section_cap(),
            ) ==> r is Ok,
            match r {
                Ok(()) => {
                    &&& final(self).container().contents() == with_files(
                        pack_start(
                            old(self).container().contents(),
                            first_of_type(
                                old(self).container().headers(),
                                bpx::STRING_SECTION_TYPE,
                            ),
                        ),
                        pack_strings_id(
                            old(self).container().contents(),
                            first_of_type(
                                old(self).container().headers(),
                                bpx::STRING_SECTION_TYPE,
                            ),
                        ),
                        pack_start(
                            old(self).container().contents(),
                            first_of_type(
                                old(self).container().headers(),
                                bpx::STRING_SECTION_TYPE,
                            ),
                        ).len() - 1,
                        files_view(files@),
                        0,
                        old(self).section_cap(),
                    )
                    &&& final(self).container().headers().len() >= pack_start_headers(
                        old(self).container().headers(),
                        first_of_type(old(self).container().headers(), bpx::STRING_SECTION_TYPE),
                    ).len()
                    &&& final(self).container().headers() == pack_start_headers(
                        old(self).container().headers(),
                        first_of_type(old(self).container().headers(), bpx::STRING_SECTION_TYPE),
                    ) + fresh_data_headers(
                        (final(self).container().headers().len() - pack_start_headers(
                            old(self).container().headers(),
                            first_of_type(
                                old(self).container().headers(),
                                bpx::STRING_SECTION_TYPE,
                            ),
                        ).len()) as nat,
                    )
                    &&& (held_before(
                        old(self).container().contents(),
                        old(self).container().headers(),
                    ) is Ok && paths_sound(files_view(files@))) ==> held_files(
                        final(self).container().contents(),
                        final(self).container().headers(),
                    ) == Ok::<Seq<(Seq<char>, Seq<u8>)>, Error>(
                        held_before(
                            old(self).container().contents(),
                            old(self).container().headers(),
                        )->Ok_0 + files_view(files@),
                    )
                },
                Err(e) => e == Error::SectionTooLarge || e == Error::TooManySections,
            },
    {
        let ghost contents0 = self.encoder.contents();
        let ghost headers0 = self.encoder.headers();
        let ghost found = first_of_type(self.encoder.headers(), bpx::STRING_SECTION_TYPE);
        let ghost all = files_view(files@);
        let ghost cap = self.section_cap();
        let ghost held = held_before(contents0, headers0);
        proof {
            bpx::lemma_first_of_type(self.encoder.headers(), bpx::STRING_SECTION_TYPE);
            assert(contents0.len() == self.encoder.headers().len());
        }
        let strings = match self.encoder.find_section_by_type(bpx::STRING_SECTION_TYPE) {
            Some(v) => v,
            None => match self.add_growing_section(bpx::STRING_SECTION_TYPE) {
                Ok(v) => v,
                Err(e) => {
                    return Err(e);
                },
            },
        };
        let ghost named = self.encoder.headers();
        let ghost named_contents = self.encoder.contents();
        let mut data_id = match self.add_growing_section(DATA_SECTION_TYPE) {
            Ok(v) => v,
            Err(e) => {
                return Err(e);
            },
        };
        let ghost start = self.encoder.contents();
        let ghost start_headers = self.encoder.headers();
        let ghost first = data_id as int;
        assert(start == pack_start(contents0, found));
        assert(strings == pack_strings_id(contents0, found));
        proof {
            assert(start_headers =~= named + fresh_data_headers(1));
            assert(start_headers =~= pack_start_headers(headers0, found));
            assert(start_headers + fresh_data_headers(0) =~= start_headers);
            if held is Ok {
                if found is None {
                    crate::packing::lemma_first_package_sections(contents0, headers0);
                } else {
                    assert(named == headers0);
                    crate::packing::lemma_empty_data_section_holds_nothing(
                        contents0,
                        headers0,
                        held->Ok_0,
                    );
                }
                assert(held->Ok_0 + all.take(0) =~= held->Ok_0);
            }
        }
        let mut k: usize = 0;
        while k < files.len()
            invariant
                k <= files@.len(),
                self.wf(),
                self.section_cap() == cap,
                cap == old(self).section_cap(),
                self.target() == old(self).target(),
                all == files_view(files@),
                held == held_before(old(self).container().contents(), old(self).container().headers()),
                start == pack_start(
                    old(self).container().contents(),
                    first_of_type(old(self).container().headers(), bpx::STRING_SECTION_TYPE),
                ),
                start_headers == pack_start_headers(
                    old(self).container().headers(),
                    first_of_type(old(self).container().headers(), bpx::STRING_SECTION_TYPE),
                ),
                strings == pack_strings_id(
                    old(self).container().contents(),
                    first_of_type(old(self).container().headers(), bpx::STRING_SECTION_TYPE),
                ),
                first == start.len() - 1,
                strings != data_id,
                strings < self.container().headers().len(),
                data_id < self.container().headers().len(),
                self.container().contents().len() == self.container().headers().len(),
                self.container().headers().len() >= start_headers.len(),
                self.container().headers() == start_headers + fresh_data_headers(
                    (self.container().headers().len() - start_headers.len()) as nat,
                ),
                with_files(start, strings as int, first, all, 0, cap) == with_files(
                    self.container().contents(),
                    strings as int,
                    data_id as int,
                    all,
                    k as int,
                    cap,
                ),
                files_fit(start, strings as int, first, all, 0, cap) ==> files_fit(
                    self.container().contents(),
                    strings as int,
                    data_id as int,
                    all,
                    k as int,
                    cap,
                ),
                (held is Ok && paths_sound(all)) ==> {
                    &&& held_files(self.container().contents(), self.container().headers())
                        == Ok::<Seq<(Seq<char>, Seq<u8>)>, Error>(held->Ok_0 + all.take(k as int))
                    &&& first_of_type(self.container().headers(), bpx::STRING_SECTION_TYPE)
                        == Some(strings as int)
                    &&& is_last_data(self.container().headers(), data_id as int)
                },
            decreases files@.len() - k,
        {
            let file = &files[k];
            let ghost before = self.encoder.headers();
            proof {
                assert(all[k as int] == (file.path@, file.data@));
                if held is Ok && paths_sound(all) {
                    assert(path_sound(all[k as int].0));
                    assert((held->Ok_0 + all.take(k as int)).push(all[k as int]) =~= held->Ok_0
                        + all.take(k + 1));
                }
            }
            data_id = match self.pack_file(
                file.path.as_str(),
                file.data.as_slice(),
                data_id,
                strings,
            ) {
                Ok(id) => id,
                Err(e) => {
                    return Err(e);
                },
            };
            proof {
                let now = self.encoder.headers();
                let a = (before.len() - start_headers.len()) as nat;
                let b = (now.len() - before.len()) as nat;
                assert(start_headers + fresh_data_headers(a) + fresh_data_headers(b)
                    =~= start_headers + fresh_data_headers(a + b));
            }
            k += 1;
        }
        proof {
            assert(all.take(k as int) =~= all);
        }
        Ok(())
    }

    /// Writes the package: puts the architecture, the platform and the
    /// variant `PK` into the main header and saves the container, as
    /// `bpx::Encoder::save` does.
    ///
    /// What is written opens again as a package for the same architecture
    /// and platform, with the same sections, and unpacks to the files that
    /// the sections held.
    pub fn save(&mut self) -> (r: Result<Vec<u8>, Error>)
        requires
            old(self).wf(),
        ensures
            final(self).wf(),
            final(self).section_cap() == old(self).section_cap(),
            final(self).target() == old(self).target(),
            final(self).container().contents() == old(self).container().contents(),
            bpx::fits_format(old(self).container().contents()) && !bpx::any_compressed(
                old(self).container().contents(),
            ) ==> r is Ok,
            match r {
                Ok(file) => {
                    &&& file@ == final(self).container().header().bytes() + bpx::table_bytes(
                        final(self).container().headers(),
                    ) + bpx::payloads(old(self).container().contents())
                    &&& final(self).container().header().type_ext@ == package_ext(
                        old(self).target().0,
                        old(self).target().1,
                    )
                    &&& package_fault(file@) is None
                    &&& unpack_outcome(file@, final(self).container().headers()) == held_files(
                        old(self).container().contents(),
                        old(self).container().headers(),
                    )
                    &&& architecture_of(main_block(file@)[24]) == Some(old(self).target().0)
                    &&& platform_of(main_block(file@)[25]) == Some(old(self).target().1)
                    &&& bpx::headers_of(file@, bpx::announced_sections(file@)) == final(self).container().headers()
                    &&& forall|k: int|
                        0 <= k < old(self).container().headers().len() ==> #[trigger] section_content(
                            file@,
                            final(self).container().headers()[k],
                        ) == Ok::<Seq<u8>, Error>(old(self).container().contents()[k])
                    &&& forall|k: int|
                        0 <= k < old(self).container().headers().len() ==> (
                        #[trigger] final(self).container().headers()[k]).btype == old(self).container().headers()[k].btype
                },
                Err(e) => {
                    ||| e == Error::Deflate && bpx::any_compressed(old(self).container().contents())
                    ||| e == Error::SectionTooLarge && !bpx::fits_format(
                        old(self).container().contents(),
                    )
                },
            },
    {
        let ext: [u8; 16] = [
            get_code_from_arch(self.architecture),
            get_code_from_platform(self.platform),
            VARIANT_FIRST,
            VARIANT_SECOND,
            0,
            0,
            0,
            0,
            0,
            0,
            0,
            0,
            0,
            0,
            0,
            0,
        ];
        assert(ext@ =~= package_ext(self.architecture, self.platform));
        self.encoder.set_type(PACKAGE_TYPE, ext);
        let ghost headers0 = self.encoder.headers();
        let ghost stores0 = self.encoder.stores();
        let r = self.encoder.save();
        proof {
            let stores = self.encoder.stores();
            assert(stores.len() == stores0.len()) by {
                assert(bpx::limits_of(stores).len() == bpx::limits_of(stores0).len());
            }
            assert forall|i: int| 0 <= i < stores.len() implies (#[trigger] stores[i]).limit()
                == usize::MAX by {
                assert(bpx::limits_of(stores)[i] == bpx::limits_of(stores0)[i]);
                assert(stores0[i].limit() == usize::MAX);
            }
            if r is Ok {
                lemma_package_header_opens(
                    self.encoder.header(),
                    main_block(r->Ok_0@),
                    self.architecture,
                    self.platform,
                );
                lemma_saved_types(
                    self.encoder.headers(),
                    old(self).container().contents(),
                    headers0,
                );
                crate::packing::lemma_saved_files(
                    r->Ok_0@,
                    self.encoder.headers(),
                    old(self).container().contents(),
                );
                crate::packing::lemma_held_files_by_types(
                    old(self).container().contents(),
                    self.encoder.headers(),
                    headers0,
                );
            }
        }
        r
    }
}

} // verus!
