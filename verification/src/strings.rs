//! The string table: zero-terminated UTF-8 strings in a section, found by
//! their offset.

use crate::error::Error;
use crate::sd::first_zero;
use crate::sd::string_from_utf8;
use crate::section::content;
use crate::section::Section;
use crate::section::SeekFrom;
use vstd::prelude::*;
use vstd::utf8::decode_utf8;
use vstd::utf8::encode_utf8;
use vstd::utf8::valid_utf8;

verus! {

/// The string that starts at `ptr`: the bytes up to the first zero byte,
/// which must be there, read as UTF-8, which they must be.
///
/// Nothing asks `ptr` to be the start of a string that was written: an
/// offset into the middle of a string gives the rest of that string.
pub open spec fn string_at(data: Seq<u8>, ptr: int) -> Result<Seq<char>, Error> {
    match first_zero(data, ptr) {
        None => Err(Error::UnexpectedEof),
        Some(end) => if valid_utf8(data.subrange(ptr, end)) {
            Ok(decode_utf8(data.subrange(ptr, end)))
        } else {
            Err(Error::InvalidUtf8)
        },
    }
}

/// A string that was written reads back at the offset at which it was
/// written, whatever stands before and behind it, unless it holds a zero
/// byte.
pub proof fn lemma_written_string_reads_back(before: Seq<u8>, s: Seq<char>, after: Seq<u8>)
    requires
        !encode_utf8(s).contains(0u8),
    ensures
        string_at(before + encode_utf8(s) + seq![0u8] + after, before.len() as int) == Ok::<
            Seq<char>,
            Error,
        >(s),
{
    let bytes = encode_utf8(s);
    let data = before + bytes + seq![0u8] + after;
    let pos = before.len() as int;
    let len = bytes.len() as int;
    assert(data[pos + len] == 0);
    assert forall|j: int| pos <= j < pos + len implies #[trigger] data[j] != 0 by {
        assert(data[j] == bytes[j - pos]);
        assert(bytes.contains(bytes[j - pos]));
    }
    crate::sd::lemma_first_zero(data, pos, len, 0);
    assert(data.subrange(pos, pos + len) =~= bytes);
    vstd::utf8::encode_utf8_valid_utf8(s);
    vstd::utf8::encode_utf8_decode_utf8(s);
}

/// `std::path::Path::file_name` on the path that the string spells, turned
/// back into a string. What counts as the final component of a path is the
/// platform's affair, so nothing is claimed of the result.
#[verifier::external_body]
fn path_file_name(path: &str) -> (name: Option<String>) {
    std::path::Path::new(path).file_name().and_then(|n| n.to_str()).map(String::from)
}

/// Reads the string that starts at offset `ptr` of the section. The cursor
/// of the section is left behind what was read.
pub fn get_string<S: Section>(ptr: u32, string_section: &mut S) -> (r: Result<String, Error>)
    requires
        old(string_section).wf(),
    ensures
        final(string_section).wf(),
        final(string_section).data() == old(string_section).data(),
        final(string_section).spec_size() == old(string_section).spec_size(),
        final(string_section).limit() == old(string_section).limit(),
        match r {
            Ok(s) => string_at(old(string_section).data(), ptr as int) == Ok::<Seq<char>, Error>(
                s@,
            ),
            Err(e) => string_at(old(string_section).data(), ptr as int) == Err::<
                Seq<char>,
                Error,
            >(e),
        },
{
    let mut curs: Vec<u8> = Vec::new();
    string_section.seek(SeekFrom::Start(ptr as u64));
    let ghost data = string_section.data();
    loop
        invariant
            string_section.wf(),
            string_section.data() == data,
            data == old(string_section).data(),
            string_section.spec_size() == old(string_section).spec_size(),
            string_section.limit() == old(string_section).limit(),
            string_section.cursor() == ptr + curs@.len(),
            first_zero(data, ptr as int) == first_zero(data, ptr + curs@.len()),
            curs@.len() == 0 || ptr + curs@.len() <= data.len(),
            forall|k: int| 0 <= k < curs@.len() ==> #[trigger] curs@[k] == data[ptr + k],
        decreases data.len() + 1 - curs@.len(),
    {
        let chr = string_section.read(1);
        if chr.len() == 0 {
            return Err(Error::UnexpectedEof);
        }
        let byte = chr[0];
        assert(byte == data[ptr + curs@.len()]);
        if byte == 0 {
            assert(curs@ =~= data.subrange(ptr as int, ptr + curs@.len()));
            return match string_from_utf8(curs) {
                Some(v) => Ok(v),
                None => Err(Error::InvalidUtf8),
            };
        }
        curs.push(byte);
    }
}

/// Whether a string can be added to a section: its offset fits in 32 bits
/// and the section has room for its bytes and the zero byte behind them.
pub open spec fn string_fits<S: Section>(section: &S, s: Seq<char>) -> bool {
    &&& section.spec_size() <= u32::MAX
    &&& section.spec_size() + encode_utf8(s).len() + 1 <= section.limit()
}

/// Adds a string behind the content of the section and returns the offset at
/// which it starts.
///
/// The string is written as its UTF-8 bytes and a zero byte. It is refused
/// with `SectionTooLarge` where it does not fit; the section may then hold a
/// part of it behind its former content.
pub fn write_string<S: Section>(s: &str, string_section: &mut S) -> (r: Result<u32, Error>)
    requires
        old(string_section).wf(),
    ensures
        final(string_section).wf(),
        final(string_section).limit() == old(string_section).limit(),
        match r {
            Ok(ptr) => {
                &&& string_fits(old(string_section), s@)
                &&& ptr == old(string_section).spec_size()
                &&& content(final(string_section)) == content(old(string_section)) + encode_utf8(
                    s@,
                ) + seq![0u8]
            },
            Err(e) => e == Error::SectionTooLarge && !string_fits(old(string_section), s@),
        },
{
    proof {
        string_section.lemma_size_in_data();
    }
    let size = string_section.size();
    if size > u32::MAX as usize {
        return Err(Error::SectionTooLarge);
    }
    string_section.seek(SeekFrom::Start(size as u64));
    let ghost before = content(string_section);
    let bytes = s.as_bytes();
    let written = string_section.write(bytes);
    if written < bytes.len() {
        return Err(Error::SectionTooLarge);
    }
    proof {
        string_section.lemma_size_in_data();
        assert(bytes@.subrange(0, written as int) =~= bytes@);
        assert(content(string_section) =~= before + bytes@);
    }
    let ghost middle = content(string_section);
    let end: [u8; 1] = [0];
    let finished = string_section.write(end.as_slice());
    if finished < 1 {
        return Err(Error::SectionTooLarge);
    }
    proof {
        string_section.lemma_size_in_data();
        assert(end@.subrange(0, 1) =~= seq![0u8]);
        assert(content(string_section) =~= middle + seq![0u8]);
    }
    Ok(size as u32)
}

/// The name that a file is packed under, given the final component of its
/// path as the platform sees it: the component itself, and the refusal
/// `InvalidPath` where the path has none.
pub fn name_from_file_name(file_name: Option<String>) -> (r: Result<String, Error>)
    ensures
        r == match file_name {
            Some(name) => Ok::<String, Error>(name),
            None => Err::<String, Error>(Error::InvalidPath),
        },
{
    match file_name {
        Some(v) => Ok(v),
        None => Err(Error::InvalidPath),
    }
}

/// The final component of a path, which is what a file is packed under. A
/// path without one, such as the root, is refused with `InvalidPath`. The
/// platform says what the final component is.
pub fn get_name_from_path(path: &str) -> (r: Result<String, Error>)
    ensures
        r matches Err(e) ==> e == Error::InvalidPath,
{
    name_from_file_name(path_file_name(path))
}

} // verus!
