//! What is packed can be unpacked.

use crate::bpx::first_of_type;
use crate::bpx::lemma_first_of_type;
use crate::bpx::STRING_SECTION_TYPE;
use crate::bpxp::chunk_len;
use crate::bpxp::contents_in;
use crate::bpxp::data_sections;
use crate::bpxp::first_unreadable;
use crate::bpxp::fresh_data_headers;
use crate::bpxp::placed;
use crate::bpxp::unpack_outcome;
use crate::bpxp::with_file;
use crate::bpxp::with_record;
use crate::bpxp::DATA_SECTION_TYPE;
use crate::section::section_content;
use crate::section::BPXSectionHeader;
use crate::bpxp::extended;
use crate::bpxp::file_header;
use crate::bpxp::pack_chunks;
use crate::bpxp::unpack_end;
use crate::bpxp::unpack_entries;
use crate::bpxp::unpack_section;
use crate::bpxp::unpack_state;
use crate::bpxp::unpacked;
use crate::bpxp::Unpacking;
use crate::bpxp::SIZE_FILE_HEADER;
use crate::endian::u32_from_le;
use crate::endian::u32_to_le;
use crate::endian::u64_from_le;
use crate::endian::u64_to_le;
use crate::error::Error;
use crate::sd::first_zero;
use crate::strings::string_at;
use vstd::prelude::*;
use vstd::utf8::encode_utf8;

verus! {

/// The first zero byte behind a place lies at or behind the place and
/// inside the data.
proof fn lemma_first_zero_range(data: Seq<u8>, pos: int)
    requires
        first_zero(data, pos) is Some,
    ensures
        pos <= first_zero(data, pos)->0 < data.len(),
        0 <= pos,
    decreases data.len() - pos,
{
    if 0 <= pos < data.len() && data[pos] != 0 {
        lemma_first_zero_range(data, pos + 1);
    }
}

/// A zero byte that is found is found again when more bytes follow the
/// data.
proof fn lemma_first_zero_prefix(data: Seq<u8>, more: Seq<u8>, pos: int)
    requires
        first_zero(data, pos) is Some,
    ensures
        first_zero(data + more, pos) == first_zero(data, pos),
    decreases data.len() - pos,
{
    if 0 <= pos < data.len() {
        assert((data + more)[pos] == data[pos]);
        if data[pos] != 0 {
            lemma_first_zero_prefix(data, more, pos + 1);
        }
    }
}

/// A string that a table holds is still there when the table has grown.
pub proof fn lemma_string_at_prefix(table: Seq<u8>, more: Seq<u8>, ptr: int)
    requires
        string_at(table, ptr) is Ok,
    ensures
        string_at(table + more, ptr) == string_at(table, ptr),
{
    lemma_first_zero_range(table, ptr);
    lemma_first_zero_prefix(table, more, ptr);
    let end = first_zero(table, ptr)->0;
    assert((table + more).subrange(ptr, end) =~= table.subrange(ptr, end));
}

/// The records of a section read the same when the string table has grown.
proof fn lemma_entries_with_grown_table(
    table: Seq<u8>,
    more: Seq<u8>,
    data: Seq<u8>,
    pos: int,
    files: Seq<(Seq<char>, Seq<u8>)>,
)
    requires
        unpack_entries(table, data, pos, files) is Ok,
    ensures
        unpack_entries(table + more, data, pos, files) == unpack_entries(table, data, pos, files),
    decreases data.len() - pos,
{
    if 0 <= pos < data.len() && pos + SIZE_FILE_HEADER <= data.len() {
        let size = u64_from_le(data.subrange(pos, pos + 8));
        let ptr = u32_from_le(data.subrange(pos + 8, pos + 12));
        let start = pos + SIZE_FILE_HEADER;
        lemma_string_at_prefix(table, more, ptr as int);
        let path = string_at(table, ptr as int)->Ok_0;
        if path.len() > 0 && start + size <= data.len() {
            lemma_entries_with_grown_table(
                table,
                more,
                data,
                start + size,
                files.push((path, data.subrange(start, start + size))),
            );
        }
    }
}

/// A section reads the same when the string table has grown.
proof fn lemma_section_with_grown_table(
    table: Seq<u8>,
    more: Seq<u8>,
    data: Seq<u8>,
    carry: Unpacking,
)
    requires
        unpack_section(table, data, carry) is Ok,
    ensures
        unpack_section(table + more, data, carry) == unpack_section(table, data, carry),
{
    if carry.remaining > 0 && carry.files.len() > 0 {
        if carry.remaining <= data.len() {
            lemma_entries_with_grown_table(
                table,
                more,
                data,
                carry.remaining as int,
                extended(carry.files, data.subrange(0, carry.remaining as int)),
            );
        }
    } else {
        lemma_entries_with_grown_table(table, more, data, 0, carry.files);
    }
}

/// A row of sections reads the same when the string table has grown.
proof fn lemma_state_with_grown_table(
    table: Seq<u8>,
    more: Seq<u8>,
    sections: Seq<Seq<u8>>,
    carry: Unpacking,
)
    requires
        unpack_state(table, sections, carry) is Ok,
    ensures
        unpack_state(table + more, sections, carry) == unpack_state(table, sections, carry),
    decreases sections.len(),
{
    if sections.len() > 0 {
        lemma_section_with_grown_table(table, more, sections[0], carry);
        lemma_state_with_grown_table(
            table,
            more,
            sections.skip(1),
            unpack_section(table, sections[0], carry)->Ok_0,
        );
    }
}

/// Unpacking two rows of sections, one behind the other, is unpacking the
/// first and going on with the second.
proof fn lemma_state_split(
    table: Seq<u8>,
    first: Seq<Seq<u8>>,
    second: Seq<Seq<u8>>,
    carry: Unpacking,
)
    ensures
        unpack_state(table, first + second, carry) == match unpack_state(table, first, carry) {
            Err(e) => Err::<Unpacking, Error>(e),
            Ok(next) => unpack_state(table, second, next),
        },
    decreases first.len(),
{
    if first.len() == 0 {
        assert(first + second =~= second);
    } else {
        assert((first + second)[0] == first[0]);
        assert((first + second).skip(1) =~= first.skip(1) + second);
        match unpack_section(table, first[0], carry) {
            Err(e) => {},
            Ok(next) => {
                lemma_state_split(table, first.skip(1), second, next);
            },
        }
    }
}

/// Where the records of a section end with the section, they read the same
/// when more bytes follow, and reading goes on behind them.
proof fn lemma_entries_with_more_bytes(
    table: Seq<u8>,
    data: Seq<u8>,
    more: Seq<u8>,
    pos: int,
    files: Seq<(Seq<char>, Seq<u8>)>,
    done: Seq<(Seq<char>, Seq<u8>)>,
)
    requires
        0 <= pos <= data.len(),
        unpack_entries(table, data, pos, files) == Ok::<Unpacking, Error>(
            Unpacking { files: done, remaining: 0 },
        ),
    ensures
        unpack_entries(table, data + more, pos, files) == unpack_entries(
            table,
            data + more,
            data.len() as int,
            done,
        ),
    decreases data.len() - pos,
{
    if pos < data.len() {
        let size = u64_from_le(data.subrange(pos, pos + 8));
        let ptr = u32_from_le(data.subrange(pos + 8, pos + 12));
        let start = pos + SIZE_FILE_HEADER;
        let path = string_at(table, ptr as int)->Ok_0;
        assert((data + more).subrange(pos, pos + 8) =~= data.subrange(pos, pos + 8));
        assert((data + more).subrange(pos + 8, pos + 12) =~= data.subrange(pos + 8, pos + 12));
        assert((data + more).subrange(start, start + size) =~= data.subrange(start, start + size));
        lemma_entries_with_more_bytes(
            table,
            data,
            more,
            start + size,
            files.push((path, data.subrange(start, start + size))),
            done,
        );
    }
}

/// Where a section ends with the last of its files, it reads the same when
/// more bytes follow, and reading goes on behind its files.
proof fn lemma_section_with_more_bytes(
    table: Seq<u8>,
    data: Seq<u8>,
    more: Seq<u8>,
    carry: Unpacking,
    done: Seq<(Seq<char>, Seq<u8>)>,
)
    requires
        unpack_section(table, data, carry) == Ok::<Unpacking, Error>(
            Unpacking { files: done, remaining: 0 },
        ),
    ensures
        unpack_section(table, data + more, carry) == unpack_entries(
            table,
            data + more,
            data.len() as int,
            done,
        ),
{
    if carry.remaining > 0 && carry.files.len() > 0 {
        let cut = carry.remaining as int;
        assert((data + more).subrange(0, cut) =~= data.subrange(0, cut));
        lemma_entries_with_more_bytes(
            table,
            data,
            more,
            cut,
            extended(carry.files, data.subrange(0, cut)),
            done,
        );
    } else {
        lemma_entries_with_more_bytes(table, data, more, 0, carry.files, done);
    }
}

/// How far into a file the current data section is written: up to the end
/// of the chunk that fills the section, or to the end of the file.
pub open spec fn first_fill(current: nat, len: nat, pos: int, cap: nat) -> int
    decreases len - pos,
{
    if pos < 0 || pos >= len {
        pos
    } else if current + chunk_len(len, pos) >= cap {
        pos + chunk_len(len, pos)
    } else {
        first_fill((current + chunk_len(len, pos)) as nat, len, pos + chunk_len(len, pos), cap)
    }
}

/// Whether a chunk of the file fills the current data section.
pub open spec fn fills(current: nat, len: nat, pos: int, cap: nat) -> bool
    decreases len - pos,
{
    if pos < 0 || pos >= len {
        false
    } else if current + chunk_len(len, pos) >= cap {
        true
    } else {
        fills((current + chunk_len(len, pos)) as nat, len, pos + chunk_len(len, pos), cap)
    }
}

/// The sections that the bytes of a file make, told apart: the current
/// section takes the bytes up to where it is filled, and where it is
/// filled the rest of the bytes makes sections of its own.
proof fn lemma_pack_chunks_shape(current: Seq<u8>, data: Seq<u8>, pos: int, cap: nat)
    requires
        0 <= pos <= data.len(),
    ensures
        pos <= first_fill(current.len(), data.len(), pos, cap) <= data.len(),
        !fills(current.len(), data.len(), pos, cap) ==> first_fill(
            current.len(),
            data.len(),
            pos,
            cap,
        ) == data.len(),
        pack_chunks(current, data, pos, cap) == if fills(current.len(), data.len(), pos, cap) {
            seq![
                current + data.subrange(pos, first_fill(current.len(), data.len(), pos, cap)),
            ] + pack_chunks(
                Seq::empty(),
                data,
                first_fill(current.len(), data.len(), pos, cap),
                cap,
            )
        } else {
            seq![current + data.subrange(pos, data.len() as int)]
        },
    decreases data.len() - pos,
{
    if pos >= data.len() {
        assert(current + data.subrange(pos, data.len() as int) =~= current);
    } else {
        let n = chunk_len(data.len(), pos);
        let grown = current + data.subrange(pos, pos + n);
        if grown.len() < cap {
            lemma_pack_chunks_shape(grown, data, pos + n, cap);
            let end = first_fill(grown.len(), data.len(), pos + n, cap);
            assert(grown + data.subrange(pos + n, end) =~= current + data.subrange(pos, end));
            assert(grown + data.subrange(pos + n, data.len() as int) =~= current + data.subrange(
                pos,
                data.len() as int,
            ));
        }
    }
}

/// The sections that the rest of a file makes hold what the file still
/// lacks: unpacking them gives the last file its bytes from `from` on.
proof fn lemma_rest_unpacks(table: Seq<u8>, data: Seq<u8>, from: int, cap: nat, carry: Unpacking)
    requires
        0 <= from <= data.len(),
        carry.files.len() > 0,
        carry.remaining == data.len() - from,
    ensures
        unpack_state(table, pack_chunks(Seq::empty(), data, from, cap), carry) == Ok::<
            Unpacking,
            Error,
        >(
            Unpacking {
                files: extended(carry.files, data.subrange(from, data.len() as int)),
                remaining: 0,
            },
        ),
    decreases data.len() - from,
{
    let made = pack_chunks(Seq::empty(), data, from, cap);
    let whole = extended(carry.files, data.subrange(from, data.len() as int));
    if from == data.len() {
        reveal_with_fuel(unpack_state, 2);
        assert(made =~= seq![Seq::<u8>::empty()]);
        assert(made.skip(1) =~= Seq::<Seq<u8>>::empty());
        assert(whole =~= carry.files) by {
            let held = carry.files.last().1;
            assert(held + data.subrange(from, data.len() as int) =~= held);
        }
        assert(unpack_section(table, made[0], carry) == Ok::<Unpacking, Error>(carry));
    } else {
        lemma_pack_chunks_shape(Seq::empty(), data, from, cap);
        let end = first_fill(0, data.len(), from, cap);
        let first = data.subrange(from, end);
        assert(Seq::<u8>::empty() + first =~= first);
        assert(Seq::<u8>::empty() + data.subrange(from, data.len() as int) =~= data.subrange(
            from,
            data.len() as int,
        ));
        let next = Unpacking {
            files: extended(carry.files, first),
            remaining: (data.len() - end) as nat,
        };
        assert(made[0] == first);
        assert(unpack_section(table, first, carry) == Ok::<Unpacking, Error>(next)) by {
            if end == data.len() {
                assert(first.subrange(0, carry.remaining as int) =~= first);
            }
        }
        assert(extended(next.files, data.subrange(end, data.len() as int)) =~= whole) by {
            let held = carry.files.last().1;
            assert((held + first) + data.subrange(end, data.len() as int) =~= held + data.subrange(
                from,
                data.len() as int,
            ));
        }
        if fills(0, data.len(), from, cap) {
            assert(made.skip(1) =~= pack_chunks(Seq::empty(), data, end, cap));
            lemma_rest_unpacks(table, data, end, cap, next);
        } else {
            reveal_with_fuel(unpack_state, 2);
            assert(made.skip(1) =~= Seq::<Seq<u8>>::empty());
            assert(next.files =~= whole) by {
                let held = carry.files.last().1;
                assert(held + first =~= held + data.subrange(from, data.len() as int));
            }
        }
    }
}

/// The record of a file reads back: behind the files of its section stand
/// the size of the file, the offset of its path and as many of its bytes as
/// went into the section.
proof fn lemma_record_unpacks(
    table: Seq<u8>,
    before: Seq<u8>,
    path: Seq<char>,
    data: Seq<u8>,
    end: int,
    files: Seq<(Seq<char>, Seq<u8>)>,
)
    requires
        0 <= end <= data.len(),
        data.len() <= u64::MAX,
        table.len() <= u32::MAX,
        path.len() > 0,
        !encode_utf8(path).contains(0u8),
    ensures
        unpack_entries(
            table + encode_utf8(path) + seq![0u8],
            before + file_header(data.len() as u64, table.len() as u32) + data.subrange(0, end),
            before.len() as int,
            files,
        ) == Ok::<Unpacking, Error>(
            Unpacking {
                files: files.push((path, data.subrange(0, end))),
                remaining: (data.len() - end) as nat,
            },
        ),
{
    let grown = table + encode_utf8(path) + seq![0u8];
    let record = file_header(data.len() as u64, table.len() as u32);
    let section = before + record + data.subrange(0, end);
    let pos = before.len() as int;
    let start = pos + SIZE_FILE_HEADER;
    crate::endian::lemma_u64_le_round_trip(data.len() as u64);
    crate::endian::lemma_u32_le_round_trip(table.len() as u32);
    assert(record.len() == 12);
    assert(section.subrange(pos, pos + 8) =~= u64_to_le(data.len() as u64));
    assert(section.subrange(pos + 8, pos + 12) =~= u32_to_le(table.len() as u32));
    crate::strings::lemma_written_string_reads_back(table, path, Seq::empty());
    assert(table + encode_utf8(path) + seq![0u8] + Seq::<u8>::empty() =~= grown);
    assert(section.subrange(start, section.len() as int) =~= data.subrange(0, end));
    assert(u64_from_le(section.subrange(pos, pos + 8)) == data.len());
    assert(u32_from_le(section.subrange(pos + 8, pos + 12)) == table.len());
    assert(string_at(grown, table.len() as int) == Ok::<Seq<char>, Error>(path));
    assert(section.len() == start + end);
    reveal_with_fuel(unpack_entries, 2);
    if end == data.len() {
        assert(section.subrange(start, start + data.len()) =~= data.subrange(0, end));
    }
}

/// A file that is packed behind others is unpacked behind them.
///
/// Let a string table and a row of data sections hold files, the last of
/// them complete. Packing a file writes its path behind the table, its
/// record behind the last section, and its bytes behind the record, going
/// on in new sections where one is full. Unpacking what has come of this
/// gives the files that were there and, behind them, the file that was
/// packed, with its path and all its bytes.
///
/// The path must not be empty and must not hold a zero byte: an empty path
/// is refused when unpacking, and a zero byte ends a path in the table.
pub proof fn lemma_packed_file_unpacks(
    table: Seq<u8>,
    sections: Seq<Seq<u8>>,
    path: Seq<char>,
    data: Seq<u8>,
    cap: nat,
    files: Seq<(Seq<char>, Seq<u8>)>,
)
    requires
        sections.len() >= 1,
        unpacked(table, sections) == Ok::<Seq<(Seq<char>, Seq<u8>)>, Error>(files),
        path.len() > 0,
        !encode_utf8(path).contains(0u8),
        table.len() <= u32::MAX,
        data.len() <= u64::MAX,
    ensures
        unpacked(
            table + encode_utf8(path) + seq![0u8],
            sections.drop_last() + pack_chunks(
                sections.last() + file_header(data.len() as u64, table.len() as u32),
                data,
                0,
                cap,
            ),
        ) == Ok::<Seq<(Seq<char>, Seq<u8>)>, Error>(files.push((path, data))),
{
    let start = Unpacking { files: Seq::empty(), remaining: 0 };
    let grown = table + encode_utf8(path) + seq![0u8];
    let front = sections.drop_last();
    let last = sections.last();
    let record = file_header(data.len() as u64, table.len() as u32);
    let made = pack_chunks(last + record, data, 0, cap);
    let at_last = lemma_old_sections_unpack(table, encode_utf8(path) + seq![0u8], sections, files);
    assert(grown =~= table + (encode_utf8(path) + seq![0u8]));
    lemma_new_sections_unpack(table, last, path, data, cap, at_last, files);
    lemma_state_split(grown, front, made, start);
}

/// The sections that were there unpack as before when the table has grown:
/// all but the last give a carry-over, from which the last gives the files.
proof fn lemma_old_sections_unpack(
    table: Seq<u8>,
    more: Seq<u8>,
    sections: Seq<Seq<u8>>,
    files: Seq<(Seq<char>, Seq<u8>)>,
) -> (at_last: Unpacking)
    requires
        sections.len() >= 1,
        unpacked(table, sections) == Ok::<Seq<(Seq<char>, Seq<u8>)>, Error>(files),
    ensures
        unpack_state(
            table + more,
            sections.drop_last(),
            Unpacking { files: Seq::empty(), remaining: 0 },
        ) == Ok::<Unpacking, Error>(at_last),
        unpack_section(table + more, sections.last(), at_last) == Ok::<Unpacking, Error>(
            Unpacking { files: files, remaining: 0 },
        ),
{
    let start = Unpacking { files: Seq::empty(), remaining: 0 };
    let front = sections.drop_last();
    let last = sections.last();
    assert(sections =~= front + seq![last]);
    lemma_state_split(table, front, seq![last], start);
    let at_last = unpack_state(table, front, start)->Ok_0;
    reveal_with_fuel(unpack_state, 2);
    assert(seq![last].skip(1) =~= Seq::<Seq<u8>>::empty());
    assert(unpack_state(table, seq![last], at_last) == unpack_section(table, last, at_last));
    lemma_state_with_grown_table(table, more, front, start);
    lemma_section_with_grown_table(table, more, last, at_last);
    at_last
}

/// The sections that packing a file makes of the last section unpack to the
/// files that the last section gave and the file that was packed.
proof fn lemma_new_sections_unpack(
    table: Seq<u8>,
    last: Seq<u8>,
    path: Seq<char>,
    data: Seq<u8>,
    cap: nat,
    at_last: Unpacking,
    files: Seq<(Seq<char>, Seq<u8>)>,
)
    requires
        unpack_section(table + encode_utf8(path) + seq![0u8], last, at_last) == Ok::<
            Unpacking,
            Error,
        >(Unpacking { files: files, remaining: 0 }),
        path.len() > 0,
        !encode_utf8(path).contains(0u8),
        table.len() <= u32::MAX,
        data.len() <= u64::MAX,
    ensures
        unpack_state(
            table + encode_utf8(path) + seq![0u8],
            pack_chunks(
                last + file_header(data.len() as u64, table.len() as u32),
                data,
                0,
                cap,
            ),
            at_last,
        ) == Ok::<Unpacking, Error>(Unpacking { files: files.push((path, data)), remaining: 0 }),
{
    let grown = table + encode_utf8(path) + seq![0u8];
    let record = file_header(data.len() as u64, table.len() as u32);
    let made = pack_chunks(last + record, data, 0, cap);
    lemma_pack_chunks_shape(last + record, data, 0, cap);
    let end = first_fill((last + record).len(), data.len(), 0, cap);
    let first = last + record + data.subrange(0, end);
    let carried = Unpacking {
        files: files.push((path, data.subrange(0, end))),
        remaining: (data.len() - end) as nat,
    };
    lemma_first_section_unpacks(table, last, path, data, end, at_last, files);
    if fills((last + record).len(), data.len(), 0, cap) {
        lemma_rest_unpacks(grown, data, end, cap, carried);
        lemma_whole_file(files, path, data, end);
        lemma_state_cons(grown, first, pack_chunks(Seq::empty(), data, end, cap), at_last);
    } else {
        assert(data.subrange(0, end) =~= data);
        lemma_state_cons(grown, first, Seq::empty(), at_last);
    }
}

/// Unpacking a section and then a row of sections is unpacking the row
/// with the section before it.
proof fn lemma_state_cons(table: Seq<u8>, first: Seq<u8>, rest: Seq<Seq<u8>>, carry: Unpacking)
    ensures
        unpack_state(table, seq![first] + rest, carry) == match unpack_section(
            table,
            first,
            carry,
        ) {
            Err(e) => Err::<Unpacking, Error>(e),
            Ok(next) => unpack_state(table, rest, next),
        },
{
    assert((seq![first] + rest)[0] == first);
    assert((seq![first] + rest).skip(1) =~= rest);
}

/// A file whose first bytes were carried over is whole once the rest of
/// its bytes has come.
proof fn lemma_whole_file(
    files: Seq<(Seq<char>, Seq<u8>)>,
    path: Seq<char>,
    data: Seq<u8>,
    end: int,
)
    requires
        0 <= end <= data.len(),
    ensures
        extended(
            files.push((path, data.subrange(0, end))),
            data.subrange(end, data.len() as int),
        ) == files.push((path, data)),
{
    assert(data.subrange(0, end) + data.subrange(end, data.len() as int) =~= data);
    assert(extended(
        files.push((path, data.subrange(0, end))),
        data.subrange(end, data.len() as int),
    ) =~= files.push((path, data)));
}

/// The section that packing a file makes of the last section unpacks to the
/// files that the last section gave and the part of the file that went
/// into it.
proof fn lemma_first_section_unpacks(
    table: Seq<u8>,
    last: Seq<u8>,
    path: Seq<char>,
    data: Seq<u8>,
    end: int,
    at_last: Unpacking,
    files: Seq<(Seq<char>, Seq<u8>)>,
)
    requires
        unpack_section(table + encode_utf8(path) + seq![0u8], last, at_last) == Ok::<
            Unpacking,
            Error,
        >(Unpacking { files: files, remaining: 0 }),
        0 <= end <= data.len(),
        path.len() > 0,
        !encode_utf8(path).contains(0u8),
        table.len() <= u32::MAX,
        data.len() <= u64::MAX,
    ensures
        unpack_section(
            table + encode_utf8(path) + seq![0u8],
            last + file_header(data.len() as u64, table.len() as u32) + data.subrange(0, end),
            at_last,
        ) == Ok::<Unpacking, Error>(
            Unpacking {
                files: files.push((path, data.subrange(0, end))),
                remaining: (data.len() - end) as nat,
            },
        ),
{
    let grown = table + encode_utf8(path) + seq![0u8];
    let record = file_header(data.len() as u64, table.len() as u32);
    let first = last + record + data.subrange(0, end);
    assert(first =~= last + (record + data.subrange(0, end)));
    lemma_section_with_more_bytes(grown, last, record + data.subrange(0, end), at_last, files);
    lemma_record_unpacks(table, last, path, data, end, files);
}

/// The contents of the data sections among the sections of a container,
/// in table order.
pub open spec fn data_contents(contents: Seq<Seq<u8>>, headers: Seq<BPXSectionHeader>) -> Seq<
    Seq<u8>,
>
    decreases headers.len(),
{
    if headers.len() == 0 || contents.len() != headers.len() {
        Seq::empty()
    } else if headers.last().btype == DATA_SECTION_TYPE {
        data_contents(contents.drop_last(), headers.drop_last()).push(contents.last())
    } else {
        data_contents(contents.drop_last(), headers.drop_last())
    }
}

/// The files that the sections of a container hold: what unpacking its
/// data sections gives, with the paths from its string table.
pub open spec fn held_files(contents: Seq<Seq<u8>>, headers: Seq<BPXSectionHeader>) -> Result<
    Seq<(Seq<char>, Seq<u8>)>,
    Error,
> {
    match first_of_type(headers, STRING_SECTION_TYPE) {
        None => Err(Error::MissingStringSection),
        Some(i) => unpacked(contents[i], data_contents(contents, headers)),
    }
}

/// Whether the section at `data_id` is the last data section of the table.
pub open spec fn is_last_data(headers: Seq<BPXSectionHeader>, data_id: int) -> bool {
    &&& 0 <= data_id < headers.len()
    &&& headers[data_id].btype == DATA_SECTION_TYPE
    &&& forall|j: int| data_id < j < headers.len() ==> (#[trigger] headers[j]).btype
        != DATA_SECTION_TYPE
}

/// Changing a section that is no data section leaves the contents of the
/// data sections as they are.
proof fn lemma_data_contents_other(
    contents: Seq<Seq<u8>>,
    headers: Seq<BPXSectionHeader>,
    i: int,
    content: Seq<u8>,
)
    requires
        contents.len() == headers.len(),
        0 <= i < headers.len(),
        headers[i].btype != DATA_SECTION_TYPE,
    ensures
        data_contents(contents.update(i, content), headers) == data_contents(contents, headers),
    decreases headers.len(),
{
    let changed = contents.update(i, content);
    if i == headers.len() - 1 {
        assert(changed.drop_last() =~= contents.drop_last());
    } else {
        assert(changed.drop_last() =~= contents.drop_last().update(i, content));
        assert(headers.drop_last()[i] == headers[i]);
        lemma_data_contents_other(contents.drop_last(), headers.drop_last(), i, content);
    }
}

/// Changing the last data section changes the last of the contents of the
/// data sections.
proof fn lemma_data_contents_last(
    contents: Seq<Seq<u8>>,
    headers: Seq<BPXSectionHeader>,
    data_id: int,
    content: Seq<u8>,
)
    requires
        contents.len() == headers.len(),
        is_last_data(headers, data_id),
    ensures
        data_contents(contents, headers).len() >= 1,
        data_contents(contents, headers).last() == contents[data_id],
        data_contents(contents.update(data_id, content), headers) == data_contents(
            contents,
            headers,
        ).drop_last().push(content),
    decreases headers.len(),
{
    let changed = contents.update(data_id, content);
    if data_id == headers.len() - 1 {
        assert(changed.drop_last() =~= contents.drop_last());
        assert(data_contents(contents, headers).drop_last() =~= data_contents(
            contents.drop_last(),
            headers.drop_last(),
        ));
    } else {
        assert(headers[headers.len() - 1].btype != DATA_SECTION_TYPE);
        assert(changed.drop_last() =~= contents.drop_last().update(data_id, content));
        assert(is_last_data(headers.drop_last(), data_id)) by {
            assert forall|j: int| data_id < j < headers.drop_last().len() implies (
            #[trigger] headers.drop_last()[j]).btype != DATA_SECTION_TYPE by {
                assert(headers.drop_last()[j] == headers[j]);
            }
        }
        lemma_data_contents_last(contents.drop_last(), headers.drop_last(), data_id, content);
    }
}

/// Data sections that are added behind the others add their contents
/// behind the contents of the data sections.
proof fn lemma_data_contents_added(
    contents: Seq<Seq<u8>>,
    headers: Seq<BPXSectionHeader>,
    added: Seq<Seq<u8>>,
)
    requires
        contents.len() == headers.len(),
    ensures
        data_contents(contents + added, headers + fresh_data_headers(added.len())) == data_contents(
            contents,
            headers,
        ) + added,
    decreases added.len(),
{
    let all = contents + added;
    let table = headers + fresh_data_headers(added.len());
    if added.len() == 0 {
        assert(all =~= contents);
        assert(table =~= headers);
        assert(data_contents(contents, headers) + added =~= data_contents(contents, headers));
    } else {
        let front = added.drop_last();
        lemma_data_contents_added(contents, headers, front);
        assert(all.drop_last() =~= contents + front);
        assert(table.drop_last() =~= headers + fresh_data_headers(front.len()));
        assert(table.last().btype == DATA_SECTION_TYPE);
        assert(all.last() == added.last());
        assert((data_contents(contents, headers) + front).push(added.last()) =~= data_contents(
            contents,
            headers,
        ) + added);
    }
}

/// Data sections that are added leave the string table where it is.
proof fn lemma_first_string_kept(headers: Seq<BPXSectionHeader>, n: nat)
    ensures
        first_of_type(headers + fresh_data_headers(n), STRING_SECTION_TYPE) == first_of_type(
            headers,
            STRING_SECTION_TYPE,
        ),
    decreases n,
{
    let table = headers + fresh_data_headers(n);
    if n == 0 {
        assert(table =~= headers);
    } else {
        lemma_first_string_kept(headers, (n - 1) as nat);
        assert(table.drop_last() =~= headers + fresh_data_headers((n - 1) as nat));
        assert(table.last().btype == DATA_SECTION_TYPE);
    }
}

/// A file that is packed into a container is held by it, behind the files
/// that it held before.
///
/// The path of the file must not be empty and must not hold a zero byte,
/// the file must go into the last data section of the container, and its
/// path into the string table.
pub proof fn lemma_pack_file_holds(
    contents: Seq<Seq<u8>>,
    headers: Seq<BPXSectionHeader>,
    strings_id: int,
    data_id: int,
    file: (Seq<char>, Seq<u8>),
    cap: nat,
    files: Seq<(Seq<char>, Seq<u8>)>,
)
    requires
        contents.len() == headers.len(),
        first_of_type(headers, STRING_SECTION_TYPE) == Some(strings_id),
        is_last_data(headers, data_id),
        held_files(contents, headers) == Ok::<Seq<(Seq<char>, Seq<u8>)>, Error>(files),
        file.0.len() > 0,
        !encode_utf8(file.0).contains(0u8),
        contents[strings_id].len() <= u32::MAX,
        file.1.len() <= u64::MAX,
    ensures
        held_files(
            with_file(contents, strings_id, data_id, file, cap),
            headers + fresh_data_headers(
                (pack_chunks(
                    with_record(contents, strings_id, data_id, file.0, file.1.len())[data_id],
                    file.1,
                    0,
                    cap,
                ).len() - 1) as nat,
            ),
        ) == Ok::<Seq<(Seq<char>, Seq<u8>)>, Error>(files.push(file)),
        pack_chunks(
            with_record(contents, strings_id, data_id, file.0, file.1.len())[data_id],
            file.1,
            0,
            cap,
        ).len() >= 1,
{
    lemma_first_of_type(headers, STRING_SECTION_TYPE);
    let table = contents[strings_id];
    let grown = table + encode_utf8(file.0) + seq![0u8];
    let record = file_header(file.1.len() as u64, table.len() as u32);
    let named = contents.update(strings_id, grown);
    let recorded = with_record(contents, strings_id, data_id, file.0, file.1.len());
    assert(recorded == named.update(data_id, contents[data_id] + record));
    let made = pack_chunks(recorded[data_id], file.1, 0, cap);
    lemma_pack_chunks_shape(recorded[data_id], file.1, 0, cap);
    let after = with_file(contents, strings_id, data_id, file, cap);
    let fresh = fresh_data_headers((made.len() - 1) as nat);
    let sections = data_contents(contents, headers);
    lemma_data_contents_other(contents, headers, strings_id, grown);
    lemma_data_contents_last(contents, headers, data_id, contents[data_id] + record);
    lemma_data_contents_last(named, headers, data_id, contents[data_id] + record);
    lemma_data_contents_last(recorded, headers, data_id, made[0]);
    assert(recorded.update(data_id, made[0]) + made.skip(1) == after);
    lemma_data_contents_added(recorded.update(data_id, made[0]), headers, made.skip(1));
    lemma_first_string_kept(headers, (made.len() - 1) as nat);
    assert(data_contents(after, headers + fresh) =~= sections.drop_last() + made) by {
        assert(seq![made[0]] + made.skip(1) =~= made);
    }
    assert(after[strings_id] == grown);
    assert(recorded[data_id] == sections.last() + record);
    lemma_packed_file_unpacks(table, sections, file.0, file.1, cap, files);
}

/// What a saved container unpacks to is what its sections held: where every
/// section reads back with its content, unpacking the container gives the
/// files that the contents hold.
pub proof fn lemma_saved_files(
    file: Seq<u8>,
    headers: Seq<BPXSectionHeader>,
    contents: Seq<Seq<u8>>,
)
    requires
        contents.len() == headers.len(),
        forall|k: int|
            0 <= k < headers.len() ==> #[trigger] section_content(file, headers[k]) == Ok::<
                Seq<u8>,
                Error,
            >(contents[k]),
    ensures
        unpack_outcome(file, headers) == held_files(contents, headers),
{
    lemma_first_of_type(headers, STRING_SECTION_TYPE);
    lemma_data_sections_read(file, headers, contents);
    if let Some(i) = first_of_type(headers, STRING_SECTION_TYPE) {
        assert(section_content(file, headers[i]) == Ok::<Seq<u8>, Error>(contents[i]));
    }
}

/// Where every section of a container reads back with its content, so do
/// its data sections.
proof fn lemma_data_sections_read(
    file: Seq<u8>,
    headers: Seq<BPXSectionHeader>,
    contents: Seq<Seq<u8>>,
)
    requires
        contents.len() == headers.len(),
        forall|k: int|
            0 <= k < headers.len() ==> #[trigger] section_content(file, headers[k]) == Ok::<
                Seq<u8>,
                Error,
            >(contents[k]),
    ensures
        first_unreadable(file, data_sections(headers)) is None,
        contents_in(file, data_sections(headers)) == data_contents(contents, headers),
    decreases headers.len(),
{
    reveal(Seq::filter);
    if headers.len() == 0 {
        assert(contents_in(file, data_sections(headers)) =~= data_contents(contents, headers));
    } else {
        let front = headers.drop_last();
        assert forall|k: int| 0 <= k < front.len() implies #[trigger] section_content(
            file,
            front[k],
        ) == Ok::<Seq<u8>, Error>(contents.drop_last()[k]) by {
            assert(front[k] == headers[k]);
            assert(section_content(file, headers[k]) == Ok::<Seq<u8>, Error>(contents[k]));
        }
        lemma_data_sections_read(file, front, contents.drop_last());
        assert(section_content(file, headers[headers.len() - 1]) == Ok::<Seq<u8>, Error>(
            contents[headers.len() - 1],
        ));
        if headers.last().btype == DATA_SECTION_TYPE {
            assert(data_sections(headers) =~= data_sections(front).push(headers.last()));
            assert(data_sections(headers).drop_last() =~= data_sections(front));
            assert(contents_in(file, data_sections(headers)) =~= contents_in(
                file,
                data_sections(front),
            ).push(contents.last()));
        } else {
            assert(data_sections(headers) =~= data_sections(front));
        }
    }
}

/// Whether a path can be packed and found again: it is not empty and holds
/// no zero byte.
pub open spec fn path_sound(path: Seq<char>) -> bool {
    path.len() > 0 && !encode_utf8(path).contains(0u8)
}

/// Whether the paths of all the files can be packed and found again.
pub open spec fn paths_sound(files: Seq<(Seq<char>, Seq<u8>)>) -> bool {
    forall|i: int| 0 <= i < files.len() ==> path_sound((#[trigger] files[i]).0)
}

/// What a container holds depends on the types of its sections only, not
/// on what else their headers say.
pub proof fn lemma_held_files_by_types(
    contents: Seq<Seq<u8>>,
    headers: Seq<BPXSectionHeader>,
    others: Seq<BPXSectionHeader>,
)
    requires
        headers.len() == others.len(),
        forall|k: int| 0 <= k < headers.len() ==> (#[trigger] headers[k]).btype == others[k].btype,
    ensures
        held_files(contents, headers) == held_files(contents, others),
{
    lemma_types_decide(contents, headers, others);
}

/// The string table and the data sections are found by the types of the
/// sections.
proof fn lemma_types_decide(
    contents: Seq<Seq<u8>>,
    headers: Seq<BPXSectionHeader>,
    others: Seq<BPXSectionHeader>,
)
    requires
        headers.len() == others.len(),
        forall|k: int| 0 <= k < headers.len() ==> (#[trigger] headers[k]).btype == others[k].btype,
    ensures
        first_of_type(headers, STRING_SECTION_TYPE) == first_of_type(others, STRING_SECTION_TYPE),
        data_contents(contents, headers) == data_contents(contents, others),
    decreases headers.len(),
{
    if headers.len() > 0 {
        assert forall|k: int| 0 <= k < headers.drop_last().len() implies (
        #[trigger] headers.drop_last()[k]).btype == others.drop_last()[k].btype by {
            assert(headers.drop_last()[k] == headers[k]);
            assert(others.drop_last()[k] == others[k]);
        }
        assert(headers[headers.len() - 1].btype == others[headers.len() - 1].btype);
        lemma_types_decide(contents.drop_last(), headers.drop_last(), others.drop_last());
    }
}

/// An empty data section that is added behind the others holds no file and
/// is the last data section.
pub proof fn lemma_empty_data_section_holds_nothing(
    contents: Seq<Seq<u8>>,
    headers: Seq<BPXSectionHeader>,
    files: Seq<(Seq<char>, Seq<u8>)>,
)
    requires
        contents.len() == headers.len(),
        held_files(contents, headers) == Ok::<Seq<(Seq<char>, Seq<u8>)>, Error>(files),
    ensures
        held_files(contents.push(Seq::empty()), headers + fresh_data_headers(1)) == Ok::<
            Seq<(Seq<char>, Seq<u8>)>,
            Error,
        >(files),
        is_last_data(headers + fresh_data_headers(1), headers.len() as int),
        first_of_type(headers + fresh_data_headers(1), STRING_SECTION_TYPE) == first_of_type(
            headers,
            STRING_SECTION_TYPE,
        ),
{
    lemma_first_of_type(headers, STRING_SECTION_TYPE);
    lemma_first_string_kept(headers, 1);
    let added = seq![Seq::<u8>::empty()];
    lemma_data_contents_added(contents, headers, added);
    assert(contents + added =~= contents.push(Seq::empty()));
    let table = contents[first_of_type(headers, STRING_SECTION_TYPE)->0];
    let start = Unpacking { files: Seq::empty(), remaining: 0 };
    lemma_state_split(table, data_contents(contents, headers), added, start);
    reveal_with_fuel(unpack_state, 2);
    assert(added.skip(1) =~= Seq::<Seq<u8>>::empty());
}

/// A section that is neither a string table nor a data section holds no
/// file: adding it leaves the string table, the data sections and the files
/// that they hold as they are.
pub proof fn lemma_other_section_holds_nothing(
    contents: Seq<Seq<u8>>,
    headers: Seq<BPXSectionHeader>,
    content: Seq<u8>,
    header: BPXSectionHeader,
)
    requires
        contents.len() == headers.len(),
        header.btype != STRING_SECTION_TYPE,
        header.btype != DATA_SECTION_TYPE,
    ensures
        first_of_type(headers.push(header), STRING_SECTION_TYPE) == first_of_type(
            headers,
            STRING_SECTION_TYPE,
        ),
        data_contents(contents.push(content), headers.push(header)) == data_contents(
            contents,
            headers,
        ),
        crate::bpxp::held_before(contents.push(content), headers.push(header))
            == crate::bpxp::held_before(contents, headers),
{
    lemma_first_of_type(headers, STRING_SECTION_TYPE);
    assert(headers.push(header).drop_last() =~= headers);
    assert(contents.push(content).drop_last() =~= contents);
    if let Some(i) = first_of_type(headers, STRING_SECTION_TYPE) {
        assert(contents.push(content)[i] == contents[i]);
    }
}

/// A container without a string table and without data sections holds no
/// file once it has got the string table and the first data section for
/// packing.
pub proof fn lemma_first_package_sections(contents: Seq<Seq<u8>>, headers: Seq<BPXSectionHeader>)
    requires
        contents.len() == headers.len(),
        first_of_type(headers, STRING_SECTION_TYPE) is None,
        data_contents(contents, headers).len() == 0,
    ensures
        held_files(
            crate::bpxp::pack_start(contents, None),
            crate::bpxp::pack_start_headers(headers, None),
        ) == Ok::<Seq<(Seq<char>, Seq<u8>)>, Error>(Seq::empty()),
        is_last_data(crate::bpxp::pack_start_headers(headers, None), (headers.len() + 1) as int),
        first_of_type(crate::bpxp::pack_start_headers(headers, None), STRING_SECTION_TYPE) == Some(
            headers.len() as int,
        ),
{
    let named = headers.push(
        BPXSectionHeader {
            pointer: 0,
            csize: 0,
            size: 0,
            chksum: 0,
            btype: STRING_SECTION_TYPE,
            flags: crate::section::FLAG_CHECK_WEAK,
        },
    );
    let started = crate::bpxp::pack_start_headers(headers, None);
    let filled = crate::bpxp::pack_start(contents, None);
    let empty = Seq::<u8>::empty();
    lemma_first_of_type(headers, STRING_SECTION_TYPE);
    assert(named.drop_last() =~= headers);
    assert(contents.push(empty).drop_last() =~= contents);
    assert(first_of_type(named, STRING_SECTION_TYPE) == Some(headers.len() as int));
    assert(data_contents(contents.push(empty), named) == data_contents(contents, headers));
    lemma_first_string_kept(named, 1);
    lemma_data_contents_added(contents.push(empty), named, seq![empty]);
    assert(contents.push(empty) + seq![empty] =~= filled);
    assert(data_contents(filled, started) =~= seq![empty]);
    reveal_with_fuel(unpack_state, 2);
    assert(seq![empty].skip(1) =~= Seq::<Seq<u8>>::empty());
    assert(filled[headers.len() as int] == empty);
}

/// Behind data sections that were added, the last of them is the last data
/// section; without any, the last data section stays.
pub proof fn lemma_last_made_is_last_data(headers: Seq<BPXSectionHeader>, data_id: int, n: nat)
    requires
        is_last_data(headers, data_id),
    ensures
        is_last_data(
            headers + fresh_data_headers(n),
            if n == 0 {
                data_id
            } else {
                headers.len() + n - 1
            },
        ),
        first_of_type(headers + fresh_data_headers(n), STRING_SECTION_TYPE) == first_of_type(
            headers,
            STRING_SECTION_TYPE,
        ),
{
    lemma_first_string_kept(headers, n);
    let table = headers + fresh_data_headers(n);
    if n == 0 {
        assert(table =~= headers);
    }
}

} // verus!
