use bpx::bpx::Decoder;
use bpx::bpx::Encoder;
use bpx::bpx::BPXPMainHeader;
use bpx::bpx::STRING_SECTION_TYPE;
use bpx::error::Error;
use bpx::section::create_section;
use bpx::section::open_section;
use bpx::section::write_section;
use bpx::section::BPXSectionHeader;
use bpx::section::InMemorySection;
use bpx::section::Section;
use bpx::section::SectionStore;
use bpx::section::SeekFrom;

fn pattern(len: usize) -> Vec<u8> {
    let mut data = Vec::with_capacity(len);
    let mut x: u32 = 12345;
    for i in 0..len {
        x = x.wrapping_mul(1103515245).wrapping_add(12345);
        let noisy = (x >> 16) as u8;
        data.push(if i % 3 == 0 { noisy } else { (i % 7) as u8 });
    }
    data
}

fn container_of(sizes: &[usize]) -> (Vec<u8>, Vec<Vec<u8>>) {
    let mut encoder = Encoder::new();
    let mut contents = Vec::new();
    for (k, len) in sizes.iter().enumerate() {
        let data = pattern(*len + k) [k..].to_vec();
        let index = encoder.add_section(k as u8 + 1, *len as u32).unwrap();
        assert_eq!(index, k);
        let written = encoder.get_section_by_index(index).write(&data);
        assert_eq!(written, *len);
        contents.push(data);
    }
    (encoder.save().unwrap(), contents)
}

#[test]
fn attempt_write_empty_bpxp() {
    let mut encoder = Encoder::new();
    let file = encoder.save().unwrap();
    let decoder = Decoder::new(file).unwrap();
    assert_eq!(decoder.main_header.section_num, 0);
    assert_eq!(decoder.main_header.version, 1);
    assert_eq!(decoder.main_header.file_size, 40);
}

#[test]
fn empty_container_bytes() {
    let mut encoder = Encoder::new();
    let file = encoder.save().unwrap();
    let mut expected = vec![0u8; 40];
    expected[0] = b'B';
    expected[1] = b'P';
    expected[2] = b'X';
    expected[3] = b'P';
    // 'B' + 'P' + 'X' + 'P' + 40 + 1
    expected[4] = 0x63;
    expected[5] = 0x01;
    expected[8] = 40;
    expected[20] = 1;
    assert_eq!(file, expected);
}

#[test]
fn sections_read_back_across_thresholds() {
    let sizes = [0usize, 1, 8191, 8192, 65535, 65536, 1000001];
    let (file, contents) = container_of(&sizes);
    let decoder = Decoder::new(file.clone()).unwrap();
    assert_eq!(decoder.main_header.section_num, sizes.len() as u32);
    assert_eq!(decoder.main_header.file_size, file.len() as u64);
    assert_eq!(decoder.section_count(), sizes.len());
    for k in 0..sizes.len() {
        let header = decoder.get_section_by_index(k);
        assert_eq!(header.size as usize, sizes[k]);
        assert_eq!(header.btype, k as u8 + 1);
        let mut section = decoder.open_section(&header).unwrap();
        assert_eq!(section.load_in_memory(), contents[k]);
        assert_eq!(section.size(), sizes[k]);
        assert_eq!(section.read(sizes[k] + 10), contents[k]);
    }
}

#[test]
fn short_sections_are_stored_raw_and_long_ones_compressed() {
    let (file, contents) = container_of(&[65535, 65536]);
    let decoder = Decoder::new(file.clone()).unwrap();
    let raw = decoder.get_section_by_index(0);
    let packed = decoder.get_section_by_index(1);
    assert_eq!(raw.flags, 0x8);
    assert_eq!(raw.csize, 65535);
    assert_eq!(raw.pointer, 40 + 2 * 24);
    let start = raw.pointer as usize;
    assert_eq!(&file[start..start + 65535], &contents[0][..]);
    assert_eq!(packed.flags, 0xA);
    assert_eq!(packed.size, 65536);
    assert_eq!(packed.pointer, raw.pointer + 65535);
    assert_eq!(file.len() as u64, packed.pointer + packed.csize as u64);
    // An XZ stream starts with its magic bytes.
    let at = packed.pointer as usize;
    assert_eq!(&file[at..at + 6], &[0xFD, b'7', b'z', b'X', b'Z', 0x00]);
    assert!(packed.csize < 65536);
}

#[test]
fn checksums_are_the_byte_sums() {
    let (file, contents) = container_of(&[3, 70000]);
    let decoder = Decoder::new(file).unwrap();
    for k in 0..2 {
        let expected: u32 = contents[k].iter().fold(0u32, |a, b| a.wrapping_add(*b as u32));
        assert_eq!(decoder.get_section_by_index(k).chksum, expected);
    }
}

#[test]
fn changed_table_byte_is_detected() {
    let (file, _) = container_of(&[10, 70000]);
    for at in 40..40 + 2 * 24 {
        let mut changed = file.clone();
        changed[at] ^= 0x10;
        let result = Decoder::new(changed);
        assert_eq!(result.err(), Some(Error::HeaderChecksumMismatch));
    }
}

#[test]
fn retired_flags_are_refused_before_the_checksum() {
    let (file, _) = container_of(&[10]);
    let mut zlib = file.clone();
    zlib[40 + 21] |= 0x1;
    assert_eq!(Decoder::new(zlib).err(), Some(Error::UnsupportedCompression));
    let mut crc = file.clone();
    crc[40 + 21] |= 0x4;
    assert_eq!(Decoder::new(crc).err(), Some(Error::UnsupportedChecksum));
    let mut both = file.clone();
    both[40 + 21] |= 0x5;
    assert_eq!(Decoder::new(both).err(), Some(Error::UnsupportedCompression));
}

#[test]
fn changed_main_header_byte_is_detected() {
    let (file, _) = container_of(&[10]);
    let mut changed = file.clone();
    changed[30] ^= 0x01;
    assert_eq!(Decoder::new(changed).err(), Some(Error::HeaderChecksumMismatch));
}

#[test]
fn changed_raw_payload_byte_is_detected() {
    let (file, _) = container_of(&[100]);
    let decoder = Decoder::new(file.clone()).unwrap();
    let header = decoder.get_section_by_index(0);
    for offset in [0usize, 50, 99] {
        let mut changed = file.clone();
        changed[header.pointer as usize + offset] ^= 0xFF;
        let result = open_section(&changed, &header);
        assert_eq!(result.err(), Some(Error::SectionChecksumMismatch));
    }
}

#[test]
fn changed_compressed_payload_is_refused() {
    let (file, _) = container_of(&[70000]);
    let decoder = Decoder::new(file.clone()).unwrap();
    let header = decoder.get_section_by_index(0);
    let mut changed = file.clone();
    let middle = header.pointer as usize + header.csize as usize / 2;
    changed[middle] ^= 0xFF;
    let result = open_section(&changed, &header);
    assert!(matches!(result.err(), Some(Error::Inflate) | Some(Error::SectionChecksumMismatch)));
}

#[test]
fn wrong_signature_is_refused() {
    let (mut file, _) = container_of(&[10]);
    file[1] = b'Q';
    assert_eq!(Decoder::new(file).err(), Some(Error::BadSignature));
    assert_eq!(Decoder::new(Vec::new()).err(), Some(Error::BadSignature));
    assert_eq!(Decoder::new(b"BP".to_vec()).err(), Some(Error::BadSignature));
}

#[test]
fn wrong_version_is_refused() {
    let (mut file, _) = container_of(&[10]);
    file[20] = 2;
    assert_eq!(Decoder::new(file).err(), Some(Error::UnsupportedVersion(2)));
    // The signature is judged before the version.
    let (mut file, _) = container_of(&[10]);
    file[0] = b'X';
    file[20] = 2;
    assert_eq!(Decoder::new(file).err(), Some(Error::BadSignature));
    // The version is judged before the table.
    let (mut file, _) = container_of(&[10]);
    file[23] = 0x80;
    file[40 + 21] |= 0x1;
    assert_eq!(Decoder::new(file).err(), Some(Error::UnsupportedVersion(0x8000_0001)));
}

#[test]
fn huge_sections_go_to_scratch_storage() {
    assert!(create_section(&BPXSectionHeader::new(1000001, 1)).is_scratch());
    assert!(!create_section(&BPXSectionHeader::new(1000000, 1)).is_scratch());
    assert!(!create_section(&BPXSectionHeader::new(1, 1)).is_scratch());
    assert!(create_section(&BPXSectionHeader::new(0, 1)).is_scratch());
    assert!(BPXSectionHeader::new(1000001, 1).is_huge_section());
    assert!(!BPXSectionHeader::new(1000000, 1).is_huge_section());
    let (file, _) = container_of(&[1000000, 1000001]);
    let decoder = Decoder::new(file).unwrap();
    let small = decoder.open_section(&decoder.get_section_by_index(0)).unwrap();
    let huge = decoder.open_section(&decoder.get_section_by_index(1)).unwrap();
    assert!(!small.is_scratch());
    assert!(huge.is_scratch());
}

#[test]
fn finding_sections() {
    let mut encoder = Encoder::new();
    encoder.add_section(7, 4).unwrap();
    encoder.add_section(9, 4).unwrap();
    encoder.add_section(7, 4).unwrap();
    assert_eq!(encoder.find_section_by_type(7), Some(0));
    assert_eq!(encoder.find_section_by_type(9), Some(1));
    assert_eq!(encoder.find_section_by_type(8), None);
    assert_eq!(encoder.section_count(), 3);
    let file = encoder.save().unwrap();
    let decoder = Decoder::new(file).unwrap();
    assert_eq!(decoder.find_section_by_type(7), Some(decoder.get_section_by_index(0)));
    assert_eq!(decoder.find_section_by_type(9), Some(decoder.get_section_by_index(1)));
    assert_eq!(decoder.find_section_by_type(8), None);
    let all = decoder.find_all_sections_of_type(7);
    assert_eq!(all, vec![decoder.get_section_by_index(0), decoder.get_section_by_index(2)]);
    assert_eq!(decoder.find_all_sections_of_type(1), Vec::new());
    assert_eq!(decoder.find_section_by_index(2), Some(decoder.get_section_by_index(2)));
    assert_eq!(decoder.find_section_by_index(3), None);
    assert_eq!(decoder.load_string_section().err(), Some(Error::MissingStringSection));
}

#[test]
fn string_section_is_found_by_its_type() {
    let mut encoder = Encoder::new();
    encoder.add_section(1, 0).unwrap();
    let index = encoder.add_section(STRING_SECTION_TYPE, 0).unwrap();
    encoder.get_section_by_index(index).write(b"abc\0");
    let file = encoder.save().unwrap();
    let decoder = Decoder::new(file).unwrap();
    let mut strings = decoder.load_string_section().unwrap();
    assert_eq!(strings.load_in_memory(), b"abc\0".to_vec());
}

#[test]
fn section_header_bytes() {
    let header = BPXSectionHeader {
        pointer: 0x0102030405060708,
        csize: 0x11121314,
        size: 0x21222324,
        chksum: 0x31323334,
        btype: 0x41,
        flags: 0x0A,
    };
    let expected = vec![
        0x08, 0x07, 0x06, 0x05, 0x04, 0x03, 0x02, 0x01, 0x14, 0x13, 0x12, 0x11, 0x24, 0x23, 0x22,
        0x21, 0x34, 0x33, 0x32, 0x31, 0x41, 0x0A, 0x00, 0x00,
    ];
    assert_eq!(header.to_bytes(), expected);
    let sum: u32 = expected.iter().map(|b| *b as u32).sum();
    assert_eq!(header.get_checksum(), sum);
    let mut out = vec![0xEE];
    header.write(&mut out);
    assert_eq!(out[0], 0xEE);
    assert_eq!(&out[1..], &expected[..]);
    let (read_sum, read) = BPXSectionHeader::read(&out, 1);
    assert_eq!(read, header);
    assert_eq!(read_sum, sum);
    // Bytes past the end read as zero.
    let (_, short) = BPXSectionHeader::read(&out[..9], 1);
    assert_eq!(short.pointer, 0x0102030405060708);
    assert_eq!(short.csize, 0);
    assert_eq!(short.flags, 0);
}

#[test]
fn new_section_header() {
    let header = BPXSectionHeader::new(17, 3);
    assert_eq!(
        header,
        BPXSectionHeader { pointer: 0, csize: 0, size: 17, chksum: 0, btype: 3, flags: 0x8 }
    );
}

#[test]
fn main_header_bytes() {
    let mut header = BPXPMainHeader::new();
    header.chksum = 0x04030201;
    header.file_size = 0x1817161514131211;
    header.section_num = 0x24232221;
    header.type_ext = [1, 2, 3, 4, 5, 6, 7, 8, 9, 10, 11, 12, 13, 14, 15, 16];
    let bytes = header.to_bytes();
    let expected = vec![
        b'B', b'P', b'X', b'P', 0x01, 0x02, 0x03, 0x04, 0x11, 0x12, 0x13, 0x14, 0x15, 0x16, 0x17,
        0x18, 0x21, 0x22, 0x23, 0x24, 0x01, 0x00, 0x00, 0x00, 1, 2, 3, 4, 5, 6, 7, 8, 9, 10, 11,
        12, 13, 14, 15, 16,
    ];
    assert_eq!(bytes, expected);
    let without_checksum: u32 =
        expected.iter().enumerate().filter(|(i, _)| *i < 4 || *i > 7).map(|(_, b)| *b as u32).sum();
    assert_eq!(header.get_checksum(), without_checksum);
    let (sum, read) = BPXPMainHeader::read(&bytes).unwrap();
    assert_eq!(sum, without_checksum);
    assert_eq!(read.chksum, 0x04030201);
    assert_eq!(read.file_size, 0x1817161514131211);
    assert_eq!(read.section_num, 0x24232221);
    assert_eq!(read.version, 1);
    assert_eq!(read.btype, b'P');
    assert_eq!(read.type_ext, header.type_ext);
    let mut out = Vec::new();
    header.write(&mut out);
    assert_eq!(out, expected);
}

#[test]
fn in_memory_section_reads_writes_and_seeks() {
    let mut section = InMemorySection::new(vec![0; 8]);
    assert_eq!(section.size(), 0);
    assert_eq!(section.write(&[1, 2, 3]), 3);
    assert_eq!(section.size(), 3);
    assert_eq!(section.seek(SeekFrom::Start(1)), 1);
    assert_eq!(section.write(&[9]), 1);
    // Rewriting does not shrink or grow the section.
    assert_eq!(section.size(), 3);
    assert_eq!(section.seek(SeekFrom::Current(1)), 3);
    assert_eq!(section.write(&[4, 5, 6, 7, 8, 9, 10]), 5);
    assert_eq!(section.size(), 8);
    assert_eq!(section.write(&[11]), 0);
    assert_eq!(section.seek(SeekFrom::End(-2)), 6);
    assert_eq!(section.read(10), vec![7, 8]);
    assert_eq!(section.read(10), Vec::<u8>::new());
    assert_eq!(section.seek(SeekFrom::Start(0)), 0);
    assert_eq!(section.read(4), vec![1, 9, 3, 4]);
    assert_eq!(section.load_in_memory(), vec![1, 9, 3, 4, 5, 6, 7, 8]);
}

#[test]
fn scratch_section_grows() {
    let mut section = create_section(&BPXSectionHeader::new(0, 1));
    assert!(section.is_scratch());
    assert_eq!(section.write(&[1, 2, 3]), 3);
    assert_eq!(section.size(), 3);
    assert_eq!(section.seek(SeekFrom::Start(5)), 5);
    assert_eq!(section.write(&[6]), 1);
    assert_eq!(section.size(), 6);
    assert_eq!(section.load_in_memory(), vec![1, 2, 3, 0, 0, 6]);
    assert_eq!(section.seek(SeekFrom::End(-6)), 0);
    assert_eq!(section.write(&[7, 8]), 2);
    assert_eq!(section.size(), 6);
    assert_eq!(section.load_in_memory(), vec![7, 8, 3, 0, 0, 6]);
}

#[test]
fn write_section_frames_the_content() {
    let mut section = SectionStore::Memory(InMemorySection::new(vec![0; 4]));
    section.write(&[1, 2, 3, 4]);
    let mut out = vec![0xAA];
    let (csize, chksum, flags) = write_section(&mut section, &mut out).unwrap();
    assert_eq!((csize, chksum, flags), (4, 10, 0x8));
    assert_eq!(out, vec![0xAA, 1, 2, 3, 4]);
    // Only what was written counts, not the room of the buffer.
    let mut partly = SectionStore::Memory(InMemorySection::new(vec![0; 10]));
    partly.write(&[5, 6]);
    let mut out = Vec::new();
    assert_eq!(write_section(&mut partly, &mut out).unwrap(), (2, 11, 0x8));
    assert_eq!(out, vec![5, 6]);
}

#[test]
fn too_many_sections_is_not_reached_in_practice() {
    let mut encoder = Encoder::new();
    for k in 0..100 {
        assert_eq!(encoder.add_section(1, 1).unwrap(), k);
    }
    assert_eq!(encoder.main_header.section_num, 100);
}

#[test]
fn compressed_section_longer_than_announced_is_refused() {
    let (file, contents) = container_of(&[70000]);
    let decoder = Decoder::new(file.clone()).unwrap();
    let header = decoder.get_section_by_index(0);
    let mut shorter = header;
    shorter.size = 69999;
    assert_eq!(open_section(&file, &shorter).err(), Some(Error::Inflate));
    let mut longer = header;
    longer.size = 70001;
    let mut section = open_section(&file, &longer).unwrap();
    assert_eq!(section.load_in_memory(), contents[0]);
    // A stream that is cut short.
    let mut cut = header;
    cut.csize = header.csize - 1;
    assert_eq!(open_section(&file, &cut).err(), Some(Error::Inflate));
    // A payload that lies past the end of the container.
    let mut lost = header;
    lost.pointer = file.len() as u64 + 5;
    assert_eq!(open_section(&file, &lost).err(), Some(Error::Inflate));
}

#[test]
fn raw_section_past_the_end_reads_as_zeros() {
    let (file, _) = container_of(&[4]);
    let header = BPXSectionHeader {
        pointer: file.len() as u64 - 2,
        csize: 4,
        size: 4,
        chksum: 0,
        btype: 1,
        flags: 0,
    };
    let mut section = open_section(&file, &header).unwrap();
    let tail = &file[file.len() - 2..];
    assert_eq!(section.load_in_memory(), vec![tail[0], tail[1], 0, 0]);
}
