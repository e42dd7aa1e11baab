use bpx::bpx::BPXPMainHeader;
use bpx::bpxp::get_arch_platform_from_code;
use bpx::bpxp::unpack_files;
use bpx::bpxp::Architecture;
use bpx::bpxp::Decoder;
use bpx::bpxp::Encoder;
use bpx::bpxp::PackedFile;
use bpx::bpxp::Platform;
use bpx::error::Error;
use bpx::packager::architecture_from_name;
use bpx::packager::platform_from_name;
use bpx::packager::set_type_ext;
use bpx::profile::Profile;
use bpx::sd::write_structured_data;
use bpx::sd::Object;
use bpx::sd::Value;
use bpx::section::create_section;
use bpx::section::BPXSectionHeader;
use bpx::section::Section;
use bpx::strings::write_string;
use bpx::unpack::run;

fn file(path: &str, data: Vec<u8>) -> PackedFile {
    PackedFile { path: String::from(path), data }
}

fn bytes(len: usize, seed: u8) -> Vec<u8> {
    (0..len).map(|i| (i as u8).wrapping_mul(31).wrapping_add(seed)).collect()
}

fn same_files(a: &[PackedFile], b: &[PackedFile]) -> bool {
    a == b
}

#[test]
fn bpx_attempt_write_empty_bpxp() {
    let mut encoder = Encoder::new();
    let file = encoder.save().unwrap();
    let decoder = Decoder::new(file.clone()).unwrap();
    let (_, header) = BPXPMainHeader::read(&file).unwrap();
    assert_eq!(header.section_num, 0);
    assert_eq!(header.version, 1);
    assert_eq!(header.file_size, 40);
    assert_eq!(decoder.architecture, Architecture::Any);
    assert_eq!(decoder.platform, Platform::Any);
    assert_eq!(&header.type_ext[..4], &[4, 4, b'P', b'K']);
}

#[test]
fn architecture_and_platform_codes() {
    assert_eq!(get_arch_platform_from_code(0, 0), Ok((Architecture::X86_64, Platform::Linux)));
    assert_eq!(get_arch_platform_from_code(1, 1), Ok((Architecture::Aarch64, Platform::Mac)));
    assert_eq!(get_arch_platform_from_code(2, 2), Ok((Architecture::X86, Platform::Windows)));
    assert_eq!(get_arch_platform_from_code(3, 3), Ok((Architecture::Armv7hl, Platform::Android)));
    assert_eq!(get_arch_platform_from_code(4, 4), Ok((Architecture::Any, Platform::Any)));
    assert_eq!(get_arch_platform_from_code(5, 0), Err(Error::UnknownArchitecture));
    assert_eq!(get_arch_platform_from_code(0, 5), Err(Error::UnknownPlatform));
    assert_eq!(get_arch_platform_from_code(9, 9), Err(Error::UnknownArchitecture));
}

#[test]
fn target_is_kept() {
    let mut encoder = Encoder::new();
    encoder.architecture = Architecture::Aarch64;
    encoder.platform = Platform::Windows;
    let file = encoder.save().unwrap();
    assert_eq!(&file[24..28], &[1, 2, 0x50, 0x4B]);
    let decoder = Decoder::new(file).unwrap();
    assert_eq!(decoder.architecture, Architecture::Aarch64);
    assert_eq!(decoder.platform, Platform::Windows);
}

#[test]
fn what_is_no_package_is_refused() {
    let mut plain = bpx::bpx::Encoder::new();
    let file = plain.save().unwrap();
    // A container of type P without the package bytes: architecture 0,
    // platform 0, no variant.
    assert_eq!(Decoder::new(file).err(), Some(Error::UnsupportedVariant(0, 0)));
    let mut other = bpx::bpx::Encoder::new();
    other.set_type(b'Q', [0; 16]);
    assert_eq!(Decoder::new(other.save().unwrap()).err(), Some(Error::UnknownContainerType(b'Q')));
    let mut arch = bpx::bpx::Encoder::new();
    arch.set_type(b'P', [9, 0, 0x50, 0x4B, 0, 0, 0, 0, 0, 0, 0, 0, 0, 0, 0, 0]);
    assert_eq!(Decoder::new(arch.save().unwrap()).err(), Some(Error::UnknownArchitecture));
    let mut platform = bpx::bpx::Encoder::new();
    platform.set_type(b'P', [0, 9, 0x50, 0x4B, 0, 0, 0, 0, 0, 0, 0, 0, 0, 0, 0, 0]);
    assert_eq!(Decoder::new(platform.save().unwrap()).err(), Some(Error::UnknownPlatform));
    assert_eq!(Decoder::new(vec![1, 2, 3]).err(), Some(Error::BadSignature));
}

#[test]
fn files_are_packed_and_unpacked() {
    let files = vec![
        file("root/a.txt", b"hello".to_vec()),
        file("root/empty", Vec::new()),
        file("root/dir/b.bin", bytes(20000, 3)),
    ];
    let mut encoder = Encoder::new();
    encoder.pack(&files).unwrap();
    let container = encoder.save().unwrap();
    let decoder = Decoder::new(container.clone()).unwrap();
    let unpacked = decoder.unpack().unwrap();
    assert!(same_files(&files, &unpacked));
    assert!(same_files(&files, &run(container).unwrap()));
}

#[test]
fn packed_layout() {
    let files = vec![file("a", vec![1, 2, 3]), file("bc", vec![4])];
    let mut encoder = Encoder::new();
    encoder.pack(&files).unwrap();
    let container = encoder.save().unwrap();
    let plain = bpx::bpx::Decoder::new(container).unwrap();
    assert_eq!(plain.section_count(), 2);
    let strings = plain.get_section_by_index(0);
    let data = plain.get_section_by_index(1);
    assert_eq!(strings.btype, 0xFF);
    assert_eq!(data.btype, 0x1);
    assert_eq!(plain.open_section(&strings).unwrap().load_in_memory(), b"a\0bc\0".to_vec());
    let expected = vec![
        3, 0, 0, 0, 0, 0, 0, 0, 0, 0, 0, 0, 1, 2, 3, // a
        1, 0, 0, 0, 0, 0, 0, 0, 2, 0, 0, 0, 4, // bc
    ];
    assert_eq!(plain.open_section(&data).unwrap().load_in_memory(), expected);
}

#[test]
fn a_file_larger_than_a_section_is_split() {
    let big = bytes(100000, 7);
    let files = vec![file("x/small", bytes(10, 1)), file("x/big", big.clone()), file("x/last", bytes(3, 9))];
    let mut encoder = Encoder::with_section_size(30000);
    encoder.pack(&files).unwrap();
    let container = encoder.save().unwrap();
    let plain = bpx::bpx::Decoder::new(container.clone()).unwrap();
    let data_sections = plain.find_all_sections_of_type(0x1);
    assert!(data_sections.len() >= 2);
    // Chunks of 8192 fill a section of 30000 with the fourth chunk. The first
    // section also holds the small file and the record of the big one.
    assert_eq!(data_sections.len(), 4);
    assert_eq!(data_sections[0].size, 12 + 10 + 12 + 4 * 8192);
    assert_eq!(data_sections[1].size, 4 * 8192);
    assert_eq!(data_sections[2].size, 4 * 8192);
    let total: usize = data_sections.iter().map(|s| s.size as usize).sum();
    assert_eq!(total, 3 * 12 + 10 + 100000 + 3);
    let unpacked = Decoder::new(container).unwrap().unpack().unwrap();
    assert!(same_files(&files, &unpacked));
    assert_eq!(unpacked[1].data.len(), big.len());
}

#[test]
fn packing_twice_adds_a_data_section() {
    let mut encoder = Encoder::new();
    encoder.pack(&vec![file("one", vec![1])]).unwrap();
    encoder.pack(&vec![file("two", vec![2, 2])]).unwrap();
    let container = encoder.save().unwrap();
    let plain = bpx::bpx::Decoder::new(container.clone()).unwrap();
    assert_eq!(plain.find_all_sections_of_type(0xFF).len(), 1);
    assert_eq!(plain.find_all_sections_of_type(0x1).len(), 2);
    let unpacked = run(container).unwrap();
    assert!(same_files(&[file("one", vec![1]), file("two", vec![2, 2])], &unpacked));
}

#[test]
fn pack_file_returns_the_current_section() {
    let mut encoder = Encoder::with_section_size(10000);
    encoder.pack(&Vec::new()).unwrap();
    // The string table is section 0, the data section is section 1.
    assert_eq!(encoder.pack_file("a", &bytes(100, 0), 1, 0), Ok(1));
    assert_eq!(encoder.pack_file("b", &bytes(20000, 0), 1, 0), Ok(2));
    assert_eq!(encoder.pack_file("c", &bytes(20000, 0), 2, 0), Ok(4));
    let unpacked = run(encoder.save().unwrap()).unwrap();
    assert_eq!(unpacked.len(), 3);
    assert_eq!(unpacked[1].data, bytes(20000, 0));
    assert_eq!(unpacked[2].path, "c");
}

#[test]
fn unpacking_refuses_what_is_cut_short() {
    let mut strings = create_section(&BPXSectionHeader::new(0, 0xFF));
    write_string("name", &mut strings).unwrap();
    write_string("", &mut strings).unwrap();
    let record = |size: u64, ptr: u32, data: &[u8]| {
        let mut v = size.to_le_bytes().to_vec();
        v.extend_from_slice(&ptr.to_le_bytes());
        v.extend_from_slice(data);
        v
    };
    // A record of less than twelve bytes.
    let short = vec![vec![1, 0, 0]];
    assert_eq!(unpack_files(&mut strings, &short).err(), Some(Error::UnexpectedEof));
    // A file that lacks bytes when the sections are used up.
    let lacking = vec![record(5, 0, &[1, 2])];
    assert_eq!(unpack_files(&mut strings, &lacking).err(), Some(Error::UnexpectedEof));
    // An empty path.
    let nameless = vec![record(1, 5, &[1])];
    assert_eq!(unpack_files(&mut strings, &nameless).err(), Some(Error::EmptyPath));
    // A path that is not in the table.
    let lost = vec![record(1, 99, &[1])];
    assert_eq!(unpack_files(&mut strings, &lost).err(), Some(Error::UnexpectedEof));
    // A file carried over two section boundaries.
    let carried = vec![record(5, 0, &[1, 2]), vec![3, 4], {
        let mut v = vec![5];
        v.extend_from_slice(&record(0, 0, &[]));
        v
    }];
    let files = unpack_files(&mut strings, &carried).unwrap();
    assert_eq!(files.len(), 2);
    assert_eq!(files[0].path, "name");
    assert_eq!(files[0].data, vec![1, 2, 3, 4, 5]);
    assert_eq!(files[1].data, Vec::<u8>::new());
    assert_eq!(unpack_files(&mut strings, &Vec::new()).unwrap().len(), 0);
}

#[test]
fn unpacking_needs_a_string_table() {
    let mut encoder = Encoder::new();
    let container = encoder.save().unwrap();
    assert_eq!(run(container).err(), Some(Error::MissingStringSection));
}

#[test]
fn metadata_is_read_from_its_section() {
    let mut obj = Object::new();
    obj.set("Name", Value::String(String::from("pkg")));
    let mut bytes = Vec::new();
    write_structured_data(&mut bytes, &obj).unwrap();
    let mut plain = bpx::bpx::Encoder::new();
    plain.set_type(b'P', [4, 4, 0x50, 0x4B, 0, 0, 0, 0, 0, 0, 0, 0, 0, 0, 0, 0]);
    let index = plain.add_section(254, bytes.len() as u32).unwrap();
    plain.get_section_by_index(index).write(&bytes);
    let decoder = Decoder::new(plain.save().unwrap()).unwrap();
    let read = decoder.open_metadata().unwrap();
    match read.get("Name").unwrap() {
        Value::String(s) => assert_eq!(s, "pkg"),
        _ => panic!("not a string"),
    }
    let mut none = Encoder::new();
    let decoder = Decoder::new(none.save().unwrap()).unwrap();
    assert_eq!(decoder.open_metadata().err(), Some(Error::MissingMetadataSection));
}

#[test]
fn metadata_and_files_in_one_package() {
    let mut obj = Object::new();
    obj.set("Name", Value::String(String::from("pkg")));
    obj.set("Version", Value::Uint32(3));
    obj.add_debug_info();
    let files = vec![file("lib/a.so", bytes(5000, 1)), file("include/a.h", bytes(70000, 2))];
    let mut encoder = Encoder::new();
    encoder.add_metadata(&obj).unwrap();
    encoder.pack(&files).unwrap();
    let container = encoder.save().unwrap();
    let decoder = Decoder::new(container.clone()).unwrap();
    let read = decoder.open_metadata().unwrap();
    assert!(bpx::sd::same_object(&obj, &read));
    assert_eq!(decoder.unpack().unwrap(), files);
    let plain = bpx::bpx::Decoder::new(container).unwrap();
    assert_eq!(plain.get_section_by_index(0).btype, 254);
    assert_eq!(plain.get_section_by_index(1).btype, 0xFF);
    assert_eq!(plain.get_section_by_index(2).btype, 0x1);
    // The data section is long enough to be compressed.
    assert_eq!(plain.get_section_by_index(2).flags, 0xA);
}

#[test]
fn metadata_that_cannot_be_written() {
    let mut obj = Object::new();
    for i in 0..256u64 {
        obj.raw_set(i, Value::Null);
    }
    let mut encoder = Encoder::new();
    assert_eq!(encoder.add_metadata(&obj), Err(Error::TooManyValues));
    let decoder = Decoder::new(encoder.save().unwrap()).unwrap();
    assert_eq!(decoder.open_metadata().err(), Some(Error::MissingMetadataSection));
}

#[test]
fn target_from_a_profile() {
    assert_eq!(platform_from_name(&String::from("Linux")), Some(Platform::Linux));
    assert_eq!(platform_from_name(&String::from("OSX")), Some(Platform::Mac));
    assert_eq!(platform_from_name(&String::from("Windows")), Some(Platform::Windows));
    assert_eq!(platform_from_name(&String::from("Android")), Some(Platform::Android));
    assert_eq!(platform_from_name(&String::from("linux")), None);
    assert_eq!(architecture_from_name(&String::from("x86")), Some(Architecture::X86));
    assert_eq!(architecture_from_name(&String::from("x86_64")), Some(Architecture::X86_64));
    assert_eq!(architecture_from_name(&String::from("arm")), Some(Architecture::Armv7hl));
    assert_eq!(architecture_from_name(&String::from("aarch64")), Some(Architecture::Aarch64));
    assert_eq!(architecture_from_name(&String::from("mips")), None);
    let profile = |platform: &str, architecture: &str| Profile {
        compiler_name: String::from("GNU"),
        compiler_version: String::from("9"),
        platform: String::from(platform),
        architecture: String::from(architecture),
    };
    let mut encoder = Encoder::new();
    set_type_ext(&mut encoder, &profile("Windows", "aarch64"));
    assert_eq!(encoder.get_target(), (Architecture::Aarch64, Platform::Windows));
    set_type_ext(&mut encoder, &profile("Plan9", "x86"));
    assert_eq!(encoder.get_target(), (Architecture::X86, Platform::Windows));
    encoder.set_target(Architecture::Any, Platform::Mac);
    let decoder = Decoder::new(encoder.save().unwrap()).unwrap();
    assert_eq!((decoder.architecture, decoder.platform), (Architecture::Any, Platform::Mac));
}

#[test]
fn unpacking_without_compressed_sections_follows_the_outcome() {
    // Nothing here is long enough to be compressed, so that no decompressor
    // has a say: what is packed comes back.
    let files = vec![file("a", bytes(100, 1)), file("b/c", bytes(60000, 2))];
    let mut encoder = Encoder::new();
    encoder.pack(&files).unwrap();
    let container = encoder.save().unwrap();
    let plain = bpx::bpx::Decoder::new(container.clone()).unwrap();
    for k in 0..plain.section_count() {
        assert_eq!(plain.get_section_by_index(k).flags & 0x2, 0);
    }
    assert_eq!(run(container).unwrap(), files);
}
