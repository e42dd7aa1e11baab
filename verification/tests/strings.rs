use bpx::error::Error;
use bpx::section::create_section;
use bpx::section::BPXSectionHeader;
use bpx::section::InMemorySection;
use bpx::section::Section;
use bpx::strings::get_name_from_path;
use bpx::strings::get_string;
use bpx::strings::name_from_file_name;
use bpx::strings::write_string;

#[test]
fn strings_are_found_by_their_offsets() {
    let mut section = create_section(&BPXSectionHeader::new(0, 0xFF));
    let first = write_string("alpha", &mut section).unwrap();
    let second = write_string("béta", &mut section).unwrap();
    assert_eq!(first, 0);
    assert_eq!(second, 6);
    assert_eq!(section.size(), 6 + 5 + 1);
    assert_eq!(get_string(first, &mut section).unwrap(), "alpha");
    assert_eq!(get_string(second, &mut section).unwrap(), "béta");
    // An offset into the middle of a string gives the rest of it.
    assert_eq!(get_string(2, &mut section).unwrap(), "pha");
    assert_eq!(get_string(5, &mut section).unwrap(), "");
    // Reading moves the cursor, writing still appends.
    let third = write_string("c", &mut section).unwrap();
    assert_eq!(third, 12);
    assert_eq!(get_string(third, &mut section).unwrap(), "c");
    assert_eq!(section.load_in_memory(), b"alpha\0b\xC3\xA9ta\0c\0".to_vec());
}

#[test]
fn offsets_that_hold_no_string() {
    let mut section = create_section(&BPXSectionHeader::new(0, 0xFF));
    write_string("aé", &mut section).unwrap();
    // Past the end.
    assert_eq!(get_string(100, &mut section).err(), Some(Error::UnexpectedEof));
    // Into the middle of a character.
    assert_eq!(get_string(2, &mut section).err(), Some(Error::InvalidUtf8));
    // Without a zero byte at the end.
    let mut open = InMemorySection::new(vec![b'a', b'b']);
    assert_eq!(get_string(0, &mut open).err(), Some(Error::UnexpectedEof));
}

#[test]
fn string_that_does_not_fit() {
    let mut section = InMemorySection::new(vec![0; 4]);
    assert_eq!(write_string("abc", &mut section), Ok(0));
    assert_eq!(write_string("d", &mut section), Err(Error::SectionTooLarge));
}

#[test]
fn name_from_path() {
    assert_eq!(get_name_from_path("a/b/c.txt").unwrap(), "c.txt");
    assert_eq!(get_name_from_path("folder/").unwrap(), "folder");
    assert_eq!(get_name_from_path("single").unwrap(), "single");
    assert_eq!(get_name_from_path("/").err(), Some(Error::InvalidPath));
    assert_eq!(get_name_from_path("a/..").err(), Some(Error::InvalidPath));
}

#[test]
fn name_from_final_component() {
    assert_eq!(name_from_file_name(Some(String::from("c.txt"))), Ok(String::from("c.txt")));
    assert_eq!(name_from_file_name(None), Err(Error::InvalidPath));
}
