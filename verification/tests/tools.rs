use bpx::bpxinfo::flags_text;
use bpx::bpxinfo::hex_print;
use bpx::builder::check_build_configuration;
use bpx::checksum::add_chksum;
use bpx::checksum::read_chksum;
use bpx::command::Command;
use bpx::command::Shell;
use bpx::error::Error;
use bpx::error::ProfileKey;
use bpx::garraylen::extract_slice;
use bpx::garraylen::GenericArrayLen;
use bpx::garraylen::T16;
use bpx::garraylen::T2;
use bpx::garraylen::T3;
use bpx::garraylen::T4;
use bpx::garraylen::T8;
use bpx::layout::read_block;
use bpx::minishell::Minishell;
use bpx::printsd::gen_layer_prefix;
use bpx::profile::Profile;
use bpx::profile::ProfileManager;
use bpx::sd::Object;
use bpx::sd::Value;
use bpx::section::slow_but_correct_add;
use bpx::settings::RegistryInfo;
use bpx::settings::Settings;
use bpx::type_ext_maps::bpxp_type_ext_map;
use bpx::type_ext_maps::get_type_ext_map;
use bpx::type_ext_maps::TypeExtMap;

#[test]
fn checksum_wraps() {
    assert_eq!(read_chksum(&[]), 0);
    assert_eq!(read_chksum(&[1, 2, 250]), 253);
    assert_eq!(read_chksum(&vec![255u8; 1000]), 255000);
    assert_eq!(add_chksum(u32::MAX, 2), 1);
    assert_eq!(add_chksum(5, 6), 11);
}

#[test]
fn blocks_are_padded_with_zeros() {
    let data = [1u8, 2, 3, 4];
    assert_eq!(read_block(&data, 1, 2), vec![2, 3]);
    assert_eq!(read_block(&data, 2, 4), vec![3, 4, 0, 0]);
    assert_eq!(read_block(&data, 9, 3), vec![0, 0, 0]);
    assert_eq!(read_block(&data, u64::MAX, 2), vec![0, 0]);
    assert_eq!(read_block(&data, 0, 0), Vec::<u8>::new());
}

#[test]
fn signed_offsets() {
    assert_eq!(slow_but_correct_add(10, -3), 7);
    assert_eq!(slow_but_correct_add(10, 5), 15);
    assert_eq!(slow_but_correct_add(10, 0), 10);
    assert_eq!(slow_but_correct_add(10, -10), 0);
}

#[test]
fn blocks_of_a_typed_length() {
    let buf: Vec<u8> = (0..40).collect();
    assert_eq!(extract_slice::<T3>(&buf, 0), [0, 1, 2]);
    assert_eq!(extract_slice::<T4>(&buf, 4), [4, 5, 6, 7]);
    assert_eq!(extract_slice::<T8>(&buf, 8), [8, 9, 10, 11, 12, 13, 14, 15]);
    assert_eq!(extract_slice::<T2>(&buf, 38), [38, 39]);
    let ext = extract_slice::<T16>(&buf, 24);
    assert_eq!(&ext[..], &buf[24..40]);
    assert_eq!(T16::size(), 16);
    assert_eq!(T2::from_array(&[7, 8]), [7, 8]);
}

#[test]
fn type_ext_of_a_package() {
    assert_eq!(get_type_ext_map(0x50), Some(TypeExtMap::Package));
    assert_eq!(get_type_ext_map(0x51), None);
    let mut block = [0u8; 16];
    block[0] = 1;
    block[1] = 2;
    block[2] = b'P';
    block[3] = b'K';
    let lines = bpxp_type_ext_map(&block);
    assert_eq!(lines, vec!["Architecture: aarch64", "Platform: Windows", "Generator: PK"]);
    block[0] = 9;
    block[1] = 4;
    let lines = TypeExtMap::Package.describe(&block);
    assert_eq!(lines, vec!["Architecture: Unknown", "Platform: Any", "Generator: PK"]);
    let names = [
        ("x86_64", "Linux"),
        ("aarch64", "Mac"),
        ("x86", "Windows"),
        ("armv7hl", "Android"),
        ("Any", "Any"),
    ];
    for (code, (arch, platform)) in names.iter().enumerate() {
        block[0] = code as u8;
        block[1] = code as u8;
        let lines = bpxp_type_ext_map(&block);
        assert_eq!(lines[0], format!("Architecture: {}", arch));
        assert_eq!(lines[1], format!("Platform: {}", platform));
    }
}

#[test]
fn hex_dump() {
    assert_eq!(hex_print(&[]), "");
    assert_eq!(hex_print(&[0x00, 0xAB, 0x5]), "00 AB 05 ");
    let block: Vec<u8> = (0..33).collect();
    let expected = "00 01 02 03 04 05 06 07 08 09 0A 0B 0C 0D 0E 0F \n\
                    10 11 12 13 14 15 16 17 18 19 1A 1B 1C 1D 1E 1F \n\
                    20 ";
    assert_eq!(hex_print(&block), expected);
}

#[test]
fn names_of_flags() {
    assert_eq!(flags_text(0x8), "CheckWeak");
    assert_eq!(flags_text(0xA), "CompressXZ | CheckWeak");
    assert_eq!(flags_text(0x0), "CheckNone");
    assert_eq!(flags_text(0x2), "CompressXZ | CheckNone");
    assert_eq!(flags_text(0xF), "CompressZlib | CompressXZ | CheckCrc32 | CheckWeak");
    assert_eq!(flags_text(0x5), "CompressZlib | CheckCrc32");
}

#[test]
fn layer_prefix() {
    assert_eq!(gen_layer_prefix(0), "");
    assert_eq!(gen_layer_prefix(3), "\t\t\t");
}

#[test]
fn build_configuration() {
    let configs = Some(vec![String::from("Debug"), String::from("Release")]);
    assert_eq!(check_build_configuration("Debug", &configs).unwrap(), "Debug");
    assert_eq!(check_build_configuration("release", &configs).unwrap(), "Release");
    assert_eq!(
        check_build_configuration("RELEASE", &configs).err(),
        Some(Error::UnknownConfiguration)
    );
    assert_eq!(check_build_configuration("anything", &None).unwrap(), "anything");
    assert_eq!(
        check_build_configuration("x", &Some(Vec::new())).err(),
        Some(Error::UnknownConfiguration)
    );
}

#[test]
fn commands() {
    let command = Command::new("make all", Shell::Bash);
    assert_eq!(command.cmd_str, "make all");
    assert_eq!(command.shell, Shell::Bash);
}

#[test]
fn environment() {
    let mut shell = Minishell::with_env(vec![(String::from("PATH"), String::from("/bin"))]);
    assert_eq!(shell.getenv("PATH"), Some("/bin"));
    assert_eq!(shell.getenv("HOME"), None);
    shell.setenv("HOME", "/root");
    shell.setenv("PATH", "/usr/bin");
    assert_eq!(shell.getenv("HOME"), Some("/root"));
    assert_eq!(shell.getenv("PATH"), Some("/usr/bin"));
}

#[test]
fn profiles() {
    let profile = Profile {
        compiler_name: String::from("GNU"),
        compiler_version: String::from("9.3"),
        platform: String::from("Linux"),
        architecture: String::from("x86_64"),
    };
    let mut obj = Object::new();
    profile.fill_structured_data(&mut obj);
    assert_eq!(obj.prop_count(), 4);
    let read = Profile::from_bpxsd(&obj).unwrap();
    assert_eq!(read.compiler_name, "GNU");
    assert_eq!(read.compiler_version, "9.3");
    assert_eq!(read.platform, "Linux");
    assert_eq!(read.architecture, "x86_64");
    let mut missing = Object::new();
    missing.set("CompilerName", Value::String(String::from("GNU")));
    assert_eq!(
        Profile::from_bpxsd(&missing).err(),
        Some(Error::MissingProfileKey(ProfileKey::CompilerVersion))
    );
    missing.set("CompilerVersion", Value::Uint8(9));
    assert_eq!(
        Profile::from_bpxsd(&missing).err(),
        Some(Error::BadProfileKeyType(ProfileKey::CompilerVersion))
    );
    assert_eq!(
        Profile::from_bpxsd(&Object::new()).err(),
        Some(Error::MissingProfileKey(ProfileKey::CompilerName))
    );
}

#[test]
fn profile_manager() {
    let mut manager = ProfileManager::with_profile("/project", None);
    assert_eq!(manager.get_base_path(), "/project/.fpkg");
    assert_eq!(manager.get_toolchain(), "host");
    assert_eq!(manager.get_toolchain_path(), "/project/.fpkg/host");
    assert_eq!(manager.get_current().err(), Some(Error::ProfileNotInitialized));
    let profile = Profile {
        compiler_name: String::from("Clang"),
        compiler_version: String::from("11"),
        platform: String::from("Mac"),
        architecture: String::from("aarch64"),
    };
    manager.select("cross", profile);
    assert_eq!(manager.get_toolchain(), "cross");
    assert_eq!(manager.get_toolchain_path(), "/project/.fpkg/cross");
    assert_eq!(manager.get_current().unwrap().compiler_name, "Clang");
}

#[test]
fn registries() {
    let info = |priority: i32, url: &str| RegistryInfo {
        priority,
        base_url: String::from(url),
        access_token: None,
    };
    let entries = vec![
        (String::from("Main"), info(5, "gitlab://main")),
        (String::from("LocalSystem"), info(0, "local:///opt/fpkg/")),
    ];
    let settings = Settings::with_registries(String::from("LocalSystem"), entries).unwrap();
    let all = settings.get_registries();
    assert_eq!(all.len(), 2);
    assert_eq!(all[0].base_url, "gitlab://main");
    assert_eq!(all[1].base_url, "local:///opt/fpkg/");
    assert_eq!(settings.get_registry(None).unwrap().base_url, "local:///opt/fpkg/");
    assert_eq!(settings.get_registry(Some("Main")).unwrap().priority, 5);
    assert_eq!(settings.get_registry(Some("Other")).err(), Some(Error::UnknownRegistry));
    let none = Settings::with_registries(String::from("Missing"), Vec::new());
    assert_eq!(none.err(), Some(Error::UnknownRegistry));
    // Registries are asked by priority, the highest first; among equals the
    // one that was given first.
    let unsorted = vec![
        (String::from("low"), info(-1, "a")),
        (String::from("high"), info(7, "b")),
        (String::from("mid"), info(3, "c")),
        (String::from("high2"), info(7, "d")),
    ];
    let settings = Settings::with_registries(String::from("mid"), unsorted).unwrap();
    let urls: Vec<&str> = settings.get_registries().iter().map(|r| r.base_url.as_str()).collect();
    assert_eq!(urls, vec!["b", "d", "c", "a"]);
    assert_eq!(settings.get_registry(None).unwrap().base_url, "c");
}
