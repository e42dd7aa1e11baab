use bpx::compiler::check_compiler;
use bpx::compiler::check_compiler_version;
use bpx::compiler::Compiler;
use bpx::error::Error;
use bpx::error::ProfileKey;
use bpx::installer::check_file_name_match;
use bpx::installer::split_fields;
use bpx::lualiblog::lua_format;
use bpx::profile::hash_check_key;
use bpx::profile::Profile;
use bpx::profile::ProfileManager;
use bpx::toolchain::create_toolchain;
use bpx::toolchain::ToolchainKind;
use bpx::version::version_number_of;
use bpx::version::version_reaches;

fn texts(items: &[&str]) -> Vec<String> {
    items.iter().map(|s| String::from(*s)).collect()
}

fn profile(platform: &str, arch: &str, compiler: &str, version: &str) -> Profile {
    Profile {
        compiler_name: String::from(compiler),
        compiler_version: String::from(version),
        platform: String::from(platform),
        architecture: String::from(arch),
    }
}

fn compiler(name: &str, minimum: Option<&str>, versions: Option<&[&str]>) -> Compiler {
    Compiler {
        name: String::from(name),
        minimum_version: minimum.map(String::from),
        versions: versions.map(texts),
    }
}

#[test]
fn format_with_arguments() {
    let out = lua_format(String::from("Hello {}, you are {}!"), texts(&["World", "42"]));
    assert_eq!(out, "Hello World, you are 42!");
    assert_eq!(lua_format(String::from("{}{}"), texts(&["a", "b", "unused"])), "ab");
    assert_eq!(lua_format(String::from(""), Vec::new()), "");
    assert_eq!(lua_format(String::from("plain text."), Vec::new()), "plain text.");
}

#[test]
fn format_with_escapes_and_braces() {
    // An escaped brace is text, and the backslash before it is not.
    assert_eq!(lua_format(String::from("\\{\\}"), Vec::new()), "{}");
    assert_eq!(lua_format(String::from("a\\\\b"), Vec::new()), "ab");
    assert_eq!(lua_format(String::from("\\n"), Vec::new()), "n");
    // An opening brace alone leaves nothing, a closing one alone stays.
    assert_eq!(lua_format(String::from("{x}"), Vec::new()), "x}");
    assert_eq!(lua_format(String::from("}{"), Vec::new()), "}");
    // An escape between the braces does not part them.
    assert_eq!(lua_format(String::from("{\\x}"), texts(&["arg"])), "xarg");
    assert_eq!(lua_format(String::from("{{}}"), texts(&["arg"])), "arg}");
}

#[test]
fn numbers_of_versions() {
    assert_eq!(version_number_of("9.3.0"), Some(930));
    assert_eq!(version_number_of("11"), Some(11));
    assert_eq!(version_number_of("0.0.7"), Some(7));
    assert_eq!(version_number_of("+1.2"), Some(12));
    assert_eq!(version_number_of("..."), None);
    assert_eq!(version_number_of(""), None);
    assert_eq!(version_number_of("+"), None);
    assert_eq!(version_number_of("-1"), None);
    assert_eq!(version_number_of("1.2-rc1"), None);
    assert_eq!(version_number_of("1 2"), None);
    assert_eq!(version_number_of("99999999999999999999999999"), None);
}

#[test]
fn comparing_versions() {
    assert_eq!(version_reaches("9.3", "9.3"), Some(true));
    assert_eq!(version_reaches("10.1", "9.3"), Some(true));
    assert_eq!(version_reaches("9.2", "9.3"), Some(false));
    // The dots carry no weight: 10 is below 9.3, which counts as 93.
    assert_eq!(version_reaches("10", "9.3"), Some(false));
    assert_eq!(version_reaches("x", "9.3"), None);
    assert_eq!(version_reaches("9.3", "x"), None);
}

#[test]
fn versions_of_a_compiler() {
    let version = String::from("9.3");
    assert_eq!(check_compiler_version(&version, &compiler("GCC", None, None)), Ok(()));
    assert_eq!(check_compiler_version(&version, &compiler("GCC", Some("9.0"), None)), Ok(()));
    assert_eq!(
        check_compiler_version(&version, &compiler("GCC", Some("9.4"), None)),
        Err(Error::UnsupportedCompilerVersion)
    );
    // The bound decides before the list is asked.
    assert_eq!(
        check_compiler_version(&version, &compiler("GCC", Some("9.0"), Some(&["8.1"]))),
        Ok(())
    );
    assert_eq!(
        check_compiler_version(&version, &compiler("GCC", Some("9.4"), Some(&["9.3"]))),
        Err(Error::UnsupportedCompilerVersion)
    );
    // A bound without a number leaves it to the list.
    assert_eq!(
        check_compiler_version(&version, &compiler("GCC", Some("any"), Some(&["9.2", "9.3"]))),
        Ok(())
    );
    assert_eq!(
        check_compiler_version(&version, &compiler("GCC", Some("any"), Some(&["9.2"]))),
        Err(Error::UnsupportedCompilerVersion)
    );
    assert_eq!(
        check_compiler_version(&version, &compiler("GCC", None, Some(&[]))),
        Err(Error::UnsupportedCompilerVersion)
    );
    assert_eq!(check_compiler_version(&version, &compiler("GCC", Some("any"), None)), Ok(()));
}

#[test]
fn compiler_of_a_profile() {
    let p = profile("Linux", "x86_64", "GCC", "9.3");
    assert_eq!(check_compiler(&p, &None), Ok(()));
    assert_eq!(check_compiler(&p, &Some(Vec::new())), Err(Error::UnsupportedCompiler));
    let known = vec![
        compiler("Clang", None, None),
        compiler("GCC", Some("10.0"), None),
        compiler("GCC", None, None),
    ];
    // The first compiler of the name decides.
    assert_eq!(check_compiler(&p, &Some(known)), Err(Error::UnsupportedCompilerVersion));
    let known = vec![compiler("Clang", Some("99"), None), compiler("GCC", Some("9"), None)];
    assert_eq!(check_compiler(&p, &Some(known)), Ok(()));
    let known = vec![compiler("Clang", None, None), compiler("MSVC", None, None)];
    assert_eq!(check_compiler(&p, &Some(known)), Err(Error::UnsupportedCompiler));
}

#[test]
fn fields_between_dashes() {
    assert_eq!(split_fields("build-Linux-x86_64-GCC-9.3"), texts(&["build", "Linux", "x86_64", "GCC", "9.3"]));
    assert_eq!(split_fields(""), texts(&[""]));
    assert_eq!(split_fields("-"), texts(&["", ""]));
    assert_eq!(split_fields("a--b-"), texts(&["a", "", "b", ""]));
    assert_eq!(split_fields("nodash"), texts(&["nodash"]));
}

#[test]
fn package_file_names() {
    let p = profile("Linux", "x86_64", "GCC", "9.3");
    assert!(check_file_name_match(&p, "build-Linux-x86_64-GCC-9.3.bpx"));
    // A later version of the same compiler fits too.
    assert!(check_file_name_match(&p, "build-Linux-x86_64-GCC-10.1.bpx"));
    assert!(!check_file_name_match(&p, "build-Linux-x86_64-GCC-9.2.bpx"));
    assert!(!check_file_name_match(&p, "build-Linux-x86_64-GCC-latest.bpx"));
    assert!(!check_file_name_match(&p, "build-Windows-x86_64-GCC-9.3.bpx"));
    assert!(!check_file_name_match(&p, "build-Linux-aarch64-GCC-9.3.bpx"));
    assert!(!check_file_name_match(&p, "build-Linux-x86_64-Clang-9.3.bpx"));
    assert!(!check_file_name_match(&p, "make-Linux-x86_64-GCC-9.3.bpx"));
    assert!(!check_file_name_match(&p, "build-Linux-x86_64-GCC.bpx"));
    assert!(!check_file_name_match(&p, "build-Linux-x86_64-GCC-9.3-extra.bpx"));
    assert!(!check_file_name_match(&p, ".bpx"));
    // Only the length of the extension counts.
    assert!(check_file_name_match(&p, "build-Linux-x86_64-GCC-9.3.zip"));
    let named = profile("Linux", "x86_64", "GCC", "trunk");
    assert!(check_file_name_match(&named, "build-Linux-x86_64-GCC-trunk.bpx"));
    assert!(!check_file_name_match(&named, "build-Linux-x86_64-GCC-9.3.bpx"));
}

#[test]
fn toolchains_by_name() {
    assert_eq!(create_toolchain("host", None), Ok(Some(ToolchainKind::Host)));
    assert_eq!(create_toolchain("cross", None), Ok(None));
    assert_eq!(create_toolchain("", None), Ok(None));
    assert_eq!(create_toolchain("host", Some(Vec::new())), Err(Error::ToolchainProperties));
    let props = vec![(String::from("key"), String::from("value"))];
    assert_eq!(create_toolchain("cross", Some(props)), Ok(None));
}

#[test]
fn profile_of_a_file() {
    let pair = |k: &str, v: &str| (String::from(k), String::from(v));
    let pairs = vec![
        pair("Arch", "x86_64"),
        pair("Platform", "Linux"),
        pair("Other", "ignored"),
        pair("CompilerVersion", "9.3"),
        pair("CompilerName", "GCC"),
    ];
    let p = Profile::from_properties(&pairs).unwrap();
    assert_eq!(p.compiler_name, "GCC");
    assert_eq!(p.compiler_version, "9.3");
    assert_eq!(p.platform, "Linux");
    assert_eq!(p.architecture, "x86_64");
    assert_eq!(hash_check_key(&pairs, ProfileKey::Platform), Ok(String::from("Linux")));
    // The last property of a name counts.
    let mut again = pairs.clone();
    again.push(pair("Platform", "Windows"));
    assert_eq!(hash_check_key(&again, ProfileKey::Platform), Ok(String::from("Windows")));
    // The first key that is missing is reported.
    let missing = vec![pair("CompilerName", "GCC"), pair("Arch", "x86")];
    assert_eq!(
        Profile::from_properties(&missing).err(),
        Some(Error::MissingProfileKey(ProfileKey::CompilerVersion))
    );
    assert_eq!(
        Profile::from_properties(&Vec::new()).err(),
        Some(Error::MissingProfileKey(ProfileKey::CompilerName))
    );
}

#[test]
fn profile_to_properties_and_back() {
    let p = profile("Windows", "aarch64", "MSVC", "19.29");
    let pairs = p.to_properties();
    let keys: Vec<&str> = pairs.iter().map(|p| p.0.as_str()).collect();
    assert_eq!(keys, vec!["CompilerName", "CompilerVersion", "Platform", "Arch"]);
    let back = Profile::from_properties(&pairs).unwrap();
    assert_eq!(back.compiler_name, "MSVC");
    assert_eq!(back.compiler_version, "19.29");
    assert_eq!(back.platform, "Windows");
    assert_eq!(back.architecture, "aarch64");
}

#[test]
fn loading_the_profile_of_a_toolchain() {
    let mut manager = ProfileManager::with_profile("/project", None);
    assert_eq!(manager.profile_path("cross"), "/project/.fpkg/cross/profile");
    assert_eq!(manager.load("cross", None), Err(Error::UnknownToolchain));
    assert_eq!(manager.get_toolchain(), "host");
    let broken = vec![(String::from("CompilerName"), String::from("GCC"))];
    assert_eq!(
        manager.load("cross", Some(broken)),
        Err(Error::MissingProfileKey(ProfileKey::CompilerVersion))
    );
    assert_eq!(manager.get_toolchain(), "host");
    assert_eq!(manager.get_current().err(), Some(Error::ProfileNotInitialized));
    let p = profile("Linux", "arm", "Clang", "12");
    assert_eq!(manager.load("cross", Some(p.to_properties())), Ok(()));
    assert_eq!(manager.get_toolchain(), "cross");
    assert_eq!(manager.get_current().unwrap().architecture, "arm");
    assert_eq!(manager.get_toolchain_path(), "/project/.fpkg/cross");
}
