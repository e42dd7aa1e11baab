use bpx::cmakegenerator::compute_cmake_target;
use bpx::cmakegenerator::compute_master_target;
use bpx::cmakegenerator::file_part;
use bpx::cmakegenerator::group_binaries_by_config;
use bpx::cmakegenerator::group_binaries_by_implib;
use bpx::cmakegenerator::inner_path;
use bpx::cmakegenerator::CMakeTarget;
use bpx::cmakegenerator::Library;
use bpx::cmakegenerator::Target;
use bpx::compiler::check_arch;
use bpx::compiler::check_system;
use bpx::error::Error;
use bpx::installer::without_tail;
use bpx::packager::package_file_name;
use bpx::packager::virtual_name;
use bpx::profile::Profile;

fn binary(configuration: &str, implib: Option<&str>, location: &str) -> CMakeTarget {
    CMakeTarget {
        configuration: String::from(configuration),
        implib: implib.map(String::from),
        location: String::from(location),
    }
}

fn file(path: &str, configuration: &str) -> Target {
    Target { relative_path: String::from(path), configuration: String::from(configuration) }
}

fn plain(targets: &[CMakeTarget]) -> Vec<(String, Option<String>, String)> {
    targets.iter().map(|t| (t.configuration.clone(), t.implib.clone(), t.location.clone())).collect()
}

fn linux() -> Profile {
    Profile {
        compiler_name: String::from("GCC"),
        compiler_version: String::from("9.3"),
        platform: String::from("Linux"),
        architecture: String::from("x86_64"),
    }
}

#[test]
fn parts_of_paths() {
    assert_eq!(file_part("a/b/c.txt"), "c.txt");
    assert_eq!(file_part("noslash"), "noslash");
    assert_eq!(file_part("dir/"), "");
    assert_eq!(file_part(""), "");
    assert_eq!(inner_path("Debug/bin/x"), Some("bin/x"));
    assert_eq!(inner_path("/x"), Some("x"));
    assert_eq!(inner_path("x/"), Some(""));
    assert_eq!(inner_path("x"), None);
    assert_eq!(inner_path(""), None);
}

#[test]
fn texts_without_their_tails() {
    assert_eq!(without_tail("file.bpx", 4), Some("file"));
    assert_eq!(without_tail("file", 4), Some(""));
    assert_eq!(without_tail("file", 0), Some("file"));
    assert_eq!(without_tail("ab", 3), None);
    // The cut may not fall inside a character.
    assert_eq!(without_tail("a\u{e9}", 1), None);
    assert_eq!(without_tail("a\u{e9}", 2), Some("a"));
}

#[test]
fn target_of_one_binary() {
    let (name, text) =
        compute_cmake_target("MACRO", "pkg", vec![binary("Debug", None, "Debug/bin/libfoo.so")]);
    assert_eq!(name, "pkg::libfooso");
    assert_eq!(
        text,
        "add_library(pkg::libfooso UNKNOWN IMPORTED)\n\
         set_property(TARGET pkg::libfooso PROPERTY IMPORTED_LOCATION_DEBUG \"${MACRO}/Debug/bin/libfoo.so\")\n"
    );
}

#[test]
fn target_with_an_import_library() {
    let targets = vec![
        binary("Debug", Some("Debug/foo.lib"), "Debug/foo.dll"),
        binary("Release", None, "Release/foo.dll"),
    ];
    let (name, text) = compute_cmake_target("M", "my-pkg", targets);
    assert_eq!(name, "my-pkg::foodll");
    assert_eq!(
        text,
        "add_library(my-pkg::foodll UNKNOWN IMPORTED)\n\
         set_property(TARGET my-pkg::foodll PROPERTY IMPORTED_LOCATION_DEBUG \"${M}/Debug/foo.dll\")\
         set_property(TARGET my-pkg::foodll PROPERTY IMPORTED_IMPLIB_DEBUG \"${M}/Debug/foo.lib\")\n\
         set_property(TARGET my-pkg::foodll PROPERTY IMPORTED_LOCATION_RELEASE \"${M}/Release/foo.dll\")\n"
    );
}

#[test]
fn target_of_a_file_without_a_directory() {
    let (name, text) = compute_cmake_target("M", "p", vec![binary("debug", None, "a.b.c")]);
    assert_eq!(name, "p::abc");
    assert_eq!(
        text,
        "add_library(p::abc UNKNOWN IMPORTED)\n\
         set_property(TARGET p::abc PROPERTY IMPORTED_LOCATION_DEBUG \"${M}/a.b.c\")\n"
    );
}

#[test]
fn import_libraries_go_with_their_binaries() {
    let lib = Library {
        name: String::from("foo"),
        binaries: vec![
            file("Debug/bin/foo.lib", "Debug"),
            file("Debug/bin/foo.dll", "Debug"),
            file("Release/bin/foo.so", "Release"),
        ],
        include_dirs: Vec::new(),
    };
    let grouped = group_binaries_by_implib(&lib);
    assert_eq!(
        plain(&grouped),
        vec![
            (
                String::from("Debug"),
                Some(String::from("Debug/bin/foo.lib")),
                String::from("Debug/bin/foo.dll")
            ),
            (String::from("Debug"), None, String::from("Debug/bin/foo.lib")),
            (String::from("Release"), None, String::from("Release/bin/foo.so")),
        ]
    );
}

#[test]
fn binary_before_its_import_library() {
    let lib = Library {
        name: String::from("foo"),
        binaries: vec![
            file("Release/foo.dll", "Release"),
            file("Release/bar.lib", "Release"),
            file("Release/foo.lib", "Other"),
        ],
        include_dirs: Vec::new(),
    };
    let grouped = group_binaries_by_implib(&lib);
    assert_eq!(
        plain(&grouped),
        vec![
            (
                String::from("Release"),
                Some(String::from("Release/foo.lib")),
                String::from("Release/foo.dll")
            ),
            (String::from("Release"), None, String::from("Release/foo.dll")),
            (String::from("Release"), None, String::from("Release/bar.lib")),
        ]
    );
}

#[test]
fn libraries_without_pairs() {
    let empty = Library { name: String::from("e"), binaries: Vec::new(), include_dirs: Vec::new() };
    assert!(group_binaries_by_implib(&empty).is_empty());
    // A single file is never cut, however short its path.
    let one = Library {
        name: String::from("o"),
        binaries: vec![file("a", "Debug")],
        include_dirs: Vec::new(),
    };
    assert_eq!(
        plain(&group_binaries_by_implib(&one)),
        vec![(String::from("Debug"), None, String::from("a"))]
    );
    let two = Library {
        name: String::from("t"),
        binaries: vec![file("x/foo.lib", "Debug"), file("x/foo.lib", "Release")],
        include_dirs: Vec::new(),
    };
    assert_eq!(
        plain(&group_binaries_by_implib(&two)),
        vec![
            (String::from("Debug"), None, String::from("x/foo.lib")),
            (String::from("Release"), None, String::from("x/foo.lib")),
        ]
    );
}

#[test]
fn binaries_of_one_file_in_several_configurations() {
    let pass1 = vec![
        binary("Debug", None, "Debug/bin/libfoo.so"),
        binary("Release", None, "Release/bin/libfoo.so"),
        binary("Debug", None, "Debug/bin/libbar.so"),
    ];
    let targets = group_binaries_by_config(pass1, "M", "pkg");
    assert_eq!(targets.len(), 1);
    assert_eq!(targets[0].0, "pkg::libfooso");
    assert_eq!(
        targets[0].1,
        "add_library(pkg::libfooso UNKNOWN IMPORTED)\n\
         set_property(TARGET pkg::libfooso PROPERTY IMPORTED_LOCATION_DEBUG \"${M}/Debug/bin/libfoo.so\")\n\
         set_property(TARGET pkg::libfooso PROPERTY IMPORTED_LOCATION_RELEASE \"${M}/Release/bin/libfoo.so\")\n"
    );
    assert!(group_binaries_by_config(Vec::new(), "M", "pkg").is_empty());
}

#[test]
fn target_of_a_package() {
    let includes = vec![file("Debug/include", "Debug"), file("Release/include", "Release")];
    let targets = vec![
        (String::from("pkg::a"), String::from("unused")),
        (String::from("pkg::b"), String::new()),
    ];
    assert_eq!(
        compute_master_target("M", "pkg", &includes, &targets),
        "add_library(fpkg::pkg INTERFACE IMPORTED)\n\
         target_include_directories(fpkg::pkg INTERFACE $<$<CONFIG:Debug>:${M}/Debug/include>)\n\
         target_include_directories(fpkg::pkg INTERFACE $<$<CONFIG:Release>:${M}/Release/include>)\n\
         target_link_libraries(fpkg::pkg INTERFACE pkg::a)\n\
         target_link_libraries(fpkg::pkg INTERFACE pkg::b)\n"
    );
    assert_eq!(
        compute_master_target("M", "pkg", &Vec::new(), &Vec::new()),
        "add_library(fpkg::pkg INTERFACE IMPORTED)\n"
    );
}

#[test]
fn platforms_and_architectures_of_a_project() {
    let p = linux();
    let names = |items: &[&str]| Some(items.iter().map(|s| String::from(*s)).collect::<Vec<String>>());
    assert_eq!(check_system(&p, &None), Ok(()));
    assert_eq!(check_system(&p, &names(&["Windows", "Linux"])), Ok(()));
    assert_eq!(check_system(&p, &names(&["Windows", "linux"])), Err(Error::UnsupportedSystem));
    assert_eq!(check_system(&p, &names(&[])), Err(Error::UnsupportedSystem));
    assert_eq!(check_arch(&p, &None), Ok(()));
    assert_eq!(check_arch(&p, &names(&["x86_64"])), Ok(()));
    assert_eq!(check_arch(&p, &names(&["x86", "aarch64"])), Err(Error::UnsupportedArchitecture));
    assert_eq!(check_arch(&p, &names(&[])), Err(Error::UnsupportedArchitecture));
}

#[test]
fn names_of_packages_and_their_files() {
    assert_eq!(package_file_name(&linux()), "build-Linux-x86_64-GCC9.3.bpx");
    assert_eq!(virtual_name(String::from("Debug"), "include", Some("a.h")), "Debug/include/a.h");
    assert_eq!(virtual_name(String::from("Debug"), "bin", None), "Debug/bin");
    assert_eq!(virtual_name(String::new(), "", Some("")), "//");
}
