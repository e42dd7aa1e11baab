use bpx::error::Error;
use bpx::registry::ensure_valid_package;
use bpx::registry::get_provider_by_scheme;
use bpx::registry::get_scheme;
use bpx::registry::judge_package;
use bpx::registry::registry_kind;
use bpx::registry::RegistryKind;
use bpx::settings::choose_default;
use bpx::settings::read_registries;
use bpx::settings::DefaultChoice;
use bpx::settings::RawRegistry;
use bpx::settings::RegistryInfo;
use bpx::settings::Settings;
use bpx::text::push_decimal;

fn raw(name: &str, url: Option<&str>, priority: Option<i32>) -> RawRegistry {
    RawRegistry {
        name: String::from(name),
        base_url: url.map(String::from),
        access_token: None,
        priority,
    }
}

#[test]
fn scheme_of_an_address() {
    assert_eq!(get_scheme("gitlab://gitlab.com/group/project"), Ok("gitlab"));
    assert_eq!(get_scheme("local:///opt/fpkg/"), Ok("local"));
    assert_eq!(get_scheme("a:b:c"), Ok("a"));
    assert_eq!(get_scheme(":rest"), Ok(""));
    assert_eq!(get_scheme("no scheme here"), Err(Error::MissingScheme));
    assert_eq!(get_scheme(""), Err(Error::MissingScheme));
}

#[test]
fn provider_of_a_scheme() {
    assert_eq!(get_provider_by_scheme("gitlab"), Ok(RegistryKind::GitLab));
    assert_eq!(get_provider_by_scheme("gitlab-priv"), Ok(RegistryKind::GitLab));
    assert_eq!(get_provider_by_scheme("local"), Err(Error::UnknownScheme));
    assert_eq!(get_provider_by_scheme("GitLab"), Err(Error::UnknownScheme));
    assert_eq!(get_provider_by_scheme(""), Err(Error::UnknownScheme));
}

#[test]
fn kind_of_a_registry() {
    let info = |url: &str| RegistryInfo {
        priority: 0,
        base_url: String::from(url),
        access_token: None,
    };
    assert_eq!(registry_kind(&info("gitlab://gitlab.com/a/b")), Ok(RegistryKind::GitLab));
    assert_eq!(registry_kind(&info("gitlab-priv://host/a")), Ok(RegistryKind::GitLab));
    assert_eq!(registry_kind(&info("local:///opt/fpkg/")), Err(Error::UnknownScheme));
    assert_eq!(registry_kind(&info("gitlab")), Err(Error::MissingScheme));
}

#[test]
fn decimal_numbers() {
    let mut out = String::from("n=");
    push_decimal(&mut out, 0);
    assert_eq!(out, "n=0");
    push_decimal(&mut out, 7);
    push_decimal(&mut out, 10);
    push_decimal(&mut out, 18446744073709551615);
    assert_eq!(out, "n=071018446744073709551615");
}

#[test]
fn registries_of_a_file() {
    let given = vec![
        raw("Main", Some("gitlab://main"), Some(5)),
        raw("Local", Some("local:///opt/fpkg/"), None),
    ];
    let read = read_registries(&given).unwrap();
    assert_eq!(read.len(), 2);
    assert_eq!(read[0].0, "Main");
    assert_eq!(read[0].1.priority, 5);
    assert_eq!(read[0].1.base_url, "gitlab://main");
    assert_eq!(read[0].1.access_token, None);
    assert_eq!(read[1].0, "Local");
    assert_eq!(read[1].1.priority, 0);
    assert_eq!(read[1].1.base_url, "local:///opt/fpkg/");
    assert!(read_registries(&Vec::new()).unwrap().is_empty());
}

#[test]
fn registry_with_a_token() {
    let mut one = raw("Private", Some("gitlab-priv://host"), Some(-3));
    one.access_token = Some(String::from("t0k3n"));
    let read = read_registries(&vec![one]).unwrap();
    assert_eq!(read[0].1.access_token.as_deref(), Some("t0k3n"));
    assert_eq!(read[0].1.priority, -3);
}

#[test]
fn registry_without_an_address() {
    let given = vec![raw("Main", Some("gitlab://main"), None), raw("Broken", None, Some(1))];
    assert_eq!(read_registries(&given).err(), Some(Error::BadRegistryUrl));
    let settings = Settings::from_entries(&given, &DefaultChoice::Named(String::from("Main")));
    assert_eq!(settings.err(), Some(Error::BadRegistryUrl));
    // The address is asked for before the default.
    let settings = Settings::from_entries(&given, &DefaultChoice::Invalid);
    assert_eq!(settings.err(), Some(Error::BadRegistryUrl));
}

#[test]
fn registries_of_one_name() {
    let given = vec![
        raw("Main", Some("a"), None),
        raw("Other", Some("b"), None),
        raw("Main", Some("c"), None),
        raw("Main", Some("d"), None),
    ];
    let read = read_registries(&given).unwrap();
    let names: Vec<&str> = read.iter().map(|e| e.0.as_str()).collect();
    assert_eq!(names, vec!["Main", "Other", "Main-3", "Main-4"]);
    let urls: Vec<&str> = read.iter().map(|e| e.1.base_url.as_str()).collect();
    assert_eq!(urls, vec!["a", "b", "c", "d"]);
}

#[test]
fn default_registry() {
    let given = vec![raw("Main", Some("a"), Some(1)), raw("Other", Some("b"), Some(2))];
    let read = read_registries(&given).unwrap();
    assert_eq!(choose_default(&read, &DefaultChoice::Unnamed), Ok(String::from("Main")));
    assert_eq!(
        choose_default(&read, &DefaultChoice::Named(String::from("Other"))),
        Ok(String::from("Other"))
    );
    assert_eq!(
        choose_default(&read, &DefaultChoice::Named(String::from("Missing"))),
        Err(Error::UnknownRegistry)
    );
    assert_eq!(choose_default(&read, &DefaultChoice::Invalid), Err(Error::BadDefaultRegistry));
    assert_eq!(choose_default(&Vec::new(), &DefaultChoice::Unnamed), Err(Error::UnknownRegistry));
    assert_eq!(choose_default(&Vec::new(), &DefaultChoice::Invalid), Err(Error::BadDefaultRegistry));
}

#[test]
fn settings_of_a_file() {
    let given = vec![
        raw("low", Some("a"), Some(-1)),
        raw("high", Some("b"), Some(7)),
        raw("plain", Some("c"), None),
        raw("high", Some("d"), Some(7)),
    ];
    let settings = Settings::from_entries(&given, &DefaultChoice::Unnamed).unwrap();
    let urls: Vec<&str> = settings.get_registries().iter().map(|r| r.base_url.as_str()).collect();
    assert_eq!(urls, vec!["b", "d", "c", "a"]);
    assert_eq!(settings.get_registry(None).unwrap().base_url, "a");
    assert_eq!(settings.get_registry(Some("high")).unwrap().base_url, "b");
    assert_eq!(settings.get_registry(Some("high-4")).unwrap().base_url, "d");
    assert_eq!(settings.get_registry(Some("plain")).unwrap().priority, 0);
    let named = Settings::from_entries(&given, &DefaultChoice::Named(String::from("plain")));
    assert_eq!(named.unwrap().get_registry(None).unwrap().base_url, "c");
    let missing = Settings::from_entries(&given, &DefaultChoice::Named(String::from("none")));
    assert_eq!(missing.err(), Some(Error::UnknownRegistry));
    let invalid = Settings::from_entries(&given, &DefaultChoice::Invalid);
    assert_eq!(invalid.err(), Some(Error::BadDefaultRegistry));
    let empty = Settings::from_entries(&Vec::new(), &DefaultChoice::Unnamed);
    assert_eq!(empty.err(), Some(Error::UnknownRegistry));
}

#[test]
fn registries_of_distinct_names_are_read_one_by_one() {
    let given = vec![
        raw("c", Some("3"), Some(1)),
        raw("a", Some("1"), None),
        raw("b", Some("2"), Some(1)),
        raw("d", Some("4"), Some(-2)),
    ];
    let settings = Settings::from_entries(&given, &DefaultChoice::Named(String::from("a"))).unwrap();
    let all = settings.get_registries();
    assert_eq!(all.len(), 4);
    let urls: Vec<&str> = all.iter().map(|r| r.base_url.as_str()).collect();
    assert_eq!(urls, vec!["3", "2", "1", "4"]);
    let priorities: Vec<i32> = all.iter().map(|r| r.priority).collect();
    assert_eq!(priorities, vec![1, 1, 0, -2]);
    assert_eq!(settings.get_registry(None).unwrap().base_url, "1");
}

#[test]
fn packages_that_a_registry_takes() {
    assert_eq!(ensure_valid_package("my-package_1.x", "1.2.3"), Ok(()));
    assert_eq!(ensure_valid_package("A", "10.0.25"), Ok(()));
    assert_eq!(ensure_valid_package("pkg", "1.2"), Err(Error::BadPackageVersion));
    assert_eq!(ensure_valid_package("pkg", "1.2.3.4"), Err(Error::BadPackageVersion));
    assert_eq!(ensure_valid_package("pkg", "v1.2.3"), Err(Error::BadPackageVersion));
    assert_eq!(ensure_valid_package("pkg", ""), Err(Error::BadPackageVersion));
    assert_eq!(ensure_valid_package("my package", "1.2.3"), Err(Error::BadPackageName));
    assert_eq!(ensure_valid_package("", "1.2.3"), Err(Error::BadPackageName));
    assert_eq!(ensure_valid_package("a/b", "1.2.3"), Err(Error::BadPackageName));
    // The version is looked at first.
    assert_eq!(ensure_valid_package("a b", "one"), Err(Error::BadPackageVersion));
}

#[test]
fn verdicts_on_packages() {
    assert_eq!(judge_package(Some(true), Some(true)), Ok(()));
    assert_eq!(judge_package(Some(false), Some(true)), Err(Error::BadPackageVersion));
    assert_eq!(judge_package(None, Some(true)), Err(Error::BadPackageVersion));
    assert_eq!(judge_package(Some(false), Some(false)), Err(Error::BadPackageVersion));
    assert_eq!(judge_package(Some(true), Some(false)), Err(Error::BadPackageName));
    assert_eq!(judge_package(Some(true), None), Err(Error::BadPackageName));
}
