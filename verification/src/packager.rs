//! Building a package for the target of a build profile.

use crate::bpxp::Architecture;
use crate::bpxp::Encoder;
use crate::bpxp::Platform;
use crate::profile::Profile;
use crate::text::push_char;
use vstd::prelude::*;
use vstd::string::StringExecFns;

verus! {

/// The platform that a build profile names, if it names one that packages
/// know.
pub open spec fn platform_named(name: Seq<char>) -> Option<Platform> {
    if name == "Linux"@ {
        Some(Platform::Linux)
    } else if name == "OSX"@ {
        Some(Platform::Mac)
    } else if name == "Windows"@ {
        Some(Platform::Windows)
    } else if name == "Android"@ {
        Some(Platform::Android)
    } else {
        None
    }
}

/// The architecture that a build profile names, if it names one that
/// packages know.
pub open spec fn architecture_named(name: Seq<char>) -> Option<Architecture> {
    if name == "x86"@ {
        Some(Architecture::X86)
    } else if name == "x86_64"@ {
        Some(Architecture::X86_64)
    } else if name == "arm"@ {
        Some(Architecture::Armv7hl)
    } else if name == "aarch64"@ {
        Some(Architecture::Aarch64)
    } else {
        None
    }
}

/// The platform that a name stands for.
pub fn platform_from_name(name: &String) -> (platform: Option<Platform>)
    ensures
        platform == platform_named(name@),
{
    if *name == "Linux".to_owned() {
        Some(Platform::Linux)
    } else if *name == "OSX".to_owned() {
        Some(Platform::Mac)
    } else if *name == "Windows".to_owned() {
        Some(Platform::Windows)
    } else if *name == "Android".to_owned() {
        Some(Platform::Android)
    } else {
        None
    }
}

/// The architecture that a name stands for.
pub fn architecture_from_name(name: &String) -> (architecture: Option<Architecture>)
    ensures
        architecture == architecture_named(name@),
{
    if *name == "x86".to_owned() {
        Some(Architecture::X86)
    } else if *name == "x86_64".to_owned() {
        Some(Architecture::X86_64)
    } else if *name == "arm".to_owned() {
        Some(Architecture::Armv7hl)
    } else if *name == "aarch64".to_owned() {
        Some(Architecture::Aarch64)
    } else {
        None
    }
}

/// Sets the target of a package to the target of a build profile. A
/// platform or an architecture that packages do not know leaves what the
/// package had.
pub fn set_type_ext(bpx: &mut Encoder, profile: &Profile)
    ensures
        final(bpx).container() == old(bpx).container(),
        final(bpx).section_cap() == old(bpx).section_cap(),
        final(bpx).target().0 == match architecture_named(profile.architecture@) {
            Some(a) => a,
            None => old(bpx).target().0,
        },
        final(bpx).target().1 == match platform_named(profile.platform@) {
            Some(p) => p,
            None => old(bpx).target().1,
        },
{
    let (old_architecture, old_platform) = bpx.get_target();
    let platform = match platform_from_name(&profile.platform) {
        Some(p) => p,
        None => old_platform,
    };
    let architecture = match architecture_from_name(&profile.architecture) {
        Some(a) => a,
        None => old_architecture,
    };
    bpx.set_target(architecture, platform);
}

/// The name of the file of the package that is built for a profile:
/// `build-`, the platform, a dash, the architecture, a dash, the name of
/// the compiler with its version behind it, and `.bpx`.
pub open spec fn package_name_of(profile: Profile) -> Seq<char> {
    "build-"@ + profile.platform@ + seq!['-'] + profile.architecture@ + seq!['-']
        + profile.compiler_name@ + profile.compiler_version@ + ".bpx"@
}

/// The name of the file of the package that is built for a profile.
pub fn package_file_name(profile: &Profile) -> (name: String)
    ensures
        name@ == package_name_of(*profile),
{
    let mut s = String::from_str("build-");
    s.append(profile.platform.as_str());
    push_char(&mut s, '-');
    s.append(profile.architecture.as_str());
    push_char(&mut s, '-');
    s.append(profile.compiler_name.as_str());
    s.append(profile.compiler_version.as_str());
    s.append(".bpx");
    assert(s@ =~= package_name_of(*profile));
    s
}

/// The name under which a package holds what is packed from a path: the
/// configuration, a slash and the kind of content, and for a file a slash
/// and the name of the file. A directory gives its files their names.
pub open spec fn virtual_name_of(
    configuration: Seq<char>,
    subdir: Seq<char>,
    file_name: Option<Seq<char>>,
) -> Seq<char> {
    configuration + seq!['/'] + subdir + match file_name {
        Some(name) => seq!['/'] + name,
        None => Seq::<char>::empty(),
    }
}

/// The name under which a package holds what is packed from a path. The
/// name of the file is given where the path is that of a file.
pub fn virtual_name(cfg: String, subdir: &str, file_name: Option<&str>) -> (name: String)
    ensures
        name@ == virtual_name_of(
            cfg@,
            subdir@,
            match file_name {
                Some(n) => Some(n@),
                None => None,
            },
        ),
{
    let mut init = cfg;
    push_char(&mut init, '/');
    init.append(subdir);
    if let Some(n) = file_name {
        push_char(&mut init, '/');
        init.append(n);
        assert(init@ =~= cfg@ + seq!['/'] + subdir@ + (seq!['/'] + n@));
    } else {
        assert(init@ =~= cfg@ + seq!['/'] + subdir@ + Seq::<char>::empty());
    }
    init
}

} // verus!
