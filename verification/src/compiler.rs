//! The compilers that a project accepts, and whether the compiler of a
//! build profile is one of them.

use crate::error::Error;
use crate::profile::Profile;
use crate::version::reaches;
use crate::version::version_reaches;
use vstd::prelude::*;

verus! {

/// A compiler that a project accepts.
#[derive(Clone, Debug)]
pub struct Compiler {
    /// The name of the compiler.
    pub name: String,
    /// The lowest version that is accepted, if there is a bound.
    pub minimum_version: Option<String>,
    /// The versions that are accepted, if they are listed.
    pub versions: Option<Vec<String>>,
}

/// Whether a version is among those listed.
pub open spec fn listed(versions: Seq<String>, version: Seq<char>) -> bool {
    exists|i: int| 0 <= i < versions.len() && (#[trigger] versions[i])@ == version
}

/// Whether a compiler accepts a version.
///
/// Where the compiler has a lowest version and both that and the given
/// version have a number, the numbers decide. Else the list of versions
/// decides, where there is one. Else every version is accepted.
pub open spec fn version_supported(version: Seq<char>, compiler: Compiler) -> bool {
    let by_minimum = match compiler.minimum_version {
        Some(least) => reaches(version, least@),
        None => None,
    };
    match by_minimum {
        Some(enough) => enough,
        None => match compiler.versions {
            Some(versions) => listed(versions@, version),
            None => true,
        },
    }
}

/// The place of the first compiler of the given name.
pub open spec fn first_named(compilers: Seq<Compiler>, name: Seq<char>) -> Option<int>
    decreases compilers.len(),
{
    if compilers.len() == 0 {
        None
    } else {
        match first_named(compilers.drop_last(), name) {
            Some(i) => Some(i),
            None => if compilers.last().name@ == name {
                Some(compilers.len() - 1)
            } else {
                None
            },
        }
    }
}

/// Where no compiler of a stretch has the name and the next one has it,
/// the next one is the first of that name.
proof fn lemma_first_named_at(compilers: Seq<Compiler>, name: Seq<char>, i: int)
    requires
        0 <= i < compilers.len(),
        first_named(compilers.take(i), name) is None,
        compilers[i].name@ == name,
    ensures
        first_named(compilers, name) == Some(i),
    decreases compilers.len() - i,
{
    if i == compilers.len() - 1 {
        assert(compilers.drop_last() =~= compilers.take(i));
    } else {
        assert(compilers.drop_last().take(i) =~= compilers.take(i));
        lemma_first_named_at(compilers.drop_last(), name, i);
    }
}

/// Whether a version is among those listed.
fn is_listed(versions: &Vec<String>, version: &String) -> (found: bool)
    ensures
        found == listed(versions@, version@),
{
    let mut i: usize = 0;
    while i < versions.len()
        invariant
            i <= versions@.len(),
            forall|k: int| 0 <= k < i ==> (#[trigger] versions@[k])@ != version@,
        decreases versions@.len() - i,
    {
        if versions[i] == *version {
            return true;
        }
        i += 1;
    }
    false
}

/// Accepts or refuses a version of a compiler: see `version_supported`. A
/// version that is not accepted is refused with
/// `UnsupportedCompilerVersion`.
pub fn check_compiler_version(version: &String, compiler: &Compiler) -> (r: Result<(), Error>)
    ensures
        r == if version_supported(version@, *compiler) {
            Ok::<(), Error>(())
        } else {
            Err::<(), Error>(Error::UnsupportedCompilerVersion)
        },
{
    if let Some(minver) = &compiler.minimum_version {
        if let Some(enough) = version_reaches(version.as_str(), minver.as_str()) {
            if enough {
                return Ok(());
            } else {
                return Err(Error::UnsupportedCompilerVersion);
            }
        }
    }
    if let Some(versions) = &compiler.versions {
        if !is_listed(versions, version) {
            return Err(Error::UnsupportedCompilerVersion);
        }
    }
    Ok(())
}

/// Accepts or refuses the compiler of a build profile.
///
/// A project that names no compilers accepts every one. One that names
/// them refuses a compiler that is not among them with
/// `UnsupportedCompiler`, and asks the first of that name whether it
/// accepts the version.
pub fn check_compiler(profile: &Profile, compilers: &Option<Vec<Compiler>>) -> (r: Result<
    (),
    Error,
>)
    ensures
        r == match *compilers {
            None => Ok::<(), Error>(()),
            Some(v) => match first_named(v@, profile.compiler_name@) {
                None => Err::<(), Error>(Error::UnsupportedCompiler),
                Some(i) => if version_supported(profile.compiler_version@, v@[i]) {
                    Ok::<(), Error>(())
                } else {
                    Err::<(), Error>(Error::UnsupportedCompilerVersion)
                },
            },
        },
{
    match compilers {
        None => Ok(()),
        Some(v) => {
            let mut i: usize = 0;
            assert(v@.take(0) =~= Seq::<Compiler>::empty());
            while i < v.len()
                invariant
                    i <= v@.len(),
                    *compilers == Some(*v),
                    first_named(v@.take(i as int), profile.compiler_name@) is None,
                decreases v@.len() - i,
            {
                proof {
                    let next = v@.take(i + 1);
                    assert(next.drop_last() =~= v@.take(i as int));
                    assert(next.last() == v@[i as int]);
                }
                if v[i].name == profile.compiler_name {
                    proof {
                        lemma_first_named_at(v@, profile.compiler_name@, i as int);
                    }
                    return check_compiler_version(&profile.compiler_version, &v[i]);
                }
                i += 1;
            }
            assert(v@.take(i as int) =~= v@);
            Err(Error::UnsupportedCompiler)
        },
    }
}

/// Accepts or refuses the platform of a build profile. A project that
/// names no platforms accepts every one. One that names them refuses a
/// platform that is not among them with `UnsupportedSystem`.
pub fn check_system(profile: &Profile, systems: &Option<Vec<String>>) -> (r: Result<(), Error>)
    ensures
        r == match *systems {
            Some(v) if !listed(v@, profile.platform@) => Err::<(), Error>(Error::UnsupportedSystem),
            _ => Ok::<(), Error>(()),
        },
{
    match systems {
        None => Ok(()),
        Some(v) => {
            if !is_listed(v, &profile.platform) {
                return Err(Error::UnsupportedSystem);
            }
            Ok(())
        },
    }
}

/// Accepts or refuses the architecture of a build profile. A project that
/// names no architectures accepts every one. One that names them refuses
/// an architecture that is not among them with `UnsupportedArchitecture`.
pub fn check_arch(profile: &Profile, archs: &Option<Vec<String>>) -> (r: Result<(), Error>)
    ensures
        r == match *archs {
            Some(v) if !listed(v@, profile.architecture@) => Err::<(), Error>(
                Error::UnsupportedArchitecture,
            ),
            _ => Ok::<(), Error>(()),
        },
{
    match archs {
        None => Ok(()),
        Some(v) => {
            if !is_listed(v, &profile.architecture) {
                return Err(Error::UnsupportedArchitecture);
            }
            Ok(())
        },
    }
}

} // verus!
