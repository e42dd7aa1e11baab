//! The kinds of registry, told by the scheme of their address.

use crate::error::Error;
use crate::settings::RegistryInfo;
use vstd::prelude::*;
use vstd::string::StrSliceExecFns;

verus! {

/// A kind of registry.
#[derive(Copy, Clone, Debug, PartialEq, Eq, Structural)]
pub enum RegistryKind {
    /// The generic package registry of a GitLab project.
    GitLab,
}

/// The place of the first colon of an address.
pub open spec fn colon_index(url: Seq<char>) -> Option<int>
    decreases url.len(),
{
    if url.len() == 0 {
        None
    } else {
        match colon_index(url.drop_last()) {
            Some(i) => Some(i),
            None => if url.last() == ':' {
                Some(url.len() - 1)
            } else {
                None
            },
        }
    }
}

/// The scheme of an address: what stands before its first colon.
pub open spec fn scheme_of(url: Seq<char>) -> Option<Seq<char>> {
    match colon_index(url) {
        Some(i) => Some(url.subrange(0, i)),
        None => None,
    }
}

/// The kind of registry that a scheme names.
pub open spec fn kind_of_scheme(scheme: Seq<char>) -> Option<RegistryKind> {
    if scheme == "gitlab"@ || scheme == "gitlab-priv"@ {
        Some(RegistryKind::GitLab)
    } else {
        None
    }
}

/// The kind of registry at an address: the scheme must be there and name a
/// kind.
pub open spec fn kind_of_url(url: Seq<char>) -> Result<RegistryKind, Error> {
    match scheme_of(url) {
        None => Err(Error::MissingScheme),
        Some(scheme) => match kind_of_scheme(scheme) {
            None => Err(Error::UnknownScheme),
            Some(kind) => Ok(kind),
        },
    }
}

/// Where a stretch of an address holds no colon and the next character is
/// one, that character is the first colon.
proof fn lemma_colon_index_at(url: Seq<char>, i: int)
    requires
        0 <= i < url.len(),
        colon_index(url.take(i)) is None,
        url[i] == ':',
    ensures
        colon_index(url) == Some(i),
    decreases url.len() - i,
{
    if i == url.len() - 1 {
        assert(url.drop_last() =~= url.take(i));
    } else {
        assert(url.drop_last().take(i) =~= url.take(i));
        lemma_colon_index_at(url.drop_last(), i);
    }
}

/// The scheme of an address. An address without a colon has none and is
/// refused with `MissingScheme`.
pub fn get_scheme(base_url: &str) -> (r: Result<&str, Error>)
    ensures
        match scheme_of(base_url@) {
            Some(scheme) => r matches Ok(s) && s@ == scheme,
            None => r is Err && r->Err_0 == Error::MissingScheme,
        },
{
    let len = base_url.unicode_len();
    let mut i: usize = 0;
    assert(base_url@.take(0) =~= Seq::<char>::empty());
    while i < len
        invariant
            i <= len,
            len == base_url@.len(),
            colon_index(base_url@.take(i as int)) is None,
        decreases len - i,
    {
        proof {
            let next = base_url@.take(i + 1);
            assert(next.drop_last() =~= base_url@.take(i as int));
            assert(next.last() == base_url@[i as int]);
        }
        if base_url.get_char(i) == ':' {
            proof {
                lemma_colon_index_at(base_url@, i as int);
            }
            return Ok(base_url.substring_char(0, i));
        }
        i += 1;
    }
    assert(base_url@.take(i as int) =~= base_url@);
    Err(Error::MissingScheme)
}

/// The kind of registry that a scheme names: `gitlab` and `gitlab-priv`
/// name a GitLab registry, and any other scheme is refused with
/// `UnknownScheme`.
pub fn get_provider_by_scheme(scheme: &str) -> (r: Result<RegistryKind, Error>)
    ensures
        r == match kind_of_scheme(scheme@) {
            Some(kind) => Ok::<RegistryKind, Error>(kind),
            None => Err::<RegistryKind, Error>(Error::UnknownScheme),
        },
{
    let name = scheme.to_owned();
    if name == "gitlab".to_owned() || name == "gitlab-priv".to_owned() {
        Ok(RegistryKind::GitLab)
    } else {
        Err(Error::UnknownScheme)
    }
}

/// The kind of a registry, told by the scheme of its address. This is what
/// is decided before a registry is opened.
pub fn registry_kind(info: &RegistryInfo) -> (r: Result<RegistryKind, Error>)
    ensures
        r == kind_of_url(info.base_url@),
{
    let scheme = match get_scheme(info.base_url.as_str()) {
        Ok(s) => s,
        Err(e) => {
            return Err(e);
        },
    };
    get_provider_by_scheme(scheme)
}

/// Whether a text matches a pattern, as the `regex` crate decides it, or
/// nothing where the pattern is not one that the crate takes.
pub uninterp spec fn regex_match(pattern: Seq<char>, text: Seq<char>) -> Option<bool>;

/// Trusted: `Regex::new` and `Regex::is_match` of the `regex` crate. The
/// contract names what they give for a pattern and a text, and says
/// nothing of which texts match.
#[verifier::external_body]
fn is_match(pattern: &str, text: &str) -> (r: Option<bool>)
    ensures
        r == regex_match(pattern@, text@),
{
    match regex::Regex::new(pattern) {
        Ok(re) => Some(re.is_match(text)),
        Err(_) => None,
    }
}

/// The pattern of the versions that a GitLab registry takes: three numbers
/// with dots between them.
pub open spec fn version_pattern() -> Seq<char> {
    "^\\A\\d+\\.\\d+\\.\\d+\\z$"@
}

/// The pattern of the names that a GitLab registry takes: letters, digits,
/// dots, dashes and underscores.
pub open spec fn name_pattern() -> Seq<char> {
    "^([a-z]|[A-Z]|\\d|\\.|-|_)+$"@
}

/// What is said of a package whose version and name were held against
/// their patterns: the version is looked at first and refused with
/// `BadPackageVersion`, then the name with `BadPackageName`. What was not
/// found to match is refused.
pub open spec fn package_verdict(version: Option<bool>, name: Option<bool>) -> Result<(), Error> {
    if version != Some(true) {
        Err(Error::BadPackageVersion)
    } else if name != Some(true) {
        Err(Error::BadPackageName)
    } else {
        Ok(())
    }
}

/// What is said of a package whose version and name were held against
/// their patterns: see `package_verdict`.
pub fn judge_package(version: Option<bool>, name: Option<bool>) -> (r: Result<(), Error>)
    ensures
        r == package_verdict(version, name),
{
    match version {
        Some(true) => match name {
            Some(true) => Ok(()),
            _ => Err(Error::BadPackageName),
        },
        _ => Err(Error::BadPackageVersion),
    }
}

/// Whether a GitLab registry takes a package of the given name and
/// version: the version must match `version_pattern` and the name
/// `name_pattern`.
pub fn ensure_valid_package(name: &str, version: &str) -> (r: Result<(), Error>)
    ensures
        r == package_verdict(
            regex_match(version_pattern(), version@),
            regex_match(name_pattern(), name@),
        ),
{
    let version_found = is_match("^\\A\\d+\\.\\d+\\.\\d+\\z$", version);
    let name_found = is_match("^([a-z]|[A-Z]|\\d|\\.|-|_)+$", name);
    judge_package(version_found, name_found)
}

} // verus!
