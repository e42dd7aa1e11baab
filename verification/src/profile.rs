//! Build profiles: the compiler and the target that a build is made for.

use crate::error::Error;
use crate::error::ProfileKey;
use crate::sd::get_prop;
use crate::sd::set_prop;
use crate::sd::Object;
use crate::sd::SdValue;
use crate::sd::Value;
use crate::utils::hash_bytes;
use crate::utils::hash_of;
use crate::utils::lemma_hash_push;
use vstd::prelude::*;
use vstd::string::StringExecFns;

verus! {

/// The compiler and the target of a build.
#[derive(Clone, Debug)]
pub struct Profile {
    pub compiler_name: String,
    pub compiler_version: String,
    pub platform: String,
    pub architecture: String,
}

/// The name under which a key of a profile is stored.
pub open spec fn key_name(key: ProfileKey) -> Seq<char> {
    match key {
        ProfileKey::CompilerName => "CompilerName"@,
        ProfileKey::CompilerVersion => "CompilerVersion"@,
        ProfileKey::Platform => "Platform"@,
        ProfileKey::Arch => "Arch"@,
    }
}

/// The string that an object holds under a key of a profile. The key must
/// be there and hold a string.
pub open spec fn profile_value(o: Seq<(u64, SdValue)>, key: ProfileKey) -> Result<Seq<char>, Error> {
    match get_prop(o, hash_of(key_name(key))) {
        None => Err(Error::MissingProfileKey(key)),
        Some(SdValue::String(s)) => Ok(s),
        Some(_) => Err(Error::BadProfileKeyType(key)),
    }
}

/// The profile that an object holds, or the error of the first key, in the
/// order compiler name, compiler version, platform, architecture, that
/// cannot be read.
pub open spec fn profile_of(o: Seq<(u64, SdValue)>) -> Result<
    (Seq<char>, Seq<char>, Seq<char>, Seq<char>),
    Error,
> {
    match profile_value(o, ProfileKey::CompilerName) {
        Err(e) => Err(e),
        Ok(name) => match profile_value(o, ProfileKey::CompilerVersion) {
            Err(e) => Err(e),
            Ok(version) => match profile_value(o, ProfileKey::Platform) {
                Err(e) => Err(e),
                Ok(platform) => match profile_value(o, ProfileKey::Arch) {
                    Err(e) => Err(e),
                    Ok(arch) => Ok((name, version, platform, arch)),
                },
            },
        },
    }
}

/// The properties of an object after a key of a profile was set.
pub open spec fn with_key(o: Seq<(u64, SdValue)>, key: ProfileKey, value: Seq<char>) -> Seq<
    (u64, SdValue),
> {
    set_prop(o, hash_of(key_name(key)), SdValue::String(value))
}

fn key_str(key: ProfileKey) -> (name: &'static str)
    ensures
        name@ == key_name(key),
{
    match key {
        ProfileKey::CompilerName => "CompilerName",
        ProfileKey::CompilerVersion => "CompilerVersion",
        ProfileKey::Platform => "Platform",
        ProfileKey::Arch => "Arch",
    }
}

fn bpx_check_key(map: &Object, key: ProfileKey) -> (r: Result<String, Error>)
    ensures
        match r {
            Ok(s) => profile_value(map@, key) == Ok::<Seq<char>, Error>(s@),
            Err(e) => profile_value(map@, key) == Err::<Seq<char>, Error>(e),
        },
{
    match map.get(key_str(key)) {
        None => Err(Error::MissingProfileKey(key)),
        Some(v) => match v {
            Value::String(s) => Ok(s.clone()),
            _ => Err(Error::BadProfileKeyType(key)),
        },
    }
}

impl Profile {
    /// The four strings of the profile.
    pub open spec fn view(&self) -> (Seq<char>, Seq<char>, Seq<char>, Seq<char>) {
        (self.compiler_name@, self.compiler_version@, self.platform@, self.architecture@)
    }

    /// Reads a profile from the metadata of a package.
    pub fn from_bpxsd(obj: &Object) -> (r: Result<Profile, Error>)
        ensures
            match r {
                Ok(p) => profile_of(obj@) == Ok::<
                    (Seq<char>, Seq<char>, Seq<char>, Seq<char>),
                    Error,
                >(p.view()),
                Err(e) => profile_of(obj@) == Err::<
                    (Seq<char>, Seq<char>, Seq<char>, Seq<char>),
                    Error,
                >(e),
            },
    {
        let compiler_name = match bpx_check_key(obj, ProfileKey::CompilerName) {
            Ok(v) => v,
            Err(e) => {
                return Err(e);
            },
        };
        let compiler_version = match bpx_check_key(obj, ProfileKey::CompilerVersion) {
            Ok(v) => v,
            Err(e) => {
                return Err(e);
            },
        };
        let platform = match bpx_check_key(obj, ProfileKey::Platform) {
            Ok(v) => v,
            Err(e) => {
                return Err(e);
            },
        };
        let architecture = match bpx_check_key(obj, ProfileKey::Arch) {
            Ok(v) => v,
            Err(e) => {
                return Err(e);
            },
        };
        Ok(
            Profile {
                compiler_name: compiler_name,
                compiler_version: compiler_version,
                platform: platform,
                architecture: architecture,
            },
        )
    }

    /// Writes the profile into the metadata of a package: sets its four
    /// keys, in the order compiler name, compiler version, platform,
    /// architecture.
    pub fn fill_structured_data(&self, obj: &mut Object)
        ensures
            final(obj)@ == with_key(
                with_key(
                    with_key(
                        with_key(old(obj)@, ProfileKey::CompilerName, self.compiler_name@),
                        ProfileKey::CompilerVersion,
                        self.compiler_version@,
                    ),
                    ProfileKey::Platform,
                    self.platform@,
                ),
                ProfileKey::Arch,
                self.architecture@,
            ),
    {
        obj.set(key_str(ProfileKey::CompilerName), Value::String(self.compiler_name.clone()));
        obj.set(key_str(ProfileKey::CompilerVersion), Value::String(self.compiler_version.clone()));
        obj.set(key_str(ProfileKey::Platform), Value::String(self.platform.clone()));
        obj.set(key_str(ProfileKey::Arch), Value::String(self.architecture.clone()));
    }
}

/// The hash of the key name `CompilerName`.
proof fn lemma_hash_of_compiler_name()
    ensures
        hash_of("CompilerName"@) == 13357407531024931553u64,
{
    reveal_strlit("CompilerName");
    let name = "CompilerName"@;
    vstd::utf8::is_ascii_chars_encode_utf8(name);
    let bytes = vstd::utf8::encode_utf8(name);
    assert(bytes =~= seq![67u8, 111u8, 109u8, 112u8, 105u8, 108u8, 101u8, 114u8, 78u8, 97u8, 109u8, 101u8]);
    let b0 = Seq::<u8>::empty();
    let b1 = b0.push(67u8);
    lemma_hash_push(b0, 67u8);
    assert(hash_bytes(b1) == 177640u64);
    let b2 = b1.push(111u8);
    lemma_hash_push(b1, 111u8);
    assert(hash_bytes(b2) == 5862231u64);
    let b3 = b2.push(109u8);
    lemma_hash_push(b2, 109u8);
    assert(hash_bytes(b3) == 193453732u64);
    let b4 = b3.push(112u8);
    lemma_hash_push(b3, 112u8);
    assert(hash_bytes(b4) == 6383973268u64);
    let b5 = b4.push(105u8);
    lemma_hash_push(b4, 105u8);
    assert(hash_bytes(b5) == 210671117949u64);
    let b6 = b5.push(108u8);
    lemma_hash_push(b5, 108u8);
    assert(hash_bytes(b6) == 6952146892425u64);
    let b7 = b6.push(101u8);
    lemma_hash_push(b6, 101u8);
    assert(hash_bytes(b7) == 229420847450126u64);
    let b8 = b7.push(114u8);
    lemma_hash_push(b7, 114u8);
    assert(hash_bytes(b8) == 7570887965854272u64);
    let b9 = b8.push(78u8);
    lemma_hash_push(b8, 78u8);
    assert(hash_bytes(b9) == 249839302873191054u64);
    let b10 = b9.push(97u8);
    lemma_hash_push(b9, 97u8);
    assert(hash_bytes(b10) == 8244696994815304879u64);
    let b11 = b10.push(109u8);
    lemma_hash_push(b10, 109u8);
    assert(hash_bytes(b11) == 13820583796971338492u64);
    let b12 = b11.push(101u8);
    lemma_hash_push(b11, 101u8);
    assert(hash_bytes(b12) == 13357407531024931553u64);
    assert(b12 =~= bytes);
}

/// The hash of the key name `CompilerVersion`.
proof fn lemma_hash_of_compiler_version()
    ensures
        hash_of("CompilerVersion"@) == 3980156383507904774u64,
{
    reveal_strlit("CompilerVersion");
    let name = "CompilerVersion"@;
    vstd::utf8::is_ascii_chars_encode_utf8(name);
    let bytes = vstd::utf8::encode_utf8(name);
    assert(bytes =~= seq![67u8, 111u8, 109u8, 112u8, 105u8, 108u8, 101u8, 114u8, 86u8, 101u8, 114u8, 115u8, 105u8, 111u8, 110u8]);
    let b0 = Seq::<u8>::empty();
    let b1 = b0.push(67u8);
    lemma_hash_push(b0, 67u8);
    assert(hash_bytes(b1) == 177640u64);
    let b2 = b1.push(111u8);
    lemma_hash_push(b1, 111u8);
    assert(hash_bytes(b2) == 5862231u64);
    let b3 = b2.push(109u8);
    lemma_hash_push(b2, 109u8);
    assert(hash_bytes(b3) == 193453732u64);
    let b4 = b3.push(112u8);
    lemma_hash_push(b3, 112u8);
    assert(hash_bytes(b4) == 6383973268u64);
    let b5 = b4.push(105u8);
    lemma_hash_push(b4, 105u8);
    assert(hash_bytes(b5) == 210671117949u64);
    let b6 = b5.push(108u8);
    lemma_hash_push(b5, 108u8);
    assert(hash_bytes(b6) == 6952146892425u64);
    let b7 = b6.push(101u8);
    lemma_hash_push(b6, 101u8);
    assert(hash_bytes(b7) == 229420847450126u64);
    let b8 = b7.push(114u8);
    lemma_hash_push(b7, 114u8);
    assert(hash_bytes(b8) == 7570887965854272u64);
    let b9 = b8.push(86u8);
    lemma_hash_push(b8, 86u8);
    assert(hash_bytes(b9) == 249839302873191062u64);
    let b10 = b9.push(101u8);
    lemma_hash_push(b9, 101u8);
    assert(hash_bytes(b10) == 8244696994815305147u64);
    let b11 = b10.push(114u8);
    lemma_hash_push(b10, 114u8);
    assert(hash_bytes(b11) == 13820583796971347341u64);
    let b12 = b11.push(115u8);
    lemma_hash_push(b11, 115u8);
    assert(hash_bytes(b12) == 13357407531025223584u64);
    let b13 = b12.push(105u8);
    lemma_hash_push(b12, 105u8);
    assert(hash_bytes(b13) == 16519334828512691209u64);
    let b14 = b13.push(111u8);
    lemma_hash_push(b13, 111u8);
    assert(hash_bytes(b14) == 10182471203341813144u64);
    let b15 = b14.push(110u8);
    lemma_hash_push(b14, 110u8);
    assert(hash_bytes(b15) == 3980156383507904774u64);
    assert(b15 =~= bytes);
}

/// The hash of the key name `Platform`.
proof fn lemma_hash_of_platform()
    ensures
        hash_of("Platform"@) == 7571437666223914u64,
{
    reveal_strlit("Platform");
    let name = "Platform"@;
    vstd::utf8::is_ascii_chars_encode_utf8(name);
    let bytes = vstd::utf8::encode_utf8(name);
    assert(bytes =~= seq![80u8, 108u8, 97u8, 116u8, 102u8, 111u8, 114u8, 109u8]);
    let b0 = Seq::<u8>::empty();
    let b1 = b0.push(80u8);
    lemma_hash_push(b0, 80u8);
    assert(hash_bytes(b1) == 177653u64);
    let b2 = b1.push(108u8);
    lemma_hash_push(b1, 108u8);
    assert(hash_bytes(b2) == 5862657u64);
    let b3 = b2.push(97u8);
    lemma_hash_push(b2, 97u8);
    assert(hash_bytes(b3) == 193467778u64);
    let b4 = b3.push(116u8);
    lemma_hash_push(b3, 116u8);
    assert(hash_bytes(b4) == 6384436790u64);
    let b5 = b4.push(102u8);
    lemma_hash_push(b4, 102u8);
    assert(hash_bytes(b5) == 210686414172u64);
    let b6 = b5.push(111u8);
    lemma_hash_push(b5, 111u8);
    assert(hash_bytes(b6) == 6952651667787u64);
    let b7 = b6.push(114u8);
    lemma_hash_push(b6, 114u8);
    assert(hash_bytes(b7) == 229437505037085u64);
    let b8 = b7.push(109u8);
    lemma_hash_push(b7, 109u8);
    assert(hash_bytes(b8) == 7571437666223914u64);
    assert(b8 =~= bytes);
}

/// The hash of the key name `Arch`.
proof fn lemma_hash_of_arch()
    ensures
        hash_of("Arch"@) == 6383904323u64,
{
    reveal_strlit("Arch");
    let name = "Arch"@;
    vstd::utf8::is_ascii_chars_encode_utf8(name);
    let bytes = vstd::utf8::encode_utf8(name);
    assert(bytes =~= seq![65u8, 114u8, 99u8, 104u8]);
    let b0 = Seq::<u8>::empty();
    let b1 = b0.push(65u8);
    lemma_hash_push(b0, 65u8);
    assert(hash_bytes(b1) == 177638u64);
    let b2 = b1.push(114u8);
    lemma_hash_push(b1, 114u8);
    assert(hash_bytes(b2) == 5862168u64);
    let b3 = b2.push(99u8);
    lemma_hash_push(b2, 99u8);
    assert(hash_bytes(b3) == 193451643u64);
    let b4 = b3.push(104u8);
    lemma_hash_push(b3, 104u8);
    assert(hash_bytes(b4) == 6383904323u64);
    assert(b4 =~= bytes);
}

/// The names of the four keys of a profile have four different hashes, so
/// that no key of a profile takes the place of another.
pub proof fn lemma_keys_hash_apart()
    ensures
        forall|a: ProfileKey, b: ProfileKey|
            a != b ==> hash_of(#[trigger] key_name(a)) != hash_of(#[trigger] key_name(b)),
{
    lemma_hash_of_compiler_name();
    lemma_hash_of_compiler_version();
    lemma_hash_of_platform();
    lemma_hash_of_arch();
}

/// A profile that was written into an object reads back from it.
pub proof fn lemma_profile_reads_back(
    o: Seq<(u64, SdValue)>,
    p: (Seq<char>, Seq<char>, Seq<char>, Seq<char>),
)
    ensures
        profile_of(
            with_key(
                with_key(
                    with_key(with_key(o, ProfileKey::CompilerName, p.0), ProfileKey::CompilerVersion, p.1),
                    ProfileKey::Platform,
                    p.2,
                ),
                ProfileKey::Arch,
                p.3,
            ),
        ) == Ok::<(Seq<char>, Seq<char>, Seq<char>, Seq<char>), Error>(p),
{
    lemma_keys_hash_apart();
    let h0 = hash_of(key_name(ProfileKey::CompilerName));
    let h1 = hash_of(key_name(ProfileKey::CompilerVersion));
    let h2 = hash_of(key_name(ProfileKey::Platform));
    let h3 = hash_of(key_name(ProfileKey::Arch));
    let o1 = with_key(o, ProfileKey::CompilerName, p.0);
    let o2 = with_key(o1, ProfileKey::CompilerVersion, p.1);
    let o3 = with_key(o2, ProfileKey::Platform, p.2);
    let o4 = with_key(o3, ProfileKey::Arch, p.3);
    crate::sd::lemma_get_after_set(o, h0, SdValue::String(p.0));
    crate::sd::lemma_get_after_set(o1, h1, SdValue::String(p.1));
    crate::sd::lemma_get_after_set(o2, h2, SdValue::String(p.2));
    crate::sd::lemma_get_after_set(o3, h3, SdValue::String(p.3));
    crate::sd::lemma_get_other_after_set(o1, h1, SdValue::String(p.1), h0);
    crate::sd::lemma_get_other_after_set(o2, h2, SdValue::String(p.2), h0);
    crate::sd::lemma_get_other_after_set(o3, h3, SdValue::String(p.3), h0);
    crate::sd::lemma_get_other_after_set(o2, h2, SdValue::String(p.2), h1);
    crate::sd::lemma_get_other_after_set(o3, h3, SdValue::String(p.3), h1);
    crate::sd::lemma_get_other_after_set(o3, h3, SdValue::String(p.3), h2);
}

/// The profiles of a project: where they are kept, which toolchain is in
/// use, and the profile of that toolchain once it is set up.
pub struct ProfileManager {
    path: String,
    toolchain_name: String,
    current_profile: Option<Profile>,
}

impl ProfileManager {
    /// The directory in which the profiles are kept.
    pub closed spec fn base_path(&self) -> Seq<char> {
        self.path@
    }

    /// The name of the toolchain in use.
    pub closed spec fn toolchain(&self) -> Seq<char> {
        self.toolchain_name@
    }

    /// The profile of the toolchain in use, if it is set up.
    pub closed spec fn current(&self) -> Option<Profile> {
        self.current_profile
    }

    /// The profiles of the project at `path`: kept in `.fpkg` below it, with
    /// the toolchain `host` in use and the given profile, if any.
    pub fn with_profile(path: &str, profile: Option<Profile>) -> (manager: ProfileManager)
        ensures
            manager.base_path() == path@ + "/.fpkg"@,
            manager.toolchain() == "host"@,
            manager.current() == profile,
    {
        let mut base = path.to_owned();
        base.append("/.fpkg");
        ProfileManager { path: base, toolchain_name: "host".to_owned(), current_profile: profile }
    }

    /// The profile of the toolchain in use. Before one is set up the error
    /// is `ProfileNotInitialized`.
    pub fn get_current(&self) -> (r: Result<&Profile, Error>)
        ensures
            match self.current() {
                Some(p) => r == Ok::<&Profile, Error>(&p),
                None => r == Err::<&Profile, Error>(Error::ProfileNotInitialized),
            },
    {
        match &self.current_profile {
            None => Err(Error::ProfileNotInitialized),
            Some(v) => Ok(v),
        }
    }

    /// The directory of the toolchain in use: its name below the directory
    /// in which the profiles are kept.
    pub fn get_toolchain_path(&self) -> (path: String)
        ensures
            path@ == self.base_path() + "/"@ + self.toolchain(),
    {
        let mut path = self.path.clone();
        path.append("/");
        path.append(self.toolchain_name.as_str());
        path
    }

    /// The directory in which the profiles are kept.
    pub fn get_base_path(&self) -> (path: &str)
        ensures
            path@ == self.base_path(),
    {
        self.path.as_str()
    }

    /// The name of the toolchain in use.
    pub fn get_toolchain(&self) -> (name: &str)
        ensures
            name@ == self.toolchain(),
    {
        self.toolchain_name.as_str()
    }

    /// Puts another toolchain in use, with the profile that was read for it.
    pub fn select(&mut self, toolchain_name: &str, profile: Profile)
        ensures
            final(self).base_path() == old(self).base_path(),
            final(self).toolchain() == toolchain_name@,
            final(self).current() == Some(profile),
    {
        self.toolchain_name = toolchain_name.to_owned();
        self.current_profile = Some(profile);
    }
}

/// The value that a row of properties holds under a name: that of the last
/// property of the name, if there is one.
pub open spec fn property(pairs: Seq<(String, String)>, name: Seq<char>) -> Option<Seq<char>>
    decreases pairs.len(),
{
    if pairs.len() == 0 {
        None
    } else if pairs.last().0@ == name {
        Some(pairs.last().1@)
    } else {
        property(pairs.drop_last(), name)
    }
}

/// The string that the properties of a profile file hold under a key of a
/// profile. The key must be there.
pub open spec fn file_value(pairs: Seq<(String, String)>, key: ProfileKey) -> Result<
    Seq<char>,
    Error,
> {
    match property(pairs, key_name(key)) {
        None => Err(Error::MissingProfileKey(key)),
        Some(s) => Ok(s),
    }
}

/// The profile that the properties of a profile file hold, or the error of
/// the first key, in the order compiler name, compiler version, platform,
/// architecture, that is not there.
pub open spec fn profile_of_file(pairs: Seq<(String, String)>) -> Result<
    (Seq<char>, Seq<char>, Seq<char>, Seq<char>),
    Error,
> {
    match file_value(pairs, ProfileKey::CompilerName) {
        Err(e) => Err(e),
        Ok(name) => match file_value(pairs, ProfileKey::CompilerVersion) {
            Err(e) => Err(e),
            Ok(version) => match file_value(pairs, ProfileKey::Platform) {
                Err(e) => Err(e),
                Ok(platform) => match file_value(pairs, ProfileKey::Arch) {
                    Err(e) => Err(e),
                    Ok(arch) => Ok((name, version, platform, arch)),
                },
            },
        }
    }
}

/// The name of a key of a profile.
fn key_text(key: ProfileKey) -> (name: String)
    ensures
        name@ == key_name(key),
{
    match key {
        ProfileKey::CompilerName => "CompilerName".to_owned(),
        ProfileKey::CompilerVersion => "CompilerVersion".to_owned(),
        ProfileKey::Platform => "Platform".to_owned(),
        ProfileKey::Arch => "Arch".to_owned(),
    }
}

/// The string that the properties of a profile file hold under a key.
pub fn hash_check_key(pairs: &Vec<(String, String)>, key: ProfileKey) -> (r: Result<String, Error>)
    ensures
        match file_value(pairs@, key) {
            Ok(s) => r matches Ok(v) && v@ == s,
            Err(e) => r is Err && r->Err_0 == e,
        },
{
    let name = key_text(key);
    let mut i: usize = pairs.len();
    assert(pairs@.take(i as int) =~= pairs@);
    while i > 0
        invariant
            i <= pairs@.len(),
            name@ == key_name(key),
            property(pairs@, key_name(key)) == property(pairs@.take(i as int), key_name(key)),
        decreases i,
    {
        proof {
            let head = pairs@.take(i as int);
            assert(head.drop_last() =~= pairs@.take(i - 1));
            assert(head.last() == pairs@[i - 1]);
        }
        i -= 1;
        if pairs[i].0 == name {
            return Ok(pairs[i].1.clone());
        }
    }
    Err(Error::MissingProfileKey(key))
}

impl Profile {
    /// Reads a profile from the properties of a profile file.
    pub fn from_properties(pairs: &Vec<(String, String)>) -> (r: Result<Profile, Error>)
        ensures
            match r {
                Ok(p) => profile_of_file(pairs@) == Ok::<
                    (Seq<char>, Seq<char>, Seq<char>, Seq<char>),
                    Error,
                >(p.view()),
                Err(e) => profile_of_file(pairs@) == Err::<
                    (Seq<char>, Seq<char>, Seq<char>, Seq<char>),
                    Error,
                >(e),
            },
    {
        let compiler_name = match hash_check_key(pairs, ProfileKey::CompilerName) {
            Ok(v) => v,
            Err(e) => {
                return Err(e);
            },
        };
        let compiler_version = match hash_check_key(pairs, ProfileKey::CompilerVersion) {
            Ok(v) => v,
            Err(e) => {
                return Err(e);
            },
        };
        let platform = match hash_check_key(pairs, ProfileKey::Platform) {
            Ok(v) => v,
            Err(e) => {
                return Err(e);
            },
        };
        let architecture = match hash_check_key(pairs, ProfileKey::Arch) {
            Ok(v) => v,
            Err(e) => {
                return Err(e);
            },
        };
        Ok(
            Profile {
                compiler_name: compiler_name,
                compiler_version: compiler_version,
                platform: platform,
                architecture: architecture,
            },
        )
    }

    /// The properties that a profile file holds for the profile, in the
    /// order compiler name, compiler version, platform, architecture.
    pub fn to_properties(&self) -> (pairs: Vec<(String, String)>)
        ensures
            profile_of_file(pairs@) == Ok::<(Seq<char>, Seq<char>, Seq<char>, Seq<char>), Error>(
                self.view(),
            ),
            pairs@.len() == 4,
    {
        let mut pairs: Vec<(String, String)> = Vec::new();
        pairs.push((key_text(ProfileKey::CompilerName), self.compiler_name.clone()));
        pairs.push((key_text(ProfileKey::CompilerVersion), self.compiler_version.clone()));
        pairs.push((key_text(ProfileKey::Platform), self.platform.clone()));
        pairs.push((key_text(ProfileKey::Arch), self.architecture.clone()));
        proof {
            lemma_key_names_differ();
            let all = pairs@;
            let three = all.drop_last();
            let two = three.drop_last();
            let one = two.drop_last();
            assert(one.drop_last().len() == 0);
            assert(property(all, key_name(ProfileKey::Arch)) == Some(self.architecture@));
            assert(property(three, key_name(ProfileKey::Platform)) == Some(self.platform@));
            assert(property(all, key_name(ProfileKey::Platform)) == Some(self.platform@));
            assert(property(two, key_name(ProfileKey::CompilerVersion)) == Some(
                self.compiler_version@,
            ));
            assert(property(three, key_name(ProfileKey::CompilerVersion)) == Some(
                self.compiler_version@,
            ));
            assert(property(all, key_name(ProfileKey::CompilerVersion)) == Some(
                self.compiler_version@,
            ));
            assert(property(one, key_name(ProfileKey::CompilerName)) == Some(self.compiler_name@));
            assert(property(two, key_name(ProfileKey::CompilerName)) == Some(self.compiler_name@));
            assert(property(three, key_name(ProfileKey::CompilerName)) == Some(
                self.compiler_name@,
            ));
            assert(property(all, key_name(ProfileKey::CompilerName)) == Some(self.compiler_name@));
        }
        pairs
    }
}

/// The four keys of a profile have four names.
pub proof fn lemma_key_names_differ()
    ensures
        forall|a: ProfileKey, b: ProfileKey| a != b ==> key_name(a) != key_name(b),
{
    reveal_strlit("CompilerName");
    reveal_strlit("CompilerVersion");
    reveal_strlit("Platform");
    reveal_strlit("Arch");
    assert("CompilerName"@.len() == 12);
    assert("CompilerVersion"@.len() == 15);
    assert("Platform"@.len() == 8);
    assert("Arch"@.len() == 4);
}

impl ProfileManager {
    /// The file that holds the profile of a toolchain: `profile` in the
    /// directory of the toolchain.
    pub fn profile_path(&self, toolchain_name: &str) -> (path: String)
        ensures
            path@ == self.base_path() + "/"@ + toolchain_name@ + "/profile"@,
    {
        let mut path = self.path.clone();
        path.append("/");
        path.append(toolchain_name);
        path.append("/profile");
        path
    }

    /// Puts another toolchain in use, with the profile that its file holds.
    ///
    /// `file` is what was read from the profile file of the toolchain, if
    /// there is such a file. Without one the toolchain is refused with
    /// `UnknownToolchain`, and a file that lacks a key with
    /// `MissingProfileKey`; either way nothing changes.
    pub fn load(&mut self, toolchain_name: &str, file: Option<Vec<(String, String)>>) -> (r: Result<
        (),
        Error,
    >)
        ensures
            final(self).base_path() == old(self).base_path(),
            match file {
                None => r == Err::<(), Error>(Error::UnknownToolchain) && *final(self) == *old(self),
                Some(pairs) => match profile_of_file(pairs@) {
                    Err(e) => r == Err::<(), Error>(e) && *final(self) == *old(self),
                    Ok(p) => {
                        &&& r is Ok
                        &&& final(self).toolchain() == toolchain_name@
                        &&& final(self).current() is Some
                        &&& final(self).current()->Some_0.view() == p
                    },
                },
            },
    {
        let pairs = match file {
            None => {
                return Err(Error::UnknownToolchain);
            },
            Some(pairs) => pairs,
        };
        let profile = match Profile::from_properties(&pairs) {
            Err(e) => {
                return Err(e);
            },
            Ok(p) => p,
        };
        self.select(toolchain_name, profile);
        Ok(())
    }
}

} // verus!
