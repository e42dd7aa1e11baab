//! What a CMake project needs to know of an unpacked library: its binaries
//! as imported targets, one for each file, with a location for each build
//! configuration.

use crate::installer::cut_tail;
use crate::installer::without_tail;
use crate::text::push_char;
use std::collections::HashSet;
use crate::version::remove_char;
use crate::version::without;
use vstd::prelude::*;
use vstd::string::StrSliceExecFns;
use vstd::string::StringExecFns;

verus! {

/// A file of a library for one build configuration. The path starts with
/// the directory of the configuration.
#[derive(Clone, Debug)]
pub struct Target {
    /// The path of the file inside the package.
    pub relative_path: String,
    /// The build configuration that the file is for.
    pub configuration: String,
}

/// A library as a package holds it.
#[derive(Clone, Debug)]
pub struct Library {
    /// The name of the library.
    pub name: String,
    /// The binaries of the library.
    pub binaries: Vec<Target>,
    /// The directories of its headers.
    pub include_dirs: Vec<Target>,
}

/// A binary as CMake imports it.
#[derive(Clone, Debug)]
pub struct CMakeTarget {
    /// The build configuration that the binary is for.
    pub configuration: String,
    /// The import library that goes with the binary, if there is one.
    pub implib: Option<String>,
    /// The path of the binary inside the package.
    pub location: String,
}

/// What a binary is to CMake, apart from how its strings are held.
pub struct TargetView {
    /// The build configuration that the binary is for.
    pub configuration: Seq<char>,
    /// The import library that goes with the binary, if there is one.
    pub implib: Option<Seq<char>>,
    /// The path of the binary inside the package.
    pub location: Seq<char>,
}

impl View for CMakeTarget {
    type V = TargetView;

    open spec fn view(&self) -> TargetView {
        TargetView {
            configuration: self.configuration@,
            implib: match self.implib {
                Some(implib) => Some(implib@),
                None => None,
            },
            location: self.location@,
        }
    }
}

/// The views of a row of binaries.
pub open spec fn views(targets: Seq<CMakeTarget>) -> Seq<TargetView> {
    Seq::new(targets.len(), |i: int| targets[i]@)
}

/// The upper-case form of a string, as `str::to_uppercase` gives it.
pub uninterp spec fn uppercase_of(s: Seq<char>) -> Seq<char>;

/// Trusted: `str::to_uppercase` of the standard library. The contract
/// names its result and says nothing of it.
#[verifier::external_body]
fn to_uppercase(s: &str) -> (upper: String)
    ensures
        upper@ == uppercase_of(s@),
{
    s.to_uppercase()
}

/// What stands behind the last slash of a path, or the whole path where it
/// has no slash.
pub open spec fn after_last_slash(path: Seq<char>) -> Seq<char>
    decreases path.len(),
{
    if path.len() == 0 || path.last() == '/' {
        Seq::<char>::empty()
    } else {
        after_last_slash(path.drop_last()).push(path.last())
    }
}

/// What stands behind the first slash of a path, where it has a slash.
pub open spec fn after_first_slash(path: Seq<char>) -> Option<Seq<char>>
    decreases path.len(),
{
    if path.len() == 0 {
        None
    } else if path[0] == '/' {
        Some(path.drop_first())
    } else {
        after_first_slash(path.drop_first())
    }
}

/// What stands behind the last slash of a path.
pub fn file_part(path: &str) -> (part: &str)
    ensures
        part@ == after_last_slash(path@),
{
    let len = path.unicode_len();
    let mut start: usize = 0;
    let mut i: usize = 0;
    proof {
        assert(path@.take(0) =~= Seq::<char>::empty());
        assert(path@.subrange(0, 0) =~= Seq::<char>::empty());
    }
    while i < len
        invariant
            start <= i <= len,
            len == path@.len(),
            after_last_slash(path@.take(i as int)) == path@.subrange(start as int, i as int),
        decreases len - i,
    {
        let c = path.get_char(i);
        proof {
            let next = path@.take(i + 1);
            assert(next.drop_last() =~= path@.take(i as int));
            assert(next.last() == c);
        }
        if c == '/' {
            start = i + 1;
            assert(path@.subrange(start as int, i + 1) =~= Seq::<char>::empty());
        } else {
            assert(path@.subrange(start as int, i + 1) =~= path@.subrange(
                start as int,
                i as int,
            ).push(c));
        }
        i += 1;
    }
    assert(path@.take(i as int) =~= path@);
    path.substring_char(start, len)
}

/// What stands behind the first slash of a path.
pub fn inner_path(path: &str) -> (part: Option<&str>)
    ensures
        match after_first_slash(path@) {
            Some(rest) => part matches Some(p) && p@ == rest,
            None => part is None,
        },
{
    let len = path.unicode_len();
    let mut i: usize = 0;
    assert(path@.skip(0) =~= path@);
    while i < len
        invariant
            i <= len,
            len == path@.len(),
            after_first_slash(path@) == after_first_slash(path@.skip(i as int)),
        decreases len - i,
    {
        proof {
            assert(path@.skip(i as int).drop_first() =~= path@.skip(i + 1));
            assert(path@.skip(i as int)[0] == path@[i as int]);
        }
        if path.get_char(i) == '/' {
            assert(path@.skip(i + 1) =~= path@.subrange(i + 1, len as int));
            return Some(path.substring_char(i + 1, len));
        }
        i += 1;
    }
    None
}

/// The name of the imported target of a binary: the name of the package,
/// two colons and the name of the file without its dots.
pub open spec fn target_name(package_name: Seq<char>, location: Seq<char>) -> Seq<char> {
    package_name + "::"@ + without(after_last_slash(location), '.')
}

/// The line that gives a target its binary for one configuration.
pub open spec fn location_line(
    name: Seq<char>,
    macro_name: Seq<char>,
    configuration: Seq<char>,
    location: Seq<char>,
) -> Seq<char> {
    "set_property(TARGET "@ + name + " PROPERTY IMPORTED_LOCATION_"@ + uppercase_of(configuration)
        + " \"${"@ + macro_name + "}/"@ + location + "\")"@
}

/// The line that gives a target its import library for one configuration.
pub open spec fn implib_line(
    name: Seq<char>,
    macro_name: Seq<char>,
    configuration: Seq<char>,
    implib: Seq<char>,
) -> Seq<char> {
    "set_property(TARGET "@ + name + " PROPERTY IMPORTED_IMPLIB_"@ + uppercase_of(configuration)
        + " \"${"@ + macro_name + "}/"@ + implib + "\")"@
}

/// What one binary adds to the text of its target.
pub open spec fn binary_text(name: Seq<char>, macro_name: Seq<char>, target: TargetView) -> Seq<
    char,
> {
    location_line(name, macro_name, target.configuration, target.location) + (match target.implib {
        Some(implib) => implib_line(name, macro_name, target.configuration, implib),
        None => Seq::<char>::empty(),
    }) + seq!['\n']
}

/// What a row of binaries adds to the text of their target.
pub open spec fn binaries_text(
    name: Seq<char>,
    macro_name: Seq<char>,
    targets: Seq<TargetView>,
) -> Seq<char>
    decreases targets.len(),
{
    if targets.len() == 0 {
        Seq::<char>::empty()
    } else {
        binaries_text(name, macro_name, targets.drop_last()) + binary_text(
            name,
            macro_name,
            targets.last(),
        )
    }
}

/// The text that imports a target of the given name with its binaries.
pub open spec fn target_text(
    name: Seq<char>,
    macro_name: Seq<char>,
    targets: Seq<TargetView>,
) -> Seq<char> {
    "add_library("@ + name + " UNKNOWN IMPORTED)"@ + seq!['\n'] + binaries_text(
        name,
        macro_name,
        targets,
    )
}

/// Adds the line of a binary's location to a text.
pub fn push_location_line(s: &mut String, name: &str, macro_name: &str, upper: &str, location: &str)
    ensures
        final(s)@ == old(s)@ + ("set_property(TARGET "@ + name@
            + " PROPERTY IMPORTED_LOCATION_"@ + upper@ + " \"${"@ + macro_name@ + "}/"@
            + location@ + "\")"@),
{
    s.append("set_property(TARGET ");
    s.append(name);
    s.append(" PROPERTY IMPORTED_LOCATION_");
    s.append(upper);
    s.append(" \"${");
    s.append(macro_name);
    s.append("}/");
    s.append(location);
    s.append("\")");
    assert(s@ =~= old(s)@ + ("set_property(TARGET "@ + name@ + " PROPERTY IMPORTED_LOCATION_"@
        + upper@ + " \"${"@ + macro_name@ + "}/"@ + location@ + "\")"@));
}

/// Adds the line of a binary's import library to a text.
pub fn push_implib_line(s: &mut String, name: &str, macro_name: &str, upper: &str, implib: &str)
    ensures
        final(s)@ == old(s)@ + ("set_property(TARGET "@ + name@ + " PROPERTY IMPORTED_IMPLIB_"@
            + upper@ + " \"${"@ + macro_name@ + "}/"@ + implib@ + "\")"@),
{
    s.append("set_property(TARGET ");
    s.append(name);
    s.append(" PROPERTY IMPORTED_IMPLIB_");
    s.append(upper);
    s.append(" \"${");
    s.append(macro_name);
    s.append("}/");
    s.append(implib);
    s.append("\")");
    assert(s@ =~= old(s)@ + ("set_property(TARGET "@ + name@ + " PROPERTY IMPORTED_IMPLIB_"@
        + upper@ + " \"${"@ + macro_name@ + "}/"@ + implib@ + "\")"@));
}

/// The imported target of a row of binaries: its name, which is that of
/// the first binary, and the text that declares it with the location of
/// each binary under its configuration. There must be a first binary.
pub fn compute_cmake_target(macro_name: &str, package_name: &str, targets: Vec<CMakeTarget>) -> (r:
    (String, String))
    requires
        targets@.len() > 0,
    ensures
        r.0@ == target_name(package_name@, targets@[0].location@),
        r.1@ == target_text(r.0@, macro_name@, views(targets@)),
{
    let sub = remove_char(file_part(targets[0].location.as_str()), '.');
    let mut name = String::from_str(package_name);
    name.append("::");
    name.append(sub.as_str());
    let mut s = String::from_str("add_library(");
    s.append(name.as_str());
    s.append(" UNKNOWN IMPORTED)");
    push_char(&mut s, '\n');
    let ghost head = s@;
    let mut i: usize = 0;
    proof {
        assert(views(targets@).take(0) =~= Seq::<TargetView>::empty());
        assert(s@ =~= head + binaries_text(name@, macro_name@, views(targets@).take(0)));
    }
    while i < targets.len()
        invariant
            i <= targets@.len(),
            s@ == head + binaries_text(name@, macro_name@, views(targets@).take(i as int)),
        decreases targets@.len() - i,
    {
        let target = &targets[i];
        let ghost before = s@;
        proof {
            let next = views(targets@).take(i + 1);
            assert(next.drop_last() =~= views(targets@).take(i as int));
            assert(next.last() == target@);
        }
        let upper = to_uppercase(target.configuration.as_str());
        push_location_line(
            &mut s,
            name.as_str(),
            macro_name,
            upper.as_str(),
            target.location.as_str(),
        );
        if let Some(implib) = &target.implib {
            push_implib_line(&mut s, name.as_str(), macro_name, upper.as_str(), implib.as_str());
        }
        push_char(&mut s, '\n');
        proof {
            assert(s@ =~= before + binary_text(name@, macro_name@, target@));
            assert(s@ =~= head + (binaries_text(name@, macro_name@, views(targets@).take(i as int))
                + binary_text(name@, macro_name@, target@)));
        }
        i += 1;
    }
    proof {
        assert(views(targets@).take(i as int) =~= views(targets@));
        assert(head =~= "add_library("@ + name@ + " UNKNOWN IMPORTED)"@ + seq!['\n']);
    }
    (name, s)
}

/// A copy of a binary.
fn copy_target(target: &CMakeTarget) -> (copy: CMakeTarget)
    ensures
        copy@ == target@,
{
    CMakeTarget {
        configuration: target.configuration.clone(),
        implib: match &target.implib {
            Some(implib) => Some(implib.clone()),
            None => None,
        },
        location: target.location.clone(),
    }
}

/// Whether two paths are the same behind their first slash, that is,
/// behind the directory of the configuration.
pub open spec fn same_inner_path(a: Seq<char>, b: Seq<char>) -> bool {
    after_first_slash(a) is Some && after_first_slash(a) == after_first_slash(b)
}

/// The first binary of a row together with each of the others up to a
/// place that has the same path behind the first slash: the first binary
/// and that other one, for each such other one, in the order of the row.
pub open spec fn partners_upto(all: Seq<TargetView>, end: int) -> Seq<TargetView>
    decreases end,
{
    if end <= 1 {
        Seq::<TargetView>::empty()
    } else {
        let before = partners_upto(all, end - 1);
        if same_inner_path(all[0].location, all[end - 1].location) {
            before.push(all[0]).push(all[end - 1])
        } else {
            before
        }
    }
}

/// The first binary of a row together with each of the others that has
/// the same path behind the first slash.
pub open spec fn partners(all: Seq<TargetView>) -> Seq<TargetView> {
    partners_upto(all, all.len() as int)
}

/// Whether two paths are the same behind their first slash.
fn inner_paths_agree(a: &str, b: &str) -> (same: bool)
    ensures
        same == same_inner_path(a@, b@),
{
    match inner_path(a) {
        Some(x) => match inner_path(b) {
            Some(y) => x.to_owned() == y.to_owned(),
            None => false,
        },
        None => false,
    }
}

/// The imported targets of the binaries of a library: one target, which
/// has the name of the first binary and holds the first binary once with
/// each of the others that has the same path behind the directory of its
/// configuration. No binaries give no target. Where there are binaries,
/// the first one must have such a partner.
pub fn group_binaries_by_config(pass1: Vec<CMakeTarget>, macro_name: &str, package_name: &str) -> (r:
    Vec<(String, String)>)
    requires
        pass1@.len() > 0 ==> partners(views(pass1@)).len() > 0,
    ensures
        pass1@.len() == 0 ==> r@.len() == 0,
        pass1@.len() > 0 ==> r@.len() == 1 && r@[0].0@ == target_name(
            package_name@,
            pass1@[0].location@,
        ) && r@[0].1@ == target_text(r@[0].0@, macro_name@, partners(views(pass1@))),
{
    let mut vec: Vec<(String, String)> = Vec::new();
    let mut set: HashSet<usize> = HashSet::new();
    let n = pass1.len();
    let ghost all = views(pass1@);
    let mut i: usize = 0;
    while i < n
        invariant
            i <= n,
            n == pass1@.len(),
            all == views(pass1@),
            n > 0 ==> partners(all).len() > 0,
            i == 0 ==> vec@.len() == 0 && set@ =~= Set::<usize>::empty(),
            i > 0 ==> forall|k: usize| k < n ==> set@.contains(k),
            i > 0 ==> vec@.len() == 1 && vec@[0].0@ == target_name(
                package_name@,
                pass1@[0].location@,
            ) && vec@[0].1@ == target_text(vec@[0].0@, macro_name@, partners(all)),
        decreases n - i,
    {
        if !set.contains(&i) {
            let mut targets: Vec<CMakeTarget> = Vec::new();
            let mut j: usize = 0;
            assert(views(targets@) =~= partners_upto(all, 0));
            while j < n
                invariant
                    i == 0,
                    j <= n,
                    n == pass1@.len(),
                    all == views(pass1@),
                    forall|k: usize| set@.contains(k) <==> 1 <= k < j,
                    views(targets@) == partners_upto(all, j as int),
                decreases n - j,
            {
                if !(set.contains(&j) || i == j) {
                    let ghost before = views(targets@);
                    if inner_paths_agree(pass1[i].location.as_str(), pass1[j].location.as_str()) {
                        targets.push(copy_target(&pass1[i]));
                        targets.push(copy_target(&pass1[j]));
                        assert(views(targets@) =~= before.push(all[0]).push(all[j as int]));
                    }
                    set.insert(j);
                }
                j += 1;
            }
            proof {
                assert(views(targets@)[0] == targets@[0]@);
                assert(partners_upto(all, n as int).len() > 0);
                lemma_partners_start(all, n as int);
            }
            let (name, res) = compute_cmake_target(macro_name, package_name, targets);
            vec.push((name, res));
            set.insert(i);
        }
        i += 1;
    }
    vec
}

/// The partners of a row start with its first binary.
proof fn lemma_partners_start(all: Seq<TargetView>, end: int)
    requires
        partners_upto(all, end).len() > 0,
    ensures
        partners_upto(all, end)[0] == all[0],
    decreases end,
{
    if end > 1 {
        if partners_upto(all, end - 1).len() > 0 {
            lemma_partners_start(all, end - 1);
        }
    }
}

/// Whether a text ends in another.
pub open spec fn ends_in(text: Seq<char>, tail: Seq<char>) -> bool {
    text.len() >= tail.len() && text.subrange(text.len() - tail.len(), text.len() as int) == tail
}

/// Trusted: `str::ends_with` of the standard library, with a string as the
/// pattern. It says whether the text ends in the pattern.
#[verifier::external_body]
fn ends_with(text: &str, tail: &str) -> (r: bool)
    ensures
        r == ends_in(text@, tail@),
{
    text.ends_with(tail)
}

/// The binary that two files of a library make together: a library to
/// import (`.lib`) and the library to load (`.dll`) whose paths differ in
/// nothing but their last three bytes. The location is the library to
/// load, and the configuration that of the first file.
pub open spec fn pair_of(v: Target, v1: Target) -> Option<TargetView> {
    let same = cut_tail(v.relative_path@, 3) == cut_tail(v1.relative_path@, 3);
    if same && ends_in(v.relative_path@, ".lib"@) && ends_in(v1.relative_path@, ".dll"@) {
        Some(
            TargetView {
                configuration: v.configuration@,
                implib: Some(v.relative_path@),
                location: v1.relative_path@,
            },
        )
    } else if same && ends_in(v.relative_path@, ".dll"@) && ends_in(v1.relative_path@, ".lib"@) {
        Some(
            TargetView {
                configuration: v.configuration@,
                implib: Some(v1.relative_path@),
                location: v.relative_path@,
            },
        )
    } else {
        None
    }
}

/// A file of a library as a binary of its own.
pub open spec fn alone(v: Target) -> TargetView {
    TargetView { configuration: v.configuration@, implib: None, location: v.relative_path@ }
}

/// How far the files of a library have been grouped: the files that are
/// done with, and the binaries so far.
pub struct Grouping {
    /// The places of the files that are done with.
    pub taken: Set<usize>,
    /// The binaries so far.
    pub targets: Seq<TargetView>,
}

/// The grouping after the file at `i` has been held against the files
/// before `end`: each of them that is not done with and makes a pair with
/// it adds that pair and is then done with.
pub open spec fn paired_upto(bins: Seq<Target>, i: usize, end: int, start: Grouping) -> Grouping
    decreases end,
{
    if end <= 0 {
        start
    } else {
        let before = paired_upto(bins, i, end - 1, start);
        let j = (end - 1) as usize;
        if before.taken.contains(j) || i == j {
            before
        } else {
            match pair_of(bins[i as int], bins[j as int]) {
                Some(pair) => Grouping {
                    taken: before.taken.insert(j),
                    targets: before.targets.push(pair),
                },
                None => before,
            }
        }
    }
}

/// The grouping after the files before `end`: each file that is not done
/// with is held against all the others, is then added as a binary of its
/// own, and is done with.
pub open spec fn grouped_upto(bins: Seq<Target>, end: int) -> Grouping
    decreases end,
{
    if end <= 0 {
        Grouping { taken: Set::<usize>::empty(), targets: Seq::<TargetView>::empty() }
    } else {
        let before = grouped_upto(bins, end - 1);
        let i = (end - 1) as usize;
        if before.taken.contains(i) {
            before
        } else {
            let paired = paired_upto(bins, i, bins.len() as int, before);
            Grouping { taken: paired.taken.insert(i), targets: paired.targets.push(alone(bins[i as int])) }
        }
    }
}

/// The binaries of a library as CMake imports them.
pub open spec fn grouped(bins: Seq<Target>) -> Seq<TargetView> {
    grouped_upto(bins, bins.len() as int).targets
}

/// The binary that two files make together, if they make one.
fn pair_targets(v: &Target, v1: &Target) -> (r: Option<CMakeTarget>)
    requires
        cut_tail(v.relative_path@, 3) is Some,
        cut_tail(v1.relative_path@, 3) is Some,
    ensures
        match pair_of(*v, *v1) {
            Some(pair) => r matches Some(t) && t@ == pair,
            None => r is None,
        },
{
    let path = v.relative_path.as_str();
    let path1 = v1.relative_path.as_str();
    let file_part = match without_tail(path, 3) {
        Some(p) => p,
        None => {
            return None;
        },
    };
    let file_part1 = match without_tail(path1, 3) {
        Some(p) => p,
        None => {
            return None;
        },
    };
    let lib_dll = ends_with(path, ".lib") && ends_with(path1, ".dll");
    let dll_lib = ends_with(path, ".dll") && ends_with(path1, ".lib");
    if file_part.to_owned() == file_part1.to_owned() && (lib_dll || dll_lib) {
        if lib_dll {
            Some(
                CMakeTarget {
                    location: v1.relative_path.clone(),
                    implib: Some(v.relative_path.clone()),
                    configuration: v.configuration.clone(),
                },
            )
        } else {
            Some(
                CMakeTarget {
                    location: v.relative_path.clone(),
                    implib: Some(v1.relative_path.clone()),
                    configuration: v.configuration.clone(),
                },
            )
        }
    } else {
        None
    }
}

/// The binaries of a library as CMake imports them: see `grouped_upto`.
/// Where the library has more than one file, each path must be at least
/// three bytes long, the last three of them whole characters.
pub fn group_binaries_by_implib(lib: &Library) -> (targets: Vec<CMakeTarget>)
    requires
        lib.binaries@.len() > 1 ==> forall|k: int|
            0 <= k < lib.binaries@.len() ==> cut_tail(
                (#[trigger] lib.binaries@[k]).relative_path@,
                3,
            ) is Some,
    ensures
        views(targets@) == grouped(lib.binaries@),
{
    let mut set: HashSet<usize> = HashSet::new();
    let mut targets: Vec<CMakeTarget> = Vec::new();
    let n = lib.binaries.len();
    let ghost bins = lib.binaries@;
    let mut i: usize = 0;
    assert(views(targets@) =~= Seq::<TargetView>::empty());
    assert(set@ =~= Set::<usize>::empty());
    while i < n
        invariant
            i <= n,
            n == bins.len(),
            bins == lib.binaries@,
            n > 1 ==> forall|k: int|
                0 <= k < n ==> cut_tail((#[trigger] bins[k]).relative_path@, 3) is Some,
            grouped_upto(bins, i as int) == (Grouping { taken: set@, targets: views(targets@) }),
        decreases n - i,
    {
        if !set.contains(&i) {
            let v = &lib.binaries[i];
            let ghost start = Grouping { taken: set@, targets: views(targets@) };
            let mut j: usize = 0;
            while j < n
                invariant
                    i < n,
                    j <= n,
                    n == bins.len(),
                    bins == lib.binaries@,
                    *v == bins[i as int],
                    n > 1 ==> forall|k: int|
                        0 <= k < n ==> cut_tail((#[trigger] bins[k]).relative_path@, 3) is Some,
                    paired_upto(bins, i, j as int, start) == (Grouping {
                        taken: set@,
                        targets: views(targets@),
                    }),
                decreases n - j,
            {
                if !(set.contains(&j) || i == j) {
                    let v1 = &lib.binaries[j];
                    let ghost before = views(targets@);
                    match pair_targets(v, v1) {
                        Some(pair) => {
                            targets.push(pair);
                            set.insert(j);
                            assert(views(targets@) =~= before.push(pair@));
                        },
                        None => {},
                    }
                }
                j += 1;
            }
            let ghost before = views(targets@);
            targets.push(
                CMakeTarget {
                    location: v.relative_path.clone(),
                    configuration: v.configuration.clone(),
                    implib: None,
                },
            );
            set.insert(i);
            assert(views(targets@) =~= before.push(alone(*v)));
        }
        i += 1;
    }
    targets
}

/// The line that gives the target of a package a directory of headers for
/// one configuration.
pub open spec fn include_line(package_name: Seq<char>, macro_name: Seq<char>, inc: Target) -> Seq<
    char,
> {
    "target_include_directories(fpkg::"@ + package_name + " INTERFACE $<$<CONFIG:"@
        + inc.configuration@ + ">:${"@ + macro_name + "}/"@ + inc.relative_path@ + ">)"@ + seq![
        '\n',
    ]
}

/// The lines of the directories of headers of a package.
pub open spec fn include_lines(
    package_name: Seq<char>,
    macro_name: Seq<char>,
    include_dirs: Seq<Target>,
) -> Seq<char>
    decreases include_dirs.len(),
{
    if include_dirs.len() == 0 {
        Seq::<char>::empty()
    } else {
        include_lines(package_name, macro_name, include_dirs.drop_last()) + include_line(
            package_name,
            macro_name,
            include_dirs.last(),
        )
    }
}

/// The line that links the target of a package to one of its binaries.
pub open spec fn link_line(package_name: Seq<char>, name: Seq<char>) -> Seq<char> {
    "target_link_libraries(fpkg::"@ + package_name + " INTERFACE "@ + name + ")"@ + seq!['\n']
}

/// The lines that link the target of a package to its binaries.
pub open spec fn link_lines(package_name: Seq<char>, cmake_targets: Seq<(String, String)>) -> Seq<
    char,
>
    decreases cmake_targets.len(),
{
    if cmake_targets.len() == 0 {
        Seq::<char>::empty()
    } else {
        link_lines(package_name, cmake_targets.drop_last()) + link_line(
            package_name,
            cmake_targets.last().0@,
        )
    }
}

/// The text that declares the target of a whole package.
pub open spec fn master_text(
    package_name: Seq<char>,
    macro_name: Seq<char>,
    include_dirs: Seq<Target>,
    cmake_targets: Seq<(String, String)>,
) -> Seq<char> {
    "add_library(fpkg::"@ + package_name + " INTERFACE IMPORTED)"@ + seq!['\n'] + include_lines(
        package_name,
        macro_name,
        include_dirs,
    ) + link_lines(package_name, cmake_targets)
}

/// The text that declares the target of a whole package: an interface
/// library under the name of the package, with the directories of its
/// headers, each under its configuration, and linked to each of the
/// targets of its binaries.
pub fn compute_master_target(
    macro_name: &str,
    package_name: &str,
    include_dirs: &Vec<Target>,
    cmake_targets: &Vec<(String, String)>,
) -> (text: String)
    ensures
        text@ == master_text(package_name@, macro_name@, include_dirs@, cmake_targets@),
{
    let mut s = String::from_str("add_library(fpkg::");
    s.append(package_name);
    s.append(" INTERFACE IMPORTED)");
    push_char(&mut s, '\n');
    let ghost head = s@;
    let mut i: usize = 0;
    proof {
        assert(include_dirs@.take(0) =~= Seq::<Target>::empty());
        assert(s@ =~= head + include_lines(package_name@, macro_name@, include_dirs@.take(0)));
    }
    while i < include_dirs.len()
        invariant
            i <= include_dirs@.len(),
            s@ == head + include_lines(package_name@, macro_name@, include_dirs@.take(i as int)),
        decreases include_dirs@.len() - i,
    {
        let inc = &include_dirs[i];
        let ghost before = s@;
        proof {
            let next = include_dirs@.take(i + 1);
            assert(next.drop_last() =~= include_dirs@.take(i as int));
            assert(next.last() == *inc);
        }
        s.append("target_include_directories(fpkg::");
        s.append(package_name);
        s.append(" INTERFACE $<$<CONFIG:");
        s.append(inc.configuration.as_str());
        s.append(">:${");
        s.append(macro_name);
        s.append("}/");
        s.append(inc.relative_path.as_str());
        s.append(">)");
        push_char(&mut s, '\n');
        proof {
            assert(s@ =~= before + include_line(package_name@, macro_name@, *inc));
            assert(s@ =~= head + (include_lines(
                package_name@,
                macro_name@,
                include_dirs@.take(i as int),
            ) + include_line(package_name@, macro_name@, *inc)));
        }
        i += 1;
    }
    let ghost middle = s@;
    let mut k: usize = 0;
    proof {
        assert(include_dirs@.take(i as int) =~= include_dirs@);
        assert(cmake_targets@.take(0) =~= Seq::<(String, String)>::empty());
        assert(s@ =~= middle + link_lines(package_name@, cmake_targets@.take(0)));
    }
    while k < cmake_targets.len()
        invariant
            k <= cmake_targets@.len(),
            s@ == middle + link_lines(package_name@, cmake_targets@.take(k as int)),
        decreases cmake_targets@.len() - k,
    {
        let ghost before = s@;
        proof {
            let next = cmake_targets@.take(k + 1);
            assert(next.drop_last() =~= cmake_targets@.take(k as int));
            assert(next.last() == cmake_targets@[k as int]);
        }
        s.append("target_link_libraries(fpkg::");
        s.append(package_name);
        s.append(" INTERFACE ");
        s.append(cmake_targets[k].0.as_str());
        s.append(")");
        push_char(&mut s, '\n');
        proof {
            assert(s@ =~= before + link_line(package_name@, cmake_targets@[k as int].0@));
            assert(s@ =~= middle + (link_lines(package_name@, cmake_targets@.take(k as int))
                + link_line(package_name@, cmake_targets@[k as int].0@)));
        }
        k += 1;
    }
    proof {
        assert(cmake_targets@.take(k as int) =~= cmake_targets@);
        assert(head =~= "add_library(fpkg::"@ + package_name@ + " INTERFACE IMPORTED)"@ + seq![
            '\n',
        ]);
    }
    s
}

} // verus!
