//! Choosing the package that fits a build profile by the name of its file.
//!
//! A package is named `build-`, the platform, the architecture, the name of
//! the compiler and its version, with dashes between them, and an
//! extension of three letters behind a dot.

use crate::builder::names_view;
use crate::profile::Profile;
use crate::text::push_char;
use crate::version::reaches;
use crate::version::version_reaches;
use vstd::prelude::*;
use vstd::string::StrSliceExecFns;
use vstd::string::StringExecFns;
use vstd::string::StringSliceAdditionalSpecFns;
use vstd::utf8::decode_utf8;
use vstd::utf8::encode_utf8;
use vstd::utf8::encode_utf8_decode_utf8;
use vstd::utf8::is_char_boundary;

verus! {

/// The fields of a text: what stands between its dashes. A text without a
/// dash is one field, and so is the empty text.
pub open spec fn fields(text: Seq<char>) -> Seq<Seq<char>>
    decreases text.len(),
{
    if text.len() == 0 {
        seq![Seq::<char>::empty()]
    } else {
        let before = fields(text.drop_last());
        if text.last() == '-' {
            before.push(Seq::<char>::empty())
        } else {
            before.drop_last().push(before.last().push(text.last()))
        }
    }
}

/// A text has at least one field.
pub proof fn lemma_fields_len(text: Seq<char>)
    ensures
        fields(text).len() >= 1,
    decreases text.len(),
{
    if text.len() > 0 {
        lemma_fields_len(text.drop_last());
    }
}

/// The fields of a text.
pub fn split_fields(text: &str) -> (parts: Vec<String>)
    ensures
        names_view(parts@) == fields(text@),
{
    let len = text.unicode_len();
    let mut done: Vec<String> = Vec::new();
    let mut current = String::from_str("");
    let mut i: usize = 0;
    proof {
        reveal_strlit("");
        assert(text@.take(0) =~= Seq::<char>::empty());
        assert(current@ =~= Seq::<char>::empty());
        assert(names_view(done@) =~= Seq::<Seq<char>>::empty());
        assert(fields(text@.take(0)) =~= seq![Seq::<char>::empty()]);
        assert(names_view(done@).push(current@) =~= fields(text@.take(0)));
    }
    while i < len
        invariant
            i <= len,
            len == text@.len(),
            fields(text@.take(i as int)) == names_view(done@).push(current@),
        decreases len - i,
    {
        let c = text.get_char(i);
        let ghost before = names_view(done@).push(current@);
        proof {
            let next = text@.take(i + 1);
            assert(next.drop_last() =~= text@.take(i as int));
            assert(next.last() == c);
            assert(before.drop_last() =~= names_view(done@));
        }
        if c == '-' {
            done.push(current);
            current = String::from_str("");
            proof {
                reveal_strlit("");
                assert(current@ =~= Seq::<char>::empty());
                assert(names_view(done@) =~= before);
                assert(names_view(done@).push(current@) =~= before.push(Seq::<char>::empty()));
            }
        } else {
            push_char(&mut current, c);
            proof {
                assert(names_view(done@).push(current@) =~= before.drop_last().push(
                    before.last().push(c),
                ));
            }
        }
        i += 1;
    }
    assert(text@.take(i as int) =~= text@);
    let ghost all = names_view(done@).push(current@);
    done.push(current);
    assert(names_view(done@) =~= all);
    done
}

/// A text without its last bytes, where it is that long and the cut falls
/// between two characters.
pub open spec fn cut_tail(text: Seq<char>, n: nat) -> Option<Seq<char>> {
    let bytes = encode_utf8(text);
    if bytes.len() >= n && is_char_boundary(bytes, bytes.len() - n) {
        Some(decode_utf8(bytes.take(bytes.len() - n)))
    } else {
        None
    }
}

/// The name of a file without the four bytes of its extension.
pub open spec fn stem(file_name: Seq<char>) -> Option<Seq<char>> {
    cut_tail(file_name, 4)
}

/// A text without its last bytes.
pub fn without_tail(text: &str, n: usize) -> (r: Option<&str>)
    ensures
        match cut_tail(text@, n as nat) {
            Some(head) => r matches Some(h) && h@ == head,
            None => r is None,
        },
{
    let len = text.as_bytes().len();
    if len < n {
        return None;
    }
    match byte_prefix(text, len - n) {
        Some(head) => {
            proof {
                encode_utf8_decode_utf8(head@);
            }
            Some(head)
        },
        None => None,
    }
}

/// Whether a package of the given name, taken without its extension, fits a
/// build profile: platform, architecture and compiler are those of the
/// profile, and the version is that of the profile or, where both have a
/// number, no lower.
pub open spec fn name_matches(profile: Profile, name: Seq<char>) -> bool {
    let parts = fields(name);
    &&& parts.len() == 5
    &&& parts[0] == "build"@
    &&& parts[1] == profile.platform@
    &&& parts[2] == profile.architecture@
    &&& parts[3] == profile.compiler_name@
    &&& (parts[4] == profile.compiler_version@ || reaches(parts[4], profile.compiler_version@)
        == Some(true))
}

/// The first bytes of a text, where it is that long and the cut falls
/// between two characters.
pub open spec fn head_bytes(text: Seq<char>, end: int) -> Option<Seq<u8>> {
    let bytes = encode_utf8(text);
    if end <= bytes.len() && is_char_boundary(bytes, end) {
        Some(bytes.take(end))
    } else {
        None
    }
}

/// Trusted: `str::get` of the standard library with a range that starts at
/// the beginning. It gives the text up to the given byte, and nothing where
/// the text is shorter or the byte is inside a character.
#[verifier::external_body]
fn byte_prefix(text: &str, end: usize) -> (r: Option<&str>)
    ensures
        match r {
            Some(head) => head_bytes(text@, end as int) == Some(head.spec_bytes()),
            None => head_bytes(text@, end as int) is None,
        },
{
    text.get(..end)
}

/// Whether the package in the file of the given name fits a build profile:
/// see `name_matches`. The name must have an extension to take off.
pub fn check_file_name_match(profile: &Profile, file_name: &str) -> (matched: bool)
    requires
        stem(file_name@) is Some,
    ensures
        matched == name_matches(*profile, stem(file_name@)->Some_0),
{
    let name = match without_tail(file_name, 4) {
        Some(head) => head,
        None => {
            return false;
        },
    };
    proof {
        reveal_strlit("build");
    }
    let components = split_fields(name);
    proof {
        lemma_fields_len(name@);
    }
    if components.len() != 5 {
        return false;
    }
    assert(forall|k: int| 0 <= k < 5 ==> names_view(components@)[k] == components@[k]@);
    if components[0] != "build".to_owned() || components[1] != profile.platform || components[2]
        != profile.architecture || components[3] != profile.compiler_name {
        return false;
    }
    if components[4] == profile.compiler_version {
        return true;
    }
    match version_reaches(components[4].as_str(), profile.compiler_version.as_str()) {
        Some(enough) => enough,
        None => false,
    }
}

} // verus!
