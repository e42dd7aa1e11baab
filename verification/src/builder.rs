//! Choosing the build configuration of a project.

use crate::error::Error;
use vstd::prelude::*;

verus! {

/// The lower-case form of a string, as `str::to_lowercase` gives it.
pub uninterp spec fn lowercase_of(s: Seq<char>) -> Seq<char>;

/// `str::to_lowercase`: the lower-case form of the string.
#[verifier::external_body]
fn to_lowercase(s: &str) -> (lower: String)
    ensures
        lower@ == lowercase_of(s@),
{
    s.to_lowercase()
}

/// Whether a configuration answers to a name: the name is the configuration
/// as it is written or in lower case.
pub open spec fn answers_to(configuration: Seq<char>, name: Seq<char>) -> bool {
    configuration == name || lowercase_of(configuration) == name
}

/// The first of the configurations that answers to the name.
pub open spec fn first_answering(configs: Seq<Seq<char>>, name: Seq<char>) -> Option<int>
    decreases configs.len(),
{
    if configs.len() == 0 {
        None
    } else {
        match first_answering(configs.drop_last(), name) {
            Some(i) => Some(i),
            None => if answers_to(configs.last(), name) {
                Some(configs.len() - 1)
            } else {
                None
            },
        }
    }
}

/// The views of a row of strings.
pub open spec fn names_view(names: Seq<String>) -> Seq<Seq<char>> {
    Seq::new(names.len(), |i: int| names[i]@)
}

/// Where no configuration of a stretch answers to the name and the next one
/// does, the next one is the first that answers.
proof fn lemma_first_answering_at(configs: Seq<Seq<char>>, name: Seq<char>, i: int)
    requires
        0 <= i < configs.len(),
        first_answering(configs.take(i), name) is None,
        answers_to(configs[i], name),
    ensures
        first_answering(configs, name) == Some(i),
    decreases configs.len() - i,
{
    if i == configs.len() - 1 {
        assert(configs.drop_last() =~= configs.take(i));
    } else {
        assert(configs.drop_last().take(i) =~= configs.take(i));
        lemma_first_answering_at(configs.drop_last(), name, i);
    }
}

/// The place of the first configuration that answers to the name.
fn find_configuration(config: &str, v: &Vec<String>) -> (r: Option<usize>)
    ensures
        match r {
            Some(i) => first_answering(names_view(v@), config@) == Some(i as int) && i < v@.len(),
            None => first_answering(names_view(v@), config@) is None,
        },
{
    let wanted = config.to_owned();
    let mut i: usize = 0;
    assert(names_view(v@).take(0) =~= Seq::<Seq<char>>::empty());
    while i < v.len()
        invariant
            i <= v@.len(),
            wanted@ == config@,
            first_answering(names_view(v@).take(i as int), config@) is None,
        decreases v@.len() - i,
    {
        proof {
            let next = names_view(v@).take(i + 1);
            assert(next.drop_last() =~= names_view(v@).take(i as int));
            assert(next.last() == v@[i as int]@);
        }
        let lower = to_lowercase(v[i].as_str());
        if v[i] == wanted || lower == wanted {
            proof {
                lemma_first_answering_at(names_view(v@), config@, i as int);
            }
            return Some(i);
        }
        i += 1;
    }
    assert(names_view(v@).take(i as int) =~= names_view(v@));
    None
}

/// The build configuration that a name stands for.
///
/// A project that names no configurations takes any name as it is. One
/// that names them takes the first that answers to the name, as it is
/// written or in lower case, and refuses a name that none answers to with
/// `UnknownConfiguration`.
pub fn check_build_configuration(config: &str, configs: &Option<Vec<String>>) -> (r: Result<
    String,
    Error,
>)
    ensures
        match *configs {
            None => r matches Ok(name) && name@ == config@,
            Some(v) => match first_answering(names_view(v@), config@) {
                Some(i) => r matches Ok(name) && name@ == v@[i]@,
                None => r is Err && r->Err_0 == Error::UnknownConfiguration,
            },
        },
{
    match configs {
        None => Ok(config.to_owned()),
        Some(v) => match find_configuration(config, v) {
            Some(i) => Ok(v[i].clone()),
            None => Err(Error::UnknownConfiguration),
        },
    }
}

} // verus!
