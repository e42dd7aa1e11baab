//! The registries that packages are fetched from and published to.

use crate::error::Error;
use crate::text::decimal_digits;
use crate::text::push_char;
use crate::text::push_decimal;
use vstd::prelude::*;

verus! {

/// A registry: where it is and how it is ranked.
#[derive(Clone, Debug)]
pub struct RegistryInfo {
    /// Registries of a higher priority are asked first.
    pub priority: i32,
    /// The address of the registry; its scheme says what kind it is.
    pub base_url: String,
    /// The token to show to the registry, if it asks for one.
    pub access_token: Option<String>,
}

/// The registries by name, in the order in which they are asked, and the
/// name of the one that is used where none is named.
pub struct Settings {
    default_registry: String,
    registries: Vec<(String, RegistryInfo)>,
}

/// The place of the registry of the given name.
pub open spec fn registry_index(registries: Seq<(String, RegistryInfo)>, name: Seq<char>) -> Option<
    int,
>
    decreases registries.len(),
{
    if registries.len() == 0 {
        None
    } else {
        match registry_index(registries.drop_last(), name) {
            Some(i) => Some(i),
            None => if registries.last().0@ == name {
                Some(registries.len() - 1)
            } else {
                None
            },
        }
    }
}

/// What `registry_index` finds has the name, and it finds nothing only
/// where no registry has it.
proof fn lemma_registry_index(registries: Seq<(String, RegistryInfo)>, name: Seq<char>)
    ensures
        match registry_index(registries, name) {
            Some(i) => 0 <= i < registries.len() && registries[i].0@ == name,
            None => forall|j: int|
                0 <= j < registries.len() ==> (#[trigger] registries[j]).0@ != name,
        },
    decreases registries.len(),
{
    if registries.len() > 0 {
        let front = registries.drop_last();
        lemma_registry_index(front, name);
        match registry_index(front, name) {
            Some(i) => {
                assert(front[i] == registries[i]);
            },
            None => {
                assert forall|j: int| 0 <= j < front.len() implies (#[trigger] registries[j]).0@
                    != name by {
                    assert(front[j] == registries[j]);
                }
            },
        }
    }
}

/// Where no registry of a stretch has the name and the next one has it,
/// the next one is the registry of that name.
proof fn lemma_registry_index_at(registries: Seq<(String, RegistryInfo)>, name: Seq<char>, i: int)
    requires
        0 <= i < registries.len(),
        registry_index(registries.take(i), name) is None,
        registries[i].0@ == name,
    ensures
        registry_index(registries, name) == Some(i),
    decreases registries.len() - i,
{
    if i == registries.len() - 1 {
        assert(registries.drop_last() =~= registries.take(i));
    } else {
        assert(registries.drop_last().take(i) =~= registries.take(i));
        lemma_registry_index_at(registries.drop_last(), name, i);
    }
}

/// Whether registries stand in the order in which they are asked: none
/// stands before one of a higher priority.
pub open spec fn by_priority(registries: Seq<(String, RegistryInfo)>) -> bool {
    forall|a: int, b: int|
        0 <= a < b < registries.len() ==> (#[trigger] registries[a]).1.priority >= (
        #[trigger] registries[b]).1.priority
}

/// The registries of one priority, in the order in which they stand.
pub open spec fn of_priority(registries: Seq<(String, RegistryInfo)>, priority: i32) -> Seq<
    (String, RegistryInfo),
> {
    registries.filter(|e: (String, RegistryInfo)| e.1.priority == priority)
}

/// Whether registries of equal priority stand in one row in the order in
/// which they stand in the other.
pub open spec fn same_order_among_equals(
    sorted: Seq<(String, RegistryInfo)>,
    given: Seq<(String, RegistryInfo)>,
) -> bool {
    forall|priority: i32| #[trigger] of_priority(sorted, priority) == of_priority(given, priority)
}

/// A row without a registry of a priority holds none of that priority.
proof fn lemma_none_of_priority(registries: Seq<(String, RegistryInfo)>, priority: i32)
    requires
        forall|k: int| 0 <= k < registries.len() ==> (#[trigger] registries[k]).1.priority
            != priority,
    ensures
        of_priority(registries, priority) == Seq::<(String, RegistryInfo)>::empty(),
    decreases registries.len(),
{
    reveal(Seq::filter);
    if registries.len() > 0 {
        let front = registries.drop_last();
        assert forall|k: int| 0 <= k < front.len() implies (#[trigger] front[k]).1.priority
            != priority by {
            assert(front[k] == registries[k]);
        }
        lemma_none_of_priority(front, priority);
        assert(registries[registries.len() - 1].1.priority != priority);
    }
}

/// A registry that is put behind those of higher and of its own priority,
/// and before those of lower priority, stands behind the registries of its
/// own priority and leaves the order of the others as it was.
proof fn lemma_insert_keeps_order(
    before: Seq<(String, RegistryInfo)>,
    at: int,
    entry: (String, RegistryInfo),
    given: Seq<(String, RegistryInfo)>,
    priority: i32,
)
    requires
        by_priority(before),
        0 <= at <= before.len(),
        forall|k: int| at <= k < before.len() ==> (#[trigger] before[k]).1.priority
            < entry.1.priority,
        of_priority(before, priority) == of_priority(given, priority),
    ensures
        of_priority(before.insert(at, entry), priority) == of_priority(given.push(entry), priority),
{
    let pred = |e: (String, RegistryInfo)| e.1.priority == priority;
    let head = before.take(at);
    let tail = before.skip(at);
    let one = seq![entry];
    assert(before.insert(at, entry) =~= head + one + tail);
    assert(before =~= head + tail);
    assert(given.push(entry) =~= given + one);
    Seq::filter_distributes_over_add(head + one, tail, pred);
    Seq::filter_distributes_over_add(head, one, pred);
    Seq::filter_distributes_over_add(head, tail, pred);
    Seq::filter_distributes_over_add(given, one, pred);
    if entry.1.priority == priority {
        assert forall|k: int| 0 <= k < tail.len() implies (#[trigger] tail[k]).1.priority
            != priority by {
            assert(tail[k] == before[at + k]);
        }
        lemma_none_of_priority(tail, priority);
        assert(head.filter(pred) + one.filter(pred) + Seq::<(String, RegistryInfo)>::empty()
            =~= head.filter(pred) + Seq::<(String, RegistryInfo)>::empty() + one.filter(pred));
    } else {
        assert(one[0].1.priority != priority);
        lemma_none_of_priority(one, priority);
        assert(head.filter(pred) + Seq::<(String, RegistryInfo)>::empty() + tail.filter(pred)
            =~= head.filter(pred) + tail.filter(pred));
        assert(given.filter(pred) + Seq::<(String, RegistryInfo)>::empty() =~= given.filter(pred));
    }
}

/// Puts registries in the order in which they are asked: by priority, the
/// highest first. Registries of equal priority keep the order in which they
/// were given.
pub fn sort_by_priority(registries: Vec<(String, RegistryInfo)>) -> (sorted: Vec<
    (String, RegistryInfo),
>)
    ensures
        by_priority(sorted@),
        same_order_among_equals(sorted@, registries@),
        sorted@.to_multiset() == registries@.to_multiset(),
{
    let ghost all = registries@;
    let mut registries = registries;
    let mut sorted: Vec<(String, RegistryInfo)> = Vec::new();
    let mut i: usize = 0;
    proof {
        assert(all.take(0) =~= sorted@);
    }
    while i < registries.len()
        invariant
            i <= registries@.len(),
            registries@.len() == all.len(),
            forall|k: int| i <= k < registries@.len() ==> registries@[k] == all[k],
            by_priority(sorted@),
            same_order_among_equals(sorted@, all.take(i as int)),
            sorted@.to_multiset() == all.take(i as int).to_multiset(),
        decreases registries@.len() - i,
    {
        let mut entry = (
            String::new(),
            RegistryInfo { priority: 0, base_url: String::new(), access_token: None },
        );
        std::mem::swap(&mut registries[i], &mut entry);
        let mut at: usize = 0;
        while at < sorted.len() && sorted[at].1.priority >= entry.1.priority
            invariant
                at <= sorted@.len(),
                forall|k: int| 0 <= k < at ==> (#[trigger] sorted@[k]).1.priority
                    >= entry.1.priority,
            decreases sorted@.len() - at,
        {
            at += 1;
        }
        let ghost before = sorted@;
        proof {
            assert forall|k: int| at <= k < before.len() implies (#[trigger] before[k]).1.priority
                < entry.1.priority by {
                assert(before[at as int].1.priority >= before[k].1.priority || k == at);
            }
            assert forall|priority: i32| #[trigger]
                of_priority(before.insert(at as int, entry), priority) == of_priority(
                    all.take(i + 1),
                    priority,
                ) by {
                assert(of_priority(before, priority) == of_priority(all.take(i as int), priority));
                lemma_insert_keeps_order(before, at as int, entry, all.take(i as int), priority);
                assert(all.take(i + 1) =~= all.take(i as int).push(entry));
            }
            vstd::seq_lib::to_multiset_insert(before, at as int, entry);
            vstd::seq_lib::to_multiset_build(all.take(i as int), all[i as int]);
            assert(all.take(i + 1) =~= all.take(i as int).push(all[i as int]));
        }
        sorted.insert(at, entry);
        proof {
            assert forall|a: int, b: int| 0 <= a < b < sorted@.len() implies (
            #[trigger] sorted@[a]).1.priority >= (#[trigger] sorted@[b]).1.priority by {
                let x = if a < at { before[a] } else if a == at { entry } else { before[a - 1] };
                let y = if b < at { before[b] } else if b == at { entry } else { before[b - 1] };
                assert(sorted@[a] == x && sorted@[b] == y);
                if a < at && b > at {
                    assert(before[a].1.priority >= entry.1.priority);
                    assert(before[at as int].1.priority >= before[b - 1].1.priority || at == b - 1);
                }
            }
        }
        i += 1;
    }
    proof {
        assert(all.take(all.len() as int) =~= all);
    }
    sorted
}

impl Settings {
    /// The registries by name, in the order in which they are asked.
    pub closed spec fn registries(&self) -> Seq<(String, RegistryInfo)> {
        self.registries@
    }

    /// The name of the registry that is used where none is named.
    pub closed spec fn default_name(&self) -> Seq<char> {
        self.default_registry@
    }

    /// Settings with the given registries, which are put in the order of
    /// their priorities; those of equal priority keep the order in which
    /// they were given. They are refused with `UnknownRegistry` where the
    /// default is not among them.
    pub fn with_registries(default_registry: String, registries: Vec<(String, RegistryInfo)>) -> (r:
        Result<Settings, Error>)
        ensures
            match r {
                Ok(s) => {
                    &&& by_priority(s.registries())
                    &&& same_order_among_equals(s.registries(), registries@)
                    &&& s.registries().to_multiset() == registries@.to_multiset()
                    &&& s.default_name() == default_registry@
                    &&& registry_index(s.registries(), default_registry@) is Some
                },
                Err(e) => e == Error::UnknownRegistry && forall|i: int|
                    0 <= i < registries@.len() ==> (#[trigger] registries@[i]).0@
                        != default_registry@,
            },
    {
        let settings = Settings {
            default_registry: default_registry,
            registries: sort_by_priority(registries),
        };
        match settings.find(settings.default_registry.as_str()) {
            Some(_) => Ok(settings),
            None => {
                proof {
                    let sorted = settings.registries@;
                    lemma_registry_index(sorted, default_registry@);
                    assert forall|i: int| 0 <= i < registries@.len() implies (
                    #[trigger] registries@[i]).0@ != default_registry@ by {
                        let entry = registries@[i];
                        vstd::seq_lib::to_multiset_contains(registries@, entry);
                        vstd::seq_lib::to_multiset_contains(sorted, entry);
                        assert(registries@.contains(entry));
                        let j = choose|j: int| 0 <= j < sorted.len() && sorted[j] == entry;
                        assert(sorted[j].0@ != default_registry@);
                    }
                }
                Err(Error::UnknownRegistry)
            },
        }
    }

    /// The place of the registry of the given name.
    fn find(&self, name: &str) -> (r: Option<usize>)
        ensures
            match r {
                Some(i) => registry_index(self.registries(), name@) == Some(i as int) && i
                    < self.registries().len(),
                None => registry_index(self.registries(), name@) is None,
            },
    {
        let wanted = name.to_owned();
        let mut i: usize = 0;
        assert(self.registries@.take(0) =~= Seq::<(String, RegistryInfo)>::empty());
        while i < self.registries.len()
            invariant
                i <= self.registries@.len(),
                wanted@ == name@,
                registry_index(self.registries@.take(i as int), name@) is None,
            decreases self.registries@.len() - i,
        {
            proof {
                let next = self.registries@.take(i + 1);
                assert(next.drop_last() =~= self.registries@.take(i as int));
                assert(next.last() == self.registries@[i as int]);
            }
            if self.registries[i].0 == wanted {
                proof {
                    lemma_registry_index_at(self.registries@, name@, i as int);
                }
                return Some(i);
            }
            i += 1;
        }
        assert(self.registries@.take(i as int) =~= self.registries@);
        None
    }

    /// All the registries, in the order in which they are asked.
    pub fn get_registries(&self) -> (res: Vec<&RegistryInfo>)
        ensures
            res@.len() == self.registries().len(),
            forall|i: int| 0 <= i < res@.len() ==> *(#[trigger] res@[i]) == self.registries()[i].1,
    {
        let mut res: Vec<&RegistryInfo> = Vec::new();
        let mut i: usize = 0;
        while i < self.registries.len()
            invariant
                i <= self.registries@.len(),
                res@.len() == i,
                forall|k: int| 0 <= k < i ==> *(#[trigger] res@[k]) == self.registries@[k].1,
            decreases self.registries@.len() - i,
        {
            res.push(&self.registries[i].1);
            i += 1;
        }
        res
    }

    /// The registry of the given name, or the default registry where no
    /// name is given. A name that no registry has is refused with
    /// `UnknownRegistry`.
    pub fn get_registry(&self, name: Option<&str>) -> (r: Result<&RegistryInfo, Error>)
        ensures
            match registry_index(
                self.registries(),
                match name {
                    Some(n) => n@,
                    None => self.default_name(),
                },
            ) {
                Some(i) => r matches Ok(info) && *info == self.registries()[i].1,
                None => r is Err && r->Err_0 == Error::UnknownRegistry,
            },
    {
        let found = match name {
            None => self.find(self.default_registry.as_str()),
            Some(v) => self.find(v),
        };
        match found {
            Some(i) => Ok(&self.registries[i].1),
            None => Err(Error::UnknownRegistry),
        }
    }
}

/// A registry as a settings file gives it: what was found under its name,
/// before anything is made of it.
#[derive(Clone, Debug)]
pub struct RawRegistry {
    /// The name of the registry.
    pub name: String,
    /// The address, where the file gives one as a string.
    pub base_url: Option<String>,
    /// The token, where the file gives one as a string.
    pub access_token: Option<String>,
    /// The priority, where the file gives one as a number.
    pub priority: Option<i32>,
}

/// The default registry as a settings file gives it.
#[derive(Clone, Debug)]
pub enum DefaultChoice {
    /// The file names none.
    Unnamed,
    /// The file names this one.
    Named(String),
    /// The file holds something that is no name.
    Invalid,
}

/// What a registry is, apart from how its strings are held: its name, its
/// priority, its address and its token.
pub open spec fn entry_view(entry: (String, RegistryInfo)) -> (
    Seq<char>,
    i32,
    Seq<char>,
    Option<Seq<char>>,
) {
    (
        entry.0@,
        entry.1.priority,
        entry.1.base_url@,
        match entry.1.access_token {
            Some(t) => Some(t@),
            None => None,
        },
    )
}

/// What a row of registries is, apart from how its strings are held.
pub open spec fn entries_view(entries: Seq<(String, RegistryInfo)>) -> Seq<
    (Seq<char>, i32, Seq<char>, Option<Seq<char>>),
> {
    Seq::new(entries.len(), |i: int| entry_view(entries[i]))
}

/// Whether one of the registries has the name.
pub open spec fn named_in(
    done: Seq<(Seq<char>, i32, Seq<char>, Option<Seq<char>>)>,
    name: Seq<char>,
) -> bool {
    exists|i: int| 0 <= i < done.len() && (#[trigger] done[i]).0 == name
}

/// The name under which a registry is kept: its own, or, where a registry
/// before it has that name already, its own with a dash and the number of
/// its place behind it.
pub open spec fn kept_name(
    done: Seq<(Seq<char>, i32, Seq<char>, Option<Seq<char>>)>,
    name: Seq<char>,
) -> Seq<char> {
    if named_in(done, name) {
        name + seq!['-'] + decimal_digits(done.len() + 1)
    } else {
        name
    }
}

/// The registry that the settings keep for what a file gives: the address
/// must be there, and a priority that is left out is 0.
pub open spec fn registry_read(
    done: Seq<(Seq<char>, i32, Seq<char>, Option<Seq<char>>)>,
    raw: RawRegistry,
) -> Result<(Seq<char>, i32, Seq<char>, Option<Seq<char>>), Error> {
    match raw.base_url {
        None => Err(Error::BadRegistryUrl),
        Some(url) => Ok(
            (
                kept_name(done, raw.name@),
                match raw.priority {
                    Some(p) => p,
                    None => 0i32,
                },
                url@,
                match raw.access_token {
                    Some(t) => Some(t@),
                    None => None,
                },
            ),
        ),
    }
}

/// The registries that the settings keep for what a file gives, in the
/// order of the file. The first registry without an address refuses all.
pub open spec fn registries_read(raw: Seq<RawRegistry>) -> Result<
    Seq<(Seq<char>, i32, Seq<char>, Option<Seq<char>>)>,
    Error,
>
    decreases raw.len(),
{
    if raw.len() == 0 {
        Ok(Seq::empty())
    } else {
        match registries_read(raw.drop_last()) {
            Err(e) => Err(e),
            Ok(done) => match registry_read(done, raw.last()) {
                Err(e) => Err(e),
                Ok(entry) => Ok(done.push(entry)),
            },
        }
    }
}

/// The default registry of the settings: the one that the file names, which
/// must be among the registries, or the first registry of the file where
/// the file names none.
pub open spec fn default_read(
    entries: Seq<(Seq<char>, i32, Seq<char>, Option<Seq<char>>)>,
    default: DefaultChoice,
) -> Result<Seq<char>, Error> {
    match default {
        DefaultChoice::Invalid => Err(Error::BadDefaultRegistry),
        DefaultChoice::Unnamed => if entries.len() == 0 {
            Err(Error::UnknownRegistry)
        } else {
            Ok(entries[0].0)
        },
        DefaultChoice::Named(name) => if named_in(entries, name@) {
            Ok(name@)
        } else {
            Err(Error::UnknownRegistry)
        },
    }
}

/// Whether one of the registries has the name.
fn has_name(entries: &Vec<(String, RegistryInfo)>, name: &String) -> (found: bool)
    ensures
        found == named_in(entries_view(entries@), name@),
{
    let mut i: usize = 0;
    while i < entries.len()
        invariant
            i <= entries@.len(),
            forall|k: int| 0 <= k < i ==> (#[trigger] entries_view(entries@)[k]).0 != name@,
        decreases entries@.len() - i,
    {
        if entries[i].0 == *name {
            assert(entries_view(entries@)[i as int].0 == name@);
            return true;
        }
        i += 1;
    }
    false
}

/// Makes registries of what a settings file gives, in the order of the
/// file: see `registries_read`.
pub fn read_registries(raw: &Vec<RawRegistry>) -> (r: Result<Vec<(String, RegistryInfo)>, Error>)
    ensures
        match r {
            Ok(entries) => registries_read(raw@) == Ok::<
                Seq<(Seq<char>, i32, Seq<char>, Option<Seq<char>>)>,
                Error,
            >(entries_view(entries@)),
            Err(e) => registries_read(raw@) == Err::<
                Seq<(Seq<char>, i32, Seq<char>, Option<Seq<char>>)>,
                Error,
            >(e),
        },
{
    let mut entries: Vec<(String, RegistryInfo)> = Vec::new();
    let mut i: usize = 0;
    proof {
        assert(raw@.take(0) =~= Seq::<RawRegistry>::empty());
        assert(entries_view(entries@) =~= Seq::empty());
    }
    while i < raw.len()
        invariant
            i <= raw@.len(),
            entries@.len() == i,
            registries_read(raw@.take(i as int)) == Ok::<
                Seq<(Seq<char>, i32, Seq<char>, Option<Seq<char>>)>,
                Error,
            >(entries_view(entries@)),
        decreases raw@.len() - i,
    {
        let given = &raw[i];
        let ghost done = entries_view(entries@);
        proof {
            let next = raw@.take(i + 1);
            assert(next.drop_last() =~= raw@.take(i as int));
            assert(next.last() == raw@[i as int]);
        }
        let url = match &given.base_url {
            Some(u) => u.clone(),
            None => {
                proof {
                    lemma_registries_read_fails(raw@, i + 1);
                }
                return Err(Error::BadRegistryUrl);
            },
        };
        let token = match &given.access_token {
            Some(t) => Some(t.clone()),
            None => None,
        };
        let priority = match given.priority {
            Some(p) => p,
            None => 0,
        };
        let mut name = given.name.clone();
        if has_name(&entries, &name) {
            push_char(&mut name, '-');
            push_decimal(&mut name, entries.len() as u64 + 1);
            assert(name@ =~= given.name@ + seq!['-'] + decimal_digits(done.len() + 1));
        }
        entries.push(
            (name, RegistryInfo { priority: priority, base_url: url, access_token: token }),
        );
        proof {
            assert(entries_view(entries@) =~= done.push(registry_read(done, raw@[i as int])->Ok_0));
        }
        i += 1;
    }
    assert(raw@.take(i as int) =~= raw@);
    Ok(entries)
}

/// Once a registry of a file is refused, the longer file is refused with
/// it.
proof fn lemma_registries_read_fails(raw: Seq<RawRegistry>, n: int)
    requires
        0 <= n <= raw.len(),
        registries_read(raw.take(n)) is Err,
    ensures
        registries_read(raw) == registries_read(raw.take(n)),
    decreases raw.len() - n,
{
    if n < raw.len() {
        assert(raw.take(n + 1).drop_last() =~= raw.take(n));
        lemma_registries_read_fails(raw, n + 1);
    } else {
        assert(raw.take(n) =~= raw);
    }
}

/// Picks the default registry: see `default_read`.
pub fn choose_default(entries: &Vec<(String, RegistryInfo)>, default: &DefaultChoice) -> (r: Result<
    String,
    Error,
>)
    ensures
        match default_read(entries_view(entries@), *default) {
            Ok(name) => r matches Ok(s) && s@ == name,
            Err(e) => r is Err && r->Err_0 == e,
        },
{
    match default {
        DefaultChoice::Invalid => Err(Error::BadDefaultRegistry),
        DefaultChoice::Unnamed => {
            if entries.len() == 0 {
                Err(Error::UnknownRegistry)
            } else {
                assert(entries_view(entries@)[0].0 == entries@[0].0@);
                Ok(entries[0].0.clone())
            }
        },
        DefaultChoice::Named(name) => {
            if has_name(entries, name) {
                Ok(name.clone())
            } else {
                Err(Error::UnknownRegistry)
            }
        },
    }
}

impl Settings {
    /// The settings that a settings file gives, once it has been read and
    /// taken apart: the registries in the order of their priorities, those
    /// of equal priority in the order of the file, and the default registry.
    ///
    /// The file is refused with `BadRegistryUrl` where a registry has no
    /// address, else with `BadDefaultRegistry` where the default is no name,
    /// else with `UnknownRegistry` where the default is not among the
    /// registries or there is none to take for it.
    pub fn from_entries(raw: &Vec<RawRegistry>, default: &DefaultChoice) -> (r: Result<
        Settings,
        Error,
    >)
        ensures
            match r {
                Ok(s) => exists|built: Seq<(String, RegistryInfo)>|
                    {
                        &&& #[trigger] entries_view(built) == registries_read(raw@)->Ok_0
                        &&& registries_read(raw@) is Ok
                        &&& default_read(entries_view(built), *default) == Ok::<Seq<char>, Error>(
                            s.default_name(),
                        )
                        &&& by_priority(s.registries())
                        &&& same_order_among_equals(s.registries(), built)
                        &&& s.registries().to_multiset() == built.to_multiset()
                    },
                Err(e) => match registries_read(raw@) {
                    Err(f) => e == f,
                    Ok(built) => default_read(built, *default) == Err::<Seq<char>, Error>(e),
                },
            },
    {
        let entries = match read_registries(raw) {
            Ok(v) => v,
            Err(e) => {
                return Err(e);
            },
        };
        let default_registry = match choose_default(&entries, default) {
            Ok(n) => n,
            Err(e) => {
                return Err(e);
            },
        };
        let ghost built = entries@;
        let settings = Settings {
            default_registry: default_registry,
            registries: sort_by_priority(entries),
        };
        assert(entries_view(built) == registries_read(raw@)->Ok_0);
        Ok(settings)
    }
}

/// Whether no two registries of a file have one name.
pub open spec fn distinct_names(raw: Seq<RawRegistry>) -> bool {
    forall|i: int, j: int|
        0 <= i < raw.len() && 0 <= j < raw.len() && i != j ==> (#[trigger] raw[i]).name@ != (
        #[trigger] raw[j]).name@
}

/// What a registry of a file is kept as where no other has its name: its
/// own name, its priority or 0, its address and its token.
pub open spec fn plainly_read(raw: RawRegistry) -> (Seq<char>, i32, Seq<char>, Option<Seq<char>>) {
    (
        raw.name@,
        match raw.priority {
            Some(p) => p,
            None => 0i32,
        },
        match raw.base_url {
            Some(url) => url@,
            None => Seq::<char>::empty(),
        },
        match raw.access_token {
            Some(t) => Some(t@),
            None => None,
        },
    )
}

/// A file whose registries have distinct names and an address each is read
/// registry by registry: as many registries as the file has, each under its
/// own name, with its own address and token, and with its priority or 0.
pub proof fn lemma_read_distinct(raw: Seq<RawRegistry>)
    requires
        distinct_names(raw),
        forall|i: int| 0 <= i < raw.len() ==> (#[trigger] raw[i]).base_url is Some,
    ensures
        registries_read(raw) is Ok,
        registries_read(raw)->Ok_0.len() == raw.len(),
        forall|i: int|
            0 <= i < raw.len() ==> (#[trigger] registries_read(raw)->Ok_0[i]) == plainly_read(
                raw[i],
            ),
    decreases raw.len(),
{
    if raw.len() > 0 {
        let front = raw.drop_last();
        assert forall|i: int, j: int|
            0 <= i < front.len() && 0 <= j < front.len() && i != j implies (#[trigger] front[i]).name@
            != (#[trigger] front[j]).name@ by {
            assert(front[i] == raw[i] && front[j] == raw[j]);
        }
        assert forall|i: int| 0 <= i < front.len() implies (#[trigger] front[i]).base_url is Some by {
            assert(front[i] == raw[i]);
        }
        lemma_read_distinct(front);
        let done = registries_read(front)->Ok_0;
        assert(!named_in(done, raw.last().name@)) by {
            if named_in(done, raw.last().name@) {
                let i = choose|i: int| 0 <= i < done.len() && (#[trigger] done[i]).0 == raw.last().name@;
                assert(done[i] == plainly_read(front[i]));
                assert(front[i] == raw[i]);
                assert(raw[i].name@ != raw[raw.len() - 1].name@);
            }
        }
        assert(raw[raw.len() - 1].base_url is Some);
        let read = registries_read(raw)->Ok_0;
        assert(read == done.push(plainly_read(raw.last())));
        assert forall|i: int| 0 <= i < raw.len() implies (#[trigger] read[i]) == plainly_read(
            raw[i],
        ) by {
            if i < front.len() {
                assert(read[i] == done[i]);
                assert(front[i] == raw[i]);
            }
        }
    }
}

} // verus!
