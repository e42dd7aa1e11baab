//! Structured data (BPXSD): a tree of tagged values and its binary form.

use crate::endian::u16_from_le;
use crate::endian::u16_to_le;
use crate::endian::u32_from_le;
use crate::endian::u32_to_le;
use crate::endian::u64_from_le;
use crate::endian::u64_to_le;
use crate::error::Error;
use crate::layout::append_bytes;
use crate::text::hex_digits;
use crate::text::push_hex;
use crate::utils::hash_of;
use std::collections::HashMap;
use vstd::prelude::*;
use vstd::slice::slice_subrange;
use vstd::utf8::decode_utf8;
use vstd::utf8::encode_utf8;
use vstd::utf8::valid_utf8;

verus! {

/// A structured data value.
///
/// Floating-point numbers are carried as the bits of their IEEE 754
/// encoding, which is how they stand in the binary form.
#[derive(Debug)]
pub enum Value {
    Null,
    Bool(bool),
    Uint8(u8),
    Uint16(u16),
    Uint32(u32),
    Uint64(u64),
    Int8(i8),
    Int16(i16),
    Int32(i32),
    Int64(i64),
    /// The bits of a 32-bit float.
    Float(u32),
    /// The bits of a 64-bit float.
    Double(u64),
    String(String),
    Array(Array),
    Object(Object),
}

/// An ordered row of values.
#[derive(Debug)]
pub struct Array {
    data: Vec<Value>,
}

/// A set of properties: values under the hashes of their names. No hash
/// occurs twice. What an object is does not depend on the order of its
/// properties: `same_props` tells objects apart by what they hold under
/// which hash.
///
/// The values are kept in a hash map and found there by their hash. The
/// hashes are kept beside it in the order in which they were first set,
/// and the properties are written out in that order, so that the binary
/// form of an object is decided by the object alone and not by the order
/// in which a hash map happens to be walked.
#[derive(Debug)]
pub struct Object {
    props: HashMap<u64, Value>,
    keys: Vec<u64>,
    prop_names: Array,
}

/// What a structured data value is, apart from how it is held in memory.
pub enum SdValue {
    Null,
    Bool(bool),
    Uint8(u8),
    Uint16(u16),
    Uint32(u32),
    Uint64(u64),
    Int8(i8),
    Int16(i16),
    Int32(i32),
    Int64(i64),
    Float(u32),
    Double(u64),
    String(Seq<char>),
    Array(Seq<SdValue>),
    /// The properties in the order in which they are written out.
    Object(Seq<(u64, SdValue)>),
}

impl View for Value {
    type V = SdValue;

    open spec fn view(&self) -> SdValue
        decreases self,
    {
        match self {
            Value::Null => SdValue::Null,
            Value::Bool(b) => SdValue::Bool(*b),
            Value::Uint8(v) => SdValue::Uint8(*v),
            Value::Uint16(v) => SdValue::Uint16(*v),
            Value::Uint32(v) => SdValue::Uint32(*v),
            Value::Uint64(v) => SdValue::Uint64(*v),
            Value::Int8(v) => SdValue::Int8(*v),
            Value::Int16(v) => SdValue::Int16(*v),
            Value::Int32(v) => SdValue::Int32(*v),
            Value::Int64(v) => SdValue::Int64(*v),
            Value::Float(v) => SdValue::Float(*v),
            Value::Double(v) => SdValue::Double(*v),
            Value::String(s) => SdValue::String(s@),
            Value::Array(a) => SdValue::Array(a.view()),
            Value::Object(o) => SdValue::Object(o.view()),
        }
    }
}

impl View for Array {
    type V = Seq<SdValue>;

    closed spec fn view(&self) -> Seq<SdValue>
        decreases self,
    {
        Seq::new(
            self.data@.len(),
            |i: int|
                if 0 <= i < self.data@.len() {
                    self.data@[i].view()
                } else {
                    SdValue::Null
                },
        )
    }
}

impl View for Object {
    type V = Seq<(u64, SdValue)>;

    closed spec fn view(&self) -> Seq<(u64, SdValue)>
        decreases self,
    {
        Seq::new(
            self.keys@.len(),
            |i: int|
                if 0 <= i < self.keys@.len() && self.props@.contains_key(self.keys@[i]) {
                    (self.keys@[i], self.props@[self.keys@[i]].view())
                } else {
                    (0u64, SdValue::Null)
                },
        )
    }
}

/// The place of the property with the given hash, if there is one.
pub open spec fn prop_index(props: Seq<(u64, SdValue)>, hash: u64) -> Option<int>
    decreases props.len(),
{
    if props.len() == 0 {
        None
    } else {
        match prop_index(props.drop_last(), hash) {
            Some(i) => Some(i),
            None => if props.last().0 == hash {
                Some(props.len() - 1)
            } else {
                None
            },
        }
    }
}

/// The value of the property with the given hash, if there is one.
pub open spec fn get_prop(props: Seq<(u64, SdValue)>, hash: u64) -> Option<SdValue> {
    match prop_index(props, hash) {
        Some(i) => Some(props[i].1),
        None => None,
    }
}

/// The properties after the one with the given hash was set: its value is
/// replaced where it stands, and a new property goes to the end.
pub open spec fn set_prop(props: Seq<(u64, SdValue)>, hash: u64, value: SdValue) -> Seq<
    (u64, SdValue),
> {
    match prop_index(props, hash) {
        Some(i) => props.update(i, (hash, value)),
        None => props.push((hash, value)),
    }
}

/// Whether no hash occurs twice among the properties.
pub open spec fn distinct_keys(props: Seq<(u64, SdValue)>) -> bool {
    forall|i: int, j: int|
        0 <= i < props.len() && 0 <= j < props.len() && i != j ==> (#[trigger] props[i]).0 != (
        #[trigger] props[j]).0
}

/// What `prop_index` finds is the first property with the hash, and it finds
/// nothing only where there is none.
pub proof fn lemma_prop_index(props: Seq<(u64, SdValue)>, hash: u64)
    ensures
        match prop_index(props, hash) {
            Some(i) => {
                &&& 0 <= i < props.len()
                &&& props[i].0 == hash
                &&& forall|j: int| 0 <= j < i ==> (#[trigger] props[j]).0 != hash
            },
            None => forall|j: int| 0 <= j < props.len() ==> (#[trigger] props[j]).0 != hash,
        },
    decreases props.len(),
{
    if props.len() > 0 {
        let front = props.drop_last();
        lemma_prop_index(front, hash);
        match prop_index(front, hash) {
            Some(i) => {
                assert(front[i] == props[i]);
                assert forall|j: int| 0 <= j < i implies (#[trigger] props[j]).0 != hash by {
                    assert(front[j] == props[j]);
                }
            },
            None => {
                assert forall|j: int| 0 <= j < front.len() implies (#[trigger] props[j]).0
                    != hash by {
                    assert(front[j] == props[j]);
                }
            },
        }
    }
}

/// The index of a property is the one place where its hash stands, if the
/// hashes before that place differ from it.
pub proof fn lemma_prop_index_at(props: Seq<(u64, SdValue)>, hash: u64, i: int)
    requires
        0 <= i < props.len(),
        props[i].0 == hash,
        forall|j: int| 0 <= j < i ==> (#[trigger] props[j]).0 != hash,
    ensures
        prop_index(props, hash) == Some(i),
{
    lemma_prop_index(props, hash);
}

/// A property that was set is found again, with the value it was set to.
pub proof fn lemma_get_after_set(props: Seq<(u64, SdValue)>, hash: u64, value: SdValue)
    ensures
        get_prop(set_prop(props, hash, value), hash) == Some(value),
{
    lemma_prop_index(props, hash);
    let after = set_prop(props, hash, value);
    match prop_index(props, hash) {
        Some(i) => {
            assert forall|j: int| 0 <= j < i implies (#[trigger] after[j]).0 != hash by {
                assert(after[j] == props[j]);
            }
            lemma_prop_index_at(after, hash, i);
        },
        None => {
            assert forall|j: int| 0 <= j < props.len() implies (#[trigger] after[j]).0 != hash by {
                assert(after[j] == props[j]);
            }
            lemma_prop_index_at(after, hash, props.len() as int);
        },
    }
}

/// Setting a property leaves every other property as it was.
pub proof fn lemma_get_other_after_set(
    props: Seq<(u64, SdValue)>,
    hash: u64,
    value: SdValue,
    other: u64,
)
    requires
        other != hash,
    ensures
        get_prop(set_prop(props, hash, value), other) == get_prop(props, other),
{
    lemma_prop_index(props, hash);
    lemma_prop_index(props, other);
    let after = set_prop(props, hash, value);
    match prop_index(props, other) {
        Some(i) => {
            assert forall|j: int| 0 <= j < i implies (#[trigger] after[j]).0 != other by {
                if j < props.len() && prop_index(props, hash) != Some(j) {
                    assert(after[j] == props[j]);
                }
            }
            lemma_prop_index_at(after, other, i);
        },
        None => {
            lemma_prop_index(after, other);
            if let Some(k) = prop_index(after, other) {
                if k < props.len() && prop_index(props, hash) != Some(k) {
                    assert(after[k] == props[k]);
                }
            }
        },
    }
}

impl Array {
    /// An empty array.
    pub fn new() -> (a: Array)
        ensures
            a@ == Seq::<SdValue>::empty(),
    {
        let a = Array { data: Vec::new() };
        assert(a@ =~= Seq::<SdValue>::empty());
        a
    }

    /// Appends a value.
    pub fn add(&mut self, v: Value)
        ensures
            final(self)@ == old(self)@.push(v@),
    {
        self.data.push(v);
        assert(self@ =~= old(self)@.push(v@));
    }

    /// Takes out the value at the given position.
    pub fn remove_at(&mut self, pos: usize)
        requires
            pos < old(self)@.len(),
        ensures
            final(self)@ == old(self)@.remove(pos as int),
    {
        self.data.remove(pos);
        assert(self@ =~= old(self)@.remove(pos as int));
    }

    /// Takes out every value that is the same as the given one, as `same_sd`
    /// says what the same is.
    pub fn remove(&mut self, item: Value)
        ensures
            final(self)@ == old(self)@.filter(|v: SdValue| !same_sd(v, item@)),
    {
        let mut kept: Vec<Value> = Vec::new();
        let mut data: Vec<Value> = Vec::new();
        std::mem::swap(&mut self.data, &mut data);
        let ghost all = old(self)@;
        let ghost wanted = |v: SdValue| !same_sd(v, item@);
        let ghost mut kept_view = Seq::<SdValue>::empty();
        proof {
            assert(all.take(0) =~= Seq::<SdValue>::empty());
            reveal(Seq::filter);
        }
        let mut i: usize = 0;
        while i < data.len()
            invariant
                i <= data@.len(),
                data@.len() == all.len(),
                wanted == (|v: SdValue| !same_sd(v, item@)),
                forall|k: int| i <= k < data@.len() ==> (#[trigger] data@[k])@ == all[k],
                kept_view == all.take(i as int).filter(wanted),
                kept_view.len() == kept@.len(),
                forall|k: int| 0 <= k < kept@.len() ==> (#[trigger] kept@[k])@ == kept_view[k],
            decreases data@.len() - i,
        {
            let mut v = Value::Null;
            std::mem::swap(&mut data[i], &mut v);
            proof {
                let next = all.take(i + 1);
                assert(next.drop_last() =~= all.take(i as int));
                assert(next.last() == v@);
                reveal(Seq::filter);
            }
            if !same_value(&v, &item) {
                proof {
                    kept_view = kept_view.push(v@);
                }
                kept.push(v);
            }
            i += 1;
        }
        self.data = kept;
        proof {
            assert(all.take(all.len() as int) =~= all);
            assert(self@ =~= kept_view);
        }
    }

    /// The value at the given position, if the array is that long.
    pub fn get(&self, pos: usize) -> (r: Option<&Value>)
        ensures
            match r {
                Some(v) => pos < self@.len() && v@ == self@[pos as int],
                None => pos >= self@.len(),
            },
    {
        if pos < self.data.len() {
            Some(&self.data[pos])
        } else {
            None
        }
    }

    /// The number of values.
    pub fn len(&self) -> (n: usize)
        ensures
            n == self@.len(),
    {
        self.data.len()
    }
}

impl Object {
    #[verifier::type_invariant]
    spec fn distinct(&self) -> bool {
        &&& forall|i: int, j: int|
            0 <= i < self.keys@.len() && 0 <= j < self.keys@.len() && i != j ==> self.keys@[i]
                != self.keys@[j]
        &&& forall|i: int|
            0 <= i < self.keys@.len() ==> self.props@.contains_key(#[trigger] self.keys@[i])
        &&& forall|k: u64| #[trigger] self.props@.contains_key(k) ==> self.keys@.contains(k)
    }

    /// The names under which properties were set since the object was made
    /// or its debug information was added, as string values.
    pub closed spec fn names(&self) -> Seq<SdValue> {
        self.prop_names@
    }

    /// An object without properties.
    pub fn new() -> (o: Object)
        ensures
            o@ == Seq::<(u64, SdValue)>::empty(),
            o.names() == Seq::<SdValue>::empty(),
    {
        let o = Object { props: HashMap::new(), keys: Vec::new(), prop_names: Array::new() };
        assert(o@ =~= Seq::<(u64, SdValue)>::empty());
        o
    }

    /// No hash occurs twice among the properties.
    proof fn lemma_distinct(&self)
        requires
            self.distinct(),
        ensures
            distinct_keys(self@),
            self@.len() == self.keys@.len(),
            forall|i: int|
                0 <= i < self.keys@.len() ==> (#[trigger] self@[i]).0 == self.keys@[i]
                    && self.props@.contains_key(self.keys@[i]) && self@[i].1
                    == self.props@[self.keys@[i]]@,
    {
    }

    /// The number of properties.
    fn count(&self) -> (n: usize)
        ensures
            n == self@.len(),
    {
        self.keys.len()
    }

    /// The hash of the property at a place.
    fn key_at(&self, i: usize) -> (k: u64)
        requires
            i < self@.len(),
        ensures
            k == self@[i as int].0,
    {
        proof {
            use_type_invariant(self);
            self.lemma_distinct();
        }
        self.keys[i]
    }

    /// The value of the property at a place.
    fn value_at(&self, i: usize) -> (v: &Value)
        requires
            i < self@.len(),
        ensures
            v@ == self@[i as int].1,
            decreases_to!(self => v),
    {
        proof {
            use_type_invariant(self);
            self.lemma_distinct();
        }
        let k = self.keys[i];
        self.props.get(&k).unwrap()
    }

    /// Sets the property with the given hash.
    pub fn raw_set(&mut self, hash: u64, value: Value)
        ensures
            final(self)@ == set_prop(old(self)@, hash, value@),
            final(self).names() == old(self).names(),
    {
        let ghost v = value@;
        let mut taken = Object::new();
        std::mem::swap(self, &mut taken);
        proof {
            use_type_invariant(&taken);
            taken.lemma_distinct();
            lemma_prop_index(taken@, hash);
        }
        let ghost before = taken@;
        let Object { props, keys, prop_names } = taken;
        let mut props = props;
        let mut keys = keys;
        let ghost old_props = props@;
        let ghost old_keys = keys@;
        let had = props.contains_key(&hash);
        props.insert(hash, value);
        if !had {
            keys.push(hash);
        }
        proof {
            assert forall|k: u64| #[trigger] props@.contains_key(k) implies keys@.contains(k) by {
                if k == hash {
                    if had {
                        assert(old_keys.contains(hash));
                        let i = choose|i: int| 0 <= i < old_keys.len() && old_keys[i] == hash;
                        assert(keys@[i] == k);
                    } else {
                        assert(keys@[keys@.len() - 1] == k);
                    }
                } else {
                    assert(old_props.contains_key(k));
                    assert(old_keys.contains(k));
                    let i = choose|i: int| 0 <= i < old_keys.len() && old_keys[i] == k;
                    assert(keys@[i] == k);
                }
            }
        }
        proof {
            assert(props@ == old_props.insert(hash, value));
            assert(keys@ == if had {
                old_keys
            } else {
                old_keys.push(hash)
            });
            assert forall|i: int| 0 <= i < keys@.len() implies props@.contains_key(
                #[trigger] keys@[i],
            ) by {
                if i < old_keys.len() {
                    assert(old_props.contains_key(old_keys[i]));
                }
            }
            assert forall|i: int, j: int|
                0 <= i < keys@.len() && 0 <= j < keys@.len() && i != j implies keys@[i]
                != keys@[j] by {
                if i < old_keys.len() {
                    assert(old_props.contains_key(old_keys[i]));
                }
                if j < old_keys.len() {
                    assert(old_props.contains_key(old_keys[j]));
                }
            }
        }
        *self = Object { props, keys, prop_names };
        proof {
            use_type_invariant(&*self);
            self.lemma_distinct();
            let after = self@;
            match prop_index(before, hash) {
                Some(i) => {
                    assert(old_keys[i] == hash);
                    assert(had);
                    assert forall|j: int| 0 <= j < after.len() implies after[j] == before.update(
                        i,
                        (hash, v),
                    )[j] by {
                        if j != i {
                            assert(before[j].0 == old_keys[j]);
                            assert(old_keys[j] != hash);
                        }
                    }
                    assert(after =~= before.update(i, (hash, v)));
                },
                None => {
                    assert(!had) by {
                        if had {
                            assert(old_keys.contains(hash));
                            let i = choose|i: int| 0 <= i < old_keys.len() && old_keys[i] == hash;
                            assert(before[i].0 == hash);
                        }
                    }
                    assert forall|j: int| 0 <= j < after.len() implies after[j] == before.push(
                        (hash, v),
                    )[j] by {
                        if j < before.len() {
                            assert(before[j].0 == old_keys[j]);
                            assert(old_keys[j] != hash);
                        }
                    }
                    assert(after =~= before.push((hash, v)));
                },
            }
        }
    }

    /// Sets the property with the given name: the value goes under the hash
    /// of the name, and the name is kept for the debug information.
    pub fn set(&mut self, name: &str, value: Value)
        ensures
            final(self)@ == set_prop(old(self)@, crate::utils::hash_of(name@), value@),
            final(self).names() == old(self).names().push(SdValue::String(name@)),
    {
        self.raw_set(crate::utils::hash(name), value);
        proof {
            use_type_invariant(&*self);
        }
        let mut prop_names = Array::new();
        std::mem::swap(&mut self.prop_names, &mut prop_names);
        prop_names.add(Value::String(name.to_owned()));
        self.prop_names = prop_names;
    }

    /// The value of the property with the given hash.
    pub fn raw_get(&self, hash: u64) -> (r: Option<&Value>)
        ensures
            match r {
                Some(v) => get_prop(self@, hash) == Some(v@),
                None => get_prop(self@, hash) is None,
            },
    {
        proof {
            use_type_invariant(self);
            self.lemma_distinct();
            lemma_prop_index(self@, hash);
        }
        let found = self.props.get(&hash);
        proof {
            if self.props@.contains_key(hash) {
                assert(self.keys@.contains(hash));
                let i = choose|i: int| 0 <= i < self.keys@.len() && self.keys@[i] == hash;
                assert(self@[i].0 == hash);
                assert forall|j: int| 0 <= j < i implies (#[trigger] self@[j]).0 != hash by {
                    assert(self.keys@[j] != self.keys@[i]);
                }
                lemma_prop_index_at(self@, hash, i);
            } else {
                assert(prop_index(self@, hash) is None) by {
                    if prop_index(self@, hash) is Some {
                        let i = prop_index(self@, hash)->Some_0;
                        assert(self.props@.contains_key(self.keys@[i]));
                    }
                }
            }
        }
        found
    }

    /// The value of the property with the given name.
    pub fn get(&self, name: &str) -> (r: Option<&Value>)
        ensures
            match r {
                Some(v) => get_prop(self@, crate::utils::hash_of(name@)) == Some(v@),
                None => get_prop(self@, crate::utils::hash_of(name@)) is None,
            },
    {
        self.raw_get(crate::utils::hash(name))
    }

    /// The number of properties.
    pub fn prop_count(&self) -> (n: usize)
        ensures
            n == self@.len(),
    {
        self.keys.len()
    }

    /// The hashes of the properties, in the order of the properties.
    pub fn get_keys(&self) -> (keys: Vec<u64>)
        ensures
            keys@ == self@.map_values(|p: (u64, SdValue)| p.0),
    {
        let mut keys: Vec<u64> = Vec::new();
        let mut i: usize = 0;
        proof {
            use_type_invariant(self);
            self.lemma_distinct();
        }
        while i < self.keys.len()
            invariant
                i <= self.keys@.len(),
                self@.len() == self.keys@.len(),
                forall|j: int| 0 <= j < self.keys@.len() ==> (#[trigger] self@[j]).0 == self.keys@[j],
                keys@ == self@.subrange(0, i as int).map_values(|p: (u64, SdValue)| p.0),
            decreases self.keys@.len() - i,
        {
            keys.push(self.keys[i]);
            i += 1;
            assert(keys@ =~= self@.subrange(0, i as int).map_values(|p: (u64, SdValue)| p.0));
        }
        assert(self@.subrange(0, i as int) =~= self@);
        keys
    }

    /// Stores the names of the properties set so far as an array of strings
    /// under the name `__debug__`, from which `DebugSymbols` reads them back.
    /// The record of names starts afresh, with `__debug__` itself.
    pub fn add_debug_info(&mut self)
        ensures
            final(self)@ == set_prop(
                old(self)@,
                crate::utils::hash_of("__debug__"@),
                SdValue::Array(old(self).names()),
            ),
            final(self).names() == seq![SdValue::String("__debug__"@)],
    {
        proof {
            use_type_invariant(&*self);
        }
        let mut prop_names = Array::new();
        std::mem::swap(&mut self.prop_names, &mut prop_names);
        self.set("__debug__", Value::Array(prop_names));
        assert(self.names() =~= seq![SdValue::String("__debug__"@)]);
    }
}

/// Whether two values are the same. Numbers, booleans and strings are the
/// same where they are of one type and equal, arrays where their members
/// are the same one by one, in order, and objects where they hold the same
/// hashes with the same values, in whatever order.
pub open spec fn same_sd(a: SdValue, b: SdValue) -> bool
    decreases a, 0int,
{
    match a {
        SdValue::Array(x) => b is Array && same_items(x, b->Array_0),
        SdValue::Object(x) => b is Object && same_props(x, b->Object_0),
        _ => a == b,
    }
}

/// Whether two arrays hold the same values in the same order.
pub open spec fn same_items(x: Seq<SdValue>, y: Seq<SdValue>) -> bool
    decreases x, 0int,
{
    &&& x.len() == y.len()
    &&& forall|i: int| #![trigger x[i]] 0 <= i < x.len() ==> same_sd(x[i], y[i])
}

/// Whether two properties have the same hash and the same value.
pub open spec fn same_prop(p: (u64, SdValue), q: (u64, SdValue)) -> bool
    decreases p, 1int,
{
    p.0 == q.0 && same_sd(p.1, q.1)
}

/// Whether an object holds a property that is the same as the given one.
pub open spec fn found_in(p: (u64, SdValue), y: Seq<(u64, SdValue)>) -> bool
    decreases p, 2int,
{
    exists|j: int| 0 <= j < y.len() && same_prop(p, #[trigger] y[j])
}

/// Whether the given property is the same as one that an object holds.
pub open spec fn finds(x: Seq<(u64, SdValue)>, q: (u64, SdValue)) -> bool
    decreases x, 2int,
{
    exists|i: int| 0 <= i < x.len() && same_prop(#[trigger] x[i], q)
}

/// Whether the first `n` properties of an object are found in another.
pub open spec fn found_upto(x: Seq<(u64, SdValue)>, y: Seq<(u64, SdValue)>, n: int) -> bool
    decreases x, 3int,
{
    forall|i: int| 0 <= i < n && i < x.len() ==> found_in(#[trigger] x[i], y)
}

/// Whether an object finds the first `n` properties of another.
pub open spec fn finds_upto(x: Seq<(u64, SdValue)>, y: Seq<(u64, SdValue)>, n: int) -> bool
    decreases x, 3int,
{
    forall|j: int| 0 <= j < n && j < y.len() ==> finds(x, #[trigger] y[j])
}

/// Whether two objects are the same mapping: every property of the one has
/// its hash in the other, with the same value, and the other way round.
pub open spec fn same_props(x: Seq<(u64, SdValue)>, y: Seq<(u64, SdValue)>) -> bool
    decreases x, 4int,
{
    found_upto(x, y, x.len() as int) && finds_upto(x, y, y.len() as int)
}

/// Objects that are the same hold the same mapping: under every hash both
/// hold nothing, or both hold values that are the same.
pub proof fn lemma_same_props_same_mapping(
    x: Seq<(u64, SdValue)>,
    y: Seq<(u64, SdValue)>,
    hash: u64,
)
    requires
        same_props(x, y),
        distinct_keys(x),
        distinct_keys(y),
    ensures
        get_prop(x, hash) is Some <==> get_prop(y, hash) is Some,
        get_prop(x, hash) is Some ==> same_sd(get_prop(x, hash)->0, get_prop(y, hash)->0),
{
    lemma_prop_index(x, hash);
    lemma_prop_index(y, hash);
    if let Some(i) = prop_index(x, hash) {
        assert(found_in(x[i], y));
        let j = choose|j: int| 0 <= j < y.len() && same_prop(x[i], #[trigger] y[j]);
        if let Some(k) = prop_index(y, hash) {
            assert(y[k].0 == y[j].0);
        }
    }
    if let Some(k) = prop_index(y, hash) {
        assert(finds(x, y[k]));
        let i = choose|i: int| 0 <= i < x.len() && same_prop(#[trigger] x[i], y[k]);
        assert(x[i].0 == hash);
    }
}

/// Every value is the same as itself.
pub proof fn lemma_same_sd_reflexive(v: SdValue)
    ensures
        same_sd(v, v),
    decreases v,
{
    match v {
        SdValue::Array(x) => {
            assert forall|i: int| #![trigger x[i]] 0 <= i < x.len() implies same_sd(x[i], x[i]) by {
                lemma_same_sd_reflexive(x[i]);
            }
            assert(same_items(x, x));
        },
        SdValue::Object(x) => {
            assert forall|i: int| 0 <= i < x.len() implies same_prop(#[trigger] x[i], x[i]) by {
                lemma_same_sd_reflexive(x[i].1);
            }
            assert forall|i: int| 0 <= i < x.len() implies found_in(#[trigger] x[i], x) by {
                assert(same_prop(x[i], x[i]));
            }
            assert forall|j: int| 0 <= j < x.len() implies finds(x, #[trigger] x[j]) by {
                assert(same_prop(x[j], x[j]));
            }
            assert(found_upto(x, x, x.len() as int));
            assert(finds_upto(x, x, x.len() as int));
            assert(same_props(x, x));
        },
        _ => {},
    }
}

/// Whether two values are the same: see `same_sd`.
pub fn same_value(a: &Value, b: &Value) -> (same: bool)
    ensures
        same == same_sd(a@, b@),
    decreases a, 1int,
{
    match (a, b) {
        (Value::Null, Value::Null) => true,
        (Value::Bool(x), Value::Bool(y)) => *x == *y,
        (Value::Uint8(x), Value::Uint8(y)) => *x == *y,
        (Value::Uint16(x), Value::Uint16(y)) => *x == *y,
        (Value::Uint32(x), Value::Uint32(y)) => *x == *y,
        (Value::Uint64(x), Value::Uint64(y)) => *x == *y,
        (Value::Int8(x), Value::Int8(y)) => *x == *y,
        (Value::Int16(x), Value::Int16(y)) => *x == *y,
        (Value::Int32(x), Value::Int32(y)) => *x == *y,
        (Value::Int64(x), Value::Int64(y)) => *x == *y,
        (Value::Float(x), Value::Float(y)) => *x == *y,
        (Value::Double(x), Value::Double(y)) => *x == *y,
        (Value::String(x), Value::String(y)) => *x == *y,
        (Value::Array(x), Value::Array(y)) => same_array(x, y),
        (Value::Object(x), Value::Object(y)) => same_object(x, y),
        _ => false,
    }
}

/// Whether two arrays hold the same values in the same order.
pub fn same_array(a: &Array, b: &Array) -> (same: bool)
    ensures
        same == same_items(a@, b@),
    decreases a, 0int,
{
    if a.data.len() != b.data.len() {
        assert(a@.len() != b@.len());
        return false;
    }
    let mut i: usize = 0;
    while i < a.data.len()
        invariant
            i <= a.data@.len(),
            a.data@.len() == b.data@.len(),
            forall|k: int| #![trigger a@[k]] 0 <= k < i ==> same_sd(a@[k], b@[k]),
        decreases a.data@.len() - i,
    {
        if !same_value(&a.data[i], &b.data[i]) {
            assert(!same_sd(a@[i as int], b@[i as int]));
            return false;
        }
        i += 1;
    }
    assert(a@.len() == b@.len());
    true
}

/// Whether two objects hold the same properties, in whatever order.
pub fn same_object(a: &Object, b: &Object) -> (same: bool)
    ensures
        same == same_props(a@, b@),
    decreases a, 0int,
{
    proof {
        use_type_invariant(b);
        b.lemma_distinct();
    }
    let ghost x = a@;
    let ghost y = b@;
    let mut i: usize = 0;
    while i < a.count()
        invariant
            i <= x.len(),
            x == a@,
            y == b@,
            distinct_keys(y),
            found_upto(x, y, i as int),
        decreases x.len() - i,
    {
        let hash = a.key_at(i);
        proof {
            lemma_prop_index(y, hash);
        }
        match b.raw_get(hash) {
            None => {
                assert(!found_in(x[i as int], y)) by {
                    if found_in(x[i as int], y) {
                        let j = choose|j: int|
                            0 <= j < y.len() && same_prop(x[i as int], #[trigger] y[j]);
                        assert(y[j].0 != hash);
                    }
                }
                return false;
            },
            Some(other_value) => {
                let ghost j = prop_index(y, hash)->Some_0;
                if !same_value(a.value_at(i), other_value) {
                    assert(!found_in(x[i as int], y)) by {
                        if found_in(x[i as int], y) {
                            let other = choose|other: int|
                                0 <= other < y.len() && same_prop(x[i as int], #[trigger] y[other]);
                            assert(y[other].0 == y[j as int].0);
                            assert(other == j);
                        }
                    }
                    return false;
                }
                assert(same_prop(x[i as int], y[j as int]));
            },
        }
        i += 1;
    }
    let mut j: usize = 0;
    while j < b.count()
        invariant
            j <= y.len(),
            x == a@,
            y == b@,
            distinct_keys(y),
            found_upto(x, y, x.len() as int),
            finds_upto(x, y, j as int),
        decreases y.len() - j,
    {
        let hash = b.key_at(j);
        proof {
            lemma_prop_index(x, hash);
        }
        match a.raw_get(hash) {
            None => {
                assert(!finds(x, y[j as int])) by {
                    if finds(x, y[j as int]) {
                        let k = choose|k: int|
                            0 <= k < x.len() && same_prop(#[trigger] x[k], y[j as int]);
                        assert(x[k].0 != hash);
                    }
                }
                return false;
            },
            Some(_) => {
                let ghost k = prop_index(x, hash)->Some_0;
                proof {
                    assert(found_in(x[k as int], y));
                    let m = choose|m: int|
                        0 <= m < y.len() && same_prop(x[k as int], #[trigger] y[m]);
                    assert(y[m].0 == y[j as int].0);
                    assert(m == j);
                    assert(same_prop(x[k as int], y[j as int]));
                }
            },
        }
        j += 1;
    }
    true
}

/// The most values that an array or an object can hold: the count is
/// written as one byte.
pub const MAX_VALUES: usize = 255;

/// The code that stands for the type of a value in the binary form.
pub open spec fn type_code(v: SdValue) -> u8 {
    match v {
        SdValue::Null => 0x0,
        SdValue::Bool(_) => 0x1,
        SdValue::Uint8(_) => 0x2,
        SdValue::Uint16(_) => 0x3,
        SdValue::Uint32(_) => 0x4,
        SdValue::Uint64(_) => 0x5,
        SdValue::Int8(_) => 0x6,
        SdValue::Int16(_) => 0x7,
        SdValue::Int32(_) => 0x8,
        SdValue::Int64(_) => 0x9,
        SdValue::Float(_) => 0xA,
        SdValue::Double(_) => 0xB,
        SdValue::String(_) => 0xC,
        SdValue::Array(_) => 0xD,
        SdValue::Object(_) => 0xE,
    }
}

/// The two's complement bits of a signed byte.
pub open spec fn i8_bits(v: i8) -> u8 {
    if v >= 0 {
        v as u8
    } else {
        (v + 0x100) as u8
    }
}

/// The two's complement bits of a signed 16-bit value.
pub open spec fn i16_bits(v: i16) -> u16 {
    if v >= 0 {
        v as u16
    } else {
        (v + 0x1_0000) as u16
    }
}

/// The two's complement bits of a signed 32-bit value.
pub open spec fn i32_bits(v: i32) -> u32 {
    if v >= 0 {
        v as u32
    } else {
        (v + 0x1_0000_0000) as u32
    }
}

/// The two's complement bits of a signed 64-bit value.
pub open spec fn i64_bits(v: i64) -> u64 {
    if v >= 0 {
        v as u64
    } else {
        (v + 0x1_0000_0000_0000_0000) as u64
    }
}

/// The signed byte with the given two's complement bits.
pub open spec fn i8_of(b: u8) -> i8 {
    if b < 0x80 {
        b as i8
    } else {
        (b - 0x100) as i8
    }
}

/// The signed 16-bit value with the given two's complement bits.
pub open spec fn i16_of(b: u16) -> i16 {
    if b < 0x8000 {
        b as i16
    } else {
        (b - 0x1_0000) as i16
    }
}

/// The signed 32-bit value with the given two's complement bits.
pub open spec fn i32_of(b: u32) -> i32 {
    if b < 0x8000_0000 {
        b as i32
    } else {
        (b - 0x1_0000_0000) as i32
    }
}

/// The signed 64-bit value with the given two's complement bits.
pub open spec fn i64_of(b: u64) -> i64 {
    if b < 0x8000_0000_0000_0000 {
        b as i64
    } else {
        (b - 0x1_0000_0000_0000_0000) as i64
    }
}

/// The binary form of a value, without its type code.
///
/// Numbers are little-endian and of fixed width, a string is its UTF-8
/// bytes and a zero byte, an array and an object are a count byte and their
/// members.
pub open spec fn encode_value(v: SdValue) -> Seq<u8>
    decreases v,
{
    match v {
        SdValue::Null => Seq::empty(),
        SdValue::Bool(b) => seq![if b { 1u8 } else { 0u8 }],
        SdValue::Uint8(x) => seq![x],
        SdValue::Uint16(x) => u16_to_le(x),
        SdValue::Uint32(x) => u32_to_le(x),
        SdValue::Uint64(x) => u64_to_le(x),
        SdValue::Int8(x) => seq![i8_bits(x)],
        SdValue::Int16(x) => u16_to_le(i16_bits(x)),
        SdValue::Int32(x) => u32_to_le(i32_bits(x)),
        SdValue::Int64(x) => u64_to_le(i64_bits(x)),
        SdValue::Float(x) => u32_to_le(x),
        SdValue::Double(x) => u64_to_le(x),
        SdValue::String(s) => encode_utf8(s) + seq![0u8],
        SdValue::Array(a) => seq![count_byte(a.len())] + encode_items(a),
        SdValue::Object(o) => seq![count_byte(o.len())] + encode_props(o),
    }
}

/// The byte that stands for a count of at most 255.
pub open spec fn count_byte(n: nat) -> u8 {
    if n <= MAX_VALUES {
        n as u8
    } else {
        0
    }
}

/// The binary form of the members of an array: for each a type code and the
/// value.
pub open spec fn encode_items(a: Seq<SdValue>) -> Seq<u8>
    decreases a,
{
    if a.len() == 0 {
        Seq::empty()
    } else {
        encode_items(a.drop_last()) + seq![type_code(a.last())] + encode_value(a.last())
    }
}

/// The binary form of an array: the count and the members.
pub open spec fn encode_array(a: Seq<SdValue>) -> Seq<u8> {
    seq![count_byte(a.len())] + encode_items(a)
}

/// The binary form of the properties of an object: for each the hash, a type
/// code and the value.
pub open spec fn encode_props(o: Seq<(u64, SdValue)>) -> Seq<u8>
    decreases o,
{
    if o.len() == 0 {
        Seq::empty()
    } else {
        encode_props(o.drop_last()) + u64_to_le(o.last().0) + seq![type_code(o.last().1)]
            + encode_value(o.last().1)
    }
}

/// The binary form of an object: the count and the properties.
pub open spec fn encode_object(o: Seq<(u64, SdValue)>) -> Seq<u8> {
    seq![count_byte(o.len())] + encode_props(o)
}

/// Whether a value can be written: no array and no object in it holds more
/// than 255 values.
pub open spec fn fits(v: SdValue) -> bool
    decreases v,
{
    match v {
        SdValue::Array(a) => items_fit(a),
        SdValue::Object(o) => props_fit(o),
        _ => true,
    }
}

/// Whether an array can be written.
pub open spec fn items_fit(a: Seq<SdValue>) -> bool
    decreases a,
{
    &&& a.len() <= MAX_VALUES
    &&& forall|i: int| 0 <= i < a.len() ==> fits(#[trigger] a[i])
}

/// Whether an object can be written.
pub open spec fn props_fit(o: Seq<(u64, SdValue)>) -> bool
    decreases o,
{
    &&& o.len() <= MAX_VALUES
    &&& forall|i: int| 0 <= i < o.len() ==> fits((#[trigger] o[i]).1)
}

/// Whether no object in a value holds a hash twice.
pub open spec fn keys_distinct(v: SdValue) -> bool
    decreases v,
{
    match v {
        SdValue::Array(a) => items_keys_distinct(a),
        SdValue::Object(o) => props_keys_distinct(o),
        _ => true,
    }
}

/// Whether no object in the members of an array holds a hash twice.
pub open spec fn items_keys_distinct(a: Seq<SdValue>) -> bool
    decreases a,
{
    forall|i: int| 0 <= i < a.len() ==> keys_distinct(#[trigger] a[i])
}

/// Whether no object in or under the properties holds a hash twice.
pub open spec fn props_keys_distinct(o: Seq<(u64, SdValue)>) -> bool
    decreases o,
{
    &&& distinct_keys(o)
    &&& forall|i: int| 0 <= i < o.len() ==> keys_distinct((#[trigger] o[i]).1)
}

fn i8_to_bits(v: i8) -> (b: u8)
    ensures
        b == i8_bits(v),
{
    if v >= 0 {
        v as u8
    } else {
        (v as i16 + 0x100) as u8
    }
}

fn i16_to_bits(v: i16) -> (b: u16)
    ensures
        b == i16_bits(v),
{
    if v >= 0 {
        v as u16
    } else {
        (v as i32 + 0x1_0000) as u16
    }
}

fn i32_to_bits(v: i32) -> (b: u32)
    ensures
        b == i32_bits(v),
{
    if v >= 0 {
        v as u32
    } else {
        (v as i64 + 0x1_0000_0000) as u32
    }
}

fn i64_to_bits(v: i64) -> (b: u64)
    ensures
        b == i64_bits(v),
{
    if v >= 0 {
        v as u64
    } else {
        (v as i128 + 0x1_0000_0000_0000_0000) as u64
    }
}

fn bits_to_i8(b: u8) -> (v: i8)
    ensures
        v == i8_of(b),
{
    if b < 0x80 {
        b as i8
    } else {
        (b as i16 - 0x100) as i8
    }
}

fn bits_to_i16(b: u16) -> (v: i16)
    ensures
        v == i16_of(b),
{
    if b < 0x8000 {
        b as i16
    } else {
        (b as i32 - 0x1_0000) as i16
    }
}

fn bits_to_i32(b: u32) -> (v: i32)
    ensures
        v == i32_of(b),
{
    if b < 0x8000_0000 {
        b as i32
    } else {
        (b as i64 - 0x1_0000_0000) as i32
    }
}

fn bits_to_i64(b: u64) -> (v: i64)
    ensures
        v == i64_of(b),
{
    if b < 0x8000_0000_0000_0000 {
        b as i64
    } else {
        (b as i128 - 0x1_0000_0000_0000_0000) as i64
    }
}

/// The type code of a value.
pub fn get_value_type_code(val: &Value) -> (code: u8)
    ensures
        code == type_code(val@),
{
    match val {
        Value::Null => 0x0,
        Value::Bool(_) => 0x1,
        Value::Uint8(_) => 0x2,
        Value::Uint16(_) => 0x3,
        Value::Uint32(_) => 0x4,
        Value::Uint64(_) => 0x5,
        Value::Int8(_) => 0x6,
        Value::Int16(_) => 0x7,
        Value::Int32(_) => 0x8,
        Value::Int64(_) => 0x9,
        Value::Float(_) => 0xA,
        Value::Double(_) => 0xB,
        Value::String(_) => 0xC,
        Value::Array(_) => 0xD,
        Value::Object(_) => 0xE,
    }
}

/// Writes a value in its binary form, without its type code. The value is
/// refused where an array or an object in it holds more than 255 values.
pub fn write_value(val: &Value) -> (r: Result<Vec<u8>, Error>)
    ensures
        match r {
            Ok(buf) => fits(val@) && keys_distinct(val@) && buf@ == encode_value(val@),
            Err(e) => e == Error::TooManyValues && !fits(val@),
        },
    decreases val,
{
    let mut buf: Vec<u8> = Vec::new();
    match val {
        Value::Null => {},
        Value::Bool(b) => {
            if *b {
                buf.push(1);
            } else {
                buf.push(0);
            }
        },
        Value::Uint8(v) => buf.push(*v),
        Value::Uint16(v) => {
            let b = crate::endian::write_u16(*v);
            append_bytes(&mut buf, b.as_slice());
        },
        Value::Uint32(v) => {
            let b = crate::endian::write_u32(*v);
            append_bytes(&mut buf, b.as_slice());
        },
        Value::Uint64(v) => {
            let b = crate::endian::write_u64(*v);
            append_bytes(&mut buf, b.as_slice());
        },
        Value::Int8(v) => buf.push(i8_to_bits(*v)),
        Value::Int16(v) => {
            let b = crate::endian::write_u16(i16_to_bits(*v));
            append_bytes(&mut buf, b.as_slice());
        },
        Value::Int32(v) => {
            let b = crate::endian::write_u32(i32_to_bits(*v));
            append_bytes(&mut buf, b.as_slice());
        },
        Value::Int64(v) => {
            let b = crate::endian::write_u64(i64_to_bits(*v));
            append_bytes(&mut buf, b.as_slice());
        },
        Value::Float(v) => {
            let b = crate::endian::write_u32(*v);
            append_bytes(&mut buf, b.as_slice());
        },
        Value::Double(v) => {
            let b = crate::endian::write_u64(*v);
            append_bytes(&mut buf, b.as_slice());
        },
        Value::String(s) => {
            append_bytes(&mut buf, s.as_str().as_bytes());
            buf.push(0x0);
        },
        Value::Array(arr) => {
            return write_array(arr);
        },
        Value::Object(obj) => {
            return write_object(obj);
        },
    }
    assert(buf@ =~= encode_value(val@));
    Ok(buf)
}

/// Writes an object in its binary form.
pub fn write_object(obj: &Object) -> (r: Result<Vec<u8>, Error>)
    ensures
        match r {
            Ok(buf) => props_fit(obj@) && props_keys_distinct(obj@) && buf@ == encode_object(obj@),
            Err(e) => e == Error::TooManyValues && !props_fit(obj@),
        },
    decreases obj,
{
    let mut v: Vec<u8> = Vec::new();
    let count = obj.count();
    if count > MAX_VALUES {
        return Err(Error::TooManyValues);
    }
    proof {
        use_type_invariant(obj);
        obj.lemma_distinct();
        assert(obj@.take(0) =~= Seq::<(u64, SdValue)>::empty());
    }
    v.push(count as u8);
    let mut i: usize = 0;
    while i < count
        invariant
            i <= count,
            count == obj@.len(),
            count <= MAX_VALUES,
            v@ == seq![count as u8] + encode_props(obj@.take(i as int)),
            forall|j: int| 0 <= j < i ==> fits((#[trigger] obj@[j]).1),
            forall|j: int| 0 <= j < i ==> keys_distinct((#[trigger] obj@[j]).1),
        decreases count - i,
    {
        let hash = obj.key_at(i);
        let val = obj.value_at(i);
        let head = crate::endian::write_u64(hash);
        let code = get_value_type_code(val);
        let bytes = match write_value(val) {
            Ok(b) => b,
            Err(e) => {
                assert(!fits(obj@[i as int].1));
                return Err(e);
            },
        };
        append_bytes(&mut v, head.as_slice());
        v.push(code);
        append_bytes(&mut v, bytes.as_slice());
        proof {
            let next = obj@.take(i + 1);
            assert(next.drop_last() =~= obj@.take(i as int));
            assert(next.last() == obj@[i as int]);
            assert(v@ =~= seq![count as u8] + encode_props(next));
        }
        i += 1;
    }
    proof {
        assert(obj@.take(count as int) =~= obj@);
        use_type_invariant(obj);
        obj.lemma_distinct();
    }
    Ok(v)
}

/// Writes an array in its binary form.
pub fn write_array(arr: &Array) -> (r: Result<Vec<u8>, Error>)
    ensures
        match r {
            Ok(buf) => items_fit(arr@) && keys_distinct(SdValue::Array(arr@)) && buf@
                == encode_array(arr@),
            Err(e) => e == Error::TooManyValues && !items_fit(arr@),
        },
    decreases arr,
{
    let mut v: Vec<u8> = Vec::new();
    let count = arr.data.len();
    if count > MAX_VALUES {
        return Err(Error::TooManyValues);
    }
    proof {
        assert(arr@.take(0) =~= Seq::<SdValue>::empty());
    }
    v.push(count as u8);
    let mut i: usize = 0;
    while i < count
        invariant
            i <= count,
            count == arr.data@.len(),
            count <= MAX_VALUES,
            v@ == seq![count as u8] + encode_items(arr@.take(i as int)),
            forall|j: int| 0 <= j < i ==> fits(#[trigger] arr@[j]),
            forall|j: int| 0 <= j < i ==> keys_distinct(#[trigger] arr@[j]),
        decreases count - i,
    {
        let val = &arr.data[i];
        let code = get_value_type_code(val);
        let bytes = match write_value(val) {
            Ok(b) => b,
            Err(e) => {
                assert(!fits(arr@[i as int]));
                return Err(e);
            },
        };
        v.push(code);
        append_bytes(&mut v, bytes.as_slice());
        proof {
            let next = arr@.take(i + 1);
            assert(next.drop_last() =~= arr@.take(i as int));
            assert(next.last() == arr@[i as int]);
            assert(v@ =~= seq![count as u8] + encode_items(next));
        }
        i += 1;
    }
    proof {
        assert(arr@.take(count as int) =~= arr@);
    }
    Ok(v)
}

/// The place of the first zero byte at or behind `pos`.
pub open spec fn first_zero(data: Seq<u8>, pos: int) -> Option<int>
    decreases data.len() - pos,
{
    if pos < 0 || pos >= data.len() {
        None
    } else if data[pos] == 0 {
        Some(pos)
    } else {
        first_zero(data, pos + 1)
    }
}

/// The string that stands at `pos`: the bytes up to the first zero byte,
/// which must be there, read as UTF-8, which they must be. With the string
/// comes the place behind the zero byte.
pub open spec fn parse_string(data: Seq<u8>, pos: int) -> Result<(SdValue, int), Error> {
    match first_zero(data, pos) {
        None => Err(Error::UnexpectedEof),
        Some(end) => if valid_utf8(data.subrange(pos, end)) {
            Ok((SdValue::String(decode_utf8(data.subrange(pos, end))), end + 1))
        } else {
            Err(Error::InvalidUtf8)
        },
    }
}

/// The value of the type with the given code that stands at `pos`, and the
/// place behind it.
///
/// The input is refused where it ends inside the value (`UnexpectedEof`),
/// where a code names no type (`UnknownTypeCode`) and where a string is not
/// UTF-8 (`InvalidUtf8`); the first of these that is met in reading order
/// is the error.
pub open spec fn parse_value(code: u8, data: Seq<u8>, pos: int) -> Result<(SdValue, int), Error>
    decreases data.len() - pos,
{
    if pos < 0 {
        Err(Error::UnexpectedEof)
    } else if code == 0x0 {
        Ok((SdValue::Null, pos))
    } else if code == 0x1 {
        if pos + 1 > data.len() {
            Err(Error::UnexpectedEof)
        } else {
            Ok((SdValue::Bool(data[pos] == 1), pos + 1))
        }
    } else if code == 0x2 {
        if pos + 1 > data.len() {
            Err(Error::UnexpectedEof)
        } else {
            Ok((SdValue::Uint8(data[pos]), pos + 1))
        }
    } else if code == 0x3 {
        if pos + 2 > data.len() {
            Err(Error::UnexpectedEof)
        } else {
            Ok((SdValue::Uint16(u16_from_le(data.subrange(pos, pos + 2))), pos + 2))
        }
    } else if code == 0x4 {
        if pos + 4 > data.len() {
            Err(Error::UnexpectedEof)
        } else {
            Ok((SdValue::Uint32(u32_from_le(data.subrange(pos, pos + 4))), pos + 4))
        }
    } else if code == 0x5 {
        if pos + 8 > data.len() {
            Err(Error::UnexpectedEof)
        } else {
            Ok((SdValue::Uint64(u64_from_le(data.subrange(pos, pos + 8))), pos + 8))
        }
    } else if code == 0x6 {
        if pos + 1 > data.len() {
            Err(Error::UnexpectedEof)
        } else {
            Ok((SdValue::Int8(i8_of(data[pos])), pos + 1))
        }
    } else if code == 0x7 {
        if pos + 2 > data.len() {
            Err(Error::UnexpectedEof)
        } else {
            Ok((SdValue::Int16(i16_of(u16_from_le(data.subrange(pos, pos + 2)))), pos + 2))
        }
    } else if code == 0x8 {
        if pos + 4 > data.len() {
            Err(Error::UnexpectedEof)
        } else {
            Ok((SdValue::Int32(i32_of(u32_from_le(data.subrange(pos, pos + 4)))), pos + 4))
        }
    } else if code == 0x9 {
        if pos + 8 > data.len() {
            Err(Error::UnexpectedEof)
        } else {
            Ok((SdValue::Int64(i64_of(u64_from_le(data.subrange(pos, pos + 8)))), pos + 8))
        }
    } else if code == 0xA {
        if pos + 4 > data.len() {
            Err(Error::UnexpectedEof)
        } else {
            Ok((SdValue::Float(u32_from_le(data.subrange(pos, pos + 4))), pos + 4))
        }
    } else if code == 0xB {
        if pos + 8 > data.len() {
            Err(Error::UnexpectedEof)
        } else {
            Ok((SdValue::Double(u64_from_le(data.subrange(pos, pos + 8))), pos + 8))
        }
    } else if code == 0xC {
        parse_string(data, pos)
    } else if code == 0xD {
        if pos >= data.len() {
            Err(Error::UnexpectedEof)
        } else {
            match parse_items(data[pos] as nat, data, pos + 1, Seq::empty()) {
                Ok((a, end)) => Ok((SdValue::Array(a), end)),
                Err(e) => Err(e),
            }
        }
    } else if code == 0xE {
        if pos >= data.len() {
            Err(Error::UnexpectedEof)
        } else {
            match parse_props(data[pos] as nat, data, pos + 1, Seq::empty()) {
                Ok((o, end)) => Ok((SdValue::Object(o), end)),
                Err(e) => Err(e),
            }
        }
    } else {
        Err(Error::UnknownTypeCode(code))
    }
}

/// The array that `count` more members at `pos` make of the members read so
/// far, and the place behind the last one.
pub open spec fn parse_items(count: nat, data: Seq<u8>, pos: int, acc: Seq<SdValue>) -> Result<
    (Seq<SdValue>, int),
    Error,
>
    decreases data.len() - pos,
{
    if count == 0 {
        Ok((acc, pos))
    } else if pos < 0 || pos >= data.len() {
        Err(Error::UnexpectedEof)
    } else {
        match parse_value(data[pos], data, pos + 1) {
            Err(e) => Err(e),
            Ok((v, end)) => if pos < end <= data.len() {
                parse_items((count - 1) as nat, data, end, acc.push(v))
            } else {
                Err(Error::UnexpectedEof)
            },
        }
    }
}

/// The object that `count` more properties at `pos` make of the properties
/// read so far, and the place behind the last one. A hash that comes again
/// replaces the value that came with it before.
pub open spec fn parse_props(
    count: nat,
    data: Seq<u8>,
    pos: int,
    acc: Seq<(u64, SdValue)>,
) -> Result<(Seq<(u64, SdValue)>, int), Error>
    decreases data.len() - pos,
{
    if count == 0 {
        Ok((acc, pos))
    } else if pos < 0 || pos + 9 > data.len() {
        Err(Error::UnexpectedEof)
    } else {
        match parse_value(data[pos + 8], data, pos + 9) {
            Err(e) => Err(e),
            Ok((v, end)) => if pos < end <= data.len() {
                parse_props(
                    (count - 1) as nat,
                    data,
                    end,
                    set_prop(acc, u64_from_le(data.subrange(pos, pos + 8)), v),
                )
            } else {
                Err(Error::UnexpectedEof)
            },
        }
    }
}

/// The object that a byte string starts with.
pub open spec fn parse_object(data: Seq<u8>) -> Result<Seq<(u64, SdValue)>, Error> {
    match parse_value(0xE, data, 0) {
        Ok((v, _)) => Ok(v->Object_0),
        Err(e) => Err(e),
    }
}

/// `String::from_utf8`: the string that the bytes encode, if they are valid
/// UTF-8, and nothing otherwise.
#[verifier::external_body]
pub(crate) fn string_from_utf8(bytes: Vec<u8>) -> (r: Option<String>)
    ensures
        r is Some <==> valid_utf8(bytes@),
        r matches Some(s) ==> s@ == decode_utf8(bytes@),
{
    String::from_utf8(bytes).ok()
}

/// The `n` bytes at `pos`, if the data holds as many.
fn take_bytes(data: &[u8], pos: usize, n: usize) -> (r: Option<&[u8]>)
    requires
        pos <= data@.len(),
    ensures
        match r {
            Some(b) => pos + n <= data@.len() && b@ == data@.subrange(pos as int, pos + n),
            None => pos + n > data@.len(),
        },
        data@.len() <= usize::MAX,
{
    if data.len() - pos >= n {
        Some(slice_subrange(data, pos, pos + n))
    } else {
        None
    }
}

fn read_string(data: &[u8], pos: usize) -> (r: Result<(Value, usize), Error>)
    requires
        pos <= data@.len(),
    ensures
        match r {
            Ok((v, end)) => parse_string(data@, pos as int) == Ok::<(SdValue, int), Error>(
                (v@, end as int),
            ) && pos < end <= data@.len(),
            Err(e) => parse_string(data@, pos as int) == Err::<(SdValue, int), Error>(e),
        },
{
    let mut i: usize = pos;
    while i < data.len() && data[i] != 0
        invariant
            pos <= i <= data@.len(),
            first_zero(data@, pos as int) == first_zero(data@, i as int),
        decreases data@.len() - i,
    {
        i += 1;
    }
    if i >= data.len() {
        return Err(Error::UnexpectedEof);
    }
    let bytes = vstd::slice::slice_to_vec(slice_subrange(data, pos, i));
    match string_from_utf8(bytes) {
        Some(s) => Ok((Value::String(s), i + 1)),
        None => Err(Error::InvalidUtf8),
    }
}

/// Reads the value of the type with the given code at `pos`.
fn parse_value_at(code: u8, data: &[u8], pos: usize) -> (r: Result<(Value, usize), Error>)
    requires
        pos <= data@.len(),
    ensures
        match r {
            Ok((v, end)) => parse_value(code, data@, pos as int) == Ok::<(SdValue, int), Error>(
                (v@, end as int),
            ) && pos <= end <= data@.len(),
            Err(e) => parse_value(code, data@, pos as int) == Err::<(SdValue, int), Error>(e),
        },
    decreases data@.len() - pos, 1int,
{
    match code {
        0x0 => Ok((Value::Null, pos)),
        0x1 => match take_bytes(data, pos, 1) {
            Some(b) => Ok((Value::Bool(b[0] == 1), pos + 1)),
            None => Err(Error::UnexpectedEof),
        },
        0x2 => match take_bytes(data, pos, 1) {
            Some(b) => Ok((Value::Uint8(b[0]), pos + 1)),
            None => Err(Error::UnexpectedEof),
        },
        0x3 => match take_bytes(data, pos, 2) {
            Some(b) => {
                assert(b@.subrange(0, 2) =~= b@);
                Ok((Value::Uint16(crate::endian::read_u16(b)), pos + 2))
            },
            None => Err(Error::UnexpectedEof),
        },
        0x4 => match take_bytes(data, pos, 4) {
            Some(b) => {
                assert(b@.subrange(0, 4) =~= b@);
                Ok((Value::Uint32(crate::endian::read_u32(b)), pos + 4))
            },
            None => Err(Error::UnexpectedEof),
        },
        0x5 => match take_bytes(data, pos, 8) {
            Some(b) => {
                assert(b@.subrange(0, 8) =~= b@);
                Ok((Value::Uint64(crate::endian::read_u64(b)), pos + 8))
            },
            None => Err(Error::UnexpectedEof),
        },
        0x6 => match take_bytes(data, pos, 1) {
            Some(b) => Ok((Value::Int8(bits_to_i8(b[0])), pos + 1)),
            None => Err(Error::UnexpectedEof),
        },
        0x7 => match take_bytes(data, pos, 2) {
            Some(b) => {
                assert(b@.subrange(0, 2) =~= b@);
                Ok((Value::Int16(bits_to_i16(crate::endian::read_u16(b))), pos + 2))
            },
            None => Err(Error::UnexpectedEof),
        },
        0x8 => match take_bytes(data, pos, 4) {
            Some(b) => {
                assert(b@.subrange(0, 4) =~= b@);
                Ok((Value::Int32(bits_to_i32(crate::endian::read_u32(b))), pos + 4))
            },
            None => Err(Error::UnexpectedEof),
        },
        0x9 => match take_bytes(data, pos, 8) {
            Some(b) => {
                assert(b@.subrange(0, 8) =~= b@);
                Ok((Value::Int64(bits_to_i64(crate::endian::read_u64(b))), pos + 8))
            },
            None => Err(Error::UnexpectedEof),
        },
        0xA => match take_bytes(data, pos, 4) {
            Some(b) => {
                assert(b@.subrange(0, 4) =~= b@);
                Ok((Value::Float(crate::endian::read_u32(b)), pos + 4))
            },
            None => Err(Error::UnexpectedEof),
        },
        0xB => match take_bytes(data, pos, 8) {
            Some(b) => {
                assert(b@.subrange(0, 8) =~= b@);
                Ok((Value::Double(crate::endian::read_u64(b)), pos + 8))
            },
            None => Err(Error::UnexpectedEof),
        },
        0xC => read_string(data, pos),
        0xD => match parse_array(data, pos) {
            Ok((arr, end)) => Ok((Value::Array(arr), end)),
            Err(e) => Err(e),
        },
        0xE => match parse_object_at(data, pos) {
            Ok((obj, end)) => Ok((Value::Object(obj), end)),
            Err(e) => Err(e),
        },
        _ => Err(Error::UnknownTypeCode(code)),
    }
}

/// Reads the object at `pos`: a count byte and as many properties.
fn parse_object_at(data: &[u8], pos: usize) -> (r: Result<(Object, usize), Error>)
    requires
        pos <= data@.len(),
    ensures
        match r {
            Ok((obj, end)) => parse_value(0xE, data@, pos as int) == Ok::<(SdValue, int), Error>(
                (SdValue::Object(obj@), end as int),
            ) && pos < end <= data@.len() && obj.names() == Seq::<SdValue>::empty(),
            Err(e) => parse_value(0xE, data@, pos as int) == Err::<(SdValue, int), Error>(e),
        },
    decreases data@.len() - pos, 0int,
{
    if pos >= data.len() {
        return Err(Error::UnexpectedEof);
    }
    let mut obj = Object::new();
    let mut count: u8 = data[pos];
    let mut at: usize = pos + 1;
    let ghost whole = parse_props(data@[pos as int] as nat, data@, pos + 1, Seq::empty());
    while count > 0
        invariant
            pos < at <= data@.len(),
            whole == parse_props(data@[pos as int] as nat, data@, pos + 1, Seq::empty()),
            whole == parse_props(count as nat, data@, at as int, obj@),
            obj.names() == Seq::<SdValue>::empty(),
        decreases count,
    {
        let head = match take_bytes(data, at, 9) {
            Some(b) => b,
            None => {
                return Err(Error::UnexpectedEof);
            },
        };
        let hash = crate::endian::read_u64(head);
        let type_code = head[8];
        proof {
            assert(head@.subrange(0, 8) =~= data@.subrange(at as int, at + 8));
        }
        match parse_value_at(type_code, data, at + 9) {
            Ok((v, end)) => {
                obj.raw_set(hash, v);
                at = end;
            },
            Err(e) => {
                return Err(e);
            },
        }
        count -= 1;
    }
    Ok((obj, at))
}

/// Reads the array at `pos`: a count byte and as many members.
fn parse_array(data: &[u8], pos: usize) -> (r: Result<(Array, usize), Error>)
    requires
        pos <= data@.len(),
    ensures
        match r {
            Ok((arr, end)) => parse_value(0xD, data@, pos as int) == Ok::<(SdValue, int), Error>(
                (SdValue::Array(arr@), end as int),
            ) && pos < end <= data@.len(),
            Err(e) => parse_value(0xD, data@, pos as int) == Err::<(SdValue, int), Error>(e),
        },
    decreases data@.len() - pos, 0int,
{
    if pos >= data.len() {
        return Err(Error::UnexpectedEof);
    }
    let mut arr = Array::new();
    let mut count: u8 = data[pos];
    let mut at: usize = pos + 1;
    let ghost whole = parse_items(data@[pos as int] as nat, data@, pos + 1, Seq::empty());
    while count > 0
        invariant
            pos < at <= data@.len(),
            whole == parse_items(data@[pos as int] as nat, data@, pos + 1, Seq::empty()),
            whole == parse_items(count as nat, data@, at as int, arr@),
        decreases count,
    {
        if at >= data.len() {
            return Err(Error::UnexpectedEof);
        }
        let type_code = data[at];
        match parse_value_at(type_code, data, at + 1) {
            Ok((v, end)) => {
                arr.add(v);
                at = end;
            },
            Err(e) => {
                return Err(e);
            },
        }
        count -= 1;
    }
    Ok((arr, at))
}

/// Reads the object that the source starts with. What follows the object is
/// not looked at.
pub fn load_structured_data(source: &[u8]) -> (r: Result<Object, Error>)
    ensures
        match r {
            Ok(obj) => parse_object(source@) == Ok::<Seq<(u64, SdValue)>, Error>(obj@)
                && obj.names() == Seq::<SdValue>::empty(),
            Err(e) => parse_object(source@) == Err::<Seq<(u64, SdValue)>, Error>(e),
        },
{
    match parse_object_at(source, 0) {
        Ok((obj, _)) => Ok(obj),
        Err(e) => Err(e),
    }
}

/// Whether no string in a value holds a zero byte. A zero byte ends a
/// string in the binary form, so that a string with one does not read back.
pub open spec fn strings_clean(v: SdValue) -> bool
    decreases v,
{
    match v {
        SdValue::String(s) => !encode_utf8(s).contains(0u8),
        SdValue::Array(a) => items_clean(a),
        SdValue::Object(o) => props_clean(o),
        _ => true,
    }
}

/// Whether no string in the members of an array holds a zero byte.
pub open spec fn items_clean(a: Seq<SdValue>) -> bool
    decreases a,
{
    forall|i: int| 0 <= i < a.len() ==> strings_clean(#[trigger] a[i])
}

/// Whether no string in the properties of an object holds a zero byte.
pub open spec fn props_clean(o: Seq<(u64, SdValue)>) -> bool
    decreases o,
{
    forall|i: int| 0 <= i < o.len() ==> strings_clean((#[trigger] o[i]).1)
}

/// The binary form of one member of an array.
pub open spec fn encode_item(v: SdValue) -> Seq<u8> {
    seq![type_code(v)] + encode_value(v)
}

/// The binary form of one property of an object.
pub open spec fn encode_prop(p: (u64, SdValue)) -> Seq<u8> {
    u64_to_le(p.0) + seq![type_code(p.1)] + encode_value(p.1)
}

/// The members of an array stand one behind the other: the form of the
/// first `i + 1` is the form of the first `i` and that of the next, and is
/// where the form of all starts.
proof fn lemma_encode_items_at(a: Seq<SdValue>, i: int)
    requires
        0 <= i < a.len(),
    ensures
        encode_items(a.take(i + 1)) == encode_items(a.take(i)) + encode_item(a[i]),
        encode_items(a.take(i + 1)).len() <= encode_items(a).len(),
        encode_items(a).subrange(0, encode_items(a.take(i + 1)).len() as int) == encode_items(
            a.take(i + 1),
        ),
    decreases a.len() - i,
{
    let next = a.take(i + 1);
    assert(next.drop_last() =~= a.take(i));
    assert(next.last() == a[i]);
    assert(encode_items(next) =~= encode_items(a.take(i)) + encode_item(a[i]));
    if i + 1 == a.len() {
        assert(next =~= a);
        assert(encode_items(a).subrange(0, encode_items(a).len() as int) =~= encode_items(a));
    } else {
        lemma_encode_items_at(a, i + 1);
        let longer = encode_items(a.take(i + 2));
        assert(longer == encode_items(next) + encode_item(a[i + 1]));
        assert(encode_items(a).subrange(0, encode_items(next).len() as int) =~= longer.subrange(
            0,
            encode_items(next).len() as int,
        ));
        assert(longer.subrange(0, encode_items(next).len() as int) =~= encode_items(next));
    }
}

/// The properties of an object stand one behind the other, as the members
/// of an array do.
proof fn lemma_encode_props_at(o: Seq<(u64, SdValue)>, i: int)
    requires
        0 <= i < o.len(),
    ensures
        encode_props(o.take(i + 1)) == encode_props(o.take(i)) + encode_prop(o[i]),
        encode_props(o.take(i + 1)).len() <= encode_props(o).len(),
        encode_props(o).subrange(0, encode_props(o.take(i + 1)).len() as int) == encode_props(
            o.take(i + 1),
        ),
    decreases o.len() - i,
{
    let next = o.take(i + 1);
    assert(next.drop_last() =~= o.take(i));
    assert(next.last() == o[i]);
    assert(encode_props(next) =~= encode_props(o.take(i)) + encode_prop(o[i]));
    if i + 1 == o.len() {
        assert(next =~= o);
        assert(encode_props(o).subrange(0, encode_props(o).len() as int) =~= encode_props(o));
    } else {
        lemma_encode_props_at(o, i + 1);
        let longer = encode_props(o.take(i + 2));
        assert(longer == encode_props(next) + encode_prop(o[i + 1]));
        assert(encode_props(o).subrange(0, encode_props(next).len() as int) =~= longer.subrange(
            0,
            encode_props(next).len() as int,
        ));
        assert(longer.subrange(0, encode_props(next).len() as int) =~= encode_props(next));
    }
}

/// Where bytes without a zero are followed by a zero, the first zero from
/// any place among them is that zero.
pub proof fn lemma_first_zero(data: Seq<u8>, pos: int, len: int, k: int)
    requires
        0 <= pos,
        0 <= k <= len,
        pos + len < data.len(),
        data[pos + len] == 0,
        forall|j: int| pos <= j < pos + len ==> #[trigger] data[j] != 0,
    ensures
        first_zero(data, pos + k) == Some(pos + len),
    decreases len - k,
{
    if k < len {
        assert(data[pos + k] != 0);
        lemma_first_zero(data, pos, len, k + 1);
    }
}

/// A string reads back from its binary form.
proof fn lemma_string_reads_back(s: Seq<char>, data: Seq<u8>, pos: int)
    requires
        !encode_utf8(s).contains(0u8),
        0 <= pos,
        pos + encode_utf8(s).len() + 1 <= data.len(),
        data.subrange(pos, pos + encode_utf8(s).len() + 1) == encode_utf8(s) + seq![0u8],
    ensures
        parse_string(data, pos) == Ok::<(SdValue, int), Error>(
            (SdValue::String(s), pos + encode_utf8(s).len() + 1),
        ),
{
    let bytes = encode_utf8(s);
    let len = bytes.len() as int;
    let block = data.subrange(pos, pos + len + 1);
    assert(data[pos + len] == block[len]);
    assert forall|j: int| pos <= j < pos + len implies #[trigger] data[j] != 0 by {
        assert(data[j] == block[j - pos]);
        assert(block[j - pos] == bytes[j - pos]);
        assert(bytes.contains(bytes[j - pos]));
    }
    lemma_first_zero(data, pos, len, 0);
    assert(data.subrange(pos, pos + len) =~= bytes);
    vstd::utf8::encode_utf8_valid_utf8(s);
    vstd::utf8::encode_utf8_decode_utf8(s);
}

/// An unsigned number, a boolean or null reads back from its binary form.
proof fn lemma_unsigned_reads_back(v: SdValue, data: Seq<u8>, pos: int)
    requires
        v is Null || v is Bool || v is Uint8 || v is Uint16 || v is Uint32 || v is Uint64,
        0 <= pos,
        pos + encode_value(v).len() <= data.len(),
        data.subrange(pos, pos + encode_value(v).len()) == encode_value(v),
    ensures
        parse_value(type_code(v), data, pos) == Ok::<(SdValue, int), Error>(
            (v, pos + encode_value(v).len()),
        ),
{
    let form = encode_value(v);
    let block = data.subrange(pos, pos + form.len());
    match v {
        SdValue::Bool(b) => {
            assert(data[pos] == block[0]);
        },
        SdValue::Uint8(x) => {
            assert(data[pos] == block[0]);
        },
        SdValue::Uint16(x) => {
            crate::endian::lemma_u16_le_round_trip(x);
        },
        SdValue::Uint32(x) => {
            crate::endian::lemma_u32_le_round_trip(x);
        },
        SdValue::Uint64(x) => {
            crate::endian::lemma_u64_le_round_trip(x);
        },
        _ => {},
    }
}

/// A signed number or a float reads back from its binary form.
proof fn lemma_signed_reads_back(v: SdValue, data: Seq<u8>, pos: int)
    requires
        v is Int8 || v is Int16 || v is Int32 || v is Int64 || v is Float || v is Double,
        0 <= pos,
        pos + encode_value(v).len() <= data.len(),
        data.subrange(pos, pos + encode_value(v).len()) == encode_value(v),
    ensures
        parse_value(type_code(v), data, pos) == Ok::<(SdValue, int), Error>(
            (v, pos + encode_value(v).len()),
        ),
{
    let form = encode_value(v);
    let block = data.subrange(pos, pos + form.len());
    match v {
        SdValue::Int8(x) => {
            assert(data[pos] == block[0]);
        },
        SdValue::Int16(x) => {
            crate::endian::lemma_u16_le_round_trip(i16_bits(x));
        },
        SdValue::Int32(x) => {
            crate::endian::lemma_u32_le_round_trip(i32_bits(x));
        },
        SdValue::Int64(x) => {
            crate::endian::lemma_u64_le_round_trip(i64_bits(x));
        },
        SdValue::Float(x) => {
            crate::endian::lemma_u32_le_round_trip(x);
        },
        SdValue::Double(x) => {
            crate::endian::lemma_u64_le_round_trip(x);
        },
        _ => {},
    }
}

/// A value reads back from its binary form: where the form of a value that
/// can be written, with distinct hashes in its objects and no zero byte in
/// its strings, stands at `pos`, reading a value of its type there gives the
/// value and the place behind the form.
pub proof fn lemma_value_reads_back(v: SdValue, data: Seq<u8>, pos: int)
    requires
        fits(v),
        keys_distinct(v),
        strings_clean(v),
        0 <= pos,
        pos + encode_value(v).len() <= data.len(),
        data.subrange(pos, pos + encode_value(v).len()) == encode_value(v),
    ensures
        parse_value(type_code(v), data, pos) == Ok::<(SdValue, int), Error>(
            (v, pos + encode_value(v).len()),
        ),
    decreases v, 0int,
{
    match v {
        SdValue::String(s) => {
            lemma_string_reads_back(s, data, pos);
        },
        SdValue::Array(a) => {
            lemma_array_reads_back(a, data, pos);
        },
        SdValue::Object(o) => {
            lemma_object_reads_back_at(o, data, pos);
        },
        SdValue::Null | SdValue::Bool(_) | SdValue::Uint8(_) | SdValue::Uint16(_) | SdValue::Uint32(
            _,
        ) | SdValue::Uint64(_) => {
            lemma_unsigned_reads_back(v, data, pos);
        },
        _ => {
            lemma_signed_reads_back(v, data, pos);
        },
    }
}

/// An array reads back from its binary form.
proof fn lemma_array_reads_back(a: Seq<SdValue>, data: Seq<u8>, pos: int)
    requires
        fits(SdValue::Array(a)),
        keys_distinct(SdValue::Array(a)),
        strings_clean(SdValue::Array(a)),
        0 <= pos,
        pos + encode_array(a).len() <= data.len(),
        data.subrange(pos, pos + encode_array(a).len()) == encode_array(a),
    ensures
        parse_value(0xD, data, pos) == Ok::<(SdValue, int), Error>(
            (SdValue::Array(a), pos + encode_array(a).len()),
        ),
    decreases a, a.len() + 1,
{
    let form = encode_array(a);
    let block = data.subrange(pos, pos + form.len());
    assert(data[pos] == block[0]);
    assert(data[pos] as nat == a.len());
    assert(data.subrange(pos + 1, pos + 1 + encode_items(a).len()) =~= encode_items(a)) by {
        assert(form.subrange(1, form.len() as int) =~= encode_items(a));
        assert forall|k: int| 0 <= k < encode_items(a).len() implies data[pos + 1 + k]
            == encode_items(a)[k] by {
            assert(data[pos + 1 + k] == block[1 + k]);
        }
    }
    assert(a.take(0) =~= Seq::<SdValue>::empty());
    lemma_items_read_back(a, 0, data, pos + 1);
}

/// Reading an object is reading a count and as many properties.
proof fn lemma_parse_object_unfolds(data: Seq<u8>, pos: int)
    requires
        0 <= pos < data.len(),
    ensures
        parse_value(0xE, data, pos) == match parse_props(
            data[pos] as nat,
            data,
            pos + 1,
            Seq::empty(),
        ) {
            Ok((o, end)) => Ok::<(SdValue, int), Error>((SdValue::Object(o), end)),
            Err(e) => Err::<(SdValue, int), Error>(e),
        },
{
}

/// An object reads back from its binary form.
proof fn lemma_object_reads_back_at(o: Seq<(u64, SdValue)>, data: Seq<u8>, pos: int)
    requires
        fits(SdValue::Object(o)),
        keys_distinct(SdValue::Object(o)),
        strings_clean(SdValue::Object(o)),
        0 <= pos,
        pos + encode_object(o).len() <= data.len(),
        data.subrange(pos, pos + encode_object(o).len()) == encode_object(o),
    ensures
        parse_value(0xE, data, pos) == Ok::<(SdValue, int), Error>(
            (SdValue::Object(o), pos + encode_object(o).len()),
        ),
    decreases o, o.len() + 1,
{
    let form = encode_object(o);
    let items = encode_props(o);
    assert(form.len() == items.len() + 1);
    assert(data[pos] == data.subrange(pos, pos + form.len())[0]);
    assert(data[pos] as nat == o.len());
    assert(data.subrange(pos + 1, pos + 1 + items.len()) =~= items) by {
        assert forall|k: int| 0 <= k < items.len() implies data[pos + 1 + k] == items[k] by {
            assert(data[pos + 1 + k] == data.subrange(pos, pos + form.len())[1 + k]);
            assert(form[1 + k] == items[k]);
        }
    }
    assert(o.take(0) =~= Seq::<(u64, SdValue)>::empty());
    assert(encode_props(o.take(0)).len() == 0);
    lemma_parse_object_unfolds(data, pos);
    lemma_props_read_back(o, 0, data, pos + 1);
}

/// Where the members of an array stand at `base`, the `i`-th stands behind
/// the first `i`: its type code, then its form.
proof fn lemma_item_layout(a: Seq<SdValue>, i: int, data: Seq<u8>, base: int)
    requires
        0 <= i < a.len(),
        0 <= base,
        base + encode_items(a).len() <= data.len(),
        data.subrange(base, base + encode_items(a).len()) == encode_items(a),
    ensures
        encode_items(a.take(i + 1)).len() == encode_items(a.take(i)).len() + 1 + encode_value(
            a[i],
        ).len(),
        encode_items(a.take(i + 1)).len() <= encode_items(a).len(),
        data[base + encode_items(a.take(i)).len()] == type_code(a[i]),
        data.subrange(
            base + encode_items(a.take(i)).len() + 1,
            base + encode_items(a.take(i)).len() + 1 + encode_value(a[i]).len(),
        ) == encode_value(a[i]),
{
    let at = base + encode_items(a.take(i)).len();
    let all = encode_items(a);
    lemma_encode_items_at(a, i);
    let next = encode_items(a.take(i + 1));
    let item = encode_item(a[i]);
    let value = encode_value(a[i]);
    assert(all.subrange(0, next.len() as int) == next);
    assert forall|k: int| 0 <= k < item.len() implies data[at + k] == item[k] by {
        assert(data[at + k] == data.subrange(base, base + all.len())[at - base + k]);
        assert(all[at - base + k] == all.subrange(0, next.len() as int)[at - base + k]);
    }
    assert(data[at] == item[0]);
    assert(data.subrange(at + 1, at + 1 + value.len()) =~= value) by {
        assert forall|k: int| 0 <= k < value.len() implies data[at + 1 + k] == value[k] by {
            assert(data[at + 1 + k] == item[1 + k]);
        }
    }
}

/// Where the properties of an object stand at `base`, the `i`-th stands
/// behind the first `i`: its hash, its type code, then its form.
proof fn lemma_prop_layout(o: Seq<(u64, SdValue)>, i: int, data: Seq<u8>, base: int)
    requires
        0 <= i < o.len(),
        0 <= base,
        base + encode_props(o).len() <= data.len(),
        data.subrange(base, base + encode_props(o).len()) == encode_props(o),
    ensures
        encode_props(o.take(i + 1)).len() == encode_props(o.take(i)).len() + 9 + encode_value(
            o[i].1,
        ).len(),
        encode_props(o.take(i + 1)).len() <= encode_props(o).len(),
        data.subrange(
            base + encode_props(o.take(i)).len(),
            base + encode_props(o.take(i)).len() + 8,
        ) == u64_to_le(o[i].0),
        data[base + encode_props(o.take(i)).len() + 8] == type_code(o[i].1),
        data.subrange(
            base + encode_props(o.take(i)).len() + 9,
            base + encode_props(o.take(i)).len() + 9 + encode_value(o[i].1).len(),
        ) == encode_value(o[i].1),
{
    let at = base + encode_props(o.take(i)).len();
    let all = encode_props(o);
    lemma_encode_props_at(o, i);
    let next = encode_props(o.take(i + 1));
    let prop = encode_prop(o[i]);
    let value = encode_value(o[i].1);
    assert(u64_to_le(o[i].0).len() == 8);
    assert(all.subrange(0, next.len() as int) == next);
    assert forall|k: int| 0 <= k < prop.len() implies data[at + k] == prop[k] by {
        assert(data[at + k] == data.subrange(base, base + all.len())[at - base + k]);
        assert(all[at - base + k] == all.subrange(0, next.len() as int)[at - base + k]);
    }
    assert(data.subrange(at, at + 8) =~= u64_to_le(o[i].0)) by {
        assert forall|k: int| 0 <= k < 8 implies data[at + k] == u64_to_le(o[i].0)[k] by {
            assert(data[at + k] == prop[k]);
        }
    }
    assert(data[at + 8] == prop[8]);
    assert(data.subrange(at + 9, at + 9 + value.len()) =~= value) by {
        assert forall|k: int| 0 <= k < value.len() implies data[at + 9 + k] == value[k] by {
            assert(data[at + 9 + k] == prop[9 + k]);
        }
    }
}

/// With distinct hashes, setting the next property of an object on top of
/// the ones before it appends it.
proof fn lemma_set_next_prop(o: Seq<(u64, SdValue)>, i: int)
    requires
        0 <= i < o.len(),
        distinct_keys(o),
    ensures
        set_prop(o.take(i), o[i].0, o[i].1) == o.take(i + 1),
{
    lemma_prop_index(o.take(i), o[i].0);
    if let Some(k) = prop_index(o.take(i), o[i].0) {
        assert(o.take(i)[k] == o[k]);
    }
    assert(set_prop(o.take(i), o[i].0, o[i].1) =~= o.take(i + 1));
}

/// What holds of an array holds of its members.
proof fn lemma_member_sound(a: Seq<SdValue>, i: int)
    requires
        0 <= i < a.len(),
        items_fit(a),
        keys_distinct(SdValue::Array(a)),
        strings_clean(SdValue::Array(a)),
    ensures
        fits(a[i]),
        keys_distinct(a[i]),
        strings_clean(a[i]),
{
}

/// What holds of an object holds of the values of its properties.
proof fn lemma_prop_sound(o: Seq<(u64, SdValue)>, i: int)
    requires
        0 <= i < o.len(),
        props_fit(o),
        props_keys_distinct(o),
        strings_clean(SdValue::Object(o)),
    ensures
        fits(o[i].1),
        keys_distinct(o[i].1),
        strings_clean(o[i].1),
        distinct_keys(o),
{
}

/// Reading members is reading one member and then the others.
proof fn lemma_parse_items_step(
    count: nat,
    data: Seq<u8>,
    pos: int,
    acc: Seq<SdValue>,
    v: SdValue,
    end: int,
)
    requires
        count > 0,
        0 <= pos < data.len(),
        pos < end <= data.len(),
        parse_value(data[pos], data, pos + 1) == Ok::<(SdValue, int), Error>((v, end)),
    ensures
        parse_items(count, data, pos, acc) == parse_items(
            (count - 1) as nat,
            data,
            end,
            acc.push(v),
        ),
{
}

/// Reading properties is reading one property and then the others.
proof fn lemma_parse_props_step(
    count: nat,
    data: Seq<u8>,
    pos: int,
    acc: Seq<(u64, SdValue)>,
    v: SdValue,
    end: int,
)
    requires
        count > 0,
        0 <= pos,
        pos + 9 <= data.len(),
        pos < end <= data.len(),
        parse_value(data[pos + 8], data, pos + 9) == Ok::<(SdValue, int), Error>((v, end)),
    ensures
        parse_props(count, data, pos, acc) == parse_props(
            (count - 1) as nat,
            data,
            end,
            set_prop(acc, u64_from_le(data.subrange(pos, pos + 8)), v),
        ),
{
}

/// The members of an array read back: with the first `i` read, reading the
/// others behind them gives the whole array.
proof fn lemma_items_read_back(a: Seq<SdValue>, i: int, data: Seq<u8>, base: int)
    requires
        0 <= i <= a.len(),
        items_fit(a),
        keys_distinct(SdValue::Array(a)),
        strings_clean(SdValue::Array(a)),
        0 <= base,
        base + encode_items(a).len() <= data.len(),
        data.subrange(base, base + encode_items(a).len()) == encode_items(a),
        encode_items(a.take(i)).len() <= encode_items(a).len(),
    ensures
        parse_items((a.len() - i) as nat, data, base + encode_items(a.take(i)).len(), a.take(i))
            == Ok::<(Seq<SdValue>, int), Error>((a, base + encode_items(a).len())),
    decreases a, a.len() - i,
{
    if i == a.len() {
        assert(a.take(i) =~= a);
    } else {
        let at = base + encode_items(a.take(i)).len();
        let end = base + encode_items(a.take(i + 1)).len();
        lemma_item_layout(a, i, data, base);
        lemma_member_sound(a, i);
        lemma_value_reads_back(a[i], data, at + 1);
        lemma_parse_items_step((a.len() - i) as nat, data, at, a.take(i), a[i], end);
        assert(a.take(i).push(a[i]) =~= a.take(i + 1));
        lemma_items_read_back(a, i + 1, data, base);
    }
}

/// The properties of an object read back, as the members of an array do.
proof fn lemma_props_read_back(o: Seq<(u64, SdValue)>, i: int, data: Seq<u8>, base: int)
    requires
        0 <= i <= o.len(),
        props_fit(o),
        props_keys_distinct(o),
        strings_clean(SdValue::Object(o)),
        0 <= base,
        base + encode_props(o).len() <= data.len(),
        data.subrange(base, base + encode_props(o).len()) == encode_props(o),
        encode_props(o.take(i)).len() <= encode_props(o).len(),
    ensures
        parse_props((o.len() - i) as nat, data, base + encode_props(o.take(i)).len(), o.take(i))
            == Ok::<(Seq<(u64, SdValue)>, int), Error>((o, base + encode_props(o).len())),
    decreases o, o.len() - i,
{
    if i == o.len() {
        assert(o.take(i) =~= o);
    } else {
        let at = base + encode_props(o.take(i)).len();
        let end = base + encode_props(o.take(i + 1)).len();
        lemma_prop_layout(o, i, data, base);
        crate::endian::lemma_u64_le_round_trip(o[i].0);
        lemma_prop_sound(o, i);
        lemma_value_reads_back(o[i].1, data, at + 9);
        lemma_parse_props_step((o.len() - i) as nat, data, at, o.take(i), o[i].1, end);
        lemma_set_next_prop(o, i);
        lemma_props_read_back(o, i + 1, data, base);
    }
}

/// An object reads back from its binary form, whatever follows the form.
pub proof fn lemma_object_reads_back(o: Seq<(u64, SdValue)>, rest: Seq<u8>)
    requires
        props_fit(o),
        props_keys_distinct(o),
        strings_clean(SdValue::Object(o)),
    ensures
        parse_object(encode_object(o) + rest) == Ok::<Seq<(u64, SdValue)>, Error>(o),
{
    let data = encode_object(o) + rest;
    assert(data.subrange(0, encode_object(o).len() as int) =~= encode_object(o));
    lemma_value_reads_back(SdValue::Object(o), data, 0);
}

/// Appends the binary form of an object to `dest`.
///
/// The object is refused, and nothing appended, where it or an array or an
/// object in it holds more than 255 values. What is written reads back as
/// the same object, unless one of its strings holds a zero byte.
pub fn write_structured_data(dest: &mut Vec<u8>, obj: &Object) -> (r: Result<(), Error>)
    ensures
        match r {
            Ok(()) => {
                &&& props_fit(obj@)
                &&& final(dest)@ == old(dest)@ + encode_object(obj@)
                &&& strings_clean(SdValue::Object(obj@)) ==> parse_object(encode_object(obj@))
                    == Ok::<Seq<(u64, SdValue)>, Error>(obj@)
            },
            Err(e) => e == Error::TooManyValues && !props_fit(obj@) && final(dest)@ == old(dest)@,
        },
{
    let bytes = match write_object(obj) {
        Ok(b) => b,
        Err(e) => {
            return Err(e);
        },
    };
    append_bytes(dest, bytes.as_slice());
    proof {
        if strings_clean(SdValue::Object(obj@)) {
            lemma_object_reads_back(obj@, Seq::empty());
            assert(encode_object(obj@) + Seq::<u8>::empty() =~= encode_object(obj@));
        }
    }
    Ok(())
}

/// How a hash is shown when its name is not known: `0x` and its
/// hexadecimal digits.
pub open spec fn hex_name(hash: u64) -> Seq<char> {
    seq!['0', 'x'] + hex_digits(hash as nat)
}

/// The symbols that a row of names gives: each name under its hash. Of
/// names with one hash the last one counts.
pub open spec fn symbols_of(names: Seq<Seq<char>>) -> Map<u64, Seq<char>>
    decreases names.len(),
{
    if names.len() == 0 {
        Map::empty()
    } else {
        symbols_of(names.drop_last()).insert(hash_of(names.last()), names.last())
    }
}

/// What a map of strings holds, apart from how the strings are held.
pub open spec fn strings_view(m: Map<u64, String>) -> Map<u64, Seq<char>> {
    Map::new(|h: u64| m.contains_key(h), |h: u64| m[h]@)
}

/// The names that the members of an array stand for, if all are strings.
pub open spec fn names_of(a: Seq<SdValue>) -> Result<Seq<Seq<char>>, Error>
    decreases a.len(),
{
    if a.len() == 0 {
        Ok(Seq::empty())
    } else {
        match names_of(a.drop_last()) {
            Err(e) => Err(e),
            Ok(names) => match a.last() {
                SdValue::String(s) => Ok(names.push(s)),
                _ => Err(Error::BadDebugSymbols),
            },
        }
    }
}

/// The names that an object carries as debug information: none where it
/// has no property `__debug__`, and else the strings of the array under it.
pub open spec fn debug_names(o: Seq<(u64, SdValue)>) -> Result<Seq<Seq<char>>, Error> {
    match get_prop(o, hash_of("__debug__"@)) {
        None => Ok(Seq::empty()),
        Some(SdValue::Array(a)) => names_of(a),
        Some(_) => Err(Error::BadDebugSymbols),
    }
}

/// The names of the properties of an object, to show in place of their
/// hashes.
pub struct DebugSymbols {
    symbols: HashMap<u64, String>,
}

impl View for DebugSymbols {
    type V = Map<u64, Seq<char>>;

    closed spec fn view(&self) -> Map<u64, Seq<char>> {
        strings_view(self.symbols@)
    }
}

impl DebugSymbols {
    /// Reads the debug information of an object. An object without any has
    /// no symbols; debug information that is not an array of strings is
    /// refused with `BadDebugSymbols`.
    pub fn load(obj: &Object) -> (r: Result<DebugSymbols, Error>)
        ensures
            match r {
                Ok(symbols) => debug_names(obj@) matches Ok(names) && symbols@ == symbols_of(names),
                Err(e) => debug_names(obj@) == Err::<Seq<Seq<char>>, Error>(e),
            },
    {
        let mut symbols: HashMap<u64, String> = HashMap::new();
        assert(strings_view(symbols@) =~= symbols_of(Seq::empty()));
        match obj.get("__debug__") {
            None => {},
            Some(val) => match val {
                Value::Array(arr) => {
                    let mut i: usize = 0;
                    assert(arr@.take(0) =~= Seq::<SdValue>::empty());
                    while i < arr.len()
                        invariant
                            i <= arr@.len(),
                            debug_names(obj@) == names_of(arr@),
                            names_of(arr@.take(i as int)) is Ok,
                            strings_view(symbols@) == symbols_of(
                                names_of(arr@.take(i as int))->Ok_0,
                            ),
                        decreases arr@.len() - i,
                    {
                        proof {
                            let next = arr@.take(i + 1);
                            assert(next.drop_last() =~= arr@.take(i as int));
                            assert(next.last() == arr@[i as int]);
                        }
                        match arr.get(i) {
                            Some(Value::String(s)) => {
                                let ghost before = symbols@;
                                symbols.insert(crate::utils::hash(s.as_str()), s.clone());
                                proof {
                                    let names = names_of(arr@.take(i as int))->Ok_0;
                                    assert(names.push(s@).drop_last() =~= names);
                                    assert(strings_view(symbols@) =~= strings_view(before).insert(
                                        hash_of(s@),
                                        s@,
                                    ));
                                }
                            },
                            _ => {
                                proof {
                                    lemma_names_of_fails(arr@, i + 1);
                                }
                                return Err(Error::BadDebugSymbols);
                            },
                        }
                        i += 1;
                    }
                    assert(arr@.take(i as int) =~= arr@);
                },
                _ => {
                    return Err(Error::BadDebugSymbols);
                },
            },
        }
        let symbols = DebugSymbols { symbols: symbols };
        Ok(symbols)
    }

    /// The name to show for a hash: the name that the symbols hold for it,
    /// or the hash in hexadecimal where they hold none.
    pub fn lookup(&self, hash: u64) -> (name: String)
        ensures
            name@ == if self@.contains_key(hash) {
                self@[hash]
            } else {
                hex_name(hash)
            },
    {
        match self.symbols.get(&hash) {
            Some(s) => s.clone(),
            None => {
                let mut name = "0x".to_owned();
                proof {
                    reveal_strlit("0x");
                    assert(name@ =~= seq!['0', 'x']);
                }
                push_hex(&mut name, hash);
                name
            },
        }
    }
}

/// Once a member of an array is no string, no longer stretch of the array
/// gives names.
proof fn lemma_names_of_fails(a: Seq<SdValue>, n: int)
    requires
        0 <= n <= a.len(),
        names_of(a.take(n)) == Err::<Seq<Seq<char>>, Error>(Error::BadDebugSymbols),
    ensures
        names_of(a) == Err::<Seq<Seq<char>>, Error>(Error::BadDebugSymbols),
    decreases a.len() - n,
{
    if n < a.len() {
        assert(a.take(n + 1).drop_last() =~= a.take(n));
        lemma_names_of_fails(a, n + 1);
    } else {
        assert(a.take(n) =~= a);
    }
}

} // verus!
