//! Global map resources: entries of a globally shared map from keys to values, read and written by tasks.
use vstd::prelude::*;

use crate::value::{KeyObj, Val, ValueObj};

verus! {

/// A globally shared map from keys to values. No key occurs twice.
pub struct GlobalMap {
    entries: Vec<(KeyObj, ValueObj)>,
}

/// The keys of `entries` are distinct.
pub open spec fn distinct_keys(entries: Seq<(KeyObj, ValueObj)>) -> bool {
    forall|i: int, j: int|
        0 <= i < entries.len() && 0 <= j < entries.len() && i != j ==> (#[trigger] entries[i]).0@
            != (#[trigger] entries[j]).0@
}

/// The map that `entries` holds.
pub open spec fn map_of(entries: Seq<(KeyObj, ValueObj)>) -> Map<Val, Val>
    decreases entries.len(),
{
    if entries.len() == 0 {
        Map::empty()
    } else {
        map_of(entries.drop_last()).insert(entries.last().0@, entries.last().1@)
    }
}

/// With distinct keys, the map holds the value of the entry of each key, and only those keys.
proof fn lemma_map_of(entries: Seq<(KeyObj, ValueObj)>)
    requires
        distinct_keys(entries),
    ensures
        forall|k: Val| #[trigger]
            map_of(entries).contains_key(k) <==> exists|i: int| 0 <= i < entries.len() && entries[i].0@ == k,
        forall|i: int| 0 <= i < entries.len() ==> #[trigger] map_of(entries)[entries[i].0@] == entries[i].1@,
    decreases entries.len(),
{
    if entries.len() > 0 {
        let rest = entries.drop_last();
        let last = entries.last();
        let n = entries.len() - 1;
        assert(map_of(entries) == map_of(rest).insert(last.0@, last.1@));
        assert(distinct_keys(rest)) by {
            assert forall|i: int, j: int|
                0 <= i < rest.len() && 0 <= j < rest.len() && i != j implies (#[trigger] rest[i]).0@
                != (#[trigger] rest[j]).0@ by {
                assert(rest[i] == entries[i]);
                assert(rest[j] == entries[j]);
            }
        }
        lemma_map_of(rest);
        assert forall|k: Val| #[trigger]
            map_of(entries).contains_key(k) <==> exists|i: int| 0 <= i < entries.len() && entries[i].0@ == k by {
            if map_of(entries).contains_key(k) {
                if k == last.0@ {
                    assert(entries[n].0@ == k);
                } else {
                    assert(map_of(rest).contains_key(k));
                    let i = choose|i: int| 0 <= i < rest.len() && rest[i].0@ == k;
                    assert(entries[i] == rest[i]);
                }
            }
            if exists|i: int| 0 <= i < entries.len() && entries[i].0@ == k {
                let i = choose|i: int| 0 <= i < entries.len() && entries[i].0@ == k;
                if i < n {
                    assert(entries[i] == rest[i]);
                    assert(map_of(rest).contains_key(k));
                }
            }
        }
        assert forall|i: int| 0 <= i < entries.len() implies #[trigger] map_of(entries)[entries[i].0@]
            == entries[i].1@ by {
            if i < n {
                assert(entries[i] == rest[i]);
                assert(entries[i].0@ != entries[n].0@);
                assert(map_of(rest)[rest[i].0@] == rest[i].1@);
            }
        }
    }
}

/// Replacing the value of one entry keeps the keys distinct and updates the map at that key.
proof fn lemma_update_value(entries: Seq<(KeyObj, ValueObj)>, i: int, value: ValueObj)
    requires
        distinct_keys(entries),
        0 <= i < entries.len(),
    ensures
        distinct_keys(entries.update(i, (entries[i].0, value))),
        map_of(entries.update(i, (entries[i].0, value))) == map_of(entries).insert(entries[i].0@, value@),
{
    let updated = entries.update(i, (entries[i].0, value));
    assert forall|a: int, b: int| 0 <= a < updated.len() && 0 <= b < updated.len() && a != b implies (
    #[trigger] updated[a]).0@ != (#[trigger] updated[b]).0@ by {
        assert(entries[a].0@ != entries[b].0@);
    }
    lemma_map_of(entries);
    lemma_map_of(updated);
    let key = entries[i].0@;
    assert forall|k: Val| #[trigger] map_of(updated).contains_key(k) <==> map_of(entries).insert(key, value@).contains_key(k) by {
        if map_of(updated).contains_key(k) {
            let j = choose|j: int| 0 <= j < updated.len() && updated[j].0@ == k;
            assert(entries[j].0@ == k);
        }
        if map_of(entries).contains_key(k) {
            let j = choose|j: int| 0 <= j < entries.len() && entries[j].0@ == k;
            assert(updated[j].0@ == k);
        }
        if k == key {
            assert(updated[i].0@ == k);
        }
    }
    assert forall|k: Val| #[trigger] map_of(updated).contains_key(k) implies map_of(updated)[k] == map_of(entries).insert(key, value@)[k] by {
        let j = choose|j: int| 0 <= j < updated.len() && updated[j].0@ == k;
        if j != i {
            assert(entries[j] == updated[j]);
        }
    }
    assert(map_of(updated) =~= map_of(entries).insert(key, value@));
}

impl View for GlobalMap {
    type V = Map<Val, Val>;

    closed spec fn view(&self) -> Map<Val, Val> {
        map_of(self.entries@)
    }
}

impl GlobalMap {
    /// No key occurs twice.
    pub closed spec fn wf(&self) -> bool {
        distinct_keys(self.entries@)
    }

    /// Creates an empty map.
    pub fn new() -> (r: GlobalMap)
        ensures
            r.wf(),
            r@ == Map::<Val, Val>::empty(),
    {
        GlobalMap { entries: Vec::new() }
    }

    /// The position of the entry of `key`, or `None` if there is none.
    fn position(&self, key: &KeyObj) -> (r: Option<usize>)
        requires
            self.wf(),
        ensures
            r is None <==> !self@.contains_key(key@),
            r matches Some(i) ==> i < self.entries@.len() && self.entries@[i as int].0@ == key@,
    {
        proof {
            lemma_map_of(self.entries@);
        }
        let mut i: usize = 0;
        while i < self.entries.len()
            invariant
                self.wf(),
                i <= self.entries@.len(),
                forall|j: int| 0 <= j < i ==> self.entries@[j].0@ != key@,
            decreases self.entries@.len() - i,
        {
            if self.entries[i].0.equals(key) {
                proof {
                    lemma_map_of(self.entries@);
                    assert(map_of(self.entries@).contains_key(key@));
                }
                return Some(i);
            }
            i = i + 1;
        }
        proof {
            lemma_map_of(self.entries@);
        }
        None
    }

    /// Gets the value of `key`, returning `Some(&value)` if it exists, `None` otherwise.
    pub fn get(&self, key: &KeyObj) -> (r: Option<&ValueObj>)
        requires
            self.wf(),
        ensures
            r is Some <==> self@.contains_key(key@),
            r matches Some(v) ==> v@ == self@[key@],
    {
        proof {
            lemma_map_of(self.entries@);
        }
        match self.position(key) {
            Some(i) => Some(&self.entries[i].1),
            None => None,
        }
    }

    /// Gets the mutable value of `key`, returning `Some(&mut value)` if it exists, `None` otherwise.
    pub fn get_mut(&mut self, key: &KeyObj) -> (r: Option<&mut ValueObj>)
        requires
            old(self).wf(),
        ensures
            r is Some <==> old(self)@.contains_key(key@),
            r matches Some(v) ==> (*v)@ == old(self)@[key@],
            r matches Some(v) ==> final(self).wf() && final(self)@ == old(self)@.insert(key@, (*final(v))@),
            r is None ==> *final(self) == *old(self),
    {
        proof {
            lemma_map_of(self.entries@);
        }
        match self.position(key) {
            Some(i) => {
                let r = &mut self.entries[i].1;
                proof {
                    lemma_update_value(old(self).entries@, i as int, *final(r));
                }
                Some(r)
            },
            None => None,
        }
    }

    /// Sets the value of `key` to `value`, returning `Some(previous_value)` if there was a previous value, `None`
    /// otherwise.
    pub fn insert(&mut self, key: KeyObj, value: ValueObj) -> (r: Option<ValueObj>)
        requires
            old(self).wf(),
        ensures
            final(self).wf(),
            final(self)@ == old(self)@.insert(key@, value@),
            r is Some <==> old(self)@.contains_key(key@),
            r matches Some(v) ==> v@ == old(self)@[key@],
    {
        proof {
            lemma_map_of(self.entries@);
        }
        match self.position(&key) {
            Some(i) => {
                let ghost old_entries = self.entries@;
                let mut previous = value;
                std::mem::swap(&mut previous, &mut self.entries[i].1);
                proof {
                    assert(self.entries@ == old_entries.update(i as int, (old_entries[i as int].0, value)));
                    assert(distinct_keys(self.entries@)) by {
                        assert forall|a: int, b: int|
                            0 <= a < self.entries@.len() && 0 <= b < self.entries@.len() && a != b implies (
                            #[trigger] self.entries@[a]).0@ != (#[trigger] self.entries@[b]).0@ by {
                            assert(old_entries[a].0@ != old_entries[b].0@);
                        }
                    }
                    lemma_map_of(self.entries@);
                    assert forall|k: Val| #[trigger] self@.contains_key(k) <==> old(self)@.insert(key@, value@).contains_key(k) by {
                        if self@.contains_key(k) {
                            let j = choose|j: int| 0 <= j < self.entries@.len() && self.entries@[j].0@ == k;
                            assert(old_entries[j].0@ == k);
                        }
                        if old(self)@.contains_key(k) {
                            let j = choose|j: int| 0 <= j < old_entries.len() && old_entries[j].0@ == k;
                            assert(self.entries@[j].0@ == k);
                        }
                    }
                    assert forall|k: Val| #[trigger] self@.contains_key(k) implies self@[k] == old(self)@.insert(key@, value@)[k] by {
                        let j = choose|j: int| 0 <= j < self.entries@.len() && self.entries@[j].0@ == k;
                        if j != i {
                            assert(old_entries[j] == self.entries@[j]);
                        }
                    }
                    assert(self@ =~= old(self)@.insert(key@, value@));
                    assert(previous@ == old_entries[i as int].1@);
                }
                Some(previous)
            },
            None => {
                let ghost old_entries = self.entries@;
                self.entries.push((key, value));
                proof {
                    assert(self.entries@.drop_last() == old_entries);
                    assert(distinct_keys(self.entries@)) by {
                        assert forall|a: int, b: int|
                            0 <= a < self.entries@.len() && 0 <= b < self.entries@.len() && a != b implies (
                            #[trigger] self.entries@[a]).0@ != (#[trigger] self.entries@[b]).0@ by {
                            if a < old_entries.len() && b < old_entries.len() {
                                assert(old_entries[a].0@ != old_entries[b].0@);
                            } else if a < old_entries.len() {
                                assert(old_entries[a] == self.entries@[a]);
                            } else {
                                assert(old_entries[b] == self.entries@[b]);
                            }
                        }
                    }
                }
                None
            },
        }
    }
}

/// Writer for the entry of `key` in a global `map`.
pub struct MapWriter<'a> {
    map: &'a mut GlobalMap,
    key: &'a KeyObj,
}

impl GlobalMap {
    /// Creates a writer for the entry of `key`.
    pub fn writer<'a>(&'a mut self, key: &'a KeyObj) -> (r: MapWriter<'a>)
        ensures
            r.spec_map() == *old(self),
            r.spec_key() == key@,
            *final(self) == *final(r.map_ref()),
    {
        MapWriter { map: self, key }
    }
}

impl<'a> MapWriter<'a> {
    /// The map this writer writes to.
    pub closed spec fn spec_map(&self) -> GlobalMap {
        *self.map
    }

    /// The mutable reference to the map this writer writes to.
    pub closed spec fn map_ref(&self) -> &'a mut GlobalMap {
        self.map
    }

    /// The key of the entry this writer writes.
    pub closed spec fn spec_key(&self) -> Val {
        self.key@
    }

    /// Gets the value, returning `Some(&value)` if it exists, `None` otherwise.
    pub fn get(&self) -> (r: Option<&ValueObj>)
        requires
            self.spec_map().wf(),
        ensures
            r is Some <==> self.spec_map()@.contains_key(self.spec_key()),
            r matches Some(v) ==> v@ == self.spec_map()@[self.spec_key()],
    {
        self.map.get(self.key)
    }

    /// Gets the mutable value, returning `Some(&mut value)` if it exists, `None` otherwise.
    pub fn get_mut(&mut self) -> (r: Option<&mut ValueObj>)
        requires
            old(self).spec_map().wf(),
        ensures
            final(self).spec_key() == old(self).spec_key(),
            r is Some <==> old(self).spec_map()@.contains_key(old(self).spec_key()),
            r matches Some(v) ==> (*v)@ == old(self).spec_map()@[old(self).spec_key()],
            r matches Some(v) ==> final(self).spec_map().wf() && final(self).spec_map()@ == old(
                self,
            ).spec_map()@.insert(old(self).spec_key(), (*final(v))@),
            r is None ==> final(self).spec_map() == old(self).spec_map(),
    {
        self.map.get_mut(self.key)
    }

    /// Sets the value to `value`, returning `Some(previous_value)` if there was a previous value, `None` otherwise.
    pub fn insert(&mut self, value: ValueObj) -> (r: Option<ValueObj>)
        requires
            old(self).spec_map().wf(),
        ensures
            final(self).spec_key() == old(self).spec_key(),
            final(self).spec_map().wf(),
            final(self).spec_map()@ == old(self).spec_map()@.insert(old(self).spec_key(), value@),
            r is Some <==> old(self).spec_map()@.contains_key(old(self).spec_key()),
            r matches Some(v) ==> v@ == old(self).spec_map()@[old(self).spec_key()],
    {
        let key = self.key.copy();
        self.map.insert(key, value)
    }

    /// Gets the entry of the key of this writer for in-place manipulation.
    pub fn entry(&mut self) -> (r: MapEntry<'_>)
        ensures
            r.spec_map() == old(self).spec_map(),
            r.spec_key() == old(self).spec_key(),
            final(self).spec_key() == old(self).spec_key(),
            final(self).spec_map() == *final(r.map_ref()),
    {
        MapEntry { map: &mut *self.map, key: self.key.copy() }
    }
}

/// The entry of a key in a global map, for in-place manipulation.
pub struct MapEntry<'a> {
    map: &'a mut GlobalMap,
    key: KeyObj,
}

impl<'a> MapEntry<'a> {
    /// The map of this entry.
    pub closed spec fn spec_map(&self) -> GlobalMap {
        *self.map
    }

    /// The mutable reference to the map of this entry.
    pub closed spec fn map_ref(&self) -> &'a mut GlobalMap {
        self.map
    }

    /// The key of this entry.
    pub closed spec fn spec_key(&self) -> Val {
        self.key@
    }

    /// The key of this entry.
    pub fn key(&self) -> (r: &KeyObj)
        ensures
            r@ == self.spec_key(),
    {
        &self.key
    }

    /// Whether the map has a value for the key (an occupied entry) or not (a vacant entry).
    pub fn is_occupied(&self) -> (r: bool)
        requires
            self.spec_map().wf(),
        ensures
            r == self.spec_map()@.contains_key(self.spec_key()),
    {
        self.map.get(&self.key).is_some()
    }

    /// The mutable value of the entry, after setting it to `default` when the entry is vacant; other keys are left
    /// unchanged.
    pub fn or_insert(self, default: ValueObj) -> (r: &'a mut ValueObj)
        requires
            self.spec_map().wf(),
        ensures
            (*r)@ == (if self.spec_map()@.contains_key(self.spec_key()) {
                self.spec_map()@[self.spec_key()]
            } else {
                default@
            }),
            (*final(self.map_ref())).wf(),
            (*final(self.map_ref()))@ == self.spec_map()@.insert(self.spec_key(), (*final(r))@),
    {
        let MapEntry { map, key } = self;
        let ghost original = *map;
        if map.get(&key).is_none() {
            let k = key.copy();
            map.insert(k, default);
        }
        let ghost filled = *map;
        match map.get_mut(&key) {
            Some(v) => {
                proof {
                    assert(filled@.insert(key@, (*final(v))@) =~= original@.insert(key@, (*final(v))@));
                }
                v
            },
            None => vstd::pervasive::unreached(),
        }
    }
}

/// The stamp of a map checker for `key` in `map`: the value of `key`, if any.
pub open spec fn map_stamp(map: Map<Val, Val>, key: Val) -> Val {
    if map.contains_key(key) {
        Val::Opt(Some(Box::new(map[key])))
    } else {
        Val::Opt(None)
    }
}

/// Global map checker that marks a dependency to an entry consistent when the value of its key is equal.
#[derive(Clone, Copy, PartialEq, Eq, Hash, Debug, Default)]
pub struct MapEqualsChecker;

impl MapEqualsChecker {
    /// Stamps the entry of `key` in `map`: its value, if any.
    pub fn stamp(&self, key: &KeyObj, map: &GlobalMap) -> (r: ValueObj)
        requires
            map.wf(),
        ensures
            r@ == map_stamp(map@, key@),
    {
        match map.get(key) {
            Some(v) => ValueObj::some(v.copy()),
            None => ValueObj::Opt(None),
        }
    }

    /// Checks the entry of `key` in `map` against `stamp`, returning `Some(new_stamp)` when it is inconsistent, `None`
    /// when it is consistent.
    pub fn check(&self, key: &KeyObj, map: &GlobalMap, stamp: &ValueObj) -> (r: Option<ValueObj>)
        requires
            map.wf(),
        ensures
            r is None <==> map_stamp(map@, key@) == stamp@,
            r matches Some(s) ==> s@ == map_stamp(map@, key@),
    {
        let new_stamp = self.stamp(key, map);
        if new_stamp.equals(stamp) {
            None
        } else {
            Some(new_stamp)
        }
    }
}

/// Keys of global map entries.
pub trait MapKey {
    /// The key of the entry.
    spec fn spec_map_key(&self) -> Val;

    /// Returns the key of the entry.
    fn map_key(&self) -> (r: KeyObj)
        ensures
            r@ == self.spec_map_key(),
    ;
}

/// A map key made of a value.
pub struct MapKeyToObj<K>(pub K);

impl<K> MapKeyToObj<K> {
    /// Creates a map key of `key`.
    pub fn new(key: K) -> (r: Self)
        ensures
            r.0 == key,
    {
        MapKeyToObj(key)
    }
}

impl MapKey for MapKeyToObj<ValueObj> {
    open spec fn spec_map_key(&self) -> Val {
        self.0@
    }

    fn map_key(&self) -> (r: KeyObj) {
        KeyObj::new(self.0.copy())
    }
}

/// A map key made of a dynamic key.
pub struct MapKeyObjToObj(pub KeyObj);

impl MapKeyObjToObj {
    /// Creates a map key of `key`.
    pub fn new(key: KeyObj) -> (r: Self)
        ensures
            r.0@ == key@,
    {
        MapKeyObjToObj(key)
    }

    /// Creates a map key of the value `key`.
    pub fn from(key: ValueObj) -> (r: Self)
        ensures
            r.0@ == key@,
    {
        MapKeyObjToObj(KeyObj::new(key))
    }
}

impl MapKey for MapKeyObjToObj {
    open spec fn spec_map_key(&self) -> Val {
        self.0@
    }

    fn map_key(&self) -> (r: KeyObj) {
        self.0.copy()
    }
}

} // verus!
