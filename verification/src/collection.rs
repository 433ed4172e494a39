//! A map from types to state of any kind: the state of each type of resources.
use vstd::prelude::*;

use crate::resource::file::{ErrorKind, FsError};
use crate::resource::map::{GlobalMap, MapEqualsChecker};
use crate::resource::{ResourceCheckerObj, ResourceState};
use crate::value::{KeyObj, Val, ValueObj};

verus! {

/// State of any kind: a value or a global map.
pub enum AnyValue {
    Value(ValueObj),
    Global(GlobalMap),
}

/// The kinds of state.
#[derive(Clone, Copy, PartialEq, Eq, Structural, Debug)]
pub enum AnyKind {
    Value,
    Global,
}

/// Mathematical view of state of any kind.
pub enum AnyView {
    Value(Val),
    Global(Map<Val, Val>),
}

impl View for AnyValue {
    type V = AnyView;

    open spec fn view(&self) -> AnyView {
        match self {
            AnyValue::Value(v) => AnyView::Value(v@),
            AnyValue::Global(m) => AnyView::Global(m@),
        }
    }
}

/// The kind of state `v`.
pub open spec fn kind_of(v: AnyView) -> AnyKind {
    match v {
        AnyView::Value(_) => AnyKind::Value,
        AnyView::Global(_) => AnyKind::Global,
    }
}

/// State `v` is well formed: a global map in it has distinct keys.
pub open spec fn any_wf(v: AnyValue) -> bool {
    match v {
        AnyValue::Value(_) => true,
        AnyValue::Global(m) => m.wf(),
    }
}

/// The default state of `kind`: the unit value, or an empty map.
pub open spec fn default_of(kind: AnyKind) -> AnyView {
    match kind {
        AnyKind::Value => AnyView::Value(Val::Unit),
        AnyKind::Global => AnyView::Global(Map::empty()),
    }
}

impl AnyValue {
    /// Returns `true` if this state is of `kind`.
    pub fn is(&self, kind: AnyKind) -> (r: bool)
        ensures
            r == (kind_of(self@) == kind),
    {
        match (self, kind) {
            (AnyValue::Value(_), AnyKind::Value) => true,
            (AnyValue::Global(_), AnyKind::Global) => true,
            _ => false,
        }
    }

    /// Creates the default state of `kind`.
    pub fn default_of(kind: AnyKind) -> (r: AnyValue)
        ensures
            r@ == default_of(kind),
            any_wf(r),
    {
        match kind {
            AnyKind::Value => AnyValue::Value(ValueObj::Unit),
            AnyKind::Global => AnyValue::Global(GlobalMap::new()),
        }
    }
}

/// Map from types, identified by keys, to state of any kind. No type occurs twice.
pub struct TypeToAnyMap {
    entries: Vec<(KeyObj, AnyValue)>,
}

/// The types of `entries` are distinct.
pub open spec fn distinct_types(entries: Seq<(KeyObj, AnyValue)>) -> bool {
    forall|i: int, j: int|
        0 <= i < entries.len() && 0 <= j < entries.len() && i != j ==> (#[trigger] entries[i]).0@
            != (#[trigger] entries[j]).0@
}

/// The map that `entries` holds.
pub open spec fn types_of(entries: Seq<(KeyObj, AnyValue)>) -> Map<Val, AnyView> {
    Map::new(
        |k: Val| exists|i: int| 0 <= i < entries.len() && entries[i].0@ == k,
        |k: Val| entries[choose|i: int| 0 <= i < entries.len() && entries[i].0@ == k].1@,
    )
}

/// With distinct types, the map holds the state of the entry of each type.
proof fn lemma_types_of(entries: Seq<(KeyObj, AnyValue)>)
    requires
        distinct_types(entries),
    ensures
        forall|i: int| 0 <= i < entries.len() ==> #[trigger] types_of(entries).contains_key(entries[i].0@)
            && types_of(entries)[entries[i].0@] == entries[i].1@,
{
    assert forall|i: int| 0 <= i < entries.len() implies #[trigger] types_of(entries).contains_key(entries[i].0@)
        && types_of(entries)[entries[i].0@] == entries[i].1@ by {
        let k = entries[i].0@;
        let j = choose|j: int| 0 <= j < entries.len() && entries[j].0@ == k;
        assert(i == j);
    }
}

/// Replacing or adding the state of type `k` in `entries` at position `i` updates the map at `k`.
proof fn lemma_types_update(entries: Seq<(KeyObj, AnyValue)>, i: int, entry: (KeyObj, AnyValue))
    requires
        distinct_types(entries),
        0 <= i <= entries.len(),
        i < entries.len() ==> entries[i].0@ == entry.0@,
        i == entries.len() ==> !types_of(entries).contains_key(entry.0@),
    ensures
        distinct_types(if i < entries.len() { entries.update(i, entry) } else { entries.push(entry) }),
        types_of(if i < entries.len() { entries.update(i, entry) } else { entries.push(entry) }) == types_of(
            entries,
        ).insert(entry.0@, entry.1@),
{
    let updated = if i < entries.len() {
        entries.update(i, entry)
    } else {
        entries.push(entry)
    };
    assert(updated.len() == if i < entries.len() { entries.len() } else { entries.len() + 1 });
    assert forall|a: int, b: int| 0 <= a < updated.len() && 0 <= b < updated.len() && a != b implies (
    #[trigger] updated[a]).0@ != (#[trigger] updated[b]).0@ by {
        if a != i && b != i {
            assert(updated[a] == entries[a] && updated[b] == entries[b]);
        } else if a == i {
            assert(updated[b] == entries[b]);
            if i == entries.len() {
                assert(types_of(entries).contains_key(entries[b].0@));
            }
        } else {
            assert(updated[a] == entries[a]);
            if i == entries.len() {
                assert(types_of(entries).contains_key(entries[a].0@));
            }
        }
    }
    lemma_types_of(entries);
    lemma_types_of(updated);
    assert forall|k: Val| #[trigger] types_of(updated).contains_key(k) <==> types_of(entries).insert(
        entry.0@,
        entry.1@,
    ).contains_key(k) by {
        if types_of(updated).contains_key(k) {
            let j = choose|j: int| 0 <= j < updated.len() && updated[j].0@ == k;
            if j != i {
                assert(updated[j] == entries[j]);
            }
        }
        if types_of(entries).contains_key(k) {
            let j = choose|j: int| 0 <= j < entries.len() && entries[j].0@ == k;
            if j != i {
                assert(updated[j] == entries[j]);
            } else {
                assert(updated[i].0@ == k);
            }
        }
        if k == entry.0@ {
            assert(updated[i].0@ == k);
        }
    }
    assert forall|k: Val| #[trigger] types_of(updated).contains_key(k) implies types_of(updated)[k] == types_of(
        entries,
    ).insert(entry.0@, entry.1@)[k] by {
        let j = choose|j: int| 0 <= j < updated.len() && updated[j].0@ == k;
        if j != i {
            assert(updated[j] == entries[j]);
        }
    }
    assert(types_of(updated) =~= types_of(entries).insert(entry.0@, entry.1@));
}

impl View for TypeToAnyMap {
    type V = Map<Val, AnyView>;

    closed spec fn view(&self) -> Map<Val, AnyView> {
        types_of(self.entries@)
    }
}

impl TypeToAnyMap {
    /// No type occurs twice, and every global map in it has distinct keys.
    pub closed spec fn wf(&self) -> bool {
        &&& distinct_types(self.entries@)
        &&& forall|i: int| 0 <= i < self.entries@.len() ==> any_wf(#[trigger] self.entries@[i].1)
    }

    /// Creates an empty map.
    pub fn new() -> (r: TypeToAnyMap)
        ensures
            r.wf(),
            r@ == Map::<Val, AnyView>::empty(),
    {
        let r = TypeToAnyMap { entries: Vec::new() };
        assert(r@ =~= Map::<Val, AnyView>::empty());
        r
    }

    /// The position of the entry of type `ty`, or `None` if there is none.
    fn position(&self, ty: &KeyObj) -> (r: Option<usize>)
        requires
            self.wf(),
        ensures
            r is None <==> !self@.contains_key(ty@),
            r matches Some(i) ==> i < self.entries@.len() && self.entries@[i as int].0@ == ty@ && self@[ty@]
                == self.entries@[i as int].1@,
    {
        proof {
            lemma_types_of(self.entries@);
        }
        let mut i: usize = 0;
        while i < self.entries.len()
            invariant
                self.wf(),
                i <= self.entries@.len(),
                forall|j: int| 0 <= j < i ==> self.entries@[j].0@ != ty@,
            decreases self.entries@.len() - i,
        {
            if self.entries[i].0.equals(ty) {
                proof {
                    lemma_types_of(self.entries@);
                }
                return Some(i);
            }
            i = i + 1;
        }
        None
    }

    /// Gets whether state for type `ty` exists.
    pub fn has_state(&self, ty: &KeyObj) -> (r: bool)
        requires
            self.wf(),
        ensures
            r == self@.contains_key(ty@),
    {
        self.position(ty).is_some()
    }

    /// Gets whether state for type `ty` exists and is of `kind`.
    pub fn is_of_type(&self, ty: &KeyObj, kind: AnyKind) -> (r: bool)
        requires
            self.wf(),
        ensures
            r == (self@.contains_key(ty@) && kind_of(self@[ty@]) == kind),
    {
        match self.position(ty) {
            Some(i) => self.entries[i].1.is(kind),
            None => false,
        }
    }

    /// Gets the state for type `ty`, returning `Some(&state)` if it exists, or `None` otherwise.
    pub fn get_any(&self, ty: &KeyObj) -> (r: Option<&AnyValue>)
        requires
            self.wf(),
        ensures
            r is Some <==> self@.contains_key(ty@),
            r matches Some(v) ==> v@ == self@[ty@] && any_wf(*v),
    {
        match self.position(ty) {
            Some(i) => Some(&self.entries[i].1),
            None => None,
        }
    }

    /// Gets the state for type `ty`, returning `Some(&state)` if it exists, or `None` otherwise.
    pub fn get_boxed_any(&self, ty: &KeyObj) -> (r: Option<&AnyValue>)
        requires
            self.wf(),
        ensures
            r is Some <==> self@.contains_key(ty@),
            r matches Some(v) ==> v@ == self@[ty@] && any_wf(*v),
    {
        self.get_any(ty)
    }

    /// Gets the state of `kind` for type `ty`, returning `Some(&state)` if state for `ty` exists and is of `kind`, or
    /// `None` otherwise.
    pub fn get(&self, ty: &KeyObj, kind: AnyKind) -> (r: Option<&AnyValue>)
        requires
            self.wf(),
        ensures
            r is Some <==> self@.contains_key(ty@) && kind_of(self@[ty@]) == kind,
            r matches Some(v) ==> v@ == self@[ty@] && any_wf(*v),
    {
        match self.get_any(ty) {
            Some(v) => if v.is(kind) {
                Some(v)
            } else {
                None
            },
            None => None,
        }
    }

    /// Gets the mutable state for type `ty`, returning `Some(&mut state)` if it exists, or `None` otherwise.
    pub fn get_any_mut(&mut self, ty: &KeyObj) -> (r: Option<&mut AnyValue>)
        requires
            old(self).wf(),
        ensures
            r is Some <==> old(self)@.contains_key(ty@),
            r matches Some(v) ==> (*v)@ == old(self)@[ty@] && any_wf(*v),
            r matches Some(v) ==> final(self)@ == old(self)@.insert(ty@, (*final(v))@) && (any_wf(*final(v))
                ==> final(self).wf()),
            r is None ==> *final(self) == *old(self),
    {
        match self.position(ty) {
            Some(i) => {
                let ghost entries = self.entries@;
                let r = &mut self.entries[i].1;
                proof {
                    let entry = (entries[i as int].0, *final(r));
                    lemma_types_update(entries, i as int, entry);
                }
                Some(r)
            },
            None => None,
        }
    }

    /// Gets the mutable state for type `ty`, returning `Some(&mut state)` if it exists, or `None` otherwise.
    pub fn get_boxed_any_mut(&mut self, ty: &KeyObj) -> (r: Option<&mut AnyValue>)
        requires
            old(self).wf(),
        ensures
            r is Some <==> old(self)@.contains_key(ty@),
            r matches Some(v) ==> (*v)@ == old(self)@[ty@] && any_wf(*v),
            r matches Some(v) ==> final(self)@ == old(self)@.insert(ty@, (*final(v))@) && (any_wf(*final(v))
                ==> final(self).wf()),
            r is None ==> *final(self) == *old(self),
    {
        self.get_any_mut(ty)
    }

    /// Gets the mutable state of `kind` for type `ty`, returning `Some(&mut state)` if state for `ty` exists and is
    /// of `kind`, or `None` otherwise.
    pub fn get_mut(&mut self, ty: &KeyObj, kind: AnyKind) -> (r: Option<&mut AnyValue>)
        requires
            old(self).wf(),
        ensures
            r is Some <==> old(self)@.contains_key(ty@) && kind_of(old(self)@[ty@]) == kind,
            r matches Some(v) ==> (*v)@ == old(self)@[ty@] && any_wf(*v),
            r matches Some(v) ==> final(self)@ == old(self)@.insert(ty@, (*final(v))@) && (any_wf(*final(v))
                ==> final(self).wf()),
            r is None ==> *final(self) == *old(self),
    {
        if self.is_of_type(ty, kind) {
            self.get_any_mut(ty)
        } else {
            None
        }
    }

    /// Sets the state for type `ty` to `value`.
    pub fn set_boxed_any(&mut self, ty: &KeyObj, value: AnyValue)
        requires
            old(self).wf(),
            any_wf(value),
        ensures
            final(self).wf(),
            final(self)@ == old(self)@.insert(ty@, value@),
    {
        let ghost entries = self.entries@;
        match self.position(ty) {
            Some(i) => {
                let ghost entry = (entries[i as int].0, value);
                self.entries[i].1 = value;
                proof {
                    lemma_types_update(entries, i as int, entry);
                    assert(self.entries@ == entries.update(i as int, entry));
                }
            },
            None => {
                let entry = (ty.copy(), value);
                proof {
                    lemma_types_update(entries, entries.len() as int, entry);
                }
                self.entries.push(entry);
            },
        }
        proof {
            assert forall|i: int| 0 <= i < self.entries@.len() implies any_wf(#[trigger] self.entries@[i].1) by {
                if i < entries.len() && self.entries@[i].1 != value {
                    assert(self.entries@[i] == entries[i]);
                }
            }
        }
    }

    /// Sets the state for type `ty` to `value`.
    pub fn set(&mut self, ty: &KeyObj, value: AnyValue)
        requires
            old(self).wf(),
            any_wf(value),
        ensures
            final(self).wf(),
            final(self)@ == old(self)@.insert(ty@, value@),
    {
        self.set_boxed_any(ty, value)
    }

    /// Makes the state for type `ty` of `kind`: sets it to the default of `kind` if there is none, or if it is of
    /// another kind. Returns its position.
    fn ensure_inserted_and_correct_type(&mut self, ty: &KeyObj, kind: AnyKind) -> (r: usize)
        requires
            old(self).wf(),
        ensures
            final(self).wf(),
            r < final(self).entries@.len(),
            final(self).entries@[r as int].0@ == ty@,
            final(self)@[ty@] == final(self).entries@[r as int].1@,
            final(self)@ == (if old(self)@.contains_key(ty@) && kind_of(old(self)@[ty@]) == kind {
                old(self)@
            } else {
                old(self)@.insert(ty@, default_of(kind))
            }),
    {
        if !self.is_of_type(ty, kind) {
            self.set_boxed_any(ty, AnyValue::default_of(kind));
        }
        proof {
            if old(self)@.contains_key(ty@) && kind_of(old(self)@[ty@]) == kind {
                assert(self@ == old(self)@);
            }
        }
        match self.position(ty) {
            Some(i) => i,
            None => {
                proof {
                    assert(self@.contains_key(ty@));
                }
                vstd::pervasive::unreached()
            },
        }
    }

    /// Gets the state of `kind` for type `ty`. If there is no state for `ty`, or if it is of another kind, first sets
    /// it to the default of `kind`.
    pub fn get_or_set_default(&mut self, ty: &KeyObj, kind: AnyKind) -> (r: &AnyValue)
        requires
            old(self).wf(),
        ensures
            final(self).wf(),
            final(self)@ == (if old(self)@.contains_key(ty@) && kind_of(old(self)@[ty@]) == kind {
                old(self)@
            } else {
                old(self)@.insert(ty@, default_of(kind))
            }),
            r@ == final(self)@[ty@],
            kind_of(r@) == kind,
            any_wf(*r),
    {
        let i = self.ensure_inserted_and_correct_type(ty, kind);
        &self.entries[i].1
    }

    /// Gets the mutable state of `kind` for type `ty`. If there is no state for `ty`, or if it is of another kind,
    /// first sets it to the default of `kind`.
    pub fn get_or_set_default_mut(&mut self, ty: &KeyObj, kind: AnyKind) -> (r: &mut AnyValue)
        requires
            old(self).wf(),
        ensures
            (*r)@ == (if old(self)@.contains_key(ty@) && kind_of(old(self)@[ty@]) == kind {
                old(self)@[ty@]
            } else {
                default_of(kind)
            }),
            any_wf(*r),
            final(self)@ == old(self)@.insert(ty@, (*final(r))@),
            any_wf(*final(r)) ==> final(self).wf(),
    {
        let i = self.ensure_inserted_and_correct_type(ty, kind);
        let ghost entries = self.entries@;
        let ghost mid = *self;
        let r = &mut self.entries[i].1;
        proof {
            let entry = (entries[i as int].0, *final(r));
            lemma_types_update(entries, i as int, entry);
            assert(mid@ =~= old(self)@.insert(ty@, mid@[ty@]));
        }
        r
    }
}

/// The key of the type of global map resources.
pub open spec fn global_map_type() -> Val {
    Val::Unit
}

/// Access to the global map of the map resources.
pub trait GetGlobalMap {
    /// The invariant of the state that holds the global map.
    spec fn global_map_inv(&self) -> bool;

    /// Gets the global map.
    fn get_global_map(&mut self) -> (r: &GlobalMap)
        requires
            old(self).global_map_inv(),
        ensures
            final(self).global_map_inv(),
            r.wf(),
    ;

    /// Gets the mutable global map.
    fn get_global_map_mut(&mut self) -> (r: &mut GlobalMap)
        requires
            old(self).global_map_inv(),
        ensures
            r.wf(),
            (*final(r)).wf() ==> final(self).global_map_inv(),
    ;
}

impl TypeToAnyMap {
    /// The global map of the map resources, or the empty map if there is none yet.
    pub open spec fn global_map(&self) -> Map<Val, Val> {
        if self@.contains_key(global_map_type()) {
            match self@[global_map_type()] {
                AnyView::Global(m) => m,
                AnyView::Value(_) => Map::empty(),
            }
        } else {
            Map::empty()
        }
    }
}

impl GetGlobalMap for TypeToAnyMap {
    open spec fn global_map_inv(&self) -> bool {
        self.wf()
    }

    fn get_global_map(&mut self) -> (r: &GlobalMap)
        ensures
            final(self).wf(),
            r@ == old(self).global_map(),
            final(self).global_map() == old(self).global_map(),
    {
        let ty = KeyObj::new(ValueObj::Unit);
        match self.get_or_set_default(&ty, AnyKind::Global) {
            AnyValue::Global(m) => m,
            AnyValue::Value(_) => vstd::pervasive::unreached(),
        }
    }

    fn get_global_map_mut(&mut self) -> (r: &mut GlobalMap)
        ensures
            (*r)@ == old(self).global_map(),
            final(self).global_map() == (*final(r))@,
            (*final(r)).wf() ==> final(self).wf(),
    {
        let ty = KeyObj::new(ValueObj::Unit);
        match self.get_or_set_default_mut(&ty, AnyKind::Global) {
            AnyValue::Global(m) => m,
            AnyValue::Value(_) => vstd::pervasive::unreached(),
        }
    }
}

/// Resources in a map of resource state are entries of its global map: reading gives the value of the entry, if any,
/// writing sets it, and the map checker stamps it. Other checkers are not supported.
impl ResourceState for TypeToAnyMap {
    open spec fn state_inv(&self) -> bool {
        self.wf()
    }

    open spec fn read_gives(&self, before: Self, resource: Val, outcome: Result<Val, FsError>) -> bool {
        &&& self.global_map() == before.global_map()
        &&& outcome == Ok::<Val, FsError>(crate::resource::map::map_stamp(before.global_map(), resource))
    }

    open spec fn write_gives(&self, before: Self, resource: Val, content: Val, outcome: Result<(), FsError>) -> bool {
        &&& outcome is Ok
        &&& self.global_map() == before.global_map().insert(resource, content)
    }

    open spec fn stamp_gives(
        &self,
        before: Self,
        resource: Val,
        checker: ResourceCheckerObj,
        outcome: Result<Val, FsError>,
    ) -> bool {
        &&& self.global_map() == before.global_map()
        &&& checker == ResourceCheckerObj::MapEquals ==> outcome == Ok::<Val, FsError>(
            crate::resource::map::map_stamp(before.global_map(), resource),
        )
        &&& checker != ResourceCheckerObj::MapEquals ==> outcome == Err::<Val, FsError>(FsError(ErrorKind::Unsupported))
    }

    fn read_resource(&mut self, resource: &KeyObj) -> (r: Result<ValueObj, FsError>)
        ensures
            r matches Ok(v) && v@ == crate::resource::map::map_stamp(old(self).global_map(), resource@),
            final(self).global_map() == old(self).global_map(),
    {
        let map = self.get_global_map();
        match map.get(resource) {
            Some(v) => Ok(ValueObj::some(v.copy())),
            None => Ok(ValueObj::Opt(None)),
        }
    }

    fn write_resource(&mut self, resource: &KeyObj, content: &ValueObj) -> (r: Result<(), FsError>)
        ensures
            r is Ok,
            final(self).global_map() == old(self).global_map().insert(resource@, content@),
    {
        let map = self.get_global_map_mut();
        map.insert(resource.copy(), content.copy());
        Ok(())
    }

    fn stamp_resource(&mut self, resource: &KeyObj, checker: ResourceCheckerObj) -> (r: Result<ValueObj, FsError>)
        ensures
            final(self).global_map() == old(self).global_map(),
            checker == ResourceCheckerObj::MapEquals ==> (r matches Ok(v) && v@
                == crate::resource::map::map_stamp(old(self).global_map(), resource@)),
            checker != ResourceCheckerObj::MapEquals ==> r == Err::<ValueObj, FsError>(FsError(ErrorKind::Unsupported)),
    {
        match checker {
            ResourceCheckerObj::MapEquals => {
                let map = self.get_global_map();
                Ok(MapEqualsChecker.stamp(resource, map))
            },
            _ => Err(FsError::new(ErrorKind::Unsupported)),
        }
    }
}

/// Reading a map resource gives back what was last written to it: after writing `content` to `resource`, reading it
/// gives `Some(content)`.
pub proof fn lemma_read_after_write(map: Map<Val, Val>, resource: Val, content: Val)
    ensures
        crate::resource::map::map_stamp(map.insert(resource, content), resource) == Val::Opt(Some(Box::new(content))),
{
}

/// Writing a map resource leaves the other map resources as they were.
pub proof fn lemma_write_keeps_others(map: Map<Val, Val>, resource: Val, content: Val, other: Val)
    requires
        other != resource,
    ensures
        crate::resource::map::map_stamp(map.insert(resource, content), other) == crate::resource::map::map_stamp(
            map,
            other,
        ),
{
}

} // verus!
