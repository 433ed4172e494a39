//! Resources: global mutable state that tasks read from and write to, such as files or entries of a global map.
use vstd::prelude::*;

use crate::value::{KeyObj, Val, ValueObj};

pub mod file;
pub mod map;

verus! {

/// Object form of the resource checkers, stored in resource dependencies and build events.
#[derive(Clone, Copy, PartialEq, Eq, Hash, Debug)]
pub enum ResourceCheckerObj {
    /// Filesystem checker comparing last modified dates.
    Modified,
    /// Filesystem checker comparing whether a file or directory exists.
    Exists,
    /// Filesystem checker comparing hashes of file contents and directory listings.
    Hash,
    /// Global map checker comparing the value stored under the key.
    MapEquals,
}

/// Consistency checker for resources: it stamps a resource, and a later stamp that differs from the stored one makes a
/// dependency to the resource inconsistent.
pub trait ResourceChecker {
    /// The object form of this checker.
    spec fn spec_obj(&self) -> ResourceCheckerObj;

    /// Returns the object form of this checker, stored in dependencies and events.
    fn to_obj(&self) -> (r: ResourceCheckerObj)
        ensures
            r == self.spec_obj(),
    ;

    /// Checks `new_stamp`, a fresh stamp of a resource, against `stamp`, its stored stamp. Returns `Some(new_stamp)`
    /// when they differ (the inconsistency), `None` when they are equal.
    fn check_stamp(&self, new_stamp: &ValueObj, stamp: &ValueObj) -> (r: Option<ValueObj>)
        ensures
            r is None <==> new_stamp@ == stamp@,
            r matches Some(s) ==> s@ == new_stamp@,
    {
        if new_stamp.equals(stamp) {
            None
        } else {
            Some(new_stamp.copy())
        }
    }
}

impl ResourceChecker for map::MapEqualsChecker {
    open spec fn spec_obj(&self) -> ResourceCheckerObj {
        ResourceCheckerObj::MapEquals
    }

    fn to_obj(&self) -> (r: ResourceCheckerObj) {
        ResourceCheckerObj::MapEquals
    }
}

/// The view of the outcome of reading or stamping a resource.
pub open spec fn value_outcome(r: Result<ValueObj, file::FsError>) -> Result<Val, file::FsError> {
    match r {
        Ok(v) => Ok(v@),
        Err(e) => Err(e),
    }
}

/// Access to the global mutable state that resources live in.
///
/// An implementation states, in `read_gives`, `write_gives` and `stamp_gives`, how the state changes and what it
/// answers when a resource is read, written or stamped; the methods meet those statements. Where the answer depends
/// on the world outside, such as a filesystem, the statement may leave it open.
pub trait ResourceState: Sized {
    /// The invariant of the state.
    spec fn state_inv(&self) -> bool;

    /// `self` is this state after reading `resource` answered `outcome`, having been `before`.
    spec fn read_gives(&self, before: Self, resource: Val, outcome: Result<Val, file::FsError>) -> bool;

    /// `self` is this state after writing `content` to `resource` answered `outcome`, having been `before`.
    spec fn write_gives(&self, before: Self, resource: Val, content: Val, outcome: Result<(), file::FsError>) -> bool;

    /// `self` is this state after stamping `resource` with `checker` answered `outcome`, having been `before`.
    spec fn stamp_gives(
        &self,
        before: Self,
        resource: Val,
        checker: ResourceCheckerObj,
        outcome: Result<Val, file::FsError>,
    ) -> bool;

    /// Reads the current content of `resource`.
    fn read_resource(&mut self, resource: &KeyObj) -> (r: Result<ValueObj, file::FsError>)
        requires
            old(self).state_inv(),
        ensures
            final(self).state_inv(),
            final(self).read_gives(*old(self), resource@, value_outcome(r)),
    ;

    /// Writes `content` to `resource`.
    fn write_resource(&mut self, resource: &KeyObj, content: &ValueObj) -> (r: Result<(), file::FsError>)
        requires
            old(self).state_inv(),
        ensures
            final(self).state_inv(),
            final(self).write_gives(*old(self), resource@, content@, r),
    ;

    /// Stamps `resource` in its current state with `checker`.
    fn stamp_resource(&mut self, resource: &KeyObj, checker: ResourceCheckerObj) -> (r: Result<
        ValueObj,
        file::FsError,
    >)
        requires
            old(self).state_inv(),
        ensures
            final(self).state_inv(),
            final(self).stamp_gives(*old(self), resource@, checker, value_outcome(r)),
    ;
}

} // verus!
