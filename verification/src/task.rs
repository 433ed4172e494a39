//! Task output checkers.
use vstd::prelude::*;

use crate::value::{Val, ValueObj};

verus! {

/// The `Ok` part of a result value as an optional value: `Some(t)` for `Ok(t)`, `None` otherwise.
pub open spec fn spec_ok_part(v: Val) -> Option<Box<Val>> {
    match v {
        Val::Res(Ok(t)) => Some(t),
        _ => None,
    }
}

/// The `Err` part of a result value as an optional value: `Some(e)` for `Err(e)`, `None` otherwise.
pub open spec fn spec_err_part(v: Val) -> Option<Box<Val>> {
    match v {
        Val::Res(Err(e)) => Some(e),
        _ => None,
    }
}

/// Whether a value is an error result.
pub open spec fn spec_is_err(v: Val) -> bool {
    v matches Val::Res(Err(_))
}

/// Consistency checker for task outputs, producing and checking output stamps.
pub trait OutputChecker {
    /// The stamp of `output`.
    spec fn spec_stamp(&self, output: Val) -> Val;

    /// The inconsistency of `output` w.r.t. `stamp`: `Some(inconsistency)` if inconsistent, `None` if consistent.
    spec fn spec_check(&self, output: Val, stamp: Val) -> Option<Val>;

    /// Stamps `output` into a stamp.
    fn stamp(&self, output: &ValueObj) -> (r: ValueObj)
        ensures
            r@ == self.spec_stamp(output@),
    ;

    /// Checks whether `output` is inconsistent w.r.t. `stamp`, returning `Some(inconsistency)` if inconsistent,
    /// `None` if consistent.
    fn check(&self, output: &ValueObj, stamp: &ValueObj) -> (r: Option<ValueObj>)
        ensures
            r matches Some(i) ==> self.spec_check(output@, stamp@) == Some(i@),
            r is None ==> self.spec_check(output@, stamp@) is None,
    ;
}

/// Task output checker that checks by equality.
#[derive(Clone, Copy, PartialEq, Eq, Hash, Debug)]
pub struct EqualsChecker;

impl OutputChecker for EqualsChecker {
    open spec fn spec_stamp(&self, output: Val) -> Val {
        output
    }

    open spec fn spec_check(&self, output: Val, stamp: Val) -> Option<Val> {
        if output != stamp {
            Some(output)
        } else {
            None
        }
    }

    fn stamp(&self, output: &ValueObj) -> (r: ValueObj) {
        output.copy()
    }

    fn check(&self, output: &ValueObj, stamp: &ValueObj) -> (r: Option<ValueObj>) {
        if !output.equals(stamp) {
            Some(output.copy())
        } else {
            None
        }
    }
}

/// Returns the `Ok` part of `output` as an optional value.
fn ok_part(output: &ValueObj) -> (r: ValueObj)
    ensures
        r@ == Val::Opt(spec_ok_part(output@)),
{
    match output {
        ValueObj::Res(Ok(t)) => ValueObj::Opt(Some(Box::new((**t).copy()))),
        _ => ValueObj::Opt(None),
    }
}

/// Returns the `Err` part of `output` as an optional value.
fn err_part(output: &ValueObj) -> (r: ValueObj)
    ensures
        r@ == Val::Opt(spec_err_part(output@)),
{
    match output {
        ValueObj::Res(Err(e)) => ValueObj::Opt(Some(Box::new((**e).copy()))),
        _ => ValueObj::Opt(None),
    }
}

/// Returns whether `output` is an error result.
fn is_err(output: &ValueObj) -> (r: bool)
    ensures
        r == spec_is_err(output@),
{
    match output {
        ValueObj::Res(Err(_)) => true,
        _ => false,
    }
}

/// Task output checker that checks `Ok` by equality, but `Err` only by existence.
#[derive(Clone, Copy, PartialEq, Eq, Hash, Debug)]
pub struct OkEqualsChecker;

impl OutputChecker for OkEqualsChecker {
    open spec fn spec_stamp(&self, output: Val) -> Val {
        Val::Opt(spec_ok_part(output))
    }

    open spec fn spec_check(&self, output: Val, stamp: Val) -> Option<Val> {
        let new_stamp = Val::Opt(spec_ok_part(output));
        if new_stamp != stamp {
            Some(new_stamp)
        } else {
            None
        }
    }

    fn stamp(&self, output: &ValueObj) -> (r: ValueObj) {
        ok_part(output)
    }

    fn check(&self, output: &ValueObj, stamp: &ValueObj) -> (r: Option<ValueObj>) {
        let new_stamp = ok_part(output);
        if !new_stamp.equals(stamp) {
            Some(new_stamp)
        } else {
            None
        }
    }
}

/// Task output checker that checks `Err` by equality, but `Ok` only by existence.
#[derive(Clone, Copy, PartialEq, Eq, Hash, Debug)]
pub struct ErrEqualsChecker;

impl OutputChecker for ErrEqualsChecker {
    open spec fn spec_stamp(&self, output: Val) -> Val {
        Val::Opt(spec_err_part(output))
    }

    open spec fn spec_check(&self, output: Val, stamp: Val) -> Option<Val> {
        let new_stamp = Val::Opt(spec_err_part(output));
        if new_stamp != stamp {
            Some(new_stamp)
        } else {
            None
        }
    }

    fn stamp(&self, output: &ValueObj) -> (r: ValueObj) {
        err_part(output)
    }

    fn check(&self, output: &ValueObj, stamp: &ValueObj) -> (r: Option<ValueObj>) {
        let new_stamp = err_part(output);
        if !new_stamp.equals(stamp) {
            Some(new_stamp)
        } else {
            None
        }
    }
}

/// Task output checker that checks whether a result changes from `Ok` to `Err` or vice versa.
#[derive(Clone, Copy, PartialEq, Eq, Hash, Debug)]
pub struct ResultChecker;

impl OutputChecker for ResultChecker {
    open spec fn spec_stamp(&self, output: Val) -> Val {
        Val::Bool(spec_is_err(output))
    }

    open spec fn spec_check(&self, output: Val, stamp: Val) -> Option<Val> {
        let new_stamp = Val::Bool(spec_is_err(output));
        if new_stamp != stamp {
            Some(new_stamp)
        } else {
            None
        }
    }

    fn stamp(&self, output: &ValueObj) -> (r: ValueObj) {
        ValueObj::Bool(is_err(output))
    }

    fn check(&self, output: &ValueObj, stamp: &ValueObj) -> (r: Option<ValueObj>) {
        let new_stamp = ValueObj::Bool(is_err(output));
        if !new_stamp.equals(stamp) {
            Some(new_stamp)
        } else {
            None
        }
    }
}

/// Task output checker that marks task dependencies as always consistent, ignoring task outputs.
#[derive(Clone, Copy, PartialEq, Eq, Hash, Debug)]
pub struct AlwaysConsistent;

impl OutputChecker for AlwaysConsistent {
    open spec fn spec_stamp(&self, output: Val) -> Val {
        Val::Unit
    }

    open spec fn spec_check(&self, output: Val, stamp: Val) -> Option<Val> {
        None
    }

    fn stamp(&self, output: &ValueObj) -> (r: ValueObj) {
        ValueObj::Unit
    }

    fn check(&self, output: &ValueObj, stamp: &ValueObj) -> (r: Option<ValueObj>) {
        None
    }
}

/// Object form of the task output checkers, stored in task dependencies and build events.
#[derive(Clone, Copy, PartialEq, Eq, Hash, Debug)]
pub enum OutputCheckerObj {
    Equals,
    OkEquals,
    ErrEquals,
    Result,
    AlwaysConsistent,
}

impl OutputCheckerObj {
    /// The stamp that this checker produces for `output`.
    pub open spec fn spec_stamp_obj(self, output: Val) -> Val {
        match self {
            OutputCheckerObj::Equals => EqualsChecker.spec_stamp(output),
            OutputCheckerObj::OkEquals => OkEqualsChecker.spec_stamp(output),
            OutputCheckerObj::ErrEquals => ErrEqualsChecker.spec_stamp(output),
            OutputCheckerObj::Result => ResultChecker.spec_stamp(output),
            OutputCheckerObj::AlwaysConsistent => AlwaysConsistent.spec_stamp(output),
        }
    }

    /// The inconsistency that this checker finds for `output` w.r.t. `stamp`.
    pub open spec fn spec_check_obj(self, output: Val, stamp: Val) -> Option<Val> {
        match self {
            OutputCheckerObj::Equals => EqualsChecker.spec_check(output, stamp),
            OutputCheckerObj::OkEquals => OkEqualsChecker.spec_check(output, stamp),
            OutputCheckerObj::ErrEquals => ErrEqualsChecker.spec_check(output, stamp),
            OutputCheckerObj::Result => ResultChecker.spec_check(output, stamp),
            OutputCheckerObj::AlwaysConsistent => AlwaysConsistent.spec_check(output, stamp),
        }
    }

    /// Stamps `output` with this checker.
    pub fn stamp_obj(&self, output: &ValueObj) -> (r: ValueObj)
        ensures
            r@ == self.spec_stamp_obj(output@),
    {
        match self {
            OutputCheckerObj::Equals => EqualsChecker.stamp(output),
            OutputCheckerObj::OkEquals => OkEqualsChecker.stamp(output),
            OutputCheckerObj::ErrEquals => ErrEqualsChecker.stamp(output),
            OutputCheckerObj::Result => ResultChecker.stamp(output),
            OutputCheckerObj::AlwaysConsistent => AlwaysConsistent.stamp(output),
        }
    }

    /// Checks `output` against `stamp` with this checker, returning `Some(inconsistency)` if inconsistent, `None` if
    /// consistent.
    pub fn check_obj(&self, output: &ValueObj, stamp: &ValueObj) -> (r: Option<ValueObj>)
        ensures
            r matches Some(i) ==> self.spec_check_obj(output@, stamp@) == Some(i@),
            r is None ==> self.spec_check_obj(output@, stamp@) is None,
    {
        match self {
            OutputCheckerObj::Equals => EqualsChecker.check(output, stamp),
            OutputCheckerObj::OkEquals => OkEqualsChecker.check(output, stamp),
            OutputCheckerObj::ErrEquals => ErrEqualsChecker.check(output, stamp),
            OutputCheckerObj::Result => ResultChecker.check(output, stamp),
            OutputCheckerObj::AlwaysConsistent => AlwaysConsistent.check(output, stamp),
        }
    }
}

impl OutputChecker for OutputCheckerObj {
    open spec fn spec_stamp(&self, output: Val) -> Val {
        self.spec_stamp_obj(output)
    }

    open spec fn spec_check(&self, output: Val, stamp: Val) -> Option<Val> {
        self.spec_check_obj(output, stamp)
    }

    fn stamp(&self, output: &ValueObj) -> (r: ValueObj) {
        self.stamp_obj(output)
    }

    fn check(&self, output: &ValueObj, stamp: &ValueObj) -> (r: Option<ValueObj>) {
        self.check_obj(output, stamp)
    }
}

/// A checker is consistent with its own stamps: checking an output against the stamp made of that same output finds
/// no inconsistency.
pub proof fn lemma_stamp_then_check_consistent(checker: OutputCheckerObj, output: Val)
    ensures
        checker.spec_check_obj(output, checker.spec_stamp_obj(output)) is None,
{
}

/// The `Err` equality checker tells errors apart: checking an error output against the stamp of an earlier error
/// output finds an inconsistency exactly when the errors differ, and then reports the new error.
pub proof fn lemma_err_equals_tells_errors_apart(before: Val, after: Val)
    ensures
        (ErrEqualsChecker.spec_check(
            Val::Res(Err(Box::new(after))),
            ErrEqualsChecker.spec_stamp(Val::Res(Err(Box::new(before)))),
        ) is Some) <==> before != after,
        before != after ==> ErrEqualsChecker.spec_check(
            Val::Res(Err(Box::new(after))),
            ErrEqualsChecker.spec_stamp(Val::Res(Err(Box::new(before)))),
        ) == Some(Val::Opt(Some(Box::new(after)))),
        OutputCheckerObj::ErrEquals.spec_check_obj(
            Val::Res(Err(Box::new(after))),
            OutputCheckerObj::ErrEquals.spec_stamp_obj(Val::Res(Err(Box::new(before)))),
        ) == ErrEqualsChecker.spec_check(
            Val::Res(Err(Box::new(after))),
            ErrEqualsChecker.spec_stamp(Val::Res(Err(Box::new(before)))),
        ),
{
    if before != after {
        assert(Box::new(before) != Box::new(after));
    }
}

/// The `Ok` equality checker tells successful outputs apart: checking an `Ok` output against the stamp of an earlier
/// `Ok` output finds an inconsistency exactly when the values differ, and then reports the new value.
pub proof fn lemma_ok_equals_tells_values_apart(before: Val, after: Val)
    ensures
        (OkEqualsChecker.spec_check(
            Val::Res(Ok(Box::new(after))),
            OkEqualsChecker.spec_stamp(Val::Res(Ok(Box::new(before)))),
        ) is Some) <==> before != after,
        before != after ==> OkEqualsChecker.spec_check(
            Val::Res(Ok(Box::new(after))),
            OkEqualsChecker.spec_stamp(Val::Res(Ok(Box::new(before)))),
        ) == Some(Val::Opt(Some(Box::new(after)))),
{
    if before != after {
        assert(Box::new(before) != Box::new(after));
    }
}

/// A checker finds an inconsistency exactly when the stamp of the new output differs from the old stamp.
pub proof fn lemma_check_is_stamp_difference(checker: OutputCheckerObj, output: Val, stamp: Val)
    requires
        !(checker is AlwaysConsistent),
    ensures
        (checker.spec_check_obj(output, stamp) is None) <==> (checker.spec_stamp_obj(output) == stamp),
{
}

} // verus!
