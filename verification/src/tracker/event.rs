//! A tracker that stores build events, for checking after a build that it was incremental and correct.
use vstd::prelude::*;
use vstd::std_specs::iter::IteratorSpec;

use std::ops::RangeInclusive;

use crate::resource::ResourceCheckerObj;
use crate::store::lemma_take_filter_step;
use crate::task::OutputCheckerObj;
use crate::resource::file::FsError;
use crate::tracker::{Tracker, TrackEvent};
use crate::value::{KeyObj, Val, ValueObj};
use crate::Task;

verus! {

/// Start: require `task` using `checker`.
#[derive(Debug)]
pub struct RequireStart {
    pub task: KeyObj,
    pub checker: OutputCheckerObj,
    pub index: usize,
}

/// End: required `task`, using `checker` to create `stamp`, resulting in `output`.
#[derive(Debug)]
pub struct RequireEnd {
    pub task: KeyObj,
    pub checker: OutputCheckerObj,
    pub stamp: ValueObj,
    pub output: ValueObj,
    pub index: usize,
}

/// Start: read or write `resource` using `checker`.
#[derive(Debug)]
pub struct ResourceStart {
    pub resource: KeyObj,
    pub checker: ResourceCheckerObj,
    pub index: usize,
}

/// End: read or written `resource`, using `checker` to create `stamp`.
#[derive(Debug)]
pub struct ResourceEnd {
    pub resource: KeyObj,
    pub checker: ResourceCheckerObj,
    pub stamp: ValueObj,
    pub index: usize,
}

/// Start: execute `task`.
#[derive(Debug)]
pub struct ExecuteStart {
    pub task: KeyObj,
    pub index: usize,
}

/// End: executed `task`, producing `output`.
#[derive(Debug)]
pub struct ExecuteEnd {
    pub task: KeyObj,
    pub output: ValueObj,
    pub index: usize,
}

/// Important build events.
#[derive(Debug)]
pub enum Event {
    BuildStart,
    BuildEnd,
    RequireStart(RequireStart),
    RequireEnd(RequireEnd),
    ReadStart(ResourceStart),
    ReadEnd(ResourceEnd),
    WriteStart(ResourceStart),
    WriteEnd(ResourceEnd),
    ExecuteStart(ExecuteStart),
    ExecuteEnd(ExecuteEnd),
}

/// The kinds of events that concern one task or one resource.
#[derive(Clone, Copy, PartialEq, Eq, Structural, Debug)]
pub enum EventKind {
    RequireStart,
    RequireEnd,
    ReadStart,
    ReadEnd,
    WriteStart,
    WriteEnd,
    ExecuteStart,
    ExecuteEnd,
}

/// The kind of event `e` and the key of the task or resource it concerns, or `None` for a build start or end.
pub open spec fn event_subject(e: Event) -> Option<(EventKind, Val)> {
    match e {
        Event::BuildStart => None,
        Event::BuildEnd => None,
        Event::RequireStart(d) => Some((EventKind::RequireStart, d.task@)),
        Event::RequireEnd(d) => Some((EventKind::RequireEnd, d.task@)),
        Event::ReadStart(d) => Some((EventKind::ReadStart, d.resource@)),
        Event::ReadEnd(d) => Some((EventKind::ReadEnd, d.resource@)),
        Event::WriteStart(d) => Some((EventKind::WriteStart, d.resource@)),
        Event::WriteEnd(d) => Some((EventKind::WriteEnd, d.resource@)),
        Event::ExecuteStart(d) => Some((EventKind::ExecuteStart, d.task@)),
        Event::ExecuteEnd(d) => Some((EventKind::ExecuteEnd, d.task@)),
    }
}

/// Event `e` is of `kind` and concerns the task or resource with `key`.
pub open spec fn event_matches(e: Event, kind: EventKind, key: Val) -> bool {
    event_subject(e) == Some((kind, key))
}

/// Event `e` is of `kind`, whatever it concerns.
pub open spec fn event_is_kind(e: Event, kind: EventKind) -> bool {
    event_subject(e) matches Some((k, _)) && k == kind
}

/// The index recorded in event `e`, or `None` for a build start or end.
pub open spec fn event_index(e: Event) -> Option<int> {
    match e {
        Event::BuildStart => None,
        Event::BuildEnd => None,
        Event::RequireStart(d) => Some(d.index as int),
        Event::RequireEnd(d) => Some(d.index as int),
        Event::ReadStart(d) => Some(d.index as int),
        Event::ReadEnd(d) => Some(d.index as int),
        Event::WriteStart(d) => Some(d.index as int),
        Event::WriteEnd(d) => Some(d.index as int),
        Event::ExecuteStart(d) => Some(d.index as int),
        Event::ExecuteEnd(d) => Some(d.index as int),
    }
}

/// Some event of `events` is of `kind` and concerns `key`.
pub open spec fn has_match(events: Seq<Event>, kind: EventKind, key: Val) -> bool {
    exists|i: int| 0 <= i < events.len() && event_matches(#[trigger] events[i], kind, key)
}

/// `i` is the position of the first event of `events` that is of `kind` and concerns `key`.
pub open spec fn is_first_match(events: Seq<Event>, kind: EventKind, key: Val, i: int) -> bool {
    &&& 0 <= i < events.len()
    &&& event_matches(events[i], kind, key)
    &&& forall|j: int| 0 <= j < i ==> !event_matches(#[trigger] events[j], kind, key)
}

/// The number of events of `events` that are of `kind` and concern `key`.
pub open spec fn count_matches(events: Seq<Event>, kind: EventKind, key: Val) -> nat {
    events.filter(|e: Event| event_matches(e, kind, key)).len()
}

/// The number of events of `events` that are of `kind`.
pub open spec fn count_kind(events: Seq<Event>, kind: EventKind) -> nat {
    events.filter(|e: Event| event_is_kind(e, kind)).len()
}

/// Every event of `events` records its own position as its index.
pub open spec fn indexed(events: Seq<Event>) -> bool {
    forall|i: int| 0 <= i < events.len() ==> (#[trigger] event_index(events[i]) matches Some(k) ==> k == i)
}

/// The number of `true` values in `bs`.
pub open spec fn count_true(bs: Seq<bool>) -> nat {
    bs.filter(|b: bool| b).len()
}

/// Access to the task of events that concern a task.
pub trait TaskAccess {
    /// The key of the task of this event.
    spec fn spec_task(&self) -> Val;

    /// Returns the key of the task of this event.
    fn task(&self) -> (r: &KeyObj)
        ensures
            r@ == self.spec_task(),
    ;

    /// Returns `true` if the task of this event is `task`.
    fn task_equals<T: Task>(&self, task: &T) -> (r: bool)
        ensures
            r == (self.spec_task() == task.spec_key()),
    {
        let key = task.key();
        self.task().equals(&key)
    }
}

impl TaskAccess for RequireStart {
    open spec fn spec_task(&self) -> Val {
        self.task@
    }

    fn task(&self) -> (r: &KeyObj) {
        &self.task
    }
}

impl TaskAccess for RequireEnd {
    open spec fn spec_task(&self) -> Val {
        self.task@
    }

    fn task(&self) -> (r: &KeyObj) {
        &self.task
    }
}

impl TaskAccess for ExecuteStart {
    open spec fn spec_task(&self) -> Val {
        self.task@
    }

    fn task(&self) -> (r: &KeyObj) {
        &self.task
    }
}

impl TaskAccess for ExecuteEnd {
    open spec fn spec_task(&self) -> Val {
        self.task@
    }

    fn task(&self) -> (r: &KeyObj) {
        &self.task
    }
}

impl Event {
    /// Returns `true` if this is a build start event.
    pub fn is_build_start(&self) -> (r: bool)
        ensures
            r == (*self is BuildStart),
    {
        match self {
            Event::BuildStart => true,
            _ => false,
        }
    }

    /// Returns `true` if this is a build end event.
    pub fn is_build_end(&self) -> (r: bool)
        ensures
            r == (*self is BuildEnd),
    {
        match self {
            Event::BuildEnd => true,
            _ => false,
        }
    }

    /// Returns `true` if this event is of `kind` and concerns `key`.
    pub fn matches(&self, kind: EventKind, key: &KeyObj) -> (r: bool)
        ensures
            r == event_matches(*self, kind, key@),
    {
        match (kind, self) {
            (EventKind::RequireStart, Event::RequireStart(d)) => d.task.equals(key),
            (EventKind::RequireEnd, Event::RequireEnd(d)) => d.task.equals(key),
            (EventKind::ReadStart, Event::ReadStart(d)) => d.resource.equals(key),
            (EventKind::ReadEnd, Event::ReadEnd(d)) => d.resource.equals(key),
            (EventKind::WriteStart, Event::WriteStart(d)) => d.resource.equals(key),
            (EventKind::WriteEnd, Event::WriteEnd(d)) => d.resource.equals(key),
            (EventKind::ExecuteStart, Event::ExecuteStart(d)) => d.task.equals(key),
            (EventKind::ExecuteEnd, Event::ExecuteEnd(d)) => d.task.equals(key),
            _ => false,
        }
    }

    /// Returns `true` if this event is of `kind`.
    pub fn is_kind(&self, kind: EventKind) -> (r: bool)
        ensures
            r == event_is_kind(*self, kind),
    {
        match (kind, self) {
            (EventKind::RequireStart, Event::RequireStart(_)) => true,
            (EventKind::RequireEnd, Event::RequireEnd(_)) => true,
            (EventKind::ReadStart, Event::ReadStart(_)) => true,
            (EventKind::ReadEnd, Event::ReadEnd(_)) => true,
            (EventKind::WriteStart, Event::WriteStart(_)) => true,
            (EventKind::WriteEnd, Event::WriteEnd(_)) => true,
            (EventKind::ExecuteStart, Event::ExecuteStart(_)) => true,
            (EventKind::ExecuteEnd, Event::ExecuteEnd(_)) => true,
            _ => false,
        }
    }

    /// Returns `Some(&data)` if this is a require start event for `task`, or `None` otherwise.
    pub fn match_require_start(&self, task: &KeyObj) -> (r: Option<&RequireStart>)
        ensures
            r is Some <==> event_matches(*self, EventKind::RequireStart, task@),
            r matches Some(d) ==> *self == Event::RequireStart(*d),
    {
        match self {
            Event::RequireStart(data) => if data.task.equals(task) {
                Some(data)
            } else {
                None
            },
            _ => None,
        }
    }

    /// Returns `Some(&data)` if this is a require end event for `task`, or `None` otherwise.
    pub fn match_require_end(&self, task: &KeyObj) -> (r: Option<&RequireEnd>)
        ensures
            r is Some <==> event_matches(*self, EventKind::RequireEnd, task@),
            r matches Some(d) ==> *self == Event::RequireEnd(*d),
    {
        match self {
            Event::RequireEnd(data) => if data.task.equals(task) {
                Some(data)
            } else {
                None
            },
            _ => None,
        }
    }

    /// Returns `Some(&data)` if this is a read start event for `resource`, or `None` otherwise.
    pub fn match_read_start(&self, resource: &KeyObj) -> (r: Option<&ResourceStart>)
        ensures
            r is Some <==> event_matches(*self, EventKind::ReadStart, resource@),
            r matches Some(d) ==> *self == Event::ReadStart(*d),
    {
        match self {
            Event::ReadStart(data) => if data.resource.equals(resource) {
                Some(data)
            } else {
                None
            },
            _ => None,
        }
    }

    /// Returns `Some(&data)` if this is a read end event for `resource`, or `None` otherwise.
    pub fn match_read_end(&self, resource: &KeyObj) -> (r: Option<&ResourceEnd>)
        ensures
            r is Some <==> event_matches(*self, EventKind::ReadEnd, resource@),
            r matches Some(d) ==> *self == Event::ReadEnd(*d),
    {
        match self {
            Event::ReadEnd(data) => if data.resource.equals(resource) {
                Some(data)
            } else {
                None
            },
            _ => None,
        }
    }

    /// Returns `Some(&data)` if this is a write start event for `resource`, or `None` otherwise.
    pub fn match_write_start(&self, resource: &KeyObj) -> (r: Option<&ResourceStart>)
        ensures
            r is Some <==> event_matches(*self, EventKind::WriteStart, resource@),
            r matches Some(d) ==> *self == Event::WriteStart(*d),
    {
        match self {
            Event::WriteStart(data) => if data.resource.equals(resource) {
                Some(data)
            } else {
                None
            },
            _ => None,
        }
    }

    /// Returns `Some(&data)` if this is a write end event for `resource`, or `None` otherwise.
    pub fn match_write_end(&self, resource: &KeyObj) -> (r: Option<&ResourceEnd>)
        ensures
            r is Some <==> event_matches(*self, EventKind::WriteEnd, resource@),
            r matches Some(d) ==> *self == Event::WriteEnd(*d),
    {
        match self {
            Event::WriteEnd(data) => if data.resource.equals(resource) {
                Some(data)
            } else {
                None
            },
            _ => None,
        }
    }

    /// Returns `true` if this is an execute start or end event.
    pub fn is_execute(&self) -> (r: bool)
        ensures
            r == (*self is ExecuteStart || *self is ExecuteEnd),
    {
        match self {
            Event::ExecuteStart(_) => true,
            Event::ExecuteEnd(_) => true,
            _ => false,
        }
    }

    /// Returns `true` if this is an execute start or end event for `task`.
    pub fn is_execute_of(&self, task: &KeyObj) -> (r: bool)
        ensures
            r == (event_matches(*self, EventKind::ExecuteStart, task@) || event_matches(
                *self,
                EventKind::ExecuteEnd,
                task@,
            )),
    {
        match self {
            Event::ExecuteStart(data) => data.task.equals(task),
            Event::ExecuteEnd(data) => data.task.equals(task),
            _ => false,
        }
    }

    /// Returns `Some(&data)` if this is an execute start event for `task`, or `None` otherwise.
    pub fn match_execute_start(&self, task: &KeyObj) -> (r: Option<&ExecuteStart>)
        ensures
            r is Some <==> event_matches(*self, EventKind::ExecuteStart, task@),
            r matches Some(d) ==> *self == Event::ExecuteStart(*d),
    {
        match self {
            Event::ExecuteStart(data) => if data.task.equals(task) {
                Some(data)
            } else {
                None
            },
            _ => None,
        }
    }

    /// Returns `Some(&data)` if this is an execute end event for `task`, or `None` otherwise.
    pub fn match_execute_end(&self, task: &KeyObj) -> (r: Option<&ExecuteEnd>)
        ensures
            r is Some <==> event_matches(*self, EventKind::ExecuteEnd, task@),
            r matches Some(d) ==> *self == Event::ExecuteEnd(*d),
    {
        match self {
            Event::ExecuteEnd(data) => if data.task.equals(task) {
                Some(data)
            } else {
                None
            },
            _ => None,
        }
    }
}

/// A tracker that stores build events in a vector, for checking after a build that it was incremental and correct.
pub struct EventTracker {
    events: Vec<Event>,
    clear_on_build_start: bool,
}

impl Default for EventTracker {
    fn default() -> (r: Self)
        ensures
            r.events() == Seq::<Event>::empty(),
            r.clears_on_build_start(),
    {
        EventTracker { events: Vec::new(), clear_on_build_start: true }
    }
}

impl EventTracker {
    /// The events stored so far, in the order in which they happened.
    pub closed spec fn events(&self) -> Seq<Event> {
        self.events@
    }

    /// Whether the events are cleared when a build starts.
    pub closed spec fn clears_on_build_start(&self) -> bool {
        self.clear_on_build_start
    }

    /// Creates a tracker without events that clears its events when a build starts.
    pub fn new() -> (r: Self)
        ensures
            r.events() == Seq::<Event>::empty(),
            r.clears_on_build_start(),
    {
        EventTracker { events: Vec::new(), clear_on_build_start: true }
    }

    /// Creates a tracker without events that keeps its events when a build starts if `clear_on_build_start` is
    /// `false`.
    pub fn with_clear_on_build_start(clear_on_build_start: bool) -> (r: Self)
        ensures
            r.events() == Seq::<Event>::empty(),
            r.clears_on_build_start() == clear_on_build_start,
    {
        EventTracker { events: Vec::new(), clear_on_build_start }
    }

    /// Returns a slice over all events.
    pub fn slice(&self) -> (r: &[Event])
        ensures
            r@ == self.events(),
    {
        self.events.as_slice()
    }

    /// Returns an iterator over all events.
    pub fn iter(&self) -> (r: std::slice::Iter<'_, Event>)
        ensures
            r.remaining() == self.events().as_ref(),
    {
        let s = self.events.as_slice();
        let r = s.iter();
        proof {
            vstd::std_specs::slice::axiom_spec_slice_iter(s);
        }
        r
    }

    /// Returns all events in a vector, leaving no event in the tracker.
    pub fn take_events(&mut self) -> (r: Vec<Event>)
        ensures
            r@ == old(self).events(),
            final(self).events() == Seq::<Event>::empty(),
            final(self).clears_on_build_start() == old(self).clears_on_build_start(),
    {
        let mut events: Vec<Event> = Vec::new();
        std::mem::swap(&mut events, &mut self.events);
        events
    }

    /// Removes all events.
    pub fn clear(&mut self)
        ensures
            final(self).events() == Seq::<Event>::empty(),
            final(self).clears_on_build_start() == old(self).clears_on_build_start(),
    {
        self.events.clear();
    }

    /// Returns the first event, or `None` if there is none.
    pub fn first(&self) -> (r: Option<&Event>)
        ensures
            r is Some <==> self.events().len() > 0,
            r matches Some(e) ==> *e == self.events()[0],
    {
        if self.events.len() == 0 {
            None
        } else {
            Some(&self.events[0])
        }
    }

    /// Returns the last event, or `None` if there is none.
    pub fn last(&self) -> (r: Option<&Event>)
        ensures
            r is Some <==> self.events().len() > 0,
            r matches Some(e) ==> *e == self.events().last(),
    {
        if self.events.len() == 0 {
            None
        } else {
            Some(&self.events[self.events.len() - 1])
        }
    }

    /// Returns the event at `index`, or `None` if there is none.
    pub fn get(&self, index: usize) -> (r: Option<&Event>)
        ensures
            r is Some <==> index < self.events().len(),
            r matches Some(e) ==> *e == self.events()[index as int],
    {
        if index < self.events.len() {
            Some(&self.events[index])
        } else {
            None
        }
    }

    /// Returns the event `offset` places before the last event, or `None` if there is none.
    pub fn get_from_end(&self, offset: usize) -> (r: Option<&Event>)
        requires
            offset < self.events().len(),
        ensures
            r matches Some(e) && *e == self.events()[self.events().len() - 1 - offset],
    {
        self.get(self.events.len() - 1 - offset)
    }

    /// Returns the position of the first event of `kind` for `key`, or `None` if there is none.
    pub fn position_of(&self, kind: EventKind, key: &KeyObj) -> (r: Option<usize>)
        ensures
            r is None <==> !has_match(self.events(), kind, key@),
            r matches Some(i) ==> is_first_match(self.events(), kind, key@, i as int),
    {
        let mut i: usize = 0;
        while i < self.events.len()
            invariant
                i <= self.events@.len(),
                forall|j: int| 0 <= j < i ==> !event_matches(#[trigger] self.events@[j], kind, key@),
            decreases self.events@.len() - i,
        {
            if self.events[i].matches(kind, key) {
                return Some(i);
            }
            i = i + 1;
        }
        None
    }

    /// Counts the events of `kind` for `key`.
    pub fn count_of(&self, kind: EventKind, key: &KeyObj) -> (r: usize)
        ensures
            r == count_matches(self.events(), kind, key@),
    {
        let ghost p = |e: Event| event_matches(e, kind, key@);
        let mut n: usize = 0;
        let mut i: usize = 0;
        while i < self.events.len()
            invariant
                i <= self.events@.len(),
                p == (|e: Event| event_matches(e, kind, key@)),
                n == self.events@.take(i as int).filter(p).len(),
                n <= i,
            decreases self.events@.len() - i,
        {
            proof {
                lemma_take_filter_step(self.events@, p, i as int);
            }
            if self.events[i].matches(kind, key) {
                n = n + 1;
            }
            i = i + 1;
        }
        proof {
            assert(self.events@.take(i as int) =~= self.events@);
        }
        n
    }

    /// Counts the events of `kind`.
    pub fn count_of_kind(&self, kind: EventKind) -> (r: usize)
        ensures
            r == count_kind(self.events(), kind),
    {
        let ghost p = |e: Event| event_is_kind(e, kind);
        let mut n: usize = 0;
        let mut i: usize = 0;
        while i < self.events.len()
            invariant
                i <= self.events@.len(),
                p == (|e: Event| event_is_kind(e, kind)),
                n == self.events@.take(i as int).filter(p).len(),
                n <= i,
            decreases self.events@.len() - i,
        {
            proof {
                lemma_take_filter_step(self.events@, p, i as int);
            }
            if self.events[i].is_kind(kind) {
                n = n + 1;
            }
            i = i + 1;
        }
        proof {
            assert(self.events@.take(i as int) =~= self.events@);
        }
        n
    }

    /// Returns `true` if `predicate` returns `true` for any event.
    pub fn any(&self, predicate: impl Fn(&Event) -> bool) -> (r: bool)
        requires
            forall|i: int| 0 <= i < self.events().len() ==> predicate.requires((&self.events()[i],)),
        ensures
            r ==> exists|i: int| 0 <= i < self.events().len() && predicate.ensures((&self.events()[i],), true),
            !r ==> forall|i: int| 0 <= i < self.events().len() ==> predicate.ensures((&self.events()[i],), false),
    {
        let mut i: usize = 0;
        while i < self.events.len()
            invariant
                i <= self.events@.len(),
                forall|j: int| 0 <= j < self.events@.len() ==> predicate.requires((&self.events()[j],)),
                forall|j: int| 0 <= j < i ==> predicate.ensures((&self.events()[j],), false),
            decreases self.events@.len() - i,
        {
            proof {
                assert(predicate.requires((&self.events()[i as int],)));
            }
            if predicate(&self.events[i]) {
                proof {
                    assert(predicate.ensures((&self.events()[i as int],), true));
                }
                return true;
            }
            i = i + 1;
        }
        false
    }

    /// Returns `true` if `predicate` returns `true` for exactly `count` events.
    pub fn contains_count(&self, count: usize, predicate: impl Fn(&Event) -> bool) -> (r: bool)
        requires
            forall|i: int| 0 <= i < self.events().len() ==> predicate.requires((&self.events()[i],)),
        ensures
            exists|results: Seq<bool>|
                results.len() == self.events().len() && (forall|i: int|
                    0 <= i < self.events().len() ==> predicate.ensures((&self.events()[i],), #[trigger] results[i]))
                    && r == (count_true(results) == count),
    {
        let ghost mut results: Seq<bool> = Seq::empty();
        let mut n: usize = 0;
        let mut i: usize = 0;
        while i < self.events.len()
            invariant
                i <= self.events@.len(),
                forall|j: int| 0 <= j < self.events@.len() ==> predicate.requires((&self.events()[j],)),
                results.len() == i,
                forall|j: int| 0 <= j < i ==> predicate.ensures((&self.events()[j],), #[trigger] results[j]),
                n == count_true(results),
                n <= i,
            decreases self.events@.len() - i,
        {
            proof {
                assert(predicate.requires((&self.events()[i as int],)));
            }
            let b = predicate(&self.events[i]);
            proof {
                results.lemma_filter_push(b, |b: bool| b);
                results = results.push(b);
            }
            if b {
                n = n + 1;
            }
            i = i + 1;
        }
        n == count
    }

    /// Returns `true` if `predicate` returns `true` for exactly one event.
    pub fn one(&self, predicate: impl Fn(&Event) -> bool) -> (r: bool)
        requires
            forall|i: int| 0 <= i < self.events().len() ==> predicate.requires((&self.events()[i],)),
        ensures
            exists|results: Seq<bool>|
                results.len() == self.events().len() && (forall|i: int|
                    0 <= i < self.events().len() ==> predicate.ensures((&self.events()[i],), #[trigger] results[i]))
                    && r == (count_true(results) == 1),
    {
        self.contains_count(1, predicate)
    }

    /// Returns `true` if `predicate` returns `true` for any event.
    pub fn contains(&self, predicate: impl Fn(&Event) -> bool) -> (r: bool)
        requires
            forall|i: int| 0 <= i < self.events().len() ==> predicate.requires((&self.events()[i],)),
        ensures
            r ==> exists|i: int| 0 <= i < self.events().len() && predicate.ensures((&self.events()[i],), true),
            !r ==> forall|i: int| 0 <= i < self.events().len() ==> predicate.ensures((&self.events()[i],), false),
    {
        self.any(predicate)
    }

    /// Returns `true` if `predicate` returns `true` for no event.
    pub fn contains_no(&self, predicate: impl Fn(&Event) -> bool) -> (r: bool)
        requires
            forall|i: int| 0 <= i < self.events().len() ==> predicate.requires((&self.events()[i],)),
        ensures
            !r ==> exists|i: int| 0 <= i < self.events().len() && predicate.ensures((&self.events()[i],), true),
            r ==> forall|i: int| 0 <= i < self.events().len() ==> predicate.ensures((&self.events()[i],), false),
    {
        !self.any(predicate)
    }

    /// Returns `true` if `predicate` returns `true` for exactly one event.
    pub fn contains_one(&self, predicate: impl Fn(&Event) -> bool) -> (r: bool)
        requires
            forall|i: int| 0 <= i < self.events().len() ==> predicate.requires((&self.events()[i],)),
        ensures
            exists|results: Seq<bool>|
                results.len() == self.events().len() && (forall|i: int|
                    0 <= i < self.events().len() ==> predicate.ensures((&self.events()[i],), #[trigger] results[i]))
                    && r == (count_true(results) == 1),
    {
        self.contains_count(1, predicate)
    }

    /// Returns the position of the first event for which `predicate` returns `true`, or `None` if there is none.
    pub fn get_index_of(&self, predicate: impl Fn(&Event) -> bool) -> (r: Option<usize>)
        requires
            forall|i: int| 0 <= i < self.events().len() ==> predicate.requires((&self.events()[i],)),
        ensures
            r matches Some(i) ==> i < self.events().len() && predicate.ensures((&self.events()[i as int],), true)
                && forall|j: int| 0 <= j < i ==> predicate.ensures((&self.events()[j],), false),
            r is None ==> forall|i: int| 0 <= i < self.events().len() ==> predicate.ensures((&self.events()[i],), false),
    {
        let mut i: usize = 0;
        while i < self.events.len()
            invariant
                i <= self.events@.len(),
                forall|j: int| 0 <= j < self.events@.len() ==> predicate.requires((&self.events()[j],)),
                forall|j: int| 0 <= j < i ==> predicate.ensures((&self.events()[j],), false),
            decreases self.events@.len() - i,
        {
            proof {
                assert(predicate.requires((&self.events()[i as int],)));
            }
            if predicate(&self.events[i]) {
                return Some(i);
            }
            i = i + 1;
        }
        None
    }

    /// Returns `Some(v)` for the first event `e` where `f(e)` returns `Some(v)`, or `None` otherwise.
    pub fn find_map<'a, R>(&'a self, f: impl Fn(&'a Event) -> Option<R>) -> (r: Option<R>)
        requires
            forall|i: int| 0 <= i < self.events().len() ==> f.requires((&self.events()[i],)),
        ensures
            r matches Some(v) ==> exists|i: int|
                0 <= i < self.events().len() && f.ensures((&self.events()[i],), Some(v)) && forall|j: int|
                    0 <= j < i ==> f.ensures((&self.events()[j],), None::<R>),
            r is None ==> forall|i: int| 0 <= i < self.events().len() ==> f.ensures((&self.events()[i],), None::<R>),
    {
        let mut i: usize = 0;
        while i < self.events.len()
            invariant
                i <= self.events@.len(),
                forall|j: int| 0 <= j < self.events@.len() ==> f.requires((&self.events()[j],)),
                forall|j: int| 0 <= j < i ==> f.ensures((&self.events()[j],), None::<R>),
            decreases self.events@.len() - i,
        {
            proof {
                assert(f.requires((&self.events()[i as int],)));
            }
            let found = f(&self.events[i]);
            if found.is_some() {
                proof {
                    assert(f.ensures((&self.events()[i as int],), found));
                }
                return found;
            }
            i = i + 1;
        }
        None
    }

    /// Finds the first require start and end event for `task` and returns `Some((&start_data, &end_data))`, or `None`
    /// when either is missing.
    pub fn first_require(&self, task: &KeyObj) -> (r: Option<(&RequireStart, &RequireEnd)>)
        ensures
            r is Some <==> has_match(self.events(), EventKind::RequireStart, task@) && has_match(
                self.events(),
                EventKind::RequireEnd,
                task@,
            ),
            r matches Some((s, e)) ==> exists|i: int, j: int|
                is_first_match(self.events(), EventKind::RequireStart, task@, i) && is_first_match(
                    self.events(),
                    EventKind::RequireEnd,
                    task@,
                    j,
                ) && self.events()[i] == Event::RequireStart(*s) && self.events()[j] == Event::RequireEnd(*e),
    {
        match (self.position_of(EventKind::RequireStart, task), self.position_of(EventKind::RequireEnd, task)) {
            (Some(i), Some(j)) => match (&self.events[i], &self.events[j]) {
                (Event::RequireStart(s), Event::RequireEnd(e)) => Some((s, e)),
                _ => None,
            },
            _ => None,
        }
    }

    /// Finds the first require start and end event for `task` and returns the range from the index of the start to
    /// the index of the end, or `None` when either is missing.
    pub fn first_require_range(&self, task: &KeyObj) -> (r: Option<RangeInclusive<usize>>)
        ensures
            r is Some <==> has_match(self.events(), EventKind::RequireStart, task@) && has_match(
                self.events(),
                EventKind::RequireEnd,
                task@,
            ),
            r matches Some(range) ==> exists|i: int, j: int|
                is_first_match(self.events(), EventKind::RequireStart, task@, i) && is_first_match(
                    self.events(),
                    EventKind::RequireEnd,
                    task@,
                    j,
                ) && event_index(self.events()[i]) == Some(range@.start as int) && event_index(self.events()[j]) == Some(
                    range@.end as int,
                ) && !range@.exhausted,
    {
        match self.first_require(task) {
            Some((s, e)) => Some(RangeInclusive::new(s.index, e.index)),
            None => None,
        }
    }

    /// Finds the first read start and end event for `resource` and returns `Some((&start_data, &end_data))`, or `None`
    /// when either is missing.
    pub fn first_read(&self, resource: &KeyObj) -> (r: Option<(&ResourceStart, &ResourceEnd)>)
        ensures
            r is Some <==> has_match(self.events(), EventKind::ReadStart, resource@) && has_match(
                self.events(),
                EventKind::ReadEnd,
                resource@,
            ),
            r matches Some((s, e)) ==> exists|i: int, j: int|
                is_first_match(self.events(), EventKind::ReadStart, resource@, i) && is_first_match(
                    self.events(),
                    EventKind::ReadEnd,
                    resource@,
                    j,
                ) && self.events()[i] == Event::ReadStart(*s) && self.events()[j] == Event::ReadEnd(*e),
    {
        match (self.position_of(EventKind::ReadStart, resource), self.position_of(EventKind::ReadEnd, resource)) {
            (Some(i), Some(j)) => match (&self.events[i], &self.events[j]) {
                (Event::ReadStart(s), Event::ReadEnd(e)) => Some((s, e)),
                _ => None,
            },
            _ => None,
        }
    }

    /// Finds the first read start and end event for `resource` and returns the range from the index of the start to
    /// the index of the end, or `None` when either is missing.
    pub fn first_read_range(&self, resource: &KeyObj) -> (r: Option<RangeInclusive<usize>>)
        ensures
            r is Some <==> has_match(self.events(), EventKind::ReadStart, resource@) && has_match(
                self.events(),
                EventKind::ReadEnd,
                resource@,
            ),
            r matches Some(range) ==> exists|i: int, j: int|
                is_first_match(self.events(), EventKind::ReadStart, resource@, i) && is_first_match(
                    self.events(),
                    EventKind::ReadEnd,
                    resource@,
                    j,
                ) && event_index(self.events()[i]) == Some(range@.start as int) && event_index(self.events()[j]) == Some(
                    range@.end as int,
                ) && !range@.exhausted,
    {
        match self.first_read(resource) {
            Some((s, e)) => Some(RangeInclusive::new(s.index, e.index)),
            None => None,
        }
    }

    /// Finds the first read end event for `resource` and returns `Some(&data)`, or `None` if there is none.
    pub fn first_read_end(&self, resource: &KeyObj) -> (r: Option<&ResourceEnd>)
        ensures
            r is Some <==> has_match(self.events(), EventKind::ReadEnd, resource@),
            r matches Some(e) ==> exists|j: int|
                is_first_match(self.events(), EventKind::ReadEnd, resource@, j) && self.events()[j] == Event::ReadEnd(*e),
    {
        match self.position_of(EventKind::ReadEnd, resource) {
            Some(j) => match &self.events[j] {
                Event::ReadEnd(e) => Some(e),
                _ => None,
            },
            None => None,
        }
    }

    /// Finds the first read end event for `resource` and returns `Some(&data.index)`, or `None` if there is none.
    pub fn first_read_end_index(&self, resource: &KeyObj) -> (r: Option<&usize>)
        ensures
            r is Some <==> has_match(self.events(), EventKind::ReadEnd, resource@),
            r matches Some(k) ==> exists|j: int|
                is_first_match(self.events(), EventKind::ReadEnd, resource@, j) && event_index(self.events()[j]) == Some(
                    *k as int,
                ),
    {
        match self.first_read_end(resource) {
            Some(e) => Some(&e.index),
            None => None,
        }
    }

    /// Finds the first write start and end event for `resource` and returns `Some((&start_data, &end_data))`, or `None`
    /// when either is missing.
    pub fn first_write(&self, resource: &KeyObj) -> (r: Option<(&ResourceStart, &ResourceEnd)>)
        ensures
            r is Some <==> has_match(self.events(), EventKind::WriteStart, resource@) && has_match(
                self.events(),
                EventKind::WriteEnd,
                resource@,
            ),
            r matches Some((s, e)) ==> exists|i: int, j: int|
                is_first_match(self.events(), EventKind::WriteStart, resource@, i) && is_first_match(
                    self.events(),
                    EventKind::WriteEnd,
                    resource@,
                    j,
                ) && self.events()[i] == Event::WriteStart(*s) && self.events()[j] == Event::WriteEnd(*e),
    {
        match (self.position_of(EventKind::WriteStart, resource), self.position_of(EventKind::WriteEnd, resource)) {
            (Some(i), Some(j)) => match (&self.events[i], &self.events[j]) {
                (Event::WriteStart(s), Event::WriteEnd(e)) => Some((s, e)),
                _ => None,
            },
            _ => None,
        }
    }

    /// Finds the first write start and end event for `resource` and returns the range from the index of the start to
    /// the index of the end, or `None` when either is missing.
    pub fn first_write_range(&self, resource: &KeyObj) -> (r: Option<RangeInclusive<usize>>)
        ensures
            r is Some <==> has_match(self.events(), EventKind::WriteStart, resource@) && has_match(
                self.events(),
                EventKind::WriteEnd,
                resource@,
            ),
            r matches Some(range) ==> exists|i: int, j: int|
                is_first_match(self.events(), EventKind::WriteStart, resource@, i) && is_first_match(
                    self.events(),
                    EventKind::WriteEnd,
                    resource@,
                    j,
                ) && event_index(self.events()[i]) == Some(range@.start as int) && event_index(self.events()[j]) == Some(
                    range@.end as int,
                ) && !range@.exhausted,
    {
        match self.first_write(resource) {
            Some((s, e)) => Some(RangeInclusive::new(s.index, e.index)),
            None => None,
        }
    }

    /// Finds the first write end event for `resource` and returns `Some(&data)`, or `None` if there is none.
    pub fn first_write_end(&self, resource: &KeyObj) -> (r: Option<&ResourceEnd>)
        ensures
            r is Some <==> has_match(self.events(), EventKind::WriteEnd, resource@),
            r matches Some(e) ==> exists|j: int|
                is_first_match(self.events(), EventKind::WriteEnd, resource@, j) && self.events()[j] == Event::WriteEnd(*e),
    {
        match self.position_of(EventKind::WriteEnd, resource) {
            Some(j) => match &self.events[j] {
                Event::WriteEnd(e) => Some(e),
                _ => None,
            },
            None => None,
        }
    }

    /// Finds the first write end event for `resource` and returns `Some(&data.index)`, or `None` if there is none.
    pub fn first_write_end_index(&self, resource: &KeyObj) -> (r: Option<&usize>)
        ensures
            r is Some <==> has_match(self.events(), EventKind::WriteEnd, resource@),
            r matches Some(k) ==> exists|j: int|
                is_first_match(self.events(), EventKind::WriteEnd, resource@, j) && event_index(self.events()[j]) == Some(
                    *k as int,
                ),
    {
        match self.first_write_end(resource) {
            Some(e) => Some(&e.index),
            None => None,
        }
    }

    /// Finds the first execute start and end event for `task` and returns `Some((&start_data, &end_data))`, or `None`
    /// when either is missing.
    pub fn first_execute(&self, task: &KeyObj) -> (r: Option<(&ExecuteStart, &ExecuteEnd)>)
        ensures
            r is Some <==> has_match(self.events(), EventKind::ExecuteStart, task@) && has_match(
                self.events(),
                EventKind::ExecuteEnd,
                task@,
            ),
            r matches Some((s, e)) ==> exists|i: int, j: int|
                is_first_match(self.events(), EventKind::ExecuteStart, task@, i) && is_first_match(
                    self.events(),
                    EventKind::ExecuteEnd,
                    task@,
                    j,
                ) && self.events()[i] == Event::ExecuteStart(*s) && self.events()[j] == Event::ExecuteEnd(*e),
    {
        match (self.position_of(EventKind::ExecuteStart, task), self.position_of(EventKind::ExecuteEnd, task)) {
            (Some(i), Some(j)) => match (&self.events[i], &self.events[j]) {
                (Event::ExecuteStart(s), Event::ExecuteEnd(e)) => Some((s, e)),
                _ => None,
            },
            _ => None,
        }
    }

    /// Finds the first execute start and end event for `task` and returns the range from the index of the start to
    /// the index of the end, or `None` when either is missing.
    pub fn first_execute_range(&self, task: &KeyObj) -> (r: Option<RangeInclusive<usize>>)
        ensures
            r is Some <==> has_match(self.events(), EventKind::ExecuteStart, task@) && has_match(
                self.events(),
                EventKind::ExecuteEnd,
                task@,
            ),
            r matches Some(range) ==> exists|i: int, j: int|
                is_first_match(self.events(), EventKind::ExecuteStart, task@, i) && is_first_match(
                    self.events(),
                    EventKind::ExecuteEnd,
                    task@,
                    j,
                ) && event_index(self.events()[i]) == Some(range@.start as int) && event_index(self.events()[j]) == Some(
                    range@.end as int,
                ) && !range@.exhausted,
    {
        match self.first_execute(task) {
            Some((s, e)) => Some(RangeInclusive::new(s.index, e.index)),
            None => None,
        }
    }

    /// Finds the first execute end event for `task` and returns `Some(&data)`, or `None` if there is none.
    pub fn first_execute_end(&self, task: &KeyObj) -> (r: Option<&ExecuteEnd>)
        ensures
            r is Some <==> has_match(self.events(), EventKind::ExecuteEnd, task@),
            r matches Some(e) ==> exists|j: int|
                is_first_match(self.events(), EventKind::ExecuteEnd, task@, j) && self.events()[j] == Event::ExecuteEnd(*e),
    {
        match self.position_of(EventKind::ExecuteEnd, task) {
            Some(j) => match &self.events[j] {
                Event::ExecuteEnd(e) => Some(e),
                _ => None,
            },
            None => None,
        }
    }

    /// Finds the first execute end event for `task` and returns `Some(&data.index)`, or `None` if there is none.
    pub fn first_execute_end_index(&self, task: &KeyObj) -> (r: Option<&usize>)
        ensures
            r is Some <==> has_match(self.events(), EventKind::ExecuteEnd, task@),
            r matches Some(k) ==> exists|j: int|
                is_first_match(self.events(), EventKind::ExecuteEnd, task@, j) && event_index(self.events()[j]) == Some(
                    *k as int,
                ),
    {
        match self.first_execute_end(task) {
            Some(e) => Some(&e.index),
            None => None,
        }
    }

    /// Returns `true` if any task was executed.
    pub fn any_execute(&self) -> (r: bool)
        ensures
            r == exists|i: int| 0 <= i < self.events().len() && (#[trigger] self.events()[i] is ExecuteStart
                || self.events()[i] is ExecuteEnd),
    {
        let mut i: usize = 0;
        while i < self.events.len()
            invariant
                i <= self.events@.len(),
                forall|j: int| 0 <= j < i ==> !(#[trigger] self.events@[j] is ExecuteStart || self.events@[j] is ExecuteEnd),
            decreases self.events@.len() - i,
        {
            if self.events[i].is_execute() {
                return true;
            }
            i = i + 1;
        }
        false
    }

    /// Returns `true` if `task` was executed.
    pub fn any_execute_of(&self, task: &KeyObj) -> (r: bool)
        ensures
            r == (has_match(self.events(), EventKind::ExecuteStart, task@) || has_match(
                self.events(),
                EventKind::ExecuteEnd,
                task@,
            )),
    {
        let mut i: usize = 0;
        while i < self.events.len()
            invariant
                i <= self.events@.len(),
                forall|j: int|
                    0 <= j < i ==> !event_matches(#[trigger] self.events@[j], EventKind::ExecuteStart, task@)
                        && !event_matches(self.events@[j], EventKind::ExecuteEnd, task@),
            decreases self.events@.len() - i,
        {
            if self.events[i].is_execute_of(task) {
                return true;
            }
            i = i + 1;
        }
        false
    }

    /// Returns `true` if `task` was executed exactly once.
    pub fn one_execute_of(&self, task: &KeyObj) -> (r: bool)
        ensures
            r == (count_matches(self.events(), EventKind::ExecuteStart, task@) == 1),
    {
        self.count_of(EventKind::ExecuteStart, task) == 1
    }

    /// Returns `true` if exactly one task execution started.
    pub fn contains_one_execute_start(&self) -> (r: bool)
        ensures
            r == (count_kind(self.events(), EventKind::ExecuteStart) == 1),
    {
        self.count_of_kind(EventKind::ExecuteStart) == 1
    }

    /// Returns `true` if no task execution started.
    pub fn contains_no_execute_start(&self) -> (r: bool)
        ensures
            r == (count_kind(self.events(), EventKind::ExecuteStart) == 0),
    {
        self.count_of_kind(EventKind::ExecuteStart) == 0
    }

    /// Returns `true` if the execution of `task` started exactly once.
    pub fn contains_one_execute_start_of(&self, task: &KeyObj) -> (r: bool)
        ensures
            r == (count_matches(self.events(), EventKind::ExecuteStart, task@) == 1),
    {
        self.count_of(EventKind::ExecuteStart, task) == 1
    }

    /// Returns `true` if the execution of `task` never started.
    pub fn contains_no_execute_start_of(&self, task: &KeyObj) -> (r: bool)
        ensures
            r == (count_matches(self.events(), EventKind::ExecuteStart, task@) == 0),
    {
        self.count_of(EventKind::ExecuteStart, task) == 0
    }

    /// Returns the position of the first execute start event of `task`, or `None` if there is none.
    pub fn get_index_of_execute_start_of(&self, task: &KeyObj) -> (r: Option<usize>)
        ensures
            r is None <==> !has_match(self.events(), EventKind::ExecuteStart, task@),
            r matches Some(i) ==> is_first_match(self.events(), EventKind::ExecuteStart, task@, i as int),
    {
        self.position_of(EventKind::ExecuteStart, task)
    }

    /// Returns the position of the first execute end event of `task`, or `None` if there is none.
    pub fn get_index_of_execute_end_of(&self, task: &KeyObj) -> (r: Option<usize>)
        ensures
            r is None <==> !has_match(self.events(), EventKind::ExecuteEnd, task@),
            r matches Some(i) ==> is_first_match(self.events(), EventKind::ExecuteEnd, task@, i as int),
    {
        self.position_of(EventKind::ExecuteEnd, task)
    }

    /// Returns an iterator over all events.
    pub fn iter_events(&self) -> (r: std::slice::Iter<'_, Event>)
        ensures
            r.remaining() == self.events().as_ref(),
    {
        self.iter()
    }
}


/// `after` is `before` with one more event at the end, of `kind` for `key`, holding its position as its index.
pub open spec fn recorded(before: Seq<Event>, after: Seq<Event>, kind: EventKind, key: Val) -> bool {
    &&& after.len() == before.len() + 1
    &&& after.take(before.len() as int) == before
    &&& event_matches(after.last(), kind, key)
    &&& event_index(after.last()) == Some(before.len() as int)
}

/// Adding an event that records no index keeps every event at the position it records as its index.
proof fn lemma_push_unindexed(before: Seq<Event>, event: Event)
    requires
        event_index(event) is None,
    ensures
        indexed(before) ==> indexed(before.push(event)),
{
    if indexed(before) {
        assert forall|i: int| 0 <= i < before.push(event).len() implies (#[trigger] event_index(before.push(event)[i]) matches Some(k) ==> k == i) by {
            if i < before.len() {
                assert(before.push(event)[i] == before[i]);
            }
        }
    }
}

/// Recording an event keeps every event at the position it records as its index.
pub proof fn lemma_recorded_keeps_indexed(before: Seq<Event>, after: Seq<Event>, kind: EventKind, key: Val)
    requires
        indexed(before),
        recorded(before, after, kind, key),
    ensures
        indexed(after),
{
    assert forall|i: int| 0 <= i < after.len() implies (#[trigger] event_index(after[i]) matches Some(k) ==> k == i) by {
        if i < before.len() {
            assert(after[i] == after.take(before.len() as int)[i]);
            assert(event_index(before[i]) matches Some(k) ==> k == i);
        } else {
            assert(after[i] == after.last());
        }
    }
}

impl EventTracker {
    /// Records an event of `kind` for `key`, built by `event` from the index it gets.
    fn record(&mut self, event: Event, Ghost(kind): Ghost<EventKind>, Ghost(key): Ghost<Val>)
        requires
            event_matches(event, kind, key),
            event_index(event) == Some(old(self).events().len() as int),
        ensures
            recorded(old(self).events(), final(self).events(), kind, key),
            final(self).events() == old(self).events().push(event),
            final(self).clears_on_build_start() == old(self).clears_on_build_start(),
    {
        self.events.push(event);
        assert(self.events@.take(old(self).events@.len() as int) =~= old(self).events@);
    }
}

impl Tracker for EventTracker {
    open spec fn follows(&self, before: Self, event: TrackEvent) -> bool {
        &&& self.clears_on_build_start() == before.clears_on_build_start()
        &&& indexed(before.events()) ==> indexed(self.events())
        &&& match event {
            TrackEvent::BuildStart => self.events() == (if before.clears_on_build_start() {
                Seq::<Event>::empty()
            } else {
                before.events()
            }).push(Event::BuildStart),
            TrackEvent::BuildEnd => self.events() == before.events().push(Event::BuildEnd),
            TrackEvent::RequireStart(task, checker) => recorded(before.events(), self.events(), EventKind::RequireStart, task)
                && (self.events().last() matches Event::RequireStart(d) && d.checker == checker),
            TrackEvent::RequireEnd(task, checker, stamp, output) => recorded(before.events(), self.events(), EventKind::RequireEnd, task)
                && (self.events().last() matches Event::RequireEnd(d) && d.checker == checker && d.stamp@ == stamp && d.output@ == output),
            TrackEvent::ReadStart(resource, checker) => recorded(before.events(), self.events(), EventKind::ReadStart, resource)
                && (self.events().last() matches Event::ReadStart(d) && d.checker == checker),
            TrackEvent::ReadEnd(resource, checker, stamp) => recorded(before.events(), self.events(), EventKind::ReadEnd, resource)
                && (self.events().last() matches Event::ReadEnd(d) && d.checker == checker && d.stamp@ == stamp),
            TrackEvent::WriteStart(resource, checker) => recorded(before.events(), self.events(), EventKind::WriteStart, resource)
                && (self.events().last() matches Event::WriteStart(d) && d.checker == checker),
            TrackEvent::WriteEnd(resource, checker, stamp) => recorded(before.events(), self.events(), EventKind::WriteEnd, resource)
                && (self.events().last() matches Event::WriteEnd(d) && d.checker == checker && d.stamp@ == stamp),
            TrackEvent::ExecuteStart(task) => recorded(before.events(), self.events(), EventKind::ExecuteStart, task),
            TrackEvent::ExecuteEnd(task, output) => recorded(before.events(), self.events(), EventKind::ExecuteEnd, task)
                && (self.events().last() matches Event::ExecuteEnd(d) && d.output@ == output),
            _ => self.events() == before.events(),
        }
    }

    fn build_start(&mut self)
        ensures
            final(self).events() == (if old(self).clears_on_build_start() {
                Seq::<Event>::empty()
            } else {
                old(self).events()
            }).push(Event::BuildStart),
            final(self).clears_on_build_start() == old(self).clears_on_build_start(),
    {
        if self.clear_on_build_start {
            self.events.clear();
        }
        let ghost cleared = self.events@;
        self.events.push(Event::BuildStart);
        proof {
            lemma_push_unindexed(cleared, Event::BuildStart);
            assert(indexed(Seq::<Event>::empty()));
        }
    }

    fn build_end(&mut self)
        ensures
            final(self).events() == old(self).events().push(Event::BuildEnd),
            final(self).clears_on_build_start() == old(self).clears_on_build_start(),
    {
        self.events.push(Event::BuildEnd);
        proof {
            lemma_push_unindexed(old(self).events@, Event::BuildEnd);
        }
    }

    fn require_start(&mut self, task: &KeyObj, checker: OutputCheckerObj)
        ensures
            recorded(old(self).events(), final(self).events(), EventKind::RequireStart, task@),
            final(self).events().last() matches Event::RequireStart(d) && d.checker == checker,
            final(self).clears_on_build_start() == old(self).clears_on_build_start(),
    {
        let index = self.events.len();
        self.record(
            Event::RequireStart(RequireStart { task: task.copy(), checker, index }),
            Ghost(EventKind::RequireStart),
            Ghost(task@),
        );
        proof {
            if indexed(old(self).events()) {
                lemma_recorded_keeps_indexed(old(self).events(), self.events(), EventKind::RequireStart, task@);
            }
        }
    }

    fn require_end(&mut self, task: &KeyObj, checker: OutputCheckerObj, stamp: &ValueObj, output: &ValueObj)
        ensures
            recorded(old(self).events(), final(self).events(), EventKind::RequireEnd, task@),
            final(self).events().last() matches Event::RequireEnd(d) && d.checker == checker && d.stamp@ == stamp@
                && d.output@ == output@,
            final(self).clears_on_build_start() == old(self).clears_on_build_start(),
    {
        let index = self.events.len();
        self.record(
            Event::RequireEnd(RequireEnd { task: task.copy(), checker, stamp: stamp.copy(), output: output.copy(), index }),
            Ghost(EventKind::RequireEnd),
            Ghost(task@),
        );
        proof {
            if indexed(old(self).events()) {
                lemma_recorded_keeps_indexed(old(self).events(), self.events(), EventKind::RequireEnd, task@);
            }
        }
    }

    fn read_start(&mut self, resource: &KeyObj, checker: ResourceCheckerObj)
        ensures
            recorded(old(self).events(), final(self).events(), EventKind::ReadStart, resource@),
            final(self).events().last() matches Event::ReadStart(d) && d.checker == checker,
            final(self).clears_on_build_start() == old(self).clears_on_build_start(),
    {
        let index = self.events.len();
        self.record(
            Event::ReadStart(ResourceStart { resource: resource.copy(), checker, index }),
            Ghost(EventKind::ReadStart),
            Ghost(resource@),
        );
        proof {
            if indexed(old(self).events()) {
                lemma_recorded_keeps_indexed(old(self).events(), self.events(), EventKind::ReadStart, resource@);
            }
        }
    }

    fn read_end(&mut self, resource: &KeyObj, checker: ResourceCheckerObj, stamp: &ValueObj)
        ensures
            recorded(old(self).events(), final(self).events(), EventKind::ReadEnd, resource@),
            final(self).events().last() matches Event::ReadEnd(d) && d.checker == checker && d.stamp@ == stamp@,
            final(self).clears_on_build_start() == old(self).clears_on_build_start(),
    {
        let index = self.events.len();
        self.record(
            Event::ReadEnd(ResourceEnd { resource: resource.copy(), checker, stamp: stamp.copy(), index }),
            Ghost(EventKind::ReadEnd),
            Ghost(resource@),
        );
        proof {
            if indexed(old(self).events()) {
                lemma_recorded_keeps_indexed(old(self).events(), self.events(), EventKind::ReadEnd, resource@);
            }
        }
    }

    fn write_start(&mut self, resource: &KeyObj, checker: ResourceCheckerObj)
        ensures
            recorded(old(self).events(), final(self).events(), EventKind::WriteStart, resource@),
            final(self).events().last() matches Event::WriteStart(d) && d.checker == checker,
            final(self).clears_on_build_start() == old(self).clears_on_build_start(),
    {
        let index = self.events.len();
        self.record(
            Event::WriteStart(ResourceStart { resource: resource.copy(), checker, index }),
            Ghost(EventKind::WriteStart),
            Ghost(resource@),
        );
        proof {
            if indexed(old(self).events()) {
                lemma_recorded_keeps_indexed(old(self).events(), self.events(), EventKind::WriteStart, resource@);
            }
        }
    }

    fn write_end(&mut self, resource: &KeyObj, checker: ResourceCheckerObj, stamp: &ValueObj)
        ensures
            recorded(old(self).events(), final(self).events(), EventKind::WriteEnd, resource@),
            final(self).events().last() matches Event::WriteEnd(d) && d.checker == checker && d.stamp@ == stamp@,
            final(self).clears_on_build_start() == old(self).clears_on_build_start(),
    {
        let index = self.events.len();
        self.record(
            Event::WriteEnd(ResourceEnd { resource: resource.copy(), checker, stamp: stamp.copy(), index }),
            Ghost(EventKind::WriteEnd),
            Ghost(resource@),
        );
        proof {
            if indexed(old(self).events()) {
                lemma_recorded_keeps_indexed(old(self).events(), self.events(), EventKind::WriteEnd, resource@);
            }
        }
    }

    fn execute_start(&mut self, task: &KeyObj)
        ensures
            recorded(old(self).events(), final(self).events(), EventKind::ExecuteStart, task@),
            final(self).clears_on_build_start() == old(self).clears_on_build_start(),
    {
        let index = self.events.len();
        self.record(
            Event::ExecuteStart(ExecuteStart { task: task.copy(), index }),
            Ghost(EventKind::ExecuteStart),
            Ghost(task@),
        );
        proof {
            if indexed(old(self).events()) {
                lemma_recorded_keeps_indexed(old(self).events(), self.events(), EventKind::ExecuteStart, task@);
            }
        }
    }

    fn execute_end(&mut self, task: &KeyObj, output: &ValueObj)
        ensures
            recorded(old(self).events(), final(self).events(), EventKind::ExecuteEnd, task@),
            final(self).events().last() matches Event::ExecuteEnd(d) && d.output@ == output@,
            final(self).clears_on_build_start() == old(self).clears_on_build_start(),
    {
        let index = self.events.len();
        self.record(
            Event::ExecuteEnd(ExecuteEnd { task: task.copy(), output: output.copy(), index }),
            Ghost(EventKind::ExecuteEnd),
            Ghost(task@),
        );
        proof {
            if indexed(old(self).events()) {
                lemma_recorded_keeps_indexed(old(self).events(), self.events(), EventKind::ExecuteEnd, task@);
            }
        }
    }

    fn check_task_start(&mut self, task: &KeyObj, checker: OutputCheckerObj, stamp: &ValueObj) {
    }

    fn check_task_end(&mut self, task: &KeyObj, checker: OutputCheckerObj, stamp: &ValueObj, inconsistency: Option<&ValueObj>) {
    }

    fn check_resource_start(&mut self, resource: &KeyObj, checker: ResourceCheckerObj, stamp: &ValueObj) {
    }

    fn check_resource_end(&mut self, resource: &KeyObj, checker: ResourceCheckerObj, stamp: &ValueObj, inconsistency: Result<Option<&ValueObj>, &FsError>) {
    }

    fn schedule_affected_by_task_start(&mut self, task: &KeyObj) {
    }

    fn check_task_require_task_start(&mut self, requiring_task: &KeyObj, checker: OutputCheckerObj, stamp: &ValueObj) {
    }

    fn check_task_require_task_end(&mut self, requiring_task: &KeyObj, checker: OutputCheckerObj, stamp: &ValueObj, inconsistency: Option<&ValueObj>) {
    }

    fn schedule_affected_by_task_end(&mut self, task: &KeyObj) {
    }

    fn schedule_affected_by_resource_start(&mut self, resource: &KeyObj) {
    }

    fn check_task_read_resource_start(&mut self, reading_task: &KeyObj, checker: ResourceCheckerObj, stamp: &ValueObj) {
    }

    fn check_task_read_resource_end(&mut self, reading_task: &KeyObj, checker: ResourceCheckerObj, stamp: &ValueObj, inconsistency: Result<Option<&ValueObj>, &FsError>) {
    }

    fn schedule_affected_by_resource_end(&mut self, resource: &KeyObj) {
    }

    fn schedule_task(&mut self, task: &KeyObj) {
    }
}

} // verus!
