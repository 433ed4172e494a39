//! A tracker that writes build events as indented lines of text.
use vstd::prelude::*;

use crate::resource::file::FsError;
use crate::resource::ResourceCheckerObj;
use crate::task::OutputCheckerObj;
use crate::tracker::{Tracker, TrackEvent};
use crate::stamp::{decimal_text, push_decimal, signed_decimal_text};
use crate::text::{push_char, push_str};
use crate::value::{KeyObj, Val, ValueObj};

verus! {

/// A destination for text, such as standard output.
pub trait WriteText {
    /// Writes `text`.
    fn write_text(&mut self, text: &str);

    /// Flushes the text written so far.
    fn flush_text(&mut self);
}

/// Text is collected in a string.
impl WriteText for String {
    fn write_text(&mut self, text: &str)
        ensures
            final(self)@ == old(self)@ + text@,
    {
        push_str(self, text);
    }

    fn flush_text(&mut self)
        ensures
            *final(self) == *old(self),
    {
    }
}

/// The text of the bytes `b`: their decimal values, separated by commas.
pub open spec fn bytes_text(b: Seq<u8>) -> Seq<char>
    decreases b.len(),
{
    if b.len() == 0 {
        Seq::empty()
    } else if b.len() == 1 {
        decimal_text(b[0] as nat)
    } else {
        bytes_text(b.drop_last()) + ", "@ + decimal_text(b.last() as nat)
    }
}

/// The text of a value: its variant, then its contents in brackets, as a Rust debug text lays out an enum. A
/// string is written between double quotes, as it is.
pub open spec fn val_text(v: Val) -> Seq<char>
    decreases v,
{
    match v {
        Val::Unit => "Unit"@,
        Val::Bool(b) => "Bool("@ + (if b {
            "true"@
        } else {
            "false"@
        }) + ")"@,
        Val::Int(i) => "Int("@ + signed_decimal_text(i as int) + ")"@,
        Val::Str(t) => "Str(\""@ + t + "\")"@,
        Val::Bytes(b) => "Bytes(["@ + bytes_text(b) + "])"@,
        Val::Opt(o) => match o {
            Some(x) => "Opt(Some("@ + val_text(*x) + "))"@,
            None => "Opt(None)"@,
        },
        Val::Res(r) => match r {
            Ok(x) => "Res(Ok("@ + val_text(*x) + "))"@,
            Err(x) => "Res(Err("@ + val_text(*x) + "))"@,
        },
        Val::Pair(a, b) => "Pair("@ + val_text(*a) + ", "@ + val_text(*b) + ")"@,
    }
}

/// The text of a result tells success from failure: the text of `Ok(x)` starts with `Res(Ok(`, that of `Err(y)`
/// with `Res(Err(`, so the text of a successful result never equals the text of a failed one.
pub proof fn lemma_result_text_tells_ok_from_err(x: Val, y: Val)
    ensures
        val_text(Val::Res(Ok(Box::new(x)))).take(7) == "Res(Ok("@,
        val_text(Val::Res(Err(Box::new(y)))).take(8) == "Res(Err("@,
        val_text(Val::Res(Ok(Box::new(x)))) != val_text(Val::Res(Err(Box::new(y)))),
{
    reveal_strlit("Res(Ok(");
    reveal_strlit("Res(Err(");
    reveal_strlit("))");
    let ok = val_text(Val::Res(Ok(Box::new(x))));
    let err = val_text(Val::Res(Err(Box::new(y))));
    assert(ok.take(7) =~= "Res(Ok("@);
    assert(err.take(8) =~= "Res(Err("@);
    assert(ok[4] == 'O');
    assert(err[4] == 'E');
}

/// Appends the decimal text of `n`, with a minus sign when it is negative, to `s`.
fn push_signed(s: &mut String, n: i64)
    ensures
        final(s)@ == old(s)@ + signed_decimal_text(n as int),
{
    if n < 0 {
        push_char(s, '-');
        let magnitude: u64 = if n == i64::MIN {
            9223372036854775808u64
        } else {
            (-n) as u64
        };
        push_decimal(s, magnitude);
        assert(s@ =~= old(s)@ + signed_decimal_text(n as int));
    } else {
        push_decimal(s, n as u64);
    }
}

/// Appends the text of the bytes `b` to `s`.
fn push_bytes(s: &mut String, b: &Vec<u8>)
    ensures
        final(s)@ == old(s)@ + bytes_text(b@),
{
    let ghost start = s@;
    let mut i: usize = 0;
    while i < b.len()
        invariant
            i <= b@.len(),
            s@ == start + bytes_text(b@.take(i as int)),
            start == old(s)@,
        decreases b@.len() - i,
    {
        let ghost before = s@;
        if i > 0 {
            push_str(s, ", ");
        }
        push_decimal(s, b[i] as u64);
        proof {
            let t = b@.take(i as int + 1);
            assert(t.drop_last() =~= b@.take(i as int));
            assert(t.last() == b@[i as int]);
            if i == 0 {
                assert(b@.take(0) =~= Seq::<u8>::empty());
                assert(bytes_text(b@.take(0)) =~= Seq::<char>::empty());
                assert(s@ =~= start + bytes_text(t));
            } else {
                assert(s@ =~= start + bytes_text(t));
            }
        }
        i = i + 1;
    }
    assert(b@.take(b@.len() as int) =~= b@);
}

/// Appends the text of `v` to `s`.
fn push_value_text(s: &mut String, v: &ValueObj)
    ensures
        final(s)@ == old(s)@ + val_text(v@),
    decreases v,
{
    match v {
        ValueObj::Unit => {
            push_str(s, "Unit");
        },
        ValueObj::Bool(b) => {
            push_str(s, "Bool(");
            if *b {
                push_str(s, "true");
            } else {
                push_str(s, "false");
            }
            push_str(s, ")");
        },
        ValueObj::Int(i) => {
            push_str(s, "Int(");
            push_signed(s, *i);
            push_str(s, ")");
        },
        ValueObj::Str(t) => {
            push_str(s, "Str(\"");
            push_str(s, t.as_str());
            push_str(s, "\")");
        },
        ValueObj::Bytes(b) => {
            push_str(s, "Bytes([");
            push_bytes(s, b);
            push_str(s, "])");
        },
        ValueObj::Opt(o) => match o {
            Some(x) => {
                push_str(s, "Opt(Some(");
                push_value_text(s, x);
                push_str(s, "))");
            },
            None => {
                push_str(s, "Opt(None)");
            },
        },
        ValueObj::Res(r) => match r {
            Ok(x) => {
                push_str(s, "Res(Ok(");
                push_value_text(s, x);
                push_str(s, "))");
            },
            Err(x) => {
                push_str(s, "Res(Err(");
                push_value_text(s, x);
                push_str(s, "))");
            },
        },
        ValueObj::Pair(a, b) => {
            push_str(s, "Pair(");
            push_value_text(s, a);
            push_str(s, ", ");
            push_value_text(s, b);
            push_str(s, ")");
        },
    }
    assert(s@ =~= old(s)@ + val_text(v@));
}

/// The text of `v` (see `val_text`).
pub fn value_text(v: &ValueObj) -> (r: String)
    ensures
        r@ == val_text(v@),
{
    let mut s = String::new();
    push_value_text(&mut s, v);
    assert(s@ =~= val_text(v@));
    s
}

/// A tracker that writes build events as lines of text, indented by how deeply requires and executions nest.
pub struct WritingTracker<W> {
    writer: W,
    indentation: u32,
    written: Ghost<Seq<char>>,
    flushed: Ghost<nat>,
}

impl<W> WritingTracker<W> {
    /// The destination of the text.
    pub closed spec fn spec_writer(&self) -> W {
        self.writer
    }

    /// The current indentation.
    pub closed spec fn spec_indentation(&self) -> u32 {
        self.indentation
    }

    /// All text handed to the writer so far, in order.
    pub closed spec fn spec_written(&self) -> Seq<char> {
        self.written@
    }

    /// How much of the text handed to the writer it was last asked to flush.
    pub closed spec fn spec_flushed(&self) -> nat {
        self.flushed@
    }

    /// Creates a tracker that writes to `writer`, without indentation.
    pub fn new(writer: W) -> (r: Self)
        ensures
            r.spec_writer() == writer,
            r.spec_indentation() == 0,
            r.spec_written() == Seq::<char>::empty(),
            r.spec_flushed() == 0,
    {
        WritingTracker { writer, indentation: 0, written: Ghost(Seq::empty()), flushed: Ghost(0) }
    }

    /// Gets the destination of the text.
    pub fn writer(&self) -> (r: &W)
        ensures
            *r == self.spec_writer(),
    {
        &self.writer
    }
}

/// One more level of indentation than `n`, or `n` at the maximum.
pub open spec fn indented(n: u32) -> u32 {
    if n < u32::MAX {
        (n + 1) as u32
    } else {
        n
    }
}

/// One less level of indentation than `n`, or none.
pub open spec fn unindented(n: u32) -> u32 {
    if n > 0 {
        (n - 1) as u32
    } else {
        0
    }
}

/// `n` spaces.
pub open spec fn spaces(n: nat) -> Seq<char> {
    Seq::new(n, |i: int| ' ')
}

/// A line: `indentation` spaces, then `prefix` and `text`, then a line break.
pub open spec fn line(indentation: u32, prefix: Seq<char>, text: Seq<char>) -> Seq<char> {
    spaces(indentation as nat) + prefix + text + seq!['\n']
}

/// The lines written for a found `inconsistency` of `key`: the key, then the new and the old stamp.
pub open spec fn inconsistency_lines(indentation: u32, key: Val, new_stamp: Val, stamp: Val) -> Seq<char> {
    line(indentation, "✗ "@, val_text(key)) + line(indentation, "  new: "@, val_text(new_stamp)) + line(
        indentation,
        "  old: "@,
        val_text(stamp),
    )
}

/// The text written for the outcome `inconsistency` of checking `key` against `stamp`.
pub open spec fn check_lines(indentation: u32, key: Val, stamp: Val, inconsistency: Option<Val>) -> Seq<char> {
    match inconsistency {
        Some(new_stamp) => inconsistency_lines(indentation, key, new_stamp, stamp),
        None => line(indentation, "✓ "@, val_text(key)),
    }
}

/// The text written for the outcome `outcome` of checking resource `key` against `stamp`.
pub open spec fn resource_check_lines(
    indentation: u32,
    key: Val,
    stamp: Val,
    outcome: Result<Option<Val>, FsError>,
) -> Seq<char> {
    match outcome {
        Err(_) => line(indentation, "✗ error "@, val_text(key)),
        Ok(inconsistency) => check_lines(indentation, key, stamp, inconsistency),
    }
}

impl<W: WriteText> WritingTracker<W> {
    /// Writes the indentation, then `prefix` and `text`, then a line break.
    fn writeln(&mut self, prefix: &str, text: &str)
        ensures
            final(self).spec_indentation() == old(self).spec_indentation(),
            final(self).spec_written() == old(self).spec_written() + line(old(self).spec_indentation(), prefix@, text@),
            final(self).spec_flushed() == old(self).spec_flushed(),
    {
        proof {
            reveal_strlit(" ");
            reveal_strlit("\n");
        }
        let mut i: u32 = 0;
        while i < self.indentation
            invariant
                i <= self.indentation,
                self.indentation == old(self).indentation,
                self.flushed@ == old(self).flushed@,
                self.written@ == old(self).written@ + spaces(i as nat),
                " "@ == seq![' '],
            decreases self.indentation - i,
        {
            self.writer.write_text(" ");
            proof {
                self.written@ = self.written@ + " "@;
                assert(spaces(i as nat) + seq![' '] =~= spaces((i + 1) as nat));
                assert(self.written@ =~= old(self).written@ + spaces((i + 1) as nat));
            }
            i = i + 1;
        }
        self.writer.write_text(prefix);
        self.writer.write_text(text);
        self.writer.write_text("\n");
        proof {
            self.written@ = self.written@ + prefix@ + text@ + "\n"@;
            assert(self.written@ =~= old(self).written@ + line(old(self).indentation, prefix@, text@));
        }
    }

    /// Writes the indentation, then `prefix` and the text of `value`, then a line break.
    fn writeln_value(&mut self, prefix: &str, value: &ValueObj)
        ensures
            final(self).spec_indentation() == old(self).spec_indentation(),
            final(self).spec_written() == old(self).spec_written() + line(
                old(self).spec_indentation(),
                prefix@,
                val_text(value@),
            ),
            final(self).spec_flushed() == old(self).spec_flushed(),
    {
        let text = value_text(value);
        self.writeln(prefix, text.as_str());
    }

    /// Writes the lines for a found inconsistency of `key`: the key, then the new and the old stamp.
    fn writeln_inconsistency(&mut self, key: &KeyObj, new_stamp: &ValueObj, stamp: &ValueObj)
        ensures
            final(self).spec_indentation() == old(self).spec_indentation(),
            final(self).spec_written() == old(self).spec_written() + inconsistency_lines(
                old(self).spec_indentation(),
                key@,
                new_stamp@,
                stamp@,
            ),
            final(self).spec_flushed() == old(self).spec_flushed(),
    {
        let key_text = value_text(key.as_value());
        let new_text = value_text(new_stamp);
        let old_text = value_text(stamp);
        self.writeln("✗ ", key_text.as_str());
        self.writeln("  new: ", new_text.as_str());
        self.writeln("  old: ", old_text.as_str());
        proof {
            let ind = old(self).spec_indentation();
            assert(self.spec_written() =~= old(self).spec_written() + inconsistency_lines(ind, key@, new_stamp@, stamp@));
        }
    }

    /// Adds a level of indentation.
    fn indent(&mut self)
        ensures
            final(self).spec_indentation() == indented(old(self).spec_indentation()),
            final(self).spec_written() == old(self).spec_written(),
            final(self).spec_flushed() == old(self).spec_flushed(),
    {
        self.indentation = self.indentation.saturating_add(1);
    }

    /// Removes a level of indentation.
    fn unindent(&mut self)
        ensures
            final(self).spec_indentation() == unindented(old(self).spec_indentation()),
            final(self).spec_written() == old(self).spec_written(),
            final(self).spec_flushed() == old(self).spec_flushed(),
    {
        self.indentation = self.indentation.saturating_sub(1);
    }

    /// Flushes the text written so far.
    fn flush(&mut self)
        ensures
            final(self).spec_indentation() == old(self).spec_indentation(),
            final(self).spec_written() == old(self).spec_written(),
            final(self).spec_flushed() == old(self).spec_written().len(),
    {
        self.writer.flush_text();
        proof {
            self.flushed@ = self.written@.len();
        }
    }
}

/// Each event writes its lines, indented by the nesting of requires, checks and executions, and flushes after events
/// that change the nesting and at the end of a build.
impl<W: WriteText> Tracker for WritingTracker<W> {
    open spec fn follows(&self, before: Self, event: TrackEvent) -> bool {
        let ind = before.spec_indentation();
        let w = before.spec_written();
        match event {
            TrackEvent::BuildStart => self.spec_indentation() == 0 && self.spec_written() == w
                && self.spec_flushed() == before.spec_flushed(),
            TrackEvent::BuildEnd => self.spec_indentation() == ind && self.spec_written() == w + line(ind, "🏁"@, ""@)
                && self.spec_flushed() == self.spec_written().len(),
            TrackEvent::RequireStart(task, _) => self.spec_indentation() == indented(ind) && self.spec_written() == w
                + line(ind, "→ "@, val_text(task)) && self.spec_flushed() == self.spec_written().len(),
            TrackEvent::RequireEnd(_, _, _, output) => self.spec_indentation() == unindented(ind) && self.spec_written()
                == w + line(unindented(ind), "← "@, val_text(output)) && self.spec_flushed()
                == self.spec_written().len(),
            TrackEvent::ReadEnd(resource, _, _) => self.spec_indentation() == ind && self.spec_written() == w + line(
                ind,
                "r "@,
                val_text(resource),
            ) && self.spec_flushed() == before.spec_flushed(),
            TrackEvent::WriteEnd(resource, _, _) => self.spec_indentation() == ind && self.spec_written() == w + line(
                ind,
                "w "@,
                val_text(resource),
            ) && self.spec_flushed() == before.spec_flushed(),
            TrackEvent::CheckTaskStart(task, _, _) => self.spec_indentation() == indented(ind) && self.spec_written()
                == w + line(ind, "? "@, val_text(task)) && self.spec_flushed() == self.spec_written().len(),
            TrackEvent::CheckTaskEnd(task, _, stamp, inconsistency) => self.spec_indentation() == unindented(ind)
                && self.spec_written() == w + check_lines(unindented(ind), task, stamp, inconsistency)
                && self.spec_flushed() == self.spec_written().len(),
            TrackEvent::CheckResourceEnd(resource, _, stamp, outcome) => self.spec_indentation() == ind
                && self.spec_written() == w + resource_check_lines(ind, resource, stamp, outcome)
                && self.spec_flushed() == before.spec_flushed(),
            TrackEvent::ExecuteStart(task) => self.spec_indentation() == indented(ind) && self.spec_written() == w
                + line(ind, "▶ "@, val_text(task)) && self.spec_flushed() == self.spec_written().len(),
            TrackEvent::ExecuteEnd(_, output) => self.spec_indentation() == unindented(ind) && self.spec_written() == w
                + line(unindented(ind), "◀ "@, val_text(output)) && self.spec_flushed()
                == self.spec_written().len(),
            _ => self.spec_indentation() == ind && self.spec_written() == w && self.spec_flushed()
                == before.spec_flushed(),
        }
    }

    fn build_start(&mut self) {
        self.indentation = 0;
    }

    fn build_end(&mut self) {
        self.writeln("🏁", "");
        self.flush();
    }

    fn require_start(&mut self, task: &KeyObj, checker: OutputCheckerObj) {
        self.writeln_value("→ ", task.as_value());
        self.indent();
        self.flush();
    }

    fn require_end(&mut self, task: &KeyObj, checker: OutputCheckerObj, stamp: &ValueObj, output: &ValueObj) {
        self.unindent();
        self.writeln_value("← ", output);
        self.flush();
    }

    fn read_end(&mut self, resource: &KeyObj, checker: ResourceCheckerObj, stamp: &ValueObj) {
        self.writeln_value("r ", resource.as_value());
    }

    fn write_end(&mut self, resource: &KeyObj, checker: ResourceCheckerObj, stamp: &ValueObj) {
        self.writeln_value("w ", resource.as_value());
    }

    fn check_task_start(&mut self, task: &KeyObj, checker: OutputCheckerObj, stamp: &ValueObj) {
        self.writeln_value("? ", task.as_value());
        self.indent();
        self.flush();
    }

    fn check_task_end(
        &mut self,
        task: &KeyObj,
        checker: OutputCheckerObj,
        stamp: &ValueObj,
        inconsistency: Option<&ValueObj>,
    ) {
        self.unindent();
        match inconsistency {
            Some(new_stamp) => {
                self.writeln_inconsistency(task, new_stamp, stamp);
            },
            None => {
                self.writeln_value("✓ ", task.as_value());
            },
        }
        self.flush();
    }

    fn check_resource_end(
        &mut self,
        resource: &KeyObj,
        checker: ResourceCheckerObj,
        stamp: &ValueObj,
        inconsistency: Result<Option<&ValueObj>, &FsError>,
    ) {
        match inconsistency {
            Err(_) => {
                self.writeln_value("✗ error ", resource.as_value());
            },
            Ok(Some(new_stamp)) => {
                self.writeln_inconsistency(resource, new_stamp, stamp);
            },
            Ok(None) => {
                self.writeln_value("✓ ", resource.as_value());
            },
        }
    }

    fn execute_start(&mut self, task: &KeyObj) {
        self.writeln_value("▶ ", task.as_value());
        self.indent();
        self.flush();
    }

    fn execute_end(&mut self, task: &KeyObj, output: &ValueObj) {
        self.unindent();
        self.writeln_value("◀ ", output);
        self.flush();
    }

    fn read_start(&mut self, resource: &KeyObj, checker: ResourceCheckerObj) {
    }

    fn write_start(&mut self, resource: &KeyObj, checker: ResourceCheckerObj) {
    }

    fn check_resource_start(&mut self, resource: &KeyObj, checker: ResourceCheckerObj, stamp: &ValueObj) {
    }

    fn schedule_affected_by_task_start(&mut self, task: &KeyObj) {
    }

    fn check_task_require_task_start(&mut self, requiring_task: &KeyObj, checker: OutputCheckerObj, stamp: &ValueObj) {
    }

    fn check_task_require_task_end(&mut self, requiring_task: &KeyObj, checker: OutputCheckerObj, stamp: &ValueObj, inconsistency: Option<&ValueObj>) {
    }

    fn schedule_affected_by_task_end(&mut self, task: &KeyObj) {
    }

    fn schedule_affected_by_resource_start(&mut self, resource: &KeyObj) {
    }

    fn check_task_read_resource_start(&mut self, reading_task: &KeyObj, checker: ResourceCheckerObj, stamp: &ValueObj) {
    }

    fn check_task_read_resource_end(&mut self, reading_task: &KeyObj, checker: ResourceCheckerObj, stamp: &ValueObj, inconsistency: Result<Option<&ValueObj>, &FsError>) {
    }

    fn schedule_affected_by_resource_end(&mut self, resource: &KeyObj) {
    }

    fn schedule_task(&mut self, task: &KeyObj) {
    }
}

} // verus!
