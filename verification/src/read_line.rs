//! The decisions of reading one line of input: what an editor result means,
//! what follows the slash-command picker, how a line read without the
//! editor is cleaned up, and which lines enter the history.
use vstd::prelude::*;

use crate::picker::SlashCommandPickerOutcome;
use crate::text::{chars_of, string_from_chars, trim, trim_str};

verus! {

/// What reading a line gives.
#[derive(Debug, Clone, PartialEq, Eq)]
pub enum ReadOutcome {
    /// A line was entered.
    Submit(String),
    /// The line was abandoned.
    Cancel,
    /// Input ended.
    Exit,
}

/// What the line editor reported.
#[derive(Debug, Clone, PartialEq, Eq)]
pub enum EditorEvent {
    /// A line was entered.
    Line(String),
    /// Reading was interrupted: by the picker's key, or by the user with or
    /// without input in the buffer.
    Interrupted { picker_requested: bool, has_input: bool },
    /// Input ended.
    Eof,
}

/// What to do about an editor result.
#[derive(Debug, Clone, PartialEq, Eq)]
pub enum EditorAction {
    /// Return this outcome.
    Finish(ReadOutcome),
    /// Clear the prompt line and open the slash-command picker.
    OpenPicker,
    /// Forget the buffer, end the output line, and return this outcome.
    FinishInterrupted(ReadOutcome),
}

/// What an editor result means: an entered line is submitted; an interrupt
/// opens the picker when the picker's key caused it, else cancels a
/// non-empty buffer and exits on an empty one; end of input exits.
pub fn editor_action(event: EditorEvent) -> (r: EditorAction)
    ensures
        match event {
            EditorEvent::Line(s) => r == EditorAction::Finish(ReadOutcome::Submit(s)),
            EditorEvent::Interrupted { picker_requested, has_input } => if picker_requested {
                r == EditorAction::OpenPicker
            } else if has_input {
                r == EditorAction::FinishInterrupted(ReadOutcome::Cancel)
            } else {
                r == EditorAction::FinishInterrupted(ReadOutcome::Exit)
            },
            EditorEvent::Eof => r == EditorAction::FinishInterrupted(ReadOutcome::Exit),
        },
{
    match event {
        EditorEvent::Line(s) => EditorAction::Finish(ReadOutcome::Submit(s)),
        EditorEvent::Interrupted { picker_requested, has_input } => {
            if picker_requested {
                EditorAction::OpenPicker
            } else if has_input {
                EditorAction::FinishInterrupted(ReadOutcome::Cancel)
            } else {
                EditorAction::FinishInterrupted(ReadOutcome::Exit)
            }
        },
        EditorEvent::Eof => EditorAction::FinishInterrupted(ReadOutcome::Exit),
    }
}

/// What follows the picker.
#[derive(Debug, Clone, PartialEq, Eq)]
pub enum AfterPicker {
    /// Return this outcome.
    Done(ReadOutcome),
    /// Read the line again, starting from this text.
    Reread(String),
}

/// What follows the picker: a chosen command is submitted, a prefill is
/// edited further, a cancel cancels.
pub fn after_picker(outcome: SlashCommandPickerOutcome) -> (r: AfterPicker)
    ensures
        match outcome {
            SlashCommandPickerOutcome::Submit(s) => r == AfterPicker::Done(ReadOutcome::Submit(s)),
            SlashCommandPickerOutcome::Prefill(s) => r == AfterPicker::Reread(s),
            SlashCommandPickerOutcome::Cancel => r == AfterPicker::Done(ReadOutcome::Cancel),
        },
{
    match outcome {
        SlashCommandPickerOutcome::Submit(s) => AfterPicker::Done(ReadOutcome::Submit(s)),
        SlashCommandPickerOutcome::Prefill(s) => AfterPicker::Reread(s),
        SlashCommandPickerOutcome::Cancel => AfterPicker::Done(ReadOutcome::Cancel),
    }
}

/// A line without its trailing line-ending characters (`\n`, `\r`).
pub open spec fn strip_line_endings(s: Seq<char>) -> Seq<char>
    decreases s.len(),
{
    if s.len() > 0 && (s.last() == '\n' || s.last() == '\r') {
        strip_line_endings(s.drop_last())
    } else {
        s
    }
}

/// What a line read without the editor gives: nothing read is the end of
/// input, else the line without its line ending.
pub fn fallback_outcome(bytes_read: usize, buffer: &str) -> (r: ReadOutcome)
    ensures
        bytes_read == 0 ==> r == ReadOutcome::Exit,
        bytes_read > 0 ==> (r matches ReadOutcome::Submit(s) && s@ == strip_line_endings(buffer@)),
{
    if bytes_read == 0 {
        return ReadOutcome::Exit;
    }
    let v = chars_of(buffer);
    let mut end: usize = v.len();
    assert(v@.take(v@.len() as int) =~= v@);
    while end > 0 && (v[end - 1] == '\n' || v[end - 1] == '\r')
        invariant
            v@ == buffer@,
            end <= v@.len(),
            strip_line_endings(v@) == strip_line_endings(v@.take(end as int)),
        decreases end,
    {
        assert(v@.take(end as int).drop_last() =~= v@.take(end - 1));
        end = end - 1;
    }
    let kept = vstd::slice::slice_subrange(v.as_slice(), 0, end);
    assert(kept@ =~= v@.take(end as int));
    ReadOutcome::Submit(string_from_chars(kept))
}

/// Whether an entry goes into the history: when it is not blank.
pub fn should_record_history(entry: &str) -> (r: bool)
    ensures
        r == (trim(entry@).len() > 0),
{
    trim_str(entry).len() > 0
}

} // verus!
