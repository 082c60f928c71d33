use crate::event::{is_timestamp, timestamp_is_valid, EventView, MessageEvent, Operation};
use crate::pattern::{trace_captures, TracePattern};
use vstd::prelude::*;

verus! {

/// Why a line that has the structure of an event gave none.
#[derive(Clone, Copy, Debug, PartialEq, Eq, Structural)]
pub enum LineFault {
    /// The capture groups are not the eight that the event pattern has.
    Fields,
    /// The timestamp is not a number.
    Timestamp,
    /// The operation keyword is neither `send` nor `recv`.
    Operation,
}

/// The outcome of reading one line.
#[derive(Clone, Debug, PartialEq, Eq)]
pub enum Extraction {
    /// The line holds an event.
    Matched(MessageEvent),
    /// The line does not have the structure of an event.
    Skipped,
    /// The line has the structure of an event, but a field of it is faulty.
    Malformed(LineFault),
}

/// The mathematical value of an [`Extraction`].
pub enum ExtractionView {
    Matched(EventView),
    Skipped,
    Malformed(LineFault),
}

impl View for Extraction {
    type V = ExtractionView;

    open spec fn view(&self) -> ExtractionView {
        match self {
            Extraction::Matched(event) => ExtractionView::Matched(event@),
            Extraction::Skipped => ExtractionView::Skipped,
            Extraction::Malformed(fault) => ExtractionView::Malformed(*fault),
        }
    }
}

/// Number of capture groups of the event pattern, the whole match included.
pub const GROUP_COUNT: usize = 8;

/// All groups but the whole match are present.
pub open spec fn has_all_fields(groups: Seq<Option<Seq<char>>>) -> bool {
    groups.len() == GROUP_COUNT && forall|i: int| 1 <= i < GROUP_COUNT ==> (#[trigger] groups[i]) is Some
}

/// The operation that a keyword names.
pub open spec fn operation_named(keyword: Seq<char>) -> Option<Operation> {
    if keyword == "send"@ {
        Some(Operation::Send)
    } else if keyword == "recv"@ {
        Some(Operation::Receive)
    } else {
        None
    }
}

/// The outcome for a line, given what the event pattern captured in it.
///
/// Group 1 is the timestamp, group 2 the local rank, group 4 the operation
/// keyword, group 5 the message kind, group 6 the remote rank and group 7 the
/// size. Group 3, the number of ranks, is not kept.
pub open spec fn extraction_of(captures: Option<Seq<Option<Seq<char>>>>) -> ExtractionView {
    match captures {
        None => ExtractionView::Skipped,
        Some(groups) => {
            if !has_all_fields(groups) {
                ExtractionView::Malformed(LineFault::Fields)
            } else if !is_timestamp(groups[1]->0) {
                ExtractionView::Malformed(LineFault::Timestamp)
            } else {
                match operation_named(groups[4]->0) {
                    None => ExtractionView::Malformed(LineFault::Operation),
                    Some(operation) => ExtractionView::Matched(
                        EventView {
                            operation,
                            timestamp: groups[1]->0,
                            local_rank: groups[2]->0,
                            remote_rank: groups[6]->0,
                            user_type: groups[5]->0,
                            size: groups[7]->0,
                        },
                    ),
                }
            }
        },
    }
}

/// The outcome of reading `line`.
pub open spec fn line_extraction(line: Seq<char>) -> ExtractionView {
    extraction_of(trace_captures(line))
}

/// Decides which operation a keyword names.
pub fn operation_of_keyword(keyword: &String) -> (operation: Option<Operation>)
    ensures
        operation == operation_named(keyword@),
{
    let send = "send".to_owned();
    let recv = "recv".to_owned();
    if *keyword == send {
        Some(Operation::Send)
    } else if *keyword == recv {
        Some(Operation::Receive)
    } else {
        None
    }
}

/// Tells whether all of groups 1 to 7 are present.
fn fields_present(groups: &Vec<Option<String>>) -> (present: bool)
    ensures
        present == has_all_fields(groups.deep_view()),
{
    if groups.len() != GROUP_COUNT {
        return false;
    }
    let mut i: usize = 1;
    while i < GROUP_COUNT
        invariant
            1 <= i <= GROUP_COUNT,
            groups@.len() == GROUP_COUNT,
            forall|j: int| 1 <= j < i ==> (#[trigger] groups.deep_view()[j]) is Some,
        decreases GROUP_COUNT - i,
    {
        if groups[i].is_none() {
            assert(groups.deep_view()[i as int] is None);
            return false;
        }
        i += 1;
    }
    true
}

/// The text of a group that is present.
fn field(groups: &Vec<Option<String>>, index: usize) -> (text: String)
    requires
        index < groups@.len(),
        groups@[index as int] is Some,
    ensures
        Some(text@) == groups.deep_view()[index as int],
{
    match &groups[index] {
        Some(text) => text.clone(),
        None => String::new(),
    }
}

/// Builds the outcome for a line from what the event pattern captured in it.
pub fn classify_captures(captures: &Option<Vec<Option<String>>>) -> (outcome: Extraction)
    ensures
        outcome@ == extraction_of(captures.deep_view()),
{
    match captures {
        None => Extraction::Skipped,
        Some(groups) => {
            if !fields_present(groups) {
                return Extraction::Malformed(LineFault::Fields);
            }
            assert(forall|i: int| 1 <= i < GROUP_COUNT ==> (#[trigger] groups.deep_view()[i]) is Some);
            let timestamp = field(groups, 1);
            if !timestamp_is_valid(timestamp.as_str()) {
                return Extraction::Malformed(LineFault::Timestamp);
            }
            let keyword = field(groups, 4);
            match operation_of_keyword(&keyword) {
                None => Extraction::Malformed(LineFault::Operation),
                Some(operation) => Extraction::Matched(
                    MessageEvent {
                        operation,
                        timestamp,
                        local_rank: field(groups, 2),
                        remote_rank: field(groups, 6),
                        user_type: field(groups, 5),
                        size: field(groups, 7),
                    },
                ),
            }
        },
    }
}

/// Reads one line of a trace.
pub fn extract_event(pattern: &TracePattern, line: &str) -> (outcome: Extraction)
    ensures
        outcome@ == line_extraction(line@),
{
    let captures = pattern.captures(line);
    classify_captures(&captures)
}

} // verus!
