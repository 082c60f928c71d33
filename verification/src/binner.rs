use crate::bins::{
    lemma_merged_with_events, lemma_with_events_add, lemma_with_events_push, lemma_with_no_events,
    Bins, BinsView,
};
use crate::chunks::{chunk_bounds, chunk_start, effective_workers, lemma_chunks_cover};
use crate::event::{EventView, MessageEvent, Operation};
use crate::extract::{extract_event, line_extraction, Extraction, ExtractionView, LineFault};
use crate::pattern::TracePattern;
use vstd::prelude::*;

verus! {

/// A line that has the structure of an event and gave none.
#[derive(Clone, Copy, Debug, PartialEq, Eq, Structural)]
pub struct LineDiagnostic {
    /// Position of the line among the lines that were read, from 0.
    pub line: usize,
    pub fault: LineFault,
}

/// The events that `lines` hold, in the order of the lines.
pub open spec fn events_in(lines: Seq<Seq<char>>) -> Seq<EventView>
    decreases lines.len(),
{
    if lines.len() == 0 {
        Seq::empty()
    } else {
        match line_extraction(lines.last()) {
            ExtractionView::Matched(event) => events_in(lines.drop_last()).push(event),
            _ => events_in(lines.drop_last()),
        }
    }
}

/// The faulty lines among `lines`, in their order, where the first line counts
/// as line `first`.
pub open spec fn faults_in(lines: Seq<Seq<char>>, first: int) -> Seq<LineDiagnostic>
    decreases lines.len(),
{
    if lines.len() == 0 {
        Seq::empty()
    } else {
        match line_extraction(lines.last()) {
            ExtractionView::Malformed(fault) => faults_in(lines.drop_last(), first).push(
                LineDiagnostic { line: (first + lines.len() - 1) as usize, fault },
            ),
            _ => faults_in(lines.drop_last(), first),
        }
    }
}

/// The test for an event of one direction.
pub open spec fn directed(operation: Operation) -> spec_fn(EventView) -> bool {
    |event: EventView| event.operation == operation
}

/// The send events among `events`, in their order.
pub open spec fn sent(events: Seq<EventView>) -> Seq<EventView> {
    events.filter(directed(Operation::Send))
}

/// The receive events among `events`, in their order.
pub open spec fn received(events: Seq<EventView>) -> Seq<EventView> {
    events.filter(directed(Operation::Receive))
}

/// Puts an event into the bins of its direction, under its rank pair.
pub fn bin_event(event: MessageEvent, send_bins: &mut Bins, recv_bins: &mut Bins)
    ensures
        event.operation == Operation::Send ==> final(send_bins)@ == old(send_bins)@.with_event(
            event@,
        ) && final(recv_bins)@ == old(recv_bins)@,
        event.operation == Operation::Receive ==> final(recv_bins)@ == old(
            recv_bins,
        )@.with_event(event@) && final(send_bins)@ == old(send_bins)@,
{
    match event.operation {
        Operation::Send => send_bins.insert(event),
        Operation::Receive => recv_bins.insert(event),
    }
}

/// What one more event adds to the events of each direction.
pub proof fn lemma_directed_push(events: Seq<EventView>, event: EventView)
    ensures
        sent(events.push(event)) == if event.operation == Operation::Send {
            sent(events).push(event)
        } else {
            sent(events)
        },
        received(events.push(event)) == if event.operation == Operation::Receive {
            received(events).push(event)
        } else {
            received(events)
        },
{
    events.lemma_filter_push(event, directed(Operation::Send));
    events.lemma_filter_push(event, directed(Operation::Receive));
}

/// No events, no events of either direction.
pub proof fn lemma_directed_empty()
    ensures
        sent(Seq::empty()) == Seq::<EventView>::empty(),
        received(Seq::empty()) == Seq::<EventView>::empty(),
{
    Seq::<EventView>::empty().lemma_filter_len(directed(Operation::Send));
    Seq::<EventView>::empty().lemma_filter_len(directed(Operation::Receive));
    assert(sent(Seq::empty()) =~= Seq::<EventView>::empty());
    assert(received(Seq::empty()) =~= Seq::<EventView>::empty());
}

/// How the bins of both directions change with one more event.
proof fn lemma_binned_push(
    send: BinsView,
    recv: BinsView,
    events: Seq<EventView>,
    event: EventView,
)
    ensures
        send.with_events(sent(events.push(event))) == if event.operation == Operation::Send {
            send.with_events(sent(events)).with_event(event)
        } else {
            send.with_events(sent(events))
        },
        recv.with_events(received(events.push(event))) == if event.operation
            == Operation::Receive {
            recv.with_events(received(events)).with_event(event)
        } else {
            recv.with_events(received(events))
        },
{
    lemma_directed_push(events, event);
    lemma_with_events_push(send, sent(events), event);
    lemma_with_events_push(recv, received(events), event);
}

/// Puts each event into the bins of its direction, under its rank pair.
pub fn bin_events(events: Vec<MessageEvent>, send_bins: &mut Bins, recv_bins: &mut Bins)
    ensures
        final(send_bins)@ == old(send_bins)@.with_events(sent(events.deep_view())),
        final(recv_bins)@ == old(recv_bins)@.with_events(received(events.deep_view())),
{
    let ghost all = events.deep_view();
    let ghost send_start = send_bins@;
    let ghost recv_start = recv_bins@;
    proof {
        lemma_directed_empty();
        lemma_with_no_events(send_start);
        lemma_with_no_events(recv_start);
        assert(all.take(0) =~= Seq::<EventView>::empty());
    }
    for event in walk: events.into_iter()
        invariant
            walk.seq() == events@,
            all == events.deep_view(),
            send_bins@ == send_start.with_events(sent(all.take(walk.index() as int))),
            recv_bins@ == recv_start.with_events(received(all.take(walk.index() as int))),
    {
        proof {
            let done = walk.index() as int;
            assert(all.take(done + 1) =~= all.take(done).push(event@));
            lemma_binned_push(send_start, recv_start, all.take(done), event@);
        }
        bin_event(event, send_bins, recv_bins);
    }
    proof {
        assert(all.take(all.len() as int) =~= all);
    }
}

/// Reads `lines` in order and puts the event of each line that holds one into
/// the bins of its direction. Returns the faulty lines, counted from 0.
pub fn parse_lines(
    lines: &[String],
    pattern: &TracePattern,
    send_bins: &mut Bins,
    recv_bins: &mut Bins,
) -> (faults: Vec<LineDiagnostic>)
    ensures
        final(send_bins)@ == old(send_bins)@.with_events(sent(events_in(lines.deep_view()))),
        final(recv_bins)@ == old(recv_bins)@.with_events(received(events_in(lines.deep_view()))),
        faults@ == faults_in(lines.deep_view(), 0),
{
    let ghost text = lines.deep_view();
    let ghost send_start = send_bins@;
    let ghost recv_start = recv_bins@;
    let mut faults: Vec<LineDiagnostic> = Vec::new();
    proof {
        lemma_directed_empty();
        lemma_with_no_events(send_start);
        lemma_with_no_events(recv_start);
        assert(text.take(0) =~= Seq::<Seq<char>>::empty());
    }
    let mut index: usize = 0;
    while index < lines.len()
        invariant
            index <= lines@.len(),
            text == lines.deep_view(),
            send_bins@ == send_start.with_events(sent(events_in(text.take(index as int)))),
            recv_bins@ == recv_start.with_events(received(events_in(text.take(index as int)))),
            faults@ == faults_in(text.take(index as int), 0),
        decreases lines@.len() - index,
    {
        proof {
            let done = text.take(index as int);
            let next = text.take(index + 1);
            assert(next.drop_last() =~= done);
            assert(next.last() == lines@[index as int]@);
            match line_extraction(next.last()) {
                ExtractionView::Matched(event) => {
                    lemma_binned_push(send_start, recv_start, events_in(done), event);
                },
                _ => {},
            }
        }
        match extract_event(pattern, lines[index].as_str()) {
            Extraction::Matched(event) => bin_event(event, send_bins, recv_bins),
            Extraction::Skipped => {},
            Extraction::Malformed(fault) => faults.push(LineDiagnostic { line: index, fault }),
        }
        index += 1;
    }
    proof {
        assert(text.take(index as int) =~= text);
    }
    faults
}

/// The events of two runs of lines are those of the first, then those of the
/// second.
pub proof fn lemma_events_in_add(first: Seq<Seq<char>>, second: Seq<Seq<char>>)
    ensures
        events_in(first + second) == events_in(first) + events_in(second),
    decreases second.len(),
{
    if second.len() == 0 {
        assert(first + second =~= first);
        assert(events_in(first) + events_in(second) =~= events_in(first));
    } else {
        let all = first + second;
        assert(all.drop_last() =~= first + second.drop_last());
        assert(all.last() == second.last());
        lemma_events_in_add(first, second.drop_last());
        let head = events_in(first) + events_in(second.drop_last());
        match line_extraction(second.last()) {
            ExtractionView::Matched(event) => {
                assert(head.push(event) =~= events_in(first) + events_in(second));
            },
            _ => {},
        }
    }
}

/// The faulty lines of two runs of lines are those of the first, then those of
/// the second, which are counted on from the first.
pub proof fn lemma_faults_in_add(first: Seq<Seq<char>>, second: Seq<Seq<char>>, start: int)
    ensures
        faults_in(first + second, start) == faults_in(first, start) + faults_in(
            second,
            start + first.len(),
        ),
    decreases second.len(),
{
    if second.len() == 0 {
        assert(first + second =~= first);
        assert(faults_in(first, start) + faults_in(second, start + first.len()) =~= faults_in(
            first,
            start,
        ));
    } else {
        let all = first + second;
        assert(all.drop_last() =~= first + second.drop_last());
        assert(all.last() == second.last());
        lemma_faults_in_add(first, second.drop_last(), start);
        let head = faults_in(first, start) + faults_in(second.drop_last(), start + first.len());
        match line_extraction(second.last()) {
            ExtractionView::Malformed(fault) => {
                let found = LineDiagnostic { line: (start + all.len() - 1) as usize, fault };
                assert(head.push(found) =~= faults_in(first, start) + faults_in(
                    second,
                    start + first.len(),
                ));
            },
            _ => {},
        }
    }
}

/// Counting the lines from `start` moves each faulty line by `start`.
pub proof fn lemma_faults_in_shift(lines: Seq<Seq<char>>, start: int)
    requires
        0 <= start,
        start + lines.len() <= usize::MAX,
    ensures
        faults_in(lines, start).len() == faults_in(lines, 0).len(),
        forall|i: int|
            0 <= i < faults_in(lines, 0).len() ==> {
                &&& (#[trigger] faults_in(lines, 0)[i]).line < lines.len()
                &&& faults_in(lines, start)[i].line == start + faults_in(lines, 0)[i].line
                &&& faults_in(lines, start)[i].fault == faults_in(lines, 0)[i].fault
            },
    decreases lines.len(),
{
    if lines.len() > 0 {
        lemma_faults_in_shift(lines.drop_last(), start);
    }
}

/// The events of a direction among two runs of events.
pub proof fn lemma_directed_add(first: Seq<EventView>, second: Seq<EventView>)
    ensures
        sent(first + second) == sent(first) + sent(second),
        received(first + second) == received(first) + received(second),
{
    Seq::filter_distributes_over_add(first, second, directed(Operation::Send));
    Seq::filter_distributes_over_add(first, second, directed(Operation::Receive));
}

/// What reading a trace gives: the send events and the receive events, each
/// grouped by rank pair, and the faulty lines.
pub struct ParsedTrace {
    pub send_bins: Bins,
    pub recv_bins: Bins,
    pub faults: Vec<LineDiagnostic>,
}

impl ParsedTrace {
    /// What `lines` hold, where the first of them counts as line `first`.
    pub open spec fn holds(self, lines: Seq<Seq<char>>, first: int) -> bool {
        &&& self.send_bins@ == BinsView::empty().with_events(sent(events_in(lines)))
        &&& self.recv_bins@ == BinsView::empty().with_events(received(events_in(lines)))
        &&& self.faults@ == faults_in(lines, first)
    }

    /// The result of reading no line.
    pub fn new() -> (parsed: ParsedTrace)
        ensures
            parsed.holds(Seq::empty(), 0),
    {
        proof {
            lemma_directed_empty();
            lemma_with_no_events(BinsView::empty());
        }
        ParsedTrace { send_bins: Bins::new(), recv_bins: Bins::new(), faults: Vec::new() }
    }

    /// Appends what the lines that follow hold.
    pub fn absorb(&mut self, next: ParsedTrace)
        ensures
            final(self).send_bins@ == old(self).send_bins@.merged(next.send_bins@),
            final(self).recv_bins@ == old(self).recv_bins@.merged(next.recv_bins@),
            final(self).faults@ == old(self).faults@ + next.faults@,
    {
        let mut next = next;
        self.send_bins.merge(next.send_bins);
        self.recv_bins.merge(next.recv_bins);
        self.faults.append(&mut next.faults);
    }
}

/// What is read from a run of lines and from the run that follows it, put
/// together, is what is read from both runs as one.
pub proof fn lemma_absorb_holds(
    before: ParsedTrace,
    next: ParsedTrace,
    after: ParsedTrace,
    first: Seq<Seq<char>>,
    second: Seq<Seq<char>>,
)
    requires
        before.holds(first, 0),
        next.holds(second, first.len() as int),
        after.send_bins@ == before.send_bins@.merged(next.send_bins@),
        after.recv_bins@ == before.recv_bins@.merged(next.recv_bins@),
        after.faults@ == before.faults@ + next.faults@,
    ensures
        after.holds(first + second, 0),
{
    lemma_events_in_add(first, second);
    lemma_directed_add(events_in(first), events_in(second));
    lemma_faults_in_add(first, second, 0);
    lemma_merged_with_events(before.send_bins@, sent(events_in(second)));
    lemma_merged_with_events(before.recv_bins@, received(events_in(second)));
    lemma_with_events_add(BinsView::empty(), sent(events_in(first)), sent(events_in(second)));
    lemma_with_events_add(
        BinsView::empty(),
        received(events_in(first)),
        received(events_in(second)),
    );
}

/// Reads one chunk of a trace into bins of its own. The first line of the
/// chunk is line `first_line` of the trace.
pub fn parse_chunk(lines: &[String], pattern: &TracePattern, first_line: usize) -> (parsed:
    ParsedTrace)
    requires
        first_line + lines@.len() <= usize::MAX,
    ensures
        parsed.holds(lines.deep_view(), first_line as int),
{
    let mut send_bins = Bins::new();
    let mut recv_bins = Bins::new();
    let local = parse_lines(lines, pattern, &mut send_bins, &mut recv_bins);
    let mut faults: Vec<LineDiagnostic> = Vec::new();
    proof {
        lemma_faults_in_shift(lines.deep_view(), first_line as int);
    }
    let ghost wanted = faults_in(lines.deep_view(), first_line as int);
    let mut index: usize = 0;
    while index < local.len()
        invariant
            index <= local@.len(),
            local@ == faults_in(lines.deep_view(), 0),
            wanted == faults_in(lines.deep_view(), first_line as int),
            first_line + lines@.len() <= usize::MAX,
            wanted.len() == local@.len(),
            forall|i: int|
                0 <= i < local@.len() ==> {
                    &&& (#[trigger] local@[i]).line < lines@.len()
                    &&& wanted[i].line == first_line + local@[i].line
                    &&& wanted[i].fault == local@[i].fault
                },
            faults@ == wanted.take(index as int),
        decreases local@.len() - index,
    {
        let found = local[index];
        faults.push(LineDiagnostic { line: first_line + found.line, fault: found.fault });
        proof {
            assert(wanted.take(index + 1) =~= wanted.take(index as int).push(wanted[index as int]));
        }
        index += 1;
    }
    proof {
        assert(wanted.take(index as int) =~= wanted);
    }
    ParsedTrace { send_bins, recv_bins, faults }
}

/// Number of lines in the chunks before chunk `index`.
pub open spec fn lines_before(len: int, workers: int, index: int) -> int {
    if index >= workers {
        len
    } else {
        chunk_start(len, workers, index)
    }
}

/// Reads a trace in as many chunks as there are workers, one after the other,
/// and puts the results together in the order of the chunks. A request for no
/// worker stands for the default number. The result is that of reading all
/// lines in one run, whatever the number of workers.
pub fn parse_trace(lines: &[String], pattern: &TracePattern, workers: usize) -> (parsed:
    ParsedTrace)
    ensures
        parsed.holds(lines.deep_view(), 0),
{
    let workers = effective_workers(workers);
    let ghost text = lines.deep_view();
    let mut parsed = ParsedTrace::new();
    proof {
        lemma_chunks_cover(lines@.len() as int, workers as int, 0);
        assert(text.take(0) =~= Seq::<Seq<char>>::empty());
    }
    let mut index: usize = 0;
    while index < workers
        invariant
            index <= workers,
            text == lines.deep_view(),
            parsed.holds(
                text.take(lines_before(lines@.len() as int, workers as int, index as int)),
                0,
            ),
        decreases workers - index,
    {
        let bounds = chunk_bounds(lines.len(), workers, index);
        let chunk = vstd::slice::slice_subrange(lines, bounds.0, bounds.1);
        let next = parse_chunk(chunk, pattern, bounds.0);
        let ghost before = parsed;
        parsed.absorb(next);
        proof {
            lemma_chunks_cover(lines@.len() as int, workers as int, index as int);
            let first = text.take(bounds.0 as int);
            let second = chunk.deep_view();
            assert(second =~= text.subrange(bounds.0 as int, bounds.1 as int));
            assert(first + second =~= text.take(bounds.1 as int));
            lemma_absorb_holds(before, next, parsed, first, second);
        }
        index += 1;
    }
    proof {
        assert(text.take(lines@.len() as int) =~= text);
    }
    parsed
}

} // verus!
