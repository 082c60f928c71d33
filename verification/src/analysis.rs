use crate::binner::{events_in, faults_in, parse_trace, received, sent, LineDiagnostic};
use crate::bins::BinsView;
use crate::correlate::{correlate, matches_of, pairs_of, Correlation};
use crate::pattern::TracePattern;
use vstd::prelude::*;

verus! {

/// The send events of `lines`, grouped by rank pair.
pub open spec fn send_bins_of(lines: Seq<Seq<char>>) -> BinsView {
    BinsView::empty().with_events(sent(events_in(lines)))
}

/// The receive events of `lines`, grouped by rank pair.
pub open spec fn recv_bins_of(lines: Seq<Seq<char>>) -> BinsView {
    BinsView::empty().with_events(received(events_in(lines)))
}

/// What a trace gives: the matched records with the rank pairs they belong
/// to, and the faulty lines.
pub struct TraceAnalysis {
    pub correlation: Correlation,
    pub faults: Vec<LineDiagnostic>,
}

/// Reads a trace with the given number of workers and correlates its send
/// events with its receive events. The number of workers has no bearing on
/// the result.
pub fn analyze_trace(lines: &[String], pattern: &TracePattern, workers: usize) -> (analysis:
    TraceAnalysis)
    ensures
        analysis.correlation@.records == matches_of(
            send_bins_of(lines.deep_view()),
            recv_bins_of(lines.deep_view()),
        ),
        analysis.correlation@.pairs == pairs_of(
            send_bins_of(lines.deep_view()),
            recv_bins_of(lines.deep_view()),
        ),
        analysis.faults@ == faults_in(lines.deep_view(), 0),
{
    let parsed = parse_trace(lines, pattern, workers);
    let correlation = correlate(&parsed.send_bins, &parsed.recv_bins);
    TraceAnalysis { correlation, faults: parsed.faults }
}

} // verus!
