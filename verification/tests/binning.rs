use tracer_parser::binner::{bin_event, bin_events, parse_chunk, parse_lines, parse_trace, LineDiagnostic, ParsedTrace};
use tracer_parser::bins::Bins;
use tracer_parser::chunks::{chunk_bounds, effective_workers, DEFAULT_WORKERS};
use tracer_parser::event::{MessageEvent, Operation};
use tracer_parser::extract::LineFault;
use tracer_parser::pattern::TracePattern;

fn event(operation: Operation, timestamp: &str, local_rank: &str, remote_rank: &str) -> MessageEvent {
    MessageEvent {
        operation,
        timestamp: timestamp.to_string(),
        local_rank: local_rank.to_string(),
        remote_rank: remote_rank.to_string(),
        user_type: "7".to_string(),
        size: "64".to_string(),
    }
}

fn send(timestamp: &str, local_rank: &str, remote_rank: &str) -> MessageEvent {
    event(Operation::Send, timestamp, local_rank, remote_rank)
}

fn recv(timestamp: &str, local_rank: &str, remote_rank: &str) -> MessageEvent {
    event(Operation::Receive, timestamp, local_rank, remote_rank)
}

fn contents(bins: &Bins) -> Vec<(String, String, Vec<String>)> {
    (0..bins.len())
        .map(|index| {
            (
                bins.local_rank(index).clone(),
                bins.remote_rank(index).clone(),
                bins.events(index).iter().map(|event| event.timestamp.clone()).collect(),
            )
        })
        .collect()
}

fn bin(local_rank: &str, remote_rank: &str, timestamps: &[&str]) -> (String, String, Vec<String>) {
    (
        local_rank.to_string(),
        remote_rank.to_string(),
        timestamps.iter().map(|text| text.to_string()).collect(),
    )
}

fn trace() -> Vec<String> {
    [
        "0.100 0/4: send 7 1 64",
        "# comment",
        "0.200 1/4: recv 7 0 64",
        "0.300 0/4: send 7 2 64",
        "\u{0663}.5 0/4: send 7 1 64",
        "0.400 0/4: send 7 1 64",
        "0.500 0/4: recv 7 1 64",
        "",
        "0.600 2/4: recv 7 0 64",
        "0.700 0/4: recv 7 1 64",
        "0.800 1/4: send 7 0 64",
        "\u{0661}.\u{0662} 3/4: recv 7 0 64",
        "0.900 0/4: send 7 1 64",
    ]
    .iter()
    .map(|line| line.to_string())
    .collect()
}

fn check_trace(parsed: &ParsedTrace) {
    assert_eq!(
        contents(&parsed.send_bins),
        vec![
            bin("0", "1", &["0.100", "0.400", "0.900"]),
            bin("0", "2", &["0.300"]),
            bin("1", "0", &["0.800"]),
        ]
    );
    assert_eq!(
        contents(&parsed.recv_bins),
        vec![
            bin("1", "0", &["0.200"]),
            bin("0", "1", &["0.500", "0.700"]),
            bin("2", "0", &["0.600"]),
        ]
    );
    assert_eq!(
        parsed.faults,
        vec![
            LineDiagnostic { line: 4, fault: LineFault::Timestamp },
            LineDiagnostic { line: 11, fault: LineFault::Timestamp },
        ]
    );
}

#[test]
fn new_bins_are_empty() {
    let bins = Bins::new();
    assert_eq!(bins.len(), 0);
    assert_eq!(bins.find(&"0".to_string(), &"1".to_string()), None);
    assert!(bins.get(&"0".to_string(), &"1".to_string()).is_none());
}

#[test]
fn insert_groups_by_rank_pair_in_order() {
    let mut bins = Bins::new();
    bins.insert(send("1.0", "0", "1"));
    bins.insert(send("2.0", "1", "0"));
    bins.insert(send("3.0", "0", "1"));
    bins.insert(send("4.0", "0", "10"));
    bins.insert(send("5.0", "1", "0"));
    assert_eq!(
        contents(&bins),
        vec![
            bin("0", "1", &["1.0", "3.0"]),
            bin("1", "0", &["2.0", "5.0"]),
            bin("0", "10", &["4.0"]),
        ]
    );
}

#[test]
fn rank_pairs_are_directional() {
    let mut bins = Bins::new();
    bins.insert(send("1.0", "0", "1"));
    bins.insert(send("2.0", "1", "0"));
    assert_eq!(bins.len(), 2);
    assert_eq!(bins.find(&"0".to_string(), &"1".to_string()), Some(0));
    assert_eq!(bins.find(&"1".to_string(), &"0".to_string()), Some(1));
    assert_eq!(bins.find(&"1".to_string(), &"1".to_string()), None);
}

#[test]
fn ranks_are_compared_as_text() {
    let mut bins = Bins::new();
    bins.insert(send("1.0", "1", "2"));
    bins.insert(send("2.0", "01", "2"));
    bins.insert(send("3.0", "1", "02"));
    assert_eq!(bins.len(), 3);
}

#[test]
fn get_returns_the_events_of_the_pair() {
    let mut bins = Bins::new();
    bins.insert(send("1.0", "0", "1"));
    bins.insert(send("2.0", "1", "0"));
    bins.insert(send("3.0", "0", "1"));
    let found = bins.get(&"0".to_string(), &"1".to_string()).unwrap();
    assert_eq!(found, &vec![send("1.0", "0", "1"), send("3.0", "0", "1")]);
    assert!(bins.get(&"2".to_string(), &"1".to_string()).is_none());
}

#[test]
fn merge_appends_under_each_rank_pair() {
    let mut first = Bins::new();
    first.insert(send("1.0", "0", "1"));
    first.insert(send("2.0", "1", "0"));
    let mut second = Bins::new();
    second.insert(send("3.0", "2", "0"));
    second.insert(send("4.0", "1", "0"));
    second.insert(send("5.0", "2", "0"));
    second.insert(send("6.0", "0", "1"));
    second.insert(send("7.0", "3", "0"));
    first.merge(second);
    assert_eq!(
        contents(&first),
        vec![
            bin("0", "1", &["1.0", "6.0"]),
            bin("1", "0", &["2.0", "4.0"]),
            bin("2", "0", &["3.0", "5.0"]),
            bin("3", "0", &["7.0"]),
        ]
    );
}

#[test]
fn merge_with_empty_bins() {
    let mut bins = Bins::new();
    bins.merge(Bins::new());
    assert_eq!(bins.len(), 0);
    bins.insert(send("1.0", "0", "1"));
    bins.merge(Bins::new());
    assert_eq!(contents(&bins), vec![bin("0", "1", &["1.0"])]);
    let mut empty = Bins::new();
    empty.merge(bins);
    assert_eq!(contents(&empty), vec![bin("0", "1", &["1.0"])]);
}

#[test]
fn bin_event_goes_by_operation() {
    let mut send_bins = Bins::new();
    let mut recv_bins = Bins::new();
    bin_event(send("1.0", "0", "1"), &mut send_bins, &mut recv_bins);
    bin_event(recv("2.0", "0", "1"), &mut send_bins, &mut recv_bins);
    bin_event(recv("3.0", "0", "1"), &mut send_bins, &mut recv_bins);
    assert_eq!(contents(&send_bins), vec![bin("0", "1", &["1.0"])]);
    assert_eq!(contents(&recv_bins), vec![bin("0", "1", &["2.0", "3.0"])]);
}

#[test]
fn every_event_is_in_exactly_one_bin() {
    let events = vec![
        send("1.0", "0", "1"),
        recv("2.0", "1", "0"),
        send("3.0", "0", "2"),
        send("4.0", "0", "1"),
        recv("5.0", "0", "1"),
        recv("6.0", "1", "0"),
        send("4.0", "0", "1"),
    ];
    let mut send_bins = Bins::new();
    let mut recv_bins = Bins::new();
    bin_events(events.clone(), &mut send_bins, &mut recv_bins);
    let mut found = 0;
    for bins in [&send_bins, &recv_bins] {
        for index in 0..bins.len() {
            for event in bins.events(index) {
                assert_eq!(&event.local_rank, bins.local_rank(index));
                assert_eq!(&event.remote_rank, bins.remote_rank(index));
                found += 1;
            }
        }
    }
    assert_eq!(found, events.len());
    assert_eq!(
        contents(&send_bins),
        vec![bin("0", "1", &["1.0", "4.0", "4.0"]), bin("0", "2", &["3.0"])]
    );
    assert_eq!(
        contents(&recv_bins),
        vec![bin("1", "0", &["2.0", "6.0"]), bin("0", "1", &["5.0"])]
    );
    for index in 0..send_bins.len() {
        assert!(send_bins.events(index).iter().all(|event| event.operation == Operation::Send));
    }
    for index in 0..recv_bins.len() {
        assert!(recv_bins.events(index).iter().all(|event| event.operation == Operation::Receive));
    }
}

#[test]
fn bin_events_adds_to_what_is_there() {
    let mut send_bins = Bins::new();
    let mut recv_bins = Bins::new();
    send_bins.insert(send("0.5", "0", "2"));
    bin_events(
        vec![send("1.0", "0", "1"), send("2.0", "0", "2")],
        &mut send_bins,
        &mut recv_bins,
    );
    assert_eq!(
        contents(&send_bins),
        vec![bin("0", "2", &["0.5", "2.0"]), bin("0", "1", &["1.0"])]
    );
    assert_eq!(recv_bins.len(), 0);
}

#[test]
fn parse_lines_bins_events_and_reports_faults() {
    let pattern = TracePattern::new().unwrap();
    let mut send_bins = Bins::new();
    let mut recv_bins = Bins::new();
    let faults = parse_lines(&trace(), &pattern, &mut send_bins, &mut recv_bins);
    check_trace(&ParsedTrace { send_bins, recv_bins, faults });
}

#[test]
fn parse_lines_of_nothing() {
    let pattern = TracePattern::new().unwrap();
    let mut send_bins = Bins::new();
    let mut recv_bins = Bins::new();
    let faults = parse_lines(&[], &pattern, &mut send_bins, &mut recv_bins);
    assert!(faults.is_empty());
    assert_eq!(send_bins.len(), 0);
    assert_eq!(recv_bins.len(), 0);
}

#[test]
fn parse_chunk_counts_lines_from_its_first() {
    let pattern = TracePattern::new().unwrap();
    let lines = trace();
    let parsed = parse_chunk(&lines[3..6], &pattern, 3);
    assert_eq!(contents(&parsed.send_bins), vec![bin("0", "2", &["0.300"]), bin("0", "1", &["0.400"])]);
    assert_eq!(parsed.recv_bins.len(), 0);
    assert_eq!(parsed.faults, vec![LineDiagnostic { line: 4, fault: LineFault::Timestamp }]);
}

#[test]
fn absorb_joins_chunks() {
    let pattern = TracePattern::new().unwrap();
    let lines = trace();
    let mut parsed = ParsedTrace::new();
    parsed.absorb(parse_chunk(&lines[0..5], &pattern, 0));
    parsed.absorb(parse_chunk(&lines[5..5], &pattern, 5));
    parsed.absorb(parse_chunk(&lines[5..13], &pattern, 5));
    check_trace(&parsed);
}

#[test]
fn worker_count_does_not_change_the_bins() {
    let pattern = TracePattern::new().unwrap();
    let lines = trace();
    for workers in 0..20 {
        check_trace(&parse_trace(&lines, &pattern, workers));
    }
}

#[test]
fn parse_trace_of_nothing() {
    let pattern = TracePattern::new().unwrap();
    for workers in 0..4 {
        let parsed = parse_trace(&[], &pattern, workers);
        assert_eq!(parsed.send_bins.len(), 0);
        assert_eq!(parsed.recv_bins.len(), 0);
        assert!(parsed.faults.is_empty());
    }
}

#[test]
fn zero_workers_stand_for_the_default() {
    assert_eq!(DEFAULT_WORKERS, 4);
    assert_eq!(effective_workers(0), 4);
    assert_eq!(effective_workers(1), 1);
    assert_eq!(effective_workers(7), 7);
    assert_eq!(effective_workers(usize::MAX), usize::MAX);
}

#[test]
fn last_chunk_takes_the_remainder() {
    let bounds: Vec<(usize, usize)> = (0..3).map(|index| chunk_bounds(10, 3, index)).collect();
    assert_eq!(bounds, vec![(0, 3), (3, 6), (6, 10)]);
}

#[test]
fn chunks_of_an_even_split() {
    let bounds: Vec<(usize, usize)> = (0..4).map(|index| chunk_bounds(12, 4, index)).collect();
    assert_eq!(bounds, vec![(0, 3), (3, 6), (6, 9), (9, 12)]);
}

#[test]
fn more_workers_than_lines() {
    let bounds: Vec<(usize, usize)> = (0..4).map(|index| chunk_bounds(2, 4, index)).collect();
    assert_eq!(bounds, vec![(0, 0), (0, 0), (0, 0), (0, 2)]);
}

#[test]
fn one_worker_takes_all_lines() {
    assert_eq!(chunk_bounds(5, 1, 0), (0, 5));
    assert_eq!(chunk_bounds(0, 1, 0), (0, 0));
}

#[test]
fn chunk_bounds_near_the_limit() {
    assert_eq!(chunk_bounds(usize::MAX, 2, 0), (0, usize::MAX / 2));
    assert_eq!(chunk_bounds(usize::MAX, 2, 1), (usize::MAX / 2, usize::MAX));
    assert_eq!(chunk_bounds(usize::MAX, usize::MAX, usize::MAX - 1), (usize::MAX - 1, usize::MAX));
}
