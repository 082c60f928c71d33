use tracer_parser::analysis::analyze_trace;
use tracer_parser::bins::Bins;
use tracer_parser::correlate::{correlate, match_messages, MatchedRecord, PairMatches};
use tracer_parser::event::{MessageEvent, Operation};
use tracer_parser::extract::LineFault;
use tracer_parser::pattern::TracePattern;

fn event(operation: Operation, timestamp: &str, local_rank: &str, remote_rank: &str) -> MessageEvent {
    MessageEvent {
        operation,
        timestamp: timestamp.to_string(),
        local_rank: local_rank.to_string(),
        remote_rank: remote_rank.to_string(),
        user_type: "7".to_string(),
        size: "64".to_string(),
    }
}

fn send(timestamp: &str, local_rank: &str, remote_rank: &str) -> MessageEvent {
    event(Operation::Send, timestamp, local_rank, remote_rank)
}

fn recv(timestamp: &str, local_rank: &str, remote_rank: &str) -> MessageEvent {
    event(Operation::Receive, timestamp, local_rank, remote_rank)
}

fn times(records: &[MatchedRecord]) -> Vec<(String, String)> {
    records
        .iter()
        .map(|record| (record.send.timestamp.clone(), record.recv.timestamp.clone()))
        .collect()
}

fn pair_of_times(send: &str, recv: &str) -> (String, String) {
    (send.to_string(), recv.to_string())
}

fn pair(local_rank: &str, remote_rank: &str, first: usize, count: usize) -> PairMatches {
    PairMatches {
        local_rank: local_rank.to_string(),
        remote_rank: remote_rank.to_string(),
        first,
        count,
    }
}

fn latency(record: &MatchedRecord) -> f64 {
    let sent: f64 = record.send.timestamp.parse().unwrap();
    let received: f64 = record.recv.timestamp.parse().unwrap();
    received - sent
}

fn lines(text: &[&str]) -> Vec<String> {
    text.iter().map(|line| line.to_string()).collect()
}

#[test]
fn match_messages_pairs_every_send_with_every_receive() {
    let sends = vec![send("1.0", "0", "1"), send("2.0", "0", "1")];
    let recvs = vec![recv("1.5", "0", "1"), recv("2.5", "0", "1"), recv("3.5", "0", "1")];
    let mut matched = Vec::new();
    match_messages(&sends, &recvs, &mut matched);
    assert_eq!(
        times(&matched),
        vec![
            pair_of_times("1.0", "1.5"),
            pair_of_times("1.0", "2.5"),
            pair_of_times("1.0", "3.5"),
            pair_of_times("2.0", "1.5"),
            pair_of_times("2.0", "2.5"),
            pair_of_times("2.0", "3.5"),
        ]
    );
    assert_eq!(matched[4], MatchedRecord { send: sends[1].clone(), recv: recvs[1].clone() });
}

#[test]
fn match_messages_appends() {
    let sends = vec![send("1.0", "0", "1")];
    let recvs = vec![recv("1.5", "0", "1")];
    let mut matched = Vec::new();
    match_messages(&sends, &recvs, &mut matched);
    match_messages(&sends, &recvs, &mut matched);
    assert_eq!(matched.len(), 2);
    assert_eq!(matched[0], matched[1]);
}

#[test]
fn match_messages_with_an_empty_side() {
    let events = vec![send("1.0", "0", "1"), send("2.0", "0", "1")];
    let mut matched = Vec::new();
    match_messages(&events, &Vec::new(), &mut matched);
    assert!(matched.is_empty());
    match_messages(&Vec::new(), &events, &mut matched);
    assert!(matched.is_empty());
    match_messages(&Vec::new(), &Vec::new(), &mut matched);
    assert!(matched.is_empty());
}

#[test]
fn negative_latency_is_kept() {
    let sends = vec![send("5.0", "0", "1")];
    let recvs = vec![recv("3.0", "0", "1")];
    let mut matched = Vec::new();
    match_messages(&sends, &recvs, &mut matched);
    assert_eq!(times(&matched), vec![pair_of_times("5.0", "3.0")]);
    assert_eq!(latency(&matched[0]), -2.0);
}

#[test]
fn correlate_matches_rank_pairs_present_on_both_sides() {
    let mut send_bins = Bins::new();
    let mut recv_bins = Bins::new();
    for event in [
        send("1.0", "0", "1"),
        send("2.0", "2", "3"),
        send("3.0", "0", "1"),
        send("4.0", "4", "5"),
        send("5.0", "4", "5"),
        send("6.0", "4", "5"),
    ] {
        send_bins.insert(event);
    }
    for event in [
        recv("1.5", "4", "5"),
        recv("2.5", "6", "7"),
        recv("3.5", "0", "1"),
        recv("4.5", "4", "5"),
        recv("5.5", "1", "0"),
    ] {
        recv_bins.insert(event);
    }
    let correlation = correlate(&send_bins, &recv_bins);
    assert_eq!(correlation.total(), 2 * 1 + 3 * 2);
    assert_eq!(
        times(correlation.records()),
        vec![
            pair_of_times("1.0", "3.5"),
            pair_of_times("3.0", "3.5"),
            pair_of_times("4.0", "1.5"),
            pair_of_times("4.0", "4.5"),
            pair_of_times("5.0", "1.5"),
            pair_of_times("5.0", "4.5"),
            pair_of_times("6.0", "1.5"),
            pair_of_times("6.0", "4.5"),
        ]
    );
    assert_eq!(correlation.pairs(), &vec![pair("0", "1", 0, 2), pair("4", "5", 2, 6)]);
    assert_eq!(times(correlation.pair_records(0)), times(&correlation.records()[0..2]));
    assert_eq!(times(correlation.pair_records(1)), times(&correlation.records()[2..8]));
    for record in correlation.records() {
        assert_eq!(record.send.operation, Operation::Send);
        assert_eq!(record.recv.operation, Operation::Receive);
        assert_eq!(record.send.local_rank, record.recv.local_rank);
        assert_eq!(record.send.remote_rank, record.recv.remote_rank);
    }
}

#[test]
fn cardinality_is_sends_times_receives() {
    for sends in 0..5usize {
        for recvs in 0..5usize {
            let mut send_bins = Bins::new();
            let mut recv_bins = Bins::new();
            for n in 0..sends {
                send_bins.insert(send(&format!("{}.0", n), "0", "1"));
            }
            for n in 0..recvs {
                recv_bins.insert(recv(&format!("{}.5", n), "0", "1"));
            }
            let correlation = correlate(&send_bins, &recv_bins);
            assert_eq!(correlation.total(), sends * recvs);
            if sends > 0 && recvs > 0 {
                assert_eq!(correlation.pairs(), &vec![pair("0", "1", 0, sends * recvs)]);
            } else {
                assert!(correlation.pairs().is_empty());
            }
        }
    }
}

#[test]
fn unmatched_rank_pairs_are_dropped() {
    let mut send_bins = Bins::new();
    let mut recv_bins = Bins::new();
    send_bins.insert(send("1.0", "0", "1"));
    recv_bins.insert(recv("2.0", "1", "0"));
    let correlation = correlate(&send_bins, &recv_bins);
    assert_eq!(correlation.total(), 0);
    assert!(correlation.records().is_empty());
    assert!(correlation.pairs().is_empty());
}

#[test]
fn correlate_of_nothing() {
    let correlation = correlate(&Bins::new(), &Bins::new());
    assert_eq!(correlation.total(), 0);
    assert!(correlation.pairs().is_empty());
}

#[test]
fn one_send_and_one_receive_of_a_rank_pair() {
    let pattern = TracePattern::new().unwrap();
    let trace = lines(&["0.000 0/4: send 10 20 100", "0.005 0/4: recv 10 20 100"]);
    let analysis = analyze_trace(&trace, &pattern, 4);
    assert!(analysis.faults.is_empty());
    let correlation = &analysis.correlation;
    assert_eq!(correlation.total(), 1);
    let record = &correlation.records()[0];
    assert_eq!(record.send.timestamp, "0.000");
    assert_eq!(record.recv.timestamp, "0.005");
    assert_eq!(record.send.local_rank, "0");
    assert_eq!(record.send.remote_rank, "20");
    assert_eq!(record.send.user_type, "10");
    assert_eq!(record.send.size, "100");
    assert_eq!(format!("{:.6}", latency(record)), "0.005000");
    assert_eq!(correlation.pairs(), &vec![pair("0", "20", 0, 1)]);
    let latencies: Vec<f64> = correlation.pair_records(0).iter().map(latency).collect();
    assert_eq!(latencies.len(), 1);
    let min = latencies.iter().copied().fold(f64::INFINITY, f64::min);
    let max = latencies.iter().copied().fold(f64::NEG_INFINITY, f64::max);
    let mean = latencies.iter().sum::<f64>() / latencies.len() as f64;
    let variance =
        latencies.iter().map(|x| (x - mean).powi(2)).sum::<f64>() / latencies.len() as f64;
    assert_eq!(format!("{:.6}", min), "0.005000");
    assert_eq!(format!("{:.6}", max), "0.005000");
    assert_eq!(format!("{:.6}", mean), "0.005000");
    assert_eq!(format!("{:.6}", variance.sqrt()), "0.000000");
}

#[test]
fn lines_of_different_local_ranks_do_not_match() {
    let pattern = TracePattern::new().unwrap();
    let trace = lines(&["0.000 0/4: send 10 20 100", "0.005 1/4: recv 10 20 100"]);
    let analysis = analyze_trace(&trace, &pattern, 1);
    assert_eq!(analysis.correlation.total(), 0);
    assert!(analysis.correlation.pairs().is_empty());
}

#[test]
fn worker_count_does_not_change_the_analysis() {
    let pattern = TracePattern::new().unwrap();
    let trace = lines(&[
        "0.100 0/4: send 7 1 64",
        "noise",
        "0.200 0/4: recv 7 1 64",
        "0.300 2/4: send 7 3 64",
        "\u{0663}.4 2/4: send 7 3 64",
        "0.400 0/4: send 7 1 64",
        "0.500 2/4: recv 7 3 64",
        "0.600 0/4: recv 7 1 64",
        "0.700 2/4: recv 7 3 64",
        "0.800 1/4: recv 7 0 64",
        "0.900 2/4: send 7 3 64",
    ]);
    let expected = vec![
        pair_of_times("0.100", "0.200"),
        pair_of_times("0.100", "0.600"),
        pair_of_times("0.400", "0.200"),
        pair_of_times("0.400", "0.600"),
        pair_of_times("0.300", "0.500"),
        pair_of_times("0.300", "0.700"),
        pair_of_times("0.900", "0.500"),
        pair_of_times("0.900", "0.700"),
    ];
    for workers in 0..15 {
        let analysis = analyze_trace(&trace, &pattern, workers);
        assert_eq!(analysis.correlation.total(), 8);
        assert_eq!(times(analysis.correlation.records()), expected);
        assert_eq!(
            analysis.correlation.pairs(),
            &vec![pair("0", "1", 0, 4), pair("2", "3", 4, 4)]
        );
        assert_eq!(analysis.faults.len(), 1);
        assert_eq!(analysis.faults[0].line, 4);
        assert_eq!(analysis.faults[0].fault, LineFault::Timestamp);
    }
}

#[test]
fn analysis_of_an_empty_trace() {
    let pattern = TracePattern::new().unwrap();
    let analysis = analyze_trace(&[], &pattern, 3);
    assert_eq!(analysis.correlation.total(), 0);
    assert!(analysis.correlation.pairs().is_empty());
    assert!(analysis.faults.is_empty());
}

#[test]
fn labels_come_from_the_send_event() {
    let record = MatchedRecord {
        send: MessageEvent {
            operation: Operation::Send,
            timestamp: "1.0".to_string(),
            local_rank: "0".to_string(),
            remote_rank: "20".to_string(),
            user_type: "10".to_string(),
            size: "100".to_string(),
        },
        recv: MessageEvent {
            operation: Operation::Receive,
            timestamp: "1.5".to_string(),
            local_rank: "a".to_string(),
            remote_rank: "b".to_string(),
            user_type: "c".to_string(),
            size: "d".to_string(),
        },
    };
    assert_eq!(record.labels(), vec!["0", "20", "10", "100"]);
}
