use tracer_parser::event::{timestamp_is_valid, MessageEvent, Operation};
use tracer_parser::extract::{
    classify_captures, extract_event, operation_of_keyword, Extraction, LineFault,
};
use tracer_parser::pattern::{TracePattern, TRACE_PATTERN};

fn pattern() -> TracePattern {
    TracePattern::new().expect("the event pattern compiles")
}

fn groups(fields: [&str; 8]) -> Option<Vec<Option<String>>> {
    Some(fields.iter().map(|field| Some(field.to_string())).collect())
}

fn event(
    operation: Operation,
    timestamp: &str,
    local_rank: &str,
    remote_rank: &str,
    user_type: &str,
    size: &str,
) -> MessageEvent {
    MessageEvent {
        operation,
        timestamp: timestamp.to_string(),
        local_rank: local_rank.to_string(),
        remote_rank: remote_rank.to_string(),
        user_type: user_type.to_string(),
        size: size.to_string(),
    }
}

#[test]
fn pattern_compiles() {
    assert!(TracePattern::new().is_ok());
}

#[test]
fn pattern_text_is_the_event_structure() {
    assert_eq!(
        TRACE_PATTERN,
        r"(\d+\.\d+)\s+(\d+)/(\d+):\s+(send|recv)\s+(\d+)\s+(\d+)\s+(\d+)"
    );
}

#[test]
fn captures_are_the_groups_of_the_match() {
    let found = pattern().captures("0.000 0/4: send 10 20 100").unwrap();
    let texts: Vec<Option<&str>> = found.iter().map(|group| group.as_deref()).collect();
    assert_eq!(
        texts,
        vec![
            Some("0.000 0/4: send 10 20 100"),
            Some("0.000"),
            Some("0"),
            Some("4"),
            Some("send"),
            Some("10"),
            Some("20"),
            Some("100"),
        ]
    );
}

#[test]
fn captures_of_a_line_without_event_are_none() {
    assert!(pattern().captures("setup done").is_none());
}

#[test]
fn send_line_gives_send_event() {
    let outcome = extract_event(&pattern(), "0.000 0/4: send 10 20 100");
    assert_eq!(
        outcome,
        Extraction::Matched(event(Operation::Send, "0.000", "0", "20", "10", "100"))
    );
}

#[test]
fn recv_line_gives_receive_event() {
    let outcome = extract_event(&pattern(), "0.005 1/4: recv 10 20 100");
    assert_eq!(
        outcome,
        Extraction::Matched(event(Operation::Receive, "0.005", "1", "20", "10", "100"))
    );
}

#[test]
fn fields_keep_their_text() {
    let outcome = extract_event(&pattern(), "0012.3400 007/0016: send 0042 0003 00064");
    assert_eq!(
        outcome,
        Extraction::Matched(event(Operation::Send, "0012.3400", "007", "0003", "0042", "00064"))
    );
}

#[test]
fn ranks_may_exceed_any_integer_width() {
    let outcome = extract_event(
        &pattern(),
        "1.0 123456789012345678901234567890/4: send 1 987654321098765432109876543210 3",
    );
    assert_eq!(
        outcome,
        Extraction::Matched(event(
            Operation::Send,
            "1.0",
            "123456789012345678901234567890",
            "987654321098765432109876543210",
            "1",
            "3"
        ))
    );
}

#[test]
fn event_may_stand_anywhere_in_the_line() {
    let outcome = extract_event(&pattern(), "[trace] 1.5   2/8:\tsend  7 3 64 (done)");
    assert_eq!(
        outcome,
        Extraction::Matched(event(Operation::Send, "1.5", "2", "3", "7", "64"))
    );
}

#[test]
fn leftmost_match_is_taken() {
    let outcome = extract_event(&pattern(), "1.2.3 0/4: recv 1 2 3 9.9 5/6: send 7 8 9");
    assert_eq!(
        outcome,
        Extraction::Matched(event(Operation::Receive, "2.3", "0", "2", "1", "3"))
    );
}

#[test]
fn lines_without_event_structure_are_skipped() {
    let pattern = pattern();
    for line in [
        "",
        "setup done",
        "0.000 0/4: sent 10 20 100",
        "0.000 0/4 send 10 20 100",
        "0 0/4: send 10 20 100",
        "0.000 0/4: send 10 20",
        "0.000 /4: send 10 20 100",
        "0.000 0/4: SEND 10 20 100",
    ] {
        assert_eq!(extract_event(&pattern, line), Extraction::Skipped, "{:?}", line);
    }
}

#[test]
fn timestamp_in_other_digits_is_malformed() {
    let outcome = extract_event(&pattern(), "\u{0663}.\u{0664} 0/4: send 10 20 100");
    assert_eq!(outcome, Extraction::Malformed(LineFault::Timestamp));
}

#[test]
fn other_fields_in_other_digits_are_kept() {
    let outcome = extract_event(&pattern(), "3.4 \u{0661}/4: send 10 20 100");
    assert_eq!(
        outcome,
        Extraction::Matched(event(Operation::Send, "3.4", "\u{0661}", "20", "10", "100"))
    );
}

#[test]
fn classify_without_captures_is_skipped() {
    assert_eq!(classify_captures(&None), Extraction::Skipped);
}

#[test]
fn classify_takes_fields_by_group() {
    let captures = groups(["whole", "1.25", "local", "total", "recv", "kind", "remote", "size"]);
    assert_eq!(
        classify_captures(&captures),
        Extraction::Matched(event(Operation::Receive, "1.25", "local", "remote", "kind", "size"))
    );
}

#[test]
fn classify_unknown_keyword_is_malformed() {
    let captures = groups(["whole", "1.25", "0", "4", "sent", "10", "20", "100"]);
    assert_eq!(classify_captures(&captures), Extraction::Malformed(LineFault::Operation));
}

#[test]
fn classify_bad_timestamp_comes_before_unknown_keyword() {
    let captures = groups(["whole", "1,25", "0", "4", "sent", "10", "20", "100"]);
    assert_eq!(classify_captures(&captures), Extraction::Malformed(LineFault::Timestamp));
}

#[test]
fn classify_wrong_group_count_is_malformed() {
    let short = Some(vec![Some("1.0".to_string()); 7]);
    assert_eq!(classify_captures(&short), Extraction::Malformed(LineFault::Fields));
    let long = Some(vec![Some("1.0".to_string()); 9]);
    assert_eq!(classify_captures(&long), Extraction::Malformed(LineFault::Fields));
    assert_eq!(classify_captures(&Some(Vec::new())), Extraction::Malformed(LineFault::Fields));
}

#[test]
fn classify_absent_group_is_malformed() {
    for missing in 1..8 {
        let mut captures = groups(["whole", "1.25", "0", "4", "send", "10", "20", "100"]);
        captures.as_mut().unwrap()[missing] = None;
        assert_eq!(classify_captures(&captures), Extraction::Malformed(LineFault::Fields));
    }
}

#[test]
fn classify_ignores_the_whole_match() {
    let mut captures = groups(["whole", "1.25", "0", "4", "send", "10", "20", "100"]);
    captures.as_mut().unwrap()[0] = None;
    assert_eq!(
        classify_captures(&captures),
        Extraction::Matched(event(Operation::Send, "1.25", "0", "20", "10", "100"))
    );
}

#[test]
fn timestamps_are_digits_point_digits() {
    for text in ["0.0", "0.000", "12.5", "000123.456000", "9.9"] {
        assert!(timestamp_is_valid(text), "{:?}", text);
    }
    for text in [
        "", ".", "1", "1.", ".5", "1.2.3", "1..2", "1e5", "1.5e3", "-1.5", "+1.5", " 1.5", "1.5 ",
        "1,5", "a.b", "1.a", "inf", "nan", "\u{0663}.\u{0664}", "1.\u{0664}", "\u{ff11}.5",
    ] {
        assert!(!timestamp_is_valid(text), "{:?}", text);
    }
}

#[test]
fn keywords_name_operations() {
    assert_eq!(operation_of_keyword(&"send".to_string()), Some(Operation::Send));
    assert_eq!(operation_of_keyword(&"recv".to_string()), Some(Operation::Receive));
    for other in ["", "Send", "sendx", "receive", "rec", " send"] {
        assert_eq!(operation_of_keyword(&other.to_string()), None);
    }
}

#[test]
fn duplicate_is_equal() {
    let first = event(Operation::Send, "1.5", "2", "3", "7", "64");
    assert_eq!(first.duplicate(), first);
}

#[test]
fn compiled_pattern_is_kept() {
    let pattern = TracePattern::from_compiled(regex::Regex::new(TRACE_PATTERN)).unwrap();
    assert_eq!(
        extract_event(&pattern, "0.005 1/4: recv 10 20 100"),
        Extraction::Matched(event(Operation::Receive, "0.005", "1", "20", "10", "100"))
    );
}

#[test]
fn compile_error_is_handed_on_with_its_text() {
    let syntax = regex::Regex::new("(").unwrap_err();
    let text = syntax.to_string();
    assert!(!text.is_empty());
    match TracePattern::from_compiled(Err(syntax)) {
        Err(failure) => assert_eq!(failure.message, text),
        Ok(_) => panic!("a compile error gives no pattern"),
    }
    let too_big = regex::Error::CompiledTooBig(10);
    match TracePattern::from_compiled(Err(too_big)) {
        Err(failure) => {
            assert_eq!(failure.message, "Compiled regex exceeds size limit of 10 bytes.")
        }
        Ok(_) => panic!("a compile error gives no pattern"),
    }
}
