use kv_bench::bench::{benchmark_command, benchmark_key, validate_query, Phase, ValidationFailure, ITERATIONS};
use kv_bench::command::Command;
use kv_bench::error::ExchangeError;
use kv_bench::exchange::Exchange;
use kv_bench::fields::FieldMap;
use kv_bench::record::{parse_record, trim_packet};

fn run_chunks(chunks: &[&[u8]]) -> Exchange {
    let mut ex = Exchange::new();
    for c in chunks {
        ex.receive(c);
    }
    ex
}

fn entries(m: &FieldMap) -> Vec<(Vec<u8>, Vec<u8>)> {
    let mut v = Vec::new();
    for i in 0..m.len() {
        let (k, val) = m.pair_at(i);
        v.push((k.clone(), val.clone()));
    }
    v.sort();
    v
}

fn complete(ex: &Exchange) -> Vec<(Vec<u8>, Vec<u8>)> {
    match ex.outcome() {
        Some(Ok(m)) => entries(m),
        other => panic!("expected a complete response, got {:?}", other.map(|r| r.map(|m| m.len()))),
    }
}

fn failure(ex: &Exchange) -> ExchangeError {
    match ex.outcome() {
        Some(Err(e)) => e,
        _ => panic!("expected a failed response"),
    }
}

fn pair(k: &str, v: &str) -> (Vec<u8>, Vec<u8>) {
    (k.as_bytes().to_vec(), v.as_bytes().to_vec())
}

#[test]
fn insert_then_ack_gives_empty_map() {
    let c = Command::Insert { key: b"k1".to_vec(), value: b"k1".to_vec() };
    assert_eq!(c.encode(), b"type: request\ncommand: insert\nkey: k1\nvalue: k1\n".to_vec());
    let ex = run_chunks(&[b"type: ack\n----------\n"]);
    assert_eq!(complete(&ex), vec![]);
}

#[test]
fn query_entry_then_ack_validates() {
    let c = Command::Query { key: b"k1".to_vec() };
    assert_eq!(c.encode(), b"type: request\ncommand: query\nkey: k1\n".to_vec());
    let ex = run_chunks(&[b"type: entry\nkey: k1\nvalue: k1\n----------\ntype: ack\n----------\n"]);
    assert_eq!(complete(&ex), vec![pair("k1", "k1")]);
    match ex.outcome() {
        Some(Ok(m)) => assert_eq!(validate_query(m, b"k1"), Ok(())),
        _ => panic!("expected a complete response"),
    }
}

#[test]
fn query_value_differs_fails_validation() {
    let ex = run_chunks(&[b"type: entry\nkey: k1\nvalue: k2\n----------\ntype: ack\n----------\n"]);
    match ex.outcome() {
        Some(Ok(m)) => assert_eq!(validate_query(m, b"k1"), Err(ValidationFailure::Mismatch)),
        _ => panic!("expected a complete response"),
    }
}

#[test]
fn query_other_key_fails_validation() {
    let ex = run_chunks(&[b"type: entry\nkey: k2\nvalue: k2\n----------\ntype: ack\n----------\n"]);
    match ex.outcome() {
        Some(Ok(m)) => assert_eq!(validate_query(m, b"k1"), Err(ValidationFailure::Mismatch)),
        _ => panic!("expected a complete response"),
    }
}

#[test]
fn query_empty_fails_validation() {
    let ex = run_chunks(&[b"type: ack\n----------\n"]);
    match ex.outcome() {
        Some(Ok(m)) => assert_eq!(validate_query(m, b"k1"), Err(ValidationFailure::MissingEntry)),
        _ => panic!("expected a complete response"),
    }
}

#[test]
fn split_read_same_as_single_read() {
    let stream: &[u8] = b"type: entry\nkey: a\nvalue: 1\n----------\ntype: entry\nkey: b\nvalue: 2\n----------\ntype: ack\n----------\n";
    let whole = complete(&run_chunks(&[stream]));
    assert_eq!(whole, vec![pair("a", "1"), pair("b", "2")]);
    for cut in 0..=stream.len() {
        let (a, b) = stream.split_at(cut);
        assert_eq!(complete(&run_chunks(&[a, b])), whole, "cut at {}", cut);
    }
}

#[test]
fn bytes_after_delimiter_wait_for_more() {
    let mut ex = Exchange::new();
    ex.receive(b"type: entry\nkey: a\nvalue: 1\n----------\ntype: ac");
    assert!(ex.outcome().is_none());
    ex.receive(b"k\n-----");
    assert!(ex.outcome().is_none());
    ex.receive(b"-----\n");
    assert_eq!(complete(&ex), vec![pair("a", "1")]);
}

#[test]
fn entries_then_ack_counts_keys() {
    let mut ex = Exchange::new();
    ex.receive(b"type: entry\nkey: a\nvalue: 1\n----------\n");
    ex.receive(b"type: entry\nkey: b\nvalue: 2\n----------\n");
    ex.receive(b"type: entry\nkey: c\nvalue: 3\n----------\n");
    assert!(ex.outcome().is_none());
    ex.receive(b"type: ack\n----------\n");
    assert_eq!(complete(&ex), vec![pair("a", "1"), pair("b", "2"), pair("c", "3")]);
}

#[test]
fn repeated_key_keeps_last_value() {
    let ex = run_chunks(&[
        b"type: entry\nkey: a\nvalue: 1\n----------\ntype: entry\nkey: a\nvalue: 2\n----------\n",
        b"type: ack\n----------\n",
    ]);
    assert_eq!(complete(&ex), vec![pair("a", "2")]);
}

#[test]
fn err_record_discards_entries() {
    let ex = run_chunks(&[
        b"type: entry\nkey: a\nvalue: 1\n----------\ntype: err\n----------\ntype: ack\n----------\n",
    ]);
    assert_eq!(failure(&ex), ExchangeError::ServerError);
}

#[test]
fn line_without_separator_is_malformed_record() {
    let ex = run_chunks(&[b"type: entry\nkey a\nvalue: 1\n----------\ntype: ack\n----------\n"]);
    assert_eq!(failure(&ex), ExchangeError::MalformedRecord);
    assert!(matches!(parse_record(b"x: 1\nbroken\ny: 2"), Some(Err(ExchangeError::MalformedRecord))));
}

#[test]
fn missing_type_is_malformed_response() {
    let ex = run_chunks(&[b"key: a\nvalue: 1\n----------\n"]);
    assert_eq!(failure(&ex), ExchangeError::MalformedResponse);
}

#[test]
fn entry_without_value_is_malformed_response() {
    let ex = run_chunks(&[b"type: entry\nkey: a\n----------\n"]);
    assert_eq!(failure(&ex), ExchangeError::MalformedResponse);
}

#[test]
fn invalid_utf8_is_invalid_text() {
    let ex = run_chunks(&[b"type: entry\nkey: \xff\xfe\nvalue: 1\n----------\n"]);
    assert_eq!(failure(&ex), ExchangeError::InvalidText);
    let ok = run_chunks(&["type: entry\nkey: \u{e9}\nvalue: 1\n----------\ntype: ack\n----------\n".as_bytes()]);
    assert_eq!(complete(&ok), vec![pair("\u{e9}", "1")]);
}

#[test]
fn empty_packets_and_padding_are_skipped() {
    let ex = run_chunks(&[b"\0\0----------\n  \n----------\n\0type: ack \r\n\0\0----------\n"]);
    assert_eq!(complete(&ex), vec![]);
}

#[test]
fn unknown_record_type_is_ignored() {
    let ex = run_chunks(&[b"type: note\n----------\ntype: ack\n----------\n"]);
    assert_eq!(complete(&ex), vec![]);
}

#[test]
fn value_keeps_later_separators() {
    let ex = run_chunks(&[b"type: entry\nkey: a\nvalue: x: y\n----------\ntype: ack\n----------\n"]);
    assert_eq!(complete(&ex), vec![pair("a", "x: y")]);
}

#[test]
fn finish_reads_final_packet() {
    let mut ex = Exchange::new();
    ex.receive(b"type: entry\nkey: a\nvalue: 1\n----------\ntype: ack\n");
    assert!(ex.outcome().is_none());
    ex.finish();
    assert_eq!(complete(&ex), vec![pair("a", "1")]);
}

#[test]
fn later_bytes_do_not_change_finished_response() {
    let mut ex = run_chunks(&[b"type: ack\n----------\n"]);
    ex.receive(b"type: err\n----------\n");
    assert_eq!(complete(&ex), vec![]);
}

#[test]
fn trim_packet_drops_nul_and_trailing_space() {
    assert_eq!(trim_packet(b"\0\0type: ack\n \t\0"), b"type: ack".to_vec());
    assert_eq!(trim_packet(b"\0\0"), Vec::<u8>::new());
}

fn fields_of(bytes: &[u8]) -> Vec<(Vec<u8>, Vec<u8>)> {
    match parse_record(bytes) {
        Some(Ok(m)) => entries(&m),
        _ => panic!("expected a record"),
    }
}

#[test]
fn command_encoding_round_trips() {
    let insert = Command::Insert { key: b"k: 1".to_vec(), value: b"v".to_vec() };
    let mut want = vec![pair("command", "insert"), pair("key", "k: 1"), pair("type", "request"), pair("value", "v")];
    want.sort();
    assert_eq!(fields_of(&insert.encode()), want);

    let remove = Command::Remove { key: b"k9".to_vec() };
    assert_eq!(remove.encode(), b"type: request\ncommand: remove\nkey: k9\n".to_vec());
    let mut want = vec![pair("type", "request"), pair("command", "remove"), pair("key", "k9")];
    want.sort();
    assert_eq!(fields_of(&remove.encode()), want);

    assert_eq!(Command::Disconnect.encode(), b"type: disconnect\n".to_vec());
    assert_eq!(fields_of(&Command::Disconnect.encode()), vec![pair("type", "disconnect")]);
}

#[test]
fn duplicate_field_in_record_keeps_last() {
    assert_eq!(fields_of(b"type: entry\ntype: ack\n"), vec![pair("type", "ack")]);
}

#[test]
fn benchmark_keys_and_commands() {
    assert_eq!(benchmark_key(b"p", 0), b"benchmark-p-0".to_vec());
    assert_eq!(benchmark_key(b"abc", 42), b"benchmark-abc-42".to_vec());
    assert_eq!(benchmark_key(b"", ITERATIONS), b"benchmark--100".to_vec());
    assert_eq!(benchmark_key(b"x", u64::MAX), b"benchmark-x-18446744073709551615".to_vec());
    assert_eq!(
        benchmark_command(Phase::Insert, b"p", 7).encode(),
        b"type: request\ncommand: insert\nkey: benchmark-p-7\nvalue: benchmark-p-7\n".to_vec()
    );
    assert_eq!(
        benchmark_command(Phase::Query, b"p", 7).encode(),
        b"type: request\ncommand: query\nkey: benchmark-p-7\n".to_vec()
    );
    assert_eq!(
        benchmark_command(Phase::Remove, b"p", 7).encode(),
        b"type: request\ncommand: remove\nkey: benchmark-p-7\n".to_vec()
    );
}

#[test]
fn field_map_insert_replaces() {
    let mut m = FieldMap::new();
    assert!(m.is_empty());
    m.insert(b"a".to_vec(), b"1".to_vec());
    m.insert(b"b".to_vec(), b"2".to_vec());
    m.insert(b"a".to_vec(), b"3".to_vec());
    assert_eq!(m.len(), 2);
    assert_eq!(m.get(b"a"), Some(&b"3".to_vec()));
    assert_eq!(m.get(b"c"), None);
}
