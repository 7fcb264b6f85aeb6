use sarascript::error::SaraError;
use sarascript::fetch::{assemble_document, FetchOutcome};
use sarascript::script::{Opcode, SaraParser};
use sarascript::wip::WipDocument;

fn get_indices(ops: &Vec<sarascript::script::Operation>) -> Vec<usize> {
    let mut out = Vec::new();
    for (i, op) in ops.iter().enumerate() {
        if matches!(op.opcode, Opcode::GET) {
            out.push(i);
        }
    }
    out
}

fn blank_results(ops: &Vec<sarascript::script::Operation>) -> Vec<(usize, FetchOutcome)> {
    let mut out = Vec::new();
    for i in 0..ops.len() {
        out.push((i, FetchOutcome::Success(Vec::new())));
    }
    out
}

#[test]
fn order_independent_inserts() {
    // The same three disjoint edits, applied in two different orders,
    // leave the same final buffer.
    let text = b"0123456789".to_vec();
    let mut a = WipDocument::new(text.clone());
    a.insert(b"XYZ".to_vec(), 2..4);
    a.insert(Vec::new(), 6..7);
    a.insert(b"##".to_vec(), 8..8);
    let mut b = WipDocument::new(text);
    b.insert(b"##".to_vec(), 8..8);
    b.insert(Vec::new(), 6..7);
    b.insert(b"XYZ".to_vec(), 2..4);
    assert_eq!(a.current_bytes(), b.current_bytes());
    assert_eq!(a.current_bytes(), b"01XYZ457##89".to_vec());
}

#[test]
fn insert_reads_back() {
    // After an insert, the original span translated through the ledger
    // holds exactly the inserted bytes, even with an earlier edit shifting
    // everything.
    let text = b"hello world".to_vec();
    let mut doc = WipDocument::new(text);
    doc.insert(b"AAAA".to_vec(), 0..1);
    doc.insert(b"B".to_vec(), 6..11);
    let bytes = doc.current_bytes();
    // Position of the second span: 6 plus the first edit's delta (+3).
    assert_eq!(&bytes[9..10], b"B");
    assert_eq!(bytes, b"AAAAello B".to_vec());
}

#[test]
fn document_without_blocks_is_identity() {
    let text = b"<p>no directives here</p>".to_vec();
    let ops = SaraParser::parse(&text).expect("plain document must parse");
    assert!(ops.is_empty());
    let out = assemble_document(text.clone(), &ops, Vec::new()).expect("assembly");
    assert_eq!(out.contents, text);
}

#[test]
fn fetch_result_spliced_over_call() {
    let text = b"<p>A<!--s--><script type=\"sarascript\">get(\"http://h/p\")</script>B</p>"
        .to_vec();
    let ops = SaraParser::parse(&text).expect("document must parse");
    let gets = get_indices(&ops);
    assert_eq!(gets.len(), 1);
    let mut results = blank_results(&ops);
    results[gets[0]].1 = FetchOutcome::Success(b"R".to_vec());
    let out = assemble_document(text, &ops, results).expect("assembly");
    assert_eq!(out.contents, b"<p>A<!--s-->RB</p>".to_vec());
}

#[test]
fn two_fetches_any_completion_order() {
    // One replacement shrinks its span, the other grows it by far more;
    // whichever completes first, both land at their correct final places.
    let text = b"<script type=\"sarascript\">get(\"http://a/x\") get(\"http://b/y\")</script>"
        .to_vec();
    let ops = SaraParser::parse(&text).expect("document must parse");
    let gets = get_indices(&ops);
    assert_eq!(gets.len(), 2);
    let small = b"s".to_vec();
    let large = b"0123456789012345678901234567890123456789012345678901234567890123".to_vec();

    let mut first = blank_results(&ops);
    first[gets[0]].1 = FetchOutcome::Success(small.clone());
    first[gets[1]].1 = FetchOutcome::Success(large.clone());
    let out1 = assemble_document(text.clone(), &ops, first).expect("assembly");

    let mut second = Vec::new();
    second.push((gets[1], FetchOutcome::Success(large.clone())));
    second.push((gets[0], FetchOutcome::Success(small.clone())));
    for i in 0..ops.len() {
        if i != gets[0] && i != gets[1] {
            second.push((i, FetchOutcome::Success(Vec::new())));
        }
    }
    let out2 = assemble_document(text, &ops, second).expect("assembly");

    let mut expected = Vec::new();
    expected.extend_from_slice(&small);
    expected.extend_from_slice(b" ");
    expected.extend_from_slice(&large);
    assert_eq!(out1.contents, expected);
    assert_eq!(out2.contents, expected);
}

#[test]
fn failed_fetch_inlines_diagnostic() {
    let text = b"<script type=\"sarascript\">get(\"http://bad/x\") get(\"http://ok/y\")</script>"
        .to_vec();
    let ops = SaraParser::parse(&text).expect("document must parse");
    let gets = get_indices(&ops);
    assert_eq!(gets.len(), 2);
    let mut results = blank_results(&ops);
    results[gets[0]].1 =
        FetchOutcome::Failure(SaraError::DnsResolution("no address".to_string()));
    results[gets[1]].1 = FetchOutcome::Success(b"GOOD".to_vec());
    let out = assemble_document(text, &ops, results).expect("assembly");
    assert_eq!(
        out.contents,
        b"Could not load resource: \"dns resolution failed\" GOOD".to_vec()
    );
}

#[test]
fn join_failure_is_reported() {
    let text = b"<script type=\"sarascript\">get(\"http://h/p\")</script>".to_vec();
    let ops = SaraParser::parse(&text).expect("document must parse");
    // One result never arrives.
    let mut results = blank_results(&ops);
    results.pop();
    let err = assemble_document(text.clone(), &ops, results).unwrap_err();
    assert!(matches!(err, SaraError::JoinError(_)));
    // The same operation reported twice is a join failure too.
    let mut doubled = blank_results(&ops);
    doubled[0].0 = 1;
    let err = assemble_document(text, &ops, doubled).unwrap_err();
    assert!(matches!(err, SaraError::JoinError(_)));
}

#[test]
fn wip_document_accessors() {
    let doc = WipDocument::new(b"abc".to_vec());
    assert_eq!(doc.len(), 3);
    assert_eq!(doc.current_bytes(), b"abc".to_vec());
    let finished = doc.into_document();
    assert_eq!(finished.contents, b"abc".to_vec());
}
