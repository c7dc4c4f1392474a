use payload_pulverizer::sniffer::classify;
use payload_pulverizer::sniffer::ClassificationReport;
use payload_pulverizer::sniffer::SniffError;
use payload_pulverizer::sniffer::MAX_SNIFF_BYTES;

fn classify_ok(bytes: Vec<u8>) -> ClassificationReport {
    classify(&bytes, MAX_SNIFF_BYTES).expect("payload under the ceiling")
}

#[test]
fn json_object_is_json() {
    let report = classify_ok(b"{\"a\":1}".to_vec());
    assert!(report.is_json);
    assert!(report.is_xml);
    assert!(report.is_markdown);
    assert_eq!(report.details.first().map(String::as_str), Some("Valid JSON detected."));
    assert_eq!(report.details.last().map(String::as_str), Some("Anyways, it's gone now."));
}

#[test]
fn simple_xml_is_xml() {
    let report = classify_ok(b"<a></a>".to_vec());
    assert!(report.is_xml);
    assert!(!report.is_json);
    assert!(report.details.contains(&"Valid XML detected.".to_string()));
}

#[test]
fn mismatched_close_tag_is_not_xml() {
    let report = classify_ok(b"<a></b>".to_vec());
    assert!(!report.is_xml);
    assert!(!report.details.contains(&"Valid XML detected.".to_string()));
}

#[test]
fn invalid_encoding_all_false() {
    let report = classify_ok(vec![0xFF, 0xFE]);
    assert!(!report.is_json);
    assert!(!report.is_xml);
    assert!(!report.is_markdown);
    assert_eq!(report.details, vec!["Payload is not valid UTF-8 text.".to_string()]);
}

#[test]
fn oversize_payload_rejected() {
    let bytes = vec![b'x'; 65537];
    assert_eq!(classify(&bytes, MAX_SNIFF_BYTES), Err(SniffError::PayloadTooLarge));
}

#[test]
fn payload_at_ceiling_accepted() {
    let bytes = vec![b'x'; 65536];
    assert!(classify(&bytes, MAX_SNIFF_BYTES).is_ok());
}

#[test]
fn classification_is_idempotent() {
    let bytes = b"# Title\n\nSome *text* with <em>markup</em> and {\"a\": [1, 2]}".to_vec();
    let first = classify(&bytes, MAX_SNIFF_BYTES).unwrap();
    let second = classify(&bytes, MAX_SNIFF_BYTES).unwrap();
    assert_eq!(first, second);
}

#[test]
fn empty_payload_is_not_markdown() {
    let report = classify_ok(Vec::new());
    assert!(!report.is_markdown);
    assert!(!report.is_json);
}

#[test]
fn markdown_heading_detected() {
    let report = classify_ok(b"# Heading\n\nparagraph".to_vec());
    assert!(report.is_markdown);
    assert!(!report.is_json);
    assert!(
        report.details.contains(&"Markdown content detected (parsed successfully).".to_string())
    );
}

#[test]
fn details_keep_check_order() {
    let report = classify_ok(b"{\"a\":1}".to_vec());
    let lines: Vec<&str> = report.details.iter().map(String::as_str).collect();
    assert_eq!(
        lines,
        vec![
            "Valid JSON detected.",
            "Valid XML detected.",
            "Markdown content detected (parsed successfully).",
            "Anyways, it's gone now.",
        ]
    );
}

#[test]
fn plain_text_scans_as_xml() {
    let report = classify_ok(b"just some plain words".to_vec());
    assert!(report.is_xml);
    assert!(!report.is_json);
}
