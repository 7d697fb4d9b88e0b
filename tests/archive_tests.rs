use mail_archiver::archive::{file_name_for_message, ArchiveError, ArchiveIndex, Decision};
use mail_archiver::filename::DateError;
use mail_archiver::headers::{header_value, HeaderValue};

const FULL: &[u8] = b"Return-Path: <x>\r\nFrom: John Doe <j@x.com>\r\nDate: Mon, 3 Jan 2022 04:05:06 +0000\r\nSubject: hi\r\n\r\nbody\r\n";
const NO_DATE: &[u8] = b"From: Jane <jane@y.org>\r\nSubject: no date\r\n\r\ntext\r\n";

#[test]
fn header_found_case_insensitively() {
    let body = b"Subject: x\nFROM:   Someone <s@t.u>  \r\nfrom: second\n";
    match header_value(body, b"from:") {
        HeaderValue::Text(t) => assert_eq!(t, "Someone <s@t.u>"),
        _ => panic!("expected a text value"),
    }
}

#[test]
fn header_only_at_line_start() {
    let body = b"Subject: re from: nobody\nX: y\n";
    assert!(matches!(header_value(body, b"from:"), HeaderValue::Absent));
}

#[test]
fn header_not_utf8() {
    let body = b"From: \xff\xfe\n";
    assert!(matches!(header_value(body, b"from:"), HeaderValue::NotText));
}

#[test]
fn message_with_full_headers() {
    assert_eq!(file_name_for_message(FULL), Ok("20220103040506_j@x.com.eml".to_string()));
}

#[test]
fn message_without_from() {
    let body = b"Date: Mon, 3 Jan 2022 04:05:06 +0000\n\nx";
    assert_eq!(file_name_for_message(body), Ok("20220103040506_unknown_sender.eml".to_string()));
}

#[test]
fn message_without_date() {
    assert_eq!(file_name_for_message(NO_DATE), Ok("00000000000000_jane@y.org.eml".to_string()));
}

#[test]
fn message_with_bad_date() {
    let body = b"From: a@b\nDate: garbage\n";
    assert_eq!(file_name_for_message(body), Err(ArchiveError::Date(DateError::TooFewFields)));
}

#[test]
fn message_with_binary_header() {
    let body = b"From: a@b\nDate: \xc3\x28\n";
    assert_eq!(file_name_for_message(body), Err(ArchiveError::HeaderNotText));
}

#[test]
fn binary_sender_without_date_gets_a_name() {
    let body = b"From: \xff\xfe\nSubject: x\n";
    assert_eq!(file_name_for_message(body), Ok("00000000000000_unknown_sender.eml".to_string()));
}

#[test]
fn empty_message() {
    assert_eq!(file_name_for_message(b""), Ok("00000000000000_unknown_sender.eml".to_string()));
}

#[test]
fn second_run_writes_nothing() {
    let names = vec!["a.eml".to_string(), "b.eml".to_string()];
    let mut index = ArchiveIndex::new(Vec::new());
    assert_eq!(index.offer_all(&names), 2);
    assert_eq!(index.offer_all(&names), 0);
    assert!(index.contains(&"a.eml".to_string()));
    assert!(index.contains(&"b.eml".to_string()));
}

#[test]
fn duplicate_names_in_one_run() {
    let names = vec!["a.eml".to_string(), "a.eml".to_string()];
    let mut index = ArchiveIndex::new(Vec::new());
    assert_eq!(index.offer_all(&names), 1);
}

#[test]
fn existing_file_is_not_rewritten() {
    let mut index = ArchiveIndex::new(vec!["old.eml".to_string()]);
    assert_eq!(index.offer("old.eml".to_string()), Decision::AlreadyPresent);
    assert_eq!(index.offer("new.eml".to_string()), Decision::Write);
    assert_eq!(index.offer("new.eml".to_string()), Decision::AlreadyPresent);
}
