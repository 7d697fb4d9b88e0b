use mail_archiver::filename::{
    derive_file_name, extract_between_last_brackets, month_number, parse_date, sanitize_filename,
    split_time, split_words, DateError,
};

fn sender(raw: &str) -> String {
    extract_between_last_brackets(&sanitize_filename(raw)).to_string()
}

#[test]
fn derive_example_date_and_sender() {
    let name = derive_file_name(Some("John Doe <j@x.com>"), Some("Mon, 3 Jan 2022 04:05:06 +0000"));
    assert_eq!(name, Ok("20220103040506_j@x.com.eml".to_string()));
}

#[test]
fn derive_ignores_surrounding_whitespace() {
    let expected = Ok("20220103040506_j@x.com.eml".to_string());
    assert_eq!(derive_file_name(Some("John Doe <j@x.com>"), Some("  Mon,   3 Jan\t2022  04:05:06 +0000  ")), expected);
    assert_eq!(derive_file_name(Some("John Doe <j@x.com>"), Some("Mon,\n3 Jan 2022 04:05:06\r\n+0000")), expected);
}

#[test]
fn sender_bracketed_forms() {
    assert_eq!(sender("<a@b.com>"), "a@b.com");
    assert_eq!(sender("Name <a@b.com>"), "a@b.com");
    assert_eq!(sender("\"Name\" <A@B.com>"), "a@b.com");
}

#[test]
fn sender_without_brackets_passes_through() {
    assert_eq!(sender("Plain Sender Name"), "plain_sender_name");
    assert_eq!(sender("a@b.com"), "a@b.com");
}

#[test]
fn sender_brackets_in_wrong_order() {
    assert_eq!(sender("x >y< z"), "x_>y<_z");
}

#[test]
fn sender_uses_last_brackets() {
    assert_eq!(sender("<one@x> <two@y>"), "two@y");
}

#[test]
fn sanitize_lowercases_and_underscores() {
    assert_eq!(sanitize_filename("ABC Def"), "abc_def");
    assert_eq!(sanitize_filename(""), "");
}

#[test]
fn extract_empty_between() {
    assert_eq!(extract_between_last_brackets("a<>b"), "");
    assert_eq!(extract_between_last_brackets("no brackets"), "no brackets");
}

#[test]
fn missing_sender_uses_placeholder() {
    let name = derive_file_name(None, Some("Tue, 15 Mar 2022 10:20:30 +0100"));
    assert_eq!(name, Ok("20220315102030_unknown_sender.eml".to_string()));
}

#[test]
fn missing_date_uses_zero_fragment() {
    let name = derive_file_name(Some("<a@b.com>"), None);
    assert_eq!(name, Ok("00000000000000_a@b.com.eml".to_string()));
}

#[test]
fn garbage_date_is_refused() {
    assert_eq!(parse_date("garbage"), Err(DateError::TooFewFields));
    assert_eq!(derive_file_name(Some("a"), Some("garbage")), Err(DateError::TooFewFields));
}

#[test]
fn unknown_month_is_refused() {
    assert_eq!(parse_date("Mon, 3 jan 2022 04:05:06 +0000"), Err(DateError::UnknownMonth));
    assert_eq!(parse_date("Mon, 3 Foo 2022 04:05:06 +0000"), Err(DateError::UnknownMonth));
}

#[test]
fn bad_time_is_refused() {
    assert_eq!(parse_date("Mon, 3 Jan 2022 04:05 +0000"), Err(DateError::BadTime));
    assert_eq!(parse_date("Mon, 3 Jan 2022 04:05:06:07 +0000"), Err(DateError::BadTime));
}

#[test]
fn two_digit_day_is_kept() {
    assert_eq!(parse_date("Fri, 31 Dec 1999 23:59:59 -0500"), Ok("19991231235959".to_string()));
}

#[test]
fn epoch_text_does_not_parse() {
    assert_eq!(parse_date("1700000000"), Err(DateError::TooFewFields));
}

#[test]
fn every_month_has_its_number() {
    let names = ["Jan", "Feb", "Mar", "Apr", "May", "Jun", "Jul", "Aug", "Sep", "Oct", "Nov", "Dec"];
    let numbers = ["01", "02", "03", "04", "05", "06", "07", "08", "09", "10", "11", "12"];
    for (m, n) in names.iter().zip(numbers.iter()) {
        let (a, b) = month_number(m).unwrap();
        assert_eq!(format!("{}{}", a, b), *n);
    }
    assert_eq!(month_number("January"), None);
}

#[test]
fn words_and_time_split() {
    assert_eq!(split_words("  a  bc\td \n"), vec!["a".to_string(), "bc".to_string(), "d".to_string()]);
    assert!(split_words("   ").is_empty());
    assert_eq!(split_time("04:05:06"), Some(("04", "05", "06")));
    assert_eq!(split_time("0405"), None);
}

#[test]
fn earlier_date_sorts_first() {
    let a = derive_file_name(Some("z@z"), Some("Mon, 3 Jan 2022 04:05:06 +0000")).unwrap();
    let b = derive_file_name(Some("a@a"), Some("Tue, 4 Jan 2022 00:00:00 +0000")).unwrap();
    let c = derive_file_name(Some("a@a"), Some("Wed, 12 Oct 2022 09:00:00 +0000")).unwrap();
    let d = derive_file_name(Some("a@a"), Some("Sun, 1 Jan 2023 00:00:00 +0000")).unwrap();
    assert!(a < b);
    assert!(b < c);
    assert!(c < d);
}
