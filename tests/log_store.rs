use feedback_log::clock::timestamp_at;
use feedback_log::framer::{frame, is_delimiter, match_timestamp, Timestamp, DELIMITER_LEN};
use feedback_log::index::{available_dates, leading_date, lex_less, shard_file_name};
use feedback_log::parser::{parse, parse_feedback, records_of_day, Record};
use feedback_log::service::{prepare_append, prepare_message, CommService, SendError};
use feedback_log::text::split_text_lines;

fn strings(v: &[&str]) -> Vec<String> {
    v.iter().map(|s| s.to_string()).collect()
}

fn stamp(h: u32, m: u32, s: u32) -> Timestamp {
    Timestamp::new(2024, 1, 1, h, m, s).unwrap()
}

fn is_time_of_day(t: &str) -> bool {
    let c: Vec<char> = t.chars().collect();
    c.len() == 8
        && c[2] == ':'
        && c[5] == ':'
        && [0, 1, 3, 4, 6, 7].iter().all(|&i| c[i].is_ascii_digit())
}

#[test]
fn round_trip_hello_world() {
    let body = strings(&["Hello", "World"]);
    let now = timestamp_at(1_704_103_200).unwrap();
    let append = prepare_append("2024-01-01", &body, &now);
    assert_eq!(append.file_name, "2024-01-01-feedback.txt");
    let records = parse(&append.frame);
    assert_eq!(records.len(), 1);
    assert_eq!(records[0].body, body);
    let t = records[0].timestamp.clone().unwrap();
    assert!(is_time_of_day(&t));
    assert_eq!(t, "10:00:00");
}

#[test]
fn round_trip_with_clock_now() {
    let secs = std::time::SystemTime::now()
        .duration_since(std::time::UNIX_EPOCH)
        .unwrap()
        .as_secs() as i64;
    let now = timestamp_at(secs).unwrap();
    let records = parse(&frame(&now, &strings(&["Hello", "World"])));
    assert_eq!(records.len(), 1);
    assert_eq!(records[0].body, strings(&["Hello", "World"]));
    assert!(is_time_of_day(records[0].timestamp.as_deref().unwrap()));
}

#[test]
fn frame_text_is_exact() {
    let f = frame(&stamp(10, 0, 0), &strings(&["Hello", "World"]));
    let dashes = "-".repeat(50);
    let expected = format!("{dashes}\n[2024-01-01 - 10:00:00]z\nHello\nWorld\n{dashes}\n\n");
    assert_eq!(f, expected);
}

#[test]
fn n_sequential_appends_read_back_in_order() {
    for n in 0..6u32 {
        let mut shard = String::new();
        for k in 0..n {
            shard.push_str(&frame(&stamp(k, k, k), &strings(&[&format!("entry {k}"), "more"])));
        }
        let records = parse(&shard);
        assert_eq!(records.len(), n as usize);
        for (k, r) in records.iter().enumerate() {
            assert_eq!(r.body, strings(&[&format!("entry {k}"), "more"]));
            assert_eq!(r.timestamp, Some(format!("{:02}:{:02}:{:02}", k, k, k)));
        }
    }
}

#[test]
fn parse_is_repeatable() {
    let dashes = "-".repeat(50);
    let text = format!(
        "{dashes}\n[2024-01-01 - 10:00:00]z\na\n{dashes}\n\n{dashes}\nno stamp\n{dashes}\n{dashes}\n[2024-01-01 - 11:00:00]z\ncut"
    );
    let first = parse(&text);
    let second = parse(&text);
    assert_eq!(first, second);
    assert_eq!(first.len(), 2);
}

#[test]
fn truncated_frame_is_dropped() {
    let text = "-".repeat(50) + "\n[2024-01-01 - 10:00:00]z\npartial line";
    assert_eq!(parse(&text).len(), 0);
}

#[test]
fn truncated_frame_after_whole_ones() {
    let mut text = frame(&stamp(9, 0, 0), &strings(&["kept"]));
    text.push_str(&("-".repeat(50) + "\n[2024-01-01 - 10:00:00]z\npartial line"));
    let records = parse(&text);
    assert_eq!(records.len(), 1);
    assert_eq!(records[0].body, strings(&["kept"]));
}

#[test]
fn empty_body_append() {
    let append = prepare_append("2024-01-01", &Vec::new(), &stamp(8, 30, 15));
    let records = parse(&append.frame);
    assert_eq!(records.len(), 1);
    assert!(records[0].body.is_empty());
    assert_eq!(records[0].timestamp.as_deref(), Some("08:30:15"));
}

#[test]
fn date_ordering_newest_first() {
    let names = strings(&[
        "2024-01-02-feedback.txt",
        "notes.txt",
        "2024-12-31-feedback.txt",
        "2024-01-10-feedback.txt",
    ]);
    assert_eq!(available_dates(&names), strings(&["2024-12-31", "2024-01-10", "2024-01-02"]));
}

#[test]
fn date_index_edge_cases() {
    assert!(available_dates(&Vec::new()).is_empty());
    let names = strings(&["2024-01-02-feedback.txt", "2024-01-02", "2024-1-02.txt", "x2024-01-02", ""]);
    assert_eq!(available_dates(&names), strings(&["2024-01-02", "2024-01-02"]));
}

#[test]
fn two_appends_in_either_order() {
    let a = frame(&stamp(10, 0, 0), &strings(&["first"]));
    let b = frame(&stamp(10, 0, 1), &strings(&["second", "line"]));
    for text in [format!("{a}{b}"), format!("{b}{a}")] {
        let records = parse(&text);
        assert_eq!(records.len(), 2);
        assert!(records.iter().all(|r| r.timestamp.is_some()));
    }
    let records = parse(&format!("{b}{a}"));
    assert_eq!(records[0].body, strings(&["second", "line"]));
    assert_eq!(records[1].body, strings(&["first"]));
}

#[test]
fn delimiter_is_exactly_fifty_dashes() {
    assert_eq!(DELIMITER_LEN, 50);
    assert!(is_delimiter(&"-".repeat(50)));
    assert!(!is_delimiter(&"-".repeat(49)));
    assert!(!is_delimiter(&"-".repeat(51)));
    assert!(!is_delimiter(&("-".repeat(49) + "+")));
    assert!(!is_delimiter(""));
}

#[test]
fn timestamp_line_matching() {
    assert_eq!(match_timestamp("[2024-01-01 - 10:00:00]z").as_deref(), Some("10:00:00"));
    assert_eq!(match_timestamp("[1999-12-31 - 23:59:58]z").as_deref(), Some("23:59:58"));
    assert_eq!(match_timestamp("[2024-01-01 - 10:00:00]"), None);
    assert_eq!(match_timestamp("[2024-01-01 - 10:00:00]zz"), None);
    assert_eq!(match_timestamp("[2024-01-01 - 1:00:00]z"), None);
    assert_eq!(match_timestamp("[2024-01-01 - 10:0a:00]z"), None);
    assert_eq!(match_timestamp("(2024-01-01 - 10:00:00)z"), None);
    assert_eq!(match_timestamp(""), None);
}

#[test]
fn timestamp_text() {
    let t = Timestamp::new(2024, 3, 7, 9, 5, 3).unwrap();
    assert_eq!(t.stamp_string(), "[2024-03-07 - 09:05:03]z");
    assert_eq!(t.date_string(), "2024-03-07");
    assert_eq!(t.time_string(), "09:05:03");
    assert_eq!(Timestamp::new(7, 12, 31, 0, 0, 0).unwrap().date_string(), "0007-12-31");
    assert!(Timestamp::new(10000, 1, 1, 0, 0, 0).is_none());
    assert!(Timestamp::new(-1, 1, 1, 0, 0, 0).is_none());
    assert!(Timestamp::new(2024, 13, 1, 0, 0, 0).is_none());
    assert!(Timestamp::new(2024, 1, 0, 0, 0, 0).is_none());
    assert!(Timestamp::new(2024, 1, 1, 24, 0, 0).is_none());
    assert!(Timestamp::new(2024, 1, 1, 0, 60, 0).is_none());
    assert!(Timestamp::new(2024, 1, 1, 0, 0, 60).is_none());
}

#[test]
fn timestamps_from_unix_seconds() {
    assert_eq!(timestamp_at(0).unwrap().stamp_string(), "[1970-01-01 - 00:00:00]z");
    assert_eq!(timestamp_at(1_431_648_000).unwrap().stamp_string(), "[2015-05-15 - 00:00:00]z");
    assert_eq!(timestamp_at(-1).unwrap().stamp_string(), "[1969-12-31 - 23:59:59]z");
    assert_eq!(timestamp_at(951_827_696).unwrap().stamp_string(), "[2000-02-29 - 12:34:56]z");
    assert_eq!(timestamp_at(253_402_300_799).unwrap().stamp_string(), "[9999-12-31 - 23:59:59]z");
    assert!(timestamp_at(253_402_300_800).is_none());
    assert!(timestamp_at(i64::MAX).is_none());
}

#[test]
fn splitting_lines() {
    assert_eq!(split_text_lines(""), Vec::<String>::new());
    assert_eq!(split_text_lines("\n"), strings(&[""]));
    assert_eq!(split_text_lines("a"), strings(&["a"]));
    assert_eq!(split_text_lines("a\n"), strings(&["a"]));
    assert_eq!(split_text_lines("a\r\nb\n\nc\r"), strings(&["a", "b", "", "c\r"]));
    assert_eq!(split_text_lines("x\r\r\ny"), strings(&["x\r", "y"]));
    assert_eq!(split_text_lines("é\nü"), strings(&["é", "ü"]));
}

#[test]
fn frame_without_timestamp_line() {
    let dashes = "-".repeat(50);
    let text = format!("ignored\n{dashes}\nhello\n[2024-01-01 - 10:00:00]z\n{dashes}\nignored too\n");
    let records = parse(&text);
    assert_eq!(
        records,
        vec![Record { timestamp: None, body: strings(&["hello", "[2024-01-01 - 10:00:00]z"]) }]
    );
}

#[test]
fn second_timestamp_line_is_body() {
    let dashes = "-".repeat(50);
    let text = format!(
        "{dashes}\n[2024-01-01 - 10:00:00]z\n[2024-01-01 - 11:00:00]z\n{dashes}\n"
    );
    let records = parse(&text);
    assert_eq!(records.len(), 1);
    assert_eq!(records[0].timestamp.as_deref(), Some("10:00:00"));
    assert_eq!(records[0].body, strings(&["[2024-01-01 - 11:00:00]z"]));
}

#[test]
fn empty_frame_between_delimiters() {
    let dashes = "-".repeat(50);
    let records = parse(&format!("{dashes}\n{dashes}\n"));
    assert_eq!(records, vec![Record { timestamp: None, body: vec![] }]);
    assert!(parse("").is_empty());
}

#[test]
fn parse_feedback_gives_lines() {
    let mut text = frame(&stamp(10, 0, 0), &strings(&["Hello", "World"]));
    let dashes = "-".repeat(50);
    text.push_str(&format!("{dashes}\nbare\n{dashes}\n"));
    let lines = parse_feedback(&text).unwrap();
    assert_eq!(lines, vec![strings(&["10:00:00", "Hello", "World"]), strings(&["bare"])]);
}

#[test]
fn day_without_file_has_no_records() {
    assert!(records_of_day(None).is_empty());
    let text = frame(&stamp(10, 0, 0), &strings(&["a"]));
    assert_eq!(records_of_day(Some(&text)).len(), 1);
}

#[test]
fn shard_names() {
    assert_eq!(shard_file_name("2024-01-01"), "2024-01-01-feedback.txt");
    assert_eq!(leading_date("2024-01-01-feedback.txt").as_deref(), Some("2024-01-01"));
    assert_eq!(leading_date("2024-01-0"), None);
    assert_eq!(leading_date("abcd-01-01"), None);
}

#[test]
fn lexicographic_order() {
    assert!(lex_less("2024-01-02", "2024-01-10"));
    assert!(!lex_less("2024-01-10", "2024-01-02"));
    assert!(!lex_less("2024-01-02", "2024-01-02"));
    assert!(lex_less("2024", "2024-01"));
    assert!(!lex_less("", ""));
}

#[test]
fn service_checks_password() {
    let service = CommService::new("secret".to_string());
    assert!(service.authenticates("secret"));
    assert!(!service.authenticates("Secret"));
    let now = Timestamp::new(2024, 1, 1, 10, 0, 0).unwrap();
    assert_eq!(service.send_msg("wrong", "hi", &now).err(), Some(SendError::Unauthenticated));
    assert_eq!(service.send_msg("", "hi", &now).err(), Some(SendError::Unauthenticated));
    let append = service.send_msg("secret", "Hello\nWorld\n", &now).ok().unwrap();
    assert_eq!(append.file_name, "2024-01-01-feedback.txt");
    let records = parse(&append.frame);
    assert_eq!(records.len(), 1);
    assert_eq!(records[0].body, strings(&["Hello", "World"]));
}

#[test]
fn message_lines_become_body() {
    let now = Timestamp::new(2023, 11, 5, 23, 59, 59).unwrap();
    let append = prepare_message("one\r\ntwo", &now);
    assert_eq!(append.file_name, "2023-11-05-feedback.txt");
    let dashes = "-".repeat(50);
    assert_eq!(append.frame, format!("{dashes}\n[2023-11-05 - 23:59:59]z\none\ntwo\n{dashes}\n\n"));
}
