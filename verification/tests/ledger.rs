use chrono::TimeZone;
use ishango::buckets::{ensure_bucket_exists, get_bucket_path, init_check, is_valid_bucket_name};
use ishango::commands::{add_line, balance_output, delta_output, list_output, transactions_output};
use ishango::errors::LedgerError;
use ishango::clock::{render_civil, render_day, Civil, CivilDay};
use ishango::records::{encode_line, parse_line, parse_value, Transaction};

fn local_date(ts: i64) -> String {
    let utc = chrono::Utc.timestamp_opt(ts, 0).single().unwrap();
    let dt: chrono::DateTime<chrono::Local> = chrono::DateTime::from(utc);
    dt.format("%Y-%m-%d").to_string()
}

fn local_datetime(ts: i64) -> String {
    let utc = chrono::Utc.timestamp_opt(ts, 0).single().unwrap();
    let dt: chrono::DateTime<chrono::Local> = chrono::DateTime::from(utc);
    dt.format("%Y-%m-%d %H:%M:%S").to_string()
}

#[test]
fn name_charset() {
    assert!(is_valid_bucket_name("savings"));
    assert!(is_valid_bucket_name("A-b_9"));
    assert!(!is_valid_bucket_name(""));
    assert!(!is_valid_bucket_name("a b"));
    assert!(!is_valid_bucket_name("a/b"));
    assert!(!is_valid_bucket_name("caf\u{e9}"));
}

#[test]
fn init_then_balance_is_zero() {
    assert!(init_check("savings", false).is_ok());
    let lines: Vec<String> = Vec::new();
    assert_eq!(balance_output(&lines), "0.00\n");
}

#[test]
fn init_rejects_invalid_name() {
    let r = init_check("a b", false);
    assert!(matches!(r, Err(LedgerError::InvalidName)));
    let r = init_check("a/b", true);
    match r {
        Err(e) => assert_eq!(
            e.message(),
            "Bucket name must only contain digits, letters, - or _"
        ),
        Ok(_) => panic!("invalid name accepted"),
    }
}

#[test]
fn init_rejects_existing_bucket() {
    let r = init_check("savings", true);
    match r {
        Err(LedgerError::BucketAlreadyExists { ref bucket }) => {
            assert_eq!(bucket, "savings");
        }
        _ => panic!("existing bucket accepted"),
    }
    assert_eq!(
        r.unwrap_err().message(),
        "Bucket 'savings' already exists"
    );
}

#[test]
fn missing_bucket_is_reported() {
    let r = ensure_bucket_exists("ghost", false);
    match r {
        Err(LedgerError::BucketNotFound { ref bucket }) => assert_eq!(bucket, "ghost"),
        _ => panic!("missing bucket accepted"),
    }
    assert_eq!(r.unwrap_err().message(), "Bucket 'ghost' does not exist");
    assert!(ensure_bucket_exists("ghost", true).is_ok());
}

#[test]
fn balance_sums_three_values() {
    let lines = vec![
        encode_line(1, 1050),
        encode_line(2, -325),
        encode_line(3, 75),
    ];
    assert_eq!(balance_output(&lines), "8.00\n");
}

#[test]
fn delta_groups_by_day_ascending() {
    let day = 86_400i64;
    let lines = vec![
        encode_line(12 * day, 250),
        encode_line(day, 100),
        encode_line(day + 60, 50),
    ];
    let out = delta_output(&lines).unwrap();
    let expected = format!(
        "{}: 1.50\n{}: 2.50\n",
        local_date(day),
        local_date(12 * day)
    );
    assert_eq!(out, expected);
}

#[test]
fn transactions_keep_append_order() {
    let day = 86_400i64;
    let lines = vec![encode_line(12 * day, 250), encode_line(day, 100)];
    let out = transactions_output(&lines).unwrap();
    let expected = format!(
        "{} 2.50\n{} 1.00\n",
        local_datetime(12 * day),
        local_datetime(day)
    );
    assert_eq!(out, expected);
}

#[test]
fn corrupted_line_tolerated_by_balance_only() {
    let lines = vec![encode_line(5, 199), String::from("garbage")];
    assert_eq!(balance_output(&lines), "1.99\n");
    let r = transactions_output(&lines);
    assert!(matches!(r, Err(LedgerError::MalformedRecord)));
    assert_eq!(r.unwrap_err().message(), "Malformed record");
    let r = delta_output(&lines);
    assert!(matches!(r, Err(LedgerError::MalformedRecord)));
}

#[test]
fn out_of_range_timestamp_fails_fast_scans_only() {
    let lines = vec![encode_line(i64::MAX, 100)];
    assert_eq!(balance_output(&lines), "1.00\n");
    assert!(matches!(
        transactions_output(&lines),
        Err(LedgerError::MalformedRecord)
    ));
    assert!(matches!(
        delta_output(&lines),
        Err(LedgerError::MalformedRecord)
    ));
}

#[test]
fn list_of_nothing_prints_nothing() {
    let entries: Vec<String> = Vec::new();
    assert_eq!(list_output(&entries), "");
}

#[test]
fn list_keeps_bucket_files_only() {
    let entries = vec![
        String::from("a.jsonl"),
        String::from("b.txt"),
        String::from(".jsonl"),
        String::from("c.d.jsonl"),
    ];
    assert_eq!(list_output(&entries), "a\nc.d\n");
}

#[test]
fn stored_line_shape_is_exact() {
    assert_eq!(encode_line(7, 1050), "{\"time\":7,\"value\":10.50}");
    assert_eq!(encode_line(-3, -25), "{\"time\":-3,\"value\":-0.25}");
    assert_eq!(encode_line(0, 0), "{\"time\":0,\"value\":0.00}");
}

#[test]
fn written_lines_read_back() {
    let line = encode_line(1234567890, -12345);
    let tr = parse_line(&line);
    assert_eq!(
        tr,
        Some(Transaction {
            time: 1234567890,
            cents: -12345
        })
    );
    let line = encode_line(i64::MIN, i64::MAX);
    assert_eq!(
        parse_line(&line),
        Some(Transaction {
            time: i64::MIN,
            cents: i64::MAX
        })
    );
}

#[test]
fn reader_accepts_short_fractions() {
    assert_eq!(
        parse_line("{\"time\":1,\"value\":10.5}"),
        Some(Transaction {
            time: 1,
            cents: 1050
        })
    );
    assert_eq!(
        parse_line("{\"time\":1,\"value\":8}"),
        Some(Transaction { time: 1, cents: 800 })
    );
}

#[test]
fn reader_rejects_malformed_lines() {
    assert!(parse_line("").is_none());
    assert!(parse_line("{\"time\":1,\"value\":1e5}").is_none());
    assert!(parse_line("{\"time\":1,\"value\":0.125}").is_none());
    assert!(parse_line("{\"time\":1.5,\"value\":1.0}").is_none());
    assert!(parse_line("{\"time\":01,\"value\":1.0}").is_none());
    assert!(parse_line("{\"value\":1.0,\"time\":1}").is_none());
    assert!(parse_line("{\"time\":1,\"value\":1.0} ").is_none());
}

#[test]
fn command_line_amounts() {
    assert_eq!(parse_value("10.5"), Some(1050));
    assert_eq!(parse_value("-3.25"), Some(-325));
    assert_eq!(parse_value("0.75"), Some(75));
    assert_eq!(parse_value("8"), Some(800));
    assert_eq!(parse_value("-0.0"), Some(0));
    assert_eq!(parse_value(""), None);
    assert_eq!(parse_value("1.234"), None);
    assert_eq!(parse_value("abc"), None);
}

#[test]
fn new_records_carry_the_clock() {
    let before = chrono::Utc::now().timestamp();
    let line = add_line(4242);
    let after = chrono::Utc::now().timestamp();
    let tr = parse_line(&line).expect("a fresh record line parses");
    assert_eq!(tr.cents, 4242);
    assert!(before <= tr.time && tr.time <= after);
}

#[test]
fn bucket_paths() {
    assert_eq!(get_bucket_path("/data", "b"), "/data/b.jsonl");
    assert_eq!(get_bucket_path("", "x"), "/x.jsonl");
}

#[test]
fn balance_formats_negative_totals() {
    let lines = vec![encode_line(1, -50)];
    assert_eq!(balance_output(&lines), "-0.50\n");
    let lines = vec![encode_line(1, -1), encode_line(2, -99)];
    assert_eq!(balance_output(&lines), "-1.00\n");
}

#[test]
fn dates_render_zero_padded() {
    let d = CivilDay { year: 2024, month: 5, day: 7 };
    assert_eq!(render_day(&d), "2024-05-07");
    let d = CivilDay { year: 33, month: 12, day: 31 };
    assert_eq!(render_day(&d), "0033-12-31");
    let c = Civil { date: CivilDay { year: 1970, month: 1, day: 1 }, hour: 0, minute: 9, second: 30 };
    assert_eq!(render_civil(&c), "1970-01-01 00:09:30");
}

#[test]
fn empty_bucket_reports() {
    let lines: Vec<String> = Vec::new();
    assert_eq!(transactions_output(&lines).unwrap(), "");
    assert_eq!(delta_output(&lines).unwrap(), "");
}

#[test]
fn delta_sums_can_be_negative() {
    let lines = vec![encode_line(60, -100), encode_line(120, -150)];
    let out = delta_output(&lines).unwrap();
    assert_eq!(out, format!("{}: -2.50\n", local_date(60)));
}

#[test]
fn timestamps_at_the_conversion_bounds() {
    let hi = 8_000_000_000_000i64;
    let lo = -8_000_000_000_000i64;
    let lines = vec![encode_line(lo, 100), encode_line(hi, 250)];
    let out = transactions_output(&lines).unwrap();
    let expected = format!("{} 1.00\n{} 2.50\n", local_datetime(lo), local_datetime(hi));
    assert_eq!(out, expected);
    let expected = format!("{}: 1.00\n{}: 2.50\n", local_date(lo), local_date(hi));
    assert_eq!(delta_output(&lines).unwrap(), expected);
    let beyond = vec![encode_line(hi + 1, 1)];
    assert!(matches!(
        transactions_output(&beyond),
        Err(LedgerError::MalformedRecord)
    ));
}
