use chrono::{DateTime, Utc};
use elscione_sync::downloader::file_writer::{
    content_range_start, delay_until, hex_text, judge_answer, misplaced, modification_time,
    parse_retry_after, range_header, refused, remaining_after, remaining_text, retry_after_at, Delay,
    DownloadError, DownloadRequest, Step, Transfer,
};
use sha2::{Digest, Sha256};

fn secs(secs: u64) -> Delay {
    Delay { secs, nanos: 0 }
}

#[test]
fn content_range_start_parses_valid_headers() {
    assert_eq!(content_range_start("bytes 100-999/1000"), Some(100));
    assert_eq!(content_range_start("bytes 0-0/1"), Some(0));
}

#[test]
fn content_range_start_rejects_malformed_headers() {
    assert_eq!(content_range_start("bytes */1000"), None);
    assert_eq!(content_range_start("items 100-999/1000"), None);
    assert_eq!(content_range_start(""), None);
}

#[test]
fn test_parse_retry_after() {
    assert_eq!(parse_retry_after("120"), Some(secs(120)));
    assert_eq!(parse_retry_after("0"), Some(secs(0)));
    assert_eq!(parse_retry_after("invalid"), None);
}

#[test]
fn content_range_edge_cases() {
    assert_eq!(content_range_start("  bytes 7-9/10 "), Some(7));
    assert_eq!(content_range_start("bytes 7-9/*"), Some(7));
    assert_eq!(content_range_start("bytes 007-9/10"), Some(7));
    assert_eq!(content_range_start("bytes 18446744073709551615-18446744073709551616/*"), Some(u64::MAX));
    assert_eq!(content_range_start("bytes 18446744073709551616-18446744073709551617/*"), None);
    for malformed in [
        "bytes 100", "bytes 5", "bytes -5", "Bytes 5-6/7", "bytes +5-6/7", "bytes 7-x", "bytes 7-9",
        "bytes 7-9/", "bytes 7-/10", "bytes 9-7/10", "bytes 7 -9/10", "bytes  7-9/10", "bytes 7-9/x",
        "bytes 7-9/**", "bytes 7-9-8/10", "bytes 7-9/10/11", "bytes=7-9/10", "bytes ", "bytes */*",
    ] {
        assert_eq!(content_range_start(malformed), None, "{}", malformed);
    }
}

#[test]
fn dates_in_retry_after() {
    let date = "Wed, 21 Oct 2015 07:28:00 GMT";
    let at = 1445412480;
    assert_eq!(retry_after_at(date, (at - 90, 0)), Some(secs(90)));
    assert_eq!(
        retry_after_at(date, (at - 90, 250_000_000)),
        Some(Delay { secs: 89, nanos: 750_000_000 })
    );
    assert_eq!(retry_after_at(date, (at, 0)), None);
    assert_eq!(retry_after_at(date, (at + 1, 0)), None);
    assert_eq!(retry_after_at(" 45 ", (at, 0)), Some(secs(45)));
    assert_eq!(parse_retry_after(date), None);
    let far = parse_retry_after("Fri, 31 Dec 2100 23:59:59 GMT").unwrap();
    assert!(far.secs > 0 && far.nanos < 1_000_000_000);
}

#[test]
fn delays_agree_with_the_calendar_crate() {
    let points: Vec<DateTime<Utc>> = vec![
        DateTime::from_timestamp(0, 0).unwrap(),
        DateTime::from_timestamp(59, 999_999_999).unwrap(),
        DateTime::from_timestamp(59, 1_500_000_000).unwrap(),
        DateTime::from_timestamp(60, 0).unwrap(),
        DateTime::from_timestamp(86399, 1_000_000_000).unwrap(),
        DateTime::from_timestamp(86400, 5).unwrap(),
        DateTime::from_timestamp(1445412480, 1).unwrap(),
        DateTime::from_timestamp(-1, 7).unwrap(),
    ];
    for target in &points {
        for now in &points {
            let expected = if target > now {
                (*target - *now)
                    .to_std()
                    .ok()
                    .map(|d| Delay { secs: d.as_secs(), nanos: d.subsec_nanos() })
            } else {
                None
            };
            let actual = delay_until(
                (target.timestamp(), target.timestamp_subsec_nanos()),
                (now.timestamp(), now.timestamp_subsec_nanos()),
            );
            assert_eq!(actual, expected, "{:?} {:?}", target, now);
        }
    }
}

#[test]
fn ranges_are_asked_for_only_to_resume() {
    assert_eq!(range_header(0), None);
    assert_eq!(range_header(1234).as_deref(), Some("bytes=1234-"));
}

#[test]
fn answers_and_what_they_mean() {
    let range = Some("bytes 10-99/100");
    assert_eq!(judge_answer(200, None, 0, true), Step::Create);
    assert_eq!(judge_answer(200, range, 10, true), Step::Create);
    assert_eq!(judge_answer(206, range, 10, true), Step::Append);
    assert_eq!(judge_answer(206, range, 11, true), Step::Discard);
    assert_eq!(judge_answer(206, None, 10, true), Step::Discard);
    assert_eq!(judge_answer(206, None, 0, true), Step::Create);
    assert_eq!(judge_answer(416, None, 10, true), Step::Restart);
    assert_eq!(judge_answer(416, None, 0, true), Step::Restart);
    assert_eq!(judge_answer(416, None, 0, false), Step::Refuse);
    assert_eq!(judge_answer(404, None, 0, true), Step::Refuse);
    assert_eq!(judge_answer(302, None, 0, true), Step::Refuse);
}

#[test]
fn refusals_carry_status_and_wait() {
    let error = refused(429, Some("45"), "https://example.test/a");
    assert_eq!(error.message(), "HTTP 429 Too Many Requests for https://example.test/a");
    assert!(!error.is_forbidden());
    match error {
        DownloadError::HttpStatus { status, retry_after, url } => {
            assert_eq!(status, 429);
            assert_eq!(retry_after, Some(secs(45)));
            assert_eq!(url, "https://example.test/a");
        }
        other => panic!("{:?}", other),
    }
    let error = refused(404, None, "u");
    assert_eq!(error.message(), "HTTP 404 Not Found for u");
    assert!(matches!(error, DownloadError::HttpStatus { retry_after: None, .. }));
    assert!(refused(403, None, "u").is_forbidden());
    assert_eq!(refused(599, None, "u").message(), "HTTP 599 <unknown status code> for u");
    assert_eq!(refused(7, None, "u").message(), "HTTP 7 for u");
    assert_eq!(DownloadError::Io { message: "disk".to_owned() }.message(), "disk");
}

#[test]
fn misplaced_answers_are_explained() {
    assert_eq!(
        misplaced(Some(5), 10, "u").message(),
        "206 response resumed at Some(5) instead of requested offset 10 for u; discarding partial file"
    );
    assert_eq!(
        misplaced(None, 10, "u").message(),
        "206 response resumed at None instead of requested offset 10 for u; discarding partial file"
    );
}

#[test]
fn checksums_cover_the_whole_file() {
    let data = vec![
        0xFF, 0xFE, 0x00, 0xC0, 0xAF, 0x80, 0x81, 0xE0, 0x80, 0x80, 0xF0, 0x80, 0x80, 0x80, 0xED, 0xA0,
        0x80, 0x01, 0x02, 0x03,
    ];
    let expected = format!("{:x}", Sha256::digest(&data));
    let mut whole = Transfer::new();
    whole.take(&data);
    assert_eq!(whole.finish(), expected);

    let mut resumed = Transfer::new();
    resumed.take(&data[..7]);
    resumed.take(&[]);
    resumed.take(&data[7..8]);
    resumed.take(&data[8..]);
    assert_eq!(resumed.finish(), expected);

    assert_eq!(
        Transfer::new().finish(),
        "e3b0c44298fc1c149afbf4c8996fb92427ae41e4649b934ca495991b7852b855"
    );
    assert_eq!(hex_text(&vec![0, 0x0f, 0xa5, 0xff]), "000fa5ff");
}

#[test]
fn remaining_bytes_never_go_below_zero() {
    assert_eq!(remaining_after(10, 4), 6);
    assert_eq!(remaining_after(10, 10), 0);
    assert_eq!(remaining_after(10, 11), 0);
    assert_eq!(remaining_text(999), "999 B remaining");
    assert_eq!(remaining_text(301_000), "301.0 KB remaining");
}

#[test]
fn modification_times_are_read_back() {
    assert_eq!(modification_time(Some("2023-04-13 00:12")), Some(1681344720));
    assert_eq!(modification_time(Some("1970-01-01 00:01")), Some(60));
    assert_eq!(modification_time(Some("yesterday")), None);
    assert_eq!(modification_time(None), None);
}

#[test]
fn requests_hold_what_is_downloaded() {
    let request = DownloadRequest {
        cookie: None,
        url: "https://example.test/a",
        dest_path: "/out/a",
        last_modified: Some("1970-01-01 00:01"),
    };
    assert_eq!(request.url, "https://example.test/a");
    assert_eq!(modification_time(request.last_modified), Some(60));
}
