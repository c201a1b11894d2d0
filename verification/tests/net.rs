//! Repeating requests.

use std::time::Duration;

use reqwest::header::{HeaderMap, HeaderValue, RETRY_AFTER};
use ymelorix::net::{
    backoff, broken_off, header_text, next_attempt, no_answer, read_wait, retry_after, too_long,
    Attempts, Capped, Retry, MAX_WAIT,
};

#[test]
fn doubles_pause_up_to_the_ceiling() {
    for (attempt, expected_secs) in [
        (0, 1),
        (1, 2),
        (2, 4),
        (5, 32),
        (6, 60),
        (7, 60),
        (u32::MAX, 60),
    ] {
        assert_eq!(backoff(attempt), expected_secs);
    }
}

#[test]
fn decides_whether_to_repeat() {
    for (attempt, attempts, asked, expected) in [
        (0, 3, None, Retry::After(1)),
        (1, 3, None, Retry::After(2)),
        (2, 3, None, Retry::GiveUp),
        (0, 1, None, Retry::GiveUp),
        (0, 3, Some(7), Retry::After(7)),
        (0, 3, Some(600), Retry::GiveUp),
        (0, 3, Some(60), Retry::After(60)),
        (0, 3, Some(61), Retry::GiveUp),
        (u32::MAX, u32::MAX, None, Retry::GiveUp),
    ] {
        assert_eq!(next_attempt(attempt, attempts, asked), expected);
    }
}

#[test]
fn reads_retry_after() {
    for (value, expected) in [
        ("30", Some(30)),
        (" 30 ", Some(30)),
        ("0", Some(0)),
        ("Wed, 21 Oct 2015 07:28:00 GMT", None),
        ("soon", None),
        ("-5", None),
        ("18446744073709551615", Some(u64::MAX)),
        ("18446744073709551616", None),
    ] {
        let mut headers = HeaderMap::new();
        let _no_previous_value = headers.insert(RETRY_AFTER, HeaderValue::from_static(value));

        assert_eq!(retry_after(&headers), expected);
    }
}

#[test]
fn the_first_retry_after_counts() {
    let mut headers = HeaderMap::new();
    headers.append(RETRY_AFTER, HeaderValue::from_static("3"));
    headers.append(RETRY_AFTER, HeaderValue::from_static("4"));
    headers.append("x-other", HeaderValue::from_static("5"));
    assert_eq!(retry_after(&headers), Some(3));
}

#[test]
fn a_header_that_is_no_text_names_no_wait() {
    let mut headers = HeaderMap::new();
    headers.insert(RETRY_AFTER, HeaderValue::from_bytes(b"3\xff").unwrap());
    assert_eq!(retry_after(&headers), None);
    assert_eq!(read_wait(b"\t12"), Some(12));
    assert_eq!(header_text(b"a b\t~"), Some("a b\t~".to_owned()));
    for byte in 0..=255_u8 {
        let bytes = [byte];
        let expected = HeaderValue::from_bytes(&bytes)
            .ok()
            .and_then(|value| value.to_str().ok().map(str::to_owned));
        assert_eq!(header_text(&bytes), expected);
    }
}

#[test]
fn absent_retry_after_is_not_a_pause() {
    assert_eq!(retry_after(&HeaderMap::new()), None);
}

#[test]
fn ceiling_is_a_minute() {
    assert_eq!(Duration::from_secs(MAX_WAIT), Duration::from_secs(60));
}

#[test]
fn a_call_is_made_as_often_as_there_are_attempts() {
    let mut attempts = Attempts::new(3);
    let mut waits = Vec::new();
    while let Retry::After(wait) = attempts.refused(None) {
        waits.push(wait);
    }
    assert_eq!(waits, vec![1, 2]);
    assert_eq!(attempts.made, 2);
}

#[test]
fn a_body_never_outgrows_its_limit() {
    let mut body = Capped::new(5);
    assert!(body.push(b"abc"));
    assert!(!body.push(b"def"));
    assert!(body.push(b"de"));
    assert!(!body.push(b"f"));
    assert!(body.push(b""));
    assert_eq!(body.finish(), b"abcde".to_vec());
}

#[test]
fn network_failures_have_words() {
    assert_eq!(
        too_long("плейлист", 10),
        "плейлист: ответ больше 10 байт, читать дальше не буду"
    );
    assert_eq!(broken_off("плейлист"), "плейлист: тело ответа оборвалось");
    assert_eq!(no_answer("список лайков"), "список лайков: ответа нет дольше 30 с");
}
