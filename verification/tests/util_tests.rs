use writkit::email::EmailStatus;
use writkit::limiter::RateLimited;
use writkit::utils::{
    i64_is_zero, is_char_number_or_uppercase, is_char_username_unfriendly, is_email_ok,
    is_password_ok, is_username_ok, is_whitespace, read_be_i64, read_be_u64, word_count_bytes,
    FancyBool,
};

#[test]
fn word_count_counts_pieces() {
    assert_eq!(word_count_bytes(b""), 1);
    assert_eq!(word_count_bytes(b"one"), 1);
    assert_eq!(word_count_bytes(b"one two three"), 3);
    // empty pieces count, exactly as the splitter yields them
    assert_eq!(word_count_bytes(b"a  b"), 3);
    assert_eq!(word_count_bytes(b"a\tb\nc"), 3);
}

#[test]
fn whitespace_bytes_are_space_tab_newline() {
    assert!(is_whitespace(&b' '));
    assert!(is_whitespace(&b'\t'));
    assert!(is_whitespace(&b'\n'));
    assert!(!is_whitespace(&b'\r'));
    assert!(!is_whitespace(&b'x'));
}

#[test]
fn character_classes_follow_the_standard_library() {
    assert!(is_char_number_or_uppercase('5'));
    assert!(is_char_number_or_uppercase('Q'));
    assert!(!is_char_number_or_uppercase('q'));
    assert!(!is_char_username_unfriendly('a'));
    assert!(!is_char_username_unfriendly('_'));
    assert!(!is_char_username_unfriendly('-'));
    assert!(!is_char_username_unfriendly(' '));
    assert!(is_char_username_unfriendly('!'));
    assert!(is_char_username_unfriendly('@'));
}

#[test]
fn password_validation() {
    assert!(is_password_ok("longEnough"));
    assert!(is_password_ok("has1digit"));
    assert!(!is_password_ok("short7"));
    assert!(!is_password_ok("nouppercaseordigit"));
    let long: String = std::iter::repeat('A').take(257).collect();
    assert!(!is_password_ok(&long));
}

#[test]
fn username_validation() {
    assert!(is_username_ok("good name"));
    assert!(is_username_ok("a_b-c"));
    assert!(!is_username_ok("abc"));
    assert!(!is_username_ok(" lead"));
    assert!(!is_username_ok("trail "));
    assert!(!is_username_ok("dou  ble"));
    assert!(!is_username_ok("-lead"));
    assert!(!is_username_ok("under__score"));
    assert!(!is_username_ok("ba!ng"));
    let long: String = std::iter::repeat('a').take(50).collect();
    assert!(!is_username_ok(&long));
}

#[test]
fn email_validation_through_the_pattern() {
    assert!(is_email_ok("someone@mail.com"));
    assert!(is_email_ok("a.b+c@sub.domain.org"));
    assert!(!is_email_ok("not-an-email"));
    assert!(!is_email_ok("@nope.com"));
}

#[test]
fn zero_check() {
    assert!(i64_is_zero(&0));
    assert!(!i64_is_zero(&1));
    assert!(!i64_is_zero(&-1));
}

#[test]
fn big_endian_reads_advance_the_slice() {
    let bytes: [u8; 17] = [0, 0, 0, 0, 0, 0, 1, 2, 255, 255, 255, 255, 255, 255, 255, 255, 9];
    let mut input: &[u8] = &bytes;
    assert_eq!(read_be_u64(&mut input), 258);
    assert_eq!(read_be_i64(&mut input), -1);
    assert_eq!(input, &[9u8]);
}

#[test]
fn rate_limit_record_round_trips_through_bytes() {
    let rl = RateLimited { hits: 3, lasthit: 1700000000, timeout: -5 };
    let bin = rl.to_bin();
    assert_eq!(bin.len(), 20);
    let back = RateLimited::from_bin(&bin).unwrap();
    assert_eq!(back, rl);
    assert!(RateLimited::from_bin(&bin[1..]).is_none());
}

#[test]
fn rate_limit_backoff_pushes_the_timeout_out() {
    let mut rl = RateLimited { hits: 1, lasthit: 100, timeout: 100 };
    // second hit within the window, threshold 3: no timeout yet
    rl.hit(1, 3, 60, 110);
    assert_eq!(rl.hits, 2);
    assert_eq!(rl.timeout, 100);
    // two more hits pass the threshold: one window per excess hit
    rl.hit(1, 3, 60, 115);
    rl.hit(1, 3, 60, 120);
    assert_eq!(rl.hits, 4);
    assert_eq!(rl.timeout, 120 + 60);
    assert!(rl.is_timing_out_at(130));
    assert!(!rl.is_timing_out_at(180));
    assert_eq!(rl.seconds_left_at(130), 50);
    assert_eq!(rl.minutes_left_at(60), 2);
    assert_eq!(rl.minutes_left_at(300), -2);
}

#[test]
fn rate_limit_resets_after_a_quiet_window() {
    let mut rl = RateLimited { hits: 5, lasthit: 100, timeout: 150 };
    rl.hit(1, 3, 60, 300);
    assert_eq!(rl.hits, 1);
    assert_eq!(rl.timeout, 300);
    assert_eq!(rl.lasthit, 300);
}

#[test]
fn qualify_and_wrap_lift_bools() {
    assert_eq!(true.qualify(7u64), Some(7));
    assert_eq!(false.qualify(7u64), None);
    assert_eq!(true.wrap(), Some(true));
    assert_eq!(false.wrap(), None);
}

#[test]
fn calendar_decomposition_of_the_epoch() {
    assert_eq!(writkit::clock::utc_calendar(0), Some((1970, 1, 1, 0)));
    // 2001-09-09T01:46:40Z
    assert_eq!(writkit::clock::utc_calendar(1_000_000_000), Some((2001, 9, 9, 1)));
    assert!(writkit::clock::unix_now() > 1_600_000_000);
}

#[test]
fn email_status_settles() {
    assert!(!EmailStatus::Sending.is_settled());
    assert!(EmailStatus::Sent.is_settled());
    assert!(EmailStatus::Failed(None).is_settled());
    assert!(EmailStatus::Failed(Some(String::from("bounced"))).is_settled());
}

#[test]
fn markdown_rendering_is_not_the_identity() {
    let out = writkit::render::render_md("# title");
    // headings render with the crate's id prefix
    assert!(out.contains("<h1"));
    assert!(out.contains("writ-"));
    assert_ne!(out, "# title");
}
