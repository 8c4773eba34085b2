use headr::config::parse_positive_int;
use headr::config::resolve_config;
use headr::config::ConfigError;
use headr::config::CountMode;
use headr::lines::head_bytes;
use headr::lines::head_lines;
use headr::render::banner_line;
use headr::render::byte_body;
use headr::render::line_body;
use headr::render::open_error_line;
use headr::render::read_error_line;
use headr::render::render_run;
use headr::render::SourceOutcome;

#[test]
fn parse_accepts_plain_number() {
    assert_eq!(parse_positive_int("3"), Ok(3));
    assert_eq!(parse_positive_int("10"), Ok(10));
    assert_eq!(parse_positive_int("007"), Ok(7));
}

#[test]
fn parse_accepts_leading_plus() {
    assert_eq!(parse_positive_int("+5"), Ok(5));
}

#[test]
fn parse_accepts_largest_value() {
    assert_eq!(
        parse_positive_int("18446744073709551615"),
        Ok(usize::MAX)
    );
}

#[test]
fn parse_rejects_zero() {
    assert_eq!(parse_positive_int("0"), Err(String::from("0")));
    assert_eq!(parse_positive_int("+0"), Err(String::from("+0")));
    assert_eq!(parse_positive_int("000"), Err(String::from("000")));
}

#[test]
fn parse_rejects_non_numeric() {
    assert_eq!(parse_positive_int("foo"), Err(String::from("foo")));
    assert_eq!(parse_positive_int(""), Err(String::from("")));
    assert_eq!(parse_positive_int("+"), Err(String::from("+")));
    assert_eq!(parse_positive_int("-3"), Err(String::from("-3")));
    assert_eq!(parse_positive_int("3x"), Err(String::from("3x")));
    assert_eq!(parse_positive_int("1 2"), Err(String::from("1 2")));
}

#[test]
fn parse_rejects_overflow() {
    assert_eq!(
        parse_positive_int("18446744073709551616"),
        Err(String::from("18446744073709551616"))
    );
    assert_eq!(
        parse_positive_int("99999999999999999999999999"),
        Err(String::from("99999999999999999999999999"))
    );
}

#[test]
fn resolve_defaults_to_stdin_and_ten_lines() {
    let config = resolve_config(vec![], None, None).unwrap();
    assert_eq!(config.sources, vec![String::from("-")]);
    assert_eq!(config.mode, CountMode::Lines(10));
}

#[test]
fn resolve_keeps_given_sources_and_line_count() {
    let config = resolve_config(
        vec![String::from("a.txt"), String::from("b.txt")],
        Some(String::from("3")),
        None,
    )
    .unwrap();
    assert_eq!(
        config.sources,
        vec![String::from("a.txt"), String::from("b.txt")]
    );
    assert_eq!(config.mode, CountMode::Lines(3));
}

#[test]
fn resolve_selects_byte_mode() {
    let config = resolve_config(vec![String::from("a.txt")], None, Some(String::from("4")))
        .unwrap();
    assert_eq!(config.mode, CountMode::Bytes(4));
}

#[test]
fn resolve_rejects_both_counts() {
    let r = resolve_config(
        vec![String::from("a.txt")],
        Some(String::from("3")),
        Some(String::from("4")),
    );
    assert_eq!(r.unwrap_err(), ConfigError::ConflictingCounts);
}

#[test]
fn resolve_rejects_illegal_line_count() {
    let r = resolve_config(vec![], Some(String::from("foo")), None);
    let e = r.unwrap_err();
    assert_eq!(e, ConfigError::IllegalLineCount(String::from("foo")));
    assert_eq!(e.message(), String::from("illegal line count -- foo"));
}

#[test]
fn resolve_rejects_illegal_byte_count() {
    let r = resolve_config(vec![], None, Some(String::from("0")));
    let e = r.unwrap_err();
    assert_eq!(e, ConfigError::IllegalByteCount(String::from("0")));
    assert_eq!(e.message(), String::from("illegal byte count -- 0"));
}

#[test]
fn head_lines_takes_exactly_the_first_lines() {
    let content: Vec<u8> = b"one\ntwo\nthree\n".to_vec();
    assert_eq!(head_lines(&content, 2), b"one\ntwo\n".to_vec());
    assert_eq!(head_lines(&content, 1), b"one\n".to_vec());
    assert_eq!(head_lines(&content, 3), content);
}

#[test]
fn head_lines_with_large_count_takes_everything() {
    let content: Vec<u8> = b"one\ntwo\nthree\n".to_vec();
    assert_eq!(head_lines(&content, 10), content);
    let unterminated: Vec<u8> = b"one\ntwo".to_vec();
    assert_eq!(head_lines(&unterminated, 10), unterminated);
}

#[test]
fn head_lines_counts_an_unterminated_fragment_as_a_line() {
    let content: Vec<u8> = b"one\ntwo".to_vec();
    assert_eq!(head_lines(&content, 2), content);
    assert_eq!(head_lines(&content, 1), b"one\n".to_vec());
}

#[test]
fn head_lines_of_empty_content_is_empty() {
    let content: Vec<u8> = Vec::new();
    assert_eq!(head_lines(&content, 10), Vec::<u8>::new());
}

#[test]
fn head_bytes_takes_exactly_the_first_bytes() {
    let content: Vec<u8> = b"hello\nworld".to_vec();
    assert_eq!(head_bytes(&content, 5), b"hello".to_vec());
    assert_eq!(head_bytes(&content, 0), Vec::<u8>::new());
}

#[test]
fn head_bytes_of_short_content_takes_everything() {
    let content: Vec<u8> = b"hi".to_vec();
    assert_eq!(head_bytes(&content, 99), b"hi".to_vec());
}

#[test]
fn byte_body_decodes_the_prefix() {
    let content: Vec<u8> = b"hello".to_vec();
    assert_eq!(byte_body(&content, 3), String::from("hel"));
    assert_eq!(byte_body(&content, 99), String::from("hello"));
}

#[test]
fn byte_body_replaces_invalid_sequences() {
    let content: Vec<u8> = vec![0x61, 0xff, 0x62];
    assert_eq!(byte_body(&content, 3), String::from("a\u{fffd}b"));
    assert_eq!(byte_body(&content, 2), String::from("a\u{fffd}"));
}

#[test]
fn line_body_decodes_valid_lines() {
    let content: Vec<u8> = b"alpha\nbeta\n".to_vec();
    assert_eq!(line_body(&content, 1), Some(String::from("alpha\n")));
    assert_eq!(line_body(&content, 5), Some(String::from("alpha\nbeta\n")));
}

#[test]
fn line_body_rejects_an_invalid_prefix() {
    let content: Vec<u8> = vec![0xff, 0x7a, 0x0a];
    assert_eq!(line_body(&content, 1), None);
}

#[test]
fn line_body_ignores_invalid_bytes_past_the_prefix() {
    let content: Vec<u8> = vec![0x6f, 0x6b, 0x0a, 0xff, 0xfe];
    assert_eq!(line_body(&content, 1), Some(String::from("ok\n")));
}

#[test]
fn banner_absent_for_a_single_source() {
    assert_eq!(banner_line("a.txt", 0, 1), String::new());
}

#[test]
fn banner_present_for_several_sources() {
    assert_eq!(banner_line("a.txt", 0, 2), String::from("==> a.txt <==\n"));
    assert_eq!(
        banner_line("b.txt", 1, 2),
        String::from("\n==> b.txt <==\n")
    );
}

#[test]
fn open_error_line_names_the_source() {
    assert_eq!(
        open_error_line("missing.txt", "No such file or directory (os error 2)"),
        String::from("Failed to open missing.txt: No such file or directory (os error 2)\n")
    );
}

#[test]
fn read_error_line_names_the_source() {
    assert_eq!(
        read_error_line("bad.bin"),
        String::from("Failed to read bad.bin: invalid UTF-8")
    );
}

#[test]
fn run_with_one_source_prints_no_banner() {
    let sources = vec![String::from("a.txt")];
    let outcomes = vec![SourceOutcome::Opened(b"one\ntwo\n".to_vec())];
    let r = render_run(&sources, &outcomes, &CountMode::Lines(10));
    assert_eq!(r.out, String::from("one\ntwo\n"));
    assert_eq!(r.err, String::new());
    assert!(r.fatal.is_none());
}

#[test]
fn run_with_several_sources_prints_one_banner_each() {
    let sources = vec![String::from("a.txt"), String::from("b.txt")];
    let outcomes = vec![
        SourceOutcome::Opened(b"aa\n".to_vec()),
        SourceOutcome::Opened(b"bb\n".to_vec()),
    ];
    let r = render_run(&sources, &outcomes, &CountMode::Lines(10));
    assert_eq!(
        r.out,
        String::from("==> a.txt <==\naa\n\n==> b.txt <==\nbb\n")
    );
    assert_eq!(r.err, String::new());
    assert!(r.fatal.is_none());
}

#[test]
fn run_in_byte_mode_uses_the_same_banner_rule() {
    let sources = vec![String::from("a.txt"), String::from("b.txt")];
    let outcomes = vec![
        SourceOutcome::Opened(b"abcdef".to_vec()),
        SourceOutcome::Opened(b"xyz".to_vec()),
    ];
    let r = render_run(&sources, &outcomes, &CountMode::Bytes(2));
    assert_eq!(r.out, String::from("==> a.txt <==\nab\n==> b.txt <==\nxy"));
    assert_eq!(r.err, String::new());
    assert!(r.fatal.is_none());
}

#[test]
fn run_skips_a_source_that_failed_to_open() {
    let sources = vec![
        String::from("a.txt"),
        String::from("missing.txt"),
        String::from("b.txt"),
    ];
    let outcomes = vec![
        SourceOutcome::Opened(b"one\ntwo\nthree\n".to_vec()),
        SourceOutcome::Unopened(String::from("No such file or directory (os error 2)")),
        SourceOutcome::Opened(b"only\n".to_vec()),
    ];
    let r = render_run(&sources, &outcomes, &CountMode::Lines(10));
    assert_eq!(
        r.out,
        String::from("==> a.txt <==\none\ntwo\nthree\n\n==> b.txt <==\nonly\n")
    );
    assert_eq!(
        r.err,
        String::from("Failed to open missing.txt: No such file or directory (os error 2)\n")
    );
    assert!(r.fatal.is_none());
}

#[test]
fn run_stops_at_an_undecodable_line_mode_source() {
    let sources = vec![String::from("bad.bin"), String::from("b.txt")];
    let outcomes = vec![
        SourceOutcome::Opened(vec![0xff, 0x0a]),
        SourceOutcome::Opened(b"never\n".to_vec()),
    ];
    let r = render_run(&sources, &outcomes, &CountMode::Lines(1));
    assert_eq!(r.out, String::from("==> bad.bin <==\n"));
    assert_eq!(r.err, String::new());
    assert_eq!(
        r.fatal,
        Some(String::from("Failed to read bad.bin: invalid UTF-8"))
    );
}

#[test]
fn run_in_byte_mode_never_stops_on_invalid_bytes() {
    let sources = vec![String::from("bad.bin")];
    let outcomes = vec![SourceOutcome::Opened(vec![0xff, 0xfe, 0x61])];
    let r = render_run(&sources, &outcomes, &CountMode::Bytes(10));
    assert_eq!(r.out, String::from("\u{fffd}\u{fffd}a"));
    assert!(r.fatal.is_none());
}
