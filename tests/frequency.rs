use harsh::frequency::{parse_freq, ParseErrorKind};

fn kind_of(s: &str) -> ParseErrorKind {
    parse_freq(s).unwrap_err().kind
}

#[test]
fn parses_each_rule() {
    assert_eq!(parse_freq("0").unwrap(), (0, 0));
    assert_eq!(parse_freq("3/7").unwrap(), (3, 7));
    assert_eq!(parse_freq("2w").unwrap(), (1, 14));
    assert_eq!(parse_freq("1").unwrap(), (1, 1));
    assert_eq!(kind_of("x"), ParseErrorKind::Unrecognized);
}

#[test]
fn parse_is_repeatable() {
    for s in ["0", "3/7", "2w", "1", "12", "0/0", "x", "3/0", "aw"] {
        let a = parse_freq(s);
        let b = parse_freq(s);
        match (a, b) {
            (Ok(p), Ok(q)) => assert_eq!(p, q),
            (Err(e), Err(f)) => {
                assert_eq!(e.kind, f.kind);
                assert_eq!(e.raw, f.raw);
            }
            _ => panic!("two parses of {s} disagree"),
        }
    }
}

#[test]
fn plain_and_weekly_values() {
    assert_eq!(parse_freq("7").unwrap(), (1, 7));
    assert_eq!(parse_freq("1w").unwrap(), (1, 7));
    assert_eq!(parse_freq("10w").unwrap(), (1, 70));
    assert_eq!(parse_freq("0/0").unwrap(), (0, 0));
    assert_eq!(parse_freq("0/5").unwrap(), (0, 5));
    assert_eq!(parse_freq("4294967295").unwrap(), (1, 4294967295));
    assert_eq!(parse_freq("613566756w").unwrap(), (1, 4294967292));
}

#[test]
fn weekly_errors() {
    assert_eq!(kind_of("w"), ParseErrorKind::InvalidWeekly);
    assert_eq!(kind_of("aw"), ParseErrorKind::InvalidWeekly);
    assert_eq!(kind_of("3/7w"), ParseErrorKind::InvalidWeekly);
    assert_eq!(kind_of("613566757w"), ParseErrorKind::InvalidWeekly);
    assert_eq!(kind_of("0w"), ParseErrorKind::ZeroInterval);
}

#[test]
fn ratio_errors() {
    assert_eq!(kind_of("3/x"), ParseErrorKind::InvalidRatio);
    assert_eq!(kind_of("/7"), ParseErrorKind::InvalidRatio);
    assert_eq!(kind_of("3/"), ParseErrorKind::InvalidRatio);
    assert_eq!(kind_of("1/2/3"), ParseErrorKind::InvalidRatio);
    assert_eq!(kind_of("3/0"), ParseErrorKind::ZeroInterval);
}

#[test]
fn unrecognized_keeps_text() {
    assert_eq!(kind_of(""), ParseErrorKind::Unrecognized);
    assert_eq!(kind_of("-1"), ParseErrorKind::Unrecognized);
    assert_eq!(kind_of("4294967296"), ParseErrorKind::Unrecognized);
    assert_eq!(kind_of("00"), ParseErrorKind::ZeroInterval);
    assert_eq!(parse_freq("daily").unwrap_err().raw, "daily".to_string());
}
