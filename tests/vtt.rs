use webvtt::duration::Duration;
use webvtt::text::{join, lines};
use webvtt::vtt::{from_lines, from_str, parse_timing, Cue, Error};

#[test]
fn basic() {
    let text = "WEBVTT\n\n00:19.920 --> 00:21.120\nHello.\n\n00:21.120 --> 00:23.680\nHello, hi everyone.\n\n00:23.680 --> 00:27.800\nWe'll just wait a couple of minutes\n\n";
    let result = from_str(text).unwrap();
    let expected = vec![
        Cue {
            start: Duration::new(19, 920 * 1000000),
            end: Duration::new(21, 120 * 1000000),
            text: String::from("Hello."),
        },
        Cue {
            start: Duration::new(21, 120 * 1000000),
            end: Duration::new(23, 680 * 1000000),
            text: String::from("Hello, hi everyone."),
        },
        Cue {
            start: Duration::new(23, 680 * 1000000),
            end: Duration::new(27, 800 * 1000000),
            text: String::from("We'll just wait a couple of minutes"),
        },
    ];
    assert_eq!(result, expected);
}

#[test]
fn multiline() {
    let text = "WEBVTT\n\n00:19.920 --> 00:28.150\nHello.\nHello, hi everyone.\n\n00:28.150 --> 05:27.800\nWe'll just wait a couple of minutes.\nAnd a couple more minutes...\n";
    let result = from_str(text).unwrap();
    let expected = vec![
        Cue {
            start: Duration::new(19, 920 * 1000000),
            end: Duration::new(28, 150 * 1000000),
            text: String::from("Hello.\nHello, hi everyone."),
        },
        Cue {
            start: Duration::new(28, 150 * 1000000),
            end: Duration::new(5 * 60 + 27, 800 * 1000000),
            text: String::from("We'll just wait a couple of minutes.\nAnd a couple more minutes..."),
        },
    ];
    assert_eq!(result, expected);
}

#[test]
fn single_cue_document() {
    let result = from_str("WEBVTT\n\n0:19.920 --> 0:21.120\nHello.\n\n").unwrap();
    let expected = vec![Cue {
        start: Duration::new(19, 920_000_000),
        end: Duration::new(21, 120_000_000),
        text: String::from("Hello."),
    }];
    assert_eq!(result, expected);
}

#[test]
fn missing_header_rejected() {
    assert_eq!(from_str("WEBVTX\n\n0:01 --> 0:02\nHi\n"), Err(Error::InvalidHeader));
    assert_eq!(from_str("webvtt\n\n"), Err(Error::InvalidHeader));
    assert_eq!(from_str("WEBVTT \n\n"), Err(Error::InvalidHeader));
    assert_eq!(from_str("\nWEBVTT\n\n"), Err(Error::InvalidHeader));
}

#[test]
fn missing_blank_after_header_rejected() {
    assert_eq!(from_str("WEBVTT\n0:01 --> 0:02\nHi\n"), Err(Error::InvalidHeader));
    assert_eq!(from_str("WEBVTT\nKind: captions\n\n"), Err(Error::InvalidHeader));
}

#[test]
fn bad_timing_line_rejected() {
    assert_eq!(from_str("WEBVTT\n\n0:01 -> 0:02\nHi\n"), Err(Error::InvalidCueTime));
    assert_eq!(from_str("WEBVTT\n\n0:01-->0:02\nHi\n"), Err(Error::InvalidCueTime));
    assert_eq!(from_str("WEBVTT\n\n0:0x --> 0:02\nHi\n"), Err(Error::InvalidCueTime));
    assert_eq!(from_str("WEBVTT\n\n0:01 --> 0:02 --> 0:03\nHi\n"), Err(Error::InvalidCueTime));
    assert_eq!(
        from_str("WEBVTT\n\n0:01 --> 0:02\nHi\n\n0:03 --> soon\nBye\n"),
        Err(Error::InvalidCueTime)
    );
}

#[test]
fn parse_timing_reads_both_sides() {
    assert_eq!(
        parse_timing("1:00.5 --> 1:02"),
        Ok((Duration::new(60, 500_000_000), Duration::new(62, 0)))
    );
    assert_eq!(parse_timing("1:00.5 --> "), Err(Error::InvalidCueTime));
}

#[test]
fn one_cue_per_timing_line() {
    let text = "WEBVTT\n\n\n\n0:01 --> 0:02\nA\n\n\n0:03 --> 0:04\n\n0:05 --> 0:06\nC\nD\n\n";
    let cues = from_str(text).unwrap();
    assert_eq!(cues.len(), 3);
    assert_eq!(cues[1].text, String::from(""));
    assert_eq!(cues[2].text, String::from("C\nD"));
}

#[test]
fn text_lines_kept_verbatim() {
    let cues = from_str("WEBVTT\n\n0:01 --> 0:02\n  indented \n0:03 --> 0:04\n").unwrap();
    assert_eq!(cues.len(), 1);
    assert_eq!(cues[0].text, String::from("  indented \n0:03 --> 0:04"));
}

#[test]
fn last_cue_without_trailing_newline() {
    let cues = from_str("WEBVTT\n\n0:01 --> 0:02\nfirst\nsecond").unwrap();
    assert_eq!(cues.len(), 1);
    assert_eq!(cues[0].text, String::from("first\nsecond"));
}

#[test]
fn timing_line_at_end_gives_empty_text() {
    let cues = from_str("WEBVTT\n\n0:01 --> 0:02").unwrap();
    assert_eq!(cues.len(), 1);
    assert_eq!(cues[0].text, String::from(""));
}

#[test]
fn crlf_line_endings() {
    let cues = from_str("WEBVTT\r\n\r\n0:01 --> 0:02\r\nHi\r\nthere\r\n").unwrap();
    assert_eq!(
        cues,
        vec![Cue { start: Duration::new(1, 0), end: Duration::new(2, 0), text: String::from("Hi\nthere") }]
    );
}

#[test]
fn empty_and_header_only_documents() {
    assert_eq!(from_str(""), Ok(vec![]));
    assert_eq!(from_str("WEBVTT"), Ok(vec![]));
    assert_eq!(from_str("WEBVTT\n\n"), Ok(vec![]));
}

#[test]
fn from_lines_takes_lines() {
    let ls = vec![
        String::from("WEBVTT"),
        String::from(""),
        String::from("0:01 --> 0:02"),
        String::from("a"),
        String::from("b"),
    ];
    let cues = from_lines(&ls).unwrap();
    assert_eq!(cues[0].text, String::from("a\nb"));
}

#[test]
fn lines_split_like_str_lines() {
    let expected: Vec<String> = vec![String::from("a"), String::from("b"), String::from(""), String::from("c\r")];
    assert_eq!(lines("a\r\nb\n\nc\r"), expected);
    assert_eq!(lines("x\n"), vec![String::from("x")]);
    assert_eq!(lines(""), Vec::<String>::new());
    assert_eq!(lines("\n"), vec![String::from("")]);
}

#[test]
fn join_puts_newlines_between() {
    assert_eq!(join(&vec![]), String::from(""));
    assert_eq!(join(&vec![String::from("a")]), String::from("a"));
    assert_eq!(join(&vec![String::from("a"), String::from(""), String::from("c")]), String::from("a\n\nc"));
}
