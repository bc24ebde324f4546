use json_carver::Carver;

/// Build a carver the way the command-line tool does, but over an in-memory
/// buffer, with no minimum size so that every candidate shows up.
fn create_carver() -> Carver {
    let mut carver = Carver::new(None, None);
    carver.set_min_size(0);
    carver
}

/// Drop the trailing newline separator, if any, so that expected values can
/// be written without it.
fn strip_trailing_newline(mut buf: Vec<u8>) -> Vec<u8> {
    if buf.last() == Some(&0x0A) {
        buf.pop();
    }
    buf
}

/// Parse a buffer and return the JSON sink bytes, without the final newline.
fn parse(buf: &[u8]) -> Vec<u8> {
    let mut carver = create_carver();
    let (json, _report) = carver.parse(buf);
    strip_trailing_newline(json)
}

fn report_incomplete(buf: &[u8], fix: bool) -> (Vec<u8>, Vec<u8>) {
    let mut carver = create_carver();
    carver.set_fix_incomplete(fix);
    let (json, report) = carver.parse(buf);
    (strip_trailing_newline(json), strip_trailing_newline(report))
}

/// Parse a buffer and return the emitted JSON values as one string each.
fn collect(buf: &[u8]) -> Vec<String> {
    let out = parse(buf);
    let s: String = String::from_utf8(out)
        .unwrap()
        .trim_end_matches("\n")
        .to_string();
    let mut v: Vec<String> = vec![];
    for line in s.lines() {
        v.push(line.to_owned())
    }
    v
}

#[test]
fn test_parse_found() {
    let buf = "{}";
    assert_eq!(collect(buf.as_bytes()), [buf]);
    let buf = "[{}]";
    assert_eq!(collect(buf.as_bytes()), [buf]);
    let buf = "{ {} ]";
    assert_eq!(collect(buf.as_bytes()), ["{}"]);
    let buf = "{    []";
    assert_eq!(collect(buf.as_bytes()), ["[]"]);
    let buf = "hey\n{[]}";
    assert_eq!(collect(buf.as_bytes()), ["[]"]);
    let buf = "hey";
    assert_eq!(collect(buf.as_bytes()), vec![] as Vec<String>);
    let buf = "[[[[[[[{}]]]]]]]";
    assert_eq!(collect(buf.as_bytes()), [buf]);
    let buf = "I[{}]want[[]]moar";
    assert_eq!(collect(buf.as_bytes()), ["[{}]", "[[]]"]);
    let buf = r#"{"hey": "there"}"#;
    assert_eq!(collect(buf.as_bytes()), [buf]);
    let buf = r#"{"hey": "there"}{"how": "are", "you": "doing?"}"#;
    assert_eq!(
        collect(buf.as_bytes()),
        [r#"{"hey": "there"}"#, r#"{"how": "are", "you": "doing?"}"#,]
    );
    let buf = r#"["test", ["nested", {"json": "objs"}]]"#;
    assert_eq!(collect(buf.as_bytes()), [buf]);
    let buf = r#"[1, 2]"#;
    assert_eq!(collect(buf.as_bytes()), [buf]);
    let buf = r#"[1, {"test": -2}]"#;
    assert_eq!(collect(buf.as_bytes()), [buf]);
    let buf = r#"[1]{[-9]test: 9}"#;
    assert_eq!(collect(buf.as_bytes()), ["[1]", "[-9]"]);
    let buf = r#"{"numbers": 9, "literals": true, "lists": ["1", false, {}]}"#;
    assert_eq!(collect(buf.as_bytes()), [buf]);
    let buf = r#"[trap, [nullify, 1], {"true": true}]"#;
    assert_eq!(collect(buf.as_bytes()), [r#"{"true": true}"#]);
    let buf = r#"[1]{"key":"val":  [2],[fal[3]]]"#;
    assert_eq!(collect(buf.as_bytes()), ["[1]", "[2]", "[3]"]);
}

#[test]
fn test_parse_fail() {
    let bad_buffers: Vec<&str> = vec![
        "hey",
        r#"{"hey", "there"}"#,
        "{:}",
        "{]}",
        r#"{9: "9"}"#,
        r#"{"more": "colons": "bad"}"#,
        r#"{"test":, "bad"}"#,
        r#"[:]"#,
        r#"["a", "b",]"#,
        r#"["a", "b", {": "test"}]"#,
        "999",
        r#"{999: "666"}"#,
        r#"[999: "666"]"#,
        r#"[999   , ]"#,
        r#"[trap]"#,
        r#"[nullify]"#,
        r#"{true: false}"#,
        r#"[true"#,
        r#"[false"#,
        r#"[null"#,
        r#"[9"#,
        r#"["test"#,
        r#"["test""#,
        "[{",
        "[",
        "{",
    ];
    for buf in bad_buffers {
        assert_eq!(collect(buf.as_bytes()), vec![] as Vec<String>);
    }
}

#[test]
fn test_report_incomplete() {
    let buf = "{";
    let buf_expected = "{}";
    let report_expected = "exhausted,0,0,0";
    let (buf, report) = report_incomplete(buf.as_bytes(), true);
    assert_eq!(buf, buf_expected.as_bytes());
    assert_eq!(report, report_expected.as_bytes());

    let buf = "[{[{[[";
    let buf_expected = "[{}]\n\
                        [{}]\n\
                        [[]]";
    let report_expected = "corrupted,0,1,1\n\
                           corrupted,2,3,3\n\
                           exhausted,4,5,5";
    let (buf, report) = report_incomplete(buf.as_bytes(), true);
    assert_eq!(buf, buf_expected.as_bytes());
    assert_eq!(report, report_expected.as_bytes());

    let buf = r#"{"test": {"inside": [1, 2]"#;
    let buf_expected = r#"{"test": {"inside": [1, 2]}}"#;
    let report_expected = "exhausted,0,25,25";
    let (buf, report) = report_incomplete(buf.as_bytes(), true);
    assert_eq!(buf, buf_expected.as_bytes());
    assert_eq!(report, report_expected.as_bytes());

    let buf = r#"[1, 2, 3, {"test"[true, null, far{"key": "value",[9]"#;
    let buf_expected = "[1, 2, 3, {}]\n\
                        []\n\
                        {}\n\
                        [9]";
    let report_expected = "corrupted,0,16,10\n\
                           corrupted,17,31,17\n\
                           corrupted,33,48,33";
    let (buf, report) = report_incomplete(buf.as_bytes(), true);
    assert_eq!(buf, buf_expected.as_bytes());
    assert_eq!(report, report_expected.as_bytes());

    let buf = r#"[1]{"key":"val":  [2],[fal[3]]]"#;
    let buf_expected = "[1]\n\
                        {}\n\
                        [2]\n\
                        []\n\
                        [3]";
    let report_expected = "corrupted,3,14,3\n\
                           corrupted,22,25,22";
    let (buf, report) = report_incomplete(buf.as_bytes(), true);
    assert_eq!(buf, buf_expected.as_bytes());
    assert_eq!(report, report_expected.as_bytes());
}

#[test]
fn test_empty_input() {
    let mut carver = create_carver();
    carver.set_fix_incomplete(true);
    let (json, report) = carver.parse(b"");
    assert!(json.is_empty());
    assert!(report.is_empty());
}

#[test]
fn test_round_trip() {
    // Feeding the JSON sink output (no repairs) back through the carver
    // yields the same values.
    let buf = b"I[{}]want[[]]moar and {\"a\": [1, 2]} too";
    let first = parse(buf);
    let again = collect(&first);
    assert_eq!(again, collect(buf));
}

#[test]
fn test_sole_value_identity() {
    // A completed value as sole input comes out byte-identical plus the
    // trailing newline.
    let mut carver = create_carver();
    let (json, report) = carver.parse(b"[1, 2]");
    assert_eq!(json, b"[1, 2]\n");
    assert!(report.is_empty());
}

#[test]
fn test_openers_only() {
    // Unmatched openers exhaust the source: one exhausted report for the
    // whole run, and a repair that closes every open container in reverse.
    let (json, report) = report_incomplete(b"[[[[", true);
    assert_eq!(json, b"[[[[]]]]");
    assert_eq!(report, b"exhausted,0,3,3");
}

#[test]
fn test_braces_inside_strings() {
    // Brackets and braces inside string values are ordinary characters and
    // do not affect nesting.
    let buf = br#"["a{[}]b"]"#;
    assert_eq!(parse(buf), buf);
    let buf = br#"{"}{": "]["}"#;
    assert_eq!(parse(buf), buf);
}

#[test]
fn test_leading_zero() {
    // A leading zero must not be followed by a digit: corrupted at the
    // second digit, so only the opener is close-able.
    let (json, report) = report_incomplete(b"[01]", true);
    assert_eq!(json, b"[]");
    assert_eq!(report, b"corrupted,0,1,0");
    // A lone zero and a zero before a fraction are fine.
    assert_eq!(parse(b"[0]"), b"[0]");
    assert_eq!(parse(b"[0.5, -0.25e10]"), b"[0.5, -0.25e10]");
}

#[test]
fn test_scout_skips_garbage() {
    // The resynchroniser must find the first opener, not hand back the
    // start of the buffer.
    let buf = b"\x00\x01\x02garbage[7, 8]";
    assert_eq!(parse(buf), b"[7, 8]");
}

#[test]
fn test_min_size_threshold() {
    // The default minimum size is four bytes: shorter completions are
    // swallowed.
    let mut carver = Carver::new(None, None);
    assert_eq!(carver.min_size, json_carver::DEFAULT_MIN_JSON_SIZE);
    let (json, _report) = carver.parse(b"[1]");
    assert!(json.is_empty());
    let mut carver = Carver::new(None, None);
    let (json, _report) = carver.parse(b"[1, 2]");
    assert_eq!(json, b"[1, 2]\n");
}

#[test]
fn test_replace_newlines() {
    let buf = b"[1,\n2]";
    assert_eq!(parse(buf), buf);
    let mut carver = create_carver();
    carver.replace_newlines(true);
    let (json, _report) = carver.parse(buf);
    assert_eq!(json, b"[1, 2]\n");
}

#[test]
fn test_string_escapes() {
    let buf = br#"["A\n\t\\\""]"#;
    assert_eq!(parse(buf), buf);
    // A non-hex digit inside a unicode escape corrupts the candidate.
    assert_eq!(collect(br#"["\u00g1"]"#), vec![] as Vec<String>);
    // A raw control byte inside a string corrupts the candidate.
    assert_eq!(collect(b"[\"a\x01b\"]"), vec![] as Vec<String>);
    // An unknown escape corrupts the candidate.
    assert_eq!(collect(br#"["\q"]"#), vec![] as Vec<String>);
}

#[test]
fn test_literals() {
    let buf = b"[true, false, null]";
    assert_eq!(parse(buf), buf);
}

#[test]
fn test_deep_nesting_limit() {
    // A candidate that would nest past the depth bound is rejected as
    // corrupted at the offending opener.
    let mut carver = Carver::new(None, Some(2));
    carver.set_min_size(0);
    carver.set_fix_incomplete(true);
    let (json, report) = carver.parse(b"[[[]]]");
    // The repair of the rejected outer candidate, then the inner `[]` that
    // the corrupting opener itself begins.
    assert_eq!(json, b"[[]]\n[]\n");
    assert_eq!(report, b"corrupted,0,1,1\n");
    // Within the bound, the same shape passes untouched.
    let mut carver = Carver::new(None, Some(3));
    carver.set_min_size(0);
    let (json, report) = carver.parse(b"[[[]]]");
    assert_eq!(json, b"[[[]]]\n");
    assert!(report.is_empty());
}

#[test]
fn test_report_threshold() {
    // Reports are emitted only when the last legal close point is at least
    // min_size bytes into the candidate.
    let mut carver = Carver::new(None, None);
    carver.set_fix_incomplete(true);
    let (json, report) = carver.parse(br#"{"a": ["#);
    assert_eq!(report, b"exhausted,0,6,6\n");
    assert_eq!(json, br#"{"a": []}
"#);

    // A lone opener closes legally only at offset zero, below the default
    // threshold: silently swallowed.
    let mut carver = Carver::new(None, None);
    carver.set_fix_incomplete(true);
    let (json, report) = carver.parse(b"[");
    assert!(json.is_empty());
    assert!(report.is_empty());
}

#[test]
fn test_numbers() {
    // Fractions, exponents, and signed exponents are accepted.
    let buf = b"[1e5, 1E+5, -1.25e-3, -0]";
    assert_eq!(parse(buf), buf);
    // A second decimal point, a decimal point inside an exponent, and a
    // second exponent sign are corruption.
    assert_eq!(collect(b"[1.2.3]"), vec![] as Vec<String>);
    assert_eq!(collect(b"[1e5.2]"), vec![] as Vec<String>);
    assert_eq!(collect(b"[1e5e2]"), vec![] as Vec<String>);
    // A sign must be followed by a digit.
    assert_eq!(collect(b"[-]"), vec![] as Vec<String>);
    assert_eq!(collect(b"[1e]"), vec![] as Vec<String>);
}
