use nmea_capture::nmea::{captured_lines, split_crlf_lines};

#[test]
fn splits_crlf_lf_and_cr_line_endings() {
    let input = b"$GPRMC,1*00\r\n$GPGGA,2*00\n$GPGLL,3*00\r$GPVTG,4*00";

    assert_eq!(
        split_crlf_lines(input),
        vec!["$GPRMC,1*00", "$GPGGA,2*00", "$GPGLL,3*00", "$GPVTG,4*00",]
    );
}

#[test]
fn empty_buffer_has_no_line() {
    assert!(split_crlf_lines(b"").is_empty());
}

#[test]
fn final_terminator_adds_no_empty_line() {
    assert_eq!(split_crlf_lines(b"$GPRMC\r\n"), vec!["$GPRMC"]);
    assert_eq!(split_crlf_lines(b"a\n\n"), vec!["a", ""]);
    assert_eq!(split_crlf_lines(b"\n"), vec![""]);
}

#[test]
fn lone_cr_before_crlf_ends_its_own_line() {
    assert_eq!(split_crlf_lines(b"\r\r\n"), vec!["", ""]);
    assert_eq!(split_crlf_lines(b"a\n\rb"), vec!["a", "", "b"]);
}

#[test]
fn invalid_bytes_become_replacement_characters() {
    assert_eq!(split_crlf_lines(b"$GP\xffX\nok"), vec!["$GP\u{FFFD}X", "ok"]);
}

#[test]
fn lines_hold_no_terminator_characters() {
    let lines = split_crlf_lines(b"a\rb\r\nc\n\r\nd");
    assert_eq!(lines, vec!["a", "b", "c", "", "d"]);
    for line in &lines {
        assert!(!line.contains('\r') && !line.contains('\n'));
    }
}

#[test]
fn lines_rejoined_give_the_normalized_text() {
    let input = "x\r\ny\rz\n\nw\r";
    let lines = split_crlf_lines(input.as_bytes());
    let normalized = input.replace("\r\n", "\n").replace('\r', "\n");
    assert_eq!(lines.join("\n") + "\n", normalized);
}

#[test]
fn each_terminator_ends_one_line() {
    for t in ["\r\n", "\r", "\n"] {
        let text = format!("abc{}def", t);
        assert_eq!(split_crlf_lines(text.as_bytes()), vec!["abc", "def"]);
    }
}

#[test]
fn captured_lines_skip_empty_ones() {
    assert_eq!(captured_lines(b"\r\n$GPRMC\n\n\r$GPGGA\r\n"), vec!["$GPRMC", "$GPGGA"]);
    assert!(captured_lines(b"\n\r\n").is_empty());
}

#[test]
fn splitting_is_compositional() {
    for t in ["\r\n", "\r", "\n"] {
        let a = "x\r\ny\n\nz";
        let b = "u\rv";
        let whole = split_crlf_lines(format!("{}{}{}", a, t, b).as_bytes());
        let mut parts = split_crlf_lines(a.as_bytes());
        parts.extend(split_crlf_lines(b.as_bytes()));
        assert_eq!(whole, parts);
    }
}
