use stardust::text::{split_lines, stream_lines};

#[test]
fn lines_split_at_newlines() {
    assert_eq!(split_lines("a\nb\nc"), vec!["a", "b", "c"]);
}

#[test]
fn lines_drop_crlf() {
    assert_eq!(split_lines("a\r\nb\r\n"), vec!["a", "b"]);
}

#[test]
fn lines_keep_lone_final_carriage_return() {
    assert_eq!(split_lines("a\nb\r"), vec!["a", "b\r"]);
}

#[test]
fn lines_of_empty_and_blank() {
    assert!(split_lines("").is_empty());
    assert_eq!(split_lines("\n"), vec![""]);
    assert_eq!(split_lines("a\n\nb"), vec!["a", "", "b"]);
}

#[test]
fn lines_match_std() {
    for s in ["x\ny\n", "\r\n\r\n", "only", "a\rb\nc", "\n\nz", "é\nü"] {
        let std_lines: Vec<String> = s.lines().map(|l| l.to_string()).collect();
        assert_eq!(split_lines(s), std_lines, "input {:?}", s);
    }
}

#[test]
fn final_newline_is_optional() {
    assert_eq!(split_lines("a\nb"), split_lines("a\nb\n"));
}

#[test]
fn stream_lines_decode_leniently() {
    let bytes = b"{\"response\":\"hi\"}\n\xffx\n";
    assert_eq!(stream_lines(bytes), vec!["{\"response\":\"hi\"}", "\u{fffd}x"]);
}
