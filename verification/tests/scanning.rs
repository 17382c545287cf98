use cratelite::ascii::{all_crate_chars, bytes_equal, find_byte, is_crate_char, is_str_delim};
use cratelite::position::{
    count_lines, full_line_text, line_starts, line_text, offset_of, position_of, Position,
};
use cratelite::text::{slice_str, str_ends_with, str_equal, str_starts_with};
use cratelite::toml_scan::{
    find_matching, parse_bare_key, parse_toml_str, skip_toml_value, skip_trivia, strip_comment,
};

#[test]
fn crate_characters() {
    for b in 0..=255u8 {
        let c = b as char;
        let expected = c.is_ascii_alphanumeric() || c == '_' || c == '-';
        assert_eq!(is_crate_char(b), expected);
        assert_eq!(is_str_delim(b), c == '"' || c == '\'');
    }
    assert!(all_crate_chars(b"serde_json-1"));
    assert!(all_crate_chars(b""));
    assert!(!all_crate_chars(b"serde json"));
}

#[test]
fn byte_helpers() {
    assert_eq!(find_byte(b"a=b=c", b'=', 0), Some(1));
    assert_eq!(find_byte(b"a=b=c", b'=', 2), Some(3));
    assert_eq!(find_byte(b"a=b=c", b'=', 4), None);
    assert_eq!(find_byte(b"", b'=', 0), None);
    assert!(bytes_equal(b"abc", b"abc"));
    assert!(!bytes_equal(b"abc", b"abd"));
    assert!(!bytes_equal(b"abc", b"ab"));
}

#[test]
fn string_helpers() {
    assert_eq!(slice_str("héllo", 1, 3), "é");
    assert_eq!(slice_str("héllo", 2 + 1, 6), "llo");
    assert!(str_equal("é", "é"));
    assert!(!str_equal("é", "e"));
    assert!(str_starts_with("derive", "de"));
    assert!(str_starts_with("derive", ""));
    assert!(!str_starts_with("de", "derive"));
    assert!(str_ends_with("a.dependencies", ".dependencies"));
    assert!(!str_ends_with("dependencies", ".dependencies"));
}

#[test]
fn starts_of_lines() {
    assert_eq!(line_starts(""), vec![0]);
    assert_eq!(line_starts("a\nbc\n"), vec![0, 2, 5]);
    assert_eq!(line_starts("\n\n"), vec![0, 1, 2]);
}

#[test]
fn offsets_and_positions() {
    let ls = line_starts("ab\ncde\nf");
    assert_eq!(offset_of(&ls, 1, 2), 5);
    // A line that does not exist counts from the start of the text.
    assert_eq!(offset_of(&ls, 9, 2), 2);
    assert_eq!(position_of(&ls, 5), Position { line: 1, character: 2 });
    assert_eq!(position_of(&ls, 0), Position { line: 0, character: 0 });
    assert_eq!(position_of(&ls, 2), Position { line: 0, character: 2 });
    assert_eq!(position_of(&ls, 3), Position { line: 1, character: 0 });
    assert_eq!(position_of(&ls, 100), Position { line: 2, character: 93 });
}

#[test]
fn positions_of_offsets_lead_back() {
    let text = "[dependencies]\nserde = \"1\"\n\ntokio = { version = \"1\" }";
    let ls = line_starts(text);
    for offset in 0..=text.len() {
        let p = position_of(&ls, offset);
        assert_eq!(offset_of(&ls, p.line, p.character), offset);
    }
}

#[test]
fn lines_of_a_text() {
    let text = "a\r\n\nb\r";
    let ls = line_starts(text);
    assert_eq!(count_lines(text, &ls), 3);
    assert_eq!(line_text(text, &ls, 0), "a");
    assert_eq!(line_text(text, &ls, 1), "");
    assert_eq!(line_text(text, &ls, 2), "b\r");
    assert_eq!(full_line_text(text, &ls, 0), "a\r\n");
    assert_eq!(full_line_text(text, &ls, 2), "b\r");
    let closed = "a\nb\n";
    let ls = line_starts(closed);
    assert_eq!(count_lines(closed, &ls), 2);
    assert_eq!(count_lines("", &line_starts("")), 0);
}

#[test]
fn lines_agree_with_std() {
    for text in ["", "\n", "a", "a\n", "a\r\nb", "\r", "\r\n", "x\n\r\n\ny\r", "é\n日本\r\n"] {
        let ls = line_starts(text);
        let mine: Vec<&str> =
            (0..count_lines(text, &ls)).map(|k| line_text(text, &ls, k)).collect();
        let std: Vec<&str> = text.lines().collect();
        assert_eq!(mine, std);
    }
}

#[test]
fn comments_are_stripped() {
    assert_eq!(strip_comment("serde = \"1\" # note"), "serde = \"1\" ");
    assert_eq!(strip_comment("# all of it"), "");
    assert_eq!(strip_comment("a = \"#\" # b"), "a = \"#\" ");
    assert_eq!(strip_comment("a = '#' # b"), "a = '#' ");
    assert_eq!(strip_comment("a = \"\\\"#\" # b"), "a = \"\\\"#\" ");
    assert_eq!(strip_comment("a = '\\' # b"), "a = '\\' ");
    assert_eq!(strip_comment("a = \"open # b"), "a = \"open # b");
    assert_eq!(strip_comment(""), "");
}

#[test]
fn stripping_twice_is_stripping_once() {
    for line in ["a # b", "\"#\" # \"", "'\"' # '#'", "é # é", "\"\\\\\" # x"] {
        let once = strip_comment(line);
        assert_eq!(strip_comment(once), once);
        assert!(line.starts_with(once));
    }
}

#[test]
fn trivia_is_skipped() {
    let text = b" \t\r\n,# note\n x";
    assert_eq!(skip_trivia(text, 0, text.len()), 13);
    assert_eq!(skip_trivia(text, 0, 3), 3);
    assert_eq!(skip_trivia(b"# open", 0, 6), 6);
    assert_eq!(skip_trivia(b"x", 0, 1), 0);
    assert_eq!(skip_trivia(b"x", 1, 1), 1);
    assert_eq!(skip_trivia(b"x", 5, 1), 5);
}

#[test]
fn bare_keys() {
    assert_eq!(parse_bare_key(b"serde_json = 1", 0, 14), Some(("serde_json", 10)));
    assert_eq!(parse_bare_key(b"serde_json = 1", 6, 14), Some(("json", 10)));
    assert_eq!(parse_bare_key(b"serde_json = 1", 0, 5), Some(("serde", 5)));
    assert_eq!(parse_bare_key(b"= 1", 0, 3), None);
    assert_eq!(parse_bare_key(b"a", 1, 1), None);
}

#[test]
fn toml_strings() {
    let text = b"\"1.0\", x";
    let s = parse_toml_str(text, 0, text.len()).unwrap();
    assert_eq!(s.value, "1.0");
    assert_eq!((s.content_start, s.content_end, s.next_offset), (1, 4, 5));
    assert!(parse_toml_str(text, 1, text.len()).is_none());
    assert!(parse_toml_str(text, 8, text.len()).is_none());

    let open = b"'abc";
    let s = parse_toml_str(open, 0, open.len()).unwrap();
    assert_eq!(s.value, "abc");
    assert_eq!((s.content_start, s.content_end, s.next_offset), (1, 4, 4));
}

#[test]
fn escapes_in_toml_strings() {
    // The quote of an escape is part of the text.
    let text = b"\"a\\\"b\"";
    let s = parse_toml_str(text, 0, text.len()).unwrap();
    assert_eq!(s.value, "a\"b");
    assert_eq!((s.content_end, s.next_offset), (5, 6));

    // So is the byte right behind an escape, even where it is a quote.
    let text = b"\"\\\\\" \"";
    let s = parse_toml_str(text, 0, text.len()).unwrap();
    assert_eq!(s.value, "\\\" ");
    assert_eq!((s.content_end, s.next_offset), (5, 6));

    // A literal string knows no escapes.
    let text = b"'a\\'";
    let s = parse_toml_str(text, 0, text.len()).unwrap();
    assert_eq!(s.value, "a\\");
    assert_eq!((s.content_end, s.next_offset), (3, 4));

    // A backslash at the end leaves the string open.
    let text = b"\"a\\";
    let s = parse_toml_str(text, 0, text.len()).unwrap();
    assert_eq!(s.value, "a");
    assert_eq!((s.content_end, s.next_offset), (3, 3));
}

#[test]
fn bytes_of_toml_strings_are_characters() {
    let text = "\"é\"".as_bytes();
    let s = parse_toml_str(text, 0, text.len()).unwrap();
    assert_eq!(s.value, "\u{c3}\u{a9}");
}

#[test]
fn matching_brackets() {
    let text = b"{ a = [1, 2], b = { c = \"}\" } } }";
    assert_eq!(find_matching(text, 0, b'{', b'}', text.len()), Some(30));
    assert_eq!(find_matching(text, 6, b'[', b']', text.len()), Some(11));
    assert_eq!(find_matching(text, 0, b'{', b'}', 30), None);
    assert_eq!(find_matching(b"}", 0, b'{', b'}', 1), None);
    assert_eq!(find_matching(b"{ # }\n}", 0, b'{', b'}', 7), Some(6));
    assert_eq!(find_matching(b"{ '}' }", 0, b'{', b'}', 7), Some(6));
    assert_eq!(find_matching(b"{ \"\\\"}\" }", 0, b'{', b'}', 9), Some(8));
    assert_eq!(find_matching(b"x{}", 0, b'{', b'}', 3), Some(2));
}

#[test]
fn values_are_skipped() {
    assert_eq!(skip_toml_value(b"\"a,b\", c", 0, 8), 5);
    assert_eq!(skip_toml_value(b"[1, 2], c", 0, 9), 6);
    assert_eq!(skip_toml_value(b"[1, 2", 0, 5), 5);
    assert_eq!(skip_toml_value(b"{ a = 1 }, c", 0, 12), 9);
    assert_eq!(skip_toml_value(b"{ a = 1", 0, 7), 7);
    assert_eq!(skip_toml_value(b"true, c", 0, 7), 4);
    assert_eq!(skip_toml_value(b"true }", 0, 6), 5);
    assert_eq!(skip_toml_value(b"1 # x, y\n2", 0, 10), 8);
    assert_eq!(skip_toml_value(b"true", 0, 4), 4);
    assert_eq!(skip_toml_value(b"true", 4, 4), 4);
}
