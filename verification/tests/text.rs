use portopener::hexdump::hex_dump;
use portopener::logs::{format_log_line, split_lines, tail_lines};
use portopener::session::{keeps_session, SESSION_IDLE_LIMIT_SECS};

#[test]
fn hex_dump_of_nothing_is_empty() {
    assert_eq!(hex_dump(&[]), "");
}

#[test]
fn hex_dump_of_short_row() {
    let expected = format!("  {:47}  |{}|", "48 69 00 20 7e 7f", "Hi. ~.");
    assert_eq!(hex_dump(b"Hi\x00 ~\x7f"), expected);
    assert_eq!(hex_dump(b"A"), format!("  41{}  |A|", " ".repeat(45)));
}

#[test]
fn hex_dump_of_full_and_partial_rows() {
    let data: Vec<u8> = (0u8..20).map(|i| b'a' + i).collect();
    let first = "  61 62 63 64 65 66 67 68 69 6a 6b 6c 6d 6e 6f 70  |abcdefghijklmnop|";
    let second = format!("  {:47}  |qrst|", "71 72 73 74");
    assert_eq!(hex_dump(&data), format!("{}\n{}", first, second));
}

#[test]
fn hex_dump_uses_lowercase_hex_and_dots() {
    assert_eq!(hex_dump(&[0xff, 0x0a, 0xab]), format!("  {:47}  |...|", "ff 0a ab"));
}

#[test]
fn hex_dump_matches_the_formatting_rule() {
    let data: Vec<u8> = (0..=255u8).chain(0..37u8).collect();
    let expected = data
        .chunks(16)
        .map(|row| {
            let hex: Vec<String> = row.iter().map(|b| format!("{:02x}", b)).collect();
            let ascii: String = row.iter().map(|&b| if b.is_ascii_graphic() || b == b' ' { b as char } else { '.' }).collect();
            format!("  {:47}  |{}|", hex.join(" "), ascii)
        })
        .collect::<Vec<_>>()
        .join("\n");
    assert_eq!(hex_dump(&data), expected);
}

#[test]
fn split_lines_like_str_lines() {
    for text in ["", "a", "a\n", "a\nb", "\n", "\n\n", "a\r\nb\r\n", "a\rb", "x\r", "x\r\r\n", "é\nü"] {
        let want: Vec<String> = text.lines().map(|s| s.to_string()).collect();
        assert_eq!(split_lines(text), want, "{:?}", text);
    }
}

#[test]
fn tail_keeps_last_lines() {
    let text = "one\ntwo\r\nthree\nfour\n";
    assert_eq!(tail_lines(text, 2), vec!["three", "four"]);
    assert_eq!(tail_lines(text, 10), vec!["one", "two", "three", "four"]);
    assert_eq!(tail_lines(text, 0), Vec::<String>::new());
    assert_eq!(tail_lines("", 5), Vec::<String>::new());
}

#[test]
fn log_line_has_stamp_in_brackets() {
    assert_eq!(format_log_line("2026-03-07 12:00:00", "[TCP] Listening on 0.0.0.0:9000"),
        "[2026-03-07 12:00:00] [TCP] Listening on 0.0.0.0:9000");
    assert_eq!(format_log_line("", ""), "[] ");
}

#[test]
fn sessions_idle_for_a_minute_are_kept() {
    assert!(keeps_session(0));
    assert!(keeps_session(SESSION_IDLE_LIMIT_SECS));
    assert!(!keeps_session(61));
}
