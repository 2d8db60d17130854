use vue_parser::numerals::{decimal, hex};
use vue_parser::pieces;
use vue_parser::text;
use vue_parser::text::CharSet;

const SAMPLES: [&str; 22] = [
    "",
    " ",
    "\n",
    "\r\n",
    "\n\n",
    "a",
    "a\n",
    "a\r",
    "a\r\r\n",
    "a\nb",
    "a\r\nb\r",
    "  a  b \t c ",
    "\u{a0}x\u{3000}",
    "ééé=ü",
    "a=b=c",
    "===",
    "<<a<a</a>",
    "aaaa",
    "\"'quoted'\"",
    "{{ x }}{{y}}",
    "日本語 テスト\n第二行",
    "😀/😀\\x.y",
];

#[test]
fn white_space_agrees_with_unicode() {
    for code in 0..=0x10ffffu32 {
        if let Some(c) = char::from_u32(code) {
            assert_eq!(text::is_whitespace(c), c.is_whitespace());
        }
    }
}

#[test]
fn ascii_lower_case() {
    for code in 0..128u8 {
        let c = code as char;
        let expected = if ('A'..='Z').contains(&c) { (code + 32) as char } else { c };
        assert_eq!(c.to_string().to_lowercase(), expected.to_string());
    }
}

#[test]
fn trimming_agrees_with_std() {
    for s in SAMPLES {
        assert_eq!(text::trim(s), s.trim());
        assert_eq!(text::trim_start_matches(s, CharSet::Space), s.trim_start());
        for c in ['a', '=', '"', '\'', '{', '}', '<'] {
            assert_eq!(text::trim_start_matches(s, CharSet::One(c)), s.trim_start_matches(c));
            assert_eq!(text::trim_end_matches(s, CharSet::One(c)), s.trim_end_matches(c));
            assert_eq!(text::trim_matches(s, CharSet::One(c)), s.trim_matches(c));
        }
    }
}

#[test]
fn searching_agrees_with_std() {
    for s in SAMPLES {
        for p in ["a", "=", "{{", "}}", "aa", "<a", "</a>", "語", "😀"] {
            assert_eq!(text::split_once(s, p), s.split_once(p));
            assert_eq!(text::find(s, p).is_some(), s.contains(p));
            assert_eq!(text::starts_with(s, p), s.starts_with(p));
            assert_eq!(text::ends_with(s, p), s.ends_with(p));
            assert_eq!(text::strip_prefix(s, p), s.strip_prefix(p));
            assert_eq!(text::strip_suffix(s, p), s.strip_suffix(p));
            assert_eq!(text::count_matches(s, p), s.matches(p).count());
            assert_eq!(text::same_text(s, p), s == p);
        }
    }
    assert_eq!(text::find("日本語", "語"), Some(2));
    assert_eq!(text::find("abc", ""), Some(0));
}

#[test]
fn cutting_at_characters() {
    assert_eq!(text::find_in("日本>語", CharSet::TagNameEnd), 2);
    assert_eq!(text::find_in("日本語", CharSet::TagNameEnd), 3);
    assert_eq!(text::find_back_in("a/b\\cd", CharSet::PathSeparator), 2);
    assert_eq!(text::find_back_in("abc", CharSet::PathSeparator), 3);
    assert_eq!(vue_parser::cut::split_chars("日é😀x", 3), ("日é😀", "x"));
    assert_eq!(vue_parser::cut::split_chars("日é😀x", 0), ("", "日é😀x"));
    assert_eq!(text::take("héllo", 2), "hé");
    assert_eq!(text::skip("héllo", 2), "llo");
}

#[test]
fn pieces_agree_with_std() {
    for s in SAMPLES {
        assert_eq!(pieces::lines(s), s.lines().collect::<Vec<_>>());
        assert_eq!(pieces::split_whitespace(s), s.split_whitespace().collect::<Vec<_>>());
    }
    let parts = vec!["a", "", "c", "d"];
    assert_eq!(pieces::join(&parts, 0, 4, "--"), "a----c--d");
    assert_eq!(pieces::join(&parts, 1, 3, "|"), "|c");
    assert_eq!(pieces::join(&parts, 2, 2, "|"), "");
}

#[test]
fn joined_lines_read_back() {
    let parts = vec!["a", "", "b"];
    let text = pieces::join(&parts, 0, 3, "\n");
    assert_eq!(pieces::lines(&text), parts);
    let crlf = pieces::join(&parts, 0, 3, "\r\n");
    assert_eq!(pieces::lines(&crlf), parts);
    let open_end = vec!["a\r", "b\r", ""];
    let text = pieces::join(&open_end, 0, 3, "\n");
    assert_eq!(pieces::lines(&text), vec!["a", "b"]);
}

#[test]
fn numerals() {
    assert_eq!(decimal(0), "0");
    assert_eq!(decimal(9), "9");
    assert_eq!(decimal(10), "10");
    assert_eq!(decimal(120304), "120304");
    assert_eq!(decimal(usize::MAX), usize::MAX.to_string());
    assert_eq!(hex(0, 16), "0000000000000000");
    assert_eq!(hex(u64::MAX, 16), "ffffffffffffffff");
    assert_eq!(hex(0x0123456789abcdef, 16), "0123456789abcdef");
    assert_eq!(hex(0x1234, 2), "34");
    assert_ne!(decimal(1), decimal(11));
}

#[test]
fn long_text_is_read_in_linear_time() {
    let line = "<div class=\"x\">日本語</div>\n";
    let source = line.repeat(40000);
    assert_eq!(pieces::lines(&source).len(), 40000);
}
