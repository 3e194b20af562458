use scout::text::{
    chars_of, contains, lines, matches_at, push_decimal, slice_of, split, text_of, trim,
};

fn cs(s: &str) -> Vec<char> {
    s.chars().collect()
}

#[test]
fn chars_and_text_are_inverse() {
    let v = chars_of("héllo, wörld");
    assert_eq!(v, cs("héllo, wörld"));
    assert_eq!(text_of(&v), "héllo, wörld");
    assert_eq!(text_of(&[]), "");
}

#[test]
fn contains_finds_literal_substrings() {
    assert!(contains(&cs("needle found here"), &cs("needle")));
    assert!(contains(&cs("a needle"), &cs("needle")));
    assert!(contains(&cs("abc"), &cs("")));
    assert!(contains(&cs(""), &cs("")));
    assert!(!contains(&cs("needl"), &cs("needle")));
    assert!(!contains(&cs("Needle"), &cs("needle")));
    assert!(!contains(&cs("a.c"), &cs("a*c")));
}

#[test]
fn matches_at_compares_in_place() {
    assert!(matches_at(&cs("abcabc"), &cs("bc"), 1));
    assert!(matches_at(&cs("abcabc"), &cs("bc"), 4));
    assert!(!matches_at(&cs("abcabc"), &cs("bc"), 0));
}

#[test]
fn slice_of_copies_a_range() {
    assert_eq!(slice_of(&cs("abcdef"), 2, 4), cs("cd"));
    assert_eq!(slice_of(&cs("abcdef"), 3, 3), cs(""));
}

#[test]
fn trim_removes_whitespace_at_both_ends_only() {
    assert_eq!(trim(&cs("  a b \t\r\n")), cs("a b"));
    assert_eq!(trim(&cs("\u{a0}x\u{3000}")), cs("x"));
    assert_eq!(trim(&cs("   ")), cs(""));
    assert_eq!(trim(&cs("")), cs(""));
    assert_eq!(trim(&cs("x")), cs("x"));
}

#[test]
fn split_gives_one_piece_more_than_separators() {
    assert_eq!(split(&cs("a,b,c"), ','), vec![cs("a"), cs("b"), cs("c")]);
    assert_eq!(split(&cs(""), ','), vec![cs("")]);
    assert_eq!(split(&cs("a,"), ','), vec![cs("a"), cs("")]);
    assert_eq!(split(&cs(",,"), ','), vec![cs(""), cs(""), cs("")]);
    assert_eq!(split(&cs("abc"), ','), vec![cs("abc")]);
}

#[test]
fn lines_follow_line_feeds() {
    assert_eq!(lines(&cs("a\nb\r\nc")), vec![cs("a"), cs("b"), cs("c")]);
    assert_eq!(lines(&cs("a\nb\n")), vec![cs("a"), cs("b")]);
    assert_eq!(lines(&cs("")), Vec::<Vec<char>>::new());
    assert_eq!(lines(&cs("\n")), vec![cs("")]);
    assert_eq!(lines(&cs("a\n\nb")), vec![cs("a"), cs(""), cs("b")]);
    assert_eq!(lines(&cs("a\rb\n")), vec![cs("a\rb")]);
}

#[test]
fn lines_agree_with_the_standard_library() {
    for text in ["", "x", "x\n", "x\r\n", "\r\n\r\n", "a\n\nb\n", "one\r\ntwo\nthree", "\n\n"] {
        let want: Vec<Vec<char>> = text.lines().map(|l| l.chars().collect()).collect();
        assert_eq!(lines(&cs(text)), want);
    }
}

#[test]
fn decimal_notation_has_no_leading_zeros() {
    for (n, want) in [
        (0u64, "0"),
        (7, "7"),
        (10, "10"),
        (1524, "1524"),
        (u64::MAX, "18446744073709551615"),
    ] {
        let mut out = String::from("n=");
        push_decimal(&mut out, n);
        assert_eq!(out, format!("n={}", want));
    }
}

fn is_listed_white_space(c: char) -> bool {
    let n = c as u32;
    (0x09..=0x0D).contains(&n)
        || n == 0x20
        || n == 0x85
        || n == 0xA0
        || n == 0x1680
        || (0x2000..=0x200A).contains(&n)
        || n == 0x2028
        || n == 0x2029
        || n == 0x202F
        || n == 0x205F
        || n == 0x3000
}

#[test]
fn exactly_the_white_space_code_points_are_trimmed() {
    let mut white = 0;
    for n in 0..=0x10FFFFu32 {
        let Some(c) = char::from_u32(n) else { continue };
        let gone = trim(&[c]).is_empty();
        assert_eq!(gone, is_listed_white_space(c));
        if gone {
            white += 1;
        }
    }
    assert_eq!(white, 25);
}

#[test]
fn near_misses_are_not_white_space() {
    for c in ['\u{1c}', '\u{1f}', '\u{180e}', '\u{200b}', '\u{2060}', '\u{feff}', '\u{7f}'] {
        assert_eq!(trim(&[c, 'x', c]), vec![c, 'x', c]);
    }
}

#[test]
fn trim_agrees_with_the_standard_library() {
    for text in ["  a  ", "\u{a0}\u{2003}x y\u{3000}\u{85}", "\u{200b}x\u{200b}", "\t\r\n", ""] {
        let want: Vec<char> = text.trim().chars().collect();
        assert_eq!(trim(&cs(text)), want);
    }
}
