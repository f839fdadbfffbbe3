use uhttp_transfer_encoding::scan::{eq_ignore_ascii_case, rsplit_comma, trim, trim_end, trim_start};

#[test]
fn trim_start_takes_leading_whitespace_only() {
    assert_eq!(trim_start("  a b  "), "a b  ");
    assert_eq!(trim_start("\t\r\n\u{b}\u{c} x"), "x");
    assert_eq!(trim_start("x  "), "x  ");
    assert_eq!(trim_start(""), "");
    assert_eq!(trim_start(" \t "), "");
    assert_eq!(trim_start(" é "), "é ");
    assert_eq!(trim_start("\u{a0} x"), "\u{a0} x");
}

#[test]
fn trim_end_takes_trailing_whitespace_only() {
    assert_eq!(trim_end("  a b  "), "  a b");
    assert_eq!(trim_end("x \t\r\n\u{b}\u{c}"), "x");
    assert_eq!(trim_end("  x"), "  x");
    assert_eq!(trim_end(""), "");
    assert_eq!(trim_end(" \t "), "");
    assert_eq!(trim_end(" ❤ "), " ❤");
    assert_eq!(trim_end("x \u{2009}"), "x \u{2009}");
}

#[test]
fn trim_takes_both() {
    assert_eq!(trim("  a b  "), "a b");
    assert_eq!(trim("\n\r dEflAte \r"), "dEflAte");
    assert_eq!(trim("x"), "x");
    assert_eq!(trim(""), "");
    assert_eq!(trim("\r\n"), "");
    assert_eq!(trim(" \u{3000}日本語\u{3000} "), "\u{3000}日本語\u{3000}");
}

#[test]
fn trimming_twice_is_trimming_once() {
    for s in [
        "",
        " ",
        "a",
        "  a  ",
        " a  b ",
        "\t\u{a0} x \u{a0}\t",
        " ÆØБД❤ ",
        " , ",
    ] {
        let once = trim(s);
        assert_eq!(trim(once), once);
        assert_eq!(trim_start(trim_start(s)), trim_start(s));
        assert_eq!(trim_end(trim_end(s)), trim_end(s));
    }
}

#[test]
fn ascii_letters_match_in_either_case() {
    assert!(eq_ignore_ascii_case("", ""));
    assert!(eq_ignore_ascii_case("gzip", "gzip"));
    assert!(eq_ignore_ascii_case("GZIP", "gzip"));
    assert!(eq_ignore_ascii_case("gzip", "GzIp"));
    assert!(eq_ignore_ascii_case("AZaz09-_", "azAZ09-_"));
    assert!(eq_ignore_ascii_case("Straße ❤", "sTRAße ❤"));
}

#[test]
fn other_differences_do_not_match() {
    assert!(!eq_ignore_ascii_case("gzip", "gzi"));
    assert!(!eq_ignore_ascii_case("", "a"));
    assert!(!eq_ignore_ascii_case("gzip", "gzap"));
    assert!(!eq_ignore_ascii_case("gzip", " gzip"));
    // 32 apart, as a capital and its small letter are, but no letters.
    assert!(!eq_ignore_ascii_case("@", "`"));
    assert!(!eq_ignore_ascii_case("[", "{"));
    assert!(!eq_ignore_ascii_case("\u{0}", " "));
    assert!(!eq_ignore_ascii_case("1", "\u{11}"));
    // Letters outside ASCII keep their case.
    assert!(!eq_ignore_ascii_case("é", "É"));
    assert!(!eq_ignore_ascii_case("STRASSE", "straße"));
    assert!(!eq_ignore_ascii_case("k", "\u{212a}"));
    // U+00C1 and U+00E1 are encoded as C3 81 and C3 A1, 32 apart in the second byte.
    assert!(!eq_ignore_ascii_case("\u{c1}", "\u{e1}"));
}

#[test]
fn rsplit_comma_splits_at_the_last_comma() {
    assert_eq!(rsplit_comma("a,b,c"), Some(("a,b", "c")));
    assert_eq!(rsplit_comma("a,b"), Some(("a", "b")));
    assert_eq!(rsplit_comma(","), Some(("", "")));
    assert_eq!(rsplit_comma("a,"), Some(("a", "")));
    assert_eq!(rsplit_comma(",a"), Some(("", "a")));
    assert_eq!(rsplit_comma(",,"), Some((",", "")));
    assert_eq!(rsplit_comma(" x , y "), Some((" x ", " y ")));
    assert_eq!(rsplit_comma("é,ü❤"), Some(("é", "ü❤")));
    assert_eq!(rsplit_comma("❤,"), Some(("❤", "")));
}

#[test]
fn rsplit_comma_without_a_comma() {
    assert_eq!(rsplit_comma(""), None);
    assert_eq!(rsplit_comma("abc"), None);
    assert_eq!(rsplit_comma("a;b c"), None);
    assert_eq!(rsplit_comma("a\u{ff0c}b"), None);
    assert_eq!(rsplit_comma("ÆØБД❤"), None);
}
