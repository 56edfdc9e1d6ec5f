use trade_journal::markup::{find_elements, remove_tags};
use trade_journal::number::is_float;
use trade_journal::text::{
    chars_of, contains, first_word_of, replace, split_at_char, split_lines, string_of, trim,
};

fn v(s: &str) -> Vec<char> {
    s.chars().collect()
}

fn s(v: &[char]) -> String {
    v.iter().collect()
}

const SAMPLES: &[&str] = &[
    "", " ", "  a b  ", "\u{a0}x\u{3000}", "\t\r\n", "abc", "a\nb", "a\r\nb\r\n", "a\r", "\n",
    "\n\n", "x\ty\t", "\t", "<br>a<br><br>", "&nbsp;&nbsp", "\u{85}q\u{2028}", "\u{200b}z",
];

#[test]
fn conversions_keep_characters() {
    for t in SAMPLES {
        assert_eq!(chars_of(t), v(t));
        assert_eq!(string_of(&v(t)), *t);
    }
}

#[test]
fn trim_matches_str_trim() {
    for t in SAMPLES {
        assert_eq!(s(&trim(&v(t))), t.trim(), "{:?}", t);
    }
}

#[test]
fn first_word_matches_split_whitespace() {
    for t in SAMPLES {
        let expected = t.split_whitespace().next().unwrap_or("");
        assert_eq!(s(&first_word_of(&v(t))), expected, "{:?}", t);
    }
    assert_eq!(s(&first_word_of(&v("2024-01-15 10:30:00"))), "2024-01-15");
}

#[test]
fn lines_match_str_lines() {
    for t in SAMPLES {
        let got: Vec<String> = split_lines(&v(t)).iter().map(|l| s(l)).collect();
        let expected: Vec<String> = t.lines().map(|l| l.to_string()).collect();
        assert_eq!(got, expected, "{:?}", t);
    }
}

#[test]
fn split_matches_str_split() {
    for t in SAMPLES {
        let got: Vec<String> = split_at_char(&v(t), '\t').iter().map(|l| s(l)).collect();
        let expected: Vec<String> = t.split('\t').map(|l| l.to_string()).collect();
        assert_eq!(got, expected, "{:?}", t);
    }
}

#[test]
fn replace_matches_str_replace() {
    for t in SAMPLES {
        for (p, r) in [("<br>", " "), ("&nbsp;", " "), ("a", "aa"), ("\"", "\"\""), ("br", "")] {
            assert_eq!(s(&replace(&v(t), &v(p), &v(r))), t.replace(p, r), "{:?}", t);
        }
    }
    assert_eq!(s(&replace(&v("aaa"), &v("aa"), &v("b"))), "ba");
}

#[test]
fn contains_matches_str_contains() {
    for t in SAMPLES {
        for p in ["", "a", "b", "<br>", "\n", "ab"] {
            assert_eq!(contains(&v(t), &v(p)), t.contains(p), "{:?} {:?}", t, p);
        }
    }
}

#[test]
fn float_texts_match_str_parse() {
    let cases = [
        "1", "1.0850", "-2", "+3.5", ".5", "5.", ".", "", "-", "+", "e5", "1e5", "1E+5", "1e-05",
        "1e", "1e+", "1.e3", ".e3", "inf", "-INF", "Infinity", "+infinity", "nan", "NaN", "-nan",
        "infinit", "in", "1_000", " 1", "1 ", "0x10", "1,5", "١", "12345678901234567890", "1..2",
        "--1", "1e5.0", "n/a", "infe", "0.0", "50.0",
    ];
    for c in cases {
        assert_eq!(is_float(&v(c)), c.parse::<f64>().is_ok(), "{:?}", c);
    }
}

#[test]
fn elements_match_the_regex_crate() {
    let row = regex::Regex::new(r#"(?s)<tr[^>]*>(.*?)</tr>"#).unwrap();
    let texts = [
        "<tr>a</tr>",
        "<tr class=x>a</tr><tr>b</tr>",
        "<tr>a\n</tr><tr>b</tr>",
        "<tr\n>a</tr>",
        "<tr>a</tr</tr>",
        "<track>x</tr>",
        "<tr><tr>x</tr></tr>",
        "<tr>",
        "no rows",
        "<tr>é</tr><tr>\u{2028}</tr>",
        "<tr>></tr>",
        "<tr a=1>x<td>y</td></tr>\n<tr>z",
    ];
    for t in texts {
        let got: Vec<String> = find_elements(&v(t), &v("<tr"), &v("</tr>")).iter().map(|e| s(e)).collect();
        let expected: Vec<String> = row.captures_iter(t).map(|c| c[1].to_string()).collect();
        assert_eq!(got, expected, "{:?}", t);
    }
}

#[test]
fn tag_removal_matches_the_regex_crate() {
    let tag = regex::Regex::new("<[^>]+>").unwrap();
    let texts = [
        "", "<b>42</b>", "a<>b", "<", ">", "a < b", "<<b>>", "<a\nb>c", "<br>x", "x<y", "<>",
        "<b><i>t</i></b>", "1 < 2 > 0", "<é>ü", "<<>>",
    ];
    for t in texts {
        assert_eq!(s(&remove_tags(&v(t))), tag.replace_all(t, "").to_string(), "{:?}", t);
    }
}
