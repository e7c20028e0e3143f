use zhtta::number::{parse_decimal, write_decimal};
use zhtta::text::{chars_of, find_from, has, join_with, replace, split, text_of, trim_end, trim_start};

fn parts(s: &str, sep: &str) -> Vec<String> {
    let text = chars_of(s);
    let sep = chars_of(sep);
    split(&text, &sep).iter().map(|part| text_of(part)).collect()
}

fn replaced(s: &str, from: &str, to: &str) -> String {
    text_of(&replace(&chars_of(s), &chars_of(from), &chars_of(to)))
}

#[test]
fn splitting() {
    assert_eq!(parts("a b c", " "), vec!["a", "b", "c"]);
    assert_eq!(parts(" a  b ", " "), vec!["", "a", "", "b", ""]);
    assert_eq!(parts("", " "), vec![""]);
    assert_eq!(parts("x<!--y<!--", "<!--"), vec!["x", "y", ""]);
    assert_eq!(parts("aaaaa", "aa"), vec!["", "", "a"]);
}

#[test]
fn join_undoes_split() {
    for s in ["", "a,b", ",,", "abc"] {
        let text = chars_of(s);
        let comma = chars_of(",");
        assert_eq!(text_of(&join_with(&split(&text, &comma), &comma)), s);
    }
}

#[test]
fn replacing() {
    assert_eq!(replaced("a'b'c", "'", "\""), "a\"b\"c");
    assert_eq!(replaced("aaaa", "aa", "b"), "bb");
    assert_eq!(replaced("abc", "x", "y"), "abc");
    assert_eq!(replaced("abab", "ab", "ab-ab"), "ab-abab-ab");
}

#[test]
fn searching() {
    let text = chars_of("hello");
    assert_eq!(find_from(&text, &chars_of("l"), 0), Some(2));
    assert_eq!(find_from(&text, &chars_of("l"), 3), Some(3));
    assert_eq!(find_from(&text, &chars_of("l"), 4), None);
    assert_eq!(find_from(&text, &chars_of("l"), 9), None);
    assert!(has(&text, &chars_of("")));
    assert!(has(&text, &chars_of("ello")));
    assert!(!has(&text, &chars_of("helloo")));
}

#[test]
fn trimming() {
    let text = chars_of("\"\"a\"b\"");
    assert_eq!(text_of(trim_start(&text, '"')), "a\"b\"");
    assert_eq!(text_of(trim_end(&text, '"')), "\"\"a\"b");
    let quotes = chars_of("\"\"");
    assert_eq!(text_of(trim_end(&quotes, '"')), "");
}

#[test]
fn decimals() {
    for n in [0, 9, 10, 4414, usize::MAX] {
        assert_eq!(write_decimal(n), n.to_string());
        assert_eq!(parse_decimal(&chars_of(&n.to_string())), Some(n));
    }
    assert_eq!(parse_decimal(&chars_of("")), None);
    assert_eq!(parse_decimal(&chars_of("12a")), None);
    assert_eq!(parse_decimal(&chars_of("99999999999999999999")), None);
}
