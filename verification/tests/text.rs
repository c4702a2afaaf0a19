use spate_bench::table::text_precedes;
use spate_bench::table::Table;
use spate_bench::text::chars_of;
use spate_bench::text::decimal_of;
use spate_bench::text::replaced;
use spate_bench::text::split_lines;
use spate_bench::text::split_words;
use spate_bench::text::string_of;
use spate_bench::text::to_i64;
use spate_bench::text::to_u64;
use spate_bench::text::trimmed;

fn chars(s: &str) -> Vec<char> {
    chars_of(s)
}

#[test]
fn words_and_lines_are_those_of_std() {
    for s in ["", " a  b\tc\n", "\u{a0}x\u{2003}y ", "one\r\ntwo\n\nthree", "a\r", "\n"] {
        let v = chars(s);
        let words: Vec<String> = split_words(&v).into_iter().map(string_of).collect();
        let expected: Vec<String> = s.split_whitespace().map(str::to_owned).collect();
        assert_eq!(words, expected, "{s:?}");
        let lines: Vec<String> = split_lines(&v).into_iter().map(string_of).collect();
        let expected: Vec<String> = s.lines().map(str::to_owned).collect();
        assert_eq!(lines, expected, "{s:?}");
        assert_eq!(string_of(trimmed(&v)), s.trim(), "{s:?}");
    }
}

#[test]
fn numbers_read_as_std_reads_them() {
    for s in ["0", "+7", "-7", "", "-", "+", "18446744073709551615", "18446744073709551616", "1_0", " 1"] {
        let v = chars(s);
        assert_eq!(to_u64(&v), s.parse::<u64>().ok(), "{s:?}");
        assert_eq!(to_i64(&v), s.parse::<i64>().ok(), "{s:?}");
    }
    assert_eq!(decimal_of(u128::MAX), u128::MAX.to_string());
}

#[test]
fn replacing_is_stds() {
    assert_eq!(replaced("aXbXc", "X", "--"), "aXbXc".replace('X', "--"));
    assert_eq!(replaced("aaa", "aa", "b"), "aaa".replace("aa", "b"));
}

#[test]
fn a_table_is_ordered_by_its_keys() {
    let mut t = Table::new();
    t.insert("b".to_owned(), 1);
    t.insert("a".to_owned(), 2);
    t.insert("b".to_owned(), 3);
    assert_eq!(t.entries(), &vec![("a".to_owned(), 2), ("b".to_owned(), 3)]);
    assert_eq!(t.key_list(), vec!["a".to_owned(), "b".to_owned()]);
    assert_eq!(t.get("b"), Some(&3));
    assert_eq!(t.get("c"), None);
    assert!(text_precedes("a", "ab"));
    assert!(text_precedes("Z", "a"));
    assert!(!text_precedes("a", "a"));
}
