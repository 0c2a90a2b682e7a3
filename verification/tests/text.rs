use bhf::digest::hex_of_bytes;
use bhf::json::{object_text, put_member, quoted_array};
use bhf::text::{
    chars_of, comes_before, decimal_of, decimal_text, digit_prefix, digits_only,
    hex_of, hex_text, joined, last_position_of, line_list, lowered, position_of, replaced, split,
    split_bytes, string_of, trimmed, word_list,
};

fn strings(rows: Vec<Vec<char>>) -> Vec<String> {
    rows.iter().map(|row| row.iter().collect()).collect()
}

#[test]
fn text_is_trimmed_of_white_space() {
    let text = chars_of(" \t\u{a0}a b\u{3000}\n");
    assert_eq!(string_of(trimmed(&text)), " \t\u{a0}a b\u{3000}\n".trim());
}

#[test]
fn text_comes_apart_at_separators() {
    for text in ["", "a", "a,b", ",a,,b,", ",,"] {
        let want: Vec<&str> = text.split(',').collect();
        assert_eq!(strings(split(&chars_of(text), ',')), want);
    }
    for text in ["", "a", "a\n", "a\r\nb\r", "\n\n", "a\n\nb"] {
        let want: Vec<&str> = text.lines().collect();
        assert_eq!(strings(line_list(&chars_of(text))), want);
    }
    for text in ["", " ", "a  b\tc ", "\u{2003}x\u{85}y"] {
        let want: Vec<&str> = text.split_whitespace().collect();
        assert_eq!(strings(word_list(&chars_of(text))), want);
    }
    assert_eq!(split_bytes(b"a\n\nb", b'\n'), vec![b"a".to_vec(), vec![], b"b".to_vec()]);
}

#[test]
fn text_is_searched_and_replaced() {
    let text = chars_of("abcabc");
    assert_eq!(position_of(&text, &chars_of("ca")), Some(2));
    assert_eq!(position_of(&text, &chars_of("cc")), None);
    assert_eq!(last_position_of(&text, &chars_of("bc")), Some(4));
    assert_eq!(string_of(&replaced(&chars_of("aaa"), &chars_of("aa"), &chars_of("b"))), "ba");
    assert_eq!(string_of(&lowered(&chars_of("AbZ\u{c4}"))), "abz\u{c4}");
    assert_eq!(joined(&["a".to_owned(), "b".to_owned()], ", "), "a, b");
    assert!(comes_before(&chars_of("a"), &chars_of("b")));
    assert!(comes_before(&chars_of("a"), &chars_of("aa")));
    assert!(!comes_before(&chars_of("a"), &chars_of("a")));
}

#[test]
fn numbers_are_read_as_they_are_written() {
    for n in [0, 7, 10, 255, u64::MAX] {
        assert_eq!(decimal_text(n), n.to_string());
        assert_eq!(hex_text(n), format!("{n:x}"));
        assert_eq!(decimal_of(&chars_of(&n.to_string()), u64::MAX), Some(n));
        assert_eq!(hex_of(&chars_of(&format!("{n:X}"))), Some(n));
    }
    assert_eq!(decimal_of(&chars_of("+7"), 10), Some(7));
    assert_eq!(decimal_of(&chars_of("11"), 10), None);
    assert_eq!(decimal_of(&chars_of(""), 10), None);
    assert_eq!(decimal_of(&chars_of("18446744073709551616"), u64::MAX), None);
    assert_eq!(hex_of(&chars_of("10000000000000000")), None);
    assert!(digits_only(&chars_of("0123")));
    assert!(!digits_only(&chars_of("01x")));
    assert_eq!(string_of(digit_prefix(&chars_of("25rc1"))), "25");
}

#[test]
fn bytes_are_shown_as_digits() {
    assert_eq!(hex_of_bytes(&[0, 15, 255]), "000fff");
}

#[test]
fn values_are_written_as_json() {
    let items = vec!["a\"\\".to_owned(), "\u{1f}\u{7f}\u{2028}".to_owned()];
    assert_eq!(quoted_array(&items), serde_json::to_string(&items).unwrap());
    assert_eq!(
        quoted_array(&["\u{8}\u{c}\n\r\t\u{0}\u{1f}\u{7f}/\u{2028}".to_owned()]),
        "[\"\\b\\f\\n\\r\\t\\u0000\\u001f\u{7f}/\u{2028}\"]"
    );
    let mut members = Vec::new();
    put_member(&mut members, "b", "1".to_owned());
    put_member(&mut members, "a", "2".to_owned());
    put_member(&mut members, "b", "3".to_owned());
    assert_eq!(object_text(&members), r#"{"a":2,"b":3}"#);
}

#[test]
fn different_lists_are_written_differently() {
    let lists: Vec<Vec<String>> = vec![
        vec![],
        vec!["".to_owned()],
        vec!["a,b".to_owned()],
        vec!["a".to_owned(), "b".to_owned()],
        vec!["a\",\"b".to_owned()],
        vec!["a\\".to_owned(), "b".to_owned()],
    ];
    for (i, one) in lists.iter().enumerate() {
        for (j, other) in lists.iter().enumerate() {
            assert_eq!(quoted_array(one) == quoted_array(other), i == j);
        }
    }
}
