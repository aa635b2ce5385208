use ret2shell_config::names::NameSet;
use ret2shell_config::text::{
    bytes_in, char_width, contains, cut, decimal, find, is_before, join, same, starts_with,
    strip_last,
};

#[test]
fn widths_are_those_of_utf8() {
    for character in ['\0', 'a', '\u{7f}', '\u{80}', 'é', '\u{7ff}', '\u{800}', '€'] {
        assert_eq!(char_width(character), character.len_utf8());
    }
    assert_eq!(char_width('\u{ffff}'), 3);
    assert_eq!(char_width('\u{10000}'), 4);
    assert_eq!(char_width('\u{10ffff}'), 4);
    assert_eq!(bytes_in("aé€😀"), 10);
    assert_eq!(bytes_in(""), 0);
}

#[test]
fn texts_are_cut_between_characters() {
    assert_eq!(cut("aé€", 3), ("aé", "€"));
    assert_eq!(cut("aé€", 0), ("", "aé€"));
    assert_eq!(cut("aé€", 6), ("aé€", ""));
}

#[test]
fn prefixes_and_occurrences() {
    assert!(starts_with("éa", "é"));
    assert!(starts_with("a", ""));
    assert!(!starts_with("", "a"));
    assert!(!starts_with("ab", "b"));
    assert!(contains("xéaéab", "éab"));
    assert!(contains("", ""));
    assert!(!contains("", "a"));
    assert!(!contains("aab", "ba"));
    assert!(same("é", "é"));
    assert!(!same("é", "e"));
    assert!(!same("a", "ab"));
}

#[test]
fn characters_are_found_by_byte() {
    assert_eq!(find("é}€}", '}'), Some(2));
    assert_eq!(find("é", '}'), None);
    assert_eq!(find("", '}'), None);
    assert_eq!(strip_last("é}", '}'), Some("é"));
    assert_eq!(strip_last("}", '}'), Some(""));
    assert_eq!(strip_last("}é", '}'), None);
    assert_eq!(strip_last("", '}'), None);
}

#[test]
fn numbers_are_written_in_decimal() {
    for number in [0, 9, 10, 99, 100, 1234567890, usize::MAX] {
        assert_eq!(decimal(number), number.to_string());
    }
}

#[test]
fn texts_are_ordered_like_strings() {
    let texts = ["", "A", "AB", "B", "_", "a", "aé", "é", "€", "😀"];
    for first in texts {
        for second in texts {
            assert_eq!(is_before(first, second), first < second);
        }
    }
}

#[test]
fn strings_are_joined() {
    let parts = |list: &[&str]| list.iter().map(|part| part.to_string()).collect::<Vec<_>>();
    assert_eq!(join(&parts(&[]), ", "), "");
    assert_eq!(join(&parts(&["a"]), ", "), "a");
    assert_eq!(join(&parts(&["a", "", "b"]), ", "), "a, , b");
}

#[test]
fn name_sets_are_sorted_and_hold_each_name_once() {
    let mut names = NameSet::new();
    for name in ["B", "A", "C", "B", "AA"] {
        names.insert(name.to_string());
    }
    assert_eq!(
        names.into_names(),
        ["A", "AA", "B", "C"].map(|name| name.to_string()).to_vec()
    );
}
