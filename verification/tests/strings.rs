use dirwatch::fskey::fs_key_str;
use dirwatch::os::Os;
use dirwatch::strings::{
    chars_of, decimal_of, is_white_space, join, parse_i32, parse_i64, same_str, signed_decimal_of,
    split_at_either, str_less, string_of, trim, trim_end,
};
use dirwatch::table::Table;
use dirwatch::utf8text::part;

fn owned(v: &[&str]) -> Vec<String> {
    v.iter().map(|s| s.to_string()).collect()
}

#[test]
fn white_space_is_what_the_standard_library_calls_so() {
    for c in '\0'..=char::MAX {
        assert_eq!(is_white_space(c), c.is_whitespace(), "{c:?}");
    }
}

#[test]
fn trimming_agrees_with_the_standard_library() {
    for s in [
        "", " ", "a", " a ", "\t\u{a0}a b\u{3000}\n", "\u{200b}x", "é ", " \u{85}",
    ] {
        assert_eq!(trim(s), s.trim());
        assert_eq!(trim_end(s), s.trim_end());
    }
}

#[test]
fn numbers_are_read_as_the_standard_library_reads_them() {
    for s in [
        "", "+", "-", "0", "-0", "+7", "007", "12a", " 1", "1 ", "1_0", "٣", "--1",
        "9223372036854775807", "9223372036854775808", "-9223372036854775808",
        "-9223372036854775809", "2147483647", "2147483648", "-2147483648", "-2147483649",
        "00000000000000000000000000000001",
    ] {
        assert_eq!(parse_i64(s), s.parse::<i64>().ok(), "{s:?}");
        assert_eq!(parse_i32(s), s.parse::<i32>().ok(), "{s:?}");
    }
}

#[test]
fn numbers_are_written_in_decimal() {
    for n in [0u64, 1, 9, 10, 99, 100, 12_345, u64::MAX] {
        assert_eq!(decimal_of(n), n.to_string());
    }
    for n in [0i64, -1, 1, -10, i64::MIN, i64::MAX] {
        assert_eq!(signed_decimal_of(n), n.to_string());
        assert_eq!(parse_i64(&signed_decimal_of(n)), Some(n));
    }
}

#[test]
fn texts_compare_by_their_bytes() {
    let all = ["", "a", "aa", "ab", "b", "Z", "é", "\u{10000}", "\u{ffff}"];
    for a in all {
        for b in all {
            assert_eq!(str_less(a, b), a < b, "{a:?} {b:?}");
            assert_eq!(same_str(a, b), a == b);
        }
    }
}

#[test]
fn a_list_is_split_and_joined() {
    assert_eq!(split_at_either("a;b,c", ';', ','), owned(&["a", "b", "c"]));
    assert_eq!(split_at_either("", ';', ','), owned(&[""]));
    assert_eq!(split_at_either(";", ';', ','), owned(&["", ""]));
    assert_eq!(join(&owned(&["a", "b"]), ';'), "a;b");
    assert_eq!(join(&[], ';'), "");
    assert_eq!(string_of(&chars_of("aé\u{10000}")), "aé\u{10000}");
}

#[test]
fn names_fold_as_the_standard_library_lowers_them() {
    for s in ["ÀÉÎ.LOG", "ΑΣ", "İ", "ǅ", "plain"] {
        assert_eq!(fs_key_str(Os::Windows, s), s.to_lowercase());
        assert_eq!(fs_key_str(Os::MacOs, s), s.to_lowercase());
        assert_eq!(fs_key_str(Os::Linux, s), s);
    }
}

#[test]
fn a_part_of_a_text_is_cut_at_bytes() {
    assert_eq!(part("aéb", 1, 3), "é");
    assert_eq!(part("aéb", 0, 4), "aéb");
    assert_eq!(part("aéb", 3, 3), "");
}

#[test]
fn a_table_gives_back_what_was_put_in() {
    let mut t: Table<u64> = Table::new();
    for (i, name) in ["m", "b", "z", "a"].iter().enumerate() {
        t.insert(name, i as u64);
    }
    assert_eq!(t.len(), 4);
    assert_eq!(t.get("b"), Some(&1));
    assert_eq!(t.get("c"), None);
    t.insert("b", 7);
    assert_eq!(t.len(), 4);
    assert_eq!(t.get("b"), Some(&7));
    assert_eq!(t.get("z"), Some(&2));
    assert_eq!(t.remove("b"), Some(7));
    assert_eq!(t.remove("b"), None);
    assert_eq!(t.get("b"), None);
    assert_eq!(t.get("a"), Some(&3));
    assert_eq!(t.name_at(0), "a");
    assert_eq!(*t.value_at(0), 3);
    t.set_value_at(0, 9);
    assert_eq!(t.remove_at(0), 9);
    assert_eq!(t.len(), 2);
    t.clear();
    assert_eq!(t.len(), 0);
}
