use notes::number::{format_id, parse_id, parse_unsigned};
use notes::ops::{parse_confirmation, parse_limit};
use notes::tags::{parse_tags, Tags};
use notes::text::{chars_of, precedes, string_of};

#[test]
fn parse_id_reads_hexadecimal_in_either_case() {
    assert_eq!(parse_id("ff"), Some(255));
    assert_eq!(parse_id("FF"), Some(255));
    assert_eq!(parse_id("00000000000000FF"), Some(255));
    assert_eq!(parse_id("0"), Some(0));
    assert_eq!(parse_id("1aB"), Some(0x1ab));
}

#[test]
fn parse_id_takes_one_leading_plus() {
    assert_eq!(parse_id("+1f"), Some(31));
    assert_eq!(parse_id("++1f"), None);
    assert_eq!(parse_id("+"), None);
}

#[test]
fn parse_id_refuses_what_is_no_number() {
    assert_eq!(parse_id(""), None);
    assert_eq!(parse_id("-1"), None);
    assert_eq!(parse_id("g"), None);
    assert_eq!(parse_id("12 "), None);
    assert_eq!(parse_id(" 12"), None);
    assert_eq!(parse_id("1_0"), None);
    assert_eq!(parse_id("0x10"), None);
}

#[test]
fn parse_id_agrees_with_the_standard_library() {
    for text in ["", "+", "+0", "7f", "zz", "FFFFFFFFFFFFFFFF", "10000000000000000", "+00012", "é"] {
        assert_eq!(parse_id(text), usize::from_str_radix(text, 16).ok());
    }
}

#[test]
fn parse_id_holds_the_largest_number_and_no_larger() {
    assert_eq!(parse_id(&format!("{:x}", usize::MAX)), Some(usize::MAX));
    assert_eq!(parse_id(&format!("{:x}0", usize::MAX)), None);
    assert_eq!(parse_id(&format!("1{:x}", usize::MAX)), None);
    assert_eq!(parse_id(&format!("000{:x}", usize::MAX)), Some(usize::MAX));
}

#[test]
fn parse_unsigned_in_decimal() {
    assert_eq!(parse_unsigned("10", 10), Some(10));
    assert_eq!(parse_unsigned("007", 10), Some(7));
    assert_eq!(parse_unsigned("a", 10), None);
    assert_eq!(parse_unsigned("z", 36), Some(35));
    assert_eq!(parse_unsigned("12", 2), None);
    assert_eq!(parse_unsigned(&format!("{}", usize::MAX), 10), Some(usize::MAX));
    assert_eq!(parse_unsigned(&format!("{}0", usize::MAX), 10), None);
}

#[test]
fn format_id_writes_sixteen_upper_case_digits() {
    assert_eq!(format_id(255), "00000000000000FF");
    assert_eq!(format_id(0), "0000000000000000");
    assert_eq!(format_id(0x1234_abcd), "000000001234ABCD");
    assert_eq!(format_id(usize::MAX), format!("{:016X}", usize::MAX));
}

#[test]
fn format_id_then_parse_id_gives_the_identifier() {
    for id in [0usize, 1, 15, 16, 255, 4096, 0xdead_beef, usize::MAX, usize::MAX - 1] {
        assert_eq!(parse_id(&format_id(id)), Some(id));
    }
}

#[test]
fn parse_limit_defaults_to_ten() {
    assert_eq!(parse_limit(None), 10);
    assert_eq!(parse_limit(Some("abc")), 10);
    assert_eq!(parse_limit(Some("")), 10);
    assert_eq!(parse_limit(Some("-3")), 10);
    assert_eq!(parse_limit(Some("3")), 3);
    assert_eq!(parse_limit(Some("0")), 0);
    assert_eq!(parse_limit(Some("+25")), 25);
}

#[test]
fn parse_confirmation_accepts_the_four_words() {
    assert_eq!(parse_confirmation("y\n"), Some(true));
    assert_eq!(parse_confirmation("yes\n"), Some(true));
    assert_eq!(parse_confirmation("n\n"), Some(false));
    assert_eq!(parse_confirmation("no\r\n"), Some(false));
    assert_eq!(parse_confirmation("y"), Some(true));
    assert_eq!(parse_confirmation("no"), Some(false));
}

#[test]
fn parse_confirmation_asks_again_for_anything_else() {
    assert_eq!(parse_confirmation(""), None);
    assert_eq!(parse_confirmation("\n"), None);
    assert_eq!(parse_confirmation("Y\n"), None);
    assert_eq!(parse_confirmation("YES\n"), None);
    assert_eq!(parse_confirmation("yellow\n"), None);
    assert_eq!(parse_confirmation("nope\n"), None);
    assert_eq!(parse_confirmation(" y\n"), None);
    assert_eq!(parse_confirmation("y\n\n"), None);
    assert_eq!(parse_confirmation("ye\n"), None);
}

#[test]
fn precedes_is_the_order_of_strings() {
    let words = ["", "a", "ab", "b", "B", "é", "z", "aa", "日本"];
    for a in words {
        for b in words {
            assert_eq!(precedes(&chars_of(a), &chars_of(b)), a < b);
        }
    }
}

#[test]
fn chars_and_back() {
    assert_eq!(string_of(&chars_of("héllo/日本")), "héllo/日本");
    assert_eq!(chars_of("ab"), vec!['a', 'b']);
}

#[test]
fn tags_are_a_set_in_dictionary_order() {
    let mut tags = Tags::new();
    assert!(tags.insert(String::from("pear")));
    assert!(tags.insert(String::from("apple")));
    assert!(!tags.insert(String::from("pear")));
    assert!(tags.insert(String::from("fig")));
    assert_eq!(tags.len(), 3);
    assert_eq!(tags.to_vec(), vec!["apple", "fig", "pear"]);
    assert!(tags.contains("fig"));
    assert!(!tags.contains("plum"));
}

#[test]
fn tags_leave_out_the_empty_string() {
    let mut tags = Tags::new();
    assert!(!tags.insert(String::new()));
    assert_eq!(tags.len(), 0);
    let tags = Tags::from_vec(vec![String::from("a"), String::new(), String::from("a")]);
    assert_eq!(tags.to_vec(), vec!["a"]);
}

#[test]
fn tags_built_in_any_order_are_equal() {
    let one = Tags::from_vec(vec![String::from("x"), String::from("y"), String::from("a")]);
    let two = Tags::from_vec(vec![String::from("a"), String::from("y"), String::from("x"), String::from("y")]);
    assert_eq!(one, two);
    assert_eq!(one.clone(), two);
    assert_eq!(*one.get(0), "a");
}

#[test]
fn tags_subset() {
    let abc = Tags::from_vec(vec![String::from("a"), String::from("b"), String::from("c")]);
    let ab = Tags::from_vec(vec![String::from("a"), String::from("b")]);
    let abd = Tags::from_vec(vec![String::from("a"), String::from("b"), String::from("d")]);
    assert!(ab.is_subset(&abc));
    assert!(!abd.is_subset(&abc));
    assert!(Tags::new().is_subset(&abc));
    assert!(abc.is_subset(&abc));
    assert!(!abc.is_subset(&ab));
}

#[test]
fn parse_tags_splits_trims_and_drops_empty_fields() {
    assert_eq!(parse_tags(" b, a ,,c ").to_vec(), vec!["a", "b", "c"]);
    assert_eq!(parse_tags("").len(), 0);
    assert_eq!(parse_tags(" , ,").len(), 0);
    assert_eq!(parse_tags("one").to_vec(), vec!["one"]);
    assert_eq!(parse_tags("x,x, x").to_vec(), vec!["x"]);
    assert_eq!(parse_tags("two words,\tz\u{a0}").to_vec(), vec!["two words", "z"]);
}
