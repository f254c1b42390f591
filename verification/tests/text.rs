use import_combiner::parse::{split_text, split_words};
use import_combiner::sorted::{find_place, insert_name};
use import_combiner::text::{char_is_space, chars_of, str_eq, str_lt};
use import_combiner::{as_path, Item, ViewPath};

fn strings(v: &[&str]) -> Vec<String> {
    v.iter().map(|s| s.to_string()).collect()
}

#[test]
fn white_space_is_what_std_calls_white_space() {
    for n in 0u32..=0x10FFFF {
        if let Some(c) = char::from_u32(n) {
            assert_eq!(char_is_space(c), c.is_whitespace(), "U+{:04X}", n);
        }
    }
}

#[test]
fn order_of_strings_is_that_of_std() {
    let samples = ["", "a", "A", "ab", "abc", "abd", "b", "self", "z", "é", "日本", "a\u{10FFFF}",
                   "\u{D7FF}", "\u{E000}", "aa", "a b", "_x", "0", "10", "9"];
    for a in samples.iter() {
        for b in samples.iter() {
            assert_eq!(str_lt(a, b), a < b, "{:?} < {:?}", a, b);
            assert_eq!(str_eq(a, b), a == b, "{:?} == {:?}", a, b);
        }
    }
}

#[test]
fn chars_of_gives_each_character() {
    assert_eq!(chars_of(""), Vec::<char>::new());
    assert_eq!(chars_of("a::é"), vec!['a', ':', ':', 'é']);
}

#[test]
fn find_place_in_sorted_names() {
    let v = strings(&["b", "d", "f"]);
    assert_eq!(find_place(&v, "a"), (0, false));
    assert_eq!(find_place(&v, "b"), (0, true));
    assert_eq!(find_place(&v, "c"), (1, false));
    assert_eq!(find_place(&v, "f"), (2, true));
    assert_eq!(find_place(&v, "g"), (3, false));
    assert_eq!(find_place(&Vec::new(), "g"), (0, false));
}

#[test]
fn insert_name_keeps_order_and_adds_nothing_twice() {
    let mut v: Vec<String> = Vec::new();
    for x in ["m", "c", "x", "c", "a", "m", "z"].iter() {
        insert_name(&mut v, x);
    }
    assert_eq!(v, strings(&["a", "c", "m", "x", "z"]));
}

#[test]
fn split_text_takes_separators_from_the_left() {
    assert_eq!(split_text("a::b::c", "::"), strings(&["a", "b", "c"]));
    assert_eq!(split_text("", "::"), strings(&[""]));
    assert_eq!(split_text("::", "::"), strings(&["", ""]));
    assert_eq!(split_text("a:::b", "::"), strings(&["a", ":b"]));
    assert_eq!(split_text("a::::b", "::"), strings(&["a", "", "b"]));
    assert_eq!(split_text("a::b::", "::"), strings(&["a", "b", ""]));
    assert_eq!(split_text("a:b", "::"), strings(&["a:b"]));
    assert_eq!(split_text("x,y,,z", ","), strings(&["x", "y", "", "z"]));
    assert_eq!(split_text("é::日本", "::"), strings(&["é", "日本"]));
    for s in ["a::b", ":::", "::::", "a:b::c:", "", ":", "::a"].iter() {
        let expected: Vec<String> = s.split("::").map(String::from).collect();
        assert_eq!(split_text(s, "::"), expected, "{:?}", s);
    }
}

#[test]
fn split_words_is_split_whitespace() {
    for s in ["", " ", "a", " a ", "a b", "  a \t b\nc  ", "e as   x", "a\u{3000}b", "x\u{A0}y\u{85}"].iter() {
        let expected: Vec<String> = s.split_whitespace().map(String::from).collect();
        assert_eq!(split_words(s), expected, "{:?}", s);
    }
}

#[test]
fn as_path_splits_at_double_colons() {
    assert_eq!(as_path("a::b::c"), strings(&["a", "b", "c"]));
    assert_eq!(as_path("::a::b"), strings(&["", "a", "b"]));
    assert_eq!(as_path("a"), strings(&["a"]));
    assert_eq!(as_path(""), strings(&[""]));
    assert_eq!(as_path("a b::c"), strings(&["a b", "c"]));
}

#[test]
fn item_from_text() {
    assert_eq!(Item::from("c"), Item("c".to_string(), None));
    assert_eq!(Item::from("  c  "), Item("c".to_string(), None));
    assert_eq!(Item::from("c as d"), Item("c".to_string(), Some("d".to_string())));
    assert_eq!(Item::from(" e as   x "), Item("e".to_string(), Some("x".to_string())));
    assert_eq!(Item::from("self"), Item("self".to_string(), None));
    assert_eq!(Item::from("self as s"), Item("self".to_string(), Some("s".to_string())));
    assert_eq!(Item::from(""), Item("".to_string(), None));
    assert_eq!(Item::from("   "), Item("".to_string(), None));
}

#[test]
fn item_of_other_word_counts_is_taken_whole() {
    assert_eq!(Item::from("b c"), Item("b c".to_string(), None));
    assert_eq!(Item::from(" b  as "), Item("b  as".to_string(), None));
    assert_eq!(Item::from("b is c"), Item("b is c".to_string(), None));
    assert_eq!(Item::from("a as b as c"), Item("a as b as c".to_string(), None));
    assert_eq!(Item::from("as as as"), Item("as".to_string(), Some("as".to_string())));
}

#[test]
fn view_path_from_text_wildcards() {
    assert_eq!(ViewPath::from("a::*"), ViewPath::ViewPathGlob(strings(&["a"])));
    assert_eq!(ViewPath::from("*"), ViewPath::ViewPathGlob(Vec::new()));
    assert_eq!(ViewPath::from("::*"), ViewPath::ViewPathGlob(strings(&[""])));
    assert_eq!(ViewPath::from("a::* "), ViewPath::ViewPathSimple(strings(&["a", "*"]), None));
    assert_eq!(ViewPath::from("a::**"), ViewPath::ViewPathSimple(strings(&["a", "**"]), None));
}

#[test]
fn view_path_from_text_lists() {
    assert_eq!(ViewPath::from("a::{b}"),
               ViewPath::ViewPathList(strings(&["a"]), vec![Item("b".to_string(), None)]));
    assert_eq!(ViewPath::from("a::{self as s}"),
               ViewPath::ViewPathSimple(strings(&["a"]), Some("s".to_string())));
    assert_eq!(ViewPath::from("a::{ self }"), ViewPath::ViewPathSimple(strings(&["a"]), None));
    assert_eq!(ViewPath::from("a::{self, self}"),
               ViewPath::ViewPathList(strings(&["a"]),
                                      vec![Item("self".to_string(), None),
                                           Item("self".to_string(), None)]));
    assert_eq!(ViewPath::from("a::{}"),
               ViewPath::ViewPathList(strings(&["a"]), vec![Item("".to_string(), None)]));
    assert_eq!(ViewPath::from("a::{b,}"),
               ViewPath::ViewPathList(strings(&["a"]),
                                      vec![Item("b".to_string(), None),
                                           Item("".to_string(), None)]));
    assert_eq!(ViewPath::from("a::{b c, d as}"),
               ViewPath::ViewPathList(strings(&["a"]),
                                      vec![Item("b c".to_string(), None),
                                           Item("d as".to_string(), None)]));
    assert_eq!(ViewPath::from("{x, y}"),
               ViewPath::ViewPathList(Vec::new(),
                                      vec![Item("x".to_string(), None),
                                           Item("y".to_string(), None)]));
}

#[test]
fn view_path_from_text_without_closed_braces() {
    assert_eq!(ViewPath::from("a::{"), ViewPath::ViewPathSimple(strings(&["a", "{"]), None));
    assert_eq!(ViewPath::from("a::}"), ViewPath::ViewPathSimple(strings(&["a", "}"]), None));
    assert_eq!(ViewPath::from("a::{b"), ViewPath::ViewPathSimple(strings(&["a", "{b"]), None));
    assert_eq!(ViewPath::from("a::{b} "), ViewPath::ViewPathSimple(strings(&["a", "{b}"]), None));
    assert_eq!(ViewPath::from("a::{b::c, d}"),
               ViewPath::ViewPathSimple(strings(&["a", "{b", "c, d}"]), None));
}

#[test]
fn view_path_from_text_simple() {
    assert_eq!(ViewPath::from(""), ViewPath::ViewPathSimple(strings(&[""]), None));
    assert_eq!(ViewPath::from("a"), ViewPath::ViewPathSimple(strings(&["a"]), None));
    assert_eq!(ViewPath::from("a as b"),
               ViewPath::ViewPathSimple(strings(&["a"]), Some("b".to_string())));
    assert_eq!(ViewPath::from("a:: b "), ViewPath::ViewPathSimple(strings(&["a", "b"]), None));
    assert_eq!(ViewPath::from("a::self"), ViewPath::ViewPathSimple(strings(&["a", "self"]), None));
    assert_eq!(ViewPath::from("a::b c d"),
               ViewPath::ViewPathSimple(strings(&["a", "b c d"]), None));
}
