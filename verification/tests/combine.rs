use import_combiner::{combine_imports, Item, ViewPath};

#[test]
fn split_path() {
    assert_eq!(ViewPath::from("a::b::c"),
               ViewPath::ViewPathSimple(vec!["a".to_string(),
                                             "b".to_string(),
                                             "c".to_string()],
                                        None));
    assert_eq!(ViewPath::from("a::b::c as rename"),
               ViewPath::ViewPathSimple(vec!["a".to_string(),
                                             "b".to_string(),
                                             "c".to_string()],
                                        Some("rename".to_string())));
    assert_eq!(ViewPath::from("::a::b::c"),
               ViewPath::ViewPathSimple(vec!["".to_string(),
                                             "a".to_string(),
                                             "b".to_string(),
                                             "c".to_string()],
                                        None));
    assert_eq!(ViewPath::from("::a::b::*"),
               ViewPath::ViewPathGlob(vec!["".to_string(), "a".to_string(), "b".to_string()]));
    assert_eq!(ViewPath::from("::a::b::{self, d ,e as   x, f}"),
               ViewPath::ViewPathList(vec!["".to_string(), "a".to_string(), "b".to_string()],
                                      vec![Item("self".to_string(), None),
                                           Item("d".to_string(), None),
                                           Item("e".to_string(), Some("x".to_string())),
                                           Item("f".to_string(), None)]));
    assert_eq!(ViewPath::from("::a::b::{self}"),
               ViewPath::ViewPathSimple(vec!["".to_string(),
                                             "a".to_string(),
                                             "b".to_string()],
                                        None));
}

#[test]
fn combine_glob_and_child() {
    assert_eq!(combine_imports(&(vec![&ViewPath::from("a::b::c"),
                                      &ViewPath::from("a::b::*")])),
               vec![ViewPath::from("a::b::*")]);
    assert_eq!(combine_imports(&vec![&ViewPath::from("a::b::c"),
                                     &ViewPath::from("a::b::*"),
                                     &ViewPath::from("a::b as x")]),
               vec![ViewPath::from("a::b as x"), ViewPath::from("a::b::*")]);
    assert_eq!(combine_imports(&vec![&ViewPath::from("a::b::c"),
                                     &ViewPath::from("a::b::*"),
                                     &ViewPath::from("a::b::c as x")]),
               vec![ViewPath::from("a::b::*"), ViewPath::from("a::b::c as x")]);
    assert_eq!(combine_imports(&vec![&ViewPath::from("a::b::c"),
                                     &ViewPath::from("a::b as y"),
                                     &ViewPath::from("a::b::*"),
                                     &ViewPath::from("a::b::c as x")]),
               vec![ViewPath::from("a::b as y"),
                    ViewPath::from("a::b::*"),
                    ViewPath::from("a::b::c as x")]);
    assert_eq!(combine_imports(&vec![&ViewPath::from("a::b::c"),
                                     &ViewPath::from("a::b as y"),
                                     &ViewPath::from("a::b::*"),
                                     &ViewPath::from("a::b::d as e"),
                                     &ViewPath::from("a::b::c as z"),
                                     &ViewPath::from("a::b::c as x")]),
               vec![ViewPath::from("a::b::{self as y, c as x, c as z, d as e}"),
                    ViewPath::from("a::b::*")]);
}

#[test]
fn combine_glob_and_list() {
    assert_eq!(combine_imports(&vec![&ViewPath::from("a::b::{c, d, e}"),
                                     &ViewPath::from("a::b::*")]),
               vec![ViewPath::from("a::b::*")]);
    assert_eq!(combine_imports(&vec![&ViewPath::from("a::b::{c as b, d, e}"),
                                     &ViewPath::from("a::b::*")]),
               vec![ViewPath::from("a::b::*"), ViewPath::from("a::b::c as b")]);
    assert_eq!(combine_imports(&vec![&ViewPath::from("a::b::*"),
                                     &ViewPath::from("a::b::{c as cc, d as dd, e as ee}")]),
               vec![ViewPath::from("a::b::{c as cc, d as dd, e as ee}"),
                    ViewPath::from("a::b::*")]);
}

#[test]
fn combine_glob_and_list_and_self() {
    assert_eq!(combine_imports(&vec![&ViewPath::from("a::b::{self,c,d,e}"),
                                     &ViewPath::from("a::b::*")]),
               vec![ViewPath::from("a::b"), ViewPath::from("a::b::*")]);
    assert_eq!(combine_imports(&vec![&ViewPath::from("a::b::{self, self as x,c,d,e}"),
                                     &ViewPath::from("a::b::*")]),
               vec![ViewPath::from("a::b"),
                    ViewPath::from("a::b as x"),
                    ViewPath::from("a::b::*")]);
    assert_eq!(combine_imports(&vec![&ViewPath::from("a::b::{self, self as x,c,d,d as \
                                                      dd,e}"),
                                     &ViewPath::from("a::b::*")]),
               vec![ViewPath::from("a::b::{self, self as x,d as dd}"),
                    ViewPath::from("a::b::*")]);
}

#[test]
fn combine_lists() {
    assert_eq!(combine_imports(&vec![&ViewPath::from("a::b::{g,h,a,b}"),
                                     &ViewPath::from("a::b::{c,d,e}")]),
               vec![ViewPath::from("a::b::{a,b,c,d,e,g,h}")]);
    assert_eq!(combine_imports(&vec![&ViewPath::from("a::b::{g,h,a,b}"),
                                     &ViewPath::from("a::b::{c,h as fgh,d,e}")]),
               vec![ViewPath::from("a::b::{a,b,c,d,e,g,h, h as fgh}")]);
}

#[test]
fn combine_lists_with_self() {
    assert_eq!(combine_imports(&vec![&ViewPath::from("a::b::{g,h,a,b}"),
                                     &ViewPath::from("a::b::{c,d,e}"),
                                     &ViewPath::from("a::b")]),
               vec![ViewPath::from("a::b::{self,a,b,c,d,e,g,h}")]);
}

#[test]
fn combine_simples() {
    assert_eq!(combine_imports(&vec![&ViewPath::from("a::b::c"),
                                     &ViewPath::from("a::b::e"),
                                     &ViewPath::from("a::b::d"),
                                     &ViewPath::from("a::b::b"),
                                     &ViewPath::from("a::b::h"),
                                     &ViewPath::from("a::b::k"),
                                     &ViewPath::from("a::b"),
                                     &ViewPath::from("a")]),
               vec![ViewPath::from("a"), ViewPath::from("a::b::{self,b,c,d,e,h,k}")]);
}

#[test]
fn combine_simples_and_glob() {
    assert_eq!(combine_imports(&[&ViewPath::from("a::b::c"),
                                 &ViewPath::from("a::b::e"),
                                 &ViewPath::from("a::b::d"),
                                 &ViewPath::from("a::b::b"),
                                 &ViewPath::from("c"),
                                 &ViewPath::from("a::b::h"),
                                 &ViewPath::from("a::b::k"),
                                 &ViewPath::from("a::b::*"),
                                 &ViewPath::from("a")]),
               vec![ViewPath::from("a"), ViewPath::from("a::b::*"), ViewPath::from("c")]);

    assert_eq!(combine_imports(&[&ViewPath::from("a::b::c"),
                                 &ViewPath::from("a::b::e"),
                                 &ViewPath::from("a::b::d as yy"),
                                 &ViewPath::from("a::b::b"),
                                 &ViewPath::from("c"),
                                 &ViewPath::from("a::b::h"),
                                 &ViewPath::from("a::b::k"),
                                 &ViewPath::from("a::b::*"),
                                 &ViewPath::from("a")]),
               vec![ViewPath::from("a"),
                    ViewPath::from("a::b::*"),
                    ViewPath::from("a::b::d as yy"),
                    ViewPath::from("c")]);
}
