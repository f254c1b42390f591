use import_combiner::{combine_imports, ImportCombiner, ImportNode, Item, ViewPath};

fn strings(v: &[&str]) -> Vec<String> {
    v.iter().map(|s| s.to_string()).collect()
}

fn leaf(has_self: bool, has_glob: bool, renames: &[&str]) -> ImportNode {
    ImportNode { has_self, has_glob, renames: strings(renames), children: Vec::new() }
}

fn combine(lines: &[&str]) -> Vec<ViewPath> {
    let vps: Vec<ViewPath> = lines.iter().map(|l| ViewPath::from(*l)).collect();
    let refs: Vec<&ViewPath> = vps.iter().collect();
    combine_imports(&refs)
}

fn parsed(lines: &[&str]) -> Vec<ViewPath> {
    lines.iter().map(|l| ViewPath::from(*l)).collect()
}

#[test]
fn node_constructors() {
    assert_eq!(ImportNode::new(), leaf(false, false, &[]));
    assert_eq!(ImportNode::self_or_rename(&None), leaf(true, false, &[]));
    assert_eq!(ImportNode::self_or_rename(&Some("x".to_string())), leaf(false, false, &["x"]));
    assert_eq!(ImportNode::just_glob(), leaf(false, true, &[]));
}

#[test]
fn combine_with_joins_flags_and_aliases() {
    let mut a = leaf(true, false, &["m", "x"]);
    a.combine_with(&leaf(false, true, &["a", "x", "z"]));
    assert_eq!(a, leaf(true, true, &["a", "m", "x", "z"]));
    let mut b = leaf(false, false, &[]);
    b.combine_with(&leaf(false, false, &[]));
    assert_eq!(b, leaf(false, false, &[]));
}

#[test]
fn combine_with_puts_the_receivers_own_aliases_in_order() {
    let mut a = leaf(false, false, &["b", "a"]);
    a.combine_with(&ImportNode::new());
    assert_eq!(a, leaf(false, false, &["a", "b"]));
    let mut b = leaf(false, false, &["x", "x"]);
    b.combine_with(&ImportNode::new());
    assert_eq!(b, leaf(false, false, &["x"]));
    let mut c = leaf(true, false, &["m", "c", "m", "z", "a", "c"]);
    c.combine_with(&leaf(false, false, &["q", "b", "q", "a"]));
    assert_eq!(c, leaf(true, false, &["a", "b", "c", "m", "q", "z"]));
}

#[test]
fn clones_are_equal_to_what_they_copy() {
    let mut c = ImportCombiner::new();
    c.add_import(&ViewPath::from("a::b::{c, d as e}"));
    let d = c.clone();
    assert_eq!(c, d);
    assert_eq!(c.get_import_list(), d.get_import_list());
    let vp = ViewPath::from("a::{b, c as d, self}");
    assert_eq!(vp.clone(), vp);
    let simple = ViewPath::from("a::b as c");
    assert_eq!(simple.clone(), simple);
    let glob = ViewPath::from("a::*");
    assert_eq!(glob.clone(), glob);
    let item = Item("n".to_string(), Some("m".to_string()));
    assert_eq!(item.clone(), item);
}

#[test]
fn combine_with_merges_children_by_segment() {
    let mut a = ImportNode {
        has_self: false,
        has_glob: false,
        renames: Vec::new(),
        children: vec![("b".to_string(), leaf(true, false, &[])),
                       ("d".to_string(), leaf(false, false, &["x"]))],
    };
    let b = ImportNode {
        has_self: true,
        has_glob: false,
        renames: Vec::new(),
        children: vec![("a".to_string(), leaf(false, true, &[])),
                       ("d".to_string(), leaf(true, false, &["w"])),
                       ("e".to_string(), leaf(true, false, &[]))],
    };
    a.combine_with(&b);
    assert_eq!(a,
               ImportNode {
                   has_self: true,
                   has_glob: false,
                   renames: Vec::new(),
                   children: vec![("a".to_string(), leaf(false, true, &[])),
                                  ("b".to_string(), leaf(true, false, &[])),
                                  ("d".to_string(), leaf(true, false, &["w", "x"])),
                                  ("e".to_string(), leaf(true, false, &[]))],
               });
}

#[test]
fn combine_with_in_either_order() {
    let x = ImportNode {
        has_self: true,
        has_glob: false,
        renames: strings(&["q"]),
        children: vec![("k".to_string(), leaf(true, false, &["r"]))],
    };
    let y = ImportNode {
        has_self: false,
        has_glob: true,
        renames: strings(&["p", "q"]),
        children: vec![("j".to_string(), leaf(false, true, &[])),
                       ("k".to_string(), leaf(false, false, &["a"]))],
    };
    let mut xy = x.clone();
    xy.combine_with(&y);
    let mut yx = y.clone();
    yx.combine_with(&x);
    assert_eq!(xy, yx);
    let mut xx = x.clone();
    xx.combine_with(&x);
    assert_eq!(xx, x);
}

#[test]
fn find_child_by_segment() {
    let n = ImportNode {
        has_self: false,
        has_glob: false,
        renames: Vec::new(),
        children: vec![("b".to_string(), leaf(true, false, &[])),
                       ("d".to_string(), leaf(true, false, &[]))],
    };
    assert_eq!(n.find_child("a"), (0, false));
    assert_eq!(n.find_child("b"), (0, true));
    assert_eq!(n.find_child("c"), (1, false));
    assert_eq!(n.find_child("d"), (1, true));
    assert_eq!(n.find_child("e"), (2, false));
}

#[test]
fn clone_copies_the_whole_node() {
    let n = ImportNode {
        has_self: true,
        has_glob: true,
        renames: strings(&["a", "b"]),
        children: vec![("k".to_string(),
                        ImportNode {
                            has_self: false,
                            has_glob: false,
                            renames: strings(&["z"]),
                            children: vec![("m".to_string(), leaf(true, false, &[]))],
                        })],
    };
    assert_eq!(n.clone(), n);
}

#[test]
fn new_combiner_writes_nothing() {
    assert_eq!(ImportCombiner::new().get_import_list(), Vec::<ViewPath>::new());
    assert_eq!(combine_imports(&[]), Vec::<ViewPath>::new());
}

#[test]
fn add_import_makes_the_nodes_on_the_way() {
    let mut c = ImportCombiner::new();
    c.add_import(&ViewPath::from("a::b::c::*"));
    assert_eq!(c.get_import_list(), parsed(&["a::b::c::*"]));
    c.add_import(&ViewPath::from("a as x"));
    assert_eq!(c.get_import_list(), parsed(&["a as x", "a::b::c::*"]));
}

#[test]
fn combine_with_puts_the_receivers_children_in_order() {
    let mut a = ImportNode {
        has_self: false,
        has_glob: false,
        renames: Vec::new(),
        children: vec![("d".to_string(), leaf(true, false, &[])),
                       ("b".to_string(), leaf(false, true, &[])),
                       ("d".to_string(), leaf(false, false, &["late"])),
                       ("a".to_string(), leaf(false, false, &["x"]))],
    };
    assert!(!a.children_in_order());
    let b = ImportNode {
        has_self: false,
        has_glob: false,
        renames: Vec::new(),
        children: vec![("c".to_string(), leaf(true, false, &[])),
                       ("b".to_string(), leaf(true, false, &["y"]))],
    };
    a.combine_with(&b);
    assert!(a.children_in_order());
    assert_eq!(a,
               ImportNode {
                   has_self: false,
                   has_glob: false,
                   renames: Vec::new(),
                   children: vec![("a".to_string(), leaf(false, false, &["x"])),
                                  ("b".to_string(), leaf(true, true, &["y"])),
                                  ("c".to_string(), leaf(true, false, &[])),
                                  ("d".to_string(), leaf(true, false, &[]))],
               });
    let mut c = ImportNode {
        has_self: false,
        has_glob: false,
        renames: Vec::new(),
        children: vec![("z".to_string(), leaf(true, false, &[])),
                       ("y".to_string(), leaf(true, false, &[]))],
    };
    c.order_children();
    assert_eq!(c.children.iter().map(|e| e.0.as_str()).collect::<Vec<_>>(), vec!["y", "z"]);
    assert!(ImportNode::new().children_in_order());
}

#[test]
fn add_import_one_by_one_is_add_imports() {
    let vps = parsed(&["a::b::{c, d as e}", "a::b::*", "a as z", "q"]);
    let refs: Vec<&ViewPath> = vps.iter().collect();
    let mut one = ImportCombiner::new();
    for vp in vps.iter() {
        one.add_import(vp);
    }
    let mut all = ImportCombiner::new();
    all.add_imports(&refs);
    assert_eq!(one, all);
    assert_eq!(one.get_import_list(), parsed(&["a as z", "a::b::*", "a::b::d as e", "q"]));
    assert_eq!(combine_imports(&refs), one.get_import_list());
}

#[test]
fn imports_at_the_empty_path_are_written() {
    let root_self = ViewPath::ViewPathSimple(Vec::new(), None);
    let root_glob = ViewPath::ViewPathGlob(Vec::new());
    let root_alias = ViewPath::ViewPathSimple(Vec::new(), Some("r".to_string()));
    assert_eq!(combine_imports(&[&root_glob, &root_alias, &root_self]),
               vec![root_self.clone(), root_alias.clone(), root_glob.clone()]);
    let list = ViewPath::ViewPathList(Vec::new(),
                                      vec![Item("self".to_string(), Some("s".to_string())),
                                           Item("self".to_string(), None)]);
    assert_eq!(combine_imports(&[&list, &root_alias]),
               vec![ViewPath::ViewPathList(Vec::new(),
                                           vec![Item("self".to_string(), None),
                                                Item("self".to_string(), Some("r".to_string())),
                                                Item("self".to_string(), Some("s".to_string()))])]);
}

#[test]
fn three_names_at_the_top_make_a_list_at_the_empty_path() {
    assert_eq!(combine(&["c", "a", "b"]),
               vec![ViewPath::ViewPathList(Vec::new(),
                                           vec![Item("a".to_string(), None),
                                                Item("b".to_string(), None),
                                                Item("c".to_string(), None)])]);
    assert_eq!(combine(&["b", "a"]), parsed(&["a", "b"]));
}

#[test]
fn a_list_without_items_adds_nothing() {
    let empty = ViewPath::ViewPathList(strings(&["a", "b"]), Vec::new());
    assert_eq!(combine_imports(&[&empty]), Vec::<ViewPath>::new());
}

#[test]
fn bundle_of_two_is_written_one_by_one() {
    assert_eq!(combine(&["a::b", "a::b as x"]), parsed(&["a::b", "a::b as x"]));
    assert_eq!(combine(&["a::b as y", "a::b as x"]), parsed(&["a::b as x", "a::b as y"]));
    assert_eq!(combine(&["a::b::c", "a::b::d"]), parsed(&["a::b::c", "a::b::d"]));
    assert_eq!(combine(&["a::b", "a::b::c"]), parsed(&["a::b", "a::b::c"]));
    assert_eq!(combine(&["a::b::c as x", "a::b::c"]), parsed(&["a::b::c", "a::b::c as x"]));
}

#[test]
fn bundle_of_three_is_written_as_a_list() {
    assert_eq!(combine(&["a::b", "a::b as x", "a::b as y"]),
               parsed(&["a::{b, b as x, b as y}"]));
    assert_eq!(combine(&["a::b::c", "a::b::d", "a::b::e"]), parsed(&["a::b::{c, d, e}"]));
    assert_eq!(combine(&["a::b", "a::b::c", "a::b::c as x"]),
               parsed(&["a::b::{self, c, c as x}"]));
    assert_eq!(combine(&["a::b::c", "a::b::c as y", "a::b::c as x"]),
               parsed(&["a::b::{c, c as x, c as y}"]));
}

#[test]
fn a_child_in_its_parents_short_bundle_may_still_write_its_own_list() {
    assert_eq!(combine(&["a::b", "a::b as x", "a::b::c"]),
               vec![ViewPath::ViewPathList(strings(&["a", "b"]),
                                           vec![Item("self".to_string(), None),
                                                Item("self".to_string(), Some("x".to_string())),
                                                Item("c".to_string(), None)])]);
}

#[test]
fn a_list_takes_in_names_and_aliases_of_the_children() {
    assert_eq!(combine(&["a::{b, c, d}", "a::b::x", "a::c as cc", "a::c::*"]),
               parsed(&["a::{b, c, c as cc, d}", "a::b::x", "a::c::*"]));
}

#[test]
fn wildcard_absorbs_bare_children_only() {
    assert_eq!(combine(&["a::b::c", "a::b::*"]), parsed(&["a::b::*"]));
    assert_eq!(combine(&["a::b::c", "a::b::c as x", "a::b::*"]),
               parsed(&["a::b::*", "a::b::c as x"]));
    assert_eq!(combine(&["a::b::{self, c, d, d as dd, e}", "a::b::*"]),
               parsed(&["a::b", "a::b::*", "a::b::d as dd"]));
    assert_eq!(combine(&["a::*", "a::b::c"]), parsed(&["a::*", "a::b::c"]));
    assert_eq!(combine(&["a::*", "a::b", "a::b::c", "a::b::d", "a::b::e"]),
               parsed(&["a::*", "a::b::{c, d, e}"]));
}

#[test]
fn wildcard_comes_after_the_named_forms() {
    assert_eq!(combine(&["a::*", "a", "a as x"]), parsed(&["a", "a as x", "a::*"]));
    assert_eq!(combine(&["a::*", "a", "a as x", "a as y"]),
               vec![ViewPath::ViewPathList(Vec::new(),
                                           vec![Item("a".to_string(), None),
                                                Item("a".to_string(), Some("x".to_string())),
                                                Item("a".to_string(), Some("y".to_string()))]),
                    ViewPath::ViewPathGlob(strings(&["a"]))]);
    assert_eq!(combine(&["a::b::*", "a::b::c as x", "a::b::d as y", "a::b::e as z"]),
               parsed(&["a::b::{c as x, d as y, e as z}", "a::b::*"]));
}

#[test]
fn output_is_the_same_for_every_order_of_the_input() {
    let lines = ["a::b::c", "a::b::*", "a::b as y", "a::b::d as e", "x::{self, y as z}", "a"];
    let expected = combine(&lines);
    let n = lines.len();
    let mut idx: Vec<usize> = (0..n).collect();
    let mut count = 0;
    loop {
        let perm: Vec<&str> = idx.iter().map(|i| lines[*i]).collect();
        assert_eq!(combine(&perm), expected, "{:?}", perm);
        count += 1;
        let mut i = n - 1;
        while i > 0 && idx[i - 1] >= idx[i] {
            i -= 1;
        }
        if i == 0 {
            break;
        }
        let mut j = n - 1;
        while idx[j] <= idx[i - 1] {
            j -= 1;
        }
        idx.swap(i - 1, j);
        idx[i..].reverse();
    }
    assert_eq!(count, 720);
}

#[test]
fn repeating_a_declaration_changes_nothing() {
    let once = combine(&["a::b::c", "a::b as x", "a::*"]);
    let twice = combine(&["a::b::c", "a::*", "a::b as x", "a::b::c", "a::*", "a::b as x"]);
    assert_eq!(once, twice);
    assert_eq!(combine(&["a::{b, b, b}"]), parsed(&["a::b"]));
}

#[test]
fn combining_the_output_again_changes_nothing() {
    for lines in [&["a::b::c", "a::b::*", "a::b as y", "a::b::d as e"][..],
                  &["a::b::{g,h,a,b}", "a::b::{c,h as fgh,d,e}", "a::b"][..],
                  &["c", "a", "b", "a::x", "::r::s"][..]]
        .iter() {
        let out = combine(lines);
        let refs: Vec<&ViewPath> = out.iter().collect();
        assert_eq!(combine_imports(&refs), out);
    }
}

#[test]
fn segments_come_in_the_order_of_strings() {
    assert_eq!(combine(&["b::x", "B::x", "a::x", "_::x", "a0::x", "::x", "é::x"]),
               parsed(&["::x", "B::x", "_::x", "a::x", "a0::x", "b::x", "é::x"]));
}
