use import_combiner::emit::CONFIG_MIN_IMPORT_ITEM_LIST_LENGTH;
use import_combiner::{combine_imports, Item, ViewPath};
use std::collections::BTreeSet;

fn strings(v: &[&str]) -> Vec<String> {
    v.iter().map(|s| s.to_string()).collect()
}

fn parsed(lines: &[&str]) -> Vec<ViewPath> {
    lines.iter().map(|l| ViewPath::from(*l)).collect()
}

fn combine_all(vps: &[ViewPath]) -> Vec<ViewPath> {
    let refs: Vec<&ViewPath> = vps.iter().collect();
    combine_imports(&refs)
}

fn combine(lines: &[&str]) -> Vec<ViewPath> {
    combine_all(&parsed(lines))
}

fn local_name(path: &[String], alias: &Option<String>) -> String {
    match alias {
        Some(a) => a.clone(),
        None => path.last().cloned().unwrap_or_default(),
    }
}

/// The bindings that the declarations spell out, as pairs of a path and a local name.
fn named(list: &[ViewPath]) -> BTreeSet<(Vec<String>, String)> {
    let mut out = BTreeSet::new();
    for vp in list {
        match vp {
            ViewPath::ViewPathSimple(p, alias) => {
                out.insert((p.clone(), local_name(p, alias)));
            }
            ViewPath::ViewPathGlob(_) => {}
            ViewPath::ViewPathList(p, items) => {
                for Item(name, alias) in items {
                    let mut target = p.clone();
                    if name != "self" {
                        target.push(name.clone());
                    }
                    let local = local_name(&target, alias);
                    out.insert((target, local));
                }
            }
        }
    }
    out
}

fn wildcards(list: &[ViewPath]) -> BTreeSet<Vec<String>> {
    let mut out = BTreeSet::new();
    for vp in list {
        if let ViewPath::ViewPathGlob(p) = vp {
            out.insert(p.clone());
        }
    }
    out
}

fn covered(b: &(Vec<String>, String), globs: &BTreeSet<Vec<String>>) -> bool {
    match b.0.split_last() {
        Some((last, above)) => *last == b.1 && globs.contains(above),
        None => false,
    }
}

fn assert_same_bindings(input: &[ViewPath], output: &[ViewPath]) {
    let (gi, go) = (wildcards(input), wildcards(output));
    assert_eq!(gi, go);
    let (ni, no) = (named(input), named(output));
    for b in ni.iter() {
        assert!(no.contains(b) || covered(b, &go), "lost {:?}", b);
    }
    for b in no.iter() {
        assert!(ni.contains(b) || covered(b, &gi), "made up {:?}", b);
    }
}

#[test]
fn least_list_length_is_three() {
    assert_eq!(CONFIG_MIN_IMPORT_ITEM_LIST_LENGTH, 3);
}

#[test]
fn output_binds_what_the_input_binds() {
    let inputs: Vec<Vec<&str>> = vec![
        vec!["a::b::c", "a::b::*"],
        vec!["a::b::{self, c, d, d as dd, e}", "a::b::*"],
        vec!["a::b::c", "a::b::e", "a::b::d", "a::b::b", "a::b::h", "a::b::k", "a::b", "a"],
        vec!["a::{b, b as x, b as y}", "a::b::{c, d}", "a::*", "a::b::c::*", "::r", "::r as q"],
        vec!["c", "a", "b", "a as aa", "b::*"],
        vec!["x::y as z", "x::y as w", "x::y", "x::y::{self as v, k as z}"],
    ];
    for lines in inputs.iter() {
        let input = parsed(lines);
        let output = combine_all(&input);
        assert_same_bindings(&input, &output);
    }
    let root = vec![ViewPath::ViewPathSimple(Vec::new(), None),
                    ViewPath::ViewPathSimple(Vec::new(), Some("r".to_string())),
                    ViewPath::ViewPathGlob(Vec::new()),
                    ViewPath::ViewPathSimple(strings(&["k"]), None)];
    assert_same_bindings(&root, &combine_all(&root));
}

#[test]
fn a_segment_named_self_in_a_list_reads_as_the_lists_own_path() {
    let input = parsed(&["a::self", "a::b", "a::c"]);
    let output = combine_all(&input);
    assert_eq!(output,
               vec![ViewPath::ViewPathList(strings(&["a"]),
                                           vec![Item("b".to_string(), None),
                                                Item("c".to_string(), None),
                                                Item("self".to_string(), None)])]);
    assert!(named(&input).contains(&(strings(&["a", "self"]), "self".to_string())));
    assert!(!named(&output).contains(&(strings(&["a", "self"]), "self".to_string())));
    let short = parsed(&["a::self", "a::b"]);
    assert_eq!(combine_all(&short), parsed(&["a::b", "a::self"]));
    assert_same_bindings(&short, &combine_all(&short));
}

#[test]
fn wildcard_with_self_and_one_alias_stays_below_the_list_length() {
    assert_eq!(combine(&["a::b::{self, c, d, d as dd, e}", "a::b::*"]),
               parsed(&["a::b", "a::b::*", "a::b::d as dd"]));
    assert_eq!(combine(&["a::b::{self, self as x, c, d, d as dd, e}", "a::b::*"]),
               parsed(&["a::b::{self, self as x, d as dd}", "a::b::*"]));
}

#[test]
fn plain_child_is_absorbed_by_the_wildcard() {
    assert_eq!(combine(&["a::b::c", "a::b::*"]), parsed(&["a::b::*"]));
}

#[test]
fn seven_items_make_one_list_after_the_parent() {
    assert_eq!(combine(&["a::b::c", "a::b::e", "a::b::d", "a::b::b", "a::b::h", "a::b::k", "a::b",
                         "a"]),
               parsed(&["a", "a::b::{self,b,c,d,e,h,k}"]));
}

#[test]
fn no_written_list_is_shorter_than_three() {
    let inputs: Vec<Vec<&str>> = vec![
        vec!["a::{b, c}", "a::b::{x, y}", "a::c::{x, y, z}"],
        vec!["a", "a as b", "a::*", "a::k", "a::k as l"],
        vec!["a::b", "a::b as x", "a::b::c"],
    ];
    for lines in inputs.iter() {
        for vp in combine(lines).iter() {
            if let ViewPath::ViewPathList(_, items) = vp {
                assert!(items.len() >= 3, "{:?}", vp);
            }
        }
    }
}

#[test]
fn aliases_below_a_wildcard_are_kept() {
    let out = combine(&["a::*", "a::b", "a::b as x", "a::c as y", "a::d"]);
    assert_eq!(out, parsed(&["a::*", "a::b as x", "a::c as y"]));
    let out = combine(&["a::*", "a::b", "a::b as x", "a::c as y", "a::d as z", "a::e"]);
    assert_eq!(out, parsed(&["a::{b as x, c as y, d as z}", "a::*"]));
}

fn path_of(vp: &ViewPath) -> &Vec<String> {
    match vp {
        ViewPath::ViewPathSimple(p, _) => p,
        ViewPath::ViewPathGlob(p) => p,
        ViewPath::ViewPathList(p, _) => p,
    }
}

/// How often the list declares `path` under `alias`, in any of the three forms.
fn alias_count(list: &[ViewPath], path: &[String], alias: &str) -> usize {
    let mut n = 0;
    for vp in list {
        match vp {
            ViewPath::ViewPathSimple(p, Some(a)) => {
                if p.as_slice() == path && a == alias {
                    n += 1;
                }
            }
            ViewPath::ViewPathList(p, items) => {
                for Item(name, a) in items {
                    let mut target = p.clone();
                    if name != "self" {
                        target.push(name.clone());
                    }
                    if target.as_slice() == path && a.as_deref() == Some(alias) {
                        n += 1;
                    }
                }
            }
            _ => {}
        }
    }
    n
}

#[test]
fn a_bare_import_below_a_wildcard_changes_nothing_wherever_it_is_added() {
    let inputs: Vec<Vec<&str>> = vec![
        vec!["a::b::*"],
        vec!["a::b::*", "a::b::c as x", "a::b", "a"],
        vec!["a::b::{self, d as dd, e}", "a::b::*", "a::b::c::k", "q"],
        vec!["a::b::{x as y, z as w, v as u}", "a::b::*"],
    ];
    for lines in inputs.iter() {
        let expected = combine(lines);
        for extra in ["a::b::c", "a::b::zz", "a::b::self", "a::b::e"].iter() {
            for at in 0..=lines.len() {
                let mut with = lines.clone();
                with.insert(at, *extra);
                assert_eq!(combine(&with), expected, "{:?}", with);
            }
        }
    }
    let root = vec![ViewPath::ViewPathGlob(Vec::new()), ViewPath::from("k as l")];
    let mut with = root.clone();
    with.push(ViewPath::from("m"));
    assert_eq!(combine_all(&with), combine_all(&root));
}

#[test]
fn nothing_below_a_wildcard_is_declared_under_its_own_name() {
    let out = combine(&["a::b::*", "a::b::c", "a::b::d", "a::b::e", "a::b::c as x", "a::b::c::k",
                        "a::b::d::{m, n, o}", "a::b"]);
    assert_eq!(out,
               parsed(&["a::b", "a::b::*", "a::b::c as x", "a::b::c::k", "a::b::d::{m, n, o}"]));
    let below = strings(&["a", "b"]);
    for (path, name) in named(&out).iter() {
        if path.len() == 3 && path[..2] == below[..] {
            assert_ne!(name, &path[2], "{:?}", path);
        }
    }
}

#[test]
fn a_path_with_a_list_has_no_other_declaration_of_its_own_or_of_its_children() {
    let inputs: Vec<Vec<&str>> = vec![
        vec!["a::{b, c, d}", "a", "a as x", "a::b as y", "a::b::k", "a::c::*"],
        vec!["a::b", "a::b as x", "a::b::c", "a::b::c as d", "a::b::c::e"],
        vec!["c", "a", "b", "a as aa", "b::*", "b::k"],
    ];
    for lines in inputs.iter() {
        let out = combine(lines);
        for (i, vp) in out.iter().enumerate() {
            if let ViewPath::ViewPathList(p, items) = vp {
                assert!(items.len() >= 3);
                for (j, other) in out.iter().enumerate() {
                    if i == j {
                        continue;
                    }
                    match other {
                        ViewPath::ViewPathList(q, _) => assert_ne!(q, p),
                        ViewPath::ViewPathSimple(q, _) => {
                            assert_ne!(q, p);
                            assert!(!(q.len() == p.len() + 1 && q[..p.len()] == p[..]),
                                    "{:?} beside {:?}", other, vp);
                        }
                        ViewPath::ViewPathGlob(_) => {}
                    }
                }
            }
        }
    }
}

#[test]
fn each_alias_is_written_once() {
    let inputs: Vec<Vec<&str>> = vec![
        vec!["a::b::c as x", "a::b::{c as x, d}", "a::b::*", "a::b::c as x"],
        vec!["a::b as x", "a::{b as x, b as y, b}", "a::b::{self as x, k}"],
        vec!["a::b as x", "a::b", "a::b::c", "a::b::{self as z}"],
        vec!["p as q", "p as q", "r", "s", "t"],
    ];
    for lines in inputs.iter() {
        let input = parsed(lines);
        let out = combine_all(&input);
        for vp in input.iter().chain(out.iter()) {
            let mut paths = vec![path_of(vp).clone()];
            if let ViewPath::ViewPathList(p, items) = vp {
                for Item(name, _) in items {
                    let mut t = p.clone();
                    t.push(name.clone());
                    paths.push(t);
                }
            }
            for path in paths.iter() {
                for alias in ["x", "y", "z", "q", "nope"].iter() {
                    let expected = if alias_count(&input, path, alias) > 0 { 1 } else { 0 };
                    assert_eq!(alias_count(&out, path, alias), expected,
                               "{:?} as {} in {:?}", path, alias, out);
                }
            }
        }
    }
}
