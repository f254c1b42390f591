//! A small textual form of declarations: `a::b::c`, `a::b::c as d`,
//! `a::b::*` and `a::b::{self, c, d as e}`.

use vstd::prelude::*;
use vstd::std_specs::convert::FromSpecImpl;
use crate::decl::{Decl, Item, ItemView, Path, ViewPath};
use crate::text::{chars_of, char_is_space, is_space, str_eq};

verus! {

/// `sep` stands in `s` at index `i`.
pub open spec fn occurs_at(s: Seq<char>, sep: Seq<char>, i: int) -> bool {
    0 <= i && i + sep.len() <= s.len() && s.subrange(i, i + sep.len()) == sep
}

/// The first index from `from` on at which `sep`, which is not empty,
/// stands in `s`.
pub open spec fn find_from(s: Seq<char>, sep: Seq<char>, from: int) -> Option<int>
    decreases s.len() - from,
{
    if from < 0 || sep.len() == 0 || from + sep.len() > s.len() {
        None
    } else if occurs_at(s, sep, from) {
        Some(from)
    } else {
        find_from(s, sep, from + 1)
    }
}

/// The pieces of `s` between the occurrences of `sep`, which are taken
/// from the left and do not overlap. There is always at least one piece.
pub open spec fn split(s: Seq<char>, sep: Seq<char>) -> Seq<Seq<char>>
    decreases s.len(),
{
    match find_from(s, sep, 0) {
        Some(i) => if sep.len() > 0 && occurs_at(s, sep, i) {
            seq![s.take(i)] + split(s.skip(i + sep.len()), sep)
        } else {
            seq![s]
        },
        None => seq![s],
    }
}

/// `s` without the white space at its start.
pub open spec fn trim_start(s: Seq<char>) -> Seq<char>
    decreases s.len(),
{
    if s.len() > 0 && is_space(s[0]) {
        trim_start(s.drop_first())
    } else {
        s
    }
}

/// `s` without the white space at its end.
pub open spec fn trim_end(s: Seq<char>) -> Seq<char>
    decreases s.len(),
{
    if s.len() > 0 && is_space(s.last()) {
        trim_end(s.drop_last())
    } else {
        s
    }
}

/// `s` without the white space at its start and at its end.
pub open spec fn trim(s: Seq<char>) -> Seq<char> {
    trim_end(trim_start(s))
}

/// The number of characters before the first white space of `s`.
pub open spec fn word_len(s: Seq<char>) -> nat
    decreases s.len(),
{
    if s.len() == 0 || is_space(s[0]) {
        0
    } else {
        1 + word_len(s.drop_first())
    }
}

/// A word is no longer than the text it starts, and is not empty where
/// the text starts with a character that is not white space.
pub proof fn lemma_word_len(s: Seq<char>)
    ensures
        word_len(s) <= s.len(),
        s.len() > 0 && !is_space(s[0]) ==> word_len(s) >= 1,
    decreases s.len(),
{
    if s.len() > 0 && !is_space(s[0]) {
        lemma_word_len(s.drop_first());
    }
}

/// The words of `s`: its longest runs of characters that are not white
/// space.
pub open spec fn words(s: Seq<char>) -> Seq<Seq<char>>
    decreases s.len(),
{
    if s.len() == 0 {
        Seq::empty()
    } else if is_space(s[0]) {
        words(s.drop_first())
    } else {
        proof {
            lemma_word_len(s);
        }
        seq![s.take(word_len(s) as int)] + words(s.skip(word_len(s) as int))
    }
}

/// The item that `s` denotes: `name as alias` where `s` has exactly these
/// three words; else all of `s`, trimmed, as a name without alias.
pub open spec fn item_of(s: Seq<char>) -> ItemView {
    let t = trim(s);
    let w = words(t);
    if w.len() == 3 && w[1] == "as"@ {
        ItemView { name: w[0], alias: Some(w[2]) }
    } else {
        ItemView { name: t, alias: None }
    }
}

/// `s` is enclosed in braces.
pub open spec fn wrapped(s: Seq<char>) -> bool {
    s.len() >= 2 && s[0] == '{' && s.last() == '}'
}

/// The items that the pieces `parts` denote.
pub open spec fn items_of(parts: Seq<Seq<char>>) -> Seq<ItemView> {
    Seq::new(parts.len(), |i: int| item_of(parts[i]))
}

/// The declaration that `s` denotes. All segments but the last are the
/// base path. A last segment `*` gives a wildcard import of the base path;
/// one in braces gives a list of the items between the commas, or, where
/// the only item is `self`, an import of the base path itself; any other is
/// an item whose name is the last segment of the imported path.
pub open spec fn decl_of(s: Seq<char>) -> Decl {
    let path = split(s, "::"@);
    let base = path.drop_last();
    let last = path.last();
    if last == "*"@ {
        Decl::Glob(base)
    } else if wrapped(last) {
        let items = items_of(split(last.subrange(1, last.len() - 1), ","@));
        if items.len() == 1 && items[0].name == "self"@ {
            Decl::Simple(base, items[0].alias)
        } else {
            Decl::List(base, items)
        }
    } else {
        Decl::Simple(base.push(item_of(last).name), item_of(last).alias)
    }
}

/// Splitting gives at least one piece.
pub proof fn lemma_split_nonempty(s: Seq<char>, sep: Seq<char>)
    ensures
        split(s, sep).len() >= 1,
{
}

/// Whether the characters `ps` stand in `cs` at index `i`.
fn occurs(cs: &Vec<char>, ps: &Vec<char>, i: usize) -> (r: bool)
    requires
        i + ps.len() <= cs.len(),
    ensures
        r == occurs_at(cs@, ps@, i as int),
{
    let mut j: usize = 0;
    while j < ps.len()
        invariant
            j <= ps.len(),
            i + ps.len() <= cs.len(),
            forall|k: int| 0 <= k < j ==> cs[i + k] == ps[k],
        decreases ps.len() - j,
    {
        if cs[i + j] != ps[j] {
            assert(cs@.subrange(i as int, i + ps.len())[j as int] == cs[i + j]);
            return false;
        }
        j += 1;
    }
    assert(cs@.subrange(i as int, i + ps.len()) =~= ps@);
    true
}

/// Splits `s` at each occurrence of `sep`.
pub fn split_text(s: &str, sep: &str) -> (out: Vec<String>)
    requires
        sep@.len() > 0,
    ensures
        out.deep_view() == split(s@, sep@),
{
    let cs = chars_of(s);
    let ps = chars_of(sep);
    let n = cs.len();
    let m = ps.len();
    let mut out: Vec<String> = Vec::new();
    let mut start: usize = 0;
    let mut i: usize = 0;
    assert(s@.skip(0) =~= s@);
    assert(out.deep_view() =~= Seq::empty());
    while m <= n && i <= n - m
        invariant
            cs@ == s@,
            ps@ == sep@,
            n == cs.len(),
            m == ps.len(),
            m > 0,
            start <= i <= n,
            split(s@, sep@) =~= out.deep_view() + split(s@.skip(start as int), sep@),
            find_from(s@.skip(start as int), sep@, 0) == find_from(
                s@.skip(start as int),
                sep@,
                i - start,
            ),
        decreases n - i,
    {
        let ghost rest = s@.skip(start as int);
        proof {
            assert(rest.subrange(i - start, i - start + m) =~= s@.subrange(i as int, i + m));
        }
        if occurs(&cs, &ps, i) {
            let ghost prev = out.deep_view();
            out.push(s.substring_char(start, i).to_owned());
            proof {
                assert(rest.take(i - start) =~= s@.subrange(start as int, i as int));
                assert(rest.skip(i - start + m) =~= s@.skip(i + m));
                assert(out.deep_view() =~= prev.push(s@.subrange(start as int, i as int)));
            }
            start = i + m;
            i = start;
        } else {
            i += 1;
        }
    }
    let ghost prev = out.deep_view();
    out.push(s.substring_char(start, n).to_owned());
    proof {
        assert(s@.subrange(start as int, n as int) =~= s@.skip(start as int));
        assert(out.deep_view() =~= prev.push(s@.skip(start as int)));
    }
    out
}

/// Where `trim` of the characters `cs` starts and ends.
fn trim_bounds(cs: &Vec<char>) -> (r: (usize, usize))
    ensures
        r.0 <= r.1 <= cs.len(),
        cs@.subrange(r.0 as int, r.1 as int) == trim(cs@),
{
    let n = cs.len();
    let mut lo: usize = 0;
    assert(cs@.skip(0) =~= cs@);
    while lo < n && char_is_space(cs[lo])
        invariant
            lo <= n,
            n == cs.len(),
            trim_start(cs@) == trim_start(cs@.skip(lo as int)),
        decreases n - lo,
    {
        assert(cs@.skip(lo as int).drop_first() =~= cs@.skip(lo + 1));
        lo += 1;
    }
    let mut hi: usize = n;
    assert(cs@.subrange(lo as int, n as int) =~= cs@.skip(lo as int));
    while hi > lo && char_is_space(cs[hi - 1])
        invariant
            lo <= hi <= n,
            n == cs.len(),
            trim(cs@) == trim_end(cs@.subrange(lo as int, hi as int)),
        decreases hi,
    {
        assert(cs@.subrange(lo as int, hi as int).drop_last() =~= cs@.subrange(
            lo as int,
            hi - 1,
        ));
        hi -= 1;
    }
    (lo, hi)
}

/// The words of `s`.
pub fn split_words(s: &str) -> (out: Vec<String>)
    ensures
        out.deep_view() == words(s@),
{
    let cs = chars_of(s);
    let n = cs.len();
    let mut out: Vec<String> = Vec::new();
    let mut i: usize = 0;
    assert(s@.skip(0) =~= s@);
    assert(out.deep_view() =~= Seq::empty());
    while i < n
        invariant
            cs@ == s@,
            n == cs.len(),
            i <= n,
            words(s@) =~= out.deep_view() + words(s@.skip(i as int)),
        decreases n - i,
    {
        let ghost rest = s@.skip(i as int);
        if char_is_space(cs[i]) {
            assert(rest.drop_first() =~= s@.skip(i + 1));
            i += 1;
        } else {
            let mut j: usize = i + 1;
            assert(rest.skip(1) =~= rest.drop_first());
            while j < n && !char_is_space(cs[j])
                invariant
                    cs@ == s@,
                    n == cs.len(),
                    i < j <= n,
                    rest == s@.skip(i as int),
                    word_len(rest) == (j - i) + word_len(rest.skip(j - i)),
                decreases n - j,
            {
                assert(rest.skip(j - i).drop_first() =~= rest.skip(j - i + 1));
                j += 1;
            }
            let ghost prev = out.deep_view();
            out.push(s.substring_char(i, j).to_owned());
            proof {
                assert(word_len(rest) == j - i);
                assert(rest.take(j - i) =~= s@.subrange(i as int, j as int));
                assert(rest.skip(j - i) =~= s@.skip(j as int));
                assert(out.deep_view() =~= prev.push(s@.subrange(i as int, j as int)));
            }
            i = j;
        }
    }
    out
}

/// Splits a path at each `::`.
pub fn as_path(p: &str) -> (r: Path)
    ensures
        r.deep_view() == split(p@, "::"@),
        r.len() >= 1,
{
    proof {
        reveal_strlit("::");
        lemma_split_nonempty(p@, "::"@);
    }
    split_text(p, "::")
}

impl<'a> From<&'a str> for Item {
    /// Reads one item: `name`, or `name as alias`.
    fn from(s: &'a str) -> (r: Item)
        ensures
            r@ == item_of(s@),
    {
        let cs = chars_of(s);
        let (lo, hi) = trim_bounds(&cs);
        let trimmed = s.substring_char(lo, hi);
        let elements = split_words(trimmed);
        if elements.len() == 3 && str_eq(elements[1].as_str(), "as") {
            Item(elements[0].clone(), Some(elements[2].clone()))
        } else {
            Item(trimmed.to_owned(), None)
        }
    }
}

impl<'a> FromSpecImpl<&'a str> for Item {
    open spec fn obeys_from_spec() -> bool {
        false
    }

    open spec fn from_spec(s: &'a str) -> Item {
        arbitrary()
    }
}

/// The items between the commas of `inner`.
fn read_items(inner: &str) -> (items: Vec<Item>)
    ensures
        items.deep_view() == items_of(split(inner@, ","@)),
{
    proof {
        reveal_strlit(",");
    }
    let parts = split_text(inner, ",");
    let mut items: Vec<Item> = Vec::new();
    let mut k: usize = 0;
    while k < parts.len()
        invariant
            k <= parts.len(),
            items.len() == k,
            forall|j: int| 0 <= j < k ==> #[trigger] items[j].deep_view() == item_of(parts[j]@),
        decreases parts.len() - k,
    {
        items.push(Item::from(parts[k].as_str()));
        k += 1;
    }
    assert(items.deep_view() =~= items_of(parts.deep_view()));
    items
}

impl<'a> From<&'a str> for ViewPath {
    /// Reads one declaration.
    fn from(s: &'a str) -> (r: ViewPath)
        ensures
            r@ == decl_of(s@),
    {
        let mut trimmed_path = as_path(s);
        let ghost path = trimmed_path.deep_view();
        let last = trimmed_path.pop().unwrap();
        assert(trimmed_path.deep_view() =~= path.drop_last());
        assert(last@ == path.last());
        let cs = chars_of(last.as_str());
        let n = cs.len();
        if str_eq(last.as_str(), "*") {
            ViewPath::ViewPathGlob(trimmed_path)
        } else if n >= 2 && cs[0] == '{' && cs[n - 1] == '}' {
            let mut items = read_items(last.as_str().substring_char(1, n - 1));
            if items.len() == 1 && str_eq(items[0].0.as_str(), "self") {
                let only = items.pop().unwrap();
                ViewPath::ViewPathSimple(trimmed_path, only.1)
            } else {
                ViewPath::ViewPathList(trimmed_path, items)
            }
        } else {
            let last_path_element_as_item = Item::from(last.as_str());
            let ghost base = trimmed_path.deep_view();
            trimmed_path.push(last_path_element_as_item.0);
            assert(trimmed_path.deep_view() =~= base.push(item_of(last@).name));
            ViewPath::ViewPathSimple(trimmed_path, last_path_element_as_item.1)
        }
    }
}

impl<'a> FromSpecImpl<&'a str> for ViewPath {
    open spec fn obeys_from_spec() -> bool {
        false
    }

    open spec fn from_spec(s: &'a str) -> ViewPath {
        arbitrary()
    }
}

} // verus!
