//! Strictly increasing sequences of names: the canonical form of a finite set
//! of names.

use vstd::prelude::*;
use crate::text::{lex_lt, lemma_lex_asymmetric, lemma_lex_irreflexive, lemma_lex_total, lemma_lex_transitive, str_eq, str_lt};

verus! {

/// A name: one path segment, or one alias.
pub type Name = Seq<char>;

/// `s` is strictly increasing, so it holds no name twice.
pub open spec fn sorted(s: Seq<Name>) -> bool {
    forall|i: int, j: int| 0 <= i < j < s.len() ==> lex_lt(#[trigger] s[i], #[trigger] s[j])
}

/// The number of leading names of `s` that come before `x`. In a sorted `s`
/// this is where `x` stands or belongs.
pub open spec fn place(s: Seq<Name>, x: Name) -> int
    decreases s.len(),
{
    if s.len() == 0 || !lex_lt(s[0], x) {
        0
    } else {
        1 + place(s.drop_first(), x)
    }
}

/// `s` with `x` put in its place, unless it stands there already.
pub open spec fn with_name(s: Seq<Name>, x: Name) -> Seq<Name> {
    let i = place(s, x);
    if i < s.len() && s[i] == x {
        s
    } else {
        s.insert(i, x)
    }
}

/// The names of `b` put one by one into `a`.
pub open spec fn union_names(a: Seq<Name>, b: Seq<Name>) -> Seq<Name>
    decreases b.len(),
{
    if b.len() == 0 {
        a
    } else {
        with_name(union_names(a, b.drop_last()), b.last())
    }
}

/// The names of `s` in order, each once.
pub open spec fn normal(s: Seq<Name>) -> Seq<Name> {
    union_names(Seq::empty(), s)
}

/// Everything before the place of `x` comes before `x`, and what stands
/// at its place does not.
pub proof fn lemma_place(s: Seq<Name>, x: Name)
    ensures
        0 <= place(s, x) <= s.len(),
        forall|j: int| 0 <= j < place(s, x) ==> lex_lt(#[trigger] s[j], x),
        place(s, x) < s.len() ==> !lex_lt(s[place(s, x)], x),
    decreases s.len(),
{
    if s.len() > 0 && lex_lt(s[0], x) {
        let t = s.drop_first();
        lemma_place(t, x);
        assert forall|j: int| 0 <= j < place(s, x) implies lex_lt(#[trigger] s[j], x) by {
            if j > 0 {
                assert(s[j] == t[j - 1]);
            }
        }
    }
}

/// Scanning from `i` on finds the same place as scanning from the start,
/// when everything before `i` comes before `x`.
pub proof fn lemma_place_skip(s: Seq<Name>, x: Name, i: int)
    requires
        0 <= i <= s.len(),
        forall|j: int| 0 <= j < i ==> lex_lt(#[trigger] s[j], x),
    ensures
        place(s, x) == i + place(s.skip(i), x),
    decreases i,
{
    if i == 0 {
        assert(s.skip(0) =~= s);
    } else {
        assert(lex_lt(s[0], x));
        let t = s.drop_first();
        assert forall|j: int| 0 <= j < i - 1 implies lex_lt(#[trigger] t[j], x) by {
            assert(t[j] == s[j + 1]);
        }
        lemma_place_skip(t, x, i - 1);
        assert(t.skip(i - 1) =~= s.skip(i));
    }
}

/// In a sorted sequence every name stands at its own place, and a name that
/// does not occur has a place where something else stands.
pub proof fn lemma_place_sorted(s: Seq<Name>, x: Name)
    requires
        sorted(s),
    ensures
        forall|j: int| 0 <= j < s.len() && s[j] == x ==> place(s, x) == j,
        forall|j: int| place(s, x) < j < s.len() ==> lex_lt(x, #[trigger] s[j]),
        place(s, x) < s.len() && s[place(s, x)] != x ==> lex_lt(x, s[place(s, x)]),
        s.contains(x) <==> (place(s, x) < s.len() && s[place(s, x)] == x),
{
    let p = place(s, x);
    lemma_place(s, x);
    if p < s.len() {
        lemma_lex_total(s[p], x);
    }
    assert forall|j: int| 0 <= j < s.len() && s[j] == x implies p == j by {
        lemma_lex_irreflexive(x);
        if p < j {
            assert(lex_lt(s[p], s[j]));
        }
    }
    assert forall|j: int| p < j < s.len() implies lex_lt(x, #[trigger] s[j]) by {
        assert(lex_lt(s[p], s[j]));
        if s[p] != x {
            lemma_lex_transitive(x, s[p], s[j]);
        }
    }
    if s.contains(x) {
        let j = choose|j: int| 0 <= j < s.len() && s[j] == x;
        assert(p == j);
    }
}

/// Putting a name into a sorted sequence keeps it sorted and adds that
/// name and no other.
pub proof fn lemma_with_name(s: Seq<Name>, x: Name)
    requires
        sorted(s),
    ensures
        sorted(with_name(s, x)),
        forall|y: Name| with_name(s, x).contains(y) <==> s.contains(y) || y == x,
{
    let p = place(s, x);
    let r = with_name(s, x);
    lemma_place(s, x);
    lemma_place_sorted(s, x);
    if p < s.len() && s[p] == x {
        assert(s.contains(x));
    } else {
        assert(r == s.insert(p, x));
        assert forall|i: int, j: int| 0 <= i < j < r.len() implies lex_lt(
            #[trigger] r[i],
            #[trigger] r[j],
        ) by {
            if j < p {
                assert(r[i] == s[i] && r[j] == s[j]);
            } else if j == p {
                assert(r[i] == s[i]);
            } else if i < p {
                assert(r[i] == s[i] && r[j] == s[j - 1]);
                if j - 1 == i {
                } else {
                    assert(lex_lt(s[i], s[j - 1]));
                }
                lemma_lex_transitive(s[i], x, s[j - 1]);
            } else if i == p {
                assert(r[j] == s[j - 1]);
                if j - 1 == p {
                } else {
                    assert(lex_lt(x, s[j - 1]));
                }
            } else {
                assert(r[i] == s[i - 1] && r[j] == s[j - 1]);
            }
        }
        assert forall|y: Name| r.contains(y) <==> s.contains(y) || y == x by {
            if r.contains(y) {
                let j = choose|j: int| 0 <= j < r.len() && r[j] == y;
                if j < p {
                    assert(s[j] == y);
                } else if j > p {
                    assert(s[j - 1] == y);
                }
            }
            if s.contains(y) {
                let j = choose|j: int| 0 <= j < s.len() && s[j] == y;
                if j < p {
                    assert(r[j] == y);
                } else {
                    assert(r[j + 1] == y);
                }
            }
            if y == x {
                assert(r[p] == x);
            }
        }
    }
}

/// The union of a sorted sequence with any other is sorted and holds the
/// names of both.
pub proof fn lemma_union_names(a: Seq<Name>, b: Seq<Name>)
    requires
        sorted(a),
    ensures
        sorted(union_names(a, b)),
        forall|y: Name| union_names(a, b).contains(y) <==> a.contains(y) || b.contains(y),
    decreases b.len(),
{
    if b.len() > 0 {
        let u = union_names(a, b.drop_last());
        lemma_union_names(a, b.drop_last());
        lemma_with_name(u, b.last());
        assert forall|y: Name| union_names(a, b).contains(y) <==> a.contains(y) || b.contains(
            y,
        ) by {
            if b.contains(y) {
                let j = choose|j: int| 0 <= j < b.len() && b[j] == y;
                if j < b.len() - 1 {
                    assert(b.drop_last()[j] == y);
                }
            }
            if b.drop_last().contains(y) {
                let j = choose|j: int| 0 <= j < b.drop_last().len() && b.drop_last()[j] == y;
                assert(b[j] == y);
            }
            if y == b.last() {
                assert(b[b.len() - 1] == y);
            }
        }
    }
}

/// Putting a sequence in order keeps its names and no others, and leaves a
/// sorted sequence as it is.
pub proof fn lemma_normal(s: Seq<Name>)
    ensures
        sorted(normal(s)),
        forall|y: Name| normal(s).contains(y) <==> s.contains(y),
        sorted(s) ==> normal(s) == s,
{
    lemma_union_names(Seq::empty(), s);
    if sorted(s) {
        lemma_sorted_unique(normal(s), s);
    }
}

/// A set of names has one sorted sequence only.
pub proof fn lemma_sorted_unique(a: Seq<Name>, b: Seq<Name>)
    requires
        sorted(a),
        sorted(b),
        forall|y: Name| a.contains(y) <==> b.contains(y),
    ensures
        a == b,
    decreases a.len(),
{
    if a.len() == 0 {
        if b.len() > 0 {
            assert(b.contains(b[0]));
        }
        assert(a =~= b);
    } else if b.len() == 0 {
        assert(a.contains(a[0]));
    } else {
        let x = a.last();
        let y = b.last();
        assert(a.contains(x));
        assert(b.contains(y));
        let i = choose|i: int| 0 <= i < b.len() && b[i] == x;
        let j = choose|j: int| 0 <= j < a.len() && a[j] == y;
        if x != y {
            assert(lex_lt(b[i], b[b.len() - 1]));
            assert(lex_lt(a[j], a[a.len() - 1]));
            lemma_lex_asymmetric(x, y);
        }
        let a1 = a.drop_last();
        let b1 = b.drop_last();
        assert forall|z: Name| a1.contains(z) <==> b1.contains(z) by {
            if a1.contains(z) {
                let k = choose|k: int| 0 <= k < a1.len() && a1[k] == z;
                assert(a[k] == z);
                assert(lex_lt(a[k], a[a.len() - 1]));
                lemma_lex_asymmetric(z, x);
                assert(b.contains(z));
                let m = choose|m: int| 0 <= m < b.len() && b[m] == z;
                assert(b1[m] == z);
            }
            if b1.contains(z) {
                let k = choose|k: int| 0 <= k < b1.len() && b1[k] == z;
                assert(b[k] == z);
                assert(lex_lt(b[k], b[b.len() - 1]));
                lemma_lex_asymmetric(z, y);
                assert(a.contains(z));
                let m = choose|m: int| 0 <= m < a.len() && a[m] == z;
                assert(a1[m] == z);
            }
        }
        lemma_sorted_unique(a1, b1);
        assert(a =~= a1.push(x));
        assert(b =~= b1.push(y));
    }
}

/// The index in `v` at which `x` stands or belongs.
pub fn find_place(v: &Vec<String>, x: &str) -> (r: (usize, bool))
    ensures
        r.0 == place(v.deep_view(), x@),
        r.0 <= v.len(),
        r.1 == (r.0 < v.len() && v.deep_view()[r.0 as int] == x@),
{
    let mut i: usize = 0;
    while i < v.len() && str_lt(v[i].as_str(), x)
        invariant
            i <= v.len(),
            forall|j: int| 0 <= j < i ==> lex_lt(#[trigger] v.deep_view()[j], x@),
        decreases v.len() - i,
    {
        i += 1;
    }
    proof {
        let s = v.deep_view();
        lemma_place_skip(s, x@, i as int);
        if i < v.len() {
            assert(s.skip(i as int)[0] == s[i as int]);
        }
    }
    let found = i < v.len() && str_eq(v[i].as_str(), x);
    (i, found)
}

/// Puts `x` into the sorted list `v`, unless it is there already.
pub fn insert_name(v: &mut Vec<String>, x: &str)
    ensures
        final(v).deep_view() == with_name(old(v).deep_view(), x@),
{
    let (i, found) = find_place(v, x);
    if !found {
        v.insert(i, x.to_owned());
        assert(v.deep_view() =~= old(v).deep_view().insert(i as int, x@));
    }
}

/// Puts each name of `names` into the sorted list `v`.
pub fn insert_all(v: &mut Vec<String>, names: &Vec<String>)
    ensures
        final(v).deep_view() == union_names(old(v).deep_view(), names.deep_view()),
{
    let ghost all = names.deep_view();
    let mut i: usize = 0;
    while i < names.len()
        invariant
            i <= names.len(),
            all == names.deep_view(),
            v.deep_view() == union_names(old(v).deep_view(), all.take(i as int)),
        decreases names.len() - i,
    {
        insert_name(v, names[i].as_str());
        proof {
            assert(all.take(i + 1).drop_last() =~= all.take(i as int));
        }
        i += 1;
    }
    assert(all.take(i as int) =~= all);
}

/// The names of `own` and of `other` in order, each once.
pub fn merged_names(own: &Vec<String>, other: &Vec<String>) -> (r: Vec<String>)
    ensures
        r.deep_view() == union_names(normal(own.deep_view()), other.deep_view()),
        sorted(r.deep_view()),
        forall|y: Name|
            r.deep_view().contains(y) <==> own.deep_view().contains(y) || other.deep_view().contains(
                y,
            ),
{
    let mut r: Vec<String> = Vec::new();
    assert(r.deep_view() =~= Seq::empty());
    insert_all(&mut r, own);
    insert_all(&mut r, other);
    proof {
        lemma_normal(own.deep_view());
        lemma_union_names(normal(own.deep_view()), other.deep_view());
    }
    r
}

} // verus!
