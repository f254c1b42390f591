//! Laws of the trie operations: well-formedness is kept, a well-formed trie
//! is determined by what it holds at each path, and merging is commutative,
//! associative and idempotent.

use vstd::prelude::*;
use crate::sorted::{
    lemma_normal, lemma_place, lemma_place_skip, lemma_place_sorted, lemma_sorted_unique,
    lemma_union_names, lemma_with_name, normal, sorted, union_names, with_name, Name,
};
use crate::text::{lemma_lex_asymmetric, lex_lt};
use crate::trie::{child, has_key, keys, ordered, put, slot, Trie};

verus! {

/// The children `cs` stand in the order of their segments, each segment
/// once, and each child is well formed.
pub open spec fn kids_wf(cs: Seq<(Name, Trie)>) -> bool {
    &&& sorted(keys(cs))
    &&& forall|i: int| 0 <= i < cs.len() ==> (#[trigger] cs[i]).1.wf()
}

/// Looking a segment up among sorted children finds the child that stands
/// under it.
pub proof fn lemma_lookup(cs: Seq<(Name, Trie)>, k: Name)
    requires
        sorted(keys(cs)),
    ensures
        0 <= slot(cs, k) <= cs.len(),
        has_key(cs, k) <==> keys(cs).contains(k),
        forall|i: int| 0 <= i < cs.len() && (#[trigger] cs[i]).0 == k ==> slot(cs, k) == i,
        kids_wf(cs) ==> child(cs, k).wf(),
{
    let ks = keys(cs);
    lemma_place(ks, k);
    lemma_place_sorted(ks, k);
    assert forall|i: int| 0 <= i < cs.len() && (#[trigger] cs[i]).0 == k implies slot(cs, k)
        == i by {
        assert(ks[i] == k);
    }
    if has_key(cs, k) {
        assert(ks[slot(cs, k)] == k);
    }
    if kids_wf(cs) && has_key(cs, k) {
        assert(cs[slot(cs, k)].1.wf());
    }
}

/// What `put` does to sorted children: the one segment gets the new child,
/// every other keeps its own.
pub proof fn lemma_put(cs: Seq<(Name, Trie)>, k: Name, t: Trie)
    requires
        sorted(keys(cs)),
    ensures
        sorted(keys(put(cs, k, t))),
        forall|x: Name| has_key(put(cs, k, t), x) == (has_key(cs, x) || x == k),
        forall|x: Name|
            #[trigger] child(put(cs, k, t), x) == (if x == k {
                t
            } else {
                child(cs, x)
            }),
        kids_wf(cs) && t.wf() ==> kids_wf(put(cs, k, t)),
{
    let r = put(cs, k, t);
    let i = slot(cs, k);
    lemma_lookup(cs, k);
    lemma_with_name(keys(cs), k);
    if has_key(cs, k) {
        assert(keys(r) =~= keys(cs));
        assert(with_name(keys(cs), k) == keys(cs));
    } else {
        assert(keys(r) =~= keys(cs).insert(i, k));
    }
    assert(keys(r) == with_name(keys(cs), k));
    assert(r[i] == (k, t));
    assert forall|x: Name|
        #![trigger has_key(r, x)]
        #![trigger child(r, x)]
        has_key(r, x) == (has_key(cs, x) || x == k) && child(r, x) == (if x == k {
            t
        } else {
            child(cs, x)
        }) by {
        lemma_lookup(r, x);
        lemma_lookup(cs, x);
        if x == k {
            assert(keys(r)[i] == k);
        } else if has_key(cs, x) {
            let j = slot(cs, x);
            if has_key(cs, k) {
                assert(r[j] == cs[j]);
            } else if j < i {
                assert(r[j] == cs[j]);
            } else {
                assert(r[j + 1] == cs[j]);
            }
        }
    }
    if kids_wf(cs) && t.wf() {
        assert forall|j: int| 0 <= j < r.len() implies (#[trigger] r[j]).1.wf() by {
            if j == i {
            } else if has_key(cs, k) {
                assert(r[j] == cs[j]);
            } else if j < i {
                assert(r[j] == cs[j]);
            } else {
                assert(r[j] == cs[j - 1]);
            }
        }
    }
}

/// A segment that comes after all the segments of `cs` belongs at the end.
pub proof fn lemma_put_last(cs: Seq<(Name, Trie)>, k: Name, t: Trie)
    requires
        forall|i: int| 0 <= i < cs.len() ==> lex_lt(#[trigger] keys(cs)[i], k),
    ensures
        !has_key(cs, k),
        put(cs, k, t) == cs.push((k, t)),
{
    let ks = keys(cs);
    lemma_place_skip(ks, k, ks.len() as int);
    assert(ks.skip(ks.len() as int) =~= Seq::empty());
    assert(put(cs, k, t) =~= cs.push((k, t)));
}

/// Putting children in order gives sorted segments, and leaves children
/// that are in order as they are.
pub proof fn lemma_ordered(cs: Seq<(Name, Trie)>)
    ensures
        sorted(keys(ordered(cs))),
        sorted(keys(cs)) ==> ordered(cs) == cs,
    decreases cs.len(),
{
    if cs.len() == 0 {
        assert(ordered(cs) =~= cs);
    } else {
        let rest = cs.drop_first();
        lemma_ordered(rest);
        lemma_put(ordered(rest), cs[0].0, cs[0].1);
        if sorted(keys(cs)) {
            assert forall|i: int, j: int| 0 <= i < j < keys(rest).len() implies lex_lt(
                #[trigger] keys(rest)[i],
                #[trigger] keys(rest)[j],
            ) by {
                assert(keys(rest)[i] == keys(cs)[i + 1]);
                assert(keys(rest)[j] == keys(cs)[j + 1]);
            }
            if rest.len() > 0 {
                assert(keys(rest)[0] == keys(cs)[1]);
                assert(lex_lt(keys(cs)[0], keys(cs)[1]));
                lemma_lex_asymmetric(keys(cs)[0], keys(cs)[1]);
            }
            assert(slot(rest, cs[0].0) == 0);
            assert(put(rest, cs[0].0, cs[0].1) =~= cs);
        }
    }
}

impl Trie {
    /// Merging keeps tries well formed.
    pub proof fn lemma_merge_wf(self, b: Trie)
        requires
            self.wf(),
            b.wf(),
        ensures
            self.merge(b).wf(),
        decreases b, 1int,
    {
        lemma_normal(self.renames);
        lemma_union_names(normal(self.renames), b.renames);
        lemma_ordered(self.children);
        Trie::lemma_merge_kids_wf(self.children, b, b.children.len() as int);
    }

    /// Merging the first `n` children of `b` into well-formed children
    /// keeps them well formed.
    pub proof fn lemma_merge_kids_wf(acc: Seq<(Name, Trie)>, b: Trie, n: int)
        requires
            kids_wf(acc),
            b.wf(),
            0 <= n <= b.children.len(),
        ensures
            kids_wf(Trie::merge_kids(acc, b, n)),
        decreases b, 0int, n,
    {
        if n > 0 {
            Trie::lemma_merge_kids_wf(acc, b, n - 1);
            let prev = Trie::merge_kids(acc, b, n - 1);
            let k = b.children[n - 1].0;
            let c = b.children[n - 1].1;
            assert(c.wf());
            lemma_lookup(prev, k);
            if has_key(prev, k) {
                child(prev, k).lemma_merge_wf(c);
                lemma_put(prev, k, child(prev, k).merge(c));
            } else {
                lemma_put(prev, k, c);
            }
        }
    }

    /// Merging the empty trie into a trie whose aliases and children are
    /// in order changes nothing.
    pub proof fn lemma_merge_empty_right(self)
        requires
            sorted(self.renames),
            sorted(keys(self.children)),
        ensures
            self.merge(Trie::empty()) == self,
    {
        lemma_normal(self.renames);
        lemma_ordered(self.children);
    }

    /// After the first `n` children of `b` have been merged into children
    /// that are in order, the children are in order.
    pub proof fn lemma_merge_kids_sorted(acc: Seq<(Name, Trie)>, b: Trie, n: int)
        requires
            sorted(keys(acc)),
            0 <= n <= b.children.len(),
        ensures
            sorted(keys(Trie::merge_kids(acc, b, n))),
        decreases n,
    {
        if n > 0 {
            Trie::lemma_merge_kids_sorted(acc, b, n - 1);
            let prev = Trie::merge_kids(acc, b, n - 1);
            let k = b.children[n - 1].0;
            let c = b.children[n - 1].1;
            if has_key(prev, k) {
                lemma_put(prev, k, child(prev, k).merge(c));
            } else {
                lemma_put(prev, k, c);
            }
        }
    }

    /// The children of a merge are in order, each segment once, whatever
    /// order those of the two tries had.
    pub proof fn lemma_merge_children(self, b: Trie)
        ensures
            sorted(keys(self.merge(b).children)),
    {
        lemma_ordered(self.children);
        Trie::lemma_merge_kids_sorted(ordered(self.children), b, b.children.len() as int);
    }

    /// The aliases of a merge are in order and are those of the two tries,
    /// whatever order these had.
    pub proof fn lemma_merge_renames(self, b: Trie)
        ensures
            sorted(self.merge(b).renames),
            forall|y: Name|
                self.merge(b).renames.contains(y) <==> self.renames.contains(y)
                    || b.renames.contains(y),
    {
        lemma_normal(self.renames);
        lemma_union_names(normal(self.renames), b.renames);
    }

    /// Merging a well-formed trie into the empty trie gives that trie.
    pub proof fn lemma_merge_empty_left(self)
        requires
            self.wf(),
        ensures
            Trie::empty().merge(self) == self,
    {
        let e = Trie::empty();
        lemma_normal(e.renames);
        lemma_ordered(e.children);
        lemma_union_names(e.renames, self.renames);
        lemma_sorted_unique(union_names(e.renames, self.renames), self.renames);
        Trie::lemma_merge_kids_into_none(self, self.children.len() as int);
        assert(self.children.take(self.children.len() as int) =~= self.children);
    }

    /// Merging the first `n` children of `b` into no children gives these
    /// `n` children.
    pub proof fn lemma_merge_kids_into_none(b: Trie, n: int)
        requires
            b.wf(),
            0 <= n <= b.children.len(),
        ensures
            Trie::merge_kids(Seq::empty(), b, n) == b.children.take(n),
        decreases n,
    {
        if n == 0 {
            assert(b.children.take(0) =~= Seq::empty());
        } else {
            Trie::lemma_merge_kids_into_none(b, n - 1);
            let prev = b.children.take(n - 1);
            let k = b.children[n - 1].0;
            let c = b.children[n - 1].1;
            assert forall|i: int| 0 <= i < prev.len() implies lex_lt(
                #[trigger] keys(prev)[i],
                k,
            ) by {
                assert(keys(b.children)[i] == prev[i].0);
                assert(keys(b.children)[n - 1] == k);
            }
            lemma_put_last(prev, k, c);
            assert(prev.push((k, c)) =~= b.children.take(n));
        }
    }

    /// The child of a merge under a segment is the merge of the two
    /// children under it.
    pub proof fn lemma_merge_child(self, b: Trie, k: Name)
        requires
            self.wf(),
            b.wf(),
        ensures
            has_key(self.merge(b).children, k) == (has_key(self.children, k) || has_key(
                b.children,
                k,
            )),
            child(self.merge(b).children, k) == child(self.children, k).merge(
                child(b.children, k),
            ),
    {
        lemma_ordered(self.children);
        Trie::lemma_merge_kids_child(self.children, b, b.children.len() as int, k);
        assert(b.children.take(b.children.len() as int) =~= b.children);
    }

    /// After the first `n` children of `b` have been merged in, the child
    /// under a segment is the merge of the child that was there and the
    /// one that `b` has under the segment among its first `n`.
    pub proof fn lemma_merge_kids_child(acc: Seq<(Name, Trie)>, b: Trie, n: int, k: Name)
        requires
            kids_wf(acc),
            b.wf(),
            0 <= n <= b.children.len(),
        ensures
            has_key(Trie::merge_kids(acc, b, n), k) == (has_key(acc, k) || has_key(
                b.children.take(n),
                k,
            )),
            child(Trie::merge_kids(acc, b, n), k) == child(acc, k).merge(
                child(b.children.take(n), k),
            ),
        decreases n,
    {
        let bn = b.children.take(n);
        if n == 0 {
            assert(bn =~= Seq::empty());
            assert(keys(bn) =~= Seq::empty());
            lemma_lookup(acc, k);
            child(acc, k).lemma_merge_empty_right();
        } else {
            let b1 = b.children.take(n - 1);
            let prev = Trie::merge_kids(acc, b, n - 1);
            let kn = b.children[n - 1].0;
            let c = b.children[n - 1].1;
            assert(c.wf());
            Trie::lemma_merge_kids_child(acc, b, n - 1, k);
            Trie::lemma_merge_kids_child(acc, b, n - 1, kn);
            Trie::lemma_merge_kids_wf(acc, b, n - 1);
            assert forall|i: int| 0 <= i < b1.len() implies lex_lt(#[trigger] keys(b1)[i], kn) by {
                assert(keys(b.children)[i] == b1[i].0);
                assert(keys(b.children)[n - 1] == kn);
            }
            lemma_put_last(b1, kn, c);
            assert(b1.push((kn, c)) =~= bn);
            assert(sorted(keys(b1))) by {
                assert forall|i: int, j: int| 0 <= i < j < keys(b1).len() implies lex_lt(
                    #[trigger] keys(b1)[i],
                    #[trigger] keys(b1)[j],
                ) by {
                    assert(keys(b.children)[i] == keys(b1)[i]);
                    assert(keys(b.children)[j] == keys(b1)[j]);
                }
            }
            lemma_put(b1, kn, c);
            let x = if has_key(prev, kn) {
                child(prev, kn).merge(c)
            } else {
                c
            };
            lemma_put(prev, kn, x);
            if k == kn {
                lemma_lookup(acc, kn);
                child(acc, kn).lemma_merge_empty_right();
                if !has_key(prev, kn) {
                    c.lemma_merge_empty_left();
                }
            }
        }
    }

    /// The empty trie has a node at the empty path only, and nothing
    /// anywhere.
    pub proof fn lemma_empty_descend(p: Seq<Name>)
        ensures
            Trie::empty().descend(p) == Trie::empty(),
            Trie::empty().has_path(p) == (p.len() == 0),
        decreases p.len(),
    {
        if p.len() > 0 {
            assert(keys(Trie::empty().children) =~= Seq::empty());
            Trie::lemma_empty_descend(p.drop_first());
        }
    }

    /// Every node of a well-formed trie is well formed.
    pub proof fn lemma_descend_wf(self, p: Seq<Name>)
        requires
            self.wf(),
        ensures
            self.descend(p).wf(),
        decreases p.len(),
    {
        if p.len() > 0 {
            lemma_lookup(self.children, p[0]);
            child(self.children, p[0]).lemma_descend_wf(p.drop_first());
        }
    }

    /// The node of a merge at a path is the merge of the two nodes at it.
    pub proof fn lemma_merge_descend(self, b: Trie, p: Seq<Name>)
        requires
            self.wf(),
            b.wf(),
        ensures
            self.merge(b).descend(p) == self.descend(p).merge(b.descend(p)),
            self.merge(b).has_path(p) == (self.has_path(p) || b.has_path(p)),
        decreases p.len(),
    {
        if p.len() > 0 {
            let k = p[0];
            let rest = p.drop_first();
            let ca = child(self.children, k);
            let cb = child(b.children, k);
            self.lemma_merge_child(b, k);
            lemma_lookup(self.children, k);
            lemma_lookup(b.children, k);
            ca.lemma_merge_descend(cb, rest);
            Trie::lemma_empty_descend(rest);
            if rest.len() == 0 {
                assert(ca.has_path(rest));
                assert(cb.has_path(rest));
            }
        }
    }

    /// What a merge holds at a path is what the two tries hold there,
    /// joined.
    pub proof fn lemma_merge_leaf_at(self, b: Trie, p: Seq<Name>)
        requires
            self.wf(),
            b.wf(),
        ensures
            self.merge(b).leaf_at(p) == self.leaf_at(p).join(b.leaf_at(p)),
    {
        self.lemma_merge_descend(b, p);
        self.lemma_descend_wf(p);
        let x = self.descend(p);
        let y = b.descend(p);
        lemma_normal(x.renames);
        lemma_union_names(normal(x.renames), y.renames);
        assert(union_names(normal(x.renames), y.renames).to_set() =~= x.renames.to_set().union(
            y.renames.to_set(),
        ));
    }

    /// A well-formed trie is determined by what it holds at each path.
    pub proof fn lemma_canonical(self, b: Trie)
        requires
            self.wf(),
            b.wf(),
            forall|p: Seq<Name>| #[trigger] self.leaf_at(p) == b.leaf_at(p),
        ensures
            self == b,
        decreases self,
    {
        let e = Seq::<Name>::empty();
        assert(self.leaf_at(e) == b.leaf_at(e));
        assert forall|y: Name| self.renames.contains(y) <==> b.renames.contains(y) by {
            assert(self.renames.to_set().contains(y) <==> self.renames.contains(y));
            assert(b.renames.to_set().contains(y) <==> b.renames.contains(y));
        }
        lemma_sorted_unique(self.renames, b.renames);
        let ka = keys(self.children);
        let kb = keys(b.children);
        assert forall|k: Name| ka.contains(k) <==> kb.contains(k) by {
            lemma_lookup(self.children, k);
            lemma_lookup(b.children, k);
            let p = seq![k];
            assert(self.leaf_at(p) == b.leaf_at(p));
            assert(p.drop_first() =~= e);
            assert(child(self.children, k).has_path(e));
            assert(child(b.children, k).has_path(e));
        }
        lemma_sorted_unique(ka, kb);
        assert forall|i: int| 0 <= i < self.children.len() implies self.children[i]
            == b.children[i] by {
            let k = self.children[i].0;
            let ca = self.children[i].1;
            let cb = b.children[i].1;
            assert(ka[i] == k);
            assert(kb[i] == b.children[i].0);
            lemma_lookup(self.children, k);
            lemma_lookup(b.children, k);
            assert forall|q: Seq<Name>| #[trigger] ca.leaf_at(q) == cb.leaf_at(q) by {
                let p = seq![k] + q;
                assert(p.drop_first() =~= q);
                assert(self.leaf_at(p) == b.leaf_at(p));
            }
            ca.lemma_canonical(cb);
        }
        assert(self.children =~= b.children);
    }

    /// Merging two tries gives the same trie in either order.
    pub proof fn lemma_merge_commutative(self, b: Trie)
        requires
            self.wf(),
            b.wf(),
        ensures
            self.merge(b) == b.merge(self),
    {
        self.lemma_merge_wf(b);
        b.lemma_merge_wf(self);
        assert forall|p: Seq<Name>| #[trigger]
            self.merge(b).leaf_at(p) == b.merge(self).leaf_at(p) by {
            self.lemma_merge_leaf_at(b, p);
            b.lemma_merge_leaf_at(self, p);
            assert(self.leaf_at(p).renames.union(b.leaf_at(p).renames) =~= b.leaf_at(
                p,
            ).renames.union(self.leaf_at(p).renames));
        }
        self.merge(b).lemma_canonical(b.merge(self));
    }

    /// Merging three tries gives the same trie however they are grouped.
    pub proof fn lemma_merge_associative(self, b: Trie, c: Trie)
        requires
            self.wf(),
            b.wf(),
            c.wf(),
        ensures
            self.merge(b).merge(c) == self.merge(b.merge(c)),
    {
        self.lemma_merge_wf(b);
        b.lemma_merge_wf(c);
        self.merge(b).lemma_merge_wf(c);
        self.lemma_merge_wf(b.merge(c));
        assert forall|p: Seq<Name>| #[trigger]
            self.merge(b).merge(c).leaf_at(p) == self.merge(b.merge(c)).leaf_at(p) by {
            self.lemma_merge_leaf_at(b, p);
            self.merge(b).lemma_merge_leaf_at(c, p);
            b.lemma_merge_leaf_at(c, p);
            self.lemma_merge_leaf_at(b.merge(c), p);
            let x = self.leaf_at(p).renames;
            let y = b.leaf_at(p).renames;
            let z = c.leaf_at(p).renames;
            assert(x.union(y).union(z) =~= x.union(y.union(z)));
        }
        self.merge(b).merge(c).lemma_canonical(self.merge(b.merge(c)));
    }

    /// Merging a trie into itself changes nothing.
    pub proof fn lemma_merge_idempotent(self)
        requires
            self.wf(),
        ensures
            self.merge(self) == self,
    {
        self.lemma_merge_wf(self);
        assert forall|p: Seq<Name>| #[trigger] self.merge(self).leaf_at(p) == self.leaf_at(p) by {
            self.lemma_merge_leaf_at(self, p);
            let x = self.leaf_at(p).renames;
            assert(x.union(x) =~= x);
        }
        self.merge(self).lemma_canonical(self);
    }
}

} // verus!
