//! Where the walk writes what: the declarations over a path are, in the
//! whole written list, exactly those that the node at the path writes of
//! itself.

use vstd::prelude::*;
use crate::algebra::lemma_lookup;
use crate::decl::Decl;
use crate::emit::combined;
use crate::output::names_bare;
use crate::emit::{alias_decls, CONFIG_MIN_IMPORT_ITEM_LIST_LENGTH};
use crate::sorted::Name;
use crate::trie::{child, has_key, slot, Trie};

verus! {

/// The declarations of `ds` that are written over the path `q`, in order.
pub open spec fn over(ds: Seq<Decl>, q: Seq<Name>) -> Seq<Decl>
    decreases ds.len(),
{
    if ds.len() == 0 {
        Seq::empty()
    } else if ds.last().path() == q {
        over(ds.drop_last(), q).push(ds.last())
    } else {
        over(ds.drop_last(), q)
    }
}

/// Of two lists one after the other, the declarations over a path are
/// those of the first followed by those of the second.
pub proof fn lemma_over_concat(a: Seq<Decl>, b: Seq<Decl>, q: Seq<Name>)
    ensures
        over(a + b, q) == over(a, q) + over(b, q),
    decreases b.len(),
{
    if b.len() == 0 {
        assert(a + b =~= a);
        assert(over(a, q) + over(b, q) =~= over(a, q));
    } else {
        lemma_over_concat(a, b.drop_last(), q);
        assert((a + b).drop_last() =~= a + b.drop_last());
        assert((a + b).last() == b.last());
        assert(over(a, q) + over(b.drop_last(), q).push(b.last()) =~= (over(a, q) + over(
            b.drop_last(),
            q,
        )).push(b.last()));
    }
}

/// A list all of whose declarations are over `q` is what it holds over `q`.
pub proof fn lemma_over_all(ds: Seq<Decl>, q: Seq<Name>)
    requires
        forall|i: int| 0 <= i < ds.len() ==> (#[trigger] ds[i]).path() == q,
    ensures
        over(ds, q) == ds,
    decreases ds.len(),
{
    if ds.len() > 0 {
        let rest = ds.drop_last();
        assert forall|i: int| 0 <= i < rest.len() implies (#[trigger] rest[i]).path() == q by {
            assert(rest[i] == ds[i]);
        }
        lemma_over_all(rest, q);
        assert(ds[ds.len() - 1].path() == q);
        assert(rest.push(ds.last()) =~= ds);
    } else {
        assert(ds =~= Seq::empty());
    }
}

/// A list none of whose declarations is over `q` holds nothing over `q`.
pub proof fn lemma_over_none(ds: Seq<Decl>, q: Seq<Name>)
    requires
        forall|i: int| 0 <= i < ds.len() ==> (#[trigger] ds[i]).path() != q,
    ensures
        over(ds, q) == Seq::<Decl>::empty(),
    decreases ds.len(),
{
    if ds.len() > 0 {
        let rest = ds.drop_last();
        assert forall|i: int| 0 <= i < rest.len() implies (#[trigger] rest[i]).path() != q by {
            assert(rest[i] == ds[i]);
        }
        lemma_over_none(rest, q);
        assert(ds[ds.len() - 1].path() != q);
    }
}

/// A declaration of the list that is over `q` is among those over `q`.
pub proof fn lemma_over_member(ds: Seq<Decl>, q: Seq<Name>, i: int)
    requires
        0 <= i < ds.len(),
        ds[i].path() == q,
    ensures
        over(ds, q).contains(ds[i]),
    decreases ds.len(),
{
    let rest = ds.drop_last();
    if i == ds.len() - 1 {
        let o = over(rest, q).push(ds.last());
        assert(o[o.len() - 1] == ds[i]);
    } else {
        assert(rest[i] == ds[i]);
        lemma_over_member(rest, q, i);
        let o = over(rest, q);
        let j = choose|j: int| 0 <= j < o.len() && o[j] == ds[i];
        if ds.last().path() == q {
            assert(o.push(ds.last())[j] == ds[i]);
        }
    }
}

impl Trie {
    /// What the node that `rest` leads to is walked with: whether its own
    /// name and its aliases are covered by what its parent writes.
    pub open spec fn flags_at(self, self_done: bool, renames_done: bool, rest: Seq<Name>) -> (
        bool,
        bool,
    )
        decreases rest.len(),
    {
        if rest.len() == 0 {
            (self_done, renames_done)
        } else {
            let listed = self.listed(self_done, renames_done);
            child(self.children, rest[0]).flags_at(
                listed || self.has_glob,
                listed,
                rest.drop_first(),
            )
        }
    }

    /// What the node that `rest` leads to writes of itself, as declarations
    /// over `q`; nothing where there is no such node.
    pub open spec fn written_below(
        self,
        self_done: bool,
        renames_done: bool,
        rest: Seq<Name>,
        q: Seq<Name>,
    ) -> Seq<Decl> {
        if self.has_path(rest) {
            self.descend(rest).own_decls(
                q,
                self.flags_at(self_done, renames_done, rest).0,
                self.flags_at(self_done, renames_done, rest).1,
            )
        } else {
            Seq::empty()
        }
    }

    /// What the walk of this node, which stands at `path`, writes over `q`.
    pub open spec fn written_at(
        self,
        path: Seq<Name>,
        self_done: bool,
        renames_done: bool,
        q: Seq<Name>,
    ) -> Seq<Decl> {
        if path.len() <= q.len() && q.take(path.len() as int) == path {
            self.written_below(self_done, renames_done, q.skip(path.len() as int), q)
        } else {
            Seq::empty()
        }
    }

    /// What the walks of the first `n` children write over `q`.
    pub open spec fn kids_written(
        self,
        path: Seq<Name>,
        self_done: bool,
        renames_done: bool,
        n: int,
        q: Seq<Name>,
    ) -> Seq<Decl> {
        let m = path.len() as int;
        if m < q.len() && q.take(m) == path && has_key(self.children, q[m]) && slot(
            self.children,
            q[m],
        ) < n {
            child(self.children, q[m]).written_below(self_done, renames_done, q.skip(m + 1), q)
        } else {
            Seq::empty()
        }
    }

    /// What a node writes of itself is written over its own path.
    pub proof fn lemma_own_paths(self, path: Seq<Name>, self_done: bool, renames_done: bool)
        ensures
            forall|i: int|
                0 <= i < self.own_decls(path, self_done, renames_done).len() ==> (
                #[trigger] self.own_decls(path, self_done, renames_done)[i]).path() == path,
    {
    }

    /// In what the walk of a node writes, the declarations over a path
    /// are those that the node at that path writes of itself.
    pub proof fn lemma_written_at(
        self,
        path: Seq<Name>,
        self_done: bool,
        renames_done: bool,
        q: Seq<Name>,
    )
        requires
            self.wf(),
        ensures
            over(self.emit(path, self_done, renames_done), q) == self.written_at(
                path,
                self_done,
                renames_done,
                q,
            ),
        decreases self, 1int,
    {
        let listed = self.listed(self_done, renames_done);
        let n = self.children.len() as int;
        let m = path.len() as int;
        let own = self.own_decls(path, self_done, renames_done);
        let below = self.emit_kids(path, listed || self.has_glob, listed, n);
        let e = Seq::<Name>::empty();
        self.lemma_own_paths(path, self_done, renames_done);
        self.lemma_kids_written(path, listed || self.has_glob, listed, n, q);
        lemma_over_concat(own, below, q);
        if q == path {
            lemma_over_all(own, q);
            assert(q.take(m) =~= path);
            assert(q.skip(m) =~= e);
            assert(self.has_path(e));
            assert(self.descend(e) == self);
            assert(own + Seq::<Decl>::empty() =~= own);
        } else {
            lemma_over_none(own, q);
            if m < q.len() && q.take(m) == path {
                let rest = q.skip(m);
                assert(rest[0] == q[m]);
                assert(rest.drop_first() =~= q.skip(m + 1));
                lemma_lookup(self.children, q[m]);
            } else if m == q.len() && q.take(m) == path {
                assert(q.take(m) =~= q);
            }
            assert(Seq::<Decl>::empty() + over(below, q) =~= over(below, q));
        }
    }

    /// In what the walks of the first `n` children write, the declarations
    /// over a path are those of the one child on the way to it.
    pub proof fn lemma_kids_written(
        self,
        path: Seq<Name>,
        self_done: bool,
        renames_done: bool,
        n: int,
        q: Seq<Name>,
    )
        requires
            self.wf(),
            0 <= n <= self.children.len(),
        ensures
            over(self.emit_kids(path, self_done, renames_done, n), q) == self.kids_written(
                path,
                self_done,
                renames_done,
                n,
                q,
            ),
        decreases self, 0int, n,
    {
        if n > 0 {
            let m = path.len() as int;
            let k = self.children[n - 1].0;
            let c = self.children[n - 1].1;
            let before = self.emit_kids(path, self_done, renames_done, n - 1);
            let last = c.emit(path.push(k), self_done, renames_done);
            self.lemma_kids_written(path, self_done, renames_done, n - 1, q);
            assert(c.wf());
            c.lemma_written_at(path.push(k), self_done, renames_done, q);
            lemma_over_concat(before, last, q);
            lemma_lookup(self.children, k);
            if m < q.len() {
                lemma_lookup(self.children, q[m]);
            }
            if m < q.len() && q.take(m) == path && q[m] == k {
                assert(q.take(m + 1) =~= path.push(k));
                assert(Seq::<Decl>::empty() + over(last, q) =~= over(last, q));
            } else {
                if m + 1 <= q.len() && q.take(m + 1) == path.push(k) {
                    assert(q.take(m + 1)[m] == k);
                    assert(q.take(m) =~= q.take(m + 1).take(m));
                    assert(path.push(k).take(m) =~= path);
                }
                assert(over(before, q) + Seq::<Decl>::empty() =~= over(before, q));
            }
        } else {
            if path.len() < q.len() {
                lemma_lookup(self.children, q[path.len() as int]);
            }
        }
    }

    /// One segment further down: the node, whether it is there, and what it
    /// is walked with.
    pub proof fn lemma_step_down(self, self_done: bool, renames_done: bool, q: Seq<Name>, c: Name)
        ensures
            self.descend(q.push(c)) == child(self.descend(q).children, c),
            self.has_path(q.push(c)) == (self.has_path(q) && has_key(
                self.descend(q).children,
                c,
            )),
            ({
                let f = self.flags_at(self_done, renames_done, q);
                let listed = self.descend(q).listed(f.0, f.1);
                self.flags_at(self_done, renames_done, q.push(c)) == (
                    listed || self.descend(q).has_glob,
                    listed,
                )
            }),
        decreases q.len(),
    {
        let qc = q.push(c);
        let e = Seq::<Name>::empty();
        if q.len() == 0 {
            assert(qc.drop_first() =~= e);
            assert(qc[0] == c);
            let x = child(self.children, c);
            assert(x.descend(e) == x);
            assert(x.has_path(e));
            assert(x.flags_at(
                self.listed(self_done, renames_done) || self.has_glob,
                self.listed(self_done, renames_done),
                e,
            ) == (
                self.listed(self_done, renames_done) || self.has_glob,
                self.listed(self_done, renames_done),
            ));
        } else {
            let listed = self.listed(self_done, renames_done);
            assert(qc[0] == q[0]);
            assert(qc.drop_first() =~= q.drop_first().push(c));
            child(self.children, q[0]).lemma_step_down(
                listed || self.has_glob,
                listed,
                q.drop_first(),
                c,
            );
        }
    }

    /// Over the path of a child the whole written list holds what the
    /// child writes of itself, walked with what its parent has covered: its
    /// own name where the parent writes a list or has a wildcard, its
    /// aliases where the parent writes a list.
    pub proof fn lemma_child_written(self, q: Seq<Name>, c: Name)
        requires
            self.wf(),
        ensures
            ({
                let out = self.emit(Seq::empty(), false, false);
                let node = self.descend(q);
                let f = self.flags_at(false, false, q);
                let listed = node.listed(f.0, f.1);
                over(out, q.push(c)) == (if self.has_path(q) && has_key(node.children, c) {
                    child(node.children, c).own_decls(q.push(c), listed || node.has_glob, listed)
                } else {
                    Seq::empty()
                })
            }),
    {
        let e = Seq::<Name>::empty();
        let qc = q.push(c);
        self.lemma_written_at(e, false, false, qc);
        assert(qc.take(0) =~= e);
        assert(qc.skip(0) =~= qc);
        self.lemma_step_down(false, false, q, c);
    }

    /// The whole written list holds over the path of a node exactly what
    /// that node writes of itself. Where the node's bundle has at least the
    /// least number of items of a list, that is one list with the whole
    /// bundle, followed by nothing but the wildcard, and no child of the
    /// node has a declaration of its own name or of an alias. Where the
    /// bundle has fewer, it is the node's own name and aliases one by one,
    /// as far as the parent has left them, and the wildcard. Over a path
    /// without a node nothing is written.
    pub proof fn lemma_threshold_whole(self, q: Seq<Name>)
        requires
            self.wf(),
        ensures
            ({
                let out = self.emit(Seq::empty(), false, false);
                let node = self.descend(q);
                let f = self.flags_at(false, false, q);
                let bundle = node.bundle(f.0, f.1);
                let name = if node.needs_self(f.0) {
                    seq![Decl::Simple(q, None)]
                } else {
                    Seq::empty()
                };
                let aliases = if f.1 {
                    Seq::empty()
                } else {
                    alias_decls(q, node.renames)
                };
                let glob = if node.has_glob {
                    seq![Decl::Glob(q)]
                } else {
                    Seq::empty()
                };
                &&& !self.has_path(q) ==> over(out, q) == Seq::<Decl>::empty()
                &&& self.has_path(q) && bundle.len() >= CONFIG_MIN_IMPORT_ITEM_LIST_LENGTH ==> over(
                    out,
                    q,
                ) == seq![Decl::List(q, bundle)] + glob
                &&& self.has_path(q) && bundle.len() < CONFIG_MIN_IMPORT_ITEM_LIST_LENGTH ==> over(
                    out,
                    q,
                ) == name + aliases + glob
                &&& self.has_path(q) && bundle.len() >= CONFIG_MIN_IMPORT_ITEM_LIST_LENGTH
                    ==> forall|c: Name, j: int|
                    0 <= j < over(out, q.push(c)).len() ==> !(#[trigger] over(
                        out,
                        q.push(c),
                    )[j] is Simple)
            }),
    {
        let e = Seq::<Name>::empty();
        let out = self.emit(e, false, false);
        let node = self.descend(q);
        let f = self.flags_at(false, false, q);
        self.lemma_written_at(e, false, false, q);
        assert(q.take(0) =~= e);
        assert(q.skip(0) =~= q);
        node.lemma_threshold(q, f.0, f.1);
        if self.has_path(q) && node.listed(f.0, f.1) {
            assert forall|c: Name, j: int| 0 <= j < over(out, q.push(c)).len() implies !(
            #[trigger] over(out, q.push(c))[j] is Simple) by {
                let qc = q.push(c);
                self.lemma_written_at(e, false, false, qc);
                assert(qc.take(0) =~= e);
                assert(qc.skip(0) =~= qc);
                self.lemma_step_down(false, false, q, c);
                self.descend(qc).lemma_threshold(qc, true, true);
            }
        }
    }

    /// Every node of a well-formed trie without a segment `self` is without
    /// such a segment.
    pub proof fn lemma_descend_plain(self, p: Seq<Name>)
        requires
            self.wf(),
            self.plain(),
        ensures
            self.descend(p).plain(),
        decreases p.len(),
    {
        if p.len() > 0 {
            lemma_lookup(self.children, p[0]);
            if has_key(self.children, p[0]) {
                assert(self.children[slot(self.children, p[0])].1.plain());
            }
            child(self.children, p[0]).lemma_descend_plain(p.drop_first());
        }
    }

    /// In a trie without a segment `self` no item of a child is named
    /// `self`.
    pub proof fn lemma_children_items_names(self, n: int)
        requires
            self.plain(),
            0 <= n <= self.children.len(),
        ensures
            forall|j: int|
                0 <= j < self.children_items(n).len() ==> (#[trigger] self.children_items(
                    n,
                )[j]).name != "self"@,
        decreases n,
    {
        if n > 0 {
            self.lemma_children_items_names(n - 1);
            assert(self.children[n - 1].0 != "self"@);
        }
    }

    /// Below a wildcard nothing in the whole written list declares a child
    /// under the child's own name: not as a declaration of its own, not as
    /// an item of the list at the wildcard's node, not as the item `self`
    /// of a list at the child.
    pub proof fn lemma_glob_absorbs_whole(self, q: Seq<Name>, c: Name)
        requires
            self.wf(),
            self.plain(),
            self.descend(q).has_glob,
        ensures
            forall|i: int|
                0 <= i < self.emit(Seq::empty(), false, false).len() ==> !names_bare(
                    #[trigger] self.emit(Seq::empty(), false, false)[i],
                    q.push(c),
                ),
    {
        let e = Seq::<Name>::empty();
        let out = self.emit(e, false, false);
        let qc = q.push(c);
        assert forall|i: int| 0 <= i < out.len() implies !names_bare(#[trigger] out[i], qc) by {
            let d = out[i];
            if names_bare(d, qc) {
                let p = d.path();
                let o = over(out, p);
                self.lemma_written_at(e, false, false, p);
                lemma_over_member(out, p, i);
                assert(p.take(0) =~= e);
                assert(p.skip(0) =~= p);
                let node = self.descend(p);
                let f = self.flags_at(false, false, p);
                node.lemma_threshold(p, f.0, f.1);
                let j2 = choose|j2: int| 0 <= j2 < o.len() && o[j2] == d;
                self.lemma_step_down(false, false, q, c);
                self.lemma_descend_plain(p);
                assert(qc.drop_last() =~= q);
                assert(qc.last() == c);
                match d {
                    Decl::Simple(_, alias) => {
                        assert(p == qc);
                        assert(!node.needs_self(f.0));
                        if node.listed(f.0, f.1) {
                        } else {
                            let aliases = if f.1 {
                                Seq::<Decl>::empty()
                            } else {
                                alias_decls(p, node.renames)
                            };
                            if j2 < aliases.len() {
                                assert(o[j2] == aliases[j2]);
                            }
                        }
                    },
                    Decl::Glob(_) => {},
                    Decl::List(_, items) => {
                        let j = choose|j: int|
                            0 <= j < items.len() && (#[trigger] items[j]).alias is None
                                && Trie::target(p, items[j]) == qc;
                        assert(node.listed(f.0, f.1)) by {
                            if !node.listed(f.0, f.1) {
                                assert(!(o[j2] is List));
                            }
                        }
                        assert(j2 == 0);
                        assert(items == node.bundle(f.0, f.1));
                        let own = node.own_items(f.0, f.1);
                        let kids = node.children_items(node.children.len() as int);
                        if items[j].name == "self"@ {
                            assert(p == qc);
                            node.lemma_children_items_names(node.children.len() as int);
                            if j >= own.len() {
                                assert(items[j] == kids[j - own.len()]);
                            }
                        } else {
                            assert(p.push(items[j].name).drop_last() =~= p);
                            assert(p == q);
                            node.lemma_glob_absorbs(p, f.0, f.1, c);
                        }
                    },
                }
            }
        }
    }
}

/// The trie of a list of declarations is well formed.
pub proof fn lemma_of_decls_wf(ds: Seq<Decl>)
    ensures
        Trie::of_decls(ds).wf(),
{
    Trie::lemma_empty_wf();
    Trie::empty().lemma_add_decls_wf(ds);
}

/// Where the input holds a wildcard import of `p` and no path of the input
/// holds the segment `self`, nothing in the consolidated list declares a
/// path one segment below `p` under its own name.
pub proof fn lemma_combined_glob_absorbs(ds: Seq<Decl>, p: Seq<Name>, c: Name)
    requires
        ds.contains(Decl::Glob(p)),
        forall|i: int| 0 <= i < ds.len() ==> !(#[trigger] ds[i]).path().contains("self"@),
    ensures
        forall|i: int|
            0 <= i < combined(ds).len() ==> !names_bare(#[trigger] combined(ds)[i], p.push(c)),
{
    let t = Trie::of_decls(ds);
    lemma_of_decls_wf(ds);
    Trie::lemma_of_decls_plain(ds);
    Trie::lemma_of_decls_has_glob(ds, p);
    t.lemma_glob_absorbs_whole(p, c);
}

} // verus!
