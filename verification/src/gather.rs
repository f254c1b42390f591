//! Laws of building a trie from declarations: adding is merging, and the
//! trie of a list of declarations depends on which declarations the list
//! holds, not on their order nor on how often each occurs.

use vstd::prelude::*;
use crate::algebra::lemma_lookup;
use crate::decl::{Decl, ItemView};
use crate::sorted::{lemma_normal, normal, union_names, Name};
use crate::algebra::lemma_ordered;
use crate::trie::{child, has_key, keys, put, Leaf, Trie};

verus! {

/// Some declaration of `ds` gives a node at path `p`.
pub open spec fn any_path(ds: Seq<Decl>, p: Seq<Name>) -> bool {
    exists|d: Decl| #[trigger] ds.contains(d) && Trie::of_decl(d).has_path(p)
}

/// Some declaration of `ds` imports path `p` under its own name.
pub open spec fn any_self(ds: Seq<Decl>, p: Seq<Name>) -> bool {
    exists|d: Decl| #[trigger] ds.contains(d) && Trie::of_decl(d).descend(p).has_self
}

/// Some declaration of `ds` is a wildcard import of path `p`.
pub open spec fn any_glob(ds: Seq<Decl>, p: Seq<Name>) -> bool {
    exists|d: Decl| #[trigger] ds.contains(d) && Trie::of_decl(d).descend(p).has_glob
}

/// Some declaration of `ds` imports path `p` under the alias `r`.
pub open spec fn any_rename(ds: Seq<Decl>, p: Seq<Name>, r: Name) -> bool {
    exists|d: Decl| #[trigger] ds.contains(d) && Trie::of_decl(d).descend(p).renames.contains(r)
}

/// What the declarations `ds` together say of path `p`.
pub open spec fn gathered(ds: Seq<Decl>, p: Seq<Name>) -> Leaf {
    Leaf {
        present: p.len() == 0 || any_path(ds, p),
        has_self: any_self(ds, p),
        has_glob: any_glob(ds, p),
        renames: Set::new(|r: Name| any_rename(ds, p, r)),
    }
}

impl Trie {
    /// The empty trie is well formed.
    pub proof fn lemma_empty_wf()
        ensures
            Trie::empty().wf(),
    {
        assert(keys(Trie::empty().children) =~= Seq::empty());
    }

    /// A single imported node and a single wildcard node are well formed.
    pub proof fn lemma_leaf_wf(alias: Option<Name>)
        ensures
            Trie::bound(alias).wf(),
            Trie::wildcard().wf(),
    {
        assert(keys(Trie::bound(alias).children) =~= Seq::empty());
        assert(keys(Trie::wildcard().children) =~= Seq::empty());
    }

    /// The trie that holds a well-formed `n` at path `p` and nothing else
    /// is well formed.
    pub proof fn lemma_spine_wf(p: Seq<Name>, n: Trie)
        requires
            n.wf(),
        ensures
            Trie::spine(p, n).wf(),
        decreases p.len(),
    {
        if p.len() > 0 {
            Trie::lemma_spine_wf(p.drop_first(), n);
        }
    }

    /// Grafting `n` at path `p` is merging with the trie that holds `n` at
    /// `p` and nothing else.
    pub proof fn lemma_graft_is_merge(self, p: Seq<Name>, n: Trie)
        requires
            self.wf(),
            n.wf(),
        ensures
            self.graft(p, n) == self.merge(Trie::spine(p, n)),
            self.graft(p, n).wf(),
        decreases p.len(),
    {
        let s = Trie::spine(p, n);
        Trie::lemma_spine_wf(p, n);
        self.lemma_merge_wf(s);
        if p.len() > 0 {
            let k = p[0];
            let rest = p.drop_first();
            let s1 = Trie::spine(rest, n);
            let c = child(self.children, k);
            lemma_lookup(self.children, k);
            c.lemma_graft_is_merge(rest, n);
            Trie::lemma_spine_wf(rest, n);
            if !has_key(self.children, k) {
                s1.lemma_merge_empty_left();
            }
            assert(s.children[0] == (k, s1));
            lemma_ordered(self.children);
            assert(Trie::merge_kids(self.children, s, 0) == self.children);
            assert(Trie::merge_kids(self.children, s, 1) == put(
                self.children,
                k,
                if has_key(self.children, k) {
                    c.merge(s1)
                } else {
                    s1
                },
            ));
            lemma_normal(self.renames);
            assert(union_names(normal(self.renames), s.renames) == self.renames);
        }
    }

    /// Adding the items of a list is merging with the trie of the list.
    pub proof fn lemma_add_items_is_merge(self, base: Seq<Name>, items: Seq<ItemView>)
        requires
            self.wf(),
        ensures
            self.add_items(base, items) == self.merge(Trie::empty().add_items(base, items)),
            Trie::empty().add_items(base, items).wf(),
            self.add_items(base, items).wf(),
        decreases items.len(),
    {
        let e = Trie::empty();
        Trie::lemma_empty_wf();
        if items.len() == 0 {
            self.lemma_merge_empty_right();
        } else {
            let rest = items.drop_last();
            let it = items.last();
            let tp = Trie::target(base, it);
            let nl = Trie::bound(it.alias);
            let x = e.add_items(base, rest);
            let s = Trie::spine(tp, nl);
            Trie::lemma_leaf_wf(it.alias);
            self.lemma_add_items_is_merge(base, rest);
            Trie::lemma_spine_wf(tp, nl);
            self.add_items(base, rest).lemma_graft_is_merge(tp, nl);
            x.lemma_graft_is_merge(tp, nl);
            self.lemma_merge_associative(x, s);
        }
    }

    /// Adding a declaration is merging with the trie of the declaration.
    pub proof fn lemma_add_decl_is_merge(self, d: Decl)
        requires
            self.wf(),
        ensures
            self.add_decl(d) == self.merge(Trie::of_decl(d)),
            Trie::of_decl(d).wf(),
            self.add_decl(d).wf(),
    {
        let e = Trie::empty();
        Trie::lemma_empty_wf();
        match d {
            Decl::Simple(p, alias) => {
                let n = Trie::bound(alias);
                Trie::lemma_leaf_wf(alias);
                Trie::lemma_spine_wf(p, n);
                self.lemma_graft_is_merge(p, n);
                e.lemma_graft_is_merge(p, n);
                Trie::spine(p, n).lemma_merge_empty_left();
            },
            Decl::Glob(p) => {
                let n = Trie::wildcard();
                Trie::lemma_leaf_wf(None);
                Trie::lemma_spine_wf(p, n);
                self.lemma_graft_is_merge(p, n);
                e.lemma_graft_is_merge(p, n);
                Trie::spine(p, n).lemma_merge_empty_left();
            },
            Decl::List(p, items) => {
                self.lemma_add_items_is_merge(p, items);
            },
        }
    }

    /// Adding declarations one after the other keeps the trie well formed.
    pub proof fn lemma_add_decls_wf(self, ds: Seq<Decl>)
        requires
            self.wf(),
        ensures
            self.add_decls(ds).wf(),
        decreases ds.len(),
    {
        if ds.len() > 0 {
            self.lemma_add_decls_wf(ds.drop_last());
            self.add_decls(ds.drop_last()).lemma_add_decl_is_merge(ds.last());
        }
    }

    /// Adding a list of declarations is merging with the trie of the list.
    pub proof fn lemma_add_decls_is_merge(self, ds: Seq<Decl>)
        requires
            self.wf(),
        ensures
            self.add_decls(ds) == self.merge(Trie::of_decls(ds)),
        decreases ds.len(),
    {
        let e = Trie::empty();
        Trie::lemma_empty_wf();
        if ds.len() == 0 {
            self.lemma_merge_empty_right();
        } else {
            let rest = ds.drop_last();
            let d = ds.last();
            self.lemma_add_decls_is_merge(rest);
            self.lemma_add_decls_wf(rest);
            e.lemma_add_decls_wf(rest);
            self.add_decls(rest).lemma_add_decl_is_merge(d);
            Trie::of_decls(rest).lemma_add_decl_is_merge(d);
            self.lemma_merge_associative(Trie::of_decls(rest), Trie::of_decl(d));
        }
    }

    /// What the trie of `ds` holds at a path is what the declarations of
    /// `ds` together say of it.
    pub proof fn lemma_of_decls_leaf_at(ds: Seq<Decl>, p: Seq<Name>)
        ensures
            Trie::of_decls(ds).leaf_at(p) == gathered(ds, p),
        decreases ds.len(),
    {
        let t = Trie::of_decls(ds);
        Trie::lemma_empty_wf();
        if ds.len() == 0 {
            Trie::lemma_empty_descend(p);
            assert(t.leaf_at(p).renames =~= gathered(ds, p).renames);
        } else {
            let rest = ds.drop_last();
            let d = ds.last();
            let t1 = Trie::of_decls(rest);
            let td = Trie::of_decl(d);
            Trie::lemma_of_decls_leaf_at(rest, p);
            Trie::empty().lemma_add_decls_wf(rest);
            t1.lemma_add_decl_is_merge(d);
            t1.lemma_merge_leaf_at(td, p);
            assert(ds.contains(d)) by {
                assert(ds[ds.len() - 1] == d);
            }
            assert forall|x: Decl| ds.contains(x) <==> rest.contains(x) || x == d by {
                if ds.contains(x) {
                    let j = choose|j: int| 0 <= j < ds.len() && ds[j] == x;
                    if j < ds.len() - 1 {
                        assert(rest[j] == x);
                    }
                }
                if rest.contains(x) {
                    let j = choose|j: int| 0 <= j < rest.len() && rest[j] == x;
                    assert(ds[j] == x);
                }
            }
            let g = gathered(ds, p);
            let g1 = gathered(rest, p);
            let l = td.leaf_at(p);
            assert(g.present == (g1.present || l.present)) by {
                if p.len() == 0 {
                } else if any_path(rest, p) {
                    let x = choose|x: Decl| #[trigger]
                        rest.contains(x) && Trie::of_decl(x).has_path(p);
                    assert(ds.contains(x));
                }
            }
            assert(g.has_self == (g1.has_self || l.has_self)) by {
                if any_self(rest, p) {
                    let x = choose|x: Decl| #[trigger]
                        rest.contains(x) && Trie::of_decl(x).descend(p).has_self;
                    assert(ds.contains(x));
                }
            }
            assert(g.has_glob == (g1.has_glob || l.has_glob)) by {
                if any_glob(rest, p) {
                    let x = choose|x: Decl| #[trigger]
                        rest.contains(x) && Trie::of_decl(x).descend(p).has_glob;
                    assert(ds.contains(x));
                }
            }
            assert forall|r: Name|
                any_rename(ds, p, r) <==> any_rename(rest, p, r) || td.descend(
                    p,
                ).renames.contains(r) by {
                if any_rename(rest, p, r) {
                    let x = choose|x: Decl| #[trigger]
                        rest.contains(x) && Trie::of_decl(x).descend(p).renames.contains(r);
                    assert(ds.contains(x));
                }
            }
            assert(g.renames =~= g1.renames.union(l.renames));
        }
    }

    /// The trie of a list that holds a wildcard import of `p` has a
    /// wildcard at `p`.
    pub proof fn lemma_of_decls_has_glob(ds: Seq<Decl>, p: Seq<Name>)
        requires
            ds.contains(Decl::Glob(p)),
        ensures
            Trie::of_decls(ds).descend(p).has_glob,
            Trie::of_decls(ds).has_path(p),
    {
        let d = Decl::Glob(p);
        let e = Trie::empty();
        let n = Trie::wildcard();
        Trie::lemma_empty_wf();
        Trie::lemma_leaf_wf(None);
        Trie::lemma_spine_wf(p, n);
        e.lemma_graft_is_merge(p, n);
        Trie::spine(p, n).lemma_merge_empty_left();
        Trie::lemma_spine_holds(p, n);
        Trie::lemma_of_decls_leaf_at(ds, p);
        assert(any_glob(ds, p));
        assert(any_path(ds, p));
    }

    /// The trie that holds `n` at path `p` has a node at `p`, and that node
    /// is `n`.
    pub proof fn lemma_spine_holds(p: Seq<Name>, n: Trie)
        ensures
            Trie::spine(p, n).descend(p) == n,
            Trie::spine(p, n).has_path(p),
        decreases p.len(),
    {
        if p.len() > 0 {
            let s = Trie::spine(p, n);
            assert(s.children[0] == (p[0], Trie::spine(p.drop_first(), n)));
            assert(keys(s.children)[0] == p[0]);
            lemma_lookup(s.children, p[0]);
            Trie::lemma_spine_holds(p.drop_first(), n);
        }
    }

    /// Two lists that hold the same declarations, in whatever order and
    /// however often, give the same trie.
    pub proof fn lemma_same_decls_same_trie(ds1: Seq<Decl>, ds2: Seq<Decl>)
        requires
            forall|d: Decl| ds1.contains(d) <==> ds2.contains(d),
        ensures
            Trie::of_decls(ds1) == Trie::of_decls(ds2),
    {
        let t1 = Trie::of_decls(ds1);
        let t2 = Trie::of_decls(ds2);
        Trie::lemma_empty_wf();
        Trie::empty().lemma_add_decls_wf(ds1);
        Trie::empty().lemma_add_decls_wf(ds2);
        assert forall|p: Seq<Name>| #[trigger] t1.leaf_at(p) == t2.leaf_at(p) by {
            Trie::lemma_of_decls_leaf_at(ds1, p);
            Trie::lemma_of_decls_leaf_at(ds2, p);
            assert(gathered(ds1, p).renames =~= gathered(ds2, p).renames);
        }
        t1.lemma_canonical(t2);
    }

    /// The trie of a list of declarations is the same for every order of
    /// the list.
    pub proof fn lemma_order_independent(ds1: Seq<Decl>, ds2: Seq<Decl>)
        requires
            ds1.to_multiset() == ds2.to_multiset(),
        ensures
            Trie::of_decls(ds1) == Trie::of_decls(ds2),
    {
        assert forall|d: Decl| ds1.contains(d) <==> ds2.contains(d) by {
            vstd::seq_lib::to_multiset_contains(ds1, d);
            vstd::seq_lib::to_multiset_contains(ds2, d);
        }
        Trie::lemma_same_decls_same_trie(ds1, ds2);
    }

    /// Adding the same declarations to a trie in another order gives the
    /// same trie.
    pub proof fn lemma_add_decls_order_independent(self, ds1: Seq<Decl>, ds2: Seq<Decl>)
        requires
            self.wf(),
            ds1.to_multiset() == ds2.to_multiset(),
        ensures
            self.add_decls(ds1) == self.add_decls(ds2),
    {
        self.lemma_add_decls_is_merge(ds1);
        self.lemma_add_decls_is_merge(ds2);
        Trie::lemma_order_independent(ds1, ds2);
    }
}

} // verus!
