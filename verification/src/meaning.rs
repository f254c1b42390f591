//! What declarations mean: which paths they bind under which local names.
//! The consolidated list binds what the input binds.

use vstd::prelude::*;
use crate::algebra::lemma_lookup;
use crate::decl::{Decl, ItemView};
use crate::sorted::Name;
use crate::trie::{child, has_key, keys, Trie};

verus! {

/// The name under which a path is bound where no alias is given: its last
/// segment.
pub open spec fn own_name(q: Seq<Name>) -> Name {
    if q.len() > 0 {
        q.last()
    } else {
        Seq::empty()
    }
}

/// The name under which a path is bound.
pub open spec fn local_name(q: Seq<Name>, alias: Option<Name>) -> Name {
    match alias {
        Some(a) => a,
        None => own_name(q),
    }
}

/// The item `item` of a list over `base` binds the path `q` under `name`.
pub open spec fn item_binds(base: Seq<Name>, item: ItemView, q: Seq<Name>, name: Name) -> bool {
    q == Trie::target(base, item) && name == local_name(q, item.alias)
}

/// Some item of `items`, in a list over `base`, binds the path `q` under
/// `name`.
pub open spec fn items_bind(
    base: Seq<Name>,
    items: Seq<ItemView>,
    q: Seq<Name>,
    name: Name,
) -> bool {
    exists|j: int| 0 <= j < items.len() && item_binds(base, #[trigger] items[j], q, name)
}

/// The declaration `d` binds the path `q` under `name`. A wildcard binds
/// every path one segment below its own under that segment.
pub open spec fn binds(d: Decl, q: Seq<Name>, name: Name) -> bool {
    match d {
        Decl::Simple(p, alias) => q == p && name == local_name(q, alias),
        Decl::Glob(p) => q.len() > 0 && q.drop_last() == p && name == q.last(),
        Decl::List(p, items) => items_bind(p, items, q, name),
    }
}

/// Some declaration of `ds` binds the path `q` under `name`.
pub open spec fn any_binds(ds: Seq<Decl>, q: Seq<Name>, name: Name) -> bool {
    exists|i: int| 0 <= i < ds.len() && binds(#[trigger] ds[i], q, name)
}

/// All the bindings of `ds`: pairs of a path and a local name.
pub open spec fn bindings(ds: Seq<Decl>) -> Set<(Seq<Name>, Name)> {
    Set::new(|b: (Seq<Name>, Name)| any_binds(ds, b.0, b.1))
}

impl Trie {
    /// The trie binds the path `q` under `name`: by the node at `q` itself,
    /// or by a wildcard at the node above it.
    pub open spec fn binds(self, q: Seq<Name>, name: Name) -> bool {
        ||| (self.descend(q).has_self && name == own_name(q))
        ||| self.descend(q).renames.contains(name)
        ||| (q.len() > 0 && self.descend(q.drop_last()).has_glob && name == q.last())
    }

    /// No segment in the trie is `self`.
    pub open spec fn plain(self) -> bool
        decreases self,
    {
        forall|i: int|
            0 <= i < self.children.len() ==> (#[trigger] self.children[i]).0 != "self"@
                && self.children[i].1.plain()
    }

    /// No child under the segment `self` has an item in the bundle.
    pub open spec fn no_self_items(self) -> bool {
        forall|i: int|
            0 <= i < self.children.len() && (#[trigger] self.children[i]).0 == "self"@
                ==> self.child_items(i).len() == 0
    }

    /// No list that the walk writes holds an item for a child under the
    /// segment `self`. In a list, such an item would read as the list's own
    /// path.
    pub open spec fn unambiguous(self, self_done: bool, renames_done: bool) -> bool
        decreases self,
    {
        let listed = self.listed(self_done, renames_done);
        &&& listed ==> self.no_self_items()
        &&& forall|i: int|
            0 <= i < self.children.len() ==> (#[trigger] self.children[i]).1.unambiguous(
                listed || self.has_glob,
                listed,
            )
    }

    /// A merge binds what either of the two binds.
    pub proof fn lemma_merge_binds(self, b: Trie, q: Seq<Name>, name: Name)
        requires
            self.wf(),
            b.wf(),
        ensures
            self.merge(b).binds(q, name) <==> self.binds(q, name) || b.binds(q, name),
    {
        self.lemma_merge_leaf_at(b, q);
        let m = self.merge(b);
        assert(m.descend(q).renames.contains(name) <==> m.leaf_at(q).renames.contains(name));
        assert(self.descend(q).renames.contains(name) <==> self.leaf_at(q).renames.contains(name));
        assert(b.descend(q).renames.contains(name) <==> b.leaf_at(q).renames.contains(name));
        if q.len() > 0 {
            self.lemma_merge_leaf_at(b, q.drop_last());
        }
    }

    /// The trie that holds the single node `n` at path `p` holds `n` there
    /// and nothing anywhere else.
    pub proof fn lemma_spine_descend(p: Seq<Name>, n: Trie, q: Seq<Name>)
        requires
            n.children.len() == 0,
        ensures
            q == p ==> Trie::spine(p, n).descend(q) == n,
            q != p ==> !Trie::spine(p, n).descend(q).has_self && !Trie::spine(p, n).descend(
                q,
            ).has_glob && Trie::spine(p, n).descend(q).renames.len() == 0,
            Trie::spine(p, n).has_path(q) ==> q.len() <= p.len() && p.take(q.len() as int) == q,
        decreases p.len(),
    {
        let s = Trie::spine(p, n);
        if q.len() == 0 {
            assert(p.take(0) =~= q);
            if p.len() == 0 {
                assert(q =~= p);
            }
        } else if p.len() == 0 {
            assert(keys(n.children) =~= Seq::empty());
            Trie::lemma_empty_descend(q.drop_first());
        } else {
            let s1 = Trie::spine(p.drop_first(), n);
            assert(s.children[0] == (p[0], s1));
            assert(keys(s.children)[0] == p[0]);
            lemma_lookup(s.children, q[0]);
            if q[0] == p[0] {
                Trie::lemma_spine_descend(p.drop_first(), n, q.drop_first());
                if q.drop_first() == p.drop_first() {
                    assert(q =~= seq![q[0]] + q.drop_first());
                    assert(p =~= seq![p[0]] + p.drop_first());
                }
                if s.has_path(q) {
                    assert(p.take(q.len() as int) =~= seq![p[0]] + p.drop_first().take(
                        q.len() - 1,
                    ));
                    assert(q =~= seq![q[0]] + q.drop_first());
                }
            } else {
                if has_key(s.children, q[0]) {
                    let j = choose|j: int|
                        0 <= j < keys(s.children).len() && keys(s.children)[j] == q[0];
                    assert(false);
                }
                Trie::lemma_empty_descend(q.drop_first());
            }
        }
    }

    /// A single import binds its own path under its local name.
    pub proof fn lemma_bound_binds(p: Seq<Name>, alias: Option<Name>, q: Seq<Name>, name: Name)
        ensures
            Trie::spine(p, Trie::bound(alias)).binds(q, name) <==> q == p && name == local_name(
                q,
                alias,
            ),
    {
        let n = Trie::bound(alias);
        Trie::lemma_spine_descend(p, n, q);
        if q.len() > 0 {
            Trie::lemma_spine_descend(p, n, q.drop_last());
        }
        if q == p {
            match alias {
                Some(a) => {
                    assert(n.renames[0] == a);
                },
                None => {},
            }
        }
    }

    /// A single wildcard import binds every path one segment below its own.
    pub proof fn lemma_wildcard_binds(p: Seq<Name>, q: Seq<Name>, name: Name)
        ensures
            Trie::spine(p, Trie::wildcard()).binds(q, name) <==> q.len() > 0 && q.drop_last() == p
                && name == q.last(),
    {
        let n = Trie::wildcard();
        Trie::lemma_spine_descend(p, n, q);
        if q.len() > 0 {
            Trie::lemma_spine_descend(p, n, q.drop_last());
        }
    }

    /// The trie of a list binds what the items of the list bind.
    pub proof fn lemma_items_binds(base: Seq<Name>, items: Seq<ItemView>, q: Seq<Name>, name: Name)
        ensures
            Trie::empty().add_items(base, items).binds(q, name) <==> items_bind(
                base,
                items,
                q,
                name,
            ),
        decreases items.len(),
    {
        let e = Trie::empty();
        Trie::lemma_empty_wf();
        if items.len() == 0 {
            Trie::lemma_empty_descend(q);
            if q.len() > 0 {
                Trie::lemma_empty_descend(q.drop_last());
            }
        } else {
            let rest = items.drop_last();
            let it = items.last();
            let tp = Trie::target(base, it);
            let nl = Trie::bound(it.alias);
            let x = e.add_items(base, rest);
            Trie::lemma_items_binds(base, rest, q, name);
            e.lemma_add_items_is_merge(base, rest);
            Trie::lemma_leaf_wf(it.alias);
            Trie::lemma_spine_wf(tp, nl);
            x.lemma_graft_is_merge(tp, nl);
            x.lemma_merge_binds(Trie::spine(tp, nl), q, name);
            Trie::lemma_bound_binds(tp, it.alias, q, name);
            if items_bind(base, rest, q, name) {
                let j = choose|j: int|
                    0 <= j < rest.len() && item_binds(base, #[trigger] rest[j], q, name);
                assert(items[j] == rest[j]);
            }
            if items_bind(base, items, q, name) {
                let j = choose|j: int|
                    0 <= j < items.len() && item_binds(base, #[trigger] items[j], q, name);
                if j < rest.len() {
                    assert(rest[j] == items[j]);
                }
            }
            if item_binds(base, it, q, name) {
                assert(items[items.len() - 1] == it);
            }
        }
    }

    /// The trie of a declaration binds what the declaration binds.
    pub proof fn lemma_of_decl_binds(d: Decl, q: Seq<Name>, name: Name)
        ensures
            Trie::of_decl(d).binds(q, name) <==> binds(d, q, name),
    {
        let e = Trie::empty();
        Trie::lemma_empty_wf();
        match d {
            Decl::Simple(p, alias) => {
                let n = Trie::bound(alias);
                Trie::lemma_leaf_wf(alias);
                Trie::lemma_spine_wf(p, n);
                e.lemma_graft_is_merge(p, n);
                Trie::spine(p, n).lemma_merge_empty_left();
                Trie::lemma_bound_binds(p, alias, q, name);
            },
            Decl::Glob(p) => {
                let n = Trie::wildcard();
                Trie::lemma_leaf_wf(None);
                Trie::lemma_spine_wf(p, n);
                e.lemma_graft_is_merge(p, n);
                Trie::spine(p, n).lemma_merge_empty_left();
                Trie::lemma_wildcard_binds(p, q, name);
            },
            Decl::List(p, items) => {
                Trie::lemma_items_binds(p, items, q, name);
            },
        }
    }

    /// The trie of a list of declarations binds what the declarations bind.
    pub proof fn lemma_of_decls_binds(ds: Seq<Decl>, q: Seq<Name>, name: Name)
        ensures
            Trie::of_decls(ds).binds(q, name) <==> any_binds(ds, q, name),
    {
        let t = Trie::of_decls(ds);
        Trie::lemma_of_decls_leaf_at(ds, q);
        assert(t.descend(q).renames.contains(name) <==> t.leaf_at(q).renames.contains(name));
        if q.len() > 0 {
            Trie::lemma_of_decls_leaf_at(ds, q.drop_last());
        }
        if t.binds(q, name) {
            let d = if t.descend(q).has_self && name == own_name(q) {
                choose|d: Decl| #[trigger] ds.contains(d) && Trie::of_decl(d).descend(q).has_self
            } else if t.descend(q).renames.contains(name) {
                choose|d: Decl| #[trigger]
                    ds.contains(d) && Trie::of_decl(d).descend(q).renames.contains(name)
            } else {
                choose|d: Decl| #[trigger]
                    ds.contains(d) && Trie::of_decl(d).descend(q.drop_last()).has_glob
            };
            assert(ds.contains(d) && Trie::of_decl(d).binds(q, name));
            Trie::lemma_of_decl_binds(d, q, name);
            let i = choose|i: int| 0 <= i < ds.len() && ds[i] == d;
            assert(binds(ds[i], q, name));
        }
        if any_binds(ds, q, name) {
            let i = choose|i: int| 0 <= i < ds.len() && binds(#[trigger] ds[i], q, name);
            let d = ds[i];
            assert(ds.contains(d));
            Trie::lemma_of_decl_binds(d, q, name);
        }
    }
}

} // verus!
