//! Each alias is written once: the consolidated list declares a path under
//! an alias exactly once where the input declares it so at all, and in one
//! of three forms: `path as alias`, the item `last as alias` in a list at
//! the path above, or the item `self as alias` in a list at the path.

use vstd::prelude::*;
use crate::algebra::lemma_lookup;
use crate::decl::{Decl, ItemView};
use crate::emit::{alias_decls, alias_items, combined};
use crate::gather::any_rename;
use crate::sorted::{sorted, Name};
use crate::text::lemma_lex_asymmetric;
use crate::trie::{child, has_key, slot, Trie};

verus! {

/// One where `b` holds, else none.
pub open spec fn one_if(b: bool) -> nat {
    if b {
        1
    } else {
        0
    }
}

/// The item `item` of a list over `base` declares the path `q` under the
/// alias `x`.
pub open spec fn item_is_alias(base: Seq<Name>, item: ItemView, q: Seq<Name>, x: Name) -> bool {
    item.alias == Some(x) && Trie::target(base, item) == q
}

/// How many of the items, in a list over `base`, declare the path `q`
/// under the alias `x`.
pub open spec fn items_alias_count(
    base: Seq<Name>,
    items: Seq<ItemView>,
    q: Seq<Name>,
    x: Name,
) -> nat
    decreases items.len(),
{
    if items.len() == 0 {
        0
    } else {
        items_alias_count(base, items.drop_last(), q, x) + one_if(
            item_is_alias(base, items.last(), q, x),
        )
    }
}

/// How often the declaration `d` declares the path `q` under the alias `x`.
pub open spec fn decl_alias_count(d: Decl, q: Seq<Name>, x: Name) -> nat {
    match d {
        Decl::Simple(p, alias) => one_if(p == q && alias == Some(x)),
        Decl::Glob(_) => 0,
        Decl::List(p, items) => items_alias_count(p, items, q, x),
    }
}

/// How often the declarations `ds` declare the path `q` under the alias
/// `x`.
pub open spec fn alias_count(ds: Seq<Decl>, q: Seq<Name>, x: Name) -> nat
    decreases ds.len(),
{
    if ds.len() == 0 {
        0
    } else {
        alias_count(ds.drop_last(), q, x) + decl_alias_count(ds.last(), q, x)
    }
}

/// The declaration `d` declares the path `q` under the alias `x`.
pub open spec fn names_alias(d: Decl, q: Seq<Name>, x: Name) -> bool {
    match d {
        Decl::Simple(p, alias) => p == q && alias == Some(x),
        Decl::Glob(_) => false,
        Decl::List(p, items) => exists|j: int|
            0 <= j < items.len() && item_is_alias(p, #[trigger] items[j], q, x),
    }
}

/// The count over two lists of items is the sum of the two counts.
pub proof fn lemma_items_count_concat(
    base: Seq<Name>,
    a: Seq<ItemView>,
    b: Seq<ItemView>,
    q: Seq<Name>,
    x: Name,
)
    ensures
        items_alias_count(base, a + b, q, x) == items_alias_count(base, a, q, x)
            + items_alias_count(base, b, q, x),
    decreases b.len(),
{
    if b.len() == 0 {
        assert(a + b =~= a);
    } else {
        lemma_items_count_concat(base, a, b.drop_last(), q, x);
        assert((a + b).drop_last() =~= a + b.drop_last());
        assert((a + b).last() == b.last());
    }
}

/// The count over two lists of declarations is the sum of the two counts.
pub proof fn lemma_alias_count_concat(a: Seq<Decl>, b: Seq<Decl>, q: Seq<Name>, x: Name)
    ensures
        alias_count(a + b, q, x) == alias_count(a, q, x) + alias_count(b, q, x),
    decreases b.len(),
{
    if b.len() == 0 {
        assert(a + b =~= a);
    } else {
        lemma_alias_count_concat(a, b.drop_last(), q, x);
        assert((a + b).drop_last() =~= a + b.drop_last());
        assert((a + b).last() == b.last());
    }
}

/// The count over one declaration, and over none.
pub proof fn lemma_alias_count_small(d: Decl, q: Seq<Name>, x: Name)
    ensures
        alias_count(seq![d], q, x) == decl_alias_count(d, q, x),
        alias_count(Seq::empty(), q, x) == 0,
{
    assert(seq![d].drop_last() =~= Seq::<Decl>::empty());
    assert(seq![d].last() == d);
    assert(alias_count(seq![d].drop_last(), q, x) == 0);
}

/// The count over one item, and over none.
pub proof fn lemma_items_count_small(base: Seq<Name>, item: ItemView, q: Seq<Name>, x: Name)
    ensures
        items_alias_count(base, seq![item], q, x) == one_if(item_is_alias(base, item, q, x)),
        items_alias_count(base, Seq::empty(), q, x) == 0,
{
    assert(seq![item].drop_last() =~= Seq::<ItemView>::empty());
    assert(seq![item].last() == item);
    assert(items_alias_count(base, seq![item].drop_last(), q, x) == 0);
}

/// A sorted sequence without its last name is sorted, and does not hold
/// that name.
pub proof fn lemma_sorted_drop_last(s: Seq<Name>, x: Name)
    requires
        sorted(s),
        s.len() > 0,
    ensures
        sorted(s.drop_last()),
        !s.drop_last().contains(s.last()),
        s.contains(x) <==> s.drop_last().contains(x) || s.last() == x,
{
    let r = s.drop_last();
    assert forall|i: int, j: int| 0 <= i < j < r.len() implies crate::text::lex_lt(
        #[trigger] r[i],
        #[trigger] r[j],
    ) by {
        assert(r[i] == s[i] && r[j] == s[j]);
    }
    if r.contains(s.last()) {
        let i = choose|i: int| 0 <= i < r.len() && r[i] == s.last();
        assert(crate::text::lex_lt(s[i], s[s.len() - 1]));
        lemma_lex_asymmetric(s[i], s.last());
    }
    if s.contains(x) {
        let i = choose|i: int| 0 <= i < s.len() && s[i] == x;
        if i < r.len() {
            assert(r[i] == x);
        }
    }
    if r.contains(x) {
        let i = choose|i: int| 0 <= i < r.len() && r[i] == x;
        assert(s[i] == x);
    }
    assert(s[s.len() - 1] == s.last());
}

/// Among the items `k as r` for sorted aliases, each alias has one item.
pub proof fn lemma_alias_items_count(
    base: Seq<Name>,
    k: Name,
    renames: Seq<Name>,
    q: Seq<Name>,
    x: Name,
)
    requires
        sorted(renames),
    ensures
        items_alias_count(base, alias_items(k, renames), q, x) == one_if(
            Trie::target(base, ItemView { name: k, alias: None }) == q && renames.contains(x),
        ),
    decreases renames.len(),
{
    let items = alias_items(k, renames);
    if renames.len() > 0 {
        lemma_sorted_drop_last(renames, x);
        lemma_alias_items_count(base, k, renames.drop_last(), q, x);
        assert(items.drop_last() =~= alias_items(k, renames.drop_last()));
        assert(items.last() == ItemView { name: k, alias: Some(renames.last()) });
    }
}

/// Among the declarations `path as r` for sorted aliases, each alias has
/// one declaration.
pub proof fn lemma_alias_decls_count(
    path: Seq<Name>,
    renames: Seq<Name>,
    q: Seq<Name>,
    x: Name,
)
    requires
        sorted(renames),
    ensures
        alias_count(alias_decls(path, renames), q, x) == one_if(path == q && renames.contains(x)),
    decreases renames.len(),
{
    let ds = alias_decls(path, renames);
    if renames.len() > 0 {
        lemma_sorted_drop_last(renames, x);
        lemma_alias_decls_count(path, renames.drop_last(), q, x);
        assert(ds.drop_last() =~= alias_decls(path, renames.drop_last()));
        assert(ds.last() == Decl::Simple(path, Some(renames.last())));
    }
}

impl Trie {
    /// How often the walk of this node, which stands at `path`, has to
    /// declare the path `q` under the alias `x`: once where the node at `q`
    /// has that alias and the parent has not listed it.
    pub open spec fn walk_alias_count(
        self,
        path: Seq<Name>,
        renames_done: bool,
        q: Seq<Name>,
        x: Name,
    ) -> nat {
        let m = path.len() as int;
        if m <= q.len() && q.take(m) == path {
            if q.len() == m {
                one_if(!renames_done && self.renames.contains(x))
            } else {
                one_if(self.descend(q.skip(m)).renames.contains(x))
            }
        } else {
            0
        }
    }

    /// How often the walks of the first `n` children have to declare the
    /// path `q` under the alias `x`.
    pub open spec fn kids_alias_count(
        self,
        path: Seq<Name>,
        renames_done: bool,
        n: int,
        q: Seq<Name>,
        x: Name,
    ) -> nat {
        let m = path.len() as int;
        if m < q.len() && q.take(m) == path && has_key(self.children, q[m]) && slot(
            self.children,
            q[m],
        ) < n {
            child(self.children, q[m]).walk_alias_count(path.push(q[m]), renames_done, q, x)
        } else {
            0
        }
    }

    /// How often the items of the first `n` children declare the path `q`
    /// under the alias `x`.
    pub open spec fn listed_alias_count(self, path: Seq<Name>, n: int, q: Seq<Name>, x: Name) -> nat {
        let m = path.len() as int;
        if q.len() == m + 1 && q.take(m) == path && has_key(self.children, q[m]) && slot(
            self.children,
            q[m],
        ) < n {
            one_if(child(self.children, q[m]).renames.contains(x))
        } else {
            0
        }
    }

    /// The items of the first `n` children hold each alias of each child
    /// once.
    pub proof fn lemma_children_items_count(
        self,
        path: Seq<Name>,
        n: int,
        q: Seq<Name>,
        x: Name,
    )
        requires
            self.wf(),
            self.plain(),
            0 <= n <= self.children.len(),
        ensures
            items_alias_count(path, self.children_items(n), q, x) == self.listed_alias_count(
                path,
                n,
                q,
                x,
            ),
        decreases n,
    {
        let m = path.len() as int;
        if q.len() == m + 1 {
            lemma_lookup(self.children, q[m]);
        }
        if n > 0 {
            let k = self.children[n - 1].0;
            let c = self.children[n - 1].1;
            let bare = ItemView { name: k, alias: None };
            let first = if c.has_self && !self.has_glob {
                seq![bare]
            } else {
                Seq::empty()
            };
            self.lemma_children_items_count(path, n - 1, q, x);
            lemma_items_count_concat(
                path,
                self.children_items(n - 1),
                self.child_items(n - 1),
                q,
                x,
            );
            lemma_items_count_concat(path, first, alias_items(k, c.renames), q, x);
            lemma_items_count_small(path, bare, q, x);
            assert(c.wf());
            assert(k != "self"@);
            lemma_alias_items_count(path, k, c.renames, q, x);
            lemma_lookup(self.children, k);
            if q == path.push(k) {
                assert(q.take(m) =~= path);
                assert(q[m] == k);
            } else if q.len() == m + 1 && q.take(m) == path && q[m] == k {
                assert(q =~= path.push(k));
            }
        } else {
            lemma_items_count_small(path, ItemView { name: x, alias: None }, q, x);
        }
    }

    /// What a node writes of itself declares each of its aliases once,
    /// unless the parent has listed them, and where it writes a list each
    /// alias of each child once.
    pub proof fn lemma_own_decls_count(
        self,
        path: Seq<Name>,
        self_done: bool,
        renames_done: bool,
        q: Seq<Name>,
        x: Name,
    )
        requires
            self.wf(),
            self.plain(),
        ensures
            alias_count(self.own_decls(path, self_done, renames_done), q, x) == one_if(
                q == path && !renames_done && self.renames.contains(x),
            ) + (if self.listed(self_done, renames_done) {
                self.listed_alias_count(path, self.children.len() as int, q, x)
            } else {
                0
            }),
    {
        let n = self.children.len() as int;
        let m = path.len() as int;
        let bundle = self.bundle(self_done, renames_done);
        let glob = if self.has_glob {
            seq![Decl::Glob(path)]
        } else {
            Seq::<Decl>::empty()
        };
        lemma_alias_count_small(Decl::Glob(path), q, x);
        assert(alias_count(glob, q, x) == 0);
        if self.listed(self_done, renames_done) {
            let list = seq![Decl::List(path, bundle)];
            let bare = ItemView { name: "self"@, alias: None };
            let first = if self.needs_self(self_done) {
                seq![bare]
            } else {
                Seq::empty()
            };
            let second = if renames_done {
                Seq::empty()
            } else {
                alias_items("self"@, self.renames)
            };
            lemma_alias_count_concat(list, glob, q, x);
            lemma_alias_count_small(Decl::List(path, bundle), q, x);
            lemma_items_count_concat(
                path,
                self.own_items(self_done, renames_done),
                self.children_items(n),
                q,
                x,
            );
            lemma_items_count_concat(path, first, second, q, x);
            lemma_items_count_small(path, bare, q, x);
            lemma_alias_items_count(path, "self"@, self.renames, q, x);
            self.lemma_children_items_count(path, n, q, x);
        } else {
            let first = if self.needs_self(self_done) {
                seq![Decl::Simple(path, None)]
            } else {
                Seq::<Decl>::empty()
            };
            let second = if renames_done {
                Seq::<Decl>::empty()
            } else {
                alias_decls(path, self.renames)
            };
            lemma_alias_count_concat(first, second, q, x);
            lemma_alias_count_concat(first + second, glob, q, x);
            lemma_alias_count_small(Decl::Simple(path, None), q, x);
            lemma_alias_decls_count(path, self.renames, q, x);
        }
    }

    /// The walk of a node declares each alias as often as it has to: once.
    pub proof fn lemma_walk_count(
        self,
        path: Seq<Name>,
        self_done: bool,
        renames_done: bool,
        q: Seq<Name>,
        x: Name,
    )
        requires
            self.wf(),
            self.plain(),
        ensures
            alias_count(self.emit(path, self_done, renames_done), q, x) == self.walk_alias_count(
                path,
                renames_done,
                q,
                x,
            ),
        decreases self, 1int,
    {
        let listed = self.listed(self_done, renames_done);
        let n = self.children.len() as int;
        let m = path.len() as int;
        let e = Seq::<Name>::empty();
        let own = self.own_decls(path, self_done, renames_done);
        let below = self.emit_kids(path, listed || self.has_glob, listed, n);
        lemma_alias_count_concat(own, below, q, x);
        self.lemma_own_decls_count(path, self_done, renames_done, q, x);
        self.lemma_kids_count(path, listed || self.has_glob, listed, n, q, x);
        if m <= q.len() && q.take(m) == path {
            if q.len() == m {
                assert(q.take(m) =~= q);
            } else {
                let k = q[m];
                let rest = q.skip(m);
                let rest1 = q.skip(m + 1);
                let c = child(self.children, k);
                lemma_lookup(self.children, k);
                assert(rest[0] == k);
                assert(rest.drop_first() =~= rest1);
                assert(self.descend(rest) == c.descend(rest1));
                assert(q.take(m + 1) =~= path.push(k));
                if rest1.len() == 0 {
                    assert(c.descend(rest1) == c);
                }
                if !has_key(self.children, k) {
                    Trie::lemma_empty_descend(rest1);
                }
            }
        } else if q == path {
            assert(q.take(m) =~= path);
        }
    }

    /// The walks of the first `n` children declare each alias as often as
    /// they have to.
    pub proof fn lemma_kids_count(
        self,
        path: Seq<Name>,
        self_done: bool,
        renames_done: bool,
        n: int,
        q: Seq<Name>,
        x: Name,
    )
        requires
            self.wf(),
            self.plain(),
            0 <= n <= self.children.len(),
        ensures
            alias_count(self.emit_kids(path, self_done, renames_done, n), q, x)
                == self.kids_alias_count(path, renames_done, n, q, x),
        decreases self, 0int, n,
    {
        let m = path.len() as int;
        if m < q.len() {
            lemma_lookup(self.children, q[m]);
        }
        if n > 0 {
            let k = self.children[n - 1].0;
            let c = self.children[n - 1].1;
            let before = self.emit_kids(path, self_done, renames_done, n - 1);
            let last = c.emit(path.push(k), self_done, renames_done);
            self.lemma_kids_count(path, self_done, renames_done, n - 1, q, x);
            assert(c.wf() && c.plain());
            c.lemma_walk_count(path.push(k), self_done, renames_done, q, x);
            lemma_alias_count_concat(before, last, q, x);
            lemma_lookup(self.children, k);
            if m < q.len() && q.take(m) == path && q[m] == k {
                assert(q.take(m + 1) =~= path.push(k));
            } else if m + 1 <= q.len() && q.take(m + 1) == path.push(k) {
                assert(q.take(m + 1)[m] == k);
                assert(q.take(m) =~= q.take(m + 1).take(m));
                assert(path.push(k).take(m) =~= path);
            }
        }
    }

    /// What is written for a well-formed trie without a segment `self`
    /// declares a path under an alias once where the node at the path has
    /// the alias, and not at all where it has not.
    pub proof fn lemma_alias_once(self, q: Seq<Name>, x: Name)
        requires
            self.wf(),
            self.plain(),
        ensures
            alias_count(self.emit(Seq::empty(), false, false), q, x) == one_if(
                self.descend(q).renames.contains(x),
            ),
    {
        let e = Seq::<Name>::empty();
        self.lemma_walk_count(e, false, false, q, x);
        assert(q.take(0) =~= e);
        assert(q.skip(0) =~= q);
        if q.len() == 0 {
            assert(self.descend(q) == self);
        }
    }

    /// The trie of a list has an alias at a path where an item of the list
    /// declares the path under that alias.
    pub proof fn lemma_items_renames(base: Seq<Name>, items: Seq<ItemView>, q: Seq<Name>, x: Name)
        ensures
            Trie::empty().add_items(base, items).descend(q).renames.contains(x) <==> exists|
                j: int,
            |
                0 <= j < items.len() && item_is_alias(base, #[trigger] items[j], q, x),
        decreases items.len(),
    {
        let e = Trie::empty();
        Trie::lemma_empty_wf();
        if items.len() == 0 {
            Trie::lemma_empty_descend(q);
        } else {
            let rest = items.drop_last();
            let it = items.last();
            let tp = Trie::target(base, it);
            let nl = Trie::bound(it.alias);
            let s = Trie::spine(tp, nl);
            let y = e.add_items(base, rest);
            Trie::lemma_items_renames(base, rest, q, x);
            e.lemma_add_items_is_merge(base, rest);
            Trie::lemma_leaf_wf(it.alias);
            Trie::lemma_spine_wf(tp, nl);
            y.lemma_graft_is_merge(tp, nl);
            y.lemma_merge_leaf_at(s, q);
            let m = y.merge(s);
            assert(m.descend(q).renames.contains(x) <==> m.leaf_at(q).renames.contains(x));
            assert(y.descend(q).renames.contains(x) <==> y.leaf_at(q).renames.contains(x));
            assert(s.descend(q).renames.contains(x) <==> s.leaf_at(q).renames.contains(x));
            Trie::lemma_spine_descend(tp, nl, q);
            if q == tp {
                match it.alias {
                    Some(a) => {
                        assert(nl.renames[0] == a);
                    },
                    None => {},
                }
            }
            assert(s.descend(q).renames.contains(x) <==> item_is_alias(base, it, q, x));
            if exists|j: int| 0 <= j < rest.len() && item_is_alias(base, #[trigger] rest[j], q, x) {
                let j = choose|j: int|
                    0 <= j < rest.len() && item_is_alias(base, #[trigger] rest[j], q, x);
                assert(items[j] == rest[j]);
            }
            if exists|j: int|
                0 <= j < items.len() && item_is_alias(base, #[trigger] items[j], q, x) {
                let j = choose|j: int|
                    0 <= j < items.len() && item_is_alias(base, #[trigger] items[j], q, x);
                if j < rest.len() {
                    assert(rest[j] == items[j]);
                }
            }
            if item_is_alias(base, it, q, x) {
                assert(items[items.len() - 1] == it);
            }
        }
    }

    /// The trie of a declaration has an alias at a path where the
    /// declaration declares the path under that alias.
    pub proof fn lemma_of_decl_renames(d: Decl, q: Seq<Name>, x: Name)
        ensures
            Trie::of_decl(d).descend(q).renames.contains(x) <==> names_alias(d, q, x),
    {
        let e = Trie::empty();
        Trie::lemma_empty_wf();
        match d {
            Decl::Simple(p, alias) => {
                let n = Trie::bound(alias);
                Trie::lemma_leaf_wf(alias);
                Trie::lemma_spine_wf(p, n);
                e.lemma_graft_is_merge(p, n);
                Trie::spine(p, n).lemma_merge_empty_left();
                Trie::lemma_spine_descend(p, n, q);
                if q == p {
                    match alias {
                        Some(a) => {
                            assert(n.renames[0] == a);
                        },
                        None => {},
                    }
                }
            },
            Decl::Glob(p) => {
                let n = Trie::wildcard();
                Trie::lemma_leaf_wf(None);
                Trie::lemma_spine_wf(p, n);
                e.lemma_graft_is_merge(p, n);
                Trie::spine(p, n).lemma_merge_empty_left();
                Trie::lemma_spine_descend(p, n, q);
            },
            Decl::List(p, items) => {
                Trie::lemma_items_renames(p, items, q, x);
            },
        }
    }
}

/// Some declaration of `ds` declares the path `q` under the alias `x`.
pub open spec fn any_names_alias(ds: Seq<Decl>, q: Seq<Name>, x: Name) -> bool {
    exists|i: int| 0 <= i < ds.len() && names_alias(#[trigger] ds[i], q, x)
}

/// Where no path of the input holds the segment `self`, the consolidated
/// list declares a path under an alias exactly once where the input
/// declares it so, however often, and not at all where the input does not.
pub proof fn lemma_combined_alias_once(ds: Seq<Decl>, q: Seq<Name>, x: Name)
    requires
        forall|i: int| 0 <= i < ds.len() ==> !(#[trigger] ds[i]).path().contains("self"@),
    ensures
        alias_count(combined(ds), q, x) == one_if(any_names_alias(ds, q, x)),
{
    let t = Trie::of_decls(ds);
    Trie::lemma_empty_wf();
    Trie::empty().lemma_add_decls_wf(ds);
    Trie::lemma_of_decls_plain(ds);
    t.lemma_alias_once(q, x);
    Trie::lemma_of_decls_leaf_at(ds, q);
    assert(t.descend(q).renames.contains(x) <==> t.leaf_at(q).renames.contains(x));
    assert(t.descend(q).renames.contains(x) <==> any_rename(ds, q, x));
    if any_rename(ds, q, x) {
        let d = choose|d: Decl| #[trigger]
            ds.contains(d) && Trie::of_decl(d).descend(q).renames.contains(x);
        Trie::lemma_of_decl_renames(d, q, x);
        let i = choose|i: int| 0 <= i < ds.len() && ds[i] == d;
        assert(names_alias(ds[i], q, x));
    }
    if any_names_alias(ds, q, x) {
        let i = choose|i: int| 0 <= i < ds.len() && names_alias(#[trigger] ds[i], q, x);
        Trie::lemma_of_decl_renames(ds[i], q, x);
        assert(ds.contains(ds[i]));
    }
}

} // verus!
