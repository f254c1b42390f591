//! The walk writes declarations that bind exactly what the trie binds, so
//! the consolidated list binds what the input binds.

use vstd::prelude::*;
use crate::algebra::lemma_lookup;
use crate::decl::{Decl, ItemView};
use crate::emit::{alias_decls, alias_items, combined};
use crate::gather::any_path;
use crate::meaning::{any_binds, bindings, binds, item_binds, items_bind, own_name};
use crate::sorted::Name;
use crate::trie::{child, has_key, slot, Trie};

verus! {

/// Two lists of declarations together bind what either binds.
pub proof fn lemma_any_binds_concat(a: Seq<Decl>, b: Seq<Decl>, q: Seq<Name>, name: Name)
    ensures
        any_binds(a + b, q, name) <==> any_binds(a, q, name) || any_binds(b, q, name),
{
    let ab = a + b;
    if any_binds(ab, q, name) {
        let i = choose|i: int| 0 <= i < ab.len() && binds(#[trigger] ab[i], q, name);
        if i < a.len() {
            assert(a[i] == ab[i]);
        } else {
            assert(b[i - a.len()] == ab[i]);
        }
    }
    if any_binds(a, q, name) {
        let i = choose|i: int| 0 <= i < a.len() && binds(#[trigger] a[i], q, name);
        assert(ab[i] == a[i]);
    }
    if any_binds(b, q, name) {
        let i = choose|i: int| 0 <= i < b.len() && binds(#[trigger] b[i], q, name);
        assert(ab[a.len() + i] == b[i]);
    }
}

/// Two lists of items together bind what either binds.
pub proof fn lemma_items_bind_concat(
    base: Seq<Name>,
    a: Seq<ItemView>,
    b: Seq<ItemView>,
    q: Seq<Name>,
    name: Name,
)
    ensures
        items_bind(base, a + b, q, name) <==> items_bind(base, a, q, name) || items_bind(
            base,
            b,
            q,
            name,
        ),
{
    let ab = a + b;
    if items_bind(base, ab, q, name) {
        let i = choose|i: int| 0 <= i < ab.len() && item_binds(base, #[trigger] ab[i], q, name);
        if i < a.len() {
            assert(a[i] == ab[i]);
        } else {
            assert(b[i - a.len()] == ab[i]);
        }
    }
    if items_bind(base, a, q, name) {
        let i = choose|i: int| 0 <= i < a.len() && item_binds(base, #[trigger] a[i], q, name);
        assert(ab[i] == a[i]);
    }
    if items_bind(base, b, q, name) {
        let i = choose|i: int| 0 <= i < b.len() && item_binds(base, #[trigger] b[i], q, name);
        assert(ab[a.len() + i] == b[i]);
    }
}

/// The items `k as r` bind the path of `k` under each `r`.
pub proof fn lemma_alias_items_bind(
    base: Seq<Name>,
    k: Name,
    renames: Seq<Name>,
    q: Seq<Name>,
    name: Name,
)
    ensures
        items_bind(base, alias_items(k, renames), q, name) <==> q == Trie::target(
            base,
            ItemView { name: k, alias: None },
        ) && renames.contains(name),
{
    let items = alias_items(k, renames);
    if items_bind(base, items, q, name) {
        let j = choose|j: int|
            0 <= j < items.len() && item_binds(base, #[trigger] items[j], q, name);
        assert(renames[j] == name);
    }
    if renames.contains(name) && q == Trie::target(base, ItemView { name: k, alias: None }) {
        let j = choose|j: int| 0 <= j < renames.len() && renames[j] == name;
        assert(item_binds(base, items[j], q, name));
    }
}

/// The declarations `path as r` bind `path` under each `r`.
pub proof fn lemma_alias_decls_bind(
    path: Seq<Name>,
    renames: Seq<Name>,
    q: Seq<Name>,
    name: Name,
)
    ensures
        any_binds(alias_decls(path, renames), q, name) <==> q == path && renames.contains(name),
{
    let ds = alias_decls(path, renames);
    if any_binds(ds, q, name) {
        let j = choose|j: int| 0 <= j < ds.len() && binds(#[trigger] ds[j], q, name);
        assert(renames[j] == name);
    }
    if renames.contains(name) && q == path {
        let j = choose|j: int| 0 <= j < renames.len() && renames[j] == name;
        assert(binds(ds[j], q, name));
    }
}

impl Trie {
    /// What the node at `path` binds of itself.
    pub open spec fn own_binds(
        self,
        path: Seq<Name>,
        self_done: bool,
        renames_done: bool,
        q: Seq<Name>,
        name: Name,
    ) -> bool {
        q == path && ((self.needs_self(self_done) && name == own_name(q)) || (!renames_done
            && self.renames.contains(name)))
    }

    /// What the items of the child at index `i` bind in a list at `path`.
    pub open spec fn child_binds(self, path: Seq<Name>, i: int, q: Seq<Name>, name: Name) -> bool {
        let k = self.children[i].0;
        let c = self.children[i].1;
        q == path.push(k) && ((c.has_self && !self.has_glob && name == k) || c.renames.contains(
            name,
        ))
    }

    /// What the items of the first `n` children bind in a list at `path`.
    pub open spec fn listed_binds(self, path: Seq<Name>, n: int, q: Seq<Name>, name: Name) -> bool {
        exists|i: int| 0 <= i < n && #[trigger] self.child_binds(path, i, q, name)
    }

    /// What a wildcard at `path` binds.
    pub open spec fn glob_binds(self, path: Seq<Name>, q: Seq<Name>, name: Name) -> bool {
        self.has_glob && q.len() > 0 && q.drop_last() == path && name == q.last()
    }

    /// What the walk of this node, which stands at `path`, has to bind:
    /// at `path` itself what the parent has left to it, below `path`
    /// everything.
    pub open spec fn walk_binds(
        self,
        path: Seq<Name>,
        self_done: bool,
        renames_done: bool,
        q: Seq<Name>,
        name: Name,
    ) -> bool {
        &&& path.len() <= q.len()
        &&& q.take(path.len() as int) == path
        &&& if q.len() == path.len() {
            (self.needs_self(self_done) && name == own_name(q)) || (!renames_done
                && self.renames.contains(name))
        } else {
            self.binds(q.skip(path.len() as int), name)
        }
    }

    /// What the walks of the first `n` children have to bind.
    pub open spec fn kids_walk_bind(
        self,
        path: Seq<Name>,
        self_done: bool,
        renames_done: bool,
        n: int,
        q: Seq<Name>,
        name: Name,
    ) -> bool {
        exists|i: int|
            0 <= i < n && (#[trigger] self.children[i]).1.walk_binds(
                path.push(self.children[i].0),
                self_done,
                renames_done,
                q,
                name,
            )
    }

    /// The items that stand for the node itself bind the node's own path:
    /// under its own name, and under each alias.
    pub proof fn lemma_own_items_bind(
        self,
        path: Seq<Name>,
        self_done: bool,
        renames_done: bool,
        q: Seq<Name>,
        name: Name,
    )
        ensures
            items_bind(path, self.own_items(self_done, renames_done), q, name) <==> self.own_binds(
                path,
                self_done,
                renames_done,
                q,
                name,
            ),
    {
        let bare = ItemView { name: "self"@, alias: None };
        let first = if self.needs_self(self_done) {
            seq![bare]
        } else {
            Seq::empty()
        };
        let second = if renames_done {
            Seq::empty()
        } else {
            alias_items("self"@, self.renames)
        };
        lemma_items_bind_concat(path, first, second, q, name);
        lemma_alias_items_bind(path, "self"@, self.renames, q, name);
        if self.needs_self(self_done) {
            assert(first[0] == bare);
        }
    }

    /// The items of one child bind the child's path: under its own name,
    /// unless a wildcard covers that, and under each alias.
    pub proof fn lemma_child_items_bind(self, path: Seq<Name>, i: int, q: Seq<Name>, name: Name)
        requires
            0 <= i < self.children.len(),
            self.children[i].0 != "self"@ || self.child_items(i).len() == 0,
        ensures
            items_bind(path, self.child_items(i), q, name) <==> self.child_binds(path, i, q, name),
    {
        let k = self.children[i].0;
        let c = self.children[i].1;
        if c.renames.contains(name) {
            assert(alias_items(k, c.renames).len() > 0);
        }
        let bare = ItemView { name: k, alias: None };
        let first = if c.has_self && !self.has_glob {
            seq![bare]
        } else {
            Seq::empty()
        };
        lemma_items_bind_concat(path, first, alias_items(k, c.renames), q, name);
        lemma_alias_items_bind(path, k, c.renames, q, name);
        if c.has_self && !self.has_glob {
            assert(first[0] == bare);
        }
    }

    /// The items of the first `n` children bind what the items of each of
    /// them bind.
    pub proof fn lemma_children_items_bind(
        self,
        path: Seq<Name>,
        n: int,
        q: Seq<Name>,
        name: Name,
    )
        requires
            0 <= n <= self.children.len(),
            self.no_self_items(),
        ensures
            items_bind(path, self.children_items(n), q, name) <==> self.listed_binds(
                path,
                n,
                q,
                name,
            ),
        decreases n,
    {
        if n > 0 {
            self.lemma_children_items_bind(path, n - 1, q, name);
            assert(self.children[n - 1].0 != "self"@ || self.child_items(n - 1).len() == 0);
            self.lemma_child_items_bind(path, n - 1, q, name);
            lemma_items_bind_concat(
                path,
                self.children_items(n - 1),
                self.child_items(n - 1),
                q,
                name,
            );
            if self.listed_binds(path, n - 1, q, name) {
                let i = choose|i: int|
                    0 <= i < n - 1 && #[trigger] self.child_binds(path, i, q, name);
                assert(self.child_binds(path, i, q, name));
            }
            if self.listed_binds(path, n, q, name) {
                let i = choose|i: int| 0 <= i < n && #[trigger] self.child_binds(path, i, q, name);
                if i < n - 1 {
                    assert(self.child_binds(path, i, q, name));
                }
            }
        }
    }

    /// What the node itself writes binds the node's own names, the names
    /// of its children where it writes a list, and what its wildcard
    /// covers.
    pub proof fn lemma_own_decls_bind(
        self,
        path: Seq<Name>,
        self_done: bool,
        renames_done: bool,
        q: Seq<Name>,
        name: Name,
    )
        requires
            self.listed(self_done, renames_done) ==> self.no_self_items(),
        ensures
            any_binds(self.own_decls(path, self_done, renames_done), q, name) <==> (self.own_binds(
                path,
                self_done,
                renames_done,
                q,
                name,
            ) || (self.listed(self_done, renames_done) && self.listed_binds(
                path,
                self.children.len() as int,
                q,
                name,
            )) || self.glob_binds(path, q, name)),
    {
        let n = self.children.len() as int;
        let bundle = self.bundle(self_done, renames_done);
        let glob = if self.has_glob {
            seq![Decl::Glob(path)]
        } else {
            Seq::<Decl>::empty()
        };
        if self.has_glob {
            assert(glob[0] == Decl::Glob(path));
        }
        assert(any_binds(glob, q, name) <==> self.glob_binds(path, q, name));
        if self.listed(self_done, renames_done) {
            let list = seq![Decl::List(path, bundle)];
            assert(list[0] == Decl::List(path, bundle));
            lemma_any_binds_concat(list, glob, q, name);
            lemma_items_bind_concat(
                path,
                self.own_items(self_done, renames_done),
                self.children_items(n),
                q,
                name,
            );
            self.lemma_own_items_bind(path, self_done, renames_done, q, name);
            self.lemma_children_items_bind(path, n, q, name);
            assert(any_binds(list, q, name) <==> items_bind(path, bundle, q, name));
        } else {
            let first = if self.needs_self(self_done) {
                seq![Decl::Simple(path, None)]
            } else {
                Seq::<Decl>::empty()
            };
            let second = if renames_done {
                Seq::<Decl>::empty()
            } else {
                alias_decls(path, self.renames)
            };
            if self.needs_self(self_done) {
                assert(first[0] == Decl::Simple(path, None));
            }
            lemma_any_binds_concat(first, second, q, name);
            lemma_any_binds_concat(first + second, glob, q, name);
            lemma_alias_decls_bind(path, self.renames, q, name);
        }
    }

    /// What the node writes of itself and what the walks of its children
    /// bind is, together, part of what the walk of the node has to bind.
    pub proof fn lemma_walk_sound(
        self,
        path: Seq<Name>,
        self_done: bool,
        renames_done: bool,
        q: Seq<Name>,
        name: Name,
    )
        requires
            self.wf(),
            self.own_binds(path, self_done, renames_done, q, name) || (self.listed(
                self_done,
                renames_done,
            ) && self.listed_binds(path, self.children.len() as int, q, name)) || self.glob_binds(
                path,
                q,
                name,
            ) || self.kids_walk_bind(
                path,
                self.listed(self_done, renames_done) || self.has_glob,
                self.listed(self_done, renames_done),
                self.children.len() as int,
                q,
                name,
            ),
        ensures
            self.walk_binds(path, self_done, renames_done, q, name),
    {
        let listed = self.listed(self_done, renames_done);
        let n = self.children.len() as int;
        let m = path.len() as int;
        let e = Seq::<Name>::empty();
        if self.own_binds(path, self_done, renames_done, q, name) {
            assert(q.take(m) =~= path);
        } else if listed && self.listed_binds(path, n, q, name) {
            let i = choose|i: int| 0 <= i < n && #[trigger] self.child_binds(path, i, q, name);
            let k = self.children[i].0;
            let c = self.children[i].1;
            let rest = q.skip(m);
            lemma_lookup(self.children, k);
            assert(q.take(m) =~= path);
            assert(rest =~= seq![k]);
            assert(rest.drop_first() =~= e);
            assert(rest.drop_last() =~= e);
            assert(c.descend(e) == c);
            assert(self.descend(rest) == c);
        } else if self.glob_binds(path, q, name) {
            let rest = q.skip(m);
            assert(q.take(m) =~= q.drop_last());
            assert(rest.drop_last() =~= e);
            assert(self.descend(e) == self);
            assert(rest.last() == q.last());
        } else {
            let i = choose|i: int|
                0 <= i < n && (#[trigger] self.children[i]).1.walk_binds(
                    path.push(self.children[i].0),
                    listed || self.has_glob,
                    listed,
                    q,
                    name,
                );
            let k = self.children[i].0;
            let c = self.children[i].1;
            let rest = q.skip(m);
            let rest1 = q.skip(m + 1);
            lemma_lookup(self.children, k);
            assert(q.take(m + 1)[m] == k);
            assert(q.take(m) =~= q.take(m + 1).take(m));
            assert(path.push(k).take(m) =~= path);
            assert(rest[0] == k);
            assert(rest.drop_first() =~= rest1);
            assert(self.descend(rest) == c.descend(rest1));
            assert(rest.last() == q.last());
            if q.len() == m + 1 {
                assert(rest1 =~= e);
                assert(c.descend(e) == c);
            } else {
                assert(rest1.last() == q.last());
                assert(rest.drop_last().drop_first() =~= rest1.drop_last());
                assert(rest.drop_last()[0] == k);
                assert(self.descend(rest.drop_last()) == c.descend(rest1.drop_last()));
            }
        }
    }

    /// What the walk of the node has to bind is bound by what the node
    /// writes of itself or by the walk of one of its children.
    pub proof fn lemma_walk_complete(
        self,
        path: Seq<Name>,
        self_done: bool,
        renames_done: bool,
        q: Seq<Name>,
        name: Name,
    )
        requires
            self.wf(),
            self.walk_binds(path, self_done, renames_done, q, name),
        ensures
            self.own_binds(path, self_done, renames_done, q, name) || (self.listed(
                self_done,
                renames_done,
            ) && self.listed_binds(path, self.children.len() as int, q, name)) || self.glob_binds(
                path,
                q,
                name,
            ) || self.kids_walk_bind(
                path,
                self.listed(self_done, renames_done) || self.has_glob,
                self.listed(self_done, renames_done),
                self.children.len() as int,
                q,
                name,
            ),
    {
        let listed = self.listed(self_done, renames_done);
        let n = self.children.len() as int;
        let m = path.len() as int;
        let e = Seq::<Name>::empty();
        if q.len() == m {
            assert(q.take(m) =~= q);
        } else {
            let rest = q.skip(m);
            let k = rest[0];
            let rest1 = q.skip(m + 1);
            lemma_lookup(self.children, k);
            assert(rest.drop_first() =~= rest1);
            assert(rest.last() == q.last());
            assert(q.take(m + 1) =~= path.push(k));
            assert(self.descend(rest) == child(self.children, k).descend(rest1));
            if rest1.len() == 0 {
                assert(rest.drop_last() =~= e);
                assert(self.descend(e) == self);
                assert(q.drop_last() =~= path);
                assert(q =~= path.push(k));
                assert(rest.last() == k);
                assert(child(self.children, k).descend(e) == child(self.children, k));
            } else {
                assert(rest1.last() == q.last());
                assert(rest.drop_last().drop_first() =~= rest1.drop_last());
                assert(rest.drop_last()[0] == k);
                assert(self.descend(rest.drop_last()) == child(self.children, k).descend(
                    rest1.drop_last(),
                ));
            }
            if has_key(self.children, k) {
                let i = slot(self.children, k);
                let c = self.children[i].1;
                if self.glob_binds(path, q, name) {
                } else if rest1.len() == 0 {
                    if listed {
                        assert(self.child_binds(path, i, q, name));
                    } else {
                        assert(c.walk_binds(path.push(k), self.has_glob, false, q, name));
                    }
                } else {
                    assert(c.walk_binds(path.push(k), listed || self.has_glob, listed, q, name));
                }
            } else {
                Trie::lemma_empty_descend(rest1);
                if rest1.len() > 0 {
                    Trie::lemma_empty_descend(rest1.drop_last());
                }
            }
        }
    }

    /// The walk of a node binds exactly what it has to bind.
    pub proof fn lemma_walk(
        self,
        path: Seq<Name>,
        self_done: bool,
        renames_done: bool,
        q: Seq<Name>,
        name: Name,
    )
        requires
            self.wf(),
            self.unambiguous(self_done, renames_done),
        ensures
            any_binds(self.emit(path, self_done, renames_done), q, name) <==> self.walk_binds(
                path,
                self_done,
                renames_done,
                q,
                name,
            ),
        decreases self, 1int,
    {
        let listed = self.listed(self_done, renames_done);
        let n = self.children.len() as int;
        let own = self.own_decls(path, self_done, renames_done);
        let below = self.emit_kids(path, listed || self.has_glob, listed, n);
        lemma_any_binds_concat(own, below, q, name);
        self.lemma_own_decls_bind(path, self_done, renames_done, q, name);
        self.lemma_walk_kids(path, listed || self.has_glob, listed, n, q, name);
        if self.walk_binds(path, self_done, renames_done, q, name) {
            self.lemma_walk_complete(path, self_done, renames_done, q, name);
        }
        if any_binds(self.emit(path, self_done, renames_done), q, name) {
            self.lemma_walk_sound(path, self_done, renames_done, q, name);
        }
    }

    /// The walks of the first `n` children bind exactly what they have to
    /// bind.
    pub proof fn lemma_walk_kids(
        self,
        path: Seq<Name>,
        self_done: bool,
        renames_done: bool,
        n: int,
        q: Seq<Name>,
        name: Name,
    )
        requires
            self.wf(),
            0 <= n <= self.children.len(),
            forall|i: int|
                0 <= i < self.children.len() ==> (#[trigger] self.children[i]).1.unambiguous(
                    self_done,
                    renames_done,
                ),
        ensures
            any_binds(self.emit_kids(path, self_done, renames_done, n), q, name)
                <==> self.kids_walk_bind(path, self_done, renames_done, n, q, name),
        decreases self, 0int, n,
    {
        if n > 0 {
            let k = self.children[n - 1].0;
            let c = self.children[n - 1].1;
            let before = self.emit_kids(path, self_done, renames_done, n - 1);
            let last = c.emit(path.push(k), self_done, renames_done);
            self.lemma_walk_kids(path, self_done, renames_done, n - 1, q, name);
            assert(self.children[n - 1].1.wf());
            c.lemma_walk(path.push(k), self_done, renames_done, q, name);
            lemma_any_binds_concat(before, last, q, name);
            if self.kids_walk_bind(path, self_done, renames_done, n - 1, q, name) {
                let i = choose|i: int|
                    0 <= i < n - 1 && (#[trigger] self.children[i]).1.walk_binds(
                        path.push(self.children[i].0),
                        self_done,
                        renames_done,
                        q,
                        name,
                    );
                assert(self.children[i].1.walk_binds(
                    path.push(self.children[i].0),
                    self_done,
                    renames_done,
                    q,
                    name,
                ));
            }
            if self.kids_walk_bind(path, self_done, renames_done, n, q, name) {
                let i = choose|i: int|
                    0 <= i < n && (#[trigger] self.children[i]).1.walk_binds(
                        path.push(self.children[i].0),
                        self_done,
                        renames_done,
                        q,
                        name,
                    );
                if i < n - 1 {
                    assert(self.children[i].1.walk_binds(
                        path.push(self.children[i].0),
                        self_done,
                        renames_done,
                        q,
                        name,
                    ));
                }
            }
        }
    }

    /// What is written for a trie binds what the trie binds, where no list
    /// holds an item for a child under the segment `self`.
    pub proof fn lemma_emit_binds(self, q: Seq<Name>, name: Name)
        requires
            self.wf(),
            self.unambiguous(false, false),
        ensures
            any_binds(self.emit(Seq::empty(), false, false), q, name) <==> self.binds(q, name),
    {
        let e = Seq::<Name>::empty();
        self.lemma_walk(e, false, false, q, name);
        assert(q.take(0) =~= e);
        assert(q.skip(0) =~= q);
        if q.len() == 0 {
            assert(self.descend(q) == self);
        }
    }
}

/// The consolidated list binds what the input binds, where no list in it
/// holds an item for a child under the segment `self`: in a list such an
/// item reads as the list's own path.
pub proof fn lemma_round_trip(ds: Seq<Decl>)
    requires
        Trie::of_decls(ds).unambiguous(false, false),
    ensures
        bindings(combined(ds)) == bindings(ds),
{
    let t = Trie::of_decls(ds);
    Trie::lemma_empty_wf();
    Trie::empty().lemma_add_decls_wf(ds);
    assert forall|b: (Seq<Name>, Name)|
        bindings(combined(ds)).contains(b) <==> bindings(ds).contains(b) by {
        t.lemma_emit_binds(b.0, b.1);
        Trie::lemma_of_decls_binds(ds, b.0, b.1);
    }
    assert(bindings(combined(ds)) =~= bindings(ds));
}

impl Trie {
    /// A trie without a segment `self` has no list that could be misread.
    pub proof fn lemma_plain_unambiguous(self, self_done: bool, renames_done: bool)
        requires
            self.plain(),
        ensures
            self.unambiguous(self_done, renames_done),
        decreases self,
    {
        let listed = self.listed(self_done, renames_done);
        assert forall|i: int| 0 <= i < self.children.len() implies (
        #[trigger] self.children[i]).1.unambiguous(listed || self.has_glob, listed) by {
            self.children[i].1.lemma_plain_unambiguous(listed || self.has_glob, listed);
        }
    }

    /// A well-formed trie none of whose paths holds the segment `self` has
    /// no such segment.
    pub proof fn lemma_paths_plain(self)
        requires
            self.wf(),
            forall|p: Seq<Name>| #[trigger] self.has_path(p) ==> !p.contains("self"@),
        ensures
            self.plain(),
        decreases self,
    {
        let e = Seq::<Name>::empty();
        assert forall|i: int| 0 <= i < self.children.len() implies (
        #[trigger] self.children[i]).0 != "self"@ && self.children[i].1.plain() by {
            let k = self.children[i].0;
            let c = self.children[i].1;
            lemma_lookup(self.children, k);
            let p = seq![k];
            assert(p.drop_first() =~= e);
            assert(c.has_path(e));
            assert(self.has_path(p));
            assert(p[0] == k);
            assert forall|r: Seq<Name>| #[trigger] c.has_path(r) implies !r.contains("self"@) by {
                let pr = seq![k] + r;
                assert(pr.drop_first() =~= r);
                assert(self.has_path(pr));
                if r.contains("self"@) {
                    let j = choose|j: int| 0 <= j < r.len() && r[j] == "self"@;
                    assert(pr[j + 1] == "self"@);
                }
            }
            c.lemma_paths_plain();
        }
    }

    /// Every node of the trie of a list lies on the way to the target of
    /// one of the items.
    pub proof fn lemma_items_paths(base: Seq<Name>, items: Seq<ItemView>, p: Seq<Name>)
        requires
            Trie::empty().add_items(base, items).has_path(p),
            p.len() > 0,
        ensures
            exists|j: int|
                0 <= j < items.len() && p.len() <= Trie::target(base, #[trigger] items[j]).len()
                    && Trie::target(base, items[j]).take(p.len() as int) == p,
        decreases items.len(),
    {
        let e = Trie::empty();
        Trie::lemma_empty_wf();
        if items.len() == 0 {
            Trie::lemma_empty_descend(p);
        } else {
            let rest = items.drop_last();
            let it = items.last();
            let tp = Trie::target(base, it);
            let nl = Trie::bound(it.alias);
            let x = e.add_items(base, rest);
            e.lemma_add_items_is_merge(base, rest);
            Trie::lemma_leaf_wf(it.alias);
            Trie::lemma_spine_wf(tp, nl);
            x.lemma_graft_is_merge(tp, nl);
            x.lemma_merge_descend(Trie::spine(tp, nl), p);
            if x.has_path(p) {
                Trie::lemma_items_paths(base, rest, p);
                let j = choose|j: int|
                    0 <= j < rest.len() && p.len() <= Trie::target(base, #[trigger] rest[j]).len()
                        && Trie::target(base, rest[j]).take(p.len() as int) == p;
                assert(items[j] == rest[j]);
            } else {
                Trie::lemma_spine_descend(tp, nl, p);
                assert(items[items.len() - 1] == it);
            }
        }
    }

    /// No path in the trie of a declaration holds the segment `self`,
    /// where the declaration's own path holds none.
    pub proof fn lemma_of_decl_paths(d: Decl, p: Seq<Name>)
        requires
            !d.path().contains("self"@),
            Trie::of_decl(d).has_path(p),
        ensures
            !p.contains("self"@),
    {
        let e = Trie::empty();
        Trie::lemma_empty_wf();
        if p.contains("self"@) {
            let i = choose|i: int| 0 <= i < p.len() && p[i] == "self"@;
            match d {
                Decl::Simple(pp, alias) => {
                    let n = Trie::bound(alias);
                    Trie::lemma_leaf_wf(alias);
                    Trie::lemma_spine_wf(pp, n);
                    e.lemma_graft_is_merge(pp, n);
                    Trie::spine(pp, n).lemma_merge_empty_left();
                    Trie::lemma_spine_descend(pp, n, p);
                    assert(pp.take(p.len() as int)[i] == pp[i]);
                },
                Decl::Glob(pp) => {
                    let n = Trie::wildcard();
                    Trie::lemma_leaf_wf(None);
                    Trie::lemma_spine_wf(pp, n);
                    e.lemma_graft_is_merge(pp, n);
                    Trie::spine(pp, n).lemma_merge_empty_left();
                    Trie::lemma_spine_descend(pp, n, p);
                    assert(pp.take(p.len() as int)[i] == pp[i]);
                },
                Decl::List(pp, items) => {
                    Trie::lemma_items_paths(pp, items, p);
                    let j = choose|j: int|
                        0 <= j < items.len() && p.len() <= Trie::target(
                            pp,
                            #[trigger] items[j],
                        ).len() && Trie::target(pp, items[j]).take(p.len() as int) == p;
                    let tp = Trie::target(pp, items[j]);
                    assert(tp.take(p.len() as int)[i] == tp[i]);
                    if i < pp.len() {
                        assert(pp[i] == tp[i]);
                    }
                },
            }
        }
    }

    /// The trie of declarations whose paths hold no segment `self` has no
    /// such segment.
    pub proof fn lemma_of_decls_plain(ds: Seq<Decl>)
        requires
            forall|i: int| 0 <= i < ds.len() ==> !(#[trigger] ds[i]).path().contains("self"@),
        ensures
            Trie::of_decls(ds).plain(),
    {
        let t = Trie::of_decls(ds);
        Trie::lemma_empty_wf();
        Trie::empty().lemma_add_decls_wf(ds);
        assert forall|p: Seq<Name>| #[trigger] t.has_path(p) implies !p.contains("self"@) by {
            Trie::lemma_of_decls_leaf_at(ds, p);
            if p.len() > 0 {
                assert(any_path(ds, p));
                let d = choose|d: Decl| #[trigger] ds.contains(d) && Trie::of_decl(d).has_path(p);
                let i = choose|i: int| 0 <= i < ds.len() && ds[i] == d;
                assert(!ds[i].path().contains("self"@));
                Trie::lemma_of_decl_paths(d, p);
            }
        }
        t.lemma_paths_plain();
    }
}

/// The consolidated list binds what the input binds, where no path of the
/// input holds the segment `self`.
pub proof fn lemma_round_trip_plain(ds: Seq<Decl>)
    requires
        forall|i: int| 0 <= i < ds.len() ==> !(#[trigger] ds[i]).path().contains("self"@),
    ensures
        bindings(combined(ds)) == bindings(ds),
{
    Trie::lemma_of_decls_plain(ds);
    Trie::of_decls(ds).lemma_plain_unambiguous(false, false);
    lemma_round_trip(ds);
}

} // verus!
