//! Laws of the written list: it does not depend on the order of the input,
//! a list is written exactly where the bundle is long enough, and a
//! wildcard takes the place of the bare names below it, never of an alias.

use vstd::prelude::*;
use crate::decl::{Decl, ItemView};
use crate::emit::{alias_decls, combined, CONFIG_MIN_IMPORT_ITEM_LIST_LENGTH};
use crate::sorted::Name;
use crate::trie::Trie;

verus! {

/// `d` declares the path `q` under its own name.
pub open spec fn names_bare(d: Decl, q: Seq<Name>) -> bool {
    match d {
        Decl::Simple(p, alias) => alias is None && p == q,
        Decl::Glob(_) => false,
        Decl::List(p, items) => exists|j: int|
            0 <= j < items.len() && (#[trigger] items[j]).alias is None && Trie::target(
                p,
                items[j],
            ) == q,
    }
}

/// The consolidated list is the same for every order of the input.
pub proof fn lemma_combined_order_independent(ds1: Seq<Decl>, ds2: Seq<Decl>)
    requires
        ds1.to_multiset() == ds2.to_multiset(),
    ensures
        combined(ds1) == combined(ds2),
{
    Trie::lemma_order_independent(ds1, ds2);
}

/// The consolidated list is the same for two inputs that hold the same
/// declarations, however often each.
pub proof fn lemma_combined_ignores_repeats(ds1: Seq<Decl>, ds2: Seq<Decl>)
    requires
        forall|d: Decl| ds1.contains(d) <==> ds2.contains(d),
    ensures
        combined(ds1) == combined(ds2),
{
    Trie::lemma_same_decls_same_trie(ds1, ds2);
}

impl Trie {
    /// Where the bundle has at least the least number of items of a list,
    /// which is three, the node writes it as one list, followed by nothing
    /// but the wildcard. Where it has fewer, the node writes no list: its
    /// own name and its aliases come one by one.
    pub proof fn lemma_threshold(self, path: Seq<Name>, self_done: bool, renames_done: bool)
        ensures
            ({
                let bundle = self.bundle(self_done, renames_done);
                let own = self.own_decls(path, self_done, renames_done);
                let name = if self.needs_self(self_done) {
                    seq![Decl::Simple(path, None)]
                } else {
                    Seq::empty()
                };
                let aliases = if renames_done {
                    Seq::empty()
                } else {
                    alias_decls(path, self.renames)
                };
                let glob = if self.has_glob {
                    seq![Decl::Glob(path)]
                } else {
                    Seq::empty()
                };
                &&& bundle.len() >= CONFIG_MIN_IMPORT_ITEM_LIST_LENGTH ==> own == seq![
                    Decl::List(path, bundle),
                ] + glob
                &&& bundle.len() < CONFIG_MIN_IMPORT_ITEM_LIST_LENGTH ==> own == name + aliases
                    + glob
                &&& bundle.len() < CONFIG_MIN_IMPORT_ITEM_LIST_LENGTH ==> forall|j: int|
                    0 <= j < own.len() ==> !(#[trigger] own[j] is List)
            }),
    {
    }

    /// Every list in what is written has at least the least number of
    /// items.
    pub proof fn lemma_lists_are_long(self, path: Seq<Name>, self_done: bool, renames_done: bool)
        ensures
            forall|j: int|
                0 <= j < self.emit(path, self_done, renames_done).len() ==> (
                #[trigger] self.emit(path, self_done, renames_done)[j] matches Decl::List(_, items)
                    ==> items.len() >= CONFIG_MIN_IMPORT_ITEM_LIST_LENGTH),
        decreases self, 1int,
    {
        let listed = self.listed(self_done, renames_done);
        self.lemma_threshold(path, self_done, renames_done);
        self.lemma_kids_lists_are_long(
            path,
            listed || self.has_glob,
            listed,
            self.children.len() as int,
        );
    }

    /// Every list in what is written for the first `n` children has at
    /// least the least number of items.
    pub proof fn lemma_kids_lists_are_long(
        self,
        path: Seq<Name>,
        self_done: bool,
        renames_done: bool,
        n: int,
    )
        requires
            0 <= n <= self.children.len(),
        ensures
            forall|j: int|
                0 <= j < self.emit_kids(path, self_done, renames_done, n).len() ==> (
                #[trigger] self.emit_kids(path, self_done, renames_done, n)[j] matches Decl::List(
                    _,
                    items,
                ) ==> items.len() >= CONFIG_MIN_IMPORT_ITEM_LIST_LENGTH),
        decreases self, 0int, n,
    {
        if n > 0 {
            self.lemma_kids_lists_are_long(path, self_done, renames_done, n - 1);
            self.children[n - 1].1.lemma_lists_are_long(
                path.push(self.children[n - 1].0),
                self_done,
                renames_done,
            );
        }
    }

    /// Under a wildcard the children contribute aliased items only.
    pub proof fn lemma_glob_children_items(self, n: int)
        requires
            self.has_glob,
            0 <= n <= self.children.len(),
        ensures
            forall|j: int|
                0 <= j < self.children_items(n).len() ==> (
                #[trigger] self.children_items(n)[j]).alias is Some,
        decreases n,
    {
        if n > 0 {
            self.lemma_glob_children_items(n - 1);
        }
    }

    /// At a node with a wildcard, nothing that the node itself writes
    /// declares a child under the child's own name.
    pub proof fn lemma_glob_absorbs(
        self,
        path: Seq<Name>,
        self_done: bool,
        renames_done: bool,
        k: Name,
    )
        requires
            self.has_glob,
        ensures
            forall|j: int|
                0 <= j < self.bundle(self_done, renames_done).len() && (
                #[trigger] self.bundle(self_done, renames_done)[j]).alias is None
                    ==> self.bundle(self_done, renames_done)[j].name == "self"@,
            forall|j: int|
                0 <= j < self.own_decls(path, self_done, renames_done).len() ==> !names_bare(
                    #[trigger] self.own_decls(path, self_done, renames_done)[j],
                    path.push(k),
                ),
    {
        let bundle = self.bundle(self_done, renames_done);
        let own = self.own_decls(path, self_done, renames_done);
        self.lemma_glob_children_items(self.children.len() as int);
        assert forall|j: int| 0 <= j < own.len() implies !names_bare(
            #[trigger] own[j],
            path.push(k),
        ) by {
            assert(path.push(k).len() != path.len());
            if names_bare(own[j], path.push(k)) {
                if own[j] is List {
                    let i = choose|i: int|
                        0 <= i < bundle.len() && (#[trigger] bundle[i]).alias is None
                            && Trie::target(path, bundle[i]) == path.push(k);
                    assert(bundle[i].name == "self"@);
                }
            }
        }
    }

    /// The items of one child stand in the items of the children.
    pub proof fn lemma_child_items_kept(self, n: int, i: int, j: int)
        requires
            0 <= i < n <= self.children.len(),
            0 <= j < self.child_items(i).len(),
        ensures
            self.children_items(n).contains(self.child_items(i)[j]),
        decreases n,
    {
        let all = self.children_items(n);
        let before = self.children_items(n - 1);
        if i == n - 1 {
            assert(all[before.len() + j] == self.child_items(i)[j]);
        } else {
            self.lemma_child_items_kept(n - 1, i, j);
            let m = choose|m: int| 0 <= m < before.len() && before[m] == self.child_items(i)[j];
            assert(all[m] == before[m]);
        }
    }

    /// No wildcard takes the place of an alias: each alias of each child
    /// has its item in the bundle.
    pub proof fn lemma_alias_kept(self, self_done: bool, renames_done: bool, i: int, j: int)
        requires
            0 <= i < self.children.len(),
            0 <= j < self.children[i].1.renames.len(),
        ensures
            self.bundle(self_done, renames_done).contains(
                ItemView {
                    name: self.children[i].0,
                    alias: Some(self.children[i].1.renames[j]),
                },
            ),
    {
        let k = self.children[i].0;
        let c = self.children[i].1;
        let item = ItemView { name: k, alias: Some(c.renames[j]) };
        let part = self.child_items(i);
        let bare = if c.has_self && !self.has_glob {
            1int
        } else {
            0int
        };
        assert(part[bare + j] == item);
        self.lemma_child_items_kept(self.children.len() as int, i, bare + j);
        let all = self.children_items(self.children.len() as int);
        let m = choose|m: int| 0 <= m < all.len() && all[m] == item;
        let own = self.own_items(self_done, renames_done);
        assert(self.bundle(self_done, renames_done)[own.len() + m] == item);
    }
}

} // verus!
