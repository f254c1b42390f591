//! What a trie is written out as: the list of declarations that a walk
//! from the root yields.

use vstd::prelude::*;
use crate::decl::{Decl, ItemView};
use crate::sorted::Name;
use crate::trie::Trie;

verus! {

/// The least number of items for which a list is written.
pub const CONFIG_MIN_IMPORT_ITEM_LIST_LENGTH: usize = 3;

/// One item `name as r` for each `r` of `renames`.
pub open spec fn alias_items(name: Name, renames: Seq<Name>) -> Seq<ItemView> {
    Seq::new(renames.len(), |i: int| ItemView { name, alias: Some(renames[i]) })
}

/// One declaration `path as r` for each `r` of `renames`.
pub open spec fn alias_decls(path: Seq<Name>, renames: Seq<Name>) -> Seq<Decl> {
    Seq::new(renames.len(), |i: int| Decl::Simple(path, Some(renames[i])))
}

impl Trie {
    /// The node's own name is still to be declared: `self_done` says that
    /// the parent's list or wildcard has covered it.
    pub open spec fn needs_self(self, self_done: bool) -> bool {
        self.has_self && !self_done
    }

    /// The items that stand for the node itself: `self`, then `self as r`
    /// for each alias.
    pub open spec fn own_items(self, self_done: bool, renames_done: bool) -> Seq<ItemView> {
        (if self.needs_self(self_done) {
            seq![ItemView { name: "self"@, alias: None }]
        } else {
            Seq::empty()
        }) + (if renames_done {
            Seq::empty()
        } else {
            alias_items("self"@, self.renames)
        })
    }

    /// The items that stand for the child at index `i`: its bare name,
    /// unless this node's wildcard covers it, then one item for each of its
    /// aliases.
    pub open spec fn child_items(self, i: int) -> Seq<ItemView> {
        let k = self.children[i].0;
        let c = self.children[i].1;
        (if c.has_self && !self.has_glob {
            seq![ItemView { name: k, alias: None }]
        } else {
            Seq::empty()
        }) + alias_items(k, c.renames)
    }

    /// The items of the first `n` children.
    pub open spec fn children_items(self, n: int) -> Seq<ItemView>
        decreases n,
    {
        if n <= 0 || n > self.children.len() {
            Seq::empty()
        } else {
            self.children_items(n - 1) + self.child_items(n - 1)
        }
    }

    /// The candidate bundle: all the items that one list at this node could
    /// hold.
    pub open spec fn bundle(self, self_done: bool, renames_done: bool) -> Seq<ItemView> {
        self.own_items(self_done, renames_done) + self.children_items(self.children.len() as int)
    }

    /// The bundle is long enough to be written as a list.
    pub open spec fn listed(self, self_done: bool, renames_done: bool) -> bool {
        self.bundle(self_done, renames_done).len() >= CONFIG_MIN_IMPORT_ITEM_LIST_LENGTH
    }

    /// The declarations written at this node itself: the list, or else the
    /// node's own name and aliases one by one; then the wildcard.
    pub open spec fn own_decls(self, path: Seq<Name>, self_done: bool, renames_done: bool) -> Seq<
        Decl,
    > {
        (if self.listed(self_done, renames_done) {
            seq![Decl::List(path, self.bundle(self_done, renames_done))]
        } else {
            (if self.needs_self(self_done) {
                seq![Decl::Simple(path, None)]
            } else {
                Seq::empty()
            }) + (if renames_done {
                Seq::empty()
            } else {
                alias_decls(path, self.renames)
            })
        }) + (if self.has_glob {
            seq![Decl::Glob(path)]
        } else {
            Seq::empty()
        })
    }

    /// The declarations written for this node, which stands at `path`, and
    /// for everything below it.
    pub open spec fn emit(self, path: Seq<Name>, self_done: bool, renames_done: bool) -> Seq<Decl>
        decreases self, 1int,
    {
        let listed = self.listed(self_done, renames_done);
        self.own_decls(path, self_done, renames_done) + self.emit_kids(
            path,
            listed || self.has_glob,
            listed,
            self.children.len() as int,
        )
    }

    /// The declarations written for the first `n` children and everything
    /// below them.
    pub open spec fn emit_kids(
        self,
        path: Seq<Name>,
        self_done: bool,
        renames_done: bool,
        n: int,
    ) -> Seq<Decl>
        decreases self, 0int, n,
    {
        if n <= 0 || n > self.children.len() {
            Seq::empty()
        } else {
            self.emit_kids(path, self_done, renames_done, n - 1) + self.children[n - 1].1.emit(
                path.push(self.children[n - 1].0),
                self_done,
                renames_done,
            )
        }
    }
}

/// The declarations that the list `ds` is consolidated to.
pub open spec fn combined(ds: Seq<Decl>) -> Seq<Decl> {
    Trie::empty().add_decls(ds).emit(Seq::empty(), false, false)
}

} // verus!
