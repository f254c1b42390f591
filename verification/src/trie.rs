//! The import trie as a mathematical value, and the operations on it.

use vstd::prelude::*;
use crate::decl::{Decl, ItemView};
use crate::sorted::{normal, place, sorted, union_names, Name};

verus! {

/// One node of the import trie, with everything below it.
pub struct Trie {
    /// The node's own path is imported under its own name.
    pub has_self: bool,
    /// Everything directly under the node's path is imported.
    pub has_glob: bool,
    /// The aliases under which the node's own path is imported.
    pub renames: Seq<Name>,
    /// The nodes one segment further down, each with its segment.
    pub children: Seq<(Name, Trie)>,
}

/// What a trie holds at one path.
pub struct Leaf {
    /// The trie has a node at the path.
    pub present: bool,
    /// The path is imported under its own name.
    pub has_self: bool,
    /// Everything directly under the path is imported.
    pub has_glob: bool,
    /// The aliases under which the path is imported.
    pub renames: Set<Name>,
}

impl Leaf {
    /// Both together: flags by `||`, aliases by union.
    pub open spec fn join(self, o: Leaf) -> Leaf {
        Leaf {
            present: self.present || o.present,
            has_self: self.has_self || o.has_self,
            has_glob: self.has_glob || o.has_glob,
            renames: self.renames.union(o.renames),
        }
    }
}

/// The segments that lead to the children `cs`, in order.
pub open spec fn keys(cs: Seq<(Name, Trie)>) -> Seq<Name> {
    Seq::new(cs.len(), |i: int| cs[i].0)
}

/// Where the child under `k` stands or belongs.
pub open spec fn slot(cs: Seq<(Name, Trie)>, k: Name) -> int {
    place(keys(cs), k)
}

/// There is a child under `k`.
pub open spec fn has_key(cs: Seq<(Name, Trie)>, k: Name) -> bool {
    slot(cs, k) < cs.len() && cs[slot(cs, k)].0 == k
}

/// The child under `k`; the empty trie where there is none.
pub open spec fn child(cs: Seq<(Name, Trie)>, k: Name) -> Trie {
    if has_key(cs, k) {
        cs[slot(cs, k)].1
    } else {
        Trie::empty()
    }
}

/// `cs` with `t` as the child under `k`.
pub open spec fn put(cs: Seq<(Name, Trie)>, k: Name, t: Trie) -> Seq<(Name, Trie)> {
    if has_key(cs, k) {
        cs.update(slot(cs, k), (k, t))
    } else {
        cs.insert(slot(cs, k), (k, t))
    }
}

/// The children `cs` in the order of their segments, each segment once: of
/// two children under one segment the one that stands first.
pub open spec fn ordered(cs: Seq<(Name, Trie)>) -> Seq<(Name, Trie)>
    decreases cs.len(),
{
    if cs.len() == 0 {
        Seq::empty()
    } else {
        put(ordered(cs.drop_first()), cs[0].0, cs[0].1)
    }
}

impl Trie {
    /// The trie of no imports.
    pub open spec fn empty() -> Trie {
        Trie { has_self: false, has_glob: false, renames: Seq::empty(), children: Seq::empty() }
    }

    /// A single node that is imported under `alias`, or under its own name
    /// where there is no alias.
    pub open spec fn bound(alias: Option<Name>) -> Trie {
        Trie {
            has_self: alias is None,
            has_glob: false,
            renames: match alias {
                Some(a) => seq![a],
                None => Seq::empty(),
            },
            children: Seq::empty(),
        }
    }

    /// A single node with a wildcard import.
    pub open spec fn wildcard() -> Trie {
        Trie { has_self: false, has_glob: true, renames: Seq::empty(), children: Seq::empty() }
    }

    /// Aliases and child segments are strictly increasing, in every node.
    pub open spec fn wf(self) -> bool
        decreases self,
    {
        &&& sorted(self.renames)
        &&& sorted(keys(self.children))
        &&& forall|i: int| 0 <= i < self.children.len() ==> (#[trigger] self.children[i]).1.wf()
    }

    /// The union of two tries: flags by `||`, aliases as sets, children
    /// segment by segment. Aliases and children come out in order whatever
    /// order they had in `self`.
    pub open spec fn merge(self, b: Trie) -> Trie
        decreases b, 1int,
    {
        Trie {
            has_self: self.has_self || b.has_self,
            has_glob: self.has_glob || b.has_glob,
            renames: union_names(normal(self.renames), b.renames),
            children: Trie::merge_kids(ordered(self.children), b, b.children.len() as int),
        }
    }

    /// `acc` after the first `n` children of `b` have been merged into it.
    pub open spec fn merge_kids(acc: Seq<(Name, Trie)>, b: Trie, n: int) -> Seq<(Name, Trie)>
        decreases b, 0int, n,
    {
        if n <= 0 || n > b.children.len() {
            acc
        } else {
            let prev = Trie::merge_kids(acc, b, n - 1);
            let k = b.children[n - 1].0;
            let c = b.children[n - 1].1;
            put(
                prev,
                k,
                if has_key(prev, k) {
                    child(prev, k).merge(c)
                } else {
                    c
                },
            )
        }
    }

    /// The trie with `n` merged into the node at path `p`, which is made,
    /// with the nodes on the way to it, where it is missing.
    pub open spec fn graft(self, p: Seq<Name>, n: Trie) -> Trie
        decreases p.len(),
    {
        if p.len() == 0 {
            self.merge(n)
        } else {
            Trie {
                children: put(
                    self.children,
                    p[0],
                    child(self.children, p[0]).graft(p.drop_first(), n),
                ),
                ..self
            }
        }
    }

    /// The node at path `p`; the empty trie where there is none.
    pub open spec fn descend(self, p: Seq<Name>) -> Trie
        decreases p.len(),
    {
        if p.len() == 0 {
            self
        } else {
            child(self.children, p[0]).descend(p.drop_first())
        }
    }

    /// The trie has a node at path `p`.
    pub open spec fn has_path(self, p: Seq<Name>) -> bool
        decreases p.len(),
    {
        p.len() == 0 || (has_key(self.children, p[0]) && child(self.children, p[0]).has_path(
            p.drop_first(),
        ))
    }

    /// What the trie holds at path `p`.
    pub open spec fn leaf_at(self, p: Seq<Name>) -> Leaf {
        Leaf {
            present: self.has_path(p),
            has_self: self.descend(p).has_self,
            has_glob: self.descend(p).has_glob,
            renames: self.descend(p).renames.to_set(),
        }
    }

    /// The trie that holds `n` at path `p` and nothing else.
    pub open spec fn spine(p: Seq<Name>, n: Trie) -> Trie
        decreases p.len(),
    {
        if p.len() == 0 {
            n
        } else {
            Trie {
                has_self: false,
                has_glob: false,
                renames: Seq::empty(),
                children: seq![(p[0], Trie::spine(p.drop_first(), n))],
            }
        }
    }

    /// The path at which a list over `base` imports `item`: `base` itself
    /// for an item named `self`, one segment further down for any other.
    pub open spec fn target(base: Seq<Name>, item: ItemView) -> Seq<Name> {
        if item.name == "self"@ {
            base
        } else {
            base.push(item.name)
        }
    }

    /// The trie after the items of a list over `base` have been added.
    pub open spec fn add_items(self, base: Seq<Name>, items: Seq<ItemView>) -> Trie
        decreases items.len(),
    {
        if items.len() == 0 {
            self
        } else {
            self.add_items(base, items.drop_last()).graft(
                Trie::target(base, items.last()),
                Trie::bound(items.last().alias),
            )
        }
    }

    /// The trie after one declaration has been added.
    pub open spec fn add_decl(self, d: Decl) -> Trie {
        match d {
            Decl::Simple(p, alias) => self.graft(p, Trie::bound(alias)),
            Decl::Glob(p) => self.graft(p, Trie::wildcard()),
            Decl::List(p, items) => self.add_items(p, items),
        }
    }

    /// The trie after the declarations `ds` have been added, first to last.
    pub open spec fn add_decls(self, ds: Seq<Decl>) -> Trie
        decreases ds.len(),
    {
        if ds.len() == 0 {
            self
        } else {
            self.add_decls(ds.drop_last()).add_decl(ds.last())
        }
    }

    /// The trie of the one declaration `d`.
    pub open spec fn of_decl(d: Decl) -> Trie {
        Trie::empty().add_decl(d)
    }

    /// The trie of the declarations `ds`.
    pub open spec fn of_decls(ds: Seq<Decl>) -> Trie {
        Trie::empty().add_decls(ds)
    }
}

} // verus!
