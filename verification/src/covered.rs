//! A bare import below a wildcard changes nothing in what is written.

use vstd::prelude::*;
use crate::algebra::{lemma_lookup, lemma_ordered};
use crate::decl::Decl;
use crate::emit::combined;
use crate::sorted::{lemma_normal, Name};
use crate::trie::{child, has_key, keys, put, slot, Trie};

verus! {

impl Trie {
    /// Two nodes whose children contribute the same items, child by child,
    /// have the same items of children.
    pub proof fn lemma_same_children_items(self, other: Trie, n: int)
        requires
            0 <= n <= self.children.len(),
            n <= other.children.len(),
            forall|j: int| 0 <= j < n ==> #[trigger] self.child_items(j) == other.child_items(j),
        ensures
            self.children_items(n) == other.children_items(n),
        decreases n,
    {
        if n > 0 {
            self.lemma_same_children_items(other, n - 1);
            assert(self.child_items(n - 1) == other.child_items(n - 1));
        }
    }

    /// A child that contributes no item can be left out: where `other` has
    /// the children of this node and one more at index `i`, which
    /// contributes nothing, the items of the children are the same.
    pub proof fn lemma_skip_children_items(self, other: Trie, i: int, n: int)
        requires
            0 <= i <= n <= self.children.len(),
            other.children.len() == self.children.len() + 1,
            forall|j: int| 0 <= j < i ==> #[trigger] self.child_items(j) == other.child_items(j),
            forall|j: int|
                i <= j < self.children.len() ==> #[trigger] self.child_items(j)
                    == other.child_items(j + 1),
            other.child_items(i).len() == 0,
        ensures
            other.children_items(n + 1) == self.children_items(n),
        decreases n - i,
    {
        if n == i {
            self.lemma_same_children_items(other, i);
            assert(other.children_items(i) + other.child_items(i) =~= other.children_items(i));
        } else {
            self.lemma_skip_children_items(other, i, n - 1);
            assert(self.child_items(n - 1) == other.child_items(n));
        }
    }

    /// Two nodes whose children are walked to the same declarations, child
    /// by child, have the same declarations of children.
    pub proof fn lemma_same_emit_kids(
        self,
        other: Trie,
        path: Seq<Name>,
        self_done: bool,
        renames_done: bool,
        n: int,
    )
        requires
            0 <= n <= self.children.len(),
            n <= other.children.len(),
            forall|j: int|
                0 <= j < n ==> (#[trigger] self.children[j]).1.emit(
                    path.push(self.children[j].0),
                    self_done,
                    renames_done,
                ) == other.children[j].1.emit(
                    path.push(other.children[j].0),
                    self_done,
                    renames_done,
                ),
        ensures
            self.emit_kids(path, self_done, renames_done, n) == other.emit_kids(
                path,
                self_done,
                renames_done,
                n,
            ),
        decreases n,
    {
        if n > 0 {
            self.lemma_same_emit_kids(other, path, self_done, renames_done, n - 1);
            assert(self.children[n - 1].1.emit(
                path.push(self.children[n - 1].0),
                self_done,
                renames_done,
            ) == other.children[n - 1].1.emit(
                path.push(other.children[n - 1].0),
                self_done,
                renames_done,
            ));
        }
    }

    /// A child whose walk writes nothing can be left out.
    pub proof fn lemma_skip_emit_kids(
        self,
        other: Trie,
        path: Seq<Name>,
        self_done: bool,
        renames_done: bool,
        i: int,
        n: int,
    )
        requires
            0 <= i <= n <= self.children.len(),
            other.children.len() == self.children.len() + 1,
            forall|j: int| 0 <= j < i ==> #[trigger] self.children[j] == other.children[j],
            forall|j: int|
                i <= j < self.children.len() ==> #[trigger] self.children[j] == other.children[j
                    + 1],
            other.children[i].1.emit(path.push(other.children[i].0), self_done, renames_done).len()
                == 0,
        ensures
            other.emit_kids(path, self_done, renames_done, n + 1) == self.emit_kids(
                path,
                self_done,
                renames_done,
                n,
            ),
        decreases n - i,
    {
        if n == i {
            assert forall|j: int| 0 <= j < i implies (#[trigger] self.children[j]).1.emit(
                path.push(self.children[j].0),
                self_done,
                renames_done,
            ) == other.children[j].1.emit(
                path.push(other.children[j].0),
                self_done,
                renames_done,
            ) by {
                assert(self.children[j] == other.children[j]);
            }
            self.lemma_same_emit_kids(other, path, self_done, renames_done, i);
            let before = other.emit_kids(path, self_done, renames_done, i);
            let silent = other.children[i].1.emit(
                path.push(other.children[i].0),
                self_done,
                renames_done,
            );
            assert(before + silent =~= before);
        } else {
            self.lemma_skip_emit_kids(other, path, self_done, renames_done, i, n - 1);
            assert(self.children[n - 1] == other.children[n]);
        }
    }

    /// Two nodes with the same flags and aliases, whose children
    /// contribute the same items and are walked to the same declarations,
    /// are walked to the same declarations.
    pub proof fn lemma_same_emit(
        self,
        other: Trie,
        path: Seq<Name>,
        self_done: bool,
        renames_done: bool,
    )
        requires
            self.has_glob == other.has_glob,
            self.needs_self(self_done) == other.needs_self(self_done),
            self.renames == other.renames,
            self.children_items(self.children.len() as int) == other.children_items(
                other.children.len() as int,
            ),
            ({
                let listed = self.listed(self_done, renames_done);
                self.emit_kids(path, listed || self.has_glob, listed, self.children.len() as int)
                    == other.emit_kids(
                    path,
                    listed || self.has_glob,
                    listed,
                    other.children.len() as int,
                )
            }),
        ensures
            self.emit(path, self_done, renames_done) == other.emit(path, self_done, renames_done),
    {
        assert(self.bundle(self_done, renames_done) == other.bundle(self_done, renames_done));
    }

    /// A node that is walked with its own name covered is walked to the
    /// same declarations whether or not it is imported under its own name.
    pub proof fn lemma_emit_ignores_self(
        self,
        other: Trie,
        path: Seq<Name>,
        renames_done: bool,
    )
        requires
            self.has_glob == other.has_glob,
            self.renames == other.renames,
            self.children == other.children,
        ensures
            self.emit(path, true, renames_done) == other.emit(path, true, renames_done),
    {
        let n = self.children.len() as int;
        let listed = self.listed(true, renames_done);
        self.lemma_same_children_items(other, n);
        self.lemma_same_emit_kids(other, path, listed || self.has_glob, listed, n);
        self.lemma_same_emit(other, path, true, renames_done);
    }

    /// Adding a bare import one segment below a node with a wildcard
    /// changes nothing in what the walk writes.
    pub proof fn lemma_covered_child(
        self,
        p: Seq<Name>,
        c: Name,
        path: Seq<Name>,
        self_done: bool,
        renames_done: bool,
    )
        requires
            self.wf(),
            self.descend(p).has_glob,
        ensures
            self.graft(p.push(c), Trie::bound(None)).emit(path, self_done, renames_done)
                == self.emit(path, self_done, renames_done),
        decreases p.len(),
    {
        let leaf = Trie::bound(None);
        let pc = p.push(c);
        let k = pc[0];
        let rest = pc.drop_first();
        let x = child(self.children, k);
        let x1 = x.graft(rest, leaf);
        let t1 = self.graft(pc, leaf);
        let i = slot(self.children, k);
        let n = self.children.len() as int;
        let listed = self.listed(self_done, renames_done);
        lemma_lookup(self.children, k);
        assert(t1.children == put(self.children, k, x1));
        if p.len() == 0 {
            assert(rest =~= Seq::<Name>::empty());
            assert(k == c);
            assert(self.descend(p) == self);
            lemma_normal(x.renames);
            lemma_ordered(x.children);
            assert(x1.renames == x.renames);
            assert(x1.children == x.children);
            assert(x1.has_glob == x.has_glob);
            if has_key(self.children, k) {
                x1.lemma_emit_ignores_self(x, path.push(k), listed);
                assert forall|j: int| 0 <= j < n implies #[trigger] t1.child_items(j)
                    == self.child_items(j) by {
                    if j != i {
                        assert(t1.children[j] == self.children[j]);
                    }
                }
                t1.lemma_same_children_items(self, n);
                assert(t1.listed(self_done, renames_done) == listed);
                assert forall|j: int| 0 <= j < n implies (#[trigger] t1.children[j]).1.emit(
                    path.push(t1.children[j].0),
                    true,
                    listed,
                ) == self.children[j].1.emit(path.push(self.children[j].0), true, listed) by {
                    if j != i {
                        assert(t1.children[j] == self.children[j]);
                    }
                }
                t1.lemma_same_emit_kids(self, path, true, listed, n);
                t1.lemma_same_emit(self, path, self_done, renames_done);
            } else {
                assert(keys(x.children) =~= Seq::empty());
                assert(t1.children == self.children.insert(i, (k, x1)));
                assert(t1.children[i] == (k, x1));
                assert(x1.renames.len() == 0);
                assert(x1.children.len() == 0);
                assert(t1.child_items(i) =~= Seq::empty());
                assert forall|j: int| 0 <= j < i implies #[trigger] self.child_items(j)
                    == t1.child_items(j) by {
                    assert(t1.children[j] == self.children[j]);
                }
                assert forall|j: int| i <= j < n implies #[trigger] self.child_items(j)
                    == t1.child_items(j + 1) by {
                    assert(t1.children[j + 1] == self.children[j]);
                }
                self.lemma_skip_children_items(t1, i, n);
                assert(t1.listed(self_done, renames_done) == listed);
                let silent = x1.emit(path.push(k), true, listed);
                assert(x1.children_items(0) =~= Seq::empty());
                assert(x1.bundle(true, listed) =~= Seq::empty());
                assert(x1.own_decls(path.push(k), true, listed) =~= Seq::empty());
                assert(x1.emit_kids(path.push(k), false, false, 0) =~= Seq::empty());
                assert(silent =~= Seq::empty());
                assert forall|j: int| 0 <= j < i implies #[trigger] self.children[j]
                    == t1.children[j] by {}
                assert forall|j: int| i <= j < n implies #[trigger] self.children[j]
                    == t1.children[j + 1] by {}
                self.lemma_skip_emit_kids(t1, path, true, listed, i, n);
                t1.lemma_same_emit(self, path, self_done, renames_done);
            }
        } else {
            assert(k == p[0]);
            assert(rest =~= p.drop_first().push(c));
            if !has_key(self.children, k) {
                Trie::lemma_empty_descend(p.drop_first());
            }
            assert(x.wf());
            x.lemma_covered_child(
                p.drop_first(),
                c,
                path.push(k),
                listed || self.has_glob,
                listed,
            );
            assert(x1.has_self == x.has_self && x1.renames == x.renames);
            assert forall|j: int| 0 <= j < n implies #[trigger] t1.child_items(j)
                == self.child_items(j) by {
                if j != i {
                    assert(t1.children[j] == self.children[j]);
                }
            }
            t1.lemma_same_children_items(self, n);
            assert(t1.listed(self_done, renames_done) == listed);
            assert forall|j: int| 0 <= j < n implies (#[trigger] t1.children[j]).1.emit(
                path.push(t1.children[j].0),
                listed || self.has_glob,
                listed,
            ) == self.children[j].1.emit(
                path.push(self.children[j].0),
                listed || self.has_glob,
                listed,
            ) by {
                if j != i {
                    assert(t1.children[j] == self.children[j]);
                }
            }
            t1.lemma_same_emit_kids(self, path, listed || self.has_glob, listed, n);
            t1.lemma_same_emit(self, path, self_done, renames_done);
        }
    }
}

/// Where the input holds a wildcard import of `p`, a bare import of a path
/// one segment below `p`, added to the input at any place, changes nothing
/// in the consolidated list.
pub proof fn lemma_covered_import_changes_nothing(
    ds: Seq<Decl>,
    p: Seq<Name>,
    c: Name,
    i: int,
)
    requires
        ds.contains(Decl::Glob(p)),
        0 <= i <= ds.len(),
    ensures
        combined(ds.insert(i, Decl::Simple(p.push(c), None))) == combined(ds),
{
    let d = Decl::Simple(p.push(c), None);
    let w = ds.insert(i, d);
    let last = ds.push(d);
    let t = Trie::of_decls(ds);
    assert forall|x: Decl| w.contains(x) <==> last.contains(x) by {
        if w.contains(x) {
            let j = choose|j: int| 0 <= j < w.len() && w[j] == x;
            if j < i {
                assert(last[j] == x);
            } else if j == i {
                assert(last[ds.len() as int] == x);
            } else {
                assert(last[j - 1] == x);
            }
        }
        if last.contains(x) {
            let j = choose|j: int| 0 <= j < last.len() && last[j] == x;
            if j == ds.len() {
                assert(w[i] == x);
            } else if j < i {
                assert(w[j] == x);
            } else {
                assert(w[j + 1] == x);
            }
        }
    }
    Trie::lemma_same_decls_same_trie(w, last);
    assert(last.drop_last() =~= ds);
    assert(Trie::of_decls(last) == t.graft(p.push(c), Trie::bound(None)));
    Trie::lemma_empty_wf();
    Trie::empty().lemma_add_decls_wf(ds);
    Trie::lemma_of_decls_has_glob(ds, p);
    t.lemma_covered_child(p, c, Seq::empty(), false, false);
}

} // verus!
