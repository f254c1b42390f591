//! The trie node as it is stored.

use vstd::prelude::*;
use crate::algebra::lemma_ordered;
use crate::sorted::{lemma_place_skip, merged_names, sorted, Name};
use crate::text::{lemma_lex_transitive, lex_lt, str_eq, str_lt};
use crate::trie::{child, has_key, keys, ordered, put, slot, Trie};
use crate::decl::clone_path;

verus! {

/// A node of the import trie. In a well-formed node `renames` is sorted
/// and free of duplicates, and `children` is sorted by segment, each
/// segment once, with well-formed nodes below. The constructors give
/// well-formed nodes and merging keeps them so.
#[derive(Debug, PartialEq)]
pub struct ImportNode {
    /// The node's own path is imported under its own name.
    pub has_self: bool,
    /// Everything directly under the node's path is imported.
    pub has_glob: bool,
    /// The aliases under which the node's own path is imported.
    pub renames: Vec<String>,
    /// The nodes one segment further down, each with its segment.
    pub children: Vec<(String, ImportNode)>,
}

impl View for ImportNode {
    type V = Trie;

    open spec fn view(&self) -> Trie {
        self.trie()
    }
}

impl ImportNode {
    /// The trie that this node stores.
    pub open spec fn trie(&self) -> Trie
        decreases self, 0int,
    {
        Trie {
            has_self: self.has_self,
            has_glob: self.has_glob,
            renames: self.renames.deep_view(),
            children: ImportNode::kids(self.children@, self.children@.len() as int),
        }
    }

    /// The first `n` of the children `cs`, each as the trie that it stores.
    pub open spec fn kids(cs: Seq<(String, ImportNode)>, n: int) -> Seq<(Name, Trie)>
        decreases cs, n,
    {
        if n <= 0 || n > cs.len() {
            Seq::empty()
        } else {
            ImportNode::kids(cs, n - 1).push((cs[n - 1].0@, cs[n - 1].1.trie()))
        }
    }

    /// The first `n` children as tries are the first `n` stored children,
    /// one for one.
    pub proof fn lemma_kids_upto(cs: Seq<(String, ImportNode)>, n: int)
        requires
            0 <= n <= cs.len(),
        ensures
            ImportNode::kids(cs, n).len() == n,
            forall|i: int|
                0 <= i < n ==> #[trigger] ImportNode::kids(cs, n)[i] == (cs[i].0@, cs[i].1@),
        decreases n,
    {
        if n > 0 {
            ImportNode::lemma_kids_upto(cs, n - 1);
        }
    }

    /// The children of the stored trie are the stored children, one for one.
    pub proof fn lemma_kids(&self)
        ensures
            self@.children.len() == self.children.len(),
            forall|i: int|
                0 <= i < self.children.len() ==> #[trigger] self@.children[i] == (
                    self.children[i].0@,
                    self.children[i].1@,
                ),
    {
        ImportNode::lemma_kids_upto(self.children@, self.children@.len() as int);
    }

    /// A node without imports.
    pub fn new() -> (r: ImportNode)
        ensures
            r@ == Trie::empty(),
            r@.wf(),
    {
        proof {
            Trie::lemma_empty_wf();
        }
        let r = ImportNode {
            has_self: false,
            has_glob: false,
            renames: Vec::new(),
            children: Vec::new(),
        };
        assert(r@.renames =~= Seq::empty());
        r
    }

    /// A node that is imported under `rename`, or under its own name where
    /// `rename` is `None`.
    pub fn self_or_rename(rename: &Option<String>) -> (r: ImportNode)
        ensures
            r@ == Trie::bound(rename.deep_view()),
            r@.wf(),
    {
        proof {
            Trie::lemma_leaf_wf(rename.deep_view());
        }
        let mut renames: Vec<String> = Vec::new();
        let has_self = match rename {
            Some(a) => {
                renames.push(a.clone());
                false
            },
            None => true,
        };
        let r = ImportNode { has_self, has_glob: false, renames, children: Vec::new() };
        assert(r@.renames =~= Trie::bound(rename.deep_view()).renames);
        r
    }

    /// A node with a wildcard import.
    pub fn just_glob() -> (r: ImportNode)
        ensures
            r@ == Trie::wildcard(),
            r@.wf(),
    {
        proof {
            Trie::lemma_leaf_wf(None);
        }
        let r = ImportNode {
            has_self: false,
            has_glob: true,
            renames: Vec::new(),
            children: Vec::new(),
        };
        assert(r@.renames =~= Seq::empty());
        r
    }

    /// Where the child under `key` stands or belongs, and whether it is
    /// there.
    pub fn find_child(&self, key: &str) -> (r: (usize, bool))
        ensures
            r.0 == slot(self@.children, key@),
            r.0 <= self.children.len(),
            r.1 ==> r.0 < self.children.len(),
            r.1 == has_key(self@.children, key@),
    {
        proof {
            self.lemma_kids();
        }
        let ghost ks = keys(self@.children);
        let mut i: usize = 0;
        while i < self.children.len() && str_lt(self.children[i].0.as_str(), key)
            invariant
                i <= self.children.len(),
                ks.len() == self.children.len(),
                forall|j: int| 0 <= j < ks.len() ==> #[trigger] ks[j] == self.children[j].0@,
                forall|j: int| 0 <= j < i ==> lex_lt(#[trigger] ks[j], key@),
            decreases self.children.len() - i,
        {
            i += 1;
        }
        proof {
            lemma_place_skip(ks, key@, i as int);
            if i < self.children.len() {
                assert(ks.skip(i as int)[0] == ks[i as int]);
            }
        }
        let found = i < self.children.len() && str_eq(self.children[i].0.as_str(), key);
        (i, found)
    }

    /// Whether the children stand in the order of their segments, each
    /// segment once.
    pub fn children_in_order(&self) -> (r: bool)
        ensures
            r == sorted(keys(self@.children)),
    {
        proof {
            self.lemma_kids();
        }
        let ghost ks = keys(self@.children);
        let mut i: usize = 1;
        while i < self.children.len()
            invariant
                1 <= i,
                ks == keys(self@.children),
                ks.len() == self.children.len(),
                forall|j: int| 0 <= j < ks.len() ==> #[trigger] ks[j] == self.children[j].0@,
                forall|a: int, b: int|
                    0 <= a < b < i && b < ks.len() ==> lex_lt(#[trigger] ks[a], #[trigger] ks[b]),
            decreases self.children.len() - i,
        {
            if !str_lt(self.children[i - 1].0.as_str(), self.children[i].0.as_str()) {
                assert(!lex_lt(ks[i - 1], ks[i as int]));
                return false;
            }
            proof {
                assert forall|a: int, b: int| 0 <= a < b < i + 1 && b < ks.len() implies lex_lt(
                    #[trigger] ks[a],
                    #[trigger] ks[b],
                ) by {
                    if b == i && a < i - 1 {
                        assert(lex_lt(ks[a], ks[i - 1]));
                        lemma_lex_transitive(ks[a], ks[i - 1], ks[i as int]);
                    }
                }
            }
            i += 1;
        }
        true
    }

    /// Puts the children in the order of their segments, each segment
    /// once: of two children under one segment the first stays.
    pub fn order_children(&mut self)
        ensures
            final(self)@.children == ordered(old(self)@.children),
            final(self).has_self == old(self).has_self,
            final(self).has_glob == old(self).has_glob,
            final(self).renames == old(self).renames,
    {
        proof {
            old(self).lemma_kids();
        }
        let ghost all = old(self)@.children;
        let mut rest: Vec<(String, ImportNode)> = Vec::new();
        core::mem::swap(&mut rest, &mut self.children);
        assert(rest@ =~= old(self).children@.take(rest.len() as int));
        assert(all.skip(rest.len() as int) =~= Seq::empty());
        while rest.len() > 0
            invariant
                rest.len() <= old(self).children.len(),
                rest@ == old(self).children@.take(rest.len() as int),
                all.len() == old(self).children.len(),
                forall|j: int|
                    0 <= j < all.len() ==> #[trigger] all[j] == (
                        old(self).children[j].0@,
                        old(self).children[j].1@,
                    ),
                self@.children == ordered(all.skip(rest.len() as int)),
                self.has_self == old(self).has_self,
                self.has_glob == old(self).has_glob,
                self.renames == old(self).renames,
            decreases rest.len(),
        {
            let ghost n = rest.len() as int;
            let entry = rest.pop().unwrap();
            let (i, found) = self.find_child(entry.0.as_str());
            let ghost before = *self;
            let ghost key = entry.0@;
            let ghost sub = entry.1@;
            if found {
                self.children[i] = entry;
            } else {
                self.children.insert(i, entry);
            }
            proof {
                before.lemma_kids();
                self.lemma_kids();
                assert(rest@ =~= old(self).children@.take(n - 1));
                assert(all[n - 1] == (key, sub));
                assert(all.skip(n - 1)[0] == all[n - 1]);
                assert(all.skip(n - 1).drop_first() =~= all.skip(n));
                assert(self@.children =~= put(before@.children, key, sub));
            }
        }
        assert(all.skip(0) =~= all);
    }

    /// Merges `b` into this node: flags by `||`, aliases as sets, children
    /// segment by segment. The aliases come out in order, each once, and
    /// so do the segments of the children, whatever the two nodes held.
    /// Two well-formed nodes give a well-formed node.
    pub fn combine_with(&mut self, b: &ImportNode)
        ensures
            final(self)@ == old(self)@.merge(b@),
            sorted(final(self).renames.deep_view()),
            forall|y: Name|
                final(self).renames.deep_view().contains(y) <==> old(
                    self,
                ).renames.deep_view().contains(y) || b.renames.deep_view().contains(y),
            sorted(keys(final(self)@.children)),
            old(self)@.wf() && b@.wf() ==> final(self)@.wf(),
        decreases b,
    {
        proof {
            if old(self)@.wf() && b@.wf() {
                old(self)@.lemma_merge_wf(b@);
            }
        }
        self.has_self = self.has_self || b.has_self;
        self.has_glob = self.has_glob || b.has_glob;
        self.renames = merged_names(&self.renames, &b.renames);
        if !self.children_in_order() {
            self.order_children();
        }
        let ghost names = self.renames.deep_view();
        let ghost start = ordered(old(self)@.children);
        proof {
            b.lemma_kids();
            lemma_ordered(old(self)@.children);
            old(self)@.lemma_merge_children(b@);
        }
        let mut n: usize = 0;
        while n < b.children.len()
            invariant
                n <= b.children.len(),
                self@.children == Trie::merge_kids(start, b@, n as int),
                start == ordered(old(self)@.children),
                self.renames.deep_view() == names,
                self.has_self == (old(self).has_self || b.has_self),
                self.has_glob == (old(self).has_glob || b.has_glob),
                b@.children.len() == b.children.len(),
                forall|i: int|
                    0 <= i < b.children.len() ==> #[trigger] b@.children[i] == (
                        b.children[i].0@,
                        b.children[i].1@,
                    ),
            decreases b.children.len() - n,
        {
            let key = &b.children[n].0;
            let sub = &b.children[n].1;
            let (i, found) = self.find_child(key.as_str());
            let ghost before = *self;
            proof {
                before.lemma_kids();
            }
            if found {
                self.children[i].1.combine_with(sub);
                proof {
                    self.lemma_kids();
                    assert(self@.children =~= put(
                        before@.children,
                        key@,
                        child(before@.children, key@).merge(sub@),
                    ));
                }
            } else {
                self.children.insert(i, (key.clone(), sub.clone()));
                proof {
                    self.lemma_kids();
                    assert(self@.children =~= put(before@.children, key@, sub@));
                }
            }
            n += 1;
        }
    }
}

impl Clone for ImportNode {
    /// A copy of the node and of everything below it.
    fn clone(&self) -> (r: ImportNode)
        ensures
            r@ == self@,
        decreases self,
    {
        let mut children: Vec<(String, ImportNode)> = Vec::new();
        let mut k: usize = 0;
        while k < self.children.len()
            invariant
                k <= self.children.len(),
                children.len() == k,
                forall|j: int|
                    0 <= j < k ==> children[j].0@ == self.children[j].0@ && children[j].1@
                        == self.children[j].1@,
            decreases self.children.len() - k,
        {
            let c = &self.children[k];
            children.push((c.0.clone(), c.1.clone()));
            k += 1;
        }
        let r = ImportNode {
            has_self: self.has_self,
            has_glob: self.has_glob,
            renames: clone_path(&self.renames),
            children,
        };
        proof {
            r.lemma_kids();
            self.lemma_kids();
            assert(r@.children =~= self@.children);
        }
        r
    }
}

} // verus!
