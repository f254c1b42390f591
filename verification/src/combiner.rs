//! The combiner: declarations go into a trie, and the trie is written out
//! as the consolidated list.

use vstd::prelude::*;
use crate::decl::{clone_path, decls_of, Decl, Item, ItemView, Path, ViewPath};
use crate::emit::{alias_decls, alias_items, combined, CONFIG_MIN_IMPORT_ITEM_LIST_LENGTH};
use crate::node::ImportNode;
use crate::text::str_eq;
use crate::trie::{child, put, Trie};

verus! {

/// Gathers import declarations and writes them out consolidated.
#[derive(Debug, PartialEq)]
pub struct ImportCombiner {
    root: ImportNode,
}

impl Clone for ImportCombiner {
    /// A combiner that holds the same imports.
    fn clone(&self) -> (r: ImportCombiner)
        ensures
            r@ == self@,
    {
        ImportCombiner { root: self.root.clone() }
    }
}

impl View for ImportCombiner {
    type V = Trie;

    closed spec fn view(&self) -> Trie {
        self.root@
    }
}

/// Merges `leaf` into the node that `path[from..]` leads to from `node`,
/// making the nodes that are missing on the way.
fn graft_at(node: &mut ImportNode, path: &[String], from: usize, leaf: &ImportNode)
    requires
        from <= path.len(),
    ensures
        final(node)@ == old(node)@.graft(path.deep_view().skip(from as int), leaf@),
        old(node)@.wf() && leaf@.wf() ==> final(node)@.wf(),
    decreases path.len() - from,
{
    let ghost rest = path.deep_view().skip(from as int);
    proof {
        if old(node)@.wf() && leaf@.wf() {
            old(node)@.lemma_graft_is_merge(rest, leaf@);
        }
    }
    if from == path.len() {
        node.combine_with(leaf);
    } else {
        let key = &path[from];
        let (i, found) = node.find_child(key.as_str());
        let ghost before = *node;
        if !found {
            node.children.insert(i, (key.clone(), ImportNode::new()));
        }
        let ghost mid = *node;
        graft_at(&mut node.children[i].1, path, from + 1, leaf);
        proof {
            before.lemma_kids();
            mid.lemma_kids();
            node.lemma_kids();
            assert(rest[0] == key@);
            assert(rest.drop_first() =~= path.deep_view().skip(from + 1));
            assert(node@.children =~= put(
                before@.children,
                key@,
                child(before@.children, key@).graft(rest.drop_first(), leaf@),
            ));
        }
    }
}

/// Appends one item `name as r` for each `r` of `renames`.
fn push_alias_items(list: &mut Vec<Item>, name: &str, renames: &Vec<String>)
    ensures
        final(list).deep_view() == old(list).deep_view() + alias_items(
            name@,
            renames.deep_view(),
        ),
{
    let ghost all = alias_items(name@, renames.deep_view());
    let mut i: usize = 0;
    while i < renames.len()
        invariant
            i <= renames.len(),
            all == alias_items(name@, renames.deep_view()),
            list.deep_view() =~= old(list).deep_view() + all.take(i as int),
        decreases renames.len() - i,
    {
        let ghost prev = list.deep_view();
        list.push(Item(name.to_owned(), Some(renames[i].clone())));
        proof {
            assert(list.deep_view() =~= prev.push(all[i as int]));
            assert(all.take(i + 1) =~= all.take(i as int).push(all[i as int]));
        }
        i += 1;
    }
    assert(all.take(i as int) =~= all);
}

/// Appends one declaration `path as r` for each `r` of `renames`.
fn push_alias_decls(imports: &mut Vec<ViewPath>, path: &Vec<String>, renames: &Vec<String>)
    ensures
        final(imports).deep_view() == old(imports).deep_view() + alias_decls(
            path.deep_view(),
            renames.deep_view(),
        ),
{
    let ghost all = alias_decls(path.deep_view(), renames.deep_view());
    let mut i: usize = 0;
    while i < renames.len()
        invariant
            i <= renames.len(),
            all == alias_decls(path.deep_view(), renames.deep_view()),
            imports.deep_view() =~= old(imports).deep_view() + all.take(i as int),
        decreases renames.len() - i,
    {
        let ghost prev = imports.deep_view();
        imports.push(ViewPath::ViewPathSimple(clone_path(path), Some(renames[i].clone())));
        proof {
            assert(imports.deep_view() =~= prev.push(all[i as int]));
            assert(all.take(i + 1) =~= all.take(i as int).push(all[i as int]));
        }
        i += 1;
    }
    assert(all.take(i as int) =~= all);
}

/// The candidate bundle of `node`: the items that one list at the node
/// could hold.
fn candidate_bundle(
    node: &ImportNode,
    self_already_consumed: bool,
    renames_already_consumed: bool,
) -> (use_list: Vec<Item>)
    ensures
        use_list.deep_view() == node@.bundle(self_already_consumed, renames_already_consumed),
{
    proof {
        node.lemma_kids();
    }
    let ghost t = node@;
    let ghost own = t.own_items(self_already_consumed, renames_already_consumed);
    let mut use_list: Vec<Item> = Vec::new();
    assert(use_list.deep_view() =~= Seq::empty());
    if node.has_self && !self_already_consumed {
        use_list.push(Item("self".to_owned(), None));
        assert(use_list.deep_view() =~= seq![ItemView { name: "self"@, alias: None }]);
    }
    if !renames_already_consumed {
        push_alias_items(&mut use_list, "self", &node.renames);
    }
    assert(use_list.deep_view() =~= own);
    let mut k: usize = 0;
    while k < node.children.len()
        invariant
            k <= node.children.len(),
            t == node@,
            t.children.len() == node.children.len(),
            forall|i: int|
                0 <= i < node.children.len() ==> #[trigger] t.children[i] == (
                    node.children[i].0@,
                    node.children[i].1@,
                ),
            use_list.deep_view() =~= own + t.children_items(k as int),
        decreases node.children.len() - k,
    {
        let child_name = &node.children[k].0;
        let child_node = &node.children[k].1;
        let ghost prev = use_list.deep_view();
        let ghost bare = ItemView { name: child_name@, alias: None };
        if child_node.has_self && !node.has_glob {
            use_list.push(Item(child_name.clone(), None));
            assert(use_list.deep_view() =~= prev.push(bare));
        }
        push_alias_items(&mut use_list, child_name.as_str(), &child_node.renames);
        proof {
            assert(t.children[k as int] == (child_name@, child_node@));
            assert(use_list.deep_view() =~= prev + t.child_items(k as int));
        }
        k += 1;
    }
    use_list
}

/// Appends to `imports` what is written at `node` itself, and says
/// whether that was a list.
fn push_own_decls(
    node: &ImportNode,
    self_already_consumed: bool,
    renames_already_consumed: bool,
    use_list: Vec<Item>,
    node_path: &Path,
    imports: &mut Vec<ViewPath>,
) -> (will_use_list: bool)
    requires
        use_list.deep_view() == node@.bundle(self_already_consumed, renames_already_consumed),
    ensures
        will_use_list == node@.listed(self_already_consumed, renames_already_consumed),
        final(imports).deep_view() == old(imports).deep_view() + node@.own_decls(
            node_path.deep_view(),
            self_already_consumed,
            renames_already_consumed,
        ),
{
    let ghost path = node_path.deep_view();
    let ghost start = imports.deep_view();
    let ghost bundle = use_list.deep_view();
    // Now - are we going to use the list? Yes, if it has sufficient elements...
    let will_use_list = use_list.len() >= CONFIG_MIN_IMPORT_ITEM_LIST_LENGTH;
    if will_use_list {
        imports.push(ViewPath::ViewPathList(clone_path(node_path), use_list));
        assert(imports.deep_view() =~= start.push(Decl::List(path, bundle)));
    } else {
        if node.has_self && !self_already_consumed {
            imports.push(ViewPath::ViewPathSimple(clone_path(node_path), None));
            assert(imports.deep_view() =~= start.push(Decl::Simple(path, None)));
        }
        if !renames_already_consumed {
            push_alias_decls(imports, node_path, &node.renames);
        }
    }
    let ghost before_glob = imports.deep_view();
    if node.has_glob {
        imports.push(ViewPath::ViewPathGlob(clone_path(node_path)));
        assert(imports.deep_view() =~= before_glob.push(Decl::Glob(path)));
    }
    assert(imports.deep_view() =~= start + node@.own_decls(
        path,
        self_already_consumed,
        renames_already_consumed,
    ));
    will_use_list
}

/// Appends to `imports` what `node`, which stands at `node_path`, and
/// everything below it are written out as. The two flags say what the
/// parent's own declarations have covered already.
fn get_imports_for_node(
    node: &ImportNode,
    self_already_consumed: bool,
    renames_already_consumed: bool,
    node_path: &mut Path,
    imports: &mut Vec<ViewPath>,
)
    ensures
        final(node_path).deep_view() == old(node_path).deep_view(),
        final(imports).deep_view() == old(imports).deep_view() + node@.emit(
            old(node_path).deep_view(),
            self_already_consumed,
            renames_already_consumed,
        ),
    decreases node,
{
    proof {
        node.lemma_kids();
    }
    let ghost t = node@;
    let ghost path = node_path.deep_view();
    let ghost start = imports.deep_view();
    // First construct a list of the imports that can be expressed for this node
    let use_list = candidate_bundle(node, self_already_consumed, renames_already_consumed);
    let will_use_list = push_own_decls(
        node,
        self_already_consumed,
        renames_already_consumed,
        use_list,
        node_path,
        imports,
    );
    // A list has taken in the children's names and aliases; a wildcard covers their names.
    let consumed_child_selves = will_use_list || node.has_glob;
    let consumed_child_renames = will_use_list;
    let ghost own = t.own_decls(path, self_already_consumed, renames_already_consumed);

    let mut k: usize = 0;
    let ghost mut below: Seq<Decl> = Seq::empty();
    assert(start + own + below =~= start + own);
    while k < node.children.len()
        invariant
            k <= node.children.len(),
            t == node@,
            t.children.len() == node.children.len(),
            forall|i: int|
                0 <= i < node.children.len() ==> #[trigger] t.children[i] == (
                    node.children[i].0@,
                    node.children[i].1@,
                ),
            node_path.deep_view() == path,
            below == t.emit_kids(path, consumed_child_selves, consumed_child_renames, k as int),
            imports.deep_view() == start + own + below,
        decreases node.children.len() - k,
    {
        let ghost key = node.children[k as int].0@;
        let ghost sub = node.children[k as int].1@;
        let ghost written = sub.emit(path.push(key), consumed_child_selves, consumed_child_renames);
        node_path.push(node.children[k].0.clone());
        assert(node_path.deep_view() =~= path.push(key));
        get_imports_for_node(
            &node.children[k].1,
            consumed_child_selves,
            consumed_child_renames,
            node_path,
            imports,
        );
        let ghost full = node_path.deep_view();
        node_path.pop();
        proof {
            assert(node_path.deep_view() =~= full.drop_last());
            assert(full.drop_last() =~= path);
            assert(t.children[k as int] == (key, sub));
            assert(imports.deep_view() == start + own + below + written);
            assert(start + own + below + written =~= start + own + (below + written));
            below = below + written;
        }
        k += 1;
    }
    assert(start + own + below =~= start + (own + below));
}

impl ImportCombiner {
    /// A combiner that holds no imports.
    pub fn new() -> (r: ImportCombiner)
        ensures
            r@ == Trie::empty(),
            r@.wf(),
    {
        ImportCombiner { root: ImportNode::new() }
    }

    /// Adds the declarations of `vps`, first to last.
    pub fn add_imports(&mut self, vps: &[&ViewPath])
        ensures
            final(self)@ == old(self)@.add_decls(decls_of(vps@)),
            old(self)@.wf() ==> final(self)@.wf(),
    {
        let ghost ds = decls_of(vps@);
        let mut k: usize = 0;
        while k < vps.len()
            invariant
                k <= vps.len(),
                ds == decls_of(vps@),
                self@ == old(self)@.add_decls(ds.take(k as int)),
                old(self)@.wf() ==> self@.wf(),
            decreases vps.len() - k,
        {
            self.add_import(vps[k]);
            proof {
                assert(ds.take(k + 1).drop_last() =~= ds.take(k as int));
            }
            k += 1;
        }
        assert(ds.take(k as int) =~= ds);
    }

    /// Adds one declaration.
    pub fn add_import(&mut self, vp: &ViewPath)
        ensures
            final(self)@ == old(self)@.add_decl(vp@),
            old(self)@.wf() ==> final(self)@.wf(),
    {
        match vp {
            ViewPath::ViewPathGlob(p) => {
                let segments = p.as_slice();
                assert(segments.deep_view() =~= p.deep_view());
                self.add_node(segments, ImportNode::just_glob())
            },
            ViewPath::ViewPathSimple(p, rename) => {
                let segments = p.as_slice();
                assert(segments.deep_view() =~= p.deep_view());
                self.add_node(segments, ImportNode::self_or_rename(rename))
            },
            ViewPath::ViewPathList(p, items) => {
                let ghost base = p.deep_view();
                let ghost all = items.deep_view();
                let mut path = clone_path(p);
                let mut k: usize = 0;
                while k < items.len()
                    invariant
                        k <= items.len(),
                        all == items.deep_view(),
                        path.deep_view() == base,
                        self@ == old(self)@.add_items(base, all.take(k as int)),
                        old(self)@.wf() ==> self@.wf(),
                    decreases items.len() - k,
                {
                    let i = &items[k];
                    if str_eq(i.0.as_str(), "self") {
                        let segments = path.as_slice();
                        assert(segments.deep_view() =~= base);
                        self.add_node(segments, ImportNode::self_or_rename(&i.1));
                    } else {
                        path.push(i.0.clone());
                        let segments = path.as_slice();
                        assert(segments.deep_view() =~= base.push(i.0@));
                        self.add_node(segments, ImportNode::self_or_rename(&i.1));
                        let ghost full = path.deep_view();
                        path.pop();
                        assert(path.deep_view() =~= full.drop_last());
                        assert(path.deep_view() =~= base);
                    }
                    proof {
                        assert(all.take(k + 1).drop_last() =~= all.take(k as int));
                        assert(all.take(k + 1).last() == i@);
                    }
                    k += 1;
                }
                assert(all.take(k as int) =~= all);
            },
        }
    }

    /// Merges `node` into the node at `path`, which is made, with the nodes
    /// on the way to it, where it is missing.
    fn add_node(&mut self, path: &[String], node: ImportNode)
        ensures
            final(self)@ == old(self)@.graft(path.deep_view(), node@),
            old(self)@.wf() && node@.wf() ==> final(self)@.wf(),
    {
        assert(path.deep_view().skip(0) =~= path.deep_view());
        graft_at(&mut self.root, path, 0, &node);
    }

    /// The consolidated declarations, in the order of a walk from the root
    /// in which each node comes before its children and the children come
    /// in the order of their segments.
    pub fn get_import_list(&self) -> (r: Vec<ViewPath>)
        ensures
            r.deep_view() == self@.emit(Seq::empty(), false, false),
    {
        let mut import_list: Vec<ViewPath> = Vec::new();
        let mut node_path: Vec<String> = Vec::new();
        assert(node_path.deep_view() =~= Seq::empty());
        assert(import_list.deep_view() =~= Seq::empty());
        get_imports_for_node(&self.root, false, false, &mut node_path, &mut import_list);
        assert(import_list.deep_view() =~= self@.emit(Seq::empty(), false, false));
        import_list
    }
}

/// Consolidates the declarations `vps`.
pub fn combine_imports(vps: &[&ViewPath]) -> (r: Vec<ViewPath>)
    ensures
        r.deep_view() == combined(decls_of(vps@)),
{
    let mut combiner = ImportCombiner::new();
    combiner.add_imports(vps);
    combiner.get_import_list()
}

} // verus!
