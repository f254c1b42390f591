//! Import declarations and their mathematical models.

use vstd::prelude::*;
use crate::sorted::Name;

verus! {

/// A module path: its segments in order. An empty first segment stands for a
/// path that starts at the root.
pub type Path = Vec<String>;

/// Model of an [`Item`].
pub struct ItemView {
    pub name: Name,
    pub alias: Option<Name>,
}

/// Model of a [`ViewPath`].
pub enum Decl {
    /// The entity at the path, bound under the alias or under its own last
    /// segment.
    Simple(Seq<Name>, Option<Name>),
    /// Everything directly under the path.
    Glob(Seq<Name>),
    /// Each item, taken relative to the path.
    List(Seq<Name>, Seq<ItemView>),
}

impl Decl {
    /// The path that the declaration is written over.
    pub open spec fn path(self) -> Seq<Name> {
        match self {
            Decl::Simple(p, _) => p,
            Decl::Glob(p) => p,
            Decl::List(p, _) => p,
        }
    }
}

/// One entry of a list import: a name and an optional alias. The name `self`
/// stands for the list's own path.
#[derive(Debug, PartialEq)]
pub struct Item(pub String, pub Option<String>);

impl Clone for Item {
    /// A copy of the item.
    fn clone(&self) -> (r: Item)
        ensures
            r@ == self@,
    {
        Item(self.0.clone(), clone_alias(&self.1))
    }
}

impl DeepView for Item {
    type V = ItemView;

    open spec fn deep_view(&self) -> ItemView {
        ItemView { name: self.0@, alias: self.1.deep_view() }
    }
}

impl View for Item {
    type V = ItemView;

    open spec fn view(&self) -> ItemView {
        self.deep_view()
    }
}

/// One import declaration.
#[derive(Debug, PartialEq)]
pub enum ViewPath {
    /// `foo::bar::baz as quux`
    ///
    /// or just
    ///
    /// `foo::bar::baz` (with `as baz` implicitly on the right)
    ViewPathSimple(Path, Option<String>),
    /// `foo::bar::*`
    ViewPathGlob(Path),
    /// `foo::bar::{a,b,c}`
    ViewPathList(Path, Vec<Item>),
}

impl DeepView for ViewPath {
    type V = Decl;

    open spec fn deep_view(&self) -> Decl {
        match self {
            ViewPath::ViewPathSimple(p, a) => Decl::Simple(p.deep_view(), a.deep_view()),
            ViewPath::ViewPathGlob(p) => Decl::Glob(p.deep_view()),
            ViewPath::ViewPathList(p, items) => Decl::List(p.deep_view(), items.deep_view()),
        }
    }
}

impl View for ViewPath {
    type V = Decl;

    open spec fn view(&self) -> Decl {
        self.deep_view()
    }
}

impl Clone for ViewPath {
    /// A copy of the declaration.
    fn clone(&self) -> (r: ViewPath)
        ensures
            r@ == self@,
    {
        match self {
            ViewPath::ViewPathSimple(p, a) => ViewPath::ViewPathSimple(
                clone_path(p),
                clone_alias(a),
            ),
            ViewPath::ViewPathGlob(p) => ViewPath::ViewPathGlob(clone_path(p)),
            ViewPath::ViewPathList(p, items) => ViewPath::ViewPathList(
                clone_path(p),
                clone_items(items),
            ),
        }
    }
}

/// The models of a list of borrowed declarations.
pub open spec fn decls_of(vps: Seq<&ViewPath>) -> Seq<Decl> {
    Seq::new(vps.len(), |i: int| vps[i]@)
}

/// A copy of `p`.
pub fn clone_path(p: &Vec<String>) -> (r: Path)
    ensures
        r.deep_view() == p.deep_view(),
{
    let mut r: Vec<String> = Vec::new();
    let mut i: usize = 0;
    while i < p.len()
        invariant
            i <= p.len(),
            r.len() == i,
            forall|j: int| 0 <= j < i ==> r[j]@ == p[j]@,
        decreases p.len() - i,
    {
        r.push(p[i].clone());
        i += 1;
    }
    assert(r.deep_view() =~= p.deep_view());
    r
}

/// A copy of `a`.
pub fn clone_alias(a: &Option<String>) -> (r: Option<String>)
    ensures
        r.deep_view() == a.deep_view(),
{
    match a {
        Some(s) => Some(s.clone()),
        None => None,
    }
}

/// A copy of `items`.
pub fn clone_items(items: &Vec<Item>) -> (r: Vec<Item>)
    ensures
        r.deep_view() == items.deep_view(),
{
    let mut r: Vec<Item> = Vec::new();
    let mut i: usize = 0;
    while i < items.len()
        invariant
            i <= items.len(),
            r.len() == i,
            forall|j: int| 0 <= j < i ==> #[trigger] r[j].deep_view() == items[j].deep_view(),
        decreases items.len() - i,
    {
        r.push(items[i].clone());
        i += 1;
    }
    assert(r.deep_view() =~= items.deep_view());
    r
}

} // verus!
