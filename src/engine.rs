//! The taffy layout engine, as the rest of the library sees it. A node is
//! named by its key's 64-bit form (slotmap's `KeyData::as_ffi`, which
//! `KeyData::from_ffi` turns back into the same key for every live key, live
//! keys having odd versions), and the engine's tree by the children list of
//! each of its nodes.
use vstd::prelude::*;
use crate::failure::Failure;
use slotmap::{Key, KeyData};
use taffy::error::TaffyError;
use taffy::geometry::Size;
use taffy::layout::{AvailableSpace, Layout};
use taffy::node::Taffy;
use taffy::style::Style;

verus! {

#[verifier::external_type_specification]
#[verifier::external_body]
pub struct ExTaffy(Taffy);

#[verifier::external_type_specification]
#[verifier::external_body]
pub struct ExStyle(Style);

#[verifier::external_type_specification]
#[verifier::external_body]
pub struct ExLayout(Layout);

#[verifier::external_type_specification]
#[verifier::external_body]
pub struct ExAvailableSpace(AvailableSpace);

#[verifier::external_type_specification]
#[verifier::external_body]
#[verifier::reject_recursive_types(T)]
pub struct ExSize<T>(Size<T>);

#[verifier::external_type_specification]
#[verifier::external_body]
pub struct ExTaffyError(TaffyError);

/// The nodes of an engine, by their 64-bit keys, each with its ordered children.
pub uninterp spec fn engine_children(t: Taffy) -> Map<u64, Seq<u64>>;

/// The parent link that the engine records for a node, for each node that has one.
pub uninterp spec fn engine_parents(t: Taffy) -> Map<u64, u64>;

/// The style that the engine holds for the node with key `node`.
pub uninterp spec fn engine_style(t: Taffy, node: u64) -> Style;

/// The layout that the engine has stored for the node with key `node`.
pub uninterp spec fn stored_layout(t: Taffy, node: u64) -> Layout;

/// The engine after one layout pass from `node` in `space`.
pub uninterp spec fn after_pass(t: Taffy, node: u64, space: Size<AvailableSpace>) -> Taffy;

/// Every child in `g` is itself a node of `g`.
pub open spec fn children_known(g: Map<u64, Seq<u64>>) -> bool {
    forall|k: u64, i: int|
        g.contains_key(k) && 0 <= i < g[k].len() ==> g.contains_key(#[trigger] g[k][i])
}

/// Every recorded parent link goes to a node of `g` that lists the child.
pub open spec fn parents_match(g: Map<u64, Seq<u64>>, ps: Map<u64, u64>) -> bool {
    forall|x: u64| #[trigger] ps.contains_key(x) ==> g.contains_key(ps[x]) && g[ps[x]].contains(x)
}

/// The parent links after the children of `parent` change from `before` to
/// `after`: the links of the former children are cleared, then those of the
/// new children set.
pub open spec fn relinked(ps: Map<u64, u64>, parent: u64, before: Seq<u64>, after: Seq<u64>) -> Map<u64, u64> {
    Map::new(
        |x: u64| after.contains(x) || (ps.contains_key(x) && !before.contains(x)),
        |x: u64| if after.contains(x) { parent } else { ps[x] },
    )
}

/// Whether `p` is a walk along child links of `g`, of one node or more.
pub open spec fn is_path(g: Map<u64, Seq<u64>>, p: Seq<u64>) -> bool {
    &&& p.len() >= 1
    &&& forall|k: int|
        0 <= k < p.len() - 1 ==> g.contains_key(#[trigger] p[k]) && g[p[k]].contains(p[k + 1])
}

/// Whether `b` is `a` or one of its descendants in `g`.
pub open spec fn reaches(g: Map<u64, Seq<u64>>, a: u64, b: u64) -> bool {
    exists|p: Seq<u64>| #[trigger] is_path(g, p) && p[0] == a && p.last() == b
}

/// Whether some node of `g` is its own descendant.
pub open spec fn has_cycle(g: Map<u64, Seq<u64>>) -> bool {
    exists|p: Seq<u64>| #[trigger] is_path(g, p) && p.len() >= 2 && p[0] == p.last()
}

/// Relies on `Taffy::new`: a new engine holds no node.
#[verifier::external_body]
pub fn engine_new() -> (r: Taffy)
    ensures
        engine_children(r).dom() == Set::<u64>::empty(),
        engine_parents(r).dom() == Set::<u64>::empty(),
{
    Taffy::new()
}

/// Relies on `Taffy::new_leaf`, which always returns `Ok` with the key of a
/// fresh slot (slotmap never hands out a live key twice), the node holding
/// `style`, no children and no parent; no other node changes.
#[verifier::external_body]
pub fn engine_new_leaf(t: &mut Taffy, style: Style) -> (r: Result<u64, TaffyError>)
    ensures
        r is Ok,
        !engine_children(*old(t)).contains_key(r->Ok_0),
        engine_children(*final(t)) == engine_children(*old(t)).insert(r->Ok_0, Seq::<u64>::empty()),
        engine_parents(*final(t)) == engine_parents(*old(t)),
        engine_style(*final(t), r->Ok_0) == style,
        forall|k: u64|
            k != r->Ok_0 ==> engine_style(*final(t), k) == engine_style(*old(t), k) && stored_layout(*final(t), k)
                == stored_layout(*old(t), k),
{
    match t.new_leaf(style) {
        Ok(node) => Ok(node.data().as_ffi()),
        Err(e) => Err(e),
    }
}

/// Relies on `Taffy::set_children`, which clears the parent link of each
/// former child of `parent`, links each new child to `parent`, replaces the
/// children of `parent` and returns `Ok`; marking nodes dirty clears only
/// their size caches, so styles and stored layouts stay. It indexes its slot
/// maps by every key it meets, former children included, and so panics on a
/// key it does not hold; it marks `parent` and its ancestors dirty by
/// following parent links, which must lead to held nodes and end, as they do
/// when each link matches a child link and the child links have no cycle.
#[verifier::external_body]
pub fn engine_set_children(t: &mut Taffy, parent: u64, children: &Vec<u64>) -> (r: Result<(), TaffyError>)
    requires
        engine_children(*old(t)).contains_key(parent),
        forall|i: int|
            0 <= i < children@.len() ==> engine_children(*old(t)).contains_key(#[trigger] children@[i]),
        !has_cycle(engine_children(*old(t)).insert(parent, children@)),
        children_known(engine_children(*old(t))),
        parents_match(engine_children(*old(t)), engine_parents(*old(t))),
    ensures
        r is Ok,
        engine_children(*final(t)) == engine_children(*old(t)).insert(parent, children@),
        engine_parents(*final(t)) == relinked(
            engine_parents(*old(t)),
            parent,
            engine_children(*old(t))[parent],
            children@,
        ),
        forall|k: u64|
            engine_style(*final(t), k) == engine_style(*old(t), k) && stored_layout(*final(t), k) == stored_layout(
                *old(t),
                k,
            ),
{
    let nodes: Vec<taffy::node::Node> = children.iter().map(|c| KeyData::from_ffi(*c).into()).collect();
    t.set_children(KeyData::from_ffi(parent).into(), &nodes)
}

/// Relies on `Taffy::compute_layout`, which lays out `node` and its
/// descendants, writing the stored layouts of those nodes only, leaves
/// styles, child and parent links as they are, and returns `Ok`. It panics on
/// a key it does not hold, `node` and every child it meets included, and
/// recurses through the children, which ends only when they have no cycle.
#[verifier::external_body]
pub fn engine_compute_layout(t: &mut Taffy, node: u64, space: Size<AvailableSpace>) -> (r: Result<(), TaffyError>)
    requires
        engine_children(*old(t)).contains_key(node),
        !has_cycle(engine_children(*old(t))),
        children_known(engine_children(*old(t))),
    ensures
        r is Ok,
        *final(t) == after_pass(*old(t), node, space),
        engine_children(*final(t)) == engine_children(*old(t)),
        engine_parents(*final(t)) == engine_parents(*old(t)),
        forall|k: u64| engine_style(*final(t), k) == engine_style(*old(t), k),
        forall|k: u64|
            !reaches(engine_children(*old(t)), node, k) ==> stored_layout(*final(t), k) == stored_layout(*old(t), k),
{
    t.compute_layout(KeyData::from_ffi(node).into(), space)
}

/// Relies on `Taffy::layout`, which returns `Ok` with the stored layout of a
/// node that it holds and panics on any other key.
#[verifier::external_body]
pub fn engine_layout(t: &Taffy, node: u64) -> (r: Result<Layout, TaffyError>)
    requires
        engine_children(*t).contains_key(node),
    ensures
        r is Ok,
        r->Ok_0 == stored_layout(*t, node),
{
    match t.layout(KeyData::from_ffi(node).into()) {
        Ok(layout) => Ok(*layout),
        Err(e) => Err(e),
    }
}

/// Relies on the variants of taffy's `TaffyError`: each becomes the failure
/// of the same name, with its nodes as 64-bit keys.
#[verifier::external_body]
pub fn engine_failure(e: TaffyError) -> (r: Failure) {
    match e {
        TaffyError::ChildIndexOutOfBounds { parent, child_index, child_count } => {
            Failure::ChildIndexOutOfBounds { parent: parent.data().as_ffi(), child_index, child_count }
        },
        TaffyError::InvalidParentNode(n) => Failure::InvalidParentNode(n.data().as_ffi()),
        TaffyError::InvalidChildNode(n) => Failure::InvalidChildNode(n.data().as_ffi()),
        TaffyError::InvalidInputNode(n) => Failure::InvalidInputNode(n.data().as_ffi()),
    }
}

} // verus!
