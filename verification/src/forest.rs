//! The tree of namespaces that the parser grows, kept in an arena of the
//! `indextree` crate. What the arena holds is known to the proofs only
//! through the contracts below, which are taken on trust.

use crate::point::Namespace;
use vstd::prelude::*;

verus! {

#[verifier::external_type_specification]
#[verifier::external_body]
#[verifier::reject_recursive_types(T)]
pub struct ExArena<T>(indextree::Arena<T>);

#[verifier::external_type_specification]
#[verifier::external_body]
pub struct ExNodeId(indextree::NodeId);

/// What the arena holds: for each slot, in storage order, the namespace of
/// its node, `None` for a slot whose node was removed.
pub uninterp spec fn arena_data(arena: indextree::Arena<Namespace>) -> Seq<Option<Namespace>>;

/// The shape of the tree: for each slot, the slots of the children of its
/// node, in the order in which they were appended.
pub uninterp spec fn arena_children(arena: indextree::Arena<Namespace>) -> Seq<Seq<int>>;

/// The slot of the node that an id names in the arena; `None` where it names
/// no node that is there.
pub uninterp spec fn arena_slot(
    arena: indextree::Arena<Namespace>,
    id: indextree::NodeId,
) -> Option<int>;

/// Whether the node of a slot is a root: no node has it as a child.
pub open spec fn is_root(arena: indextree::Arena<Namespace>, slot: int) -> bool {
    forall|p: int, k: int|
        0 <= p < arena_children(arena).len() && 0 <= k < arena_children(arena)[p].len()
            ==> #[trigger] arena_children(arena)[p][k] != slot
}

/// Whether no node of the arena was removed.
pub open spec fn is_full(arena: indextree::Arena<Namespace>) -> bool {
    forall|i: int| 0 <= i < arena_data(arena).len() ==> (#[trigger] arena_data(arena)[i]) is Some
}

/// `Arena::new` of indextree: an arena without nodes.
#[verifier::external_body]
pub(crate) fn arena_new() -> (arena: indextree::Arena<Namespace>)
    ensures
        arena_data(arena).len() == 0,
        arena_children(arena).len() == 0,
{
    indextree::Arena::new()
}

/// `Arena::new_node` of indextree: in an arena from which no node was
/// removed, the new node takes the next slot, as a root without children,
/// and the ids of the other nodes go on naming them.
#[verifier::external_body]
pub(crate) fn arena_new_node(
    arena: &mut indextree::Arena<Namespace>,
    namespace: Namespace,
) -> (id: indextree::NodeId)
    requires
        is_full(*old(arena)),
        arena_data(*old(arena)).len() < usize::MAX,
    ensures
        arena_data(*final(arena)) == arena_data(*old(arena)).push(Some(namespace)),
        arena_children(*final(arena)) == arena_children(*old(arena)).push(Seq::empty()),
        arena_slot(*final(arena), id) == Some(arena_data(*old(arena)).len() as int),
        forall|other: indextree::NodeId|
            (#[trigger] arena_slot(*old(arena), other)) is Some ==> arena_slot(
                *final(arena),
                other,
            ) == arena_slot(*old(arena), other),
{
    arena.new_node(namespace)
}

/// `Arena::get` and `Node::get` of indextree: the namespace of the node that
/// the id names, if it names one.
#[verifier::external_body]
pub(crate) fn arena_get(
    arena: &indextree::Arena<Namespace>,
    id: indextree::NodeId,
) -> (found: Option<&Namespace>)
    ensures
        match found {
            Some(namespace) => {
                let slot = arena_slot(*arena, id);
                &&& slot is Some
                &&& 0 <= slot->0 < arena_data(*arena).len()
                &&& arena_data(*arena)[slot->0] == Some(*namespace)
            },
            None => arena_slot(*arena, id) is None,
        },
{
    match arena.get(id) {
        Some(node) => Some(node.get()),
        None => None,
    }
}

/// `Arena::get_mut` and `Node::get_mut` of indextree: the namespace of the
/// node that the id names, to be changed in place; the rest of the arena
/// stays as it is.
#[verifier::external_body]
pub(crate) fn arena_get_mut(
    arena: &mut indextree::Arena<Namespace>,
    id: indextree::NodeId,
) -> (found: Option<&mut Namespace>)
    ensures
        found is Some <==> arena_slot(*old(arena), id) is Some,
        found is Some ==> {
            let slot = arena_slot(*old(arena), id)->0;
            &&& 0 <= slot < arena_data(*old(arena)).len()
            &&& arena_data(*old(arena))[slot] == Some(*found.unwrap())
            &&& arena_data(*final(arena)) == arena_data(*old(arena)).update(
                slot,
                Some(*final(found.unwrap())),
            )
        },
        found is None ==> arena_data(*final(arena)) == arena_data(*old(arena)),
        arena_children(*final(arena)) == arena_children(*old(arena)),
        forall|other: indextree::NodeId| #[trigger]
            arena_slot(*final(arena), other) == arena_slot(*old(arena), other),
{
    match arena.get_mut(id) {
        Some(node) => Some(node.get_mut()),
        None => None,
    }
}

/// `NodeId::append` of indextree: a root without children becomes the last
/// child of another node; nothing else changes.
#[verifier::external_body]
pub(crate) fn node_append(
    parent: indextree::NodeId,
    child: indextree::NodeId,
    arena: &mut indextree::Arena<Namespace>,
)
    requires
        arena_slot(*old(arena), parent) is Some,
        arena_slot(*old(arena), child) is Some,
        arena_slot(*old(arena), parent) != arena_slot(*old(arena), child),
        0 <= arena_slot(*old(arena), parent)->0 < arena_children(*old(arena)).len(),
        0 <= arena_slot(*old(arena), child)->0 < arena_children(*old(arena)).len(),
        arena_children(*old(arena))[arena_slot(*old(arena), child)->0].len() == 0,
        is_root(*old(arena), arena_slot(*old(arena), child)->0),
    ensures
        arena_data(*final(arena)) == arena_data(*old(arena)),
        arena_children(*final(arena)) == arena_children(*old(arena)).update(
            arena_slot(*old(arena), parent)->0,
            arena_children(*old(arena))[arena_slot(*old(arena), parent)->0].push(
                arena_slot(*old(arena), child)->0,
            ),
        ),
        forall|other: indextree::NodeId| #[trigger]
            arena_slot(*final(arena), other) == arena_slot(*old(arena), other),
{
    parent.append(child, arena)
}

/// `NodeId::children` of indextree: the ids of the children of a node, in
/// the order in which they were appended.
#[verifier::external_body]
pub(crate) fn node_children(
    parent: indextree::NodeId,
    arena: &indextree::Arena<Namespace>,
) -> (children: Vec<indextree::NodeId>)
    requires
        arena_slot(*arena, parent) is Some,
        0 <= arena_slot(*arena, parent)->0 < arena_children(*arena).len(),
    ensures
        children@.len() == arena_children(*arena)[arena_slot(*arena, parent)->0].len(),
        forall|k: int|
            0 <= k < children@.len() ==> arena_slot(*arena, #[trigger] children@[k]) == Some(
                arena_children(*arena)[arena_slot(*arena, parent)->0][k],
            ),
{
    parent.children(arena).collect()
}

/// `Arena::roots` of indextree: the ids of the nodes that are there and
/// have no parent, in storage order.
#[verifier::external_body]
pub(crate) fn arena_roots(arena: &indextree::Arena<Namespace>) -> (roots: Vec<indextree::NodeId>)
    ensures
        forall|k: int|
            0 <= k < roots@.len() ==> {
                let found = #[trigger] arena_slot(*arena, roots@[k]);
                &&& found is Some
                &&& 0 <= found->0 < arena_data(*arena).len()
                &&& arena_data(*arena)[found->0] is Some
                &&& is_root(*arena, found->0)
            },
        forall|slot: int|
            0 <= slot < arena_data(*arena).len() && (#[trigger] arena_data(*arena)[slot]) is Some
                && is_root(*arena, slot) ==> exists|k: int|
                0 <= k < roots@.len() && #[trigger] arena_slot(*arena, roots@[k]) == Some(slot),
        forall|j: int, k: int|
            0 <= j < k < roots@.len() ==> (#[trigger] arena_slot(*arena, roots@[j]))->0 < (
            #[trigger] arena_slot(*arena, roots@[k]))->0,
{
    arena.roots().collect()
}

/// `Arena::into_iter` and `Node::into_data` of indextree: the namespaces of
/// an arena from which no node was removed, in storage order.
#[verifier::external_body]
pub(crate) fn arena_into_vec(arena: indextree::Arena<Namespace>) -> (namespaces: Vec<Namespace>)
    requires
        is_full(arena),
    ensures
        namespaces@.len() == arena_data(arena).len(),
        forall|i: int|
            0 <= i < namespaces@.len() ==> arena_data(arena)[i] == Some(#[trigger] namespaces@[i]),
{
    arena.into_iter().filter_map(|node| node.into_data()).collect()
}

} // verus!
