//! Walks through the group tree.
use vstd::prelude::*;

use crate::objects::PBXObject;
use crate::table::ids_of;

verus! {

/// One visit of a walk through the group tree: a node's identifier and its
/// depth below the starting group.
pub struct WalkStep {
    pub depth: usize,
    pub id: String,
}

/// The child identifiers of the group stored under `k` in `m`.
pub open spec fn children_of(m: Map<Seq<char>, PBXObject>, k: Seq<char>) -> Seq<Seq<char>> {
    ids_of(m[k]->PBXGroup_0.children@)
}

/// `r` is a pre-order walk of the group tree of `m` from `start` that visits
/// each node reachable through stored groups once: it starts at `start` (and
/// is empty exactly when `start` is not in `m`), it visits only stored nodes,
/// no identifier twice, each later step is a child of the last step before it
/// at one level less (all steps between being deeper), and every stored child
/// of a visited group is visited. Identifiers absent from `m` are skipped.
pub open spec fn is_group_walk(m: Map<Seq<char>, PBXObject>, start: Seq<char>, r: Seq<WalkStep>) -> bool {
    &&& (r.len() > 0 <==> m.contains_key(start))
    &&& r.len() > 0 ==> r[0].id@ == start && r[0].depth == 0
    &&& forall|j: int| 0 <= j < r.len() ==> m.contains_key(#[trigger] r[j].id@)
    &&& forall|i: int, j: int| 0 <= i < r.len() && 0 <= j < r.len() && i != j ==> r[i].id@ != r[j].id@
    &&& forall|j: int| 0 < j < r.len() ==> #[trigger] has_parent(m, r, j)
    &&& forall|j: int, c: Seq<char>|
        0 <= j < r.len() && m[r[j].id@] is PBXGroup && #[trigger] children_of(m, r[j].id@).contains(c)
            && m.contains_key(c) ==> exists|q: int| 0 <= q < r.len() && #[trigger] r[q].id@ == c
}

/// Step `j` of `r` has a parent: an earlier group step one level up that
/// lists it among its children, with only deeper steps in between.
pub open spec fn has_parent(m: Map<Seq<char>, PBXObject>, r: Seq<WalkStep>, j: int) -> bool {
    exists|p: int| #[trigger] parent_at(m, r, j, p)
}

/// Step `p` of `r` is the parent of step `j`.
pub open spec fn parent_at(m: Map<Seq<char>, PBXObject>, r: Seq<WalkStep>, j: int, p: int) -> bool {
    &&& 0 <= p < j
    &&& r[p].depth + 1 == r[j].depth
    &&& m[r[p].id@] is PBXGroup
    &&& children_of(m, r[p].id@).contains(r[j].id@)
    &&& forall|q: int| p < q < j ==> r[q].depth >= r[j].depth
}

/// Pushes `children` onto `stack` at `depth`, last child first, so that they
/// come off the stack in their listed order.
pub(crate) fn push_children(stack: &mut Vec<(usize, String)>, children: &Vec<String>, depth: usize)
    ensures
        final(stack).len() == old(stack).len() + children.len(),
        forall|i: int| 0 <= i < old(stack).len() ==> final(stack)@[i] == old(stack)@[i],
        forall|i: int|
            0 <= i < children.len() ==> #[trigger] final(stack)@[old(stack).len() + i] == (
                depth,
                children@[children.len() - 1 - i],
            ),
{
    let ghost s0 = stack@;
    let mut c = children.len();
    while c > 0
        invariant
            c <= children.len(),
            stack.len() == s0.len() + (children.len() - c),
            forall|i: int| 0 <= i < s0.len() ==> stack@[i] == s0[i],
            forall|i: int|
                0 <= i < children.len() - c ==> #[trigger] stack@[s0.len() + i] == (
                    depth,
                    children@[children.len() - 1 - i],
                ),
        decreases c,
    {
        c = c - 1;
        stack.push((depth, children[c].clone()));
    }
}

} // verus!
