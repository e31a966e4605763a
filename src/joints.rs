use vstd::prelude::*;

use crate::idtree::{IdTree, NodeId};

verus! {

/// Why an assignment of joint positions was refused.
#[derive(Copy, Clone, Debug, PartialEq, Eq, Structural)]
pub enum JointError {
    /// The position is outside the joint's limits.
    OutOfLimit,
    /// The joint is fixed and has no position.
    SetToFixedError,
    /// The number of positions differs from the number of movable joints.
    SizeMisMatch,
}

/// The ids of `ids` whose node has a movable joint, in the same order.
pub open spec fn joints_among(ids: Seq<NodeId>, movable: Seq<bool>) -> Seq<NodeId> {
    ids.filter(|id: NodeId| movable[id.0 as int])
}

/// Number of movable joints.
pub open spec fn joint_count(movable: Seq<bool>) -> nat {
    movable.filter(|b: bool| b).len()
}

/// The value held for each joint of `joints`, in order.
pub open spec fn joint_values<A>(values: Seq<A>, joints: Seq<NodeId>) -> Seq<A> {
    joints.map_values(|id: NodeId| values[id.0 as int])
}

/// `values` with the `k`-th joint of `joints` given `angles[k]`.
pub open spec fn with_joint_values<A>(values: Seq<A>, joints: Seq<NodeId>, angles: Seq<A>) -> Seq<A> {
    Seq::new(
        values.len(),
        |i: int|
            if exists|k: int| 0 <= k < joints.len() && (#[trigger] joints[k]).0 == i {
                angles[choose|k: int| 0 <= k < joints.len() && (#[trigger] joints[k]).0 == i]
            } else {
                values[i]
            },
    )
}

/// Every id of `ids` indexes `values`.
pub open spec fn ids_within(ids: Seq<NodeId>, n: nat) -> bool {
    forall|k: int| 0 <= k < ids.len() ==> (#[trigger] ids[k]).0 < n
}

/// The first position whose name is `name`, if any.
pub fn find_link(names: &Vec<String>, name: &String) -> (r: Option<NodeId>)
    ensures
        r is None <==> forall|i: int| 0 <= i < names@.len() ==> (#[trigger] names@[i])@ != name@,
        r matches Some(id) ==> id.0 < names@.len() && names@[id.0 as int]@ == name@ && forall|i: int|
            0 <= i < id.0 ==> (#[trigger] names@[i])@ != name@,
{
    let mut i: usize = 0;
    while i < names.len()
        invariant
            0 <= i <= names@.len(),
            forall|j: int| 0 <= j < i ==> (#[trigger] names@[j])@ != name@,
        decreases names.len() - i,
    {
        if names[i] == *name {
            return Some(NodeId(i));
        }
        i += 1;
    }
    None
}

/// The ids from the top of the tree down to `end`, both included.
pub fn chain_ids<T>(tree: &IdTree<T>, end: &NodeId) -> (r: Vec<NodeId>)
    requires
        tree.wf(),
        tree.valid_id(*end),
    ensures
        r@ == tree.ancestors(*end).reverse(),
        r@.no_duplicates(),
        ids_within(r@, tree@.len()),
{
    let up = tree.ancestor_ids(end);
    proof {
        tree.lemma_ancestors_reach_root(*end);
    }
    let mut r: Vec<NodeId> = Vec::new();
    let mut i: usize = up.len();
    while i > 0
        invariant
            0 <= i <= up@.len(),
            r@ == up@.subrange(i as int, up@.len() as int).reverse(),
        decreases i,
    {
        i -= 1;
        r.push(up[i]);
        assert(r@ =~= up@.subrange(i as int, up@.len() as int).reverse());
    }
    assert(up@.subrange(0, up@.len() as int) =~= up@);
    assert forall|j: int, k: int| 0 <= j < r@.len() && 0 <= k < r@.len() && j != k implies r@[j]
        != r@[k] by {
        assert(r@[j] == up@[up@.len() - 1 - j]);
        assert(r@[k] == up@[up@.len() - 1 - k]);
    }
    assert forall|k: int| 0 <= k < r@.len() implies (#[trigger] r@[k]).0 < tree@.len() by {
        assert(r@[k] == up@[up@.len() - 1 - k]);
    }
    r
}

/// The path from the top of the tree down to the first link named
/// `end_link_name`; `None` when no link has that name.
pub fn chain_path<T>(tree: &IdTree<T>, names: &Vec<String>, end_link_name: &String) -> (r: Option<
    Vec<NodeId>,
>)
    requires
        tree.wf(),
        names@.len() == tree@.len(),
    ensures
        r is None <==> forall|i: int| 0 <= i < names@.len() ==> (#[trigger] names@[i])@ != end_link_name@,
        r matches Some(ids) ==> exists|e: NodeId|
            {
                &&& tree.valid_id(e)
                &&& names@[e.0 as int]@ == end_link_name@
                &&& forall|i: int| 0 <= i < e.0 ==> (#[trigger] names@[i])@ != end_link_name@
                &&& ids@ == tree.ancestors(e).reverse()
            },
{
    match find_link(names, end_link_name) {
        Some(end) => Some(chain_ids(tree, &end)),
        None => None,
    }
}

/// The ids of `ids` whose node has a movable joint, in the same order.
pub fn joint_ids(ids: &Vec<NodeId>, movable: &Vec<bool>) -> (r: Vec<NodeId>)
    requires
        ids_within(ids@, movable@.len()),
    ensures
        r@ == joints_among(ids@, movable@),
        ids@.no_duplicates() ==> r@.no_duplicates(),
        ids_within(r@, movable@.len()),
{
    let mut r: Vec<NodeId> = Vec::new();
    let mut i: usize = 0;
    while i < ids.len()
        invariant
            0 <= i <= ids@.len(),
            ids_within(ids@, movable@.len()),
            r@ == joints_among(ids@.subrange(0, i as int), movable@),
            ids@.no_duplicates() ==> r@.no_duplicates(),
            forall|k: int| 0 <= k < r@.len() ==> ids@.subrange(0, i as int).contains(#[trigger] r@[k]),
            ids_within(r@, movable@.len()),
        decreases ids.len() - i,
    {
        let id = ids[i];
        assert(ids@.subrange(0, i + 1) =~= ids@.subrange(0, i as int).push(id));
        assert(ids@.subrange(0, i + 1).drop_last() =~= ids@.subrange(0, i as int));
        reveal(Seq::filter);
        if movable[id.0] {
            proof {
                if ids@.no_duplicates() && r@.contains(id) {
                    let k = choose|k: int| 0 <= k < r@.len() && r@[k] == id;
                    assert(ids@.subrange(0, i as int).contains(r@[k]));
                    let j = choose|j: int| 0 <= j < i && ids@.subrange(0, i as int)[j] == id;
                    assert(ids@[j] == ids@[i as int]);
                }
            }
            r.push(id);
        }
        assert forall|k: int| 0 <= k < r@.len() implies ids@.subrange(0, i + 1).contains(
            #[trigger] r@[k],
        ) by {
            if k < r@.len() - 1 || !movable@[id.0 as int] {
                let j = choose|j: int| 0 <= j < i && ids@.subrange(0, i as int)[j] == r@[k];
                assert(ids@.subrange(0, i + 1)[j] == r@[k]);
            } else {
                assert(ids@.subrange(0, i + 1)[i as int] == r@[k]);
            }
        }
        i += 1;
    }
    assert(ids@.subrange(0, ids@.len() as int) =~= ids@);
    r
}

/// The ids of all nodes, in order, of an arena of `n` nodes.
pub open spec fn all_ids(n: nat) -> Seq<NodeId> {
    Seq::new(n, |i: int| NodeId(i as usize))
}

/// The ids of all nodes with a movable joint, in order of creation.
pub fn movable_ids(movable: &Vec<bool>) -> (r: Vec<NodeId>)
    ensures
        r@ == joints_among(all_ids(movable@.len() as nat), movable@),
        r@.no_duplicates(),
        ids_within(r@, movable@.len()),
{
    let mut all: Vec<NodeId> = Vec::new();
    let mut i: usize = 0;
    while i < movable.len()
        invariant
            0 <= i <= movable@.len(),
            all@ == all_ids(i as nat),
        decreases movable.len() - i,
    {
        all.push(NodeId(i));
        i += 1;
        assert(all@ =~= all_ids(i as nat));
    }
    joint_ids(&all, movable)
}

/// Number of movable joints.
pub fn count_joints(movable: &Vec<bool>) -> (r: usize)
    ensures
        r == joint_count(movable@),
{
    let mut r: usize = 0;
    let mut i: usize = 0;
    while i < movable.len()
        invariant
            0 <= i <= movable@.len(),
            r == joint_count(movable@.subrange(0, i as int)),
            r <= i,
        decreases movable.len() - i,
    {
        assert(movable@.subrange(0, i + 1).drop_last() =~= movable@.subrange(0, i as int));
        reveal(Seq::filter);
        if movable[i] {
            r += 1;
        }
        i += 1;
    }
    assert(movable@.subrange(0, movable@.len() as int) =~= movable@);
    r
}

/// The value held for each joint of `joints`, in order.
pub fn get_joint_values<A: Copy>(values: &Vec<A>, joints: &Vec<NodeId>) -> (r: Vec<A>)
    requires
        ids_within(joints@, values@.len()),
    ensures
        r@ == joint_values(values@, joints@),
{
    let mut r: Vec<A> = Vec::new();
    let mut i: usize = 0;
    while i < joints.len()
        invariant
            0 <= i <= joints@.len(),
            ids_within(joints@, values@.len()),
            r@ == joint_values(values@, joints@.subrange(0, i as int)),
        decreases joints.len() - i,
    {
        r.push(values[joints[i].0]);
        i += 1;
        assert(r@ =~= joint_values(values@, joints@.subrange(0, i as int)));
    }
    assert(joints@.subrange(0, joints@.len() as int) =~= joints@);
    r
}

/// Gives the `k`-th joint of `joints` the value `angles[k]`. Refused, with
/// nothing changed, when the two lengths differ.
pub fn set_joint_values<A: Copy>(values: &mut Vec<A>, joints: &Vec<NodeId>, angles: &Vec<A>) -> (r:
    Result<(), JointError>)
    requires
        ids_within(joints@, old(values)@.len()),
        joints@.no_duplicates(),
    ensures
        r is Err <==> angles@.len() != joints@.len(),
        r matches Err(e) ==> e == JointError::SizeMisMatch && final(values)@ == old(values)@,
        r is Ok ==> final(values)@ == with_joint_values(old(values)@, joints@, angles@),
{
    if joints.len() != angles.len() {
        return Err(JointError::SizeMisMatch);
    }
    let ghost before = values@;
    let mut i: usize = 0;
    while i < joints.len()
        invariant
            0 <= i <= joints@.len(),
            joints@.len() == angles@.len(),
            ids_within(joints@, before.len()),
            joints@.no_duplicates(),
            values@.len() == before.len(),
            forall|n: int|
                0 <= n < before.len() ==> #[trigger] values@[n] == if exists|k: int|
                    0 <= k < i && (#[trigger] joints@[k]).0 == n {
                    angles@[choose|k: int| 0 <= k < i && (#[trigger] joints@[k]).0 == n]
                } else {
                    before[n]
                },
        decreases joints.len() - i,
    {
        let id = joints[i];
        values.set(id.0, angles[i]);
        proof {
            assert forall|n: int| 0 <= n < before.len() implies #[trigger] values@[n] == if exists|
                k: int,
            | 0 <= k < i + 1 && (#[trigger] joints@[k]).0 == n {
                angles@[choose|k: int| 0 <= k < i + 1 && (#[trigger] joints@[k]).0 == n]
            } else {
                before[n]
            } by {
                if n == id.0 {
                    assert(joints@[i as int].0 == n);
                    let k = choose|k: int| 0 <= k < i + 1 && (#[trigger] joints@[k]).0 == n;
                    assert(joints@[k] == joints@[i as int]);
                    if exists|k: int| 0 <= k < i && (#[trigger] joints@[k]).0 == n {
                        let k2 = choose|k: int| 0 <= k < i && (#[trigger] joints@[k]).0 == n;
                        assert(joints@[k2] == joints@[i as int]);
                    }
                } else {
                    if exists|k: int| 0 <= k < i + 1 && (#[trigger] joints@[k]).0 == n {
                        let k = choose|k: int| 0 <= k < i + 1 && (#[trigger] joints@[k]).0 == n;
                        assert(k < i);
                    }
                }
            }
        }
        i += 1;
    }
    assert(values@ =~= with_joint_values(before, joints@, angles@));
    Ok(())
}

/// Giving every joint the value it already holds changes nothing.
pub proof fn lemma_joint_values_round_trip<A>(values: Seq<A>, joints: Seq<NodeId>)
    requires
        ids_within(joints, values.len()),
    ensures
        with_joint_values(values, joints, joint_values(values, joints)) == values,
{
    let w = with_joint_values(values, joints, joint_values(values, joints));
    assert forall|i: int| 0 <= i < values.len() implies w[i] == values[i] by {
        if exists|k: int| 0 <= k < joints.len() && (#[trigger] joints[k]).0 == i {
            let k = choose|k: int| 0 <= k < joints.len() && (#[trigger] joints[k]).0 == i;
            assert(joint_values(values, joints)[k] == values[joints[k].0 as int]);
        }
    }
    assert(w =~= values);
}

/// The movable joints of the first `i` nodes are as many as the `true`
/// flags among the first `i`.
proof fn lemma_prefix_joint_count(movable: Seq<bool>, i: nat)
    requires
        i <= movable.len() <= usize::MAX,
    ensures
        joints_among(all_ids(i), movable).len() == joint_count(movable.subrange(0, i as int)),
    decreases i,
{
    reveal(Seq::filter);
    if i > 0 {
        let j = (i - 1) as nat;
        lemma_prefix_joint_count(movable, j);
        assert(all_ids(i).drop_last() =~= all_ids(j));
        assert(movable.subrange(0, i as int).drop_last() =~= movable.subrange(0, j as int));
        assert(all_ids(i).last() == NodeId(j as usize));
    } else {
        assert(all_ids(0) =~= Seq::<NodeId>::empty());
        assert(movable.subrange(0, 0) =~= Seq::<bool>::empty());
    }
}

/// The degree of freedom counts exactly the movable joints that the
/// whole-tree joint ids list.
pub proof fn lemma_dof_counts_joint_ids(movable: Seq<bool>)
    requires
        movable.len() <= usize::MAX,
    ensures
        joints_among(all_ids(movable.len()), movable).len() == joint_count(movable),
{
    lemma_prefix_joint_count(movable, movable.len());
    assert(movable.subrange(0, movable.len() as int) =~= movable);
}

} // verus!
