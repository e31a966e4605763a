use kinematic_tree::idtree::{IdTree, NodeId};
use kinematic_tree::joints::{
    chain_ids, chain_path, count_joints, find_link, get_joint_values, joint_ids, movable_ids,
    set_joint_values, JointError,
};

fn arm() -> (IdTree<u32>, Vec<String>, Vec<bool>) {
    let mut tree = IdTree::new();
    let ids: Vec<NodeId> = (0..6u32).map(|k| tree.create_node(k)).collect();
    tree.set_parent_child(&ids[0], &ids[1]);
    tree.set_parent_child(&ids[1], &ids[2]);
    tree.set_parent_child(&ids[2], &ids[3]);
    tree.set_parent_child(&ids[0], &ids[4]);
    tree.set_parent_child(&ids[4], &ids[5]);
    let names = (0..6).map(|k| format!("link{}", k)).collect();
    let movable = vec![false, true, true, false, true, true];
    (tree, names, movable)
}

#[test]
fn find_link_first_match() {
    let names = vec!["a".to_string(), "b".to_string(), "b".to_string()];
    assert_eq!(find_link(&names, &"b".to_string()), Some(NodeId(1)));
    assert_eq!(find_link(&names, &"c".to_string()), None);
    assert_eq!(find_link(&Vec::new(), &"a".to_string()), None);
}

#[test]
fn chain_runs_from_root_to_end() {
    let (tree, names, _) = arm();
    assert_eq!(chain_ids(&tree, &NodeId(3)), vec![NodeId(0), NodeId(1), NodeId(2), NodeId(3)]);
    assert_eq!(
        chain_path(&tree, &names, &"link5".to_string()),
        Some(vec![NodeId(0), NodeId(4), NodeId(5)])
    );
    assert_eq!(chain_path(&tree, &names, &"link0".to_string()), Some(vec![NodeId(0)]));
    assert_eq!(chain_path(&tree, &names, &"nothing".to_string()), None);
}

#[test]
fn joints_skip_fixed() {
    let (tree, _, movable) = arm();
    let chain = chain_ids(&tree, &NodeId(3));
    assert_eq!(joint_ids(&chain, &movable), vec![NodeId(1), NodeId(2)]);
    assert_eq!(movable_ids(&movable), vec![NodeId(1), NodeId(2), NodeId(4), NodeId(5)]);
    assert_eq!(count_joints(&movable), 4);
    assert_eq!(count_joints(&vec![true; 6]), 6);
    assert_eq!(count_joints(&Vec::new()), 0);
}

#[test]
fn joint_values_follow_chain_order() {
    let values = vec![10, 11, 12, 13, 14, 15];
    let joints = vec![NodeId(4), NodeId(1), NodeId(5)];
    assert_eq!(get_joint_values(&values, &joints), vec![14, 11, 15]);
}

#[test]
fn set_joint_values_writes_each_joint() {
    let mut values = vec![10, 11, 12, 13, 14, 15];
    let joints = vec![NodeId(4), NodeId(1), NodeId(5)];
    assert_eq!(set_joint_values(&mut values, &joints, &vec![1, 2, 3]), Ok(()));
    assert_eq!(values, vec![10, 2, 12, 13, 1, 3]);
}

#[test]
fn set_joint_values_size_mismatch() {
    let mut values = vec![10, 11, 12, 13];
    let joints = vec![NodeId(1), NodeId(2)];
    assert_eq!(
        set_joint_values(&mut values, &joints, &vec![1]),
        Err(JointError::SizeMisMatch)
    );
    assert_eq!(values, vec![10, 11, 12, 13]);
    assert_eq!(
        set_joint_values(&mut values, &joints, &vec![1, 2, 3]),
        Err(JointError::SizeMisMatch)
    );
    assert_eq!(values, vec![10, 11, 12, 13]);
}

#[test]
fn set_joint_values_round_trip() {
    let mut values = vec![5, 6, 7, 8, 9];
    let joints = vec![NodeId(3), NodeId(0), NodeId(4)];
    let current = get_joint_values(&values, &joints);
    assert_eq!(set_joint_values(&mut values, &joints, &current), Ok(()));
    assert_eq!(values, vec![5, 6, 7, 8, 9]);
}
