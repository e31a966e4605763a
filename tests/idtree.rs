use kinematic_tree::idtree::{IdNode, IdTree, NodeId};

fn ancestor_data(tree: &IdTree<String>, id: &NodeId) -> Vec<String> {
    let mut it = tree.iter_ancestors(id);
    let mut out = Vec::new();
    while let Some(node) = it.next() {
        out.push(node.data.clone());
    }
    out
}

fn descendant_data(tree: &IdTree<String>, id: &NodeId) -> Vec<String> {
    let mut it = tree.iter_descendants(id);
    let mut out = Vec::new();
    while let Some(node) = it.next() {
        out.push(node.data.clone());
    }
    out
}

fn descendant_ids<T>(tree: &IdTree<T>, id: &NodeId) -> Vec<NodeId> {
    let mut it = tree.iter_descendants(id);
    let mut out = Vec::new();
    while let Some(node) = it.next() {
        out.push(node.id);
    }
    out
}

#[test]
fn test_idtree() {
    let mut tree = IdTree::<String>::new();
    let n0 = tree.create_node("hoge0".to_owned());
    let n1 = tree.create_node("hoge1".to_owned());
    let n2 = tree.create_node("hoge2".to_owned());
    let n3 = tree.create_node("hoge3".to_owned());
    tree.set_parent_child(&n0, &n1);
    tree.set_parent_child(&n1, &n2);
    tree.set_parent_child(&n1, &n3);

    assert_eq!(tree.get(&n0).data, "hoge0");
    assert_eq!(tree.get(&n1).children.len(), 2);
    assert!(tree.get(&n1).parent.is_some());
    assert!(tree.get(&n0).parent.is_none());
    assert_eq!(tree.get(&n2).children.len(), 0);
    tree.get_mut(&n1).data = "aaa".to_owned();
    assert_eq!(tree.get(&n1).data, "aaa");

    let data = tree.iter().map(|node| node.data.clone()).collect::<Vec<_>>();
    assert_eq!(data, vec!["hoge0", "aaa", "hoge2", "hoge3"]);
    for ref_data in tree.iter_mut() {
        ref_data.data.push_str("_");
    }
    let data = tree.iter().map(|node| node.data.clone()).collect::<Vec<_>>();
    assert_eq!(data, vec!["hoge0_", "aaa_", "hoge2_", "hoge3_"]);

    assert_eq!(ancestor_data(&tree, &n0).len(), 1);
    assert_eq!(ancestor_data(&tree, &n2).len(), 3);
    let data = ancestor_data(&tree, &n2);
    assert_eq!(data, vec!["hoge2_", "aaa_", "hoge0_"]);

    assert_eq!(descendant_data(&tree, &n0).len(), 4);
    let data = descendant_data(&tree, &n1);
    assert_eq!(data, vec!["aaa_", "hoge3_", "hoge2_"]);
}

#[test]
fn node_new_has_no_links() {
    let node = IdNode::new(7u32, NodeId(3));
    assert!(node.parent.is_none());
    assert!(node.children.is_empty());
    assert_eq!(node.id, NodeId(3));
    assert_eq!(node.data, 7);
}

#[test]
fn iter_counts_created_nodes() {
    let mut tree = IdTree::<u32>::new();
    assert_eq!(tree.iter().count(), 0);
    for k in 0..10u32 {
        let id = tree.create_node(k);
        assert_eq!(id, NodeId(k as usize));
    }
    assert_eq!(tree.iter().count(), 10);
}

#[test]
fn links_recorded_once_in_order() {
    let mut tree = IdTree::<u32>::new();
    let ids: Vec<NodeId> = (0..5u32).map(|k| tree.create_node(k)).collect();
    tree.set_parent_child(&ids[0], &ids[3]);
    tree.set_parent_child(&ids[0], &ids[1]);
    tree.set_parent_child(&ids[1], &ids[4]);
    tree.set_parent_child(&ids[0], &ids[2]);
    assert_eq!(tree.get(&ids[0]).children, vec![ids[3], ids[1], ids[2]]);
    assert_eq!(tree.get(&ids[1]).children, vec![ids[4]]);
    for c in [1usize, 2, 3] {
        assert_eq!(tree.get(&ids[c]).parent, Some(ids[0]));
    }
    assert_eq!(tree.get(&ids[4]).parent, Some(ids[1]));
}

#[test]
fn ancestors_end_at_root() {
    let mut tree = IdTree::<u32>::new();
    let ids: Vec<NodeId> = (0..6u32).map(|k| tree.create_node(k)).collect();
    tree.set_parent_child(&ids[2], &ids[0]);
    tree.set_parent_child(&ids[0], &ids[5]);
    tree.set_parent_child(&ids[5], &ids[1]);
    let up = tree.ancestor_ids(&ids[1]);
    assert_eq!(up, vec![ids[1], ids[5], ids[0], ids[2]]);
    assert!(tree.get(up.last().unwrap()).parent.is_none());
    let mut it = tree.iter_ancestors(&ids[1]);
    let mut n = 0;
    while it.next().is_some() {
        n += 1;
    }
    assert_eq!(n, 4);
    assert_eq!(tree.ancestor_ids(&ids[3]), vec![ids[3]]);
}

#[test]
fn descendants_parent_first() {
    let mut tree = IdTree::<u32>::new();
    let ids: Vec<NodeId> = (0..7u32).map(|k| tree.create_node(k)).collect();
    tree.set_parent_child(&ids[6], &ids[2]);
    tree.set_parent_child(&ids[6], &ids[4]);
    tree.set_parent_child(&ids[2], &ids[0]);
    tree.set_parent_child(&ids[4], &ids[3]);
    tree.set_parent_child(&ids[3], &ids[1]);
    tree.set_parent_child(&ids[2], &ids[5]);
    let order = descendant_ids(&tree, &ids[6]);
    assert_eq!(order, vec![ids[6], ids[4], ids[3], ids[1], ids[2], ids[5], ids[0]]);
    for (k, id) in order.iter().enumerate().skip(1) {
        let parent = tree.get(id).parent.unwrap();
        let at = order.iter().position(|x| *x == parent).unwrap();
        assert!(at < k);
    }
    assert_eq!(descendant_ids(&tree, &ids[3]), vec![ids[3], ids[1]]);
}

#[test]
fn root_is_first_parentless_node() {
    let mut tree = IdTree::<u32>::new();
    let ids: Vec<NodeId> = (0..3u32).map(|k| tree.create_node(k)).collect();
    tree.set_parent_child(&ids[1], &ids[0]);
    tree.set_parent_child(&ids[1], &ids[2]);
    assert_eq!(tree.get_root_node_id(), ids[1]);
    let mut single = IdTree::<u32>::new();
    let only = single.create_node(9);
    assert_eq!(single.get_root_node_id(), only);
}
