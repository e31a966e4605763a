use vstd::prelude::*;
use vstd::std_specs::iter::IteratorSpec;

verus! {

/// Handle of a node, valid only for the tree that created it.
#[derive(Copy, Clone, Debug, PartialEq, Eq, Structural)]
pub struct NodeId(pub usize);

/// A node of an `IdTree`: its payload and its links, as handles.
#[derive(Debug)]
pub struct IdNode<T> {
    pub parent: Option<NodeId>,
    pub children: Vec<NodeId>,
    pub id: NodeId,
    pub data: T,
}

impl<T> IdNode<T> {
    /// A node with no parent and no children.
    pub fn new(data: T, id: NodeId) -> (r: Self)
        ensures
            r.parent is None,
            r.children@.len() == 0,
            r.id == id,
            r.data == data,
    {
        Self { parent: None, children: Vec::new(), id, data }
    }
}

/// Tree structure which owns an arena of `IdNode<T>`, addressed by `NodeId`.
pub struct IdTree<T> {
    nodes: Vec<IdNode<T>>,
    /// Number of edges between each node and the top of its tree.
    depth: Ghost<Seq<nat>>,
}

impl<T> View for IdTree<T> {
    type V = Seq<IdNode<T>>;

    closed spec fn view(&self) -> Seq<IdNode<T>> {
        self.nodes@
    }
}

impl<T> IdTree<T> {
    /// Number of parent links between node `i` and the parentless node above it.
    pub closed spec fn depth_of(self, i: int) -> nat {
        self.depth@[i]
    }

    pub open spec fn valid_id(self, id: NodeId) -> bool {
        id.0 < self@.len()
    }

    pub open spec fn parent_of(self, id: NodeId) -> Option<NodeId> {
        self@[id.0 as int].parent
    }

    pub open spec fn children_of(self, id: NodeId) -> Seq<NodeId> {
        self@[id.0 as int].children@
    }

    /// Node ids are positions, parent and child links agree and point into
    /// the arena, and the recorded depth rules out cycles.
    pub open spec fn wf(self) -> bool {
        &&& self.depth_len()
        &&& forall|i: int| 0 <= i < self@.len() ==> (#[trigger] self@[i]).id == NodeId(i as usize)
        &&& forall|i: int| 0 <= i < self@.len() ==> self.parent_ok(#[trigger] self@[i])
        &&& forall|i: int| 0 <= i < self@.len() ==> (#[trigger] self@[i]).children@.no_duplicates()
        &&& forall|i: int, k: int|
            0 <= i < self@.len() && 0 <= k < self@[i].children@.len() ==> self.child_ok(
                NodeId(i as usize),
                #[trigger] self@[i].children@[k],
            )
    }

    pub closed spec fn depth_len(self) -> bool {
        self.depth@.len() == self@.len()
    }

    pub open spec fn parent_ok(self, n: IdNode<T>) -> bool {
        match n.parent {
            Some(p) => {
                &&& self.valid_id(p)
                &&& self.depth_of(n.id.0 as int) == self.depth_of(p.0 as int) + 1
                &&& self.children_of(p).contains(n.id)
            },
            None => self.depth_of(n.id.0 as int) == 0,
        }
    }

    pub open spec fn child_ok(self, p: NodeId, c: NodeId) -> bool {
        self.valid_id(c) && self.parent_of(c) == Some(p)
    }

    /// An empty tree.
    pub fn new() -> (r: Self)
        ensures
            r.wf(),
            r@.len() == 0,
    {
        Self { nodes: Vec::new(), depth: Ghost(Seq::empty()) }
    }

    /// Appends a node with no parent and no children; its id is its position.
    pub fn create_node(&mut self, data: T) -> (id: NodeId)
        requires
            old(self).wf(),
            old(self)@.len() < usize::MAX,
        ensures
            final(self).wf(),
            id.0 == old(self)@.len(),
            final(self)@.len() == old(self)@.len() + 1,
            forall|i: int| 0 <= i < old(self)@.len() ==> final(self)@[i] == old(self)@[i],
            final(self)@[id.0 as int].parent is None,
            final(self)@[id.0 as int].children@.len() == 0,
            final(self)@[id.0 as int].id == id,
            final(self)@[id.0 as int].data == data,
    {
        let id = NodeId(self.nodes.len());
        self.nodes.push(IdNode::new(data, id));
        self.depth = Ghost(self.depth@.push(0));
        proof {
            let t = *self;
            assert forall|i: int| 0 <= i < t@.len() implies t.parent_ok(#[trigger] t@[i]) by {
                if i < t@.len() - 1 {
                    assert(old(self).parent_ok(old(self)@[i]));
                    let n = t@[i];
                    if let Some(p) = n.parent {
                        assert(old(self).children_of(p) == t.children_of(p));
                    }
                }
            }
            assert forall|i: int, k: int|
                0 <= i < t@.len() && 0 <= k < t@[i].children@.len() implies t.child_ok(
                NodeId(i as usize),
                #[trigger] t@[i].children@[k],
            ) by {
                assert(old(self).child_ok(NodeId(i as usize), old(self)@[i].children@[k]));
            }
        }
        id
    }

    /// The node `k` parent links above `n`, if there are that many.
    pub open spec fn ancestor_at(self, n: NodeId, k: nat) -> Option<NodeId>
        decreases k,
    {
        if k == 0 {
            Some(n)
        } else {
            match self.parent_of(n) {
                Some(p) => self.ancestor_at(p, (k - 1) as nat),
                None => None,
            }
        }
    }

    /// `n` lies in the subtree rooted at `a` (`a` itself included).
    pub open spec fn in_subtree(self, a: NodeId, n: NodeId) -> bool {
        exists|k: nat| self.ancestor_at(n, k) == Some(a)
    }

    /// The nodes from `n` up to the parentless node above it, both included.
    pub open spec fn ancestors(self, n: NodeId) -> Seq<NodeId> {
        Seq::new(self.depth_of(n.0 as int) + 1, |k: int| self.ancestor_at(n, k as nat).unwrap())
    }

    /// Walking up `k` links from a node of depth at least `k` stays in the
    /// arena and lowers the depth by exactly `k`.
    pub proof fn lemma_ancestor_at(self, n: NodeId, k: nat)
        requires
            self.wf(),
            self.valid_id(n),
            k <= self.depth_of(n.0 as int),
        ensures
            self.ancestor_at(n, k) is Some,
            self.valid_id(self.ancestor_at(n, k).unwrap()),
            self.depth_of(self.ancestor_at(n, k).unwrap().0 as int) == self.depth_of(n.0 as int) - k,
        decreases k,
    {
        assert(self.parent_ok(self@[n.0 as int]));
        if k > 0 {
            let p = self.parent_of(n).unwrap();
            self.lemma_ancestor_at(p, (k - 1) as nat);
        }
    }

    /// A node of depth zero has no parent.
    pub proof fn lemma_depth_zero(self, n: NodeId)
        requires
            self.wf(),
            self.valid_id(n),
        ensures
            self.depth_of(n.0 as int) == 0 <==> self.parent_of(n) is None,
    {
        assert(self.parent_ok(self@[n.0 as int]));
    }

    /// Makes `child_id` the last child of `parent_id`.
    pub fn set_parent_child(&mut self, parent_id: &NodeId, child_id: &NodeId)
        requires
            old(self).wf(),
            old(self).valid_id(*parent_id),
            old(self).valid_id(*child_id),
            old(self).parent_of(*child_id) is None,
            !old(self).in_subtree(*child_id, *parent_id),
        ensures
            final(self).wf(),
            final(self)@.len() == old(self)@.len(),
            final(self).parent_of(*child_id) == Some(*parent_id),
            final(self).children_of(*parent_id) == old(self).children_of(*parent_id).push(*child_id),
            final(self)@[child_id.0 as int].children == old(self)@[child_id.0 as int].children,
            final(self)@[child_id.0 as int].id == old(self)@[child_id.0 as int].id,
            final(self)@[child_id.0 as int].data == old(self)@[child_id.0 as int].data,
            final(self)@[parent_id.0 as int].parent == old(self)@[parent_id.0 as int].parent,
            final(self)@[parent_id.0 as int].id == old(self)@[parent_id.0 as int].id,
            final(self)@[parent_id.0 as int].data == old(self)@[parent_id.0 as int].data,
            forall|i: int|
                0 <= i < old(self)@.len() && i != parent_id.0 && i != child_id.0 ==> final(self)@[i]
                    == old(self)@[i],
    {
        let ghost pre = *self;
        let ghost p = *parent_id;
        let ghost c = *child_id;
        let ghost shift = self.depth_of(p.0 as int) + 1;
        assert(pre.ancestor_at(p, 0) == Some(p));
        assert(pre.ancestor_at(c, 0) == Some(c));
        self.nodes[child_id.0].parent = Some(*parent_id);
        self.nodes[parent_id.0].children.push(*child_id);
        self.depth = Ghost(
            Seq::new(
                pre.depth@.len(),
                |i: int|
                    if pre.in_subtree(c, NodeId(i as usize)) {
                        pre.depth@[i] + shift
                    } else {
                        pre.depth@[i]
                    },
            ),
        );
        proof {
            let t = *self;
            assert(t@.len() == t.nodes.len());
            assert(pre.parent_ok(pre@[c.0 as int]));
            assert forall|i: int| 0 <= i < t@.len() implies (#[trigger] t@[i]).id == NodeId(
                i as usize,
            ) by {
                assert(pre@[i].id == NodeId(i as usize));
            }
            assert forall|i: int| 0 <= i < t@.len() implies t.parent_ok(#[trigger] t@[i]) by {
                let n = NodeId(i as usize);
                assert(pre@[i].id == n);
                assert(pre.parent_ok(pre@[i]));
                assert(t.depth_of(i) == if pre.in_subtree(c, n) {
                    pre.depth_of(i) + shift
                } else {
                    pre.depth_of(i)
                });
                if i != c.0 {
                    let q = pre.parent_of(n);
                    assert(t.parent_of(n) == q);
                    if let Some(q) = q {
                        if pre.in_subtree(c, n) {
                            let k = choose|k: nat| pre.ancestor_at(n, k) == Some(c);
                            assert(k > 0);
                            assert(pre.ancestor_at(q, (k - 1) as nat) == Some(c));
                        }
                        if pre.in_subtree(c, q) {
                            let k = choose|k: nat| pre.ancestor_at(q, k) == Some(c);
                            assert(pre.ancestor_at(n, k + 1) == Some(c));
                        }
                        assert(pre.children_of(q).contains(n));
                        if q == p {
                            assert(t.children_of(q) == pre.children_of(q).push(c));
                            assert(t.children_of(q)[pre.children_of(q).index_of(n)] == n);
                        } else {
                            assert(t.children_of(q) == pre.children_of(q));
                        }
                        assert(t.children_of(q).contains(n));
                        assert(pre.in_subtree(c, n) == pre.in_subtree(c, q));
                        assert(t.depth_of(q.0 as int) == if pre.in_subtree(c, q) {
                            pre.depth_of(q.0 as int) + shift
                        } else {
                            pre.depth_of(q.0 as int)
                        });
                        assert(t.depth_of(i) == t.depth_of(q.0 as int) + 1);
                    } else {
                        if pre.in_subtree(c, n) {
                            let k = choose|k: nat| pre.ancestor_at(n, k) == Some(c);
                            assert(k == 0);
                        }
                    }
                } else {
                    assert(pre.depth_of(i) == 0);
                    assert(t.depth_of(p.0 as int) == pre.depth_of(p.0 as int));
                    assert(t.children_of(p) == pre.children_of(p).push(c));
                    assert(t.children_of(p)[t.children_of(p).len() - 1] == c);
                }
            }
            assert forall|i: int| 0 <= i < t@.len() implies (
            #[trigger] t@[i]).children@.no_duplicates() by {
                assert(pre@[i].children@.no_duplicates());
                if i == p.0 {
                    if pre.children_of(p).contains(c) {
                        let k = pre.children_of(p).index_of(c);
                        assert(pre.child_ok(p, pre@[p.0 as int].children@[k]));
                    }
                }
            }
            assert forall|i: int, k: int|
                0 <= i < t@.len() && 0 <= k < t@[i].children@.len() implies t.child_ok(
                NodeId(i as usize),
                #[trigger] t@[i].children@[k],
            ) by {
                if i == p.0 && k == pre@[i].children@.len() {
                } else {
                    assert(pre.child_ok(NodeId(i as usize), pre@[i].children@[k]));
                }
            }
        }
    }

    /// The node with id `id`.
    pub fn get(&self, id: &NodeId) -> (r: &IdNode<T>)
        requires
            self.valid_id(*id),
        ensures
            *r == self@[id.0 as int],
    {
        &self.nodes[id.0]
    }

    /// The node with id `id`, to change in place. Changing its links
    /// (`parent`, `children`, `id`) can break `wf`.
    pub fn get_mut(&mut self, id: &NodeId) -> (r: &mut IdNode<T>)
        requires
            old(self).valid_id(*id),
        ensures
            *r == old(self)@[id.0 as int],
            final(self)@ == old(self)@.update(id.0 as int, *final(r)),
            final(self).same_depths(*old(self)),
    {
        &mut self.nodes[id.0]
    }

    /// All nodes, in order of creation.
    pub fn iter(&self) -> (r: std::slice::Iter<'_, IdNode<T>>)
        ensures
            r.remaining() == self@.as_ref(),
            r.remaining().len() == self@.len(),
    {
        self.nodes.as_slice().iter()
    }

    /// All nodes, in order of creation, to change in place. Changing their
    /// links can break `wf`.
    pub fn iter_mut(&mut self) -> (r: &mut [IdNode<T>])
        ensures
            r@ == old(self)@,
            final(self)@ == final(r)@,
            final(self).same_depths(*old(self)),
    {
        self.nodes.as_mut_slice()
    }

    /// Both trees record the same depth for every node.
    pub closed spec fn same_depths(self, other: Self) -> bool {
        self.depth == other.depth
    }

    /// A tree whose links are those of a well-formed tree is well-formed,
    /// whatever its payloads.
    pub proof fn lemma_same_links(self, other: Self)
        requires
            other.wf(),
            self.same_depths(other),
            self@.len() == other@.len(),
            forall|i: int|
                #![trigger self@[i]]
                0 <= i < self@.len() ==> self@[i].parent == other@[i].parent && self@[i].children
                    == other@[i].children && self@[i].id == other@[i].id,
        ensures
            self.wf(),
    {
        assert forall|i: int| 0 <= i < self@.len() implies self.parent_ok(#[trigger] self@[i]) by {
            assert(other.parent_ok(other@[i]));
            if let Some(p) = self@[i].parent {
                assert(self.children_of(p) == other.children_of(p));
            }
        }
        assert forall|i: int, k: int|
            0 <= i < self@.len() && 0 <= k < self@[i].children@.len() implies self.child_ok(
            NodeId(i as usize),
            #[trigger] self@[i].children@[k],
        ) by {
            assert(other.child_ok(NodeId(i as usize), other@[i].children@[k]));
        }
    }

    /// The first node, in order of creation, that has no parent.
    pub fn get_root_node_id(&self) -> (r: NodeId)
        requires
            self.wf(),
            self@.len() > 0,
        ensures
            self.valid_id(r),
            self.parent_of(r) is None,
            forall|j: int| 0 <= j < r.0 ==> (#[trigger] self@[j]).parent is Some,
    {
        let mut i: usize = 0;
        while i < self.nodes.len()
            invariant
                0 <= i <= self@.len(),
                self@ == self.nodes@,
                forall|j: int| 0 <= j < i ==> (#[trigger] self@[j]).parent is Some,
            decreases self.nodes.len() - i,
        {
            if self.nodes[i].parent.is_none() {
                return NodeId(i);
            }
            i += 1;
        }
        proof {
            let n = NodeId(0);
            self.lemma_ancestor_at(n, self.depth_of(0));
            let top = self.ancestor_at(n, self.depth_of(0)).unwrap();
            self.lemma_depth_zero(top);
            assert(self@[top.0 as int].parent is Some);
        }
        NodeId(0)
    }

    /// Walks up from `id` to the top of its tree, `id` included.
    pub fn iter_ancestors(&self, id: &NodeId) -> (r: Ancestors<'_, T>)
        requires
            self.wf(),
            self.valid_id(*id),
        ensures
            r.inv(),
            r.tree() == *self,
            r.remaining() == self.ancestors(*id),
    {
        Ancestors { tree: self, parent_id: Some(*id) }
    }

    /// Walks the subtree under `id` depth first, `id` included; the children
    /// of a node are taken from the last to the first.
    pub fn iter_descendants(&self, id: &NodeId) -> (r: Descendants<'_, T>)
        requires
            self.wf(),
            self.valid_id(*id),
        ensures
            r.inv(),
            r.tree() == *self,
            r.start() == *id,
            r.visited().len() == 0,
            r.pending() == seq![*id],
    {
        Descendants { tree: self, stack: vec![*id], visited: Ghost(Seq::empty()), start: Ghost(*id) }
    }

    /// The ids from `id` up to the top of its tree, both included.
    pub fn ancestor_ids(&self, id: &NodeId) -> (r: Vec<NodeId>)
        requires
            self.wf(),
            self.valid_id(*id),
        ensures
            r@ == self.ancestors(*id),
    {
        let mut r: Vec<NodeId> = Vec::new();
        let mut cur: NodeId = *id;
        proof {
            self.lemma_ancestor_at(*id, 0);
        }
        loop
            invariant
                self.wf(),
                self.valid_id(cur),
                r@.len() + self.depth_of(cur.0 as int) == self.depth_of(id.0 as int),
                self.ancestor_at(*id, r@.len() as nat) == Some(cur),
                forall|k: int| 0 <= k < r@.len() ==> r@[k] == self.ancestors(*id)[k],
            decreases self.depth_of(cur.0 as int),
        {
            assert(self.parent_ok(self@[cur.0 as int]));
            r.push(cur);
            match self.nodes[cur.0].parent {
                Some(p) => {
                    proof {
                        self.lemma_ancestor_chain(*id, (r@.len() - 1) as nat);
                    }
                    cur = p;
                },
                None => {
                    assert(r@ =~= self.ancestors(*id));
                    return r;
                },
            }
        }
    }

    /// Walking up from a node goes through parent links only, ends at a node
    /// without a parent, and passes no node twice; its length is the node's
    /// depth plus one.
    pub proof fn lemma_ancestors_reach_root(self, id: NodeId)
        requires
            self.wf(),
            self.valid_id(id),
        ensures
            self.ancestors(id).len() == self.depth_of(id.0 as int) + 1,
            self.ancestors(id)[0] == id,
            forall|k: int|
                0 <= k < self.ancestors(id).len() ==> self.valid_id(#[trigger] self.ancestors(id)[k]),
            forall|k: int|
                0 <= k < self.ancestors(id).len() - 1 ==> self.parent_of(#[trigger] self.ancestors(id)[k])
                    == Some(self.ancestors(id)[k + 1]),
            self.parent_of(self.ancestors(id).last()) is None,
            self.ancestors(id).no_duplicates(),
    {
        let a = self.ancestors(id);
        let d = self.depth_of(id.0 as int);
        assert forall|k: int| 0 <= k < a.len() implies self.valid_id(#[trigger] a[k]) && self.depth_of(
            a[k].0 as int,
        ) == d - k by {
            self.lemma_ancestor_at(id, k as nat);
        }
        assert forall|k: int| 0 <= k < a.len() - 1 implies self.parent_of(#[trigger] a[k]) == Some(
            a[k + 1],
        ) by {
            self.lemma_ancestor_at(id, k as nat);
            self.lemma_ancestor_at(id, (k + 1) as nat);
            self.lemma_ancestor_chain(id, k as nat);
        }
        self.lemma_depth_zero(a[d as int]);
        assert(a[0] == id);
        assert forall|j: int, k: int| 0 <= j < a.len() && 0 <= k < a.len() && j != k implies a[j]
            != a[k] by {
            assert(self.depth_of(a[j].0 as int) == d - j);
            assert(self.depth_of(a[k].0 as int) == d - k);
        }
    }

    /// A node's parent lists it among its children exactly once.
    pub proof fn lemma_child_listed_once(self, c: NodeId)
        requires
            self.wf(),
            self.valid_id(c),
            self.parent_of(c) is Some,
        ensures
            ({
                let p = self.parent_of(c).unwrap();
                &&& self.valid_id(p)
                &&& self.children_of(p).contains(c)
                &&& forall|j: int, k: int|
                    0 <= j < self.children_of(p).len() && 0 <= k < self.children_of(p).len()
                        && self.children_of(p)[j] == c && self.children_of(p)[k] == c ==> j == k
            }),
    {
        assert(self@[c.0 as int].id == c);
        assert(self.parent_ok(self@[c.0 as int]));
        let p = self.parent_of(c).unwrap();
        assert(self@[p.0 as int].children@.no_duplicates());
    }

    /// One more step up from the `k`-th ancestor is the `k + 1`-th.
    pub proof fn lemma_ancestor_chain(self, n: NodeId, k: nat)
        requires
            self.ancestor_at(n, k) is Some,
        ensures
            self.ancestor_at(n, k + 1) == self.parent_of(self.ancestor_at(n, k).unwrap()),
        decreases k,
    {
        if k == 0 {
            if let Some(p) = self.parent_of(n) {
                assert(self.ancestor_at(p, 0) == Some(p));
            }
        } else {
            self.lemma_ancestor_chain(self.parent_of(n).unwrap(), (k - 1) as nat);
        }
    }
}

/// Walk from a node up to the top of its tree.
pub struct Ancestors<'a, T> {
    tree: &'a IdTree<T>,
    parent_id: Option<NodeId>,
}

impl<'a, T> Ancestors<'a, T> {
    pub closed spec fn tree(self) -> IdTree<T> {
        *self.tree
    }

    /// The ids still to be yielded, in order.
    pub closed spec fn remaining(self) -> Seq<NodeId> {
        match self.parent_id {
            Some(id) => self.tree.ancestors(id),
            None => Seq::empty(),
        }
    }

    pub closed spec fn inv(self) -> bool {
        &&& self.tree.wf()
        &&& match self.parent_id {
            Some(id) => self.tree.valid_id(id),
            None => true,
        }
    }

    /// The next node up, if any.
    pub fn next(&mut self) -> (r: Option<&'a IdNode<T>>)
        requires
            old(self).inv(),
        ensures
            final(self).inv(),
            final(self).tree() == old(self).tree(),
            old(self).remaining().len() == 0 ==> r is None && final(self).remaining()
                == old(self).remaining(),
            old(self).remaining().len() > 0 ==> r is Some && *r.unwrap() == old(self).tree()@[old(
                self,
            ).remaining()[0].0 as int] && final(self).remaining() == old(self).remaining().drop_first(),
    {
        match self.parent_id {
            Some(id) => {
                let next = self.tree.get(&id);
                let ghost t = *self.tree;
                proof {
                    assert(t.parent_ok(t@[id.0 as int]));
                    t.lemma_ancestor_at(id, 0);
                }
                match next.parent {
                    None => {
                        self.parent_id = None;
                        assert(t.ancestors(id).drop_first() =~= Seq::empty());
                    },
                    Some(parent) => {
                        self.parent_id = Some(parent);
                        assert(t.ancestors(id).drop_first() =~= t.ancestors(parent));
                    },
                }
                Some(next)
            },
            None => None,
        }
    }
}

/// Depth-first walk of a subtree.
pub struct Descendants<'a, T> {
    tree: &'a IdTree<T>,
    stack: Vec<NodeId>,
    visited: Ghost<Seq<NodeId>>,
    start: Ghost<NodeId>,
}

impl<'a, T> Descendants<'a, T> {
    pub closed spec fn tree(self) -> IdTree<T> {
        *self.tree
    }

    /// The node the walk started from.
    pub closed spec fn start(self) -> NodeId {
        self.start@
    }

    /// The ids yielded so far, in order.
    pub closed spec fn visited(self) -> Seq<NodeId> {
        self.visited@
    }

    /// The ids waiting to be yielded; the last one comes next.
    pub closed spec fn pending(self) -> Seq<NodeId> {
        self.stack@
    }

    pub closed spec fn inv(self) -> bool {
        &&& self.tree.wf()
        &&& forall|k: int|
            0 <= k < self.stack@.len() ==> self.tree.valid_id(#[trigger] self.stack@[k]) && (
            self.stack@[k] == self.start@ || self.parent_seen(self.stack@[k], self.visited@.len() as int))
        &&& forall|k: int|
            0 <= k < self.visited@.len() ==> (#[trigger] self.visited@[k]) == self.start@
                || self.parent_seen(self.visited@[k], k)
    }

    /// Every node yielded so far, except the start, came after its parent.
    pub proof fn lemma_parent_yielded_first(self)
        requires
            self.inv(),
        ensures
            forall|k: int|
                0 <= k < self.visited().len() && #[trigger] self.visited()[k] != self.start()
                    ==> exists|j: int|
                    0 <= j < k && self.tree().parent_of(self.visited()[k]) == Some(
                        #[trigger] self.visited()[j],
                    ),
    {
        assert forall|k: int|
            0 <= k < self.visited().len() && #[trigger] self.visited()[k] != self.start() implies exists|
            j: int,
        | 0 <= j < k && self.tree().parent_of(self.visited()[k]) == Some(
            #[trigger] self.visited()[j],
        ) by {
            assert(self.parent_seen(self.visited@[k], k));
        }
    }

    /// `n` has a parent, and it is among the first `upto` ids yielded.
    pub closed spec fn parent_seen(self, n: NodeId, upto: int) -> bool {
        exists|j: int|
            0 <= j < upto && self.tree.parent_of(n) == Some(#[trigger] self.visited@[j])
    }

    /// The next node of the walk, if any. A node other than the start is
    /// yielded only after its parent.
    pub fn next(&mut self) -> (r: Option<&'a IdNode<T>>)
        requires
            old(self).inv(),
        ensures
            final(self).inv(),
            final(self).tree() == old(self).tree(),
            final(self).start() == old(self).start(),
            old(self).pending().len() == 0 ==> r is None && final(self).pending() == old(
                self,
            ).pending() && final(self).visited() == old(self).visited(),
            old(self).pending().len() > 0 ==> {
                let id = old(self).pending().last();
                &&& r is Some
                &&& *r.unwrap() == old(self).tree()@[id.0 as int]
                &&& final(self).visited() == old(self).visited().push(id)
                &&& final(self).pending() == old(self).pending().drop_last() + old(
                    self,
                ).tree().children_of(id)
                &&& id != old(self).start() ==> old(self).visited().contains(
                    old(self).tree().parent_of(id).unwrap(),
                )
            },
    {
        let ret_id = match self.stack.pop() {
            Some(id) => id,
            None => {
                return None;
            },
        };
        let ghost pre = *self;
        let ghost old_stack = self.stack@.push(ret_id);
        assert(old_stack.last() == ret_id);
        assert(old_stack[old_stack.len() - 1] == ret_id);
        let node = self.tree.get(&ret_id);
        let ghost t = *self.tree;
        proof {
            if ret_id != self.start@ {
                let j = choose|j: int|
                    0 <= j < pre.visited@.len() && t.parent_of(ret_id) == Some(
                        #[trigger] pre.visited@[j],
                    );
                assert(pre.visited@.contains(pre.visited@[j]));
            }
        }
        self.visited = Ghost(self.visited@.push(ret_id));
        let mut i: usize = 0;
        while i < node.children.len()
            invariant
                t == *self.tree,
                t.wf(),
                t.valid_id(ret_id),
                *node == t@[ret_id.0 as int],
                self.visited@ == pre.visited@.push(ret_id),
                self.start@ == pre.start@,
                0 <= i <= node.children@.len(),
                self.stack@ == pre.stack@ + node.children@.subrange(0, i as int),
                forall|k: int|
                    0 <= k < pre.stack@.len() ==> t.valid_id(#[trigger] pre.stack@[k]) && (
                    pre.stack@[k] == pre.start@ || pre.parent_seen(pre.stack@[k], pre.visited@.len() as int)),
            decreases node.children.len() - i,
        {
            self.stack.push(node.children[i]);
            i += 1;
        }
        proof {
            let n = self.visited@.len();
            assert(node.children@.subrange(0, i as int) =~= node.children@);
            assert(old_stack.drop_last() =~= pre.stack@);
            assert(self.visited@[n - 1] == ret_id);
            assert forall|k: int| 0 <= k < self.stack@.len() implies t.valid_id(
                #[trigger] self.stack@[k],
            ) && (self.stack@[k] == self.start@ || self.parent_seen(self.stack@[k], n as int)) by {
                if k < pre.stack@.len() {
                    if self.stack@[k] != self.start@ {
                        let j = choose|j: int|
                            0 <= j < pre.visited@.len() && t.parent_of(pre.stack@[k]) == Some(
                                #[trigger] pre.visited@[j],
                            );
                        assert(self.visited@[j] == pre.visited@[j]);
                    }
                } else {
                    let c = node.children@[k - pre.stack@.len()];
                    assert(t.child_ok(ret_id, t@[ret_id.0 as int].children@[k - pre.stack@.len()]));
                    assert(t.parent_of(c) == Some(self.visited@[n - 1]));
                }
            }
            assert forall|k: int| 0 <= k < n implies (#[trigger] self.visited@[k]) == self.start@
                || self.parent_seen(self.visited@[k], k) by {
                if k < n - 1 {
                    assert(self.visited@[k] == pre.visited@[k]);
                    if self.visited@[k] != self.start@ {
                        let j = choose|j: int|
                            0 <= j < k && t.parent_of(pre.visited@[k]) == Some(
                                #[trigger] pre.visited@[j],
                            );
                        assert(self.visited@[j] == pre.visited@[j]);
                    }
                } else if ret_id != self.start@ {
                    let j = choose|j: int|
                        0 <= j < pre.visited@.len() && t.parent_of(ret_id) == Some(
                            #[trigger] pre.visited@[j],
                        );
                    assert(self.visited@[j] == pre.visited@[j]);
                }
            }
        }
        Some(node)
    }
}

} // verus!
