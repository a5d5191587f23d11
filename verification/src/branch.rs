//! Branches of a recipe tree: the paths from the root to each node, and the
//! walk that hands them out one by one.

use crate::recipe::{MonsterInfo, MonsterNode};
use vstd::prelude::*;

verus! {

/// A path, a sequence of child indices, is valid in a tree when each index
/// picks an existing child of the node that the indices before it lead to.
pub open spec fn valid_path(root: MonsterNode, path: Seq<int>) -> bool
    decreases path.len(),
{
    path.len() == 0 || (valid_path(root, path.drop_last()) && 0 <= path.last() < node_at(
        root,
        path.drop_last(),
    ).children@.len())
}

/// The node that a valid path leads to from `root`.
pub open spec fn node_at(root: MonsterNode, path: Seq<int>) -> MonsterNode
    decreases path.len(),
{
    if path.len() == 0 {
        root
    } else {
        node_at(root, path.drop_last()).children@[path.last()]
    }
}

/// The branch of a path: the data of the nodes from `root` to the node that
/// the path leads to, both included.
pub open spec fn branch_of(root: MonsterNode, path: Seq<int>) -> Seq<MonsterInfo>
    decreases path.len(),
{
    if path.len() == 0 {
        seq![root.data]
    } else {
        branch_of(root, path.drop_last()).push(node_at(root, path).data)
    }
}

/// A path that is valid from a node and not empty goes through one of its
/// children: from there the rest of it is valid, leads to the same node, and
/// has the same branch but for the data of the node itself in front.
pub proof fn lemma_path_from_child(node: MonsterNode, path: Seq<int>)
    requires
        valid_path(node, path),
        path.len() > 0,
    ensures
        0 <= path[0] < node.children@.len(),
        valid_path(node.children@[path[0]], path.drop_first()),
        node_at(node, path) == node_at(node.children@[path[0]], path.drop_first()),
        branch_of(node, path) == seq![node.data] + branch_of(
            node.children@[path[0]],
            path.drop_first(),
        ),
    decreases path.len(),
{
    let front = path.drop_last();
    if front.len() == 0 {
        assert(path.drop_first().len() == 0);
        assert(node_at(node, front) == node);
        assert(path[0] == path.last());
        assert(branch_of(node, front) == seq![node.data]);
        assert(branch_of(node, path) =~= seq![node.data] + seq![node.children@[path[0]].data]);
    } else {
        lemma_path_from_child(node, front);
        assert(front[0] == path[0]);
        assert(front.drop_first() == path.drop_first().drop_last());
        assert(path.drop_first().last() == path.last());
        let child = node.children@[path[0]];
        let rest = path.drop_first();
        assert(branch_of(node, path) =~= seq![node.data] + branch_of(child, rest));
    }
}

/// The first path after `path` that goes on at a later sibling: of the node
/// itself, or else of the nearest node above it that has one. None where no
/// node on the path has a later sibling.
pub open spec fn next_sibling(root: MonsterNode, path: Seq<int>) -> Option<Seq<int>>
    decreases path.len(),
{
    if path.len() == 0 {
        None
    } else if path.last() + 1 < node_at(root, path.drop_last()).children@.len() {
        Some(path.drop_last().push(path.last() + 1))
    } else {
        next_sibling(root, path.drop_last())
    }
}

/// The path that follows `path` when the tree is walked depth first, each
/// node before its children and the children from left to right: the first
/// child where there is one, else the next sibling.
pub open spec fn successor(root: MonsterNode, path: Seq<int>) -> Option<Seq<int>> {
    if node_at(root, path).children@.len() > 0 {
        Some(path.push(0))
    } else {
        next_sibling(root, path)
    }
}

/// The indices of a position, as a path.
pub open spec fn path_of(indices: Seq<usize>) -> Seq<int> {
    Seq::new(indices.len(), |k: int| indices[k] as int)
}

/// A walk over the branches of a tree, depth first, each node before its
/// children and the children from left to right.
pub struct MutableMonsterBranchIterator<'a> {
    root: &'a MonsterNode,
    indices: Vec<usize>,
    stop: bool,
}

impl<'a> MutableMonsterBranchIterator<'a> {
    /// The tree that is walked.
    pub closed spec fn tree(self) -> MonsterNode {
        *self.root
    }

    /// The path to the node whose branch comes next.
    pub closed spec fn position(self) -> Seq<int> {
        path_of(self.indices@)
    }

    /// Whether the last branch has been handed out.
    pub closed spec fn exhausted(self) -> bool {
        self.stop
    }

    /// The position is a path of the tree.
    pub open spec fn wf(self) -> bool {
        valid_path(self.tree(), self.position())
    }

    /// A walk that starts at the root of `root`.
    pub fn new(root: &'a MonsterNode) -> (walk: Self)
        ensures
            walk.wf(),
            walk.tree() == *root,
            walk.position() == Seq::<int>::empty(),
            !walk.exhausted(),
    {
        let walk = Self { root, indices: Vec::new(), stop: false };
        proof {
            assert(path_of(walk.indices@) =~= Seq::<int>::empty());
        }
        walk
    }

    /// The nodes from the root to the position, both included.
    fn get_nodes(&self) -> (nodes: Vec<&'a MonsterNode>)
        requires
            self.wf(),
        ensures
            nodes@.len() == self.position().len() + 1,
            forall|k: int|
                0 <= k < nodes@.len() ==> *#[trigger] nodes@[k] == node_at(
                    self.tree(),
                    self.position().take(k),
                ),
            forall|k: int| 0 <= k <= self.position().len() ==> valid_path(
                self.tree(),
                #[trigger] self.position().take(k),
            ),
    {
        let ghost path = path_of(self.indices@);
        let mut nodes: Vec<&'a MonsterNode> = Vec::new();
        let mut cursor: &'a MonsterNode = self.root;
        nodes.push(cursor);
        proof {
            lemma_prefixes_valid(*self.root, path);
            assert(path.take(0) =~= Seq::<int>::empty());
        }
        let mut k: usize = 0;
        while k < self.indices.len()
            invariant
                path == path_of(self.indices@),
                k <= self.indices@.len(),
                nodes@.len() == k + 1,
                *cursor == node_at(*self.root, path.take(k as int)),
                forall|j: int|
                    0 <= j <= path.len() ==> valid_path(*self.root, #[trigger] path.take(j)),
                forall|j: int|
                    0 <= j <= k ==> *#[trigger] nodes@[j] == node_at(*self.root, path.take(j)),
            decreases self.indices.len() - k,
        {
            proof {
                assert(path.take(k + 1).drop_last() =~= path.take(k as int));
                assert(path.take(k + 1).last() == self.indices@[k as int] as int);
                assert(valid_path(*self.root, path.take(k + 1)));
            }
            cursor = &cursor.children[self.indices[k]];
            nodes.push(cursor);
            k = k + 1;
        }
        nodes
    }

    /// The branch of the position: the data of the nodes from the root to it.
    pub fn get_branch(&self) -> (branch: Vec<MonsterInfo>)
        requires
            self.wf(),
        ensures
            branch@ == branch_of(self.tree(), self.position()),
    {
        let nodes = self.get_nodes();
        let ghost path = self.position();
        let mut branch: Vec<MonsterInfo> = Vec::new();
        let mut k: usize = 0;
        while k < nodes.len()
            invariant
                path == self.position(),
                nodes@.len() == path.len() + 1,
                forall|j: int|
                    0 <= j < nodes@.len() ==> *#[trigger] nodes@[j] == node_at(
                        self.tree(),
                        path.take(j),
                    ),
                k <= nodes@.len(),
                branch@.len() == k,
                k > 0 ==> branch@ == branch_of(self.tree(), path.take(k - 1)),
            decreases nodes.len() - k,
        {
            proof {
                if k > 0 {
                    assert(path.take(k as int).drop_last() =~= path.take(k - 1));
                } else {
                    assert(path.take(0) =~= Seq::<int>::empty());
                    assert(branch@ =~= Seq::<MonsterInfo>::empty());
                }
            }
            branch.push(nodes[k].data);
            proof {
                if k == 0 {
                    assert(branch@ =~= seq![self.tree().data]);
                }
            }
            k = k + 1;
        }
        proof {
            assert(path.take(path.len() as int) =~= path);
        }
        branch
    }

    /// Hands out the branch of the position and moves on to the path that
    /// follows it in the walk; after the branch of the last node, and ever
    /// after, there is nothing more.
    pub fn next(&mut self) -> (r: Option<Vec<MonsterInfo>>)
        requires
            old(self).wf(),
        ensures
            final(self).wf(),
            final(self).tree() == old(self).tree(),
            old(self).exhausted() ==> r.is_none() && final(self).exhausted()
                && final(self).position() == old(self).position(),
            !old(self).exhausted() ==> r.is_some() && r.unwrap()@ == branch_of(
                old(self).tree(),
                old(self).position(),
            ) && match successor(old(self).tree(), old(self).position()) {
                Some(path) => !final(self).exhausted() && final(self).position() == path,
                None => final(self).exhausted(),
            },
    {
        if self.stop {
            return None;
        }
        let ghost path = self.position();
        let ghost tree = self.tree();
        let nodes = self.get_nodes();
        let branch = self.get_branch();
        proof {
            assert(path.take(path.len() as int) =~= path);
        }
        if nodes[nodes.len() - 1].children.len() > 0 {
            self.indices.push(0);
            proof {
                assert(path_of(self.indices@) =~= path.push(0));
                assert(path.push(0).drop_last() =~= path);
            }
            return Some(branch);
        }
        while self.indices.len() > 0
            invariant
                *self.root == tree,
                old(self).tree() == tree,
                old(self).position() == path,
                !old(self).exhausted(),
                branch@ == branch_of(tree, path),
                node_at(tree, path).children@.len() == 0,
                !self.stop,
                self.indices@.len() <= path.len(),
                path_of(self.indices@) == path.take(self.indices@.len() as int),
                nodes@.len() == path.len() + 1,
                forall|k: int|
                    0 <= k < nodes@.len() ==> *#[trigger] nodes@[k] == node_at(tree, path.take(k)),
                forall|k: int| 0 <= k <= path.len() ==> valid_path(tree, #[trigger] path.take(k)),
                next_sibling(tree, path_of(self.indices@)) == next_sibling(tree, path),
            decreases self.indices@.len(),
        {
            let ghost here = path_of(self.indices@);
            let index = self.indices.pop().unwrap();
            let cursor = self.indices.len();
            proof {
                assert(path_of(self.indices@) =~= here.drop_last());
                assert(here.drop_last() =~= path.take(cursor as int));
                assert(here.last() == index as int);
                assert(valid_path(tree, here));
            }
            if nodes[cursor].children.len() > index + 1 {
                self.indices.push(index + 1);
                proof {
                    let moved = here.drop_last().push(index + 1);
                    assert(path_of(self.indices@) =~= moved);
                    assert(moved.drop_last() =~= here.drop_last());
                    assert(valid_path(tree, here.drop_last()));
                }
                return Some(branch);
            }
        }
        proof {
            assert(path_of(self.indices@) =~= Seq::<int>::empty());
        }
        self.stop = true;
        Some(branch)
    }

    /// Hands out all the branches that are left, in the order of the walk:
    /// those of the node at the position and of every node of a later rank.
    pub fn collect(self) -> (branches: Vec<Vec<MonsterInfo>>)
        requires
            self.wf(),
        ensures
            self.exhausted() ==> branches@.len() == 0,
            !self.exhausted() ==> branches@.len() == size(self.tree()) - rank(
                self.tree(),
                self.position(),
            ),
            forall|k: int|
                0 <= k < branches@.len() ==> is_branch_of_rank(
                    self.tree(),
                    rank(self.tree(), self.position()) + k,
                    (#[trigger] branches@[k])@,
                ),
    {
        let ghost tree = self.tree();
        let ghost first = rank(self.tree(), self.position());
        let mut walk = self;
        let mut branches: Vec<Vec<MonsterInfo>> = Vec::new();
        proof {
            if !walk.stop {
                lemma_successor_rank(tree, walk.position());
            }
        }
        while !walk.stop
            invariant
                walk.wf(),
                walk.tree() == tree,
                !walk.stop ==> rank(tree, walk.position()) == first + branches@.len(),
                !walk.stop ==> first + branches@.len() < size(tree),
                walk.stop && !self.exhausted() ==> first + branches@.len() == size(tree),
                self.exhausted() ==> walk.stop,
                walk.stop && self.exhausted() ==> branches@.len() == 0,
                forall|k: int|
                    0 <= k < branches@.len() ==> is_branch_of_rank(
                        tree,
                        first + k,
                        (#[trigger] branches@[k])@,
                    ),
            decreases size(tree) - first - branches@.len(),
        {
            let ghost here = walk.position();
            let ghost count = branches@.len();
            proof {
                lemma_successor_rank(tree, here);
                match successor(tree, here) {
                    Some(next) => {
                        lemma_successor_rank(tree, next);
                    },
                    None => {},
                }
            }
            match walk.next() {
                Some(branch) => {
                    branches.push(branch);
                },
                None => {},
            }
            proof {
                assert(valid_path(tree, here));
                assert(is_branch_of_rank(tree, (first + count) as int, branches@[count as int]@));
            }
        }
        branches
    }
}

/// Every prefix of a valid path is valid.
pub proof fn lemma_prefixes_valid(root: MonsterNode, path: Seq<int>)
    requires
        valid_path(root, path),
    ensures
        forall|k: int| 0 <= k <= path.len() ==> valid_path(root, #[trigger] path.take(k)),
    decreases path.len(),
{
    assert(path.take(path.len() as int) =~= path);
    if path.len() > 0 {
        lemma_prefixes_valid(root, path.drop_last());
        assert forall|k: int| 0 <= k <= path.len() implies valid_path(
            root,
            #[trigger] path.take(k),
        ) by {
            if k < path.len() {
                assert(path.take(k) =~= path.drop_last().take(k));
            }
        }
    }
}

/// The number of nodes of the tree under a node, the node included.
pub open spec fn size(node: MonsterNode) -> nat
    decreases node, node.children@.len() + 1,
{
    1 + size_among(node, node.children@.len())
}

/// The number of nodes of the trees under the first `k` children of a node.
pub open spec fn size_among(node: MonsterNode, k: nat) -> nat
    decreases node, k,
{
    if k == 0 || k > node.children@.len() {
        0
    } else {
        size_among(node, (k - 1) as nat) + size(node.children[k - 1])
    }
}

/// The place of a node in the walk, counted from 0: the number of nodes that
/// come before it when each node comes before its children and the children
/// come from left to right. These are the nodes up to its parent, and the
/// trees under the siblings to its left.
pub open spec fn rank(root: MonsterNode, path: Seq<int>) -> nat
    decreases path.len(),
{
    if path.len() == 0 {
        0
    } else {
        rank(root, path.drop_last()) + 1 + size_among(
            node_at(root, path.drop_last()),
            path.last() as nat,
        )
    }
}

/// The order of the walk on paths: a path comes before those that go on from
/// it, and before those that turn to a later child where the two part.
pub open spec fn path_before(a: Seq<int>, b: Seq<int>) -> bool {
    exists|k: int|
        0 <= k <= a.len() && k <= b.len() && (#[trigger] a.take(k)) == b.take(k) && ((k == a.len()
            && k < b.len()) || (k < a.len() && k < b.len() && a[k] < b[k]))
}

/// The branch is that of the node of this rank in the tree.
pub open spec fn is_branch_of_rank(root: MonsterNode, at: int, branch: Seq<MonsterInfo>) -> bool {
    exists|path: Seq<int>|
        #![trigger valid_path(root, path)]
        valid_path(root, path) && rank(root, path) == at && branch == branch_of(root, path)
}

/// More children hold no fewer nodes.
proof fn lemma_size_among_grows(node: MonsterNode, k: nat, n: nat)
    requires
        k <= n <= node.children@.len(),
    ensures
        size_among(node, k) <= size_among(node, n),
    decreases n - k,
{
    if k < n {
        lemma_size_among_grows(node, k, (n - 1) as nat);
    }
}

/// The tree under a node of a path ends in the walk no later than the tree
/// under any node above it on the path, and begins no earlier.
proof fn lemma_rank_within_prefix(root: MonsterNode, path: Seq<int>, k: int)
    requires
        valid_path(root, path),
        0 <= k <= path.len(),
    ensures
        rank(root, path.take(k)) <= rank(root, path),
        k < path.len() ==> rank(root, path.take(k)) < rank(root, path),
        rank(root, path) + size(node_at(root, path)) <= rank(root, path.take(k)) + size(
            node_at(root, path.take(k)),
        ),
    decreases path.len(),
{
    if k == path.len() {
        assert(path.take(k) =~= path);
    } else {
        let front = path.drop_last();
        let parent = node_at(root, front);
        assert(valid_path(root, front));
        lemma_rank_within_prefix(root, front, k);
        assert(front.take(k) =~= path.take(k));
        lemma_size_among_grows(parent, (path.last() + 1) as nat, parent.children@.len());
    }
}

/// Where a path has a next sibling, that is the first node after the tree
/// under the path; where it has none, the tree under the path ends the walk.
proof fn lemma_next_sibling_rank(root: MonsterNode, path: Seq<int>)
    requires
        valid_path(root, path),
    ensures
        match next_sibling(root, path) {
            Some(next) => valid_path(root, next) && rank(root, next) == rank(root, path) + size(
                node_at(root, path),
            ),
            None => rank(root, path) + size(node_at(root, path)) == size(root),
        },
    decreases path.len(),
{
    if path.len() > 0 {
        let front = path.drop_last();
        let parent = node_at(root, front);
        assert(valid_path(root, front));
        if path.last() + 1 < parent.children@.len() {
            let next = front.push(path.last() + 1);
            assert(next.drop_last() =~= front);
        } else {
            lemma_next_sibling_rank(root, front);
        }
    }
}

/// Each step of the walk goes on to the node of the next rank, and the walk
/// ends at the node of the last rank.
pub proof fn lemma_successor_rank(root: MonsterNode, path: Seq<int>)
    requires
        valid_path(root, path),
    ensures
        rank(root, path) < size(root),
        match successor(root, path) {
            Some(next) => valid_path(root, next) && rank(root, next) == rank(root, path) + 1,
            None => rank(root, path) + 1 == size(root),
        },
{
    lemma_rank_within_prefix(root, path, 0);
    assert(path.take(0) =~= Seq::<int>::empty());
    if node_at(root, path).children@.len() > 0 {
        assert(path.push(0).drop_last() =~= path);
    } else {
        lemma_next_sibling_rank(root, path);
    }
}

/// The ranks follow the order of the walk on paths.
pub proof fn lemma_rank_monotone(root: MonsterNode, a: Seq<int>, b: Seq<int>)
    requires
        valid_path(root, a),
        valid_path(root, b),
        path_before(a, b),
    ensures
        rank(root, a) < rank(root, b),
{
    let k = choose|k: int|
        0 <= k <= a.len() && k <= b.len() && (#[trigger] a.take(k)) == b.take(k) && ((k == a.len()
            && k < b.len()) || (k < a.len() && k < b.len() && a[k] < b[k]));
    if k == a.len() {
        assert(a.take(k) =~= a);
        lemma_rank_within_prefix(root, b, k);
    } else {
        let common = a.take(k);
        let parent = node_at(root, common);
        lemma_prefixes_valid(root, a);
        lemma_prefixes_valid(root, b);
        lemma_rank_within_prefix(root, a, k + 1);
        lemma_rank_within_prefix(root, b, k + 1);
        assert(a.take(k + 1).drop_last() =~= common);
        assert(b.take(k + 1).drop_last() =~= common);
        assert(a.take(k + 1).last() == a[k]);
        assert(b.take(k + 1).last() == b[k]);
        assert(valid_path(root, a.take(k + 1)));
        assert(valid_path(root, b.take(k + 1)));
        lemma_size_among_grows(parent, (a[k] + 1) as nat, b[k] as nat);
    }
}

/// Of two different paths one comes before the other.
pub proof fn lemma_path_order_total(a: Seq<int>, b: Seq<int>)
    requires
        a != b,
    ensures
        path_before(a, b) || path_before(b, a),
{
    assert(a.take(0) =~= b.take(0));
    lemma_path_order_total_from(a, b, 0);
}

/// The same of two paths that agree on their first `k` indices.
proof fn lemma_path_order_total_from(a: Seq<int>, b: Seq<int>, k: int)
    requires
        a != b,
        0 <= k <= a.len(),
        k <= b.len(),
        a.take(k) == b.take(k),
    ensures
        path_before(a, b) || path_before(b, a),
    decreases a.len() - k,
{
    if k == a.len() {
        if k == b.len() {
            assert(a.take(k) =~= a);
            assert(b.take(k) =~= b);
        }
    } else if k == b.len() {
        assert(b.take(k) == a.take(k));
    } else if a[k] == b[k] {
        assert(a.take(k + 1) =~= a.take(k).push(a[k]));
        assert(b.take(k + 1) =~= b.take(k).push(b[k]));
        lemma_path_order_total_from(a, b, k + 1);
    } else if a[k] < b[k] {
    } else {
        assert(b.take(k) == a.take(k));
    }
}

/// The walk is depth first, each node before its children and the children
/// from left to right: the path that follows a path is the least path of the
/// tree that comes after it, and no path of the tree comes after the last.
pub proof fn lemma_successor_is_least_after(root: MonsterNode, path: Seq<int>, other: Seq<int>)
    requires
        valid_path(root, path),
        valid_path(root, other),
        path_before(path, other),
    ensures
        successor(root, path).is_some(),
        path_before(path, successor(root, path).unwrap()),
        other == successor(root, path).unwrap() || path_before(
            successor(root, path).unwrap(),
            other,
        ),
{
    lemma_successor_rank(root, path);
    lemma_successor_rank(root, other);
    lemma_rank_monotone(root, path, other);
    let next = successor(root, path).unwrap();
    if next != other {
        lemma_path_order_total(next, other);
        if path_before(other, next) {
            lemma_rank_monotone(root, other, next);
        }
    }
    if next != path {
        lemma_path_order_total(path, next);
        if path_before(next, path) {
            lemma_rank_monotone(root, next, path);
        }
    }
}

} // verus!
