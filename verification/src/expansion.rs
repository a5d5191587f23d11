//! The rules of the expansion: the leaf test on a branch, the children that
//! a finished tree holds below a branch, what it is for a tree to be fully
//! expanded, and the fault that stops the expansion.

use crate::branch::{branch_of, lemma_path_from_child, node_at, valid_path};
use crate::data::Monster;
use crate::policy::{
    chosen_parents, lemma_selected_index, parents_info, selected_index, slots_well_formed,
};
use crate::recipe::{MonsterInfo, MonsterNode, node_infos, RecipeError};
use vstd::prelude::*;

verus! {

/// The data of the root of the tree of a monster.
pub open spec fn root_info(monster_id: usize) -> MonsterInfo {
    MonsterInfo { spec: None, monster_id: Some(monster_id) }
}

/// A concrete monster with this id stands somewhere on the branch.
pub open spec fn on_branch(branch: Seq<MonsterInfo>, id: usize) -> bool {
    exists|i: int| 0 <= i < branch.len() && (#[trigger] branch[i]).monster_id == Some(id)
}

/// One of the recipes of the monster, picked or not, has a concrete slot
/// whose monster already stands on the branch: to expand the monster would
/// bring that one back.
pub open spec fn closes_cycle(m: Monster, branch: Seq<MonsterInfo>) -> bool {
    exists|a: int, s: int|
        0 <= a < m.parents@.len() && 0 <= s < m.parents@[a]@.len() && (
        #[trigger] m.parents@[a]@[s]).monster.is_some() && on_branch(
            branch,
            m.parents@[a]@[s].monster.unwrap(),
        )
}

/// The leaf test on the last node of a branch. An abstract node is a leaf;
/// so is a monster without recipes, and one that closes a cycle. A concrete
/// node that the catalogue lacks is a fault.
pub open spec fn leaf_test(catalog: Map<usize, Monster>, branch: Seq<MonsterInfo>) -> Result<
    bool,
    RecipeError,
> {
    match branch.last().monster_id {
        None => Ok(true),
        Some(id) => if !catalog.contains_key(id) {
            Err(RecipeError::UnknownMonster(id))
        } else {
            Ok(catalog[id].parents@.len() == 0 || closes_cycle(catalog[id], branch))
        },
    }
}

/// What a finished tree holds below the last node of a branch: nothing below
/// a leaf, else the slots of the recipe that the policy picks. It is a fault
/// where the leaf test is one, and where a monster to expand has a malformed slot.
pub open spec fn expansion_of(
    catalog: Map<usize, Monster>,
    prefer_standard: bool,
    branch: Seq<MonsterInfo>,
) -> Result<Seq<MonsterInfo>, RecipeError> {
    match leaf_test(catalog, branch) {
        Err(e) => Err(e),
        Ok(true) => Ok(Seq::empty()),
        Ok(false) => {
            let id = branch.last().monster_id.unwrap();
            if slots_well_formed(catalog[id]) {
                Ok(chosen_parents(catalog[id], prefer_standard))
            } else {
                Err(RecipeError::MalformedParent(id))
            }
        },
    }
}

/// The tree under `node`, which hangs below the nodes of `above`, is fully
/// expanded: the children of each of its nodes are those that the rules give
/// to the branch of that node, and on no branch is there a fault.
pub open spec fn complete_below(
    catalog: Map<usize, Monster>,
    prefer_standard: bool,
    node: MonsterNode,
    above: Seq<MonsterInfo>,
) -> bool {
    forall|path: Seq<int>|
        #![trigger valid_path(node, path)]
        valid_path(node, path) ==> expansion_of(
            catalog,
            prefer_standard,
            above + branch_of(node, path),
        ) == Ok::<_, RecipeError>(node_infos(node_at(node, path).children@))
}

/// The first fault that the expansion meets at the end of a branch or below
/// it, each node looked at before those below it and the children of a node
/// from left to right; `depth` says how many levels are looked at.
pub open spec fn fault_below(
    catalog: Map<usize, Monster>,
    prefer_standard: bool,
    branch: Seq<MonsterInfo>,
    depth: nat,
) -> Option<RecipeError>
    decreases depth, 0nat,
{
    if depth == 0 {
        None
    } else {
        match expansion_of(catalog, prefer_standard, branch) {
            Err(e) => Some(e),
            Ok(children) => fault_among(
                catalog,
                prefer_standard,
                branch,
                children,
                children.len(),
                (depth - 1) as nat,
            ),
        }
    }
}

/// The first fault that the expansion meets below the first `k` of the
/// children that stand below a branch.
pub open spec fn fault_among(
    catalog: Map<usize, Monster>,
    prefer_standard: bool,
    branch: Seq<MonsterInfo>,
    children: Seq<MonsterInfo>,
    k: nat,
    depth: nat,
) -> Option<RecipeError>
    decreases depth, k + 1,
{
    if k == 0 || k > children.len() {
        None
    } else {
        match fault_among(catalog, prefer_standard, branch, children, (k - 1) as nat, depth) {
            Some(e) => Some(e),
            None => fault_below(catalog, prefer_standard, branch.push(children[k - 1]), depth),
        }
    }
}

/// The fault that stops the building of the tree of a monster, if there is
/// one. No branch of a tree is longer than the catalogue and one node more,
/// so the expansion is looked at that far.
pub open spec fn build_fault(
    catalog: Map<usize, Monster>,
    prefer_standard: bool,
    monster_id: usize,
) -> Option<RecipeError> {
    fault_below(
        catalog,
        prefer_standard,
        seq![root_info(monster_id)],
        catalog.dom().len() + 1,
    )
}

/// How many levels the expansion is looked at below a branch of this length.
pub open spec fn depth_left(catalog: Map<usize, Monster>, length: nat) -> nat {
    (catalog.dom().len() + 2 - length) as nat
}

/// No concrete monster stands twice on the branch.
pub open spec fn acyclic(branch: Seq<MonsterInfo>) -> bool {
    forall|i: int, j: int|
        #![trigger branch[i], branch[j]]
        0 <= i < j < branch.len() && branch[i].monster_id.is_some() ==> branch[i].monster_id
            != branch[j].monster_id
}

/// The first `n` nodes of the branch are concrete monsters of the catalogue.
pub open spec fn known_prefix(
    catalog: Map<usize, Monster>,
    branch: Seq<MonsterInfo>,
    n: int,
) -> bool {
    forall|i: int|
        0 <= i < n ==> (#[trigger] branch[i]).monster_id.is_some() && catalog.contains_key(
            branch[i].monster_id.unwrap(),
        )
}

/// No branch of a fully expanded tree holds a concrete monster twice.
pub proof fn lemma_branches_acyclic(
    catalog: Map<usize, Monster>,
    prefer_standard: bool,
    root: MonsterNode,
    path: Seq<int>,
)
    requires
        complete_below(catalog, prefer_standard, root, Seq::empty()),
        valid_path(root, path),
    ensures
        acyclic(branch_of(root, path)),
    decreases path.len(),
{
    if path.len() > 0 {
        let front = path.drop_last();
        assert(valid_path(root, front));
        lemma_branches_acyclic(catalog, prefer_standard, root, front);
        let above = branch_of(root, front);
        let child = node_at(root, path).data;
        assert(Seq::<MonsterInfo>::empty() + above =~= above);
        let below = node_infos(node_at(root, front).children@);
        assert(expansion_of(catalog, prefer_standard, above) == Ok::<_, RecipeError>(below));
        assert(below[path.last()] == child);
        assert(below.len() > 0);
        assert(above.len() > 0);
        lemma_child_is_new(catalog, prefer_standard, above, path.last());
        assert forall|i: int, j: int|
            #![trigger above.push(child)[i], above.push(child)[j]]
            0 <= i < j < above.push(child).len() && above.push(
                child,
            )[i].monster_id.is_some() implies above.push(child)[i].monster_id != above.push(
            child,
        )[j].monster_id by {
            if j < above.len() {
                assert(above[i].monster_id != above[j].monster_id);
            } else {
                assert(above[i].monster_id.is_some());
            }
        }
    }
}

/// Every node of a fully expanded tree but the root stands for exactly one
/// thing, a concrete monster or a family with a rank, and a node that is no
/// concrete monster has no children.
pub proof fn lemma_tree_nodes_well_formed(
    catalog: Map<usize, Monster>,
    prefer_standard: bool,
    root: MonsterNode,
    path: Seq<int>,
)
    requires
        complete_below(catalog, prefer_standard, root, Seq::empty()),
        valid_path(root, path),
    ensures
        path.len() > 0 ==> node_at(root, path).data.spec.is_some() != node_at(
            root,
            path,
        ).data.monster_id.is_some(),
        node_at(root, path).data.monster_id.is_none() ==> node_at(root, path).children@.len() == 0,
{
    let branch = branch_of(root, path);
    assert(Seq::<MonsterInfo>::empty() + branch =~= branch);
    assert(branch.last() == node_at(root, path).data);
    assert(node_infos(node_at(root, path).children@).len() == node_at(root, path).children@.len());
    if path.len() > 0 {
        let front = path.drop_last();
        let above = branch_of(root, front);
        assert(valid_path(root, front));
        assert(Seq::<MonsterInfo>::empty() + above =~= above);
        let below = node_infos(node_at(root, front).children@);
        assert(expansion_of(catalog, prefer_standard, above) == Ok::<_, RecipeError>(below));
        assert(below[path.last()] == node_at(root, path).data);
        let m = catalog[above.last().monster_id.unwrap()];
        let alts = parents_info(m);
        lemma_selected_index(alts, prefer_standard);
        let a = selected_index(alts, prefer_standard);
        assert(m.parents@[a]@[path.last()].well_formed());
    }
}

/// Two fully expanded trees with the same root are the same tree: a path of
/// one is a path of the other, with the same nodes along it and the same
/// children below it. So the contract of `build` leaves one tree only.
pub proof fn lemma_complete_tree_unique(
    catalog: Map<usize, Monster>,
    prefer_standard: bool,
    a: MonsterNode,
    b: MonsterNode,
    path: Seq<int>,
)
    requires
        a.data == b.data,
        complete_below(catalog, prefer_standard, a, Seq::empty()),
        complete_below(catalog, prefer_standard, b, Seq::empty()),
        valid_path(a, path),
    ensures
        valid_path(b, path),
        branch_of(a, path) == branch_of(b, path),
        node_infos(node_at(a, path).children@) == node_infos(node_at(b, path).children@),
    decreases path.len(),
{
    if path.len() > 0 {
        let front = path.drop_last();
        assert(valid_path(a, front));
        lemma_complete_tree_unique(catalog, prefer_standard, a, b, front);
        let below_a = node_infos(node_at(a, front).children@);
        let below_b = node_infos(node_at(b, front).children@);
        assert(below_a.len() == node_at(a, front).children@.len());
        assert(below_b.len() == node_at(b, front).children@.len());
        assert(below_a[path.last()] == node_at(a, path).data);
        assert(below_b[path.last()] == node_at(b, path).data);
    }
    assert(valid_path(b, path));
    assert(Seq::<MonsterInfo>::empty() + branch_of(a, path) =~= branch_of(a, path));
    assert(Seq::<MonsterInfo>::empty() + branch_of(b, path) =~= branch_of(b, path));
    assert(expansion_of(catalog, prefer_standard, branch_of(a, path)) == Ok::<_, RecipeError>(
        node_infos(node_at(a, path).children@),
    ));
    assert(expansion_of(catalog, prefer_standard, branch_of(b, path)) == Ok::<_, RecipeError>(
        node_infos(node_at(b, path).children@),
    ));
}

/// A slot that the rules put below a branch is no monster of that branch.
pub(crate) proof fn lemma_child_is_new(
    catalog: Map<usize, Monster>,
    prefer_standard: bool,
    branch: Seq<MonsterInfo>,
    i: int,
)
    requires
        branch.len() > 0,
        leaf_test(catalog, branch) == Ok::<bool, RecipeError>(false),
        0 <= i < chosen_parents(
            catalog[branch.last().monster_id.unwrap()],
            prefer_standard,
        ).len(),
    ensures
        ({
            let child = chosen_parents(
                catalog[branch.last().monster_id.unwrap()],
                prefer_standard,
            )[i];
            child.monster_id.is_some() ==> !on_branch(branch, child.monster_id.unwrap())
        }),
{
    let m = catalog[branch.last().monster_id.unwrap()];
    let alts = parents_info(m);
    lemma_selected_index(alts, prefer_standard);
    let a = selected_index(alts, prefer_standard);
    let child = alts[a][i];
    if child.monster_id.is_some() {
        assert(m.parents@[a]@[i].monster.is_some());
        if on_branch(branch, child.monster_id.unwrap()) {
            assert(closes_cycle(m, branch));
        }
    }
}

/// A branch that goes on by a slot that the rules put below it stays a
/// branch of distinct monsters, all of the catalogue but perhaps the new one.
pub(crate) proof fn lemma_step_keeps_chain(
    catalog: Map<usize, Monster>,
    prefer_standard: bool,
    branch: Seq<MonsterInfo>,
    i: int,
)
    requires
        branch.len() > 0,
        acyclic(branch),
        known_prefix(catalog, branch, branch.len() - 1),
        leaf_test(catalog, branch) == Ok::<bool, RecipeError>(false),
        0 <= i < chosen_parents(
            catalog[branch.last().monster_id.unwrap()],
            prefer_standard,
        ).len(),
    ensures
        known_prefix(catalog, branch, branch.len() as int),
        ({
            let child = chosen_parents(
                catalog[branch.last().monster_id.unwrap()],
                prefer_standard,
            )[i];
            acyclic(branch.push(child)) && known_prefix(
                catalog,
                branch.push(child),
                branch.len() as int,
            )
        }),
{
    let child = chosen_parents(catalog[branch.last().monster_id.unwrap()], prefer_standard)[i];
    let longer = branch.push(child);
    lemma_child_is_new(catalog, prefer_standard, branch, i);
    assert forall|x: int, y: int|
        #![trigger longer[x], longer[y]]
        0 <= x < y < longer.len() && longer[x].monster_id.is_some() implies longer[x].monster_id
        != longer[y].monster_id by {
        if y < branch.len() {
            assert(branch[x].monster_id != branch[y].monster_id);
        } else {
            assert(branch[x].monster_id.is_some());
        }
    }
    assert forall|x: int| 0 <= x < branch.len() implies (#[trigger] longer[x]).monster_id.is_some()
        && catalog.contains_key(longer[x].monster_id.unwrap()) by {
        assert(branch[x].monster_id.is_some());
    }
    assert forall|x: int| 0 <= x < branch.len() implies (#[trigger] branch[x]).monster_id.is_some()
        && catalog.contains_key(branch[x].monster_id.unwrap()) by {
        assert(longer[x] == branch[x]);
    }
}

/// To look further than the longest branch can reach finds no other fault:
/// below a branch of distinct monsters of the catalogue, any two depths that
/// reach as far as the catalogue allows give the same first fault.
pub proof fn lemma_depth_enough(
    catalog: Map<usize, Monster>,
    prefer_standard: bool,
    branch: Seq<MonsterInfo>,
    d1: nat,
    d2: nat,
)
    requires
        catalog.dom().finite(),
        branch.len() > 0,
        acyclic(branch),
        known_prefix(catalog, branch, branch.len() - 1),
        d1 >= depth_left(catalog, branch.len()),
        d2 >= depth_left(catalog, branch.len()),
    ensures
        fault_below(catalog, prefer_standard, branch, d1) == fault_below(
            catalog,
            prefer_standard,
            branch,
            d2,
        ),
    decreases catalog.dom().len() + 2 - branch.len(), 0nat,
{
    lemma_chain_bounded(catalog, branch.drop_last());
    match expansion_of(catalog, prefer_standard, branch) {
        Err(_) => {},
        Ok(children) => {
            if children.len() > 0 {
                lemma_step_keeps_chain(catalog, prefer_standard, branch, 0);
                lemma_chain_bounded(catalog, branch);
                lemma_depth_enough_among(
                    catalog,
                    prefer_standard,
                    branch,
                    children,
                    children.len(),
                    (d1 - 1) as nat,
                    (d2 - 1) as nat,
                );
            }
        },
    }
}

/// The same of the first `k` of the children that stand below a branch.
proof fn lemma_depth_enough_among(
    catalog: Map<usize, Monster>,
    prefer_standard: bool,
    branch: Seq<MonsterInfo>,
    children: Seq<MonsterInfo>,
    k: nat,
    d1: nat,
    d2: nat,
)
    requires
        catalog.dom().finite(),
        branch.len() > 0,
        branch.len() <= catalog.dom().len(),
        acyclic(branch),
        known_prefix(catalog, branch, branch.len() - 1),
        expansion_of(catalog, prefer_standard, branch) == Ok::<_, RecipeError>(children),
        children.len() > 0,
        k <= children.len(),
        d1 >= depth_left(catalog, branch.len() + 1),
        d2 >= depth_left(catalog, branch.len() + 1),
    ensures
        fault_among(catalog, prefer_standard, branch, children, k, d1) == fault_among(
            catalog,
            prefer_standard,
            branch,
            children,
            k,
            d2,
        ),
    decreases catalog.dom().len() + 1 - branch.len(), k + 1,
{
    if k > 0 {
        lemma_depth_enough_among(
            catalog,
            prefer_standard,
            branch,
            children,
            (k - 1) as nat,
            d1,
            d2,
        );
        lemma_step_keeps_chain(catalog, prefer_standard, branch, k - 1);
        lemma_depth_enough(catalog, prefer_standard, branch.push(children[k - 1]), d1, d2);
    }
}

/// The fault that stops the building of a tree is the first fault of the
/// expansion however far it is looked at beyond the size of the catalogue.
pub proof fn lemma_build_fault_at_any_depth(
    catalog: Map<usize, Monster>,
    prefer_standard: bool,
    monster_id: usize,
    depth: nat,
)
    requires
        catalog.dom().finite(),
        depth >= catalog.dom().len() + 1,
    ensures
        fault_below(catalog, prefer_standard, seq![root_info(monster_id)], depth) == build_fault(
            catalog,
            prefer_standard,
            monster_id,
        ),
{
    lemma_depth_enough(
        catalog,
        prefer_standard,
        seq![root_info(monster_id)],
        depth,
        catalog.dom().len() + 1,
    );
}

/// A branch of distinct monsters of the catalogue is no longer than the catalogue.
pub(crate) proof fn lemma_chain_bounded(catalog: Map<usize, Monster>, branch: Seq<MonsterInfo>)
    requires
        catalog.dom().finite(),
        acyclic(branch),
        known_prefix(catalog, branch, branch.len() as int),
    ensures
        branch.len() <= catalog.dom().len(),
{
    let ids = Seq::new(branch.len(), |i: int| branch[i].monster_id.unwrap());
    assert forall|i: int, j: int| 0 <= i < ids.len() && 0 <= j < ids.len() && i != j implies ids[i]
        != ids[j] by {
        if i < j {
            assert(branch[i].monster_id != branch[j].monster_id);
        } else {
            assert(branch[j].monster_id != branch[i].monster_id);
        }
    }
    ids.unique_seq_to_set();
    assert forall|id: usize| ids.to_set().contains(id) implies catalog.dom().contains(id) by {
        let i = choose|i: int| 0 <= i < ids.len() && ids[i] == id;
        assert(branch[i].monster_id.is_some());
    }
    vstd::set_lib::lemma_len_subset(ids.to_set(), catalog.dom());
}

/// A node without children that ends a branch on which the rules put nothing
/// below it is a fully expanded tree.
pub(crate) proof fn lemma_leaf_complete(
    catalog: Map<usize, Monster>,
    prefer_standard: bool,
    node: MonsterNode,
    branch: Seq<MonsterInfo>,
)
    requires
        branch.len() > 0,
        node.data == branch.last(),
        node.children@.len() == 0,
        expansion_of(catalog, prefer_standard, branch) == Ok::<_, RecipeError>(
            Seq::<MonsterInfo>::empty(),
        ),
    ensures
        complete_below(catalog, prefer_standard, node, branch.drop_last()),
{
    assert forall|path: Seq<int>|
        #![trigger valid_path(node, path)]
        valid_path(node, path) implies expansion_of(
        catalog,
        prefer_standard,
        branch.drop_last() + branch_of(node, path),
    ) == Ok::<_, RecipeError>(node_infos(node_at(node, path).children@)) by {
        if path.len() > 0 {
            lemma_path_from_child(node, path);
        }
        assert(branch.drop_last() + branch_of(node, path) =~= branch);
        assert(node_infos(node_at(node, path).children@) =~= Seq::<MonsterInfo>::empty());
    }
}

/// A node is a fully expanded tree where its children are those that the
/// rules put below its branch and each child is a fully expanded tree below
/// that branch.
pub(crate) proof fn lemma_inner_complete(
    catalog: Map<usize, Monster>,
    prefer_standard: bool,
    node: MonsterNode,
    branch: Seq<MonsterInfo>,
)
    requires
        branch.len() > 0,
        node.data == branch.last(),
        expansion_of(catalog, prefer_standard, branch) == Ok::<_, RecipeError>(
            node_infos(node.children@),
        ),
        forall|i: int|
            0 <= i < node.children@.len() ==> complete_below(
                catalog,
                prefer_standard,
                #[trigger] node.children@[i],
                branch,
            ),
    ensures
        complete_below(catalog, prefer_standard, node, branch.drop_last()),
{
    assert forall|path: Seq<int>|
        #![trigger valid_path(node, path)]
        valid_path(node, path) implies expansion_of(
        catalog,
        prefer_standard,
        branch.drop_last() + branch_of(node, path),
    ) == Ok::<_, RecipeError>(node_infos(node_at(node, path).children@)) by {
        if path.len() > 0 {
            lemma_path_from_child(node, path);
            let child = node.children@[path[0]];
            let rest = path.drop_first();
            assert(complete_below(catalog, prefer_standard, child, branch));
            assert(valid_path(child, rest));
            assert(branch.drop_last() + branch_of(node, path) =~= branch + branch_of(child, rest));
        } else {
            assert(branch.drop_last() + branch_of(node, path) =~= branch);
        }
    }
}

/// A fault met below the first `k` children is the first fault below more of them.
pub(crate) proof fn lemma_fault_among_stays(
    catalog: Map<usize, Monster>,
    prefer_standard: bool,
    branch: Seq<MonsterInfo>,
    children: Seq<MonsterInfo>,
    k: nat,
    n: nat,
    depth: nat,
)
    requires
        k <= n <= children.len(),
        fault_among(catalog, prefer_standard, branch, children, k, depth).is_some(),
    ensures
        fault_among(catalog, prefer_standard, branch, children, n, depth) == fault_among(
            catalog,
            prefer_standard,
            branch,
            children,
            k,
            depth,
        ),
    decreases n - k,
{
    if k < n {
        lemma_fault_among_stays(
            catalog,
            prefer_standard,
            branch,
            children,
            k,
            (n - 1) as nat,
            depth,
        );
    }
}

/// Whatever meets the contract of `build` for a monster without recipes is a
/// tree of one node.
pub(crate) proof fn lemma_base_monster(
    catalog: Map<usize, Monster>,
    prefer_standard: bool,
    monster_id: usize,
    r: Result<MonsterNode, RecipeError>,
)
    requires
        catalog.contains_key(monster_id),
        catalog[monster_id].parents@.len() == 0,
        match r {
            Ok(root) => root.data == root_info(monster_id) && complete_below(
                catalog,
                prefer_standard,
                root,
                Seq::empty(),
            ),
            Err(e) => build_fault(catalog, prefer_standard, monster_id) == Some(e),
        },
    ensures
        r.is_ok(),
        r.unwrap().children@.len() == 0,
{
    let start = seq![root_info(monster_id)];
    assert(start.last() == root_info(monster_id));
    assert(expansion_of(catalog, prefer_standard, start) == Ok::<_, RecipeError>(
        Seq::<MonsterInfo>::empty(),
    ));
    match r {
        Ok(root) => {
            let path = Seq::<int>::empty();
            assert(valid_path(root, path));
            assert(Seq::<MonsterInfo>::empty() + branch_of(root, path) =~= start);
            assert(node_infos(root.children@).len() == 0);
        },
        Err(e) => {},
    }
}

} // verus!
