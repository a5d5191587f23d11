//! Recipe trees: the nodes, the builder with the extractor of parent
//! descriptions, the selection of one recipe, the leaf test and the
//! expansion, and the two filters on monsters.

use crate::branch::{branch_of, valid_path};
use crate::data::Monster;
use crate::expansion::{
    acyclic, build_fault, closes_cycle, complete_below, depth_left, expansion_of, fault_among,
    fault_below, known_prefix, leaf_test, lemma_base_monster, lemma_branches_acyclic,
    lemma_chain_bounded, lemma_fault_among_stays, lemma_inner_complete, lemma_leaf_complete,
    lemma_step_keeps_chain, on_branch, root_info,
};
use crate::policy::{
    chosen_parents, lemma_selected_index, parents_info, selected, selected_among, slot_info,
    slots_well_formed, standard_count,
};
use std::collections::HashMap;
use vstd::prelude::*;

verus! {

/// An abstract parent: any monster of a family and a rank.
#[derive(Clone, Copy, Debug, PartialEq, Eq, Structural)]
pub struct MonsterSpec {
    pub family: usize,
    pub rank: usize,
}

/// What a node of a recipe tree stands for: a concrete monster, or any
/// monster that meets a family and a rank.
#[derive(Clone, Copy, Debug, PartialEq, Eq, Structural)]
pub struct MonsterInfo {
    pub spec: Option<MonsterSpec>,
    pub monster_id: Option<usize>,
}

/// A node of a recipe tree, with its subtrees in recipe order.
#[derive(Debug, PartialEq)]
pub struct MonsterNode {
    pub data: MonsterInfo,
    pub children: Vec<MonsterNode>,
}

/// Two trees have the same shape and the same data in each node.
pub open spec fn same_tree(a: MonsterNode, b: MonsterNode) -> bool
    decreases a,
{
    &&& a.data == b.data
    &&& a.children@.len() == b.children@.len()
    &&& forall|i: int|
        0 <= i < a.children@.len() ==> same_tree(#[trigger] a.children[i], b.children[i])
}

impl Clone for MonsterNode {
    /// A copy of the tree under the node.
    fn clone(&self) -> (copy: Self)
        ensures
            same_tree(*self, copy),
        decreases self,
    {
        let mut children: Vec<MonsterNode> = Vec::new();
        let mut i: usize = 0;
        while i < self.children.len()
            invariant
                i <= self.children@.len(),
                children@.len() == i,
                forall|k: int|
                    0 <= k < i ==> same_tree(#[trigger] self.children[k], children[k]),
            decreases self.children.len() - i,
        {
            let child = self.children[i].clone();
            children.push(child);
            i = i + 1;
        }
        MonsterNode { data: self.data, children }
    }
}

/// A fault in the catalogue that stops the work on a recipe.
#[derive(Clone, Copy, Debug, PartialEq, Eq, Structural)]
pub enum RecipeError {
    /// The catalogue has no record under this id.
    UnknownMonster(usize),
    /// A recipe of the monster with this id has a slot that names both a
    /// monster and a family, or neither.
    MalformedParent(usize),
}

/// The alternatives held by a vector of vectors.
pub open spec fn alternatives_view(v: Vec<Vec<MonsterInfo>>) -> Seq<Seq<MonsterInfo>> {
    Seq::new(v@.len(), |a: int| v@[a]@)
}

/// The data of a sequence of nodes.
pub open spec fn node_infos(nodes: Seq<MonsterNode>) -> Seq<MonsterInfo> {
    Seq::new(nodes.len(), |i: int| nodes[i].data)
}

/// Counts the abstract slots of one alternative.
pub fn count_standard_parents(parents: &Vec<MonsterInfo>) -> (count: usize)
    ensures
        count == standard_count(parents@),
{
    let mut count: usize = 0;
    let mut i: usize = 0;
    proof {
        reveal(Seq::filter);
    }
    while i < parents.len()
        invariant
            i <= parents.len(),
            count <= i,
            count == standard_count(parents@.take(i as int)),
        decreases parents.len() - i,
    {
        proof {
            reveal(Seq::filter);
            assert(parents@.take(i + 1).drop_last() == parents@.take(i as int));
        }
        if parents[i].spec.is_some() {
            count = count + 1;
        }
        i = i + 1;
    }
    proof {
        assert(parents@.take(i as int) == parents@);
    }
    count
}

/// Whether a concrete monster with this id stands on the branch.
pub fn branch_contains(branch: &Vec<MonsterInfo>, id: usize) -> (found: bool)
    ensures
        found == on_branch(branch@, id),
{
    let mut i: usize = 0;
    while i < branch.len()
        invariant
            i <= branch@.len(),
            forall|k: int| 0 <= k < i ==> (#[trigger] branch@[k]).monster_id != Some(id),
        decreases branch.len() - i,
    {
        match branch[i].monster_id {
            Some(here) => {
                if here == id {
                    return true;
                }
            },
            None => {},
        }
        i = i + 1;
    }
    false
}

/// Builds recipe trees over a catalogue of monsters.
pub struct MonsterTreeBuilder {
    lut: HashMap<usize, Monster>,
    prefer_standard: bool,
}

impl MonsterTreeBuilder {
    /// The catalogue that the builder reads.
    pub closed spec fn catalog(self) -> Map<usize, Monster> {
        self.lut@
    }

    /// Whether the builder prefers recipes with many abstract slots.
    pub closed spec fn prefers_standard(self) -> bool {
        self.prefer_standard
    }

    /// A builder over `monster_lut` that prefers recipes with few abstract slots.
    pub fn new(monster_lut: HashMap<usize, Monster>) -> (builder: Self)
        ensures
            builder.catalog() == monster_lut@,
            !builder.prefers_standard(),
    {
        Self { lut: monster_lut, prefer_standard: false }
    }

    /// Sets the preference; the catalogue stays.
    pub fn prefer_standard_fusion(&mut self, prefer_standard: bool)
        ensures
            final(self).prefers_standard() == prefer_standard,
            final(self).catalog() == old(self).catalog(),
    {
        self.prefer_standard = prefer_standard;
    }

    /// The descriptions of the parents of a monster, recipe by recipe and slot
    /// by slot. Fails where the catalogue lacks the monster, and where one of
    /// its slots is malformed.
    pub fn get_parents_info(&self, monster_id: usize) -> (r: Result<
        Vec<Vec<MonsterInfo>>,
        RecipeError,
    >)
        ensures
            !self.catalog().contains_key(monster_id) ==> r == Err::<Vec<Vec<MonsterInfo>>, _>(
                RecipeError::UnknownMonster(monster_id),
            ),
            self.catalog().contains_key(monster_id) && !slots_well_formed(
                self.catalog()[monster_id],
            ) ==> r == Err::<Vec<Vec<MonsterInfo>>, _>(RecipeError::MalformedParent(monster_id)),
            self.catalog().contains_key(monster_id) && slots_well_formed(
                self.catalog()[monster_id],
            ) ==> r.is_ok() && alternatives_view(r.unwrap()) == parents_info(
                self.catalog()[monster_id],
            ),
    {
        let monster = match self.lut.get(&monster_id) {
            Some(m) => m,
            None => { return Err(RecipeError::UnknownMonster(monster_id)); },
        };
        let mut result: Vec<Vec<MonsterInfo>> = Vec::new();
        let mut a: usize = 0;
        while a < monster.parents.len()
            invariant
                self.catalog().contains_key(monster_id),
                *monster == self.catalog()[monster_id],
                a <= monster.parents@.len(),
                result@.len() == a,
                forall|x: int, s: int|
                    0 <= x < a && 0 <= s < monster.parents@[x]@.len() ==> (
                    #[trigger] monster.parents@[x]@[s]).well_formed(),
                forall|x: int|
                    0 <= x < a ==> (#[trigger] result@[x])@ == parents_info(*monster)[x],
            decreases monster.parents.len() - a,
        {
            let slots = &monster.parents[a];
            let mut infos: Vec<MonsterInfo> = Vec::new();
            let mut s: usize = 0;
            while s < slots.len()
                invariant
                    self.catalog().contains_key(monster_id),
                    *monster == self.catalog()[monster_id],
                    a < monster.parents@.len(),
                    *slots == monster.parents@[a as int],
                    s <= slots@.len(),
                    infos@.len() == s,
                    forall|y: int| 0 <= y < s ==> (#[trigger] slots@[y]).well_formed(),
                    forall|y: int|
                        0 <= y < s ==> (#[trigger] infos@[y]) == slot_info(
                            slots@[y],
                            monster.rank,
                        ),
                decreases slots.len() - s,
            {
                let slot = slots[s];
                if slot.monster.is_some() == slot.family.is_some() {
                    return Err(RecipeError::MalformedParent(monster_id));
                }
                let info = MonsterInfo {
                    spec: match slot.family {
                        Some(family) => Some(MonsterSpec { family, rank: monster.rank }),
                        None => None,
                    },
                    monster_id: slot.monster,
                };
                infos.push(info);
                s = s + 1;
            }
            proof {
                assert(infos@ =~= parents_info(*monster)[a as int]);
            }
            result.push(infos);
            a = a + 1;
        }
        proof {
            assert(alternatives_view(result) =~= parents_info(*monster));
        }
        Ok(result)
    }

    /// Picks one alternative: with the preference set, the one with the most
    /// abstract slots, else the one with the fewest; among equals, the first.
    pub fn select_parents(&self, parents_list: Vec<Vec<MonsterInfo>>) -> (r: Option<
        Vec<MonsterInfo>,
    >)
        ensures
            r.is_none() <==> parents_list@.len() == 0,
            r.is_some() ==> selected(alternatives_view(parents_list), self.prefers_standard())
                == Some(r.unwrap()@),
            r.is_some() ==> alternatives_view(parents_list).contains(r.unwrap()@),
    {
        if parents_list.len() == 0 {
            return None;
        }
        let ghost alts = alternatives_view(parents_list);
        proof {
            lemma_selected_index(alts, self.prefers_standard());
        }
        let mut list = parents_list;
        let mut best: usize = 0;
        let mut best_count: usize = count_standard_parents(&list[0]);
        let mut i: usize = 1;
        while i < list.len()
            invariant
                1 <= i <= list@.len(),
                alternatives_view(list) == alts,
                best < i,
                best == selected_among(alts, self.prefers_standard(), i as int),
                best_count == standard_count(alts[best as int]),
            decreases list.len() - i,
        {
            let count = count_standard_parents(&list[i]);
            let better = if self.prefer_standard {
                count > best_count
            } else {
                count < best_count
            };
            if better {
                best = i;
                best_count = count;
            }
            i = i + 1;
        }
        let chosen = list.remove(best);
        Some(chosen)
    }

    /// The fresh nodes for the parents of a monster: one node without children
    /// for each slot of the recipe that the policy picks, none where the
    /// monster has no recipe. Fails as `get_parents_info` does.
    pub fn get_child_nodes(&self, monster_id: usize) -> (r: Result<Vec<MonsterNode>, RecipeError>)
        ensures
            !self.catalog().contains_key(monster_id) ==> r == Err::<Vec<MonsterNode>, _>(
                RecipeError::UnknownMonster(monster_id),
            ),
            self.catalog().contains_key(monster_id) && !slots_well_formed(
                self.catalog()[monster_id],
            ) ==> r == Err::<Vec<MonsterNode>, _>(RecipeError::MalformedParent(monster_id)),
            self.catalog().contains_key(monster_id) && slots_well_formed(
                self.catalog()[monster_id],
            ) ==> r.is_ok() && node_infos(r.unwrap()@) == chosen_parents(
                self.catalog()[monster_id],
                self.prefers_standard(),
            ) && forall|i: int|
                0 <= i < r.unwrap()@.len() ==> (#[trigger] r.unwrap()@[i]).children@.len() == 0,
    {
        let parents_list = match self.get_parents_info(monster_id) {
            Ok(list) => list,
            Err(e) => { return Err(e); },
        };
        let mut nodes: Vec<MonsterNode> = Vec::new();
        match self.select_parents(parents_list) {
            Some(ps) => {
                let mut i: usize = 0;
                while i < ps.len()
                    invariant
                        i <= ps@.len(),
                        nodes@.len() == i,
                        forall|k: int| 0 <= k < i ==> (#[trigger] nodes@[k]).data == ps@[k],
                        forall|k: int| 0 <= k < i ==> (#[trigger] nodes@[k]).children@.len() == 0,
                    decreases ps.len() - i,
                {
                    nodes.push(MonsterNode { data: ps[i], children: Vec::new() });
                    i = i + 1;
                }
                proof {
                    assert(node_infos(nodes@) =~= ps@);
                }
            },
            None => {
                proof {
                    assert(node_infos(nodes@) =~= Seq::<MonsterInfo>::empty());
                }
            },
        }
        Ok(nodes)
    }

    /// The leaf test on the last node of `branch`, the path from the root of a
    /// tree to that node. A leaf is never expanded.
    pub fn is_leaf_node(&self, branch: &Vec<MonsterInfo>) -> (r: Result<bool, RecipeError>)
        requires
            branch@.len() > 0,
        ensures
            r == leaf_test(self.catalog(), branch@),
    {
        let target = branch[branch.len() - 1];
        let monster_id = match target.monster_id {
            Some(id) => id,
            None => { return Ok(true); },
        };
        let monster = match self.lut.get(&monster_id) {
            Some(m) => m,
            None => { return Err(RecipeError::UnknownMonster(monster_id)); },
        };
        if monster.parents.len() == 0 {
            return Ok(true);
        }
        let mut a: usize = 0;
        while a < monster.parents.len()
            invariant
                branch@.len() > 0,
                branch@.last().monster_id == Some(monster_id),
                self.catalog().contains_key(monster_id),
                *monster == self.catalog()[monster_id],
                a <= monster.parents@.len(),
                forall|x: int, s: int|
                    0 <= x < a && 0 <= s < monster.parents@[x]@.len() && (
                    #[trigger] monster.parents@[x]@[s]).monster.is_some() ==> !on_branch(
                        branch@,
                        monster.parents@[x]@[s].monster.unwrap(),
                    ),
            decreases monster.parents.len() - a,
        {
            let slots = &monster.parents[a];
            let mut s: usize = 0;
            while s < slots.len()
                invariant
                    branch@.len() > 0,
                    branch@.last().monster_id == Some(monster_id),
                    self.catalog().contains_key(monster_id),
                    *monster == self.catalog()[monster_id],
                    a < monster.parents@.len(),
                    *slots == monster.parents@[a as int],
                    s <= slots@.len(),
                    forall|y: int|
                        0 <= y < s && (#[trigger] slots@[y]).monster.is_some() ==> !on_branch(
                            branch@,
                            slots@[y].monster.unwrap(),
                        ),
                decreases slots.len() - s,
            {
                match slots[s].monster {
                    Some(parent_id) => {
                        if branch_contains(branch, parent_id) {
                            proof {
                                assert(monster.parents@[a as int]@[s as int].monster.is_some());
                                assert(closes_cycle(*monster, branch@));
                            }
                            return Ok(true);
                        }
                    },
                    None => {},
                }
                s = s + 1;
            }
            a = a + 1;
        }
        Ok(false)
    }

    /// The fully expanded tree below the last node of `branch`, or the first
    /// fault that the expansion meets there.
    fn expand(&self, branch: &mut Vec<MonsterInfo>) -> (r: Result<MonsterNode, RecipeError>)
        requires
            old(branch)@.len() > 0,
            acyclic(old(branch)@),
            known_prefix(self.catalog(), old(branch)@, old(branch)@.len() - 1),
        ensures
            final(branch)@ == old(branch)@,
            match r {
                Ok(node) => node.data == old(branch)@.last() && complete_below(
                    self.catalog(),
                    self.prefers_standard(),
                    node,
                    old(branch)@.drop_last(),
                ) && fault_below(
                    self.catalog(),
                    self.prefers_standard(),
                    old(branch)@,
                    depth_left(self.catalog(), old(branch)@.len()),
                ).is_none(),
                Err(e) => fault_below(
                    self.catalog(),
                    self.prefers_standard(),
                    old(branch)@,
                    depth_left(self.catalog(), old(branch)@.len()),
                ) == Some(e),
            },
        decreases self.catalog().dom().len() + 1 - old(branch)@.len(),
    {
        let ghost start = branch@;
        let ghost catalog = self.catalog();
        let ghost prefer = self.prefers_standard();
        let ghost depth = depth_left(catalog, start.len());
        proof {
            assert(self.lut@.dom().finite());
            lemma_chain_bounded(catalog, start.drop_last());
            assert(depth >= 1);
        }
        let info = branch[branch.len() - 1];
        let leaf = match self.is_leaf_node(branch) {
            Ok(leaf) => leaf,
            Err(e) => { return Err(e); },
        };
        if leaf {
            let node = MonsterNode { data: info, children: Vec::new() };
            proof {
                lemma_leaf_complete(catalog, prefer, node, start);
            }
            return Ok(node);
        }
        let monster_id = info.monster_id.unwrap();
        let fresh = match self.get_child_nodes(monster_id) {
            Ok(fresh) => fresh,
            Err(e) => { return Err(e); },
        };
        let ghost chosen = chosen_parents(catalog[monster_id], prefer);
        proof {
            lemma_chain_bounded(catalog, start);
        }
        let mut children: Vec<MonsterNode> = Vec::new();
        let mut i: usize = 0;
        while i < fresh.len()
            invariant
                catalog == self.catalog(),
                prefer == self.prefers_standard(),
                branch@ == start,
                old(branch)@ == start,
                start.len() > 0,
                start.len() <= catalog.dom().len(),
                depth == depth_left(catalog, start.len()),
                acyclic(start),
                known_prefix(catalog, start, start.len() as int),
                start.last().monster_id == Some(monster_id),
                leaf_test(catalog, start) == Ok::<bool, RecipeError>(false),
                expansion_of(catalog, prefer, start) == Ok::<_, RecipeError>(chosen),
                chosen == chosen_parents(catalog[monster_id], prefer),
                node_infos(fresh@) == chosen,
                i <= fresh@.len(),
                children@.len() == i,
                forall|k: int| 0 <= k < i ==> (#[trigger] children@[k]).data == chosen[k],
                forall|k: int|
                    0 <= k < i ==> complete_below(catalog, prefer, #[trigger] children@[k], start),
                fault_among(catalog, prefer, start, chosen, i as nat, (depth - 1) as nat).is_none(),
            decreases fresh.len() - i,
        {
            let child = fresh[i].data;
            proof {
                assert(child == node_infos(fresh@)[i as int]);
                lemma_step_keeps_chain(catalog, prefer, start, i as int);
                assert(depth_left(catalog, start.push(child).len()) == depth - 1);
            }
            branch.push(child);
            let sub = self.expand(branch);
            branch.pop();
            proof {
                assert(branch@ =~= start);
                assert(start.push(child).drop_last() =~= start);
            }
            match sub {
                Ok(node) => {
                    children.push(node);
                },
                Err(e) => {
                    proof {
                        lemma_fault_among_stays(
                            catalog,
                            prefer,
                            start,
                            chosen,
                            (i + 1) as nat,
                            chosen.len(),
                            (depth - 1) as nat,
                        );
                    }
                    return Err(e);
                },
            }
            i = i + 1;
        }
        let node = MonsterNode { data: info, children };
        proof {
            assert(node_infos(node.children@) =~= chosen);
            lemma_inner_complete(catalog, prefer, node, start);
        }
        Ok(node)
    }

    /// The recipe tree of a monster: the tree rooted at the monster in which
    /// every node has the children that the rules give to its branch. Fails
    /// with the first fault of the catalogue that the expansion from the root
    /// runs into, and only where there is one. A monster without recipes
    /// gives a tree of one node, and no branch of a tree holds a concrete
    /// monster twice.
    pub fn build(&self, monster_id: usize) -> (r: Result<MonsterNode, RecipeError>)
        ensures
            match r {
                Ok(root) => root.data == root_info(monster_id) && complete_below(
                    self.catalog(),
                    self.prefers_standard(),
                    root,
                    Seq::empty(),
                ) && build_fault(self.catalog(), self.prefers_standard(), monster_id).is_none(),
                Err(e) => build_fault(self.catalog(), self.prefers_standard(), monster_id) == Some(
                    e,
                ),
            },
            self.catalog().contains_key(monster_id) && self.catalog()[monster_id].parents@.len()
                == 0 ==> r.is_ok() && r.unwrap().children@.len() == 0,
            r.is_ok() ==> forall|path: Seq<int>|
                #![trigger valid_path(r.unwrap(), path)]
                valid_path(r.unwrap(), path) ==> acyclic(branch_of(r.unwrap(), path)),
    {
        let mut branch: Vec<MonsterInfo> = Vec::new();
        branch.push(MonsterInfo { spec: None, monster_id: Some(monster_id) });
        proof {
            assert(branch@ =~= seq![root_info(monster_id)]);
        }
        let r = self.expand(&mut branch);
        proof {
            let start = seq![root_info(monster_id)];
            assert(start.drop_last() =~= Seq::<MonsterInfo>::empty());
            if self.catalog().contains_key(monster_id) && self.catalog()[monster_id].parents@.len()
                == 0 {
                lemma_base_monster(self.catalog(), self.prefers_standard(), monster_id, r);
            }
            if r.is_ok() {
                assert forall|path: Seq<int>|
                    #![trigger valid_path(r.unwrap(), path)]
                    valid_path(r.unwrap(), path) implies acyclic(branch_of(r.unwrap(), path)) by {
                    lemma_branches_acyclic(
                        self.catalog(),
                        self.prefers_standard(),
                        r.unwrap(),
                        path,
                    );
                }
            }
        }
        r
    }
}

/// Whether the rank of the monster lies in the range: not below a lower
/// bound that is given, nor above an upper bound that is given.
pub fn validate_monster_rank(monster: &Monster, rank_range: &[Option<usize>; 2]) -> (valid: bool)
    ensures
        valid == !((rank_range@[0].is_some() && rank_range@[0].unwrap() > monster.rank) || (
        rank_range@[1].is_some() && rank_range@[1].unwrap() < monster.rank)),
{
    match rank_range[0] {
        Some(min) => {
            if min > monster.rank {
                return false;
            }
        },
        None => {},
    }
    match rank_range[1] {
        Some(max) => {
            if max < monster.rank {
                return false;
            }
        },
        None => {},
    }
    true
}

/// Whether the monster can be met in some area.
pub fn is_scoutable(monster: &Monster) -> (scoutable: bool)
    ensures
        scoutable == (monster.habitats@.len() > 0),
        scoutable == exists|area: usize| monster.habitats@.contains_key(area),
{
    proof {
        let areas = monster.habitats@.dom();
        assert(areas.finite());
        if areas.len() > 0 {
            assert(areas.contains(areas.choose()));
        } else {
            assert forall|area: usize| !monster.habitats@.contains_key(area) by {
                if areas.contains(area) {
                    vstd::set_lib::lemma_set_empty_equivalency_len(areas);
                }
            }
        }
    }
    monster.habitats.len() > 0
}

} // verus!
