//! The list of what a recipe tree asks for: the leaves of the tree, equal
//! ones counted together.

use crate::data::Monster;
use crate::recipe::{MonsterNode, RecipeError};
use std::collections::HashMap;
use vstd::multiset::Multiset;
use vstd::prelude::*;
use vstd::relations::sorted_by;
use vstd::relations::total_ordering;

verus! {

/// One line of the list: a concrete monster, or a set of families with or
/// without a rank.
#[derive(Clone, Debug, PartialEq, Eq, Hash)]
pub struct LeafNodeData {
    pub monster_id: Option<usize>,
    pub family: Vec<usize>,
    pub rank: Option<usize>,
}

/// A line of the list, as a value.
pub struct LeafShape {
    pub monster_id: Option<usize>,
    pub family: Seq<usize>,
    pub rank: Option<usize>,
}

impl View for LeafNodeData {
    type V = LeafShape;

    open spec fn view(&self) -> LeafShape {
        LeafShape { monster_id: self.monster_id, family: self.family@, rank: self.rank }
    }
}

/// The order of family ids.
pub open spec fn leq_usize() -> spec_fn(usize, usize) -> bool {
    |a: usize, b: usize| a <= b
}

/// The families of the abstract nodes among `nodes`, in their order.
pub open spec fn standard_families(nodes: Seq<MonsterNode>) -> Seq<usize> {
    nodes.filter_map(
        |node: MonsterNode|
            match node.data.spec {
                Some(spec) => Some(spec.family),
                None => None,
            },
    )
}

/// The line that a node gives, if it gives one. An abstract node gives its
/// family. A monster without children gives itself. A monster whose children
/// are all abstract gives their families in ascending order, with its rank.
/// Any other monster gives no line of its own: its children do. A monster
/// that the catalogue lacks is a fault.
pub open spec fn leaf_data_of(catalog: Map<usize, Monster>, node: MonsterNode) -> Result<
    Option<LeafShape>,
    RecipeError,
> {
    match node.data.monster_id {
        Some(id) => if !catalog.contains_key(id) {
            Err(RecipeError::UnknownMonster(id))
        } else if node.children@.len() == 0 {
            Ok(Some(LeafShape { monster_id: Some(id), family: Seq::empty(), rank: None }))
        } else if standard_families(node.children@).len() == node.children@.len() {
            Ok(
                Some(
                    LeafShape {
                        monster_id: None,
                        family: standard_families(node.children@).sort_by(leq_usize()),
                        rank: Some(catalog[id].rank),
                    },
                ),
            )
        } else {
            Ok(None)
        },
        None => Ok(
            Some(
                LeafShape {
                    monster_id: None,
                    family: match node.data.spec {
                        Some(spec) => seq![spec.family],
                        None => Seq::empty(),
                    },
                    rank: None,
                },
            ),
        ),
    }
}

/// A line or a fault, the line as a value.
pub open spec fn leaf_result_view(r: Result<Option<LeafNodeData>, RecipeError>) -> Result<
    Option<LeafShape>,
    RecipeError,
> {
    match r {
        Ok(Some(leaf)) => Ok(Some(leaf@)),
        Ok(None) => Ok(None),
        Err(e) => Err(e),
    }
}

/// The items of a sequence ascend.
pub open spec fn ascending(items: Seq<usize>) -> bool {
    forall|i: int, j: int|
        #![trigger items[i], items[j]]
        0 <= i < j < items.len() ==> items[i] <= items[j]
}

/// Sorts family ids: afterwards the vector holds the same ids, each as often
/// as before, in ascending order.
pub fn sort_families(families: &mut Vec<usize>)
    ensures
        sorted_by(final(families)@, leq_usize()),
        final(families)@.to_multiset() == old(families)@.to_multiset(),
{
    let mut sorted: Vec<usize> = Vec::new();
    let mut i: usize = 0;
    proof {
        assert(families@.take(0) =~= Seq::<usize>::empty());
    }
    while i < families.len()
        invariant
            families@ == old(families)@,
            i <= families@.len(),
            sorted@.len() == i,
            ascending(sorted@),
            sorted@.to_multiset() == families@.take(i as int).to_multiset(),
        decreases families.len() - i,
    {
        let id = families[i];
        let mut at: usize = 0;
        while at < sorted.len() && sorted[at] <= id
            invariant
                at <= sorted@.len(),
                forall|k: int| 0 <= k < at ==> (#[trigger] sorted@[k]) <= id,
            decreases sorted.len() - at,
        {
            at = at + 1;
        }
        let ghost before = sorted@;
        sorted.insert(at, id);
        proof {
            before.insert_ensures(at as int, id);
            assert forall|x: int, y: int|
                #![trigger sorted@[x], sorted@[y]]
                0 <= x < y < sorted@.len() implies sorted@[x] <= sorted@[y] by {
                if y < at {
                    assert(before[x] <= before[y]);
                } else if y == at {
                    assert(before[x] <= id);
                } else if x < at {
                    assert(sorted@[y] == before[y - 1]);
                    assert(before[at as int] <= before[y - 1] || y - 1 == at);
                } else if x == at {
                    assert(sorted@[y] == before[y - 1]);
                    assert(before[at as int] <= before[y - 1] || y - 1 == at);
                } else {
                    assert(sorted@[x] == before[x - 1]);
                    assert(sorted@[y] == before[y - 1]);
                    assert(before[x - 1] <= before[y - 1]);
                }
            }
            assert(sorted@.remove(at as int) =~= before);
            sorted@.to_multiset_ensures();
            assert(sorted@[at as int] == id);
            assert(sorted@.to_multiset() =~= before.to_multiset().insert(id));
            families@.take(i as int).to_multiset_ensures();
            assert(families@.take(i + 1) =~= families@.take(i as int).push(id));
        }
        i = i + 1;
    }
    proof {
        assert(families@.take(i as int) =~= families@);
        assert forall|x: int, y: int| 0 <= x < y < sorted@.len() implies #[trigger] leq_usize()(
            sorted@[x],
            sorted@[y],
        ) by {
            assert(sorted@[x] <= sorted@[y]);
        }
    }
    *families = sorted;
}

/// The line that a node of a recipe tree gives, if it gives one.
pub fn try_get_leaf_node_data(monster_lut: &HashMap<usize, Monster>, node: &MonsterNode) -> (r:
    Result<Option<LeafNodeData>, RecipeError>)
    ensures
        leaf_result_view(r) == leaf_data_of(monster_lut@, *node),
{
    let id = match node.data.monster_id {
        Some(id) => id,
        None => {
            let mut family: Vec<usize> = Vec::new();
            match node.data.spec {
                Some(spec) => {
                    family.push(spec.family);
                    proof {
                        assert(family@ =~= seq![spec.family]);
                    }
                },
                None => {},
            }
            return Ok(Some(LeafNodeData { monster_id: None, family, rank: None }));
        },
    };
    let monster = match monster_lut.get(&id) {
        Some(monster) => monster,
        None => { return Err(RecipeError::UnknownMonster(id)); },
    };
    if node.children.len() == 0 {
        return Ok(Some(LeafNodeData { monster_id: Some(id), family: Vec::new(), rank: None }));
    }
    let mut standard_children: Vec<usize> = Vec::new();
    let mut i: usize = 0;
    while i < node.children.len()
        invariant
            i <= node.children@.len(),
            standard_children@ == standard_families(node.children@.take(i as int)),
            standard_children@.len() <= i,
        decreases node.children.len() - i,
    {
        let ghost before = standard_children@;
        match node.children[i].data.spec {
            Some(spec) => {
                standard_children.push(spec.family);
            },
            None => {},
        }
        proof {
            assert(node.children@.take(i + 1).drop_last() =~= node.children@.take(i as int));
            assert(node.children@.take(i + 1).last() == node.children@[i as int]);
            match node.children@[i as int].data.spec {
                Some(spec) => {
                    assert(standard_children@ =~= before + seq![spec.family]);
                },
                None => {},
            }
        }
        i = i + 1;
    }
    proof {
        assert(node.children@.take(i as int) =~= node.children@);
    }
    if standard_children.len() != node.children.len() {
        return Ok(None);
    }
    let ghost unsorted = standard_children@;
    sort_families(&mut standard_children);
    proof {
        assert(total_ordering(leq_usize()));
        unsorted.lemma_sort_by_ensures(leq_usize());
        vstd::seq_lib::lemma_sorted_unique(
            standard_children@,
            unsorted.sort_by(leq_usize()),
            leq_usize(),
        );
    }
    Ok(Some(LeafNodeData { monster_id: None, family: standard_children, rank: Some(monster.rank) }))
}

/// The lines that the tree under a node gives: the line of the node where it
/// gives one, else the lines of the trees under its children.
pub open spec fn listed(catalog: Map<usize, Monster>, node: MonsterNode) -> Multiset<LeafShape>
    decreases node, node.children@.len() + 1,
{
    match leaf_data_of(catalog, node) {
        Ok(Some(line)) => Multiset::singleton(line),
        Ok(None) => listed_among(catalog, node, node.children@.len()),
        Err(_) => Multiset::empty(),
    }
}

/// The lines that the trees under the first `k` children of a node give.
pub open spec fn listed_among(catalog: Map<usize, Monster>, node: MonsterNode, k: nat) -> Multiset<
    LeafShape,
>
    decreases node, k,
{
    if k == 0 || k > node.children@.len() {
        Multiset::empty()
    } else {
        listed_among(catalog, node, (k - 1) as nat).add(listed(catalog, node.children[k - 1]))
    }
}

/// The first fault that is met when the lines of the tree under a node are
/// gathered, the node before its children and the children from left to right.
pub open spec fn first_fault(catalog: Map<usize, Monster>, node: MonsterNode) -> Option<RecipeError>
    decreases node, node.children@.len() + 1,
{
    match leaf_data_of(catalog, node) {
        Ok(Some(_)) => None,
        Ok(None) => first_fault_among(catalog, node, node.children@.len()),
        Err(e) => Some(e),
    }
}

/// The first fault that is met under the first `k` children of a node.
pub open spec fn first_fault_among(
    catalog: Map<usize, Monster>,
    node: MonsterNode,
    k: nat,
) -> Option<RecipeError>
    decreases node, k,
{
    if k == 0 || k > node.children@.len() {
        None
    } else {
        match first_fault_among(catalog, node, (k - 1) as nat) {
            Some(e) => Some(e),
            None => first_fault(catalog, node.children[k - 1]),
        }
    }
}

/// A count that stops at the largest `usize`.
pub open spec fn saturated(n: nat) -> usize {
    if n <= usize::MAX {
        n as usize
    } else {
        usize::MAX
    }
}

/// The table counts the lines: it has one entry for each line that occurs,
/// with the number of times that it occurs.
pub open spec fn tallies(table: Seq<(LeafNodeData, usize)>, lines: Multiset<LeafShape>) -> bool {
    &&& forall|i: int, j: int|
        0 <= i < j < table.len() ==> (#[trigger] table[i]).0@ != (#[trigger] table[j]).0@
    &&& forall|i: int|
        0 <= i < table.len() ==> lines.count((#[trigger] table[i]).0@) > 0 && table[i].1
            == saturated(lines.count(table[i].0@))
    &&& forall|line: LeafShape|
        #![trigger lines.count(line)]
        lines.count(line) > 0 ==> exists|i: int|
            0 <= i < table.len() && (#[trigger] table[i]).0@ == line
}

/// Whether two lines are the same.
pub fn same_leaf(a: &LeafNodeData, b: &LeafNodeData) -> (same: bool)
    ensures
        same == (a@ == b@),
{
    if a.monster_id != b.monster_id || a.rank != b.rank || a.family.len() != b.family.len() {
        return false;
    }
    let mut i: usize = 0;
    while i < a.family.len()
        invariant
            a.family@.len() == b.family@.len(),
            i <= a.family@.len(),
            forall|k: int| 0 <= k < i ==> a.family@[k] == b.family@[k],
        decreases a.family.len() - i,
    {
        if a.family[i] != b.family[i] {
            return false;
        }
        i = i + 1;
    }
    proof {
        assert(a.family@ =~= b.family@);
    }
    true
}

/// The index of the first entry of the table for a line, if there is one.
pub fn find_leaf(leaves: &Vec<(LeafNodeData, usize)>, leaf: &LeafNodeData) -> (found: Option<usize>)
    ensures
        match found {
            Some(i) => i < leaves@.len() && leaves@[i as int].0@ == leaf@ && forall|k: int|
                0 <= k < i ==> (#[trigger] leaves@[k]).0@ != leaf@,
            None => forall|k: int| 0 <= k < leaves@.len() ==> (#[trigger] leaves@[k]).0@ != leaf@,
        },
{
    let mut i: usize = 0;
    while i < leaves.len()
        invariant
            i <= leaves@.len(),
            forall|k: int| 0 <= k < i ==> (#[trigger] leaves@[k]).0@ != leaf@,
        decreases leaves.len() - i,
    {
        if same_leaf(&leaves[i].0, leaf) {
            return Some(i);
        }
        i = i + 1;
    }
    None
}

/// Counts one more occurrence of a line: the first entry for the line gets
/// one more, up to the largest `usize`; a line without an entry gets a new
/// one at the end, with the count 1.
pub fn count_leaf(leaves: &mut Vec<(LeafNodeData, usize)>, leaf: LeafNodeData)
    ensures
        match first_entry(old(leaves)@, leaf@) {
            Some(i) => final(leaves)@.len() == old(leaves)@.len() && final(leaves)@[i].0@ == leaf@
                && final(leaves)@[i].1 == (if old(leaves)@[i].1 < usize::MAX {
                (old(leaves)@[i].1 + 1) as usize
            } else {
                usize::MAX
            }) && forall|k: int|
                0 <= k < old(leaves)@.len() && k != i ==> final(leaves)@[k] == old(leaves)@[k],
            None => final(leaves)@.len() == old(leaves)@.len() + 1 && final(leaves)@.last().0@
                == leaf@ && final(leaves)@.last().1 == 1 && forall|k: int|
                0 <= k < old(leaves)@.len() ==> final(leaves)@[k] == old(leaves)@[k],
        },
{
    let found = find_leaf(leaves, &leaf);
    proof {
        lemma_first_entry(leaves@, leaf@);
    }
    match found {
        Some(i) => {
            let (_, count) = leaves.remove(i);
            let more = if count < usize::MAX {
                count + 1
            } else {
                count
            };
            leaves.insert(i, (leaf, more));
        },
        None => {
            leaves.push((leaf, 1));
        },
    }
}

/// The index of the first entry of a table for a line, if there is one.
pub open spec fn first_entry(table: Seq<(LeafNodeData, usize)>, line: LeafShape) -> Option<int>
    decreases table.len(),
{
    if table.len() == 0 {
        None
    } else {
        match first_entry(table.drop_last(), line) {
            Some(i) => Some(i),
            None => if table.last().0@ == line {
                Some(table.len() - 1)
            } else {
                None
            },
        }
    }
}

/// What `first_entry` finds is an entry for the line with none before it;
/// it finds none only where there is none.
pub proof fn lemma_first_entry(table: Seq<(LeafNodeData, usize)>, line: LeafShape)
    ensures
        match first_entry(table, line) {
            Some(i) => 0 <= i < table.len() && table[i].0@ == line && forall|k: int|
                0 <= k < i ==> (#[trigger] table[k]).0@ != line,
            None => forall|k: int| 0 <= k < table.len() ==> (#[trigger] table[k]).0@ != line,
        },
    decreases table.len(),
{
    if table.len() > 0 {
        lemma_first_entry(table.drop_last(), line);
        match first_entry(table.drop_last(), line) {
            Some(i) => {
                assert(table.drop_last()[i] == table[i]);
                assert forall|k: int| 0 <= k < i implies (#[trigger] table[k]).0@ != line by {
                    assert(table.drop_last()[k] == table[k]);
                }
            },
            None => {
                assert forall|k: int| 0 <= k < table.len() - 1 implies (#[trigger] table[k]).0@
                    != line by {
                    assert(table.drop_last()[k] == table[k]);
                }
            },
        }
    }
}

/// A table that counts some lines counts one more after `count_leaf`.
proof fn lemma_count_leaf_tallies(
    before: Seq<(LeafNodeData, usize)>,
    after: Seq<(LeafNodeData, usize)>,
    line: LeafShape,
    lines: Multiset<LeafShape>,
)
    requires
        tallies(before, lines),
        match first_entry(before, line) {
            Some(i) => after.len() == before.len() && after[i].0@ == line && after[i].1 == (
            if before[i].1 < usize::MAX {
                (before[i].1 + 1) as usize
            } else {
                usize::MAX
            }) && forall|k: int| 0 <= k < before.len() && k != i ==> after[k] == before[k],
            None => after.len() == before.len() + 1 && after.last().0@ == line && after.last().1
                == 1 && forall|k: int| 0 <= k < before.len() ==> after[k] == before[k],
        },
    ensures
        tallies(after, lines.insert(line)),
{
    lemma_first_entry(before, line);
    let more = lines.insert(line);
    assert forall|i: int, j: int| 0 <= i < j < after.len() implies (#[trigger] after[i]).0@ != (
    #[trigger] after[j]).0@ by {
        match first_entry(before, line) {
            Some(at) => {
                assert(before[i].0@ != before[j].0@);
                assert(before[at].0@ == line);
            },
            None => {
                if j < before.len() {
                    assert(before[i].0@ != before[j].0@);
                } else {
                    assert(before[i].0@ != line);
                }
            },
        }
    }
    assert forall|i: int| 0 <= i < after.len() implies more.count((#[trigger] after[i]).0@) > 0
        && after[i].1 == saturated(more.count(after[i].0@)) by {
        match first_entry(before, line) {
            Some(at) => {
                assert(lines.count(before[i].0@) > 0);
                if i != at {
                    assert(before[i].0@ != before[at].0@);
                }
            },
            None => {
                if i < before.len() {
                    assert(lines.count(before[i].0@) > 0);
                    assert(before[i].0@ != line);
                } else {
                    if lines.count(line) > 0 {
                        let at = choose|at: int|
                            0 <= at < before.len() && (#[trigger] before[at]).0@ == line;
                        assert(false);
                    }
                }
            },
        }
    }
    assert forall|other: LeafShape|
        #![trigger more.count(other)]
        more.count(other) > 0 implies exists|i: int|
        0 <= i < after.len() && (#[trigger] after[i]).0@ == other by {
        if other == line {
            match first_entry(before, line) {
                Some(at) => {
                    assert(after[at].0@ == other);
                },
                None => {
                    assert(after[after.len() - 1].0@ == other);
                },
            }
        } else {
            assert(lines.count(other) > 0);
            let at = choose|at: int| 0 <= at < before.len() && (#[trigger] before[at]).0@ == other;
            assert(after[at].0@ == other);
        }
    }
}

/// Adds the lines of the tree under a node to the table.
fn gather_leaves(
    monster_lut: &HashMap<usize, Monster>,
    node: &MonsterNode,
    leaves: &mut Vec<(LeafNodeData, usize)>,
    Ghost(lines): Ghost<Multiset<LeafShape>>,
) -> (r: Result<(), RecipeError>)
    requires
        tallies(old(leaves)@, lines),
    ensures
        match r {
            Ok(_) => first_fault(monster_lut@, *node).is_none() && tallies(
                final(leaves)@,
                lines.add(listed(monster_lut@, *node)),
            ),
            Err(e) => first_fault(monster_lut@, *node) == Some(e),
        },
    decreases *node,
{
    match try_get_leaf_node_data(monster_lut, node) {
        Err(e) => Err(e),
        Ok(Some(leaf)) => {
            let ghost before = leaves@;
            count_leaf(leaves, leaf);
            proof {
                lemma_count_leaf_tallies(before, leaves@, leaf@, lines);
                assert(lines.insert(leaf@) =~= lines.add(Multiset::singleton(leaf@)));
            }
            Ok(())
        },
        Ok(None) => {
            let mut k: usize = 0;
            proof {
                assert(lines.add(listed_among(monster_lut@, *node, 0)) =~= lines);
            }
            while k < node.children.len()
                invariant
                    k <= node.children@.len(),
                    leaf_data_of(monster_lut@, *node) == Ok::<Option<LeafShape>, RecipeError>(None),
                    first_fault_among(monster_lut@, *node, k as nat).is_none(),
                    tallies(leaves@, lines.add(listed_among(monster_lut@, *node, k as nat))),
                decreases node.children.len() - k,
            {
                let ghost so_far = lines.add(listed_among(monster_lut@, *node, k as nat));
                let ghost catalog = monster_lut@;
                match gather_leaves(monster_lut, &node.children[k], leaves, Ghost(so_far)) {
                    Ok(_) => {},
                    Err(e) => {
                        proof {
                            lemma_fault_among_stays(
                                catalog,
                                *node,
                                (k + 1) as nat,
                                node.children@.len(),
                            );
                        }
                        return Err(e);
                    },
                }
                proof {
                    assert(so_far.add(listed(catalog, node.children[k as int])) =~= lines.add(
                        listed_among(catalog, *node, (k + 1) as nat),
                    ));
                }
                k = k + 1;
            }
            Ok(())
        },
    }
}

/// A fault met under the first `k` children is the first fault under more of them.
proof fn lemma_fault_among_stays(catalog: Map<usize, Monster>, node: MonsterNode, k: nat, n: nat)
    requires
        k <= n <= node.children@.len(),
        first_fault_among(catalog, node, k).is_some(),
    ensures
        first_fault_among(catalog, node, n) == first_fault_among(catalog, node, k),
    decreases n - k,
{
    if k < n {
        lemma_fault_among_stays(catalog, node, k, (n - 1) as nat);
    }
}

/// The list of a recipe tree: the lines that the tree gives, each once, with
/// the number of times that it occurs. Fails with the first monster that is
/// looked up and missing from the catalogue.
pub fn get_leaf_node_data(monster_lut: &HashMap<usize, Monster>, root: &MonsterNode) -> (r: Result<
    Vec<(LeafNodeData, usize)>,
    RecipeError,
>)
    ensures
        match r {
            Ok(leaves) => first_fault(monster_lut@, *root).is_none() && tallies(
                leaves@,
                listed(monster_lut@, *root),
            ),
            Err(e) => first_fault(monster_lut@, *root) == Some(e),
        },
{
    let mut leaves: Vec<(LeafNodeData, usize)> = Vec::new();
    let ghost nothing = Multiset::<LeafShape>::empty();
    proof {
        assert(nothing.add(listed(monster_lut@, *root)) =~= listed(monster_lut@, *root));
    }
    match gather_leaves(monster_lut, root, &mut leaves, Ghost(nothing)) {
        Ok(_) => Ok(leaves),
        Err(e) => Err(e),
    }
}

} // verus!
