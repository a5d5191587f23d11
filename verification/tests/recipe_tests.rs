use monster_recipe::branch::MutableMonsterBranchIterator;
use monster_recipe::data::{AreaCondition, Monster, Parent};
use monster_recipe::recipe::{
    branch_contains, count_standard_parents, is_scoutable, validate_monster_rank, MonsterInfo,
    MonsterNode, MonsterSpec, MonsterTreeBuilder, RecipeError,
};
use std::collections::HashMap;

fn concrete(id: usize) -> MonsterInfo {
    MonsterInfo { spec: None, monster_id: Some(id) }
}

fn standard(family: usize, rank: usize) -> MonsterInfo {
    MonsterInfo { spec: Some(MonsterSpec { family, rank }), monster_id: None }
}

fn leaf(id: usize) -> MonsterNode {
    MonsterNode { data: concrete(id), children: vec![] }
}

fn by_monster(id: usize) -> Parent {
    Parent { monster: Some(id), family: None }
}

fn by_family(id: usize) -> Parent {
    Parent { monster: None, family: Some(id) }
}

fn monster(rank: usize, family: usize, parents: Vec<Vec<Parent>>) -> Monster {
    Monster { name: "a".to_string(), rank, family, parents, habitats: HashMap::new() }
}

fn all_branches(root: &MonsterNode) -> Vec<Vec<MonsterInfo>> {
    let mut walk = MutableMonsterBranchIterator::new(root);
    let mut branches = vec![];
    while let Some(branch) = walk.next() {
        branches.push(branch);
    }
    branches
}

fn cyclic_catalog() -> HashMap<usize, Monster> {
    HashMap::from([
        (0, monster(0, 1, vec![vec![by_monster(1), by_monster(2)]])),
        (1, monster(0, 0, vec![vec![by_monster(2), by_monster(3)]])),
        (2, monster(0, 0, vec![vec![by_monster(3), by_family(0)]])),
        (3, monster(0, 0, vec![vec![by_monster(2), by_family(0)]])),
    ])
}

#[test]
fn test_mutable_monster_branch_iterator() {
    /*
     * 6 +- 4 +- 0
     *   |    +- 1
     *   |
     *   +- 5 +- 2
     *        +- 3
     */
    let root = MonsterNode {
        data: concrete(6),
        children: vec![
            MonsterNode { data: concrete(4), children: vec![leaf(0), leaf(1)] },
            MonsterNode { data: concrete(5), children: vec![leaf(2), leaf(3)] },
        ],
    };

    let mut itr = MutableMonsterBranchIterator::new(&root);

    let expected_ids: Vec<Vec<usize>> = vec![
        vec![6],
        vec![6, 4],
        vec![6, 4, 0],
        vec![6, 4, 1],
        vec![6, 5],
        vec![6, 5, 2],
        vec![6, 5, 3],
    ];

    for expected in expected_ids {
        let branch = itr.next();
        assert!(branch.is_some());

        let actual = branch
            .unwrap()
            .iter()
            .map(|n| n.monster_id.unwrap())
            .collect::<Vec<usize>>();
        assert_eq!(actual, expected);
    }
    assert!(itr.next().is_none());
}

#[test]
fn test_get_parents_info() {
    let lut: HashMap<usize, Monster> = HashMap::from([
        (0, monster(0, 0, vec![])),
        (
            1,
            monster(
                0,
                1,
                vec![
                    vec![by_family(2), by_family(3)],
                    vec![by_monster(4), by_monster(5)],
                ],
            ),
        ),
    ]);

    let builder = MonsterTreeBuilder::new(lut);
    let actual1 = builder.get_parents_info(0).unwrap();
    assert_eq!(actual1.len(), 0);

    let actual2 = builder.get_parents_info(1).unwrap();
    assert_eq!(actual2.len(), 2);
    assert_eq!(actual2[0].len(), 2);
    assert_eq!(
        actual2[0][0],
        MonsterInfo {
            spec: Some(MonsterSpec { rank: 0, family: 2 }),
            monster_id: None
        }
    );
    assert_eq!(
        actual2[0][1],
        MonsterInfo {
            spec: Some(MonsterSpec { rank: 0, family: 3 }),
            monster_id: None
        }
    );
}

#[test]
fn test_select_parents() {
    let mut builder = MonsterTreeBuilder::new(HashMap::new());

    let info1 = vec![
        MonsterInfo {
            spec: Some(MonsterSpec { family: 0, rank: 1 }),
            monster_id: None,
        },
        MonsterInfo {
            spec: Some(MonsterSpec { family: 2, rank: 1 }),
            monster_id: None,
        },
    ];
    let info2 = vec![
        MonsterInfo {
            spec: Some(MonsterSpec { family: 0, rank: 1 }),
            monster_id: None,
        },
        MonsterInfo {
            spec: None,
            monster_id: Some(3),
        },
    ];
    let info3 = vec![
        MonsterInfo {
            spec: None,
            monster_id: Some(3),
        },
        MonsterInfo {
            spec: None,
            monster_id: Some(4),
        },
    ];

    let parents1: Vec<Vec<MonsterInfo>> = vec![];
    let parents2 = vec![info1.clone(), info2.clone(), info3.clone()];

    let actual1f = builder.select_parents(parents1.clone());
    assert_eq!(actual1f, None);
    let actual2f = builder.select_parents(parents2.clone());
    assert!(actual2f.is_some());
    assert_eq!(actual2f.unwrap().clone(), info3.clone());

    builder.prefer_standard_fusion(true);
    let actual1t = builder.select_parents(parents1.clone());
    assert_eq!(actual1t, None);
    let actual2t = builder.select_parents(parents2.clone());
    assert!(actual2t.is_some());
    assert_eq!(actual2t.unwrap().clone(), info1.clone());
}

#[test]
fn test_validate_monster_rank() {
    let monster = Monster {
        name: "a".to_string(),
        rank: 3,
        family: 0,
        parents: vec![],
        habitats: HashMap::new(),
    };
    assert_eq!(validate_monster_rank(&monster, &[Some(0), Some(2)]), false);
    assert_eq!(validate_monster_rank(&monster, &[Some(0), Some(3)]), true);
    assert_eq!(validate_monster_rank(&monster, &[Some(0), Some(7)]), true);
    assert_eq!(validate_monster_rank(&monster, &[Some(3), Some(7)]), true);
    assert_eq!(validate_monster_rank(&monster, &[Some(4), Some(7)]), false);
    assert_eq!(validate_monster_rank(&monster, &[None, Some(2)]), false);
    assert_eq!(validate_monster_rank(&monster, &[None, Some(3)]), true);
    assert_eq!(validate_monster_rank(&monster, &[None, Some(4)]), true);
    assert_eq!(validate_monster_rank(&monster, &[Some(2), None]), true);
    assert_eq!(validate_monster_rank(&monster, &[Some(3), None]), true);
    assert_eq!(validate_monster_rank(&monster, &[Some(4), None]), false);
    assert_eq!(validate_monster_rank(&monster, &[None, None]), true);
}

#[test]
fn test_is_scoutable() {
    let monster1 = Monster {
        name: "a".to_string(),
        rank: 0,
        family: 0,
        parents: vec![],
        habitats: HashMap::new(),
    };
    assert_eq!(is_scoutable(&monster1), false);

    let monster2 = Monster {
        name: "a".to_string(),
        rank: 0,
        family: 0,
        parents: vec![],
        habitats: vec![(
            0,
            AreaCondition {
                conditions: vec![(0, vec![true, false])].into_iter().collect(),
            },
        )]
        .into_iter()
        .collect(),
    };
    assert_eq!(is_scoutable(&monster2), true);
}

#[test]
fn test_build_recipe() {
    /*
     * 0 +- 1 +- 2 +- 3
     *   |    |    +- X
     *   |    |
     *   |    +- 3 +- 2
     *   |         +- X
     *   |
     *   +- 2 +- 3
     *        +- X
     */
    let builder = MonsterTreeBuilder::new(cyclic_catalog());
    let actual = builder.build(0).unwrap();

    let actual_ids = all_branches(&actual)
        .iter()
        .map(|b| b.iter().map(|n| n.monster_id).collect::<Vec<Option<usize>>>())
        .collect::<Vec<Vec<Option<usize>>>>();
    let expected_ids = vec![
        vec![Some(0)],
        vec![Some(0), Some(1)],
        vec![Some(0), Some(1), Some(2)],
        vec![Some(0), Some(1), Some(2), Some(3)],
        vec![Some(0), Some(1), Some(2), None],
        vec![Some(0), Some(1), Some(3)],
        vec![Some(0), Some(1), Some(3), Some(2)],
        vec![Some(0), Some(1), Some(3), None],
        vec![Some(0), Some(2)],
        vec![Some(0), Some(2), Some(3)],
        vec![Some(0), Some(2), None],
    ];
    assert_eq!(actual_ids, expected_ids);
}

#[test]
fn build_keeps_shape_and_data_of_each_node() {
    let builder = MonsterTreeBuilder::new(cyclic_catalog());
    let actual = builder.build(2).unwrap();
    let expected = MonsterNode {
        data: concrete(2),
        children: vec![
            MonsterNode { data: concrete(3), children: vec![] },
            MonsterNode { data: standard(0, 0), children: vec![] },
        ],
    };
    assert_eq!(actual, expected);
}

#[test]
fn build_of_base_monster_is_single_node() {
    let lut = HashMap::from([(7, monster(2, 1, vec![]))]);
    let mut builder = MonsterTreeBuilder::new(lut);
    let tree = builder.build(7).unwrap();
    assert_eq!(tree, MonsterNode { data: concrete(7), children: vec![] });
    assert_eq!(all_branches(&tree), vec![vec![concrete(7)]]);
    builder.prefer_standard_fusion(true);
    assert_eq!(builder.build(7).unwrap(), MonsterNode { data: concrete(7), children: vec![] });
}

#[test]
fn build_branches_never_repeat_a_monster() {
    for prefer in [false, true] {
        let mut builder = MonsterTreeBuilder::new(cyclic_catalog());
        builder.prefer_standard_fusion(prefer);
        for root in 0..4 {
            let tree = builder.build(root).unwrap();
            for branch in all_branches(&tree) {
                let ids: Vec<usize> = branch.iter().filter_map(|n| n.monster_id).collect();
                for i in 0..ids.len() {
                    for j in (i + 1)..ids.len() {
                        assert_ne!(ids[i], ids[j]);
                    }
                }
            }
        }
    }
}

#[test]
fn build_stops_at_a_monster_that_would_bring_itself_back() {
    let lut = HashMap::from([(0, monster(0, 0, vec![vec![by_monster(0), by_family(1)]]))]);
    let builder = MonsterTreeBuilder::new(lut);
    assert_eq!(builder.build(0).unwrap(), MonsterNode { data: concrete(0), children: vec![] });
}

#[test]
fn build_checks_cycles_against_recipes_that_are_not_picked() {
    // Monster 1 would be expanded by its first recipe, but its second names the root.
    let lut = HashMap::from([
        (0, monster(0, 0, vec![vec![by_monster(1), by_monster(2)]])),
        (1, monster(0, 0, vec![vec![by_monster(2), by_monster(2)], vec![by_monster(0), by_family(3)]])),
        (2, monster(0, 0, vec![])),
    ]);
    let builder = MonsterTreeBuilder::new(lut);
    let tree = builder.build(0).unwrap();
    let ids = all_branches(&tree)
        .iter()
        .map(|b| b.iter().map(|n| n.monster_id.unwrap()).collect::<Vec<usize>>())
        .collect::<Vec<Vec<usize>>>();
    assert_eq!(ids, vec![vec![0], vec![0, 1], vec![0, 2]]);
}

#[test]
fn build_follows_the_preference() {
    let lut = HashMap::from([
        (0, monster(5, 0, vec![vec![by_monster(1), by_family(8)], vec![by_family(8), by_family(9)], vec![by_monster(1), by_monster(2)]])),
        (1, monster(1, 0, vec![])),
        (2, monster(1, 0, vec![])),
    ]);
    let mut builder = MonsterTreeBuilder::new(lut);
    let few = builder.build(0).unwrap();
    assert_eq!(few, MonsterNode { data: concrete(0), children: vec![leaf(1), leaf(2)] });
    builder.prefer_standard_fusion(true);
    let many = builder.build(0).unwrap();
    assert_eq!(
        many,
        MonsterNode {
            data: concrete(0),
            children: vec![
                MonsterNode { data: standard(8, 5), children: vec![] },
                MonsterNode { data: standard(9, 5), children: vec![] },
            ],
        }
    );
}

#[test]
fn build_reports_unknown_root() {
    let builder = MonsterTreeBuilder::new(HashMap::new());
    assert_eq!(builder.build(9), Err(RecipeError::UnknownMonster(9)));
}

#[test]
fn build_reports_unknown_parent() {
    let lut = HashMap::from([
        (0, monster(0, 0, vec![vec![by_monster(1), by_monster(5)]])),
        (1, monster(0, 0, vec![])),
    ]);
    let builder = MonsterTreeBuilder::new(lut);
    assert_eq!(builder.build(0), Err(RecipeError::UnknownMonster(5)));
}

#[test]
fn build_reports_malformed_parent() {
    let both = Parent { monster: Some(1), family: Some(2) };
    let neither = Parent { monster: None, family: None };
    let lut = HashMap::from([
        (0, monster(0, 0, vec![vec![by_monster(1), by_monster(2)]])),
        (1, monster(0, 0, vec![vec![by_family(1), neither]])),
        (2, monster(0, 0, vec![])),
        (3, monster(0, 0, vec![vec![by_family(1), both]])),
    ]);
    let builder = MonsterTreeBuilder::new(lut);
    assert_eq!(builder.build(0), Err(RecipeError::MalformedParent(1)));
    assert_eq!(builder.build(3), Err(RecipeError::MalformedParent(3)));
    assert_eq!(builder.get_parents_info(3), Err(RecipeError::MalformedParent(3)));
    assert_eq!(builder.get_child_nodes(1), Err(RecipeError::MalformedParent(1)));
}

#[test]
fn get_parents_info_reports_unknown_monster() {
    let builder = MonsterTreeBuilder::new(HashMap::from([(0, monster(0, 0, vec![]))]));
    assert_eq!(builder.get_parents_info(4), Err(RecipeError::UnknownMonster(4)));
    assert_eq!(builder.get_child_nodes(4), Err(RecipeError::UnknownMonster(4)));
}

#[test]
fn get_parents_info_takes_rank_of_the_child() {
    let lut = HashMap::from([(3, monster(6, 2, vec![vec![by_family(4), by_monster(9)]]))]);
    let builder = MonsterTreeBuilder::new(lut);
    assert_eq!(
        builder.get_parents_info(3),
        Ok(vec![vec![standard(4, 6), concrete(9)]])
    );
}

#[test]
fn count_standard_parents_counts_abstract_slots() {
    assert_eq!(count_standard_parents(&vec![]), 0);
    assert_eq!(count_standard_parents(&vec![concrete(1), concrete(2)]), 0);
    assert_eq!(count_standard_parents(&vec![standard(1, 1), concrete(2), standard(3, 1)]), 2);
}

#[test]
fn select_parents_takes_first_among_equals() {
    let first = vec![standard(0, 1), concrete(3)];
    let second = vec![concrete(4), standard(5, 1)];
    let third = vec![standard(6, 1), concrete(7)];
    let alts = vec![first.clone(), second.clone(), third.clone()];
    let mut builder = MonsterTreeBuilder::new(HashMap::new());
    assert_eq!(builder.select_parents(alts.clone()), Some(first.clone()));
    builder.prefer_standard_fusion(true);
    assert_eq!(builder.select_parents(alts.clone()), Some(first.clone()));
}

#[test]
fn select_parents_takes_first_of_the_best() {
    let none1 = vec![concrete(1), concrete(2)];
    let two1 = vec![standard(1, 0), standard(2, 0)];
    let one = vec![standard(1, 0), concrete(2)];
    let two2 = vec![standard(3, 0), standard(4, 0)];
    let none2 = vec![concrete(3), concrete(4)];
    let alts = vec![one.clone(), none1.clone(), two1.clone(), two2.clone(), none2.clone()];
    let mut builder = MonsterTreeBuilder::new(HashMap::new());
    assert_eq!(builder.select_parents(alts.clone()), Some(none1));
    builder.prefer_standard_fusion(true);
    assert_eq!(builder.select_parents(alts.clone()), Some(two1));
    assert_eq!(builder.select_parents(vec![one.clone()]), Some(one));
}

#[test]
fn get_child_nodes_makes_fresh_nodes() {
    let lut = HashMap::from([
        (0, monster(4, 0, vec![vec![by_family(2), by_monster(1)], vec![by_monster(1), by_monster(2)]])),
        (1, monster(0, 0, vec![])),
    ]);
    let mut builder = MonsterTreeBuilder::new(lut);
    assert_eq!(builder.get_child_nodes(0), Ok(vec![leaf(1), leaf(2)]));
    assert_eq!(builder.get_child_nodes(1), Ok(vec![]));
    builder.prefer_standard_fusion(true);
    assert_eq!(
        builder.get_child_nodes(0),
        Ok(vec![MonsterNode { data: standard(2, 4), children: vec![] }, leaf(1)])
    );
}

#[test]
fn is_leaf_node_tells_leaves_from_nodes_to_expand() {
    let builder = MonsterTreeBuilder::new(cyclic_catalog());
    // an abstract node
    assert_eq!(builder.is_leaf_node(&vec![concrete(0), standard(0, 0)]), Ok(true));
    // a cycle: monster 3 is made from monster 2
    assert_eq!(builder.is_leaf_node(&vec![concrete(0), concrete(2), concrete(3)]), Ok(true));
    // no cycle
    assert_eq!(builder.is_leaf_node(&vec![concrete(0), concrete(1)]), Ok(false));
    assert_eq!(builder.is_leaf_node(&vec![concrete(0)]), Ok(false));
    // unknown
    assert_eq!(builder.is_leaf_node(&vec![concrete(0), concrete(8)]), Err(RecipeError::UnknownMonster(8)));
    // a base monster
    let base = MonsterTreeBuilder::new(HashMap::from([(0, monster(0, 0, vec![]))]));
    assert_eq!(base.is_leaf_node(&vec![concrete(0)]), Ok(true));
}

#[test]
fn branch_contains_finds_concrete_monsters_only() {
    let branch = vec![concrete(4), standard(2, 1), concrete(6)];
    assert!(branch_contains(&branch, 4));
    assert!(branch_contains(&branch, 6));
    assert!(!branch_contains(&branch, 2));
    assert!(!branch_contains(&vec![], 0));
}

#[test]
fn walk_over_single_node_ends_after_one_branch() {
    let root = leaf(3);
    let mut walk = MutableMonsterBranchIterator::new(&root);
    assert_eq!(walk.get_branch(), vec![concrete(3)]);
    assert_eq!(walk.next(), Some(vec![concrete(3)]));
    assert_eq!(walk.next(), None);
    assert_eq!(walk.next(), None);
}

#[test]
fn walk_backs_up_over_several_levels() {
    let root = MonsterNode {
        data: concrete(0),
        children: vec![
            MonsterNode {
                data: concrete(1),
                children: vec![MonsterNode { data: concrete(2), children: vec![leaf(3)] }],
            },
            leaf(4),
        ],
    };
    let ids = all_branches(&root)
        .iter()
        .map(|b| b.iter().map(|n| n.monster_id.unwrap()).collect::<Vec<usize>>())
        .collect::<Vec<Vec<usize>>>();
    assert_eq!(ids, vec![vec![0], vec![0, 1], vec![0, 1, 2], vec![0, 1, 2, 3], vec![0, 4]]);
}

#[test]
fn validate_monster_rank_both_bounds_equal() {
    let m = monster(3, 0, vec![]);
    assert_eq!(validate_monster_rank(&m, &[Some(3), Some(3)]), true);
    assert_eq!(validate_monster_rank(&m, &[Some(4), Some(2)]), false);
}
