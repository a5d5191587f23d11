//! What the extractor and the selection policy give: the descriptions of the
//! parents of a monster, the count by which recipes are compared, and the one
//! recipe that is picked.

use crate::data::{Monster, Parent};
use crate::recipe::{MonsterInfo, MonsterSpec};
use vstd::prelude::*;

verus! {

/// The description of one recipe slot of a monster of rank `rank`.
pub open spec fn slot_info(slot: Parent, rank: usize) -> MonsterInfo {
    MonsterInfo {
        spec: match slot.family {
            Some(family) => Some(MonsterSpec { family, rank }),
            None => None,
        },
        monster_id: slot.monster,
    }
}

/// The descriptions of all slots of all recipes of a monster, in the order of the record.
pub open spec fn parents_info(m: Monster) -> Seq<Seq<MonsterInfo>> {
    Seq::new(
        m.parents@.len(),
        |a: int| Seq::new(m.parents@[a]@.len(), |s: int| slot_info(m.parents@[a]@[s], m.rank)),
    )
}

/// Every slot of every recipe of the monster names exactly one of monster and family.
pub open spec fn slots_well_formed(m: Monster) -> bool {
    forall|a: int, s: int|
        0 <= a < m.parents@.len() && 0 <= s < m.parents@[a]@.len() ==> (
        #[trigger] m.parents@[a]@[s]).well_formed()
}

/// The number of abstract slots among the slots of one alternative.
pub open spec fn standard_count(alt: Seq<MonsterInfo>) -> nat {
    alt.filter(|info: MonsterInfo| info.spec.is_some()).len()
}

/// Whether a count of `challenger` beats a count of `holder` under the preference.
pub open spec fn beats(challenger: nat, holder: nat, prefer_standard: bool) -> bool {
    if prefer_standard {
        challenger > holder
    } else {
        challenger < holder
    }
}

/// The alternative with index `k` is the one to pick: none has a better
/// count under the preference, and none before it has the same count.
pub open spec fn is_selected(alts: Seq<Seq<MonsterInfo>>, prefer_standard: bool, k: int) -> bool {
    &&& 0 <= k < alts.len()
    &&& forall|j: int|
        0 <= j < alts.len() ==> !beats(
            standard_count(#[trigger] alts[j]),
            standard_count(alts[k]),
            prefer_standard,
        )
    &&& forall|j: int|
        0 <= j < k ==> standard_count(#[trigger] alts[j]) != standard_count(alts[k])
}

/// The index of the alternative that the policy picks.
pub open spec fn selected_index(alts: Seq<Seq<MonsterInfo>>, prefer_standard: bool) -> int {
    choose|k: int| is_selected(alts, prefer_standard, k)
}

/// What the policy returns: nothing for no alternatives, else the picked one.
pub open spec fn selected(alts: Seq<Seq<MonsterInfo>>, prefer_standard: bool) -> Option<
    Seq<MonsterInfo>,
> {
    if alts.len() == 0 {
        None
    } else {
        Some(alts[selected_index(alts, prefer_standard)])
    }
}

/// The parents that a tree gives to a monster: the slots of the picked recipe,
/// none where the monster has no recipe.
pub open spec fn chosen_parents(m: Monster, prefer_standard: bool) -> Seq<MonsterInfo> {
    match selected(parents_info(m), prefer_standard) {
        Some(alt) => alt,
        None => Seq::empty(),
    }
}

/// The index at which a scan of the first `n` alternatives ends, where a later
/// alternative replaces an earlier one only if its count is strictly better.
pub open spec fn selected_among(alts: Seq<Seq<MonsterInfo>>, prefer_standard: bool, n: int) -> int
    decreases n,
{
    if n <= 1 {
        0
    } else {
        let held = selected_among(alts, prefer_standard, n - 1);
        if beats(standard_count(alts[n - 1]), standard_count(alts[held]), prefer_standard) {
            n - 1
        } else {
            held
        }
    }
}

/// The policy picks one alternative, and the scan finds it: where there is
/// an alternative, exactly one index is the one to pick, and the scan of all
/// alternatives ends at it.
pub proof fn lemma_selected_index(alts: Seq<Seq<MonsterInfo>>, prefer_standard: bool)
    requires
        alts.len() > 0,
    ensures
        is_selected(alts, prefer_standard, selected_index(alts, prefer_standard)),
        selected_index(alts, prefer_standard) == selected_among(
            alts,
            prefer_standard,
            alts.len() as int,
        ),
        forall|k: int|
            is_selected(alts, prefer_standard, k) ==> k == selected_index(alts, prefer_standard),
{
    lemma_scan_is_selected(alts, prefer_standard, alts.len() as int);
    let found = selected_among(alts, prefer_standard, alts.len() as int);
    assert(alts.take(alts.len() as int) =~= alts);
    assert(is_selected(alts, prefer_standard, found));
    assert forall|k: int| is_selected(alts, prefer_standard, k) implies k == selected_index(
        alts,
        prefer_standard,
    ) by {
        lemma_selected_unique(alts, prefer_standard, k, selected_index(alts, prefer_standard));
    }
}

/// At most one index is the one to pick.
pub proof fn lemma_selected_unique(
    alts: Seq<Seq<MonsterInfo>>,
    prefer_standard: bool,
    k1: int,
    k2: int,
)
    requires
        is_selected(alts, prefer_standard, k1),
        is_selected(alts, prefer_standard, k2),
    ensures
        k1 == k2,
{
    assert(!beats(standard_count(alts[k1]), standard_count(alts[k2]), prefer_standard));
    assert(!beats(standard_count(alts[k2]), standard_count(alts[k1]), prefer_standard));
    if k1 < k2 {
        assert(standard_count(alts[k1]) != standard_count(alts[k2]));
    } else if k2 < k1 {
        assert(standard_count(alts[k2]) != standard_count(alts[k1]));
    }
}

/// The scan of the first `n` alternatives ends at the one to pick among them.
proof fn lemma_scan_is_selected(alts: Seq<Seq<MonsterInfo>>, prefer_standard: bool, n: int)
    requires
        1 <= n <= alts.len(),
    ensures
        is_selected(alts.take(n), prefer_standard, selected_among(alts, prefer_standard, n)),
    decreases n,
{
    let found = selected_among(alts, prefer_standard, n);
    if n > 1 {
        lemma_scan_is_selected(alts, prefer_standard, n - 1);
        let held = selected_among(alts, prefer_standard, n - 1);
        assert forall|j: int| 0 <= j < n implies !beats(
            standard_count(#[trigger] alts.take(n)[j]),
            standard_count(alts.take(n)[found]),
            prefer_standard,
        ) by {
            if j < n - 1 {
                assert(alts.take(n - 1)[j] == alts[j]);
            }
        }
        assert forall|j: int| 0 <= j < found implies standard_count(#[trigger] alts.take(n)[j])
            != standard_count(alts.take(n)[found]) by {
            assert(alts.take(n - 1)[j] == alts[j]);
        }
    }
}

/// The tie-break of the policy, under either preference: the picked
/// alternative is the first of those with the best count, so among
/// alternatives of equal count the first is picked.
pub proof fn lemma_selection_first_best(alts: Seq<Seq<MonsterInfo>>, prefer_standard: bool)
    requires
        alts.len() > 0,
    ensures
        is_selected(alts, prefer_standard, selected_index(alts, prefer_standard)),
        (forall|j: int|
            0 <= j < alts.len() ==> standard_count(#[trigger] alts[j]) == standard_count(alts[0]))
            ==> selected_index(alts, prefer_standard) == 0,
{
    lemma_selected_index(alts, prefer_standard);
    if forall|j: int|
        0 <= j < alts.len() ==> standard_count(#[trigger] alts[j]) == standard_count(alts[0]) {
        assert(is_selected(alts, prefer_standard, 0));
    }
}

/// The policy hands out nothing exactly where there is no alternative, and
/// else one of the alternatives, under either preference.
pub proof fn lemma_selection_is_member(alts: Seq<Seq<MonsterInfo>>, prefer_standard: bool)
    ensures
        selected(alts, prefer_standard).is_none() <==> alts.len() == 0,
        selected(alts, prefer_standard).is_some() ==> alts.contains(
            selected(alts, prefer_standard).unwrap(),
        ),
{
    if alts.len() > 0 {
        lemma_selected_index(alts, prefer_standard);
    }
}

} // verus!
