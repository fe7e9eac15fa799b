//! Which activities count as money-making actions, and what a character needs
//! to perform them.
use vstd::prelude::*;

use crate::data::{item_key, item_key_from_hrid};
use crate::text::{TextOrder, compare_text};

verus! {

/// A character's level in one skill.
#[derive(Debug, Clone, PartialEq, Eq)]
pub struct CharacterSkill {
    pub skill_hrid: String,
    pub level: u32,
}

/// The skill level an action asks for.
#[derive(Debug, Clone, PartialEq, Eq)]
pub struct LevelRequirement {
    pub skill_hrid: String,
    pub level: u32,
}

/// A drink slot of an action type, holding a drink that may be switched off.
#[derive(Debug, Clone, PartialEq, Eq)]
pub struct DrinkSlot {
    pub item_hrid: String,
    pub is_active: bool,
}

/// Which market price of an item an evaluation needed.
#[derive(Debug, Clone, Copy, PartialEq, Eq, Structural)]
pub enum PriceSide {
    InputAsk,
    OutputBid,
    DrinkAsk,
}

/// An item whose price an action evaluation could not find.
#[derive(Debug, Clone, PartialEq, Eq)]
pub struct MissingActionPrice {
    pub item: String,
    pub side: PriceSide,
}

/// The gathering action types: their output grows with the gathering bonus.
pub open spec fn gathering_action_types() -> Seq<Seq<char>> {
    seq!["/action_types/foraging"@, "/action_types/woodcutting"@, "/action_types/milking"@]
}

/// The production action types: they consume inputs, which the artisan bonus
/// saves, and the gourmet bonus adds output.
pub open spec fn production_action_types() -> Seq<Seq<char>> {
    seq![
        "/action_types/brewing"@,
        "/action_types/cooking"@,
        "/action_types/cheesesmithing"@,
        "/action_types/crafting"@,
        "/action_types/tailoring"@,
    ]
}

fn same_text(a: &str, b: &str) -> (same: bool)
    ensures
        same == (a@ == b@),
{
    compare_text(a, b) == TextOrder::Equal
}

/// Whether `action_type` is a gathering action type.
pub fn is_gathering_action_type(action_type: &str) -> (b: bool)
    ensures
        b == gathering_action_types().contains(action_type@),
{
    let found = same_text(action_type, "/action_types/foraging") || same_text(
        action_type,
        "/action_types/woodcutting",
    ) || same_text(action_type, "/action_types/milking");
    proof {
        let g = gathering_action_types();
        if found {
            if action_type@ == "/action_types/foraging"@ {
                assert(g[0] == action_type@);
            } else if action_type@ == "/action_types/woodcutting"@ {
                assert(g[1] == action_type@);
            } else {
                assert(g[2] == action_type@);
            }
        } else {
            assert forall|i: int| 0 <= i < g.len() implies g[i] != action_type@ by {
                assert(i == 0 || i == 1 || i == 2);
            }
        }
    }
    found
}

/// Whether `action_type` is a production action type.
pub fn is_production_action_type(action_type: &str) -> (b: bool)
    ensures
        b == production_action_types().contains(action_type@),
{
    let found = same_text(action_type, "/action_types/brewing") || same_text(
        action_type,
        "/action_types/cooking",
    ) || same_text(action_type, "/action_types/cheesesmithing") || same_text(
        action_type,
        "/action_types/crafting",
    ) || same_text(action_type, "/action_types/tailoring");
    proof {
        let p = production_action_types();
        if found {
            if action_type@ == "/action_types/brewing"@ {
                assert(p[0] == action_type@);
            } else if action_type@ == "/action_types/cooking"@ {
                assert(p[1] == action_type@);
            } else if action_type@ == "/action_types/cheesesmithing"@ {
                assert(p[2] == action_type@);
            } else if action_type@ == "/action_types/crafting"@ {
                assert(p[3] == action_type@);
            } else {
                assert(p[4] == action_type@);
            }
        } else {
            assert forall|i: int| 0 <= i < p.len() implies p[i] != action_type@ by {
                assert(i == 0 || i == 1 || i == 2 || i == 3 || i == 4);
            }
        }
    }
    found
}

/// Whether activities of `action_type` are evaluated at all: the gathering and
/// production types are.
pub fn is_supported_action_type(action_type: &str) -> (b: bool)
    ensures
        b == (gathering_action_types().contains(action_type@)
            || production_action_types().contains(action_type@)),
{
    is_gathering_action_type(action_type) || is_production_action_type(action_type)
}

/// The level of the skill `skill_hrid` among `skills`: the last entry for that
/// skill counts, as when the entries are collected into a map in this order.
pub open spec fn skill_level_of(skills: Seq<CharacterSkill>, skill_hrid: Seq<char>) -> Option<u32>
    decreases skills.len(),
{
    if skills.len() == 0 {
        None
    } else if skills.last().skill_hrid@ == skill_hrid {
        Some(skills.last().level)
    } else {
        skill_level_of(skills.drop_last(), skill_hrid)
    }
}

/// Looks up a character's level in a skill.
pub fn skill_level(skills: &Vec<CharacterSkill>, skill_hrid: &str) -> (level: Option<u32>)
    ensures
        level == skill_level_of(skills@, skill_hrid@),
{
    let mut i: usize = skills.len();
    assert(skills@.subrange(0, i as int) =~= skills@);
    while i > 0
        invariant
            i <= skills@.len(),
            skill_level_of(skills@, skill_hrid@) == skill_level_of(
                skills@.subrange(0, i as int),
                skill_hrid@,
            ),
        decreases i,
    {
        let ghost prefix = skills@.subrange(0, i as int);
        assert(prefix.drop_last() =~= skills@.subrange(0, i - 1));
        if same_text(skills[i - 1].skill_hrid.as_str(), skill_hrid) {
            return Some(skills[i - 1].level);
        }
        i = i - 1;
    }
    None
}

/// An action is unlocked when it has no level requirement, or the character
/// has the required skill at the required level or above.
pub open spec fn unlocked(requirement: Option<LevelRequirement>, skills: Seq<CharacterSkill>) -> bool {
    match requirement {
        Some(r) => match skill_level_of(skills, r.skill_hrid@) {
            Some(level) => level >= r.level,
            None => false,
        },
        None => true,
    }
}

/// Whether a character with `skills` can perform an action that has
/// `requirement`.
pub fn is_unlocked(requirement: &Option<LevelRequirement>, skills: &Vec<CharacterSkill>) -> (b: bool)
    ensures
        b == unlocked(*requirement, skills@),
{
    match requirement {
        Some(r) => match skill_level(skills, r.skill_hrid.as_str()) {
            Some(level) => level >= r.level,
            None => false,
        },
        None => true,
    }
}

/// The levels that an action's efficiency is computed from: the required
/// level (1 when there is no requirement) and the character's level in the
/// required skill (the required level when the character lacks the skill).
pub open spec fn requirement_levels_of(
    requirement: Option<LevelRequirement>,
    skills: Seq<CharacterSkill>,
) -> (u32, u32) {
    match requirement {
        Some(r) => (
            r.level,
            match skill_level_of(skills, r.skill_hrid@) {
                Some(level) => level,
                None => r.level,
            },
        ),
        None => (1, 1),
    }
}

/// The required level and the character's level for an action.
pub fn requirement_levels(requirement: &Option<LevelRequirement>, skills: &Vec<CharacterSkill>) -> (levels: (u32, u32))
    ensures
        levels == requirement_levels_of(*requirement, skills@),
{
    match requirement {
        Some(r) => {
            let level = match skill_level(skills, r.skill_hrid.as_str()) {
                Some(level) => level,
                None => r.level,
            };
            (r.level, level)
        },
        None => (1, 1),
    }
}

/// The market keys of the active drinks in a list of drink slots, in slot
/// order; empty slots and inactive drinks are skipped.
pub open spec fn active_drinks_of(slots: Seq<Option<DrinkSlot>>) -> Seq<Seq<char>>
    decreases slots.len(),
{
    if slots.len() == 0 {
        Seq::empty()
    } else {
        active_drinks_of(slots.drop_last()) + match slots.last() {
            Some(slot) => if slot.is_active {
                seq![item_key(slot.item_hrid@)]
            } else {
                Seq::empty()
            },
            None => Seq::empty(),
        }
    }
}

/// The drinks that an action type consumes while it runs.
pub fn active_drink_items(slots: &Vec<Option<DrinkSlot>>) -> (items: Vec<String>)
    ensures
        items@.map_values(|s: String| s@) == active_drinks_of(slots@),
{
    let mut items: Vec<String> = Vec::new();
    let mut i: usize = 0;
    while i < slots.len()
        invariant
            i <= slots@.len(),
            items@.map_values(|s: String| s@) == active_drinks_of(slots@.subrange(0, i as int)),
        decreases slots@.len() - i,
    {
        let ghost before = slots@.subrange(0, i as int);
        assert(slots@.subrange(0, i + 1).drop_last() =~= before);
        let ghost old_items = items@;
        match &slots[i] {
            Some(slot) => {
                if slot.is_active {
                    let key = item_key_from_hrid(slot.item_hrid.as_str());
                    items.push(key);
                    assert(items@.map_values(|s: String| s@) =~= old_items.map_values(
                        |s: String| s@,
                    ) + seq![item_key(slot.item_hrid@)]);
                } else {
                    assert(items@.map_values(|s: String| s@) =~= old_items.map_values(
                        |s: String| s@,
                    ) + Seq::<Seq<char>>::empty());
                }
            },
            None => {
                assert(items@.map_values(|s: String| s@) =~= old_items.map_values(|s: String| s@)
                    + Seq::<Seq<char>>::empty());
            },
        }
        i = i + 1;
    }
    assert(slots@.subrange(0, i as int) =~= slots@);
    items
}

/// `skills[i]` is the last entry for `skill_hrid`.
pub open spec fn last_entry_for(skills: Seq<CharacterSkill>, skill_hrid: Seq<char>, i: int) -> bool {
    &&& 0 <= i < skills.len()
    &&& skills[i].skill_hrid@ == skill_hrid
    &&& forall|j: int| i < j < skills.len() ==> (#[trigger] skills[j]).skill_hrid@ != skill_hrid
}

/// A character's level in a skill is the level of its last entry for that
/// skill, and it has no level when no entry names the skill.
pub proof fn law_skill_level_is_last_entry(skills: Seq<CharacterSkill>, skill_hrid: Seq<char>)
    ensures
        skill_level_of(skills, skill_hrid) is None <==> forall|j: int|
            0 <= j < skills.len() ==> (#[trigger] skills[j]).skill_hrid@ != skill_hrid,
        forall|i: int|
            #[trigger] last_entry_for(skills, skill_hrid, i) ==> skill_level_of(skills, skill_hrid)
                == Some(skills[i].level),
    decreases skills.len(),
{
    if skills.len() > 0 {
        let t = skills.drop_last();
        law_skill_level_is_last_entry(t, skill_hrid);
        assert forall|i: int| #[trigger] last_entry_for(skills, skill_hrid, i) implies skill_level_of(
            skills,
            skill_hrid,
        ) == Some(skills[i].level) by {
            if i < skills.len() - 1 {
                assert(skills[skills.len() - 1].skill_hrid@ != skill_hrid);
                assert(t[i] == skills[i]);
                assert forall|j: int| i < j < t.len() implies (#[trigger] t[j]).skill_hrid@ != skill_hrid by {
                    assert(t[j] == skills[j]);
                }
                assert(last_entry_for(t, skill_hrid, i));
            }
        }
        if skills.last().skill_hrid@ != skill_hrid {
            assert((forall|j: int| 0 <= j < t.len() ==> (#[trigger] t[j]).skill_hrid@ != skill_hrid)
                <==> (forall|j: int| 0 <= j < skills.len() ==> (#[trigger] skills[j]).skill_hrid@ != skill_hrid)) by {
                if forall|j: int| 0 <= j < t.len() ==> (#[trigger] t[j]).skill_hrid@ != skill_hrid {
                    assert forall|j: int| 0 <= j < skills.len() implies (#[trigger] skills[j]).skill_hrid@ != skill_hrid by {
                        if j < t.len() {
                            assert(t[j] == skills[j]);
                        }
                    }
                }
                if forall|j: int| 0 <= j < skills.len() ==> (#[trigger] skills[j]).skill_hrid@ != skill_hrid {
                    assert forall|j: int| 0 <= j < t.len() implies (#[trigger] t[j]).skill_hrid@ != skill_hrid by {
                        assert(t[j] == skills[j]);
                    }
                }
            }
        } else {
            assert(skills[skills.len() - 1].skill_hrid@ == skill_hrid);
        }
    }
}

/// An action with a requirement is unlocked exactly when the character's last
/// entry for the required skill is at the required level or above; a character
/// with no entry for that skill cannot perform it, and an action without a
/// requirement is always unlocked.
pub proof fn law_unlocked_needs_required_level(
    requirement: Option<LevelRequirement>,
    skills: Seq<CharacterSkill>,
)
    ensures
        requirement is None ==> unlocked(requirement, skills),
        requirement matches Some(r) ==> (unlocked(requirement, skills) <==> exists|i: int|
            #[trigger] last_entry_for(skills, r.skill_hrid@, i) && skills[i].level >= r.level),
        requirement matches Some(r) ==> (forall|j: int|
            0 <= j < skills.len() ==> (#[trigger] skills[j]).skill_hrid@ != r.skill_hrid@)
            ==> !unlocked(requirement, skills),
        requirement matches Some(r) ==> forall|i: int|
            #[trigger] last_entry_for(skills, r.skill_hrid@, i) && skills[i].level < r.level
                ==> !unlocked(requirement, skills),
{
    if let Some(r) = requirement {
        let h = r.skill_hrid@;
        law_skill_level_is_last_entry(skills, h);
        if unlocked(requirement, skills) {
            let l = skill_level_of(skills, h);
            assert(l is Some);
            assert(exists|i: int| #[trigger] last_entry_for(skills, h, i)) by {
                if !(exists|i: int| #[trigger] last_entry_for(skills, h, i)) {
                    lemma_some_level_has_last_entry(skills, h);
                }
            }
            let i = choose|i: int| #[trigger] last_entry_for(skills, h, i);
            assert(skills[i].level >= r.level);
        }
    }
}

proof fn lemma_some_level_has_last_entry(skills: Seq<CharacterSkill>, skill_hrid: Seq<char>)
    requires
        skill_level_of(skills, skill_hrid) is Some,
    ensures
        exists|i: int| #[trigger] last_entry_for(skills, skill_hrid, i),
    decreases skills.len(),
{
    let t = skills.drop_last();
    if skills.last().skill_hrid@ == skill_hrid {
        assert(last_entry_for(skills, skill_hrid, skills.len() - 1));
    } else {
        lemma_some_level_has_last_entry(t, skill_hrid);
        let i = choose|i: int| #[trigger] last_entry_for(t, skill_hrid, i);
        assert(t[i] == skills[i]);
        assert forall|j: int| i < j < skills.len() implies (#[trigger] skills[j]).skill_hrid@ != skill_hrid by {
            if j < t.len() {
                assert(t[j] == skills[j]);
            }
        }
        assert(last_entry_for(skills, skill_hrid, i));
    }
}

/// The levels behind an action's efficiency: the required level (1 without a
/// requirement) and the character's level from its last entry for the
/// required skill, or the required level when it has no such entry.
pub proof fn law_requirement_levels_use_last_entry(
    requirement: Option<LevelRequirement>,
    skills: Seq<CharacterSkill>,
)
    ensures
        requirement is None ==> requirement_levels_of(requirement, skills) == (1u32, 1u32),
        requirement matches Some(r) ==> requirement_levels_of(requirement, skills).0 == r.level,
        requirement matches Some(r) ==> forall|i: int|
            #[trigger] last_entry_for(skills, r.skill_hrid@, i) ==> requirement_levels_of(
                requirement,
                skills,
            ).1 == skills[i].level,
        requirement matches Some(r) ==> (forall|j: int|
            0 <= j < skills.len() ==> (#[trigger] skills[j]).skill_hrid@ != r.skill_hrid@)
            ==> requirement_levels_of(requirement, skills).1 == r.level,
{
    if let Some(r) = requirement {
        law_skill_level_is_last_entry(skills, r.skill_hrid@);
    }
}

/// A drink slot holds an active drink.
pub open spec fn is_active_slot(slot: Option<DrinkSlot>) -> bool {
    slot matches Some(s) && s.is_active
}

/// The market key of the drink in a slot.
pub open spec fn slot_item_key(slot: Option<DrinkSlot>) -> Seq<char> {
    match slot {
        Some(s) => item_key(s.item_hrid@),
        None => Seq::empty(),
    }
}

/// The drinks consumed are exactly the active slots, each once and in slot
/// order, listed by the market key of their item.
pub proof fn law_active_drinks_are_active_slots(slots: Seq<Option<DrinkSlot>>)
    ensures
        active_drinks_of(slots) == slots.filter(|s: Option<DrinkSlot>| is_active_slot(s)).map_values(
            |s: Option<DrinkSlot>| slot_item_key(s),
        ),
        active_drinks_of(slots).len() == slots.filter(|s: Option<DrinkSlot>| is_active_slot(s)).len(),
        forall|i: int|
            0 <= i < slots.len() && is_active_slot(#[trigger] slots[i]) ==> active_drinks_of(
                slots,
            ).contains(slot_item_key(slots[i])),
    decreases slots.len(),
{
    let pred = |s: Option<DrinkSlot>| is_active_slot(s);
    let key = |s: Option<DrinkSlot>| slot_item_key(s);
    if slots.len() == 0 {
        reveal(Seq::filter);
        assert(active_drinks_of(slots) =~= slots.filter(pred).map_values(key));
    } else {
        let t = slots.drop_last();
        law_active_drinks_are_active_slots(t);
        assert(slots =~= t.push(slots.last()));
        t.lemma_filter_push(slots.last(), pred);
        let f = t.filter(pred);
        if pred(slots.last()) {
            assert(f.push(slots.last()).map_values(key) =~= f.map_values(key).push(key(slots.last())));
            assert(active_drinks_of(slots) =~= active_drinks_of(t) + seq![key(slots.last())]);
        } else {
            assert(active_drinks_of(slots) =~= active_drinks_of(t) + Seq::<Seq<char>>::empty());
        }
        let r = active_drinks_of(slots);
        assert forall|i: int|
            0 <= i < slots.len() && is_active_slot(#[trigger] slots[i]) implies r.contains(slot_item_key(slots[i])) by {
            if i < t.len() {
                assert(t[i] == slots[i]);
                assert(is_active_slot(t[i]));
                let j = choose|j: int| 0 <= j < active_drinks_of(t).len() && active_drinks_of(t)[j] == slot_item_key(t[i]);
                assert(r[j] == active_drinks_of(t)[j]);
            } else {
                assert(r[r.len() - 1] == slot_item_key(slots[i]));
            }
        }
    }
}

/// No action type is both a gathering and a production type, so the gathering
/// bonus and the artisan and gourmet bonuses never apply to the same action.
pub proof fn law_gathering_and_production_are_disjoint(action_type: Seq<char>)
    ensures
        !(gathering_action_types().contains(action_type) && production_action_types().contains(
            action_type,
        )),
{
    let g = gathering_action_types();
    let p = production_action_types();
    if g.contains(action_type) && p.contains(action_type) {
        let i = choose|i: int| 0 <= i < g.len() && g[i] == action_type;
        let j = choose|j: int| 0 <= j < p.len() && p[j] == action_type;
        reveal_strlit("/action_types/foraging");
        reveal_strlit("/action_types/woodcutting");
        reveal_strlit("/action_types/milking");
        reveal_strlit("/action_types/brewing");
        reveal_strlit("/action_types/cooking");
        reveal_strlit("/action_types/cheesesmithing");
        reveal_strlit("/action_types/crafting");
        reveal_strlit("/action_types/tailoring");
        assert(g[i][14] != p[j][14] || g[i].len() != p[j].len());
    }
}

} // verus!
