use mwi_planner::money_actions::{
    active_drink_items, is_gathering_action_type, is_production_action_type, is_supported_action_type, is_unlocked,
    requirement_levels, skill_level, CharacterSkill, DrinkSlot, LevelRequirement,
};

fn skill(hrid: &str, level: u32) -> CharacterSkill {
    CharacterSkill { skill_hrid: hrid.to_string(), level }
}

fn requirement(hrid: &str, level: u32) -> Option<LevelRequirement> {
    Some(LevelRequirement { skill_hrid: hrid.to_string(), level })
}

#[test]
fn only_gathering_and_production_types_are_supported() {
    for action_type in ["/action_types/foraging", "/action_types/woodcutting", "/action_types/milking"] {
        assert!(is_gathering_action_type(action_type));
        assert!(!is_production_action_type(action_type));
        assert!(is_supported_action_type(action_type));
    }
    for action_type in [
        "/action_types/brewing",
        "/action_types/cooking",
        "/action_types/cheesesmithing",
        "/action_types/crafting",
        "/action_types/tailoring",
    ] {
        assert!(is_production_action_type(action_type));
        assert!(!is_gathering_action_type(action_type));
        assert!(is_supported_action_type(action_type));
    }
    for action_type in ["/action_types/combat", "/action_types/enhancing", "", "/action_types/cooking "] {
        assert!(!is_supported_action_type(action_type));
    }
}

#[test]
fn unlocking_compares_the_required_skill_level() {
    let skills = vec![skill("/skills/foraging", 10)];
    assert!(is_unlocked(&requirement("/skills/foraging", 1), &skills));
    assert!(is_unlocked(&requirement("/skills/foraging", 10), &skills));
    assert!(!is_unlocked(&requirement("/skills/foraging", 99), &skills));
    assert!(!is_unlocked(&requirement("/skills/cooking", 1), &skills));
    assert!(is_unlocked(&None, &skills));
    assert!(is_unlocked(&None, &Vec::new()));
}

#[test]
fn the_last_entry_for_a_skill_counts() {
    let skills = vec![skill("/skills/cooking", 3), skill("/skills/milking", 8), skill("/skills/cooking", 20)];
    assert_eq!(skill_level(&skills, "/skills/cooking"), Some(20));
    assert_eq!(skill_level(&skills, "/skills/milking"), Some(8));
    assert_eq!(skill_level(&skills, "/skills/brewing"), None);
}

#[test]
fn requirement_levels_fall_back_to_the_requirement() {
    let skills = vec![skill("/skills/foraging", 10)];
    assert_eq!(requirement_levels(&requirement("/skills/foraging", 1), &skills), (1, 10));
    assert_eq!(requirement_levels(&requirement("/skills/cooking", 5), &skills), (5, 5));
    assert_eq!(requirement_levels(&None, &skills), (1, 1));
}

#[test]
fn only_active_drinks_are_consumed() {
    let slots = vec![
        Some(DrinkSlot { item_hrid: "/items/efficiency_tea".to_string(), is_active: true }),
        None,
        Some(DrinkSlot { item_hrid: "/items/gathering_tea".to_string(), is_active: false }),
        Some(DrinkSlot { item_hrid: "coffee".to_string(), is_active: true }),
    ];
    assert_eq!(active_drink_items(&slots), vec!["efficiency_tea".to_string(), "coffee".to_string()]);
    assert!(active_drink_items(&Vec::new()).is_empty());
}
