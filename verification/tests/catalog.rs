use kerbal_kalculator::modules::calculator::{
    is_candidate_engine, missing_tech, name_less, resolve_unlocked_tech, sort_by_name, split_list,
    unlocked_fuselage_names, MAX_ENGINES,
};
use kerbal_kalculator::modules::tanks::fuselage_names::{
    AL_FUSELAGE_NAME, AL_LI_STRINGER_TANK_NAME, AL_STRINGER_TANK_NAME, HP_AL_FUSELAGE_NAME,
    HP_AL_LI_STRINGER_TANK_NAME, HP_AL_STRINGER_TANK_NAME, HP_REFINED_AL_LI_STRINGER_TANK_NAME,
    HP_REFINED_AL_STRINGER_TANK_NAME, HP_STEEL_FUSELAGE_NAME, HP_STEEL_STIR_WELDED_TANK_NAME,
    REFINED_AL_LI_STRINGER_TANK_NAME, REFINED_AL_STRINGER_TANK_NAME, STEEL_FUSELAGE_NAME,
    STEEL_STIR_WELDED_TANK_NAME,
};
use kerbal_kalculator::modules::engines::{
    display_name, engine_variants, find_group, group_by_tech_node, ConfigListing, EngineListing, EngineRef,
    TechGroup, TECH_TREE,
};
use kerbal_kalculator::modules::Error;

fn config(init: bool, node: &str) -> ConfigListing {
    ConfigListing { is_initialized: init, tech_tree_node: node.to_string() }
}

fn engine(node: &str, configs: Vec<ConfigListing>) -> EngineListing {
    EngineListing { tech_tree_node: node.to_string(), configurations: configs }
}

fn base(i: usize) -> EngineRef {
    EngineRef { engine: i, config: None }
}

fn conf(i: usize, c: usize) -> EngineRef {
    EngineRef { engine: i, config: Some(c) }
}

fn sample_catalog() -> Vec<EngineListing> {
    vec![
        engine("start", vec![config(true, "Basic Rocketry"), config(true, "start")]),
        engine("Post-War Rocketry Testing", vec![]),
        engine("start", vec![config(false, "Early Rocketry"), config(true, "Early Rocketry")]),
        engine("Early Rocketry", vec![config(true, "Basic Rocketry"), config(false, "Lunar Landing"), config(true, "Lunar Landing")]),
    ]
}

fn group<'a>(groups: &'a [TechGroup], node: &str) -> Option<&'a TechGroup> {
    groups.iter().find(|g| g.node == node)
}

#[test]
fn tech_tree_order() {
    assert_eq!(TECH_TREE.len(), 9);
    assert_eq!(TECH_TREE[0], "start");
    assert_eq!(TECH_TREE[8], "2019-2028 Orbital Rocketry");
}

#[test]
fn variants_in_catalog_order() {
    let vs = engine_variants(&sample_catalog());
    let got: Vec<(&str, EngineRef)> = vs.iter().map(|(n, r)| (n.as_str(), *r)).collect();
    assert_eq!(
        got,
        vec![
            ("start", base(0)),
            ("Basic Rocketry", conf(0, 0)),
            ("start", conf(0, 1)),
            ("Post-War Rocketry Testing", base(1)),
            ("start", base(2)),
            ("Early Rocketry", base(3)),
            ("Basic Rocketry", conf(3, 0)),
        ]
    );
}

#[test]
fn groups_by_node() {
    let groups = group_by_tech_node(&sample_catalog());
    assert_eq!(groups.len(), 4);
    assert_eq!(group(&groups, "start").unwrap().members, vec![base(0), conf(0, 1), base(2)]);
    assert_eq!(group(&groups, "Basic Rocketry").unwrap().members, vec![conf(0, 0), conf(3, 0)]);
    assert_eq!(group(&groups, "Post-War Rocketry Testing").unwrap().members, vec![base(1)]);
    assert_eq!(group(&groups, "Early Rocketry").unwrap().members, vec![base(3)]);
    assert!(group(&groups, "Lunar Landing").is_none());
    assert_eq!(find_group(&groups, &"Early Rocketry".to_string()).map(|j| groups[j].node.clone()), Some("Early Rocketry".to_string()));
    assert_eq!(find_group(&groups, &"Lunar Landing".to_string()), None);
}

#[test]
fn empty_catalog_has_no_groups() {
    assert!(group_by_tech_node(&vec![]).is_empty());
    assert!(engine_variants(&vec![]).is_empty());
}

#[test]
fn split_like_str_split() {
    assert_eq!(split_list("start,Early Rocketry"), vec!["start", "Early Rocketry"]);
    assert_eq!(split_list(""), vec![""]);
    assert_eq!(split_list("a,,b,"), vec!["a", "", "b", ""]);
    assert_eq!(split_list("Steel Fuselage"), vec!["Steel Fuselage"]);
    let text = "start,Post-War Rocketry Testing,ü,";
    assert_eq!(split_list(text), text.split(',').collect::<Vec<_>>());
}

#[test]
fn resolve_in_list_order() {
    let groups = group_by_tech_node(&sample_catalog());
    let r = resolve_unlocked_tech("Basic Rocketry,start", &groups).unwrap();
    assert_eq!(r, vec![conf(0, 0), conf(3, 0), base(0), conf(0, 1), base(2)]);
}

#[test]
fn resolve_repeated_tech_counts_once() {
    let groups = group_by_tech_node(&sample_catalog());
    let once = resolve_unlocked_tech("start", &groups).unwrap();
    let twice = resolve_unlocked_tech("start,start", &groups).unwrap();
    assert_eq!(once, twice);
    assert_eq!(once, vec![base(0), conf(0, 1), base(2)]);
}

#[test]
fn resolve_missing_tech() {
    let groups = group_by_tech_node(&sample_catalog());
    match resolve_unlocked_tech("start,Lunar Landing,Nowhere", &groups) {
        Err(Error::MissingTech(t)) => assert_eq!(t, "Tech 'Lunar Landing' was not found in the engine_tech_map"),
        other => panic!("unexpected {:?}", other),
    }
    match resolve_unlocked_tech("", &groups) {
        Err(e) => assert_eq!(e.message(), "Tech '' was not found in the engine_tech_map"),
        other => panic!("unexpected {:?}", other),
    }
}

#[test]
fn missing_tech_error_text() {
    assert_eq!(missing_tech("X").message(), "Tech 'X' was not found in the engine_tech_map");
}

#[test]
fn error_messages() {
    assert_eq!(Error::MaxWetMassBelowCurrentMass.message(), "Max wet mass is below current mass");
    assert_eq!(Error::InvalidHeight.message(), "Invalid height (NaN or negative)");
    assert_eq!(Error::HeightTooLarge.message(), "Height exceeds limit");
    assert_eq!(Error::HeightOutsideOfNoseconeRange.message(), "Nosecone height is outside of its range");
    assert_eq!(Error::MissingTech("custom".to_string()).message(), "custom");
}

#[test]
fn candidate_engines() {
    assert!(is_candidate_engine(false, false, false));
    assert!(is_candidate_engine(true, true, false));
    assert!(!is_candidate_engine(true, false, false));
    assert!(!is_candidate_engine(false, true, true));
    assert!(!is_candidate_engine(false, false, true));
}

#[test]
fn engine_count_limit() {
    assert_eq!(MAX_ENGINES, 9);
}

#[test]
fn fuselage_names_for_a_request() {
    let names = unlocked_fuselage_names("Steel Fuselage,Al Stringer Tank");
    assert_eq!(
        names,
        vec![
            ("HP Steel Fuselage".to_string(), "Steel Fuselage".to_string()),
            ("HP Al Stringer Tank".to_string(), "Al Stringer Tank".to_string()),
        ]
    );
}

#[test]
fn engine_display_names() {
    assert_eq!(display_name("RD-102", ""), "RD-102");
    assert_eq!(display_name("RD-102", "RD-100"), "RD-100: RD-102");
}

#[test]
fn name_order_is_str_order() {
    let names = ["", "A", "Al", "Al Fuselage", "Al-Li Stringer Tank", "B", "Steel", "a", "é", "Ω"];
    for a in names {
        for b in names {
            assert_eq!(name_less(a, b), a < b, "{:?} < {:?}", a, b);
        }
    }
}

#[test]
fn fuselages_sorted_by_name() {
    let pairs = unlocked_fuselage_names("Steel Fuselage,Al Stringer Tank,Al Fuselage,Al Stringer Tank");
    let sorted = sort_by_name(&pairs);
    let plain: Vec<&str> = sorted.iter().map(|p| p.1.as_str()).collect();
    assert_eq!(plain, vec!["Al Fuselage", "Al Stringer Tank", "Al Stringer Tank", "Steel Fuselage"]);
    let hp: Vec<&str> = sorted.iter().map(|p| p.0.as_str()).collect();
    assert_eq!(hp, vec!["HP Al Fuselage", "HP Al Stringer Tank", "HP Al Stringer Tank", "HP Steel Fuselage"]);
    assert!(sort_by_name(&vec![]).is_empty());
}

#[test]
fn fuselage_retrieval() {
    let known_hp = [
        HP_STEEL_FUSELAGE_NAME,
        HP_AL_FUSELAGE_NAME,
        HP_AL_STRINGER_TANK_NAME,
        HP_REFINED_AL_STRINGER_TANK_NAME,
        HP_AL_LI_STRINGER_TANK_NAME,
        HP_REFINED_AL_LI_STRINGER_TANK_NAME,
        HP_STEEL_STIR_WELDED_TANK_NAME,
    ];
    let known = [
        STEEL_FUSELAGE_NAME,
        AL_FUSELAGE_NAME,
        AL_STRINGER_TANK_NAME,
        REFINED_AL_STRINGER_TANK_NAME,
        AL_LI_STRINGER_TANK_NAME,
        REFINED_AL_LI_STRINGER_TANK_NAME,
        STEEL_STIR_WELDED_TANK_NAME,
    ];
    let unlocked = sort_by_name(&unlocked_fuselage_names("Steel Fuselage,Al Stringer Tank"));
    for (hp, plain) in &unlocked {
        assert!(known_hp.contains(&hp.as_str()), "fuselage not found: '{}'", plain);
        assert!(known.contains(&plain.as_str()), "fuselage not found");
    }
    assert_eq!(unlocked.len(), 2);
    assert_eq!(unlocked[0].1, AL_STRINGER_TANK_NAME);
    assert_eq!(unlocked[1].1, STEEL_FUSELAGE_NAME);
}

#[test]
fn sort_keeps_order_of_equal_names() {
    let pairs: Vec<(String, String)> = vec![
        ("first".to_string(), "B".to_string()),
        ("second".to_string(), "A".to_string()),
        ("third".to_string(), "B".to_string()),
        ("fourth".to_string(), "A".to_string()),
        ("fifth".to_string(), "B".to_string()),
    ];
    let sorted = sort_by_name(&pairs);
    let firsts: Vec<&str> = sorted.iter().map(|p| p.0.as_str()).collect();
    assert_eq!(firsts, vec!["second", "fourth", "first", "third", "fifth"]);
}
