use focusflow::cost::Cost;
use focusflow::model::{position_chain, position_parent_index, Category, FocusNode, FocusTree, ValidationError, ValidationResult};
use focusflow::validate::validate_tree;

fn node(id: &str) -> FocusNode {
    FocusNode {
        id: id.to_string(),
        icon: None,
        x: 0,
        y: 0,
        relative_position_id: None,
        cost: Some(Cost::whole(5)),
        prerequisites: vec![],
        mutually_exclusive: vec![],
        bypass_if_unavailable: false,
        available_raw: None,
        completion_reward_raw: None,
        immediate_raw: None,
        ai_will_do_raw: None,
        search_filters: vec![],
        bypass_raw: None,
    }
}

fn tree(focuses: Vec<FocusNode>) -> FocusTree {
    FocusTree { id: "t".to_string(), shortcuts: vec![], focuses, modified: false }
}

fn messages(v: &[ValidationError]) -> Vec<String> {
    v.iter().map(|e| e.message()).collect()
}

#[test]
fn display_name_strips_the_tag() {
    assert_eq!(node("VEN_reap_the_fruits").display_name(), "reap_the_fruits");
    assert_eq!(node("COL_other").display_name(), "other");
    assert_eq!(node("BRA_big_plan").display_name(), "big_plan");
    assert_eq!(node("VEN_").display_name(), "");
    assert_eq!(node("_lead").display_name(), "_lead");
    assert_eq!(node("plain").display_name(), "plain");
}

#[test]
fn category_follows_the_first_naming_filter() {
    let mut f = node("A_a");
    assert_eq!(f.category(), "Other");
    assert_eq!(f.category_icon(), "📋");
    f.search_filters = vec!["FOCUS_FILTER_STABILITY".to_string(), "FOCUS_FILTER_ARMY_XP".to_string()];
    assert_eq!(f.category(), "Military");
    assert_eq!(f.category_kind(), Category::Military);
    f.search_filters = vec!["FOCUS_FILTER_RESEARCH".to_string(), "FOCUS_FILTER_INDUSTRY".to_string()];
    assert_eq!(f.category(), "Research");
    assert_eq!(f.category_icon(), "🔬");
    f.search_filters = vec!["FOCUS_FILTER_ECONOMY".to_string()];
    assert_eq!(f.category(), "Industry");
    f.search_filters = vec!["FOCUS_FILTER_AIR_XP".to_string()];
    assert_eq!(f.category(), "Military");
    f.search_filters = vec!["FOCUS_FILTER_POLITICAL".to_string()];
    assert_eq!(f.category_icon(), "🏛️");
    f.search_filters = vec!["FOCUS_FILTER_FOREIGN".to_string()];
    assert_eq!(f.category(), "Foreign");
    assert_eq!(f.category_icon(), "🌍");
}

#[test]
fn validation_of_a_clean_tree() {
    let mut b = node("TS_b");
    b.prerequisites = vec!["TS_a".to_string()];
    let r = validate_tree(&tree(vec![node("TS_a"), b]));
    assert!(r.is_ok());
    assert_eq!(r.total_issues(), 0);
}

#[test]
fn validation_reports_each_kind_of_error() {
    let mut a = node("TS_a");
    a.prerequisites = vec!["T_missing".to_string()];
    a.mutually_exclusive = vec!["T_gone".to_string()];
    let mut bad = node("ab");
    bad.cost = Cost::new(false, 5, 2);
    bad.x = 51;
    bad.y = -11;
    let r = validate_tree(&tree(vec![a, node("TS_a"), bad]));
    assert!(!r.is_ok());
    assert_eq!(
        messages(&r.errors),
        vec![
            "Duplicate ID: 'TS_a'",
            "Missing prerequisite: 'T_missing'",
            "Missing mutually exclusive: 'T_gone'",
            "Invalid ID format: 'ab' should contain '_'",
            "Unusual cost 0.05 (normal 0.1-100)",
            "Position (51, -11) out of bounds",
        ]
    );
    assert!(r.warnings.is_empty());
}

#[test]
fn validation_warns_about_unusual_costs() {
    let mut cheap = node("T_cheap");
    cheap.cost = Cost::new(false, 5, 1);
    let mut dear = node("T_dear");
    dear.cost = Some(Cost::whole(60));
    let mut edge = node("T_edge");
    edge.cost = Cost::new(false, 1, 1);
    let mut top = node("T_top");
    top.cost = Some(Cost::whole(100));
    let r = validate_tree(&tree(vec![cheap, dear, edge, top]));
    assert!(r.is_ok());
    assert_eq!(
        messages(&r.warnings),
        vec![
            "Unusual cost 0.5 (normal 1-50)",
            "Unusual cost 60 (normal 1-50)",
            "Unusual cost 0.1 (normal 1-50)",
            "Unusual cost 100 (normal 1-50)",
        ]
    );
    assert_eq!(r.total_issues(), 4);
}

#[test]
fn short_id_with_underscore_is_invalid() {
    let r = validate_tree(&tree(vec![node("A_b")]));
    assert_eq!(messages(&r.errors), vec!["Invalid ID format: 'A_b' should contain '_'"]);
}

#[test]
fn other_messages() {
    assert_eq!(ValidationError::MissingAiWillDo("X".to_string()).message(), "Focus 'X' missing ai_will_do");
    assert_eq!(ValidationError::Warning("careful".to_string()).message(), "Warning: careful");
    let r = ValidationResult { errors: vec![], warnings: vec![ValidationError::Warning("w".to_string())] };
    assert!(r.is_ok());
    assert_eq!(r.total_issues(), 1);
}

#[test]
fn cost_values() {
    assert_eq!(Cost::new(false, 50, 1), Some(Cost::whole(5)));
    assert_eq!(Cost::new(true, 0, 3), Some(Cost::whole(0)));
    assert_eq!(Cost::new(false, 1, 30), None);
    assert!(Cost::new(false, 5, 2).unwrap().is_below(1, 10));
    assert!(!Cost::whole(100).is_above(100, 1));
    assert!(Cost::whole(101).is_above(100, 1));
    assert!(Cost::whole(3).same(&Cost::new(false, 300, 2).unwrap()));
}

fn relative(id: &str, parent: &str) -> FocusNode {
    let mut f = node(id);
    f.relative_position_id = Some(parent.to_string());
    f
}

#[test]
fn position_chain_follows_relative_positions() {
    let t = tree(vec![
        node("VEN_root"),
        relative("VEN_mid", "VEN_root"),
        relative("VEN_leaf", "VEN_mid"),
        relative("VEN_lost", "VEN_missing"),
    ]);
    assert_eq!(position_chain(&t, 0), Some(vec![0]));
    assert_eq!(position_chain(&t, 2), Some(vec![2, 1, 0]));
    assert_eq!(position_chain(&t, 3), Some(vec![3]));
    assert_eq!(position_parent_index(&t, 2), Some(1));
    assert_eq!(position_parent_index(&t, 3), None);
}

#[test]
fn position_chain_takes_the_first_focus_with_the_id() {
    let t = tree(vec![relative("VEN_a", "VEN_b"), node("VEN_b"), node("VEN_b")]);
    assert_eq!(position_chain(&t, 0), Some(vec![0, 1]));
}

#[test]
fn position_chain_in_a_cycle_is_none() {
    let t = tree(vec![relative("VEN_a", "VEN_b"), relative("VEN_b", "VEN_a"), relative("VEN_c", "VEN_c")]);
    assert_eq!(position_chain(&t, 0), None);
    assert_eq!(position_chain(&t, 2), None);
}
