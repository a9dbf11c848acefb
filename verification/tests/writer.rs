use focusflow::cost::Cost;
use focusflow::model::{FocusNode, FocusTree, Shortcut};
use focusflow::parser::parse_focus_file;
use focusflow::writer::{generate_diff, write_block, write_focus_tree, write_single_focus};

fn node(id: &str) -> FocusNode {
    FocusNode {
        id: id.to_string(),
        icon: None,
        x: 0,
        y: 0,
        relative_position_id: None,
        cost: Some(Cost::whole(5)),
        prerequisites: vec![],
        mutually_exclusive: vec![],
        bypass_if_unavailable: false,
        available_raw: None,
        completion_reward_raw: None,
        immediate_raw: None,
        ai_will_do_raw: None,
        search_filters: vec![],
        bypass_raw: None,
    }
}

#[test]
fn test_write_focus() {
    let focus = FocusNode {
        id: "TEST_example".to_string(),
        icon: Some("generic_industry".to_string()),
        x: 5,
        y: 2,
        relative_position_id: Some("TEST_parent".to_string()),
        cost: Some(Cost::whole(5)),
        prerequisites: vec!["TEST_parent".to_string()],
        mutually_exclusive: vec![],
        bypass_if_unavailable: false,
        available_raw: None,
        completion_reward_raw: None,
        immediate_raw: None,
        ai_will_do_raw: Some("{\n\t\t\tbase = 10\n\t\t}".to_string()),
        search_filters: vec!["FOCUS_FILTER_INDUSTRY".to_string()],
        bypass_raw: None,
    };

    let output = write_single_focus(&focus);
    assert!(output.contains("id = TEST_example"));
    assert!(output.contains("icon = generic_industry"));
    assert!(output.contains("x = 5"));
    assert!(output.contains("prerequisite = { focus = TEST_parent }"));
}

#[test]
fn test_diff_generation() {
    let old = FocusTree {
        id: "test".to_string(),
        shortcuts: vec![],
        modified: false,
        focuses: vec![node("A")],
    };
    let mut a = node("A");
    a.icon = Some("new_icon".to_string());
    a.x = 5;
    let new = FocusTree {
        id: "test".to_string(),
        shortcuts: vec![],
        modified: false,
        focuses: vec![a, node("B")],
    };
    let diff = generate_diff(&old, &new);
    assert!(diff.contains("Added"));
    assert!(diff.contains("Modified"));
}

#[test]
fn single_focus_exact_text() {
    let mut f = node("T_x");
    f.icon = Some("gfx".to_string());
    f.x = -3;
    f.y = 7;
    f.cost = Cost::new(false, 37, 1);
    f.prerequisites = vec!["T_a".to_string(), "T_b".to_string()];
    f.mutually_exclusive = vec!["T_c".to_string()];
    f.bypass_if_unavailable = true;
    f.search_filters = vec!["F_ONE".to_string(), "F_TWO".to_string()];
    f.completion_reward_raw = Some("{\n  add = 1\n    more = 2\n}".to_string());
    let expected = "\tfocus = {\n\t\tid = T_x\n\t\ticon = gfx\n\t\tx = -3\n\t\ty = 7\n\t\tcost = 3.7\n\t\tprerequisite = { focus = T_a }\n\t\tprerequisite = { focus = T_b }\n\t\tmutually_exclusive = { focus = T_c }\n\t\tbypass_if_unavailable = yes\n\t\tsearch_filters = { F_ONE F_TWO }\n\t\tcompletion_reward = {\n\t\t\t\n\t\t\tadd = 1\n\t\t\tmore = 2\n\t\t}\n\t}\n";
    assert_eq!(write_single_focus(&f), expected);
}

#[test]
fn whole_cost_is_written_without_fraction() {
    let f = node("T_y");
    let out = write_single_focus(&f);
    assert!(out.contains("\t\tcost = 5\n"));
    let mut g = node("T_z");
    g.cost = Cost::new(false, 250, 2);
    assert!(write_single_focus(&g).contains("\t\tcost = 2.5\n"));
    g.search_filters = vec!["ONLY".to_string()];
    assert!(write_single_focus(&g).contains("\t\tsearch_filters = { ONLY }\n"));
}

#[test]
fn write_block_strips_outer_braces() {
    let mut out = String::from("x");
    write_block(&mut out, "available", &Some("  { has_war = yes }  ".to_string()));
    assert_eq!(out, "x\t\tavailable = {\n\t\t\thas_war = yes\n\t\t}\n");
    let mut none = String::new();
    write_block(&mut none, "available", &None);
    assert_eq!(none, "");
    let mut plain = String::new();
    write_block(&mut plain, "bypass", &Some("a\nb".to_string()));
    assert_eq!(plain, "\t\tbypass = {\n\t\t\ta\n\t\t\tb\n\t\t}\n");
}

#[test]
fn tree_exact_text_and_braces_balanced() {
    let tree = FocusTree {
        id: "t".to_string(),
        shortcuts: vec![Shortcut { name: "S".to_string(), target: "T_a".to_string() }],
        focuses: vec![node("T_a"), node("T_b")],
        modified: true,
    };
    let out = write_focus_tree(&tree);
    let expected = "focus_tree = {\n\tid = t\n\n\tshortcut = {\n\t\tname = S\n\t\ttarget = T_a\n\t\tscroll_wheel_factor = 0.80\n\t}\n\n\tfocus = {\n\t\tid = T_a\n\t\tx = 0\n\t\ty = 0\n\t\tcost = 5\n\t}\n\n\tfocus = {\n\t\tid = T_b\n\t\tx = 0\n\t\ty = 0\n\t\tcost = 5\n\t}\n}\n";
    assert_eq!(out, expected);
    let open = out.chars().filter(|&c| c == '{').count();
    let close = out.chars().filter(|&c| c == '}').count();
    assert_eq!(open, close);
}

#[test]
fn written_tree_reads_back() {
    let mut a = node("T_a");
    a.icon = Some("gfx_a".to_string());
    a.x = -4;
    a.y = 9;
    a.cost = Cost::new(false, 37, 1);
    a.search_filters = vec!["FOCUS_FILTER_POLITICAL".to_string()];
    a.completion_reward_raw = Some("{\n\t\t\tadd_political_power = 50\n\t\t}".to_string());
    let mut b = node("T_b");
    b.prerequisites = vec!["T_a".to_string()];
    b.cost = None;
    let tree = FocusTree { id: "round".to_string(), shortcuts: vec![], focuses: vec![a, b], modified: true };
    let back = parse_focus_file(&write_focus_tree(&tree)).unwrap();
    assert_eq!(back.id, "round");
    assert_eq!(back.focuses.len(), 2);
    for (f1, f2) in tree.focuses.iter().zip(back.focuses.iter()) {
        assert_eq!(f1.id, f2.id);
        assert_eq!(f1.x, f2.x);
        assert_eq!(f1.y, f2.y);
        assert_eq!(f1.cost, f2.cost);
        assert_eq!(f1.icon, f2.icon);
        assert_eq!(f1.prerequisites, f2.prerequisites);
        assert_eq!(f1.search_filters, f2.search_filters);
        assert_eq!(f1.completion_reward_raw, f2.completion_reward_raw);
    }
}

#[test]
fn diff_of_identical_trees_reports_no_changes() {
    let t = FocusTree { id: "t".to_string(), shortcuts: vec![], focuses: vec![node("A"), node("B")], modified: false };
    assert_eq!(generate_diff(&t, &t), "No changes detected");
}

#[test]
fn diff_lists_added_removed_and_changes() {
    let old = FocusTree { id: "t".to_string(), shortcuts: vec![], focuses: vec![node("A"), node("B")], modified: false };
    let mut a = node("A");
    a.cost = Some(Cost::whole(7));
    a.prerequisites = vec!["C".to_string()];
    let new = FocusTree { id: "t".to_string(), shortcuts: vec![], focuses: vec![a, node("C")], modified: false };
    let expected = "➕ Added 1 focus(es):\n  + C\n\n➖ Removed 1 focus(es):\n  - B\n\n✏️ Modified: A\n   • cost changed\n   • prerequisites changed\n";
    assert_eq!(generate_diff(&old, &new), expected);
}
