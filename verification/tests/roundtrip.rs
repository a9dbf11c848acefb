use focusflow::parser::{extract_block_as_text, parse_focus_file};
use focusflow::model::{FocusTree, Shortcut};
use focusflow::writer::{write_block, write_focus_tree};

const FILE: &str = "focus_tree = {\n\tid = ven_tree\n\tfocus = {\n\t\tid = VEN_a\n\t\ticon = GFX_a\n\t\tx = 1\n\t\ty = 2\n\t\tcost = 5\n\t\tsearch_filters = { FOCUS_FILTER_POLITICAL }\n\t\tcompletion_reward = {\n\t\t\tlog = \"[Root.GetName]: VEN_a\" # reward\n\t\t\tcountry_event = {\n\t\t\t\tid = ven.1\n\t\t\t\tdays = 3\n\t\t\t}\n\t\t\tadd_political_power = 150\n\t\t}\n\t\tai_will_do = { base = 25 }\n\t}\n\tfocus = {\n\t\tid = VEN_b\n\t\tx = 2\n\t\ty = 3\n\t\tprerequisite = { focus = VEN_a }\n\t\tavailable = {\n\t\t\thas_war = no # not at war\n\t\t}\n\t}\n}\n";

fn count(s: &str, c: char) -> usize {
    s.chars().filter(|&x| x == c).count()
}

#[test]
fn parsed_tree_with_raw_blocks_reads_back() {
    let tree1 = parse_focus_file(FILE).unwrap();
    assert_eq!(tree1.focuses.len(), 2);
    let out = write_focus_tree(&tree1);
    let tree2 = parse_focus_file(&out).unwrap();
    assert_eq!(tree2.id, "ven_tree");
    assert_eq!(tree1.focuses.len(), tree2.focuses.len());
    for (f1, f2) in tree1.focuses.iter().zip(tree2.focuses.iter()) {
        assert_eq!(f1.id, f2.id);
        assert_eq!(f1.icon, f2.icon);
        assert_eq!(f1.x, f2.x);
        assert_eq!(f1.y, f2.y);
        assert_eq!(f1.cost, f2.cost);
        assert_eq!(f1.prerequisites, f2.prerequisites);
        assert_eq!(f1.mutually_exclusive, f2.mutually_exclusive);
        assert_eq!(f1.search_filters, f2.search_filters);
        assert_eq!(f1.bypass_if_unavailable, f2.bypass_if_unavailable);
        assert_eq!(f1.available_raw.is_some(), f2.available_raw.is_some());
        assert_eq!(f1.completion_reward_raw.is_some(), f2.completion_reward_raw.is_some());
        assert_eq!(f1.ai_will_do_raw.is_some(), f2.ai_will_do_raw.is_some());
    }
}

#[test]
fn raw_block_reads_back_as_its_written_lines() {
    let tree1 = parse_focus_file(FILE).unwrap();
    let tree2 = parse_focus_file(&write_focus_tree(&tree1)).unwrap();
    let reward = tree2.focuses[0].completion_reward_raw.clone().unwrap();
    assert_eq!(
        reward,
        "{\n\t\t\tlog = \"[Root.GetName]: VEN_a\" # reward\n\t\t\tcountry_event = {\n\t\t\tid = ven.1\n\t\t\tdays = 3\n\t\t\t}\n\t\t\tadd_political_power = 150\n\t\t}"
    );
    assert_eq!(tree2.focuses[0].ai_will_do_raw, Some("{\n\t\t\tbase = 25\n\t\t}".to_string()));
    assert_eq!(
        tree2.focuses[1].available_raw,
        Some("{\n\t\t\thas_war = no # not at war\n\t\t}".to_string())
    );
}

#[test]
fn writing_a_read_back_tree_gives_the_same_text() {
    let tree1 = parse_focus_file(FILE).unwrap();
    let out1 = write_focus_tree(&tree1);
    let tree2 = parse_focus_file(&out1).unwrap();
    let out2 = write_focus_tree(&tree2);
    assert_eq!(out1, out2);
}

#[test]
fn written_tree_with_raw_blocks_has_balanced_braces() {
    let tree = parse_focus_file(FILE).unwrap();
    let out = write_focus_tree(&tree);
    assert_eq!(count(&out, '{'), count(&out, '}'));
    for focus in &tree.focuses {
        assert!(out.contains(&format!("id = {}", focus.id)));
    }
}

#[test]
fn values_with_comments_and_strings_read_back() {
    let file = "focus_tree = {\n\tid = tree_x # the tree\n\tfocus = {\n\t\tid = VEN_c # first\n\t\ticon = \"GFX_c\"\n\t\trelative_position_id = VEN_a \"x\" y\n\t\tx = 0\n\t\ty = 0\n\t}\n}\n";
    let tree1 = parse_focus_file(file).unwrap();
    assert_eq!(tree1.id, "tree_x # the tree");
    assert_eq!(tree1.focuses[0].id, "VEN_c # first");
    assert_eq!(tree1.focuses[0].icon, Some("GFX_c".to_string()));
    assert_eq!(tree1.focuses[0].relative_position_id, Some("VEN_a \"x\" y".to_string()));
    let tree2 = parse_focus_file(&write_focus_tree(&tree1)).unwrap();
    assert_eq!(tree2.id, tree1.id);
    assert_eq!(tree2.focuses[0].id, tree1.focuses[0].id);
    assert_eq!(tree2.focuses[0].icon, tree1.focuses[0].icon);
    assert_eq!(tree2.focuses[0].relative_position_id, tree1.focuses[0].relative_position_id);
}

#[test]
fn shortcuts_read_back() {
    let mut tree = parse_focus_file(FILE).unwrap();
    tree.shortcuts = vec![
        Shortcut { name: "FOCUS_SHORTCUT_A".to_string(), target: "VEN_a".to_string() },
        Shortcut { name: "B # second".to_string(), target: "VEN_b".to_string() },
    ];
    let back: FocusTree = parse_focus_file(&write_focus_tree(&tree)).unwrap();
    assert_eq!(back.shortcuts.len(), 2);
    assert_eq!(back.shortcuts[0].name, "FOCUS_SHORTCUT_A");
    assert_eq!(back.shortcuts[0].target, "VEN_a");
    assert_eq!(back.shortcuts[1].name, "B # second");
    assert_eq!(back.shortcuts[1].target, "VEN_b");
    assert_eq!(back.focuses.len(), 2);
}

#[test]
fn written_block_in_written_form_reads_back_unchanged() {
    let block = "{\n\t\t\tif = { limit = { has_war = yes }\n\t\t\tadd_stability = 0.05\n\t\t\t}\n\t\t\tadd_political_power = 120\n\t\t}".to_string();
    let mut out = String::new();
    write_block(&mut out, "completion_reward", &Some(block.clone()));
    assert_eq!(extract_block_as_text(&out, "completion_reward"), Some(block));
}

#[test]
fn written_block_reads_back_reindented() {
    let mut out = String::new();
    write_block(&mut out, "some_key", &Some("{ add_stability = 0.1\n    add_war_support = 0.05 }".to_string()));
    assert_eq!(
        extract_block_as_text(&out, "some_key"),
        Some("{\n\t\t\tadd_stability = 0.1\n\t\t\tadd_war_support = 0.05\n\t\t}".to_string())
    );
}

#[test]
fn written_block_under_any_plain_key_reads_back() {
    let block = "{\n\t\t\tbase = 3\n\t\t}".to_string();
    let mut out = String::new();
    write_block(&mut out, "Custom.Key2", &Some(block.clone()));
    assert_eq!(extract_block_as_text(&out, "Custom.Key2"), Some(block));
}
