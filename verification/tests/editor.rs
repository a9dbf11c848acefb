use focusflow::cost::Cost;
use focusflow::editor::{
    AppView, FocusFlowApp, KeyCommand, KeyPresses, ai_will_do_text, completion_reward_text,
    join_id_list, key_commands, optional_text, split_id_list, text_or_empty,
};
use focusflow::model::{FocusNode, FocusTree};
use focusflow::parser::ParseError;

const FILE: &str = "focus_tree = {\n\tid = venezuela_focus\n\tfocus = {\n\t\tid = VEN_reap_the_fruits\n\t\tx = 1\n\t\tsearch_filters = { FOCUS_FILTER_POLITICAL }\n\t}\n\tfocus = {\n\t\tid = VEN_industry_push\n\t\tx = 2\n\t\tsearch_filters = { FOCUS_FILTER_INDUSTRY }\n\t}\n\tfocus = {\n\t\tid = VEN_army_reform\n\t\tsearch_filters = { FOCUS_FILTER_ARMY_XP }\n\t}\n\tfocus = {\n\t\tid = VEN_second_reform\n\t\tsearch_filters = { FOCUS_FILTER_POLITICAL }\n\t}\n}\n";

fn loaded() -> FocusFlowApp {
    let mut app = FocusFlowApp::new();
    app.load_content("venezuela.txt", FILE);
    app
}

fn ids(app: &FocusFlowApp) -> Vec<String> {
    app.tree.as_ref().unwrap().focuses.iter().map(|f| f.id.clone()).collect()
}

#[test]
fn new_editor_is_empty() {
    let app = FocusFlowApp::new();
    assert!(app.tree.is_none());
    assert_eq!(app.status_message, "FocusFlow — HOI4 Focus Tree Editor");
    assert_eq!(app.view_mode, AppView::List);
    assert!(app.filtered_focuses().is_empty());
    assert!(app.category_counts().is_empty());
    assert!(app.save_output().is_none());
}

#[test]
fn loading_sets_tree_and_status() {
    let app = loaded();
    assert_eq!(app.status_message, "✅ Loaded: venezuela_focus — 4 focuses");
    assert_eq!(app.file_path, Some("venezuela.txt".to_string()));
    assert_eq!(app.file_path_input, "venezuela.txt");
    assert_eq!(app.original_tree.as_ref().unwrap().focuses.len(), 4);
    assert!(app.undo_stack.is_empty());
}

#[test]
fn loading_a_bad_file_only_sets_status() {
    let mut app = FocusFlowApp::new();
    app.load_content("x.txt", "no tree");
    assert_eq!(app.status_message, "❌ Parse error: No 'focus_tree' found in file");
    assert!(app.tree.is_none());
    app.load_parsed("y.txt", Err(ParseError::NoFocusNodes));
    assert_eq!(app.status_message, "❌ Parse error: No focus nodes found");
    app.report_file_error("not found");
    assert_eq!(app.status_message, "❌ File error: not found");
}

#[test]
fn search_is_case_insensitive() {
    let mut app = loaded();
    app.search_filter = "REFORM".to_string();
    assert_eq!(app.filtered_focuses(), vec![2, 3]);
    app.search_filter = "ven_industry".to_string();
    assert_eq!(app.filtered_focuses(), vec![1]);
    app.search_filter = String::new();
    app.category_filter = "Political".to_string();
    assert_eq!(app.filtered_focuses(), vec![0, 3]);
    app.category_filter = "All".to_string();
    assert_eq!(app.filtered_focuses(), vec![0, 1, 2, 3]);
    app.search_filter = "second".to_string();
    app.category_filter = "Military".to_string();
    assert!(app.filtered_focuses().is_empty());
}

#[test]
fn category_counts_largest_first() {
    let app = loaded();
    let counts = app.category_counts();
    assert_eq!(counts.len(), 3);
    assert_eq!(counts[0], ("Political".to_string(), 2));
    let mut rest: Vec<(String, usize)> = counts[1..].to_vec();
    rest.sort();
    assert_eq!(rest, vec![("Industry".to_string(), 1), ("Military".to_string(), 1)]);
}

#[test]
fn validation_updates_status() {
    let mut app = loaded();
    app.run_validation();
    assert!(app.show_validation);
    assert_eq!(app.status_message, "Validation: 0 errors, 0 warnings");
    assert!(app.validation.as_ref().unwrap().is_ok());
}

#[test]
fn new_focus_is_created_and_undone() {
    let mut app = loaded();
    app.create_new_focus();
    assert!(app.creating_new && app.show_editor);
    let f = app.editing_focus.as_ref().unwrap();
    assert_eq!(f.id, "VEN_new_focus_5");
    assert_eq!(f.cost, Some(Cost::whole(5)));
    assert_eq!(f.icon, Some("generic_industry".to_string()));
    assert_eq!(f.search_filters, vec!["FOCUS_FILTER_POLITICAL"]);
    app.save_edited_focus();
    assert_eq!(app.status_message, "✅ Created new focus: VEN_new_focus_5");
    assert_eq!(ids(&app).len(), 5);
    assert!(app.tree.as_ref().unwrap().modified);
    assert!(!app.show_editor && app.editing_focus.is_none());
    assert_eq!(app.undo_stack.len(), 2);
    app.undo();
    assert_eq!(app.status_message, "↩️ Undo");
    assert_eq!(ids(&app).len(), 4);
    app.redo();
    assert_eq!(app.status_message, "↩️ Redo");
    assert_eq!(ids(&app).len(), 5);
}

#[test]
fn edit_duplicate_and_delete() {
    let mut app = loaded();
    app.selected_focus_idx = Some(1);
    app.open_editor();
    assert!(!app.creating_new && app.show_editor);
    app.editing_focus.as_mut().unwrap().x = 9;
    app.save_edited_focus();
    assert_eq!(app.status_message, "✅ Updated focus: VEN_industry_push");
    assert_eq!(app.tree.as_ref().unwrap().focuses[1].x, 9);

    app.duplicate_selected_focus();
    assert_eq!(app.status_message, "📋 Duplicated: VEN_industry_push_copy");
    let copy: &FocusNode = &app.tree.as_ref().unwrap().focuses[4];
    assert_eq!(copy.id, "VEN_industry_push_copy");
    assert_eq!(copy.x, 10);

    app.delete_selected_focus();
    assert_eq!(app.status_message, "🗑️ Deleted focus: VEN_industry_push");
    assert_eq!(app.selected_focus_idx, None);
    assert_eq!(
        ids(&app),
        vec!["VEN_reap_the_fruits", "VEN_army_reform", "VEN_second_reform", "VEN_industry_push_copy"]
    );
    app.undo();
    assert_eq!(ids(&app).len(), 5);
    assert_eq!(app.redo_stack.len(), 1);
    app.delete_selected_focus();
    assert_eq!(ids(&app).len(), 5);
}

#[test]
fn history_keeps_at_most_fifty_trees() {
    let mut app = loaded();
    for _ in 0..60 {
        app.save_undo();
    }
    assert_eq!(app.undo_stack.len(), 50);
    app.undo();
    app.undo();
    assert_eq!(app.undo_stack.len() + app.redo_stack.len(), 50);
    app.save_undo();
    assert!(app.redo_stack.is_empty());
}

#[test]
fn saving_marks_the_tree_unmodified() {
    let mut app = loaded();
    app.selected_focus_idx = Some(0);
    app.duplicate_selected_focus();
    let out = app.save_output().unwrap();
    assert!(out.starts_with("focus_tree = {\n\tid = venezuela_focus\n"));
    assert!(out.contains("VEN_reap_the_fruits_copy"));
    app.mark_saved();
    assert_eq!(app.status_message, "✅ Saved: venezuela.txt (backup created)");
    assert!(!app.tree.as_ref().unwrap().modified);
    let orig: &FocusTree = app.original_tree.as_ref().unwrap();
    assert_eq!(orig.focuses.len(), 5);
    app.report_save_error("disk full");
    assert_eq!(app.status_message, "❌ Save error: disk full");
}

#[test]
fn id_list_splits_on_commas_and_trims() {
    assert_eq!(split_id_list(" A ,B,, C "), vec!["A".to_string(), "B".to_string(), "C".to_string()]);
    assert_eq!(split_id_list(""), Vec::<String>::new());
    assert_eq!(split_id_list(" , "), Vec::<String>::new());
}

#[test]
fn id_list_join_then_split_gives_ids_back() {
    let ids = vec!["VEN_a".to_string(), "VEN_b".to_string(), "VEN_c".to_string()];
    let text = join_id_list(&ids);
    assert_eq!(text, "VEN_a, VEN_b, VEN_c");
    assert_eq!(split_id_list(&text), ids);
    assert_eq!(join_id_list(&vec![]), "");
}

fn keys(ctrl: bool) -> KeyPresses {
    KeyPresses { ctrl, s: false, z: false, y: false, f5: false, delete: false, d: false, e: false }
}

#[test]
fn key_presses_give_commands_in_order() {
    let mut k = keys(true);
    k.s = true;
    k.d = true;
    k.e = true;
    assert_eq!(key_commands(&k), vec![KeyCommand::Save, KeyCommand::Duplicate]);
    let mut k = keys(false);
    k.s = true;
    k.e = true;
    k.f5 = true;
    k.delete = true;
    assert_eq!(key_commands(&k), vec![KeyCommand::Reload, KeyCommand::Delete, KeyCommand::Edit]);
    let mut k = keys(true);
    k.z = true;
    k.y = true;
    assert_eq!(key_commands(&k), vec![KeyCommand::Undo, KeyCommand::Redo]);
    assert_eq!(key_commands(&keys(true)), vec![]);
}

#[test]
fn loading_a_malformed_file_only_sets_an_error_status() {
    let mut app = loaded();
    app.load_content("bad.txt", "focus_tree = {\n\tfocus = {\n\t\tid = VEN_x\n");
    assert_eq!(app.status_message, "❌ Parse error: Unclosed brace block");
    assert_eq!(app.file_path, Some("venezuela.txt".to_string()));
    assert_eq!(ids(&app).len(), 4);
}

#[test]
fn form_fields_map_empty_text_to_none() {
    assert_eq!(optional_text(String::new()), None);
    assert_eq!(optional_text("GFX_x".to_string()), Some("GFX_x".to_string()));
    assert_eq!(text_or_empty(&None), "");
    assert_eq!(text_or_empty(&Some("VEN_a".to_string())), "VEN_a");
}

#[test]
fn form_raw_blocks_have_defaults() {
    let app = loaded();
    let mut f = app.tree.as_ref().unwrap().focuses[0].duplicate();
    assert_eq!(completion_reward_text(&f), "{\n}");
    assert_eq!(ai_will_do_text(&f), "{\n\tbase = 10\n}");
    f.completion_reward_raw = Some("{ add_stability = 0.1 }".to_string());
    f.ai_will_do_raw = Some("{ base = 3 }".to_string());
    assert_eq!(completion_reward_text(&f), "{ add_stability = 0.1 }");
    assert_eq!(ai_will_do_text(&f), "{ base = 3 }");
}
