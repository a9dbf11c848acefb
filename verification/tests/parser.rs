use focusflow::cost::Cost;
use focusflow::parser::{
    extract_block_as_text, extract_brace_block, extract_list_field, extract_search_filters,
    extract_simple_int, extract_simple_string, parse_focus_file, parse_shortcuts,
    parse_single_focus, ParseError,
};

#[test]
fn test_parse_simple_focus() {
    let data = r#"focus_tree = {
            id = test_focus
            
            focus = {
                id = TEST_first_focus
                icon = generic_industry
                x = 5
                y = 0
                cost = 5
                
                completion_reward = {
                    add_political_power = 50
                }
                
                ai_will_do = {
                    factor = 10
                }
            }
        }"#;

    let tree = parse_focus_file(data).unwrap();
    assert_eq!(tree.id, "test_focus");
    assert_eq!(tree.focuses.len(), 1);

    let focus = &tree.focuses[0];
    assert_eq!(focus.id, "TEST_first_focus");
    assert_eq!(focus.x, 5);
    assert_eq!(focus.y, 0);
    assert_eq!(focus.cost, Some(Cost::whole(5)));
    assert!(focus.completion_reward_raw.is_some());
}

#[test]
fn test_parse_prerequisites() {
    let data = r#"focus_tree = {
            id = test
            
            focus = {
                id = TEST_a
                x = 0
                y = 0
            }
            
            focus = {
                id = TEST_b
                x = 0
                y = 1
                prerequisite = { focus = TEST_a }
            }
        }"#;

    let tree = parse_focus_file(data).unwrap();
    assert_eq!(tree.focuses.len(), 2);
    assert_eq!(tree.focuses[1].prerequisites, vec!["TEST_a"]);
}

#[test]
fn parse_reports_missing_focus_tree() {
    let r = parse_focus_file("nothing here");
    assert_eq!(r.err(), Some(ParseError::NoFocusTree));
    assert_eq!(ParseError::NoFocusTree.message(), "No 'focus_tree' found in file");
}

#[test]
fn parse_reports_missing_brace() {
    let r = parse_focus_file("focus_tree = nothing");
    assert_eq!(r.err(), Some(ParseError::NoOpeningBrace));
    assert_eq!(ParseError::NoOpeningBrace.message(), "No opening brace for focus_tree");
}

#[test]
fn parse_reports_tree_without_focuses() {
    let r = parse_focus_file("focus_tree = {\n\tid = empty\n}\n");
    assert_eq!(r.err(), Some(ParseError::NoFocusNodes));
    assert_eq!(ParseError::NoFocusNodes.message(), "No focus nodes found");
}

#[test]
fn parse_tree_id_is_the_first_id_line() {
    let data = "focus_tree = {\n\tfocus = {\n\t\tid = A_b\n\t}\n}\n";
    let tree = parse_focus_file(data).unwrap();
    assert_eq!(tree.id, "A_b");
    assert_eq!(tree.focuses.len(), 1);
    assert_eq!(tree.focuses[0].id, "A_b");
    assert!(!tree.modified);
}

#[test]
fn parse_accepts_windows_line_endings() {
    let data = "focus_tree = {\r\n\tid = win\r\n\tfocus = {\r\n\t\tid = W_a\r\n\t\tx = 3\r\n\t}\r\n}\r\n";
    let tree = parse_focus_file(data).unwrap();
    assert_eq!(tree.id, "win");
    assert_eq!(tree.focuses[0].id, "W_a");
    assert_eq!(tree.focuses[0].x, 3);
}

#[test]
fn parse_fractional_and_negative_values() {
    let data = "focus_tree = {\n\tid = t\n\tfocus = {\n\t\tid = T_a\n\t\tx = -5\n\t\ty = 2\n\t\tcost = 3.7\n\t\tbypass_if_unavailable = yes\n\t}\n}\n";
    let tree = parse_focus_file(data).unwrap();
    let f = &tree.focuses[0];
    assert_eq!(f.x, -5);
    assert_eq!(f.y, 2);
    assert_eq!(f.cost, Cost::new(false, 37, 1));
    assert!(f.bypass_if_unavailable);
    assert_eq!(f.icon, None);
}

#[test]
fn parse_skips_blocks_without_id_and_reads_shortcuts() {
    let data = "focus_tree = {\n\tid = t\n\tshortcut = {\n\t\tname = SC_one\n\t\ttarget = T_a\n\t}\n\tfocus = {\n\t\ticon = none\n\t}\n\tfocus = {\n\t\tid = T_a\n\t}\n}\n";
    let tree = parse_focus_file(data).unwrap();
    assert_eq!(tree.focuses.len(), 1);
    assert_eq!(tree.focuses[0].id, "T_a");
    assert_eq!(tree.shortcuts.len(), 1);
    assert_eq!(tree.shortcuts[0].name, "SC_one");
    assert_eq!(tree.shortcuts[0].target, "T_a");
}

#[test]
fn simple_string_strips_quotes_and_rejects_blocks() {
    assert_eq!(extract_simple_string("name = \"Foo Bar\"", "name"), Some("Foo Bar".to_string()));
    assert_eq!(extract_simple_string("  name=value  ", "name"), Some("value".to_string()));
    assert_eq!(extract_simple_string("name = { a }", "name"), None);
    assert_eq!(extract_simple_string("name =", "name"), None);
    assert_eq!(extract_simple_string("names = x", "name"), None);
}

#[test]
fn simple_int_defaults_to_zero() {
    assert_eq!(extract_simple_int("x = -12", "x"), -12);
    assert_eq!(extract_simple_int("x = +7", "x"), 7);
    assert_eq!(extract_simple_int("x = abc", "x"), 0);
    assert_eq!(extract_simple_int("y = 4", "x"), 0);
    assert_eq!(extract_simple_int("x = 99999999999", "x"), 0);
}

#[test]
fn list_field_collects_one_item_per_line() {
    let content = "prerequisite = { focus = A }\nprerequisite = { focus = B }\nmutually_exclusive = { focus = C }";
    assert_eq!(extract_list_field(content, "prerequisite", "focus"), vec!["A", "B"]);
    assert_eq!(extract_list_field(content, "mutually_exclusive", "focus"), vec!["C"]);
}

#[test]
fn search_filters_read_the_first_filter_line() {
    let content = "x = 1\nsearch_filters = { FOCUS_FILTER_INDUSTRY FOCUS_FILTER_RESEARCH }\n";
    assert_eq!(
        extract_search_filters(content),
        vec!["FOCUS_FILTER_INDUSTRY", "FOCUS_FILTER_RESEARCH"]
    );
    assert!(extract_search_filters("x = 1").is_empty());
}

#[test]
fn block_as_text_single_and_multi_line() {
    assert_eq!(
        extract_block_as_text("available = { has_war = yes }", "available"),
        Some("{\n\t\t\thas_war = yes\n\t\t}".to_string())
    );
    let multi = "completion_reward = {\n\tadd_political_power = 50\n}\n";
    assert_eq!(
        extract_block_as_text(multi, "completion_reward"),
        Some("{\n\t\t\tadd_political_power = 50\n\t\t}".to_string())
    );
    assert_eq!(extract_block_as_text(multi, "available"), None);
}

#[test]
fn brace_block_skips_comments_and_strings() {
    let content = "a = { b = \"}\" # }\n c }";
    let start = content.find('{').unwrap();
    assert_eq!(extract_brace_block(content, start).unwrap(), " b = \"}\" # }\n c ");
}

#[test]
fn shortcuts_without_target_are_skipped() {
    let content = "shortcut = { name = A target = }\nshortcut = {\n name = B\n target = T_b\n}";
    let shortcuts = parse_shortcuts(content);
    assert_eq!(shortcuts.len(), 1);
    assert_eq!(shortcuts[0].name, "B");
    assert_eq!(shortcuts[0].target, "T_b");
}

#[test]
fn single_focus_needs_an_id() {
    assert!(parse_single_focus("icon = x\nx = 1").is_none());
    let f = parse_single_focus("id = Z_z\nrelative_position_id = Z_y").unwrap();
    assert_eq!(f.id, "Z_z");
    assert_eq!(f.relative_position_id, Some("Z_y".to_string()));
}

#[test]
fn edge_empty_file_rejected() {
    let result = parse_focus_file("focus_tree = {\n    id = empty\n}");
    assert!(result.is_err(), "Should fail on empty tree");
}

#[test]
fn edge_garbage_input_rejected() {
    let result = parse_focus_file("random garbage without any structure");
    assert!(result.is_err());
}

#[test]
fn edge_special_characters() {
    let data = "focus_tree = {
            id = test_special
            focus = {
                id = TEST_special
                icon = icon_with_underscore
                x = -5
                y = 10
                cost = 3.7
                completion_reward = {
                    add_political_power = 150
                }
                ai_will_do = { base = 25 }
            }
        }";
    let tree = parse_focus_file(data).unwrap();
    assert_eq!(tree.focuses[0].x, -5);
    assert_eq!(tree.focuses[0].cost, Cost::new(false, 37, 1));
    assert!(tree.focuses[0].completion_reward_raw.is_some());
}

#[test]
fn brace_block_that_never_closes_is_an_error() {
    assert_eq!(extract_brace_block("ab{cd", 2), Err(ParseError::UnclosedBlock));
    assert_eq!(extract_brace_block("{{}", 0), Err(ParseError::UnclosedBlock));
    assert_eq!(extract_brace_block("a{", 1), Err(ParseError::UnclosedBlock));
    assert_eq!(extract_brace_block("a", 5), Err(ParseError::UnclosedBlock));
    assert_eq!(extract_brace_block("{\"}", 0), Err(ParseError::UnclosedBlock));
    assert_eq!(extract_brace_block("{}", 0), Ok(String::new()));
    assert_eq!(ParseError::UnclosedBlock.message(), "Unclosed brace block");
}

#[test]
fn unclosed_tree_is_rejected() {
    assert_eq!(parse_focus_file("focus_tree = {").err(), Some(ParseError::UnclosedBlock));
    assert_eq!(
        parse_focus_file("focus_tree = {\n\tfocus = {\n\t\tid = A_a\n\t}\n").err(),
        Some(ParseError::UnclosedBlock)
    );
}

#[test]
fn focus_with_a_reversed_list_line_is_rejected() {
    let data = "focus_tree = {\n\tfocus = {\n\t\tid = A_a\n\t\tcompletion_reward = {\n\t\t\tprerequisite = } focus = B_b {\n\t\t}\n\t}\n}\n";
    assert_eq!(parse_focus_file(data).err(), Some(ParseError::MalformedFocus));
    assert_eq!(ParseError::MalformedFocus.message(), "Malformed focus block");
}

#[test]
fn unclosed_shortcut_is_skipped() {
    let shortcuts = parse_shortcuts("shortcut = { name = A\n target = T_a");
    assert!(shortcuts.is_empty());
}

#[test]
fn long_costs_are_rounded_to_eighteen_digits() {
    let read = |s: &str| {
        let cs: Vec<char> = s.chars().collect();
        focusflow::cost::parse_cost_chars(&cs)
    };
    assert_eq!(read("0.1234567890123456789"), Cost::new(false, 123456789012345679, 18));
    assert_eq!(read("0.1234567890123456784"), Cost::new(false, 123456789012345678, 18));
    assert_eq!(read("0.99999999999999999999"), Some(Cost::whole(1)));
    assert_eq!(read("-2.00000000000000000049"), Some(Cost::whole(-2)));
    assert_eq!(read("1.50000000000000000000000"), Cost::new(false, 15, 1));
    assert_eq!(read("1e2"), None);
}
