use bin_extract::menu::{
    extract_all_targets, extract_choice, is_compact_format, extract_labels, extract_menu, menu_action, prompt_answer, MenuAction,
};

#[test]
fn menu_action_examples() {
    assert_eq!(menu_action("1"), MenuAction::ExtractAll);
    assert_eq!(menu_action("all"), MenuAction::ExtractAll);
    assert_eq!(menu_action("2"), MenuAction::List);
    assert_eq!(menu_action("ls"), MenuAction::List);
    assert_eq!(menu_action("list"), MenuAction::List);
    assert_eq!(menu_action("3"), MenuAction::ExtractOne);
    assert_eq!(menu_action("extract"), MenuAction::ExtractOne);
    assert_eq!(menu_action("4"), MenuAction::Decrypt);
    assert_eq!(menu_action("decrypt"), MenuAction::Decrypt);
    assert_eq!(menu_action("5"), MenuAction::ChangePath);
    assert_eq!(menu_action("path"), MenuAction::ChangePath);
    assert_eq!(menu_action("q"), MenuAction::Quit);
    assert_eq!(menu_action("quit"), MenuAction::Quit);
    assert_eq!(menu_action("exit"), MenuAction::Quit);
    assert_eq!(menu_action(""), MenuAction::Quit);
    assert_eq!(menu_action("6"), MenuAction::Unknown);
    assert_eq!(menu_action("ALL"), MenuAction::Unknown);
}

#[test]
fn extract_choice_examples() {
    assert_eq!(extract_choice("1"), Some(("items", "items.bin")));
    assert_eq!(extract_choice("items"), Some(("items", "items.bin")));
    assert_eq!(extract_choice("3"), Some(("world", "cluster/world.bin")));
    assert_eq!(extract_choice("world"), Some(("world", "cluster/world.bin")));
    assert_eq!(extract_choice("6"), Some(("localization", "localization.bin")));
    assert_eq!(extract_choice("7"), Some(("gamedata", "gamedata.bin")));
    assert_eq!(extract_choice("8"), None);
    assert_eq!(extract_choice(""), None);
}

#[test]
fn extract_menu_matches_choices() {
    let menu = extract_menu();
    assert_eq!(menu.len(), 7);
    for (i, (cmd, file, _)) in menu.iter().enumerate() {
        assert_eq!(extract_choice(&(i + 1).to_string()), Some((*cmd, *file)));
        assert_eq!(extract_choice(cmd), Some((*cmd, *file)));
    }
}

#[test]
fn extract_all_targets_end_with_localization() {
    let t = extract_all_targets();
    assert_eq!(t.len(), 7);
    assert_eq!(t[5], ("cluster/world.bin", "world", "world.json"));
    assert_eq!(t[6], ("localization.bin", "localization", "localization.json"));
}

#[test]
fn extract_labels_examples() {
    assert_eq!(extract_labels("items"), Some(("items", "item")));
    assert_eq!(extract_labels("world"), Some(("clusters", "cluster")));
    assert_eq!(extract_labels("localization"), Some(("translations", "entry")));
    assert_eq!(extract_labels("gamedata"), Some(("settings", "setting")));
    assert_eq!(extract_labels("decrypt"), None);
}

#[test]
fn prompt_answer_examples() {
    assert_eq!(prompt_answer("", "output"), "output");
    assert_eq!(prompt_answer("dir", "output"), "dir");
    assert_eq!(prompt_answer("", ""), "");
}

#[test]
fn is_compact_format_examples() {
    assert!(is_compact_format("compact"));
    assert!(!is_compact_format("pretty"));
    assert!(!is_compact_format("Compact"));
    assert!(!is_compact_format(""));
}
