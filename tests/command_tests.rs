use minimax::command::{get_values, parse_action, parse_bool, same_text, starts_with, trim, Action};
use minimax::settings::{apply_setting, default_parameters, Parameters, SettingError};

#[test]
fn starts_with_prefixes() {
    assert!(starts_with("set depth = 4", "set "));
    assert!(starts_with("abc", ""));
    assert!(starts_with("abc", "abc"));
    assert!(!starts_with("ab", "abc"));
    assert!(!starts_with("xbc", "abc"));
    assert!(starts_with("éclair", "é"));
    assert!(!starts_with("é", "e"));
}

#[test]
fn trim_strips_white_space() {
    assert_eq!(trim("  begin \t\n"), "begin");
    assert_eq!(trim("\u{3000}quit\u{a0}"), "quit");
    assert_eq!(trim("a b"), "a b");
    assert_eq!(trim("   "), "");
    assert_eq!(trim(""), "");
}

#[test]
fn same_text_compares_characters() {
    assert!(same_text("help", "help"));
    assert!(!same_text("help", "hel"));
    assert!(!same_text("help", "Help"));
}

#[test]
fn get_values_splits_at_first_equals() {
    assert_eq!(get_values("depth = 6"), Ok(("depth", "6")));
    assert_eq!(get_values("  min=player_one "), Ok(("min", "player_one")));
    assert_eq!(get_values("a = b = c"), Ok(("a", "b = c")));
}

#[test]
fn get_values_rejects_missing_parts() {
    assert_eq!(get_values("depth"), Err(()));
    assert_eq!(get_values("depth ="), Err(()));
    assert_eq!(get_values("= 6"), Err(()));
    assert_eq!(get_values("  =  "), Err(()));
    assert_eq!(get_values("="), Err(()));
    assert_eq!(get_values(""), Err(()));
}

#[test]
fn parse_bool_values() {
    assert_eq!(parse_bool("true"), Ok(true));
    assert_eq!(parse_bool("false"), Ok(false));
    assert!(parse_bool("yes").is_err());
    assert!(parse_bool("True").is_err());
}

#[test]
fn parse_action_commands() {
    assert_eq!(parse_action("example\n"), Action::Example);
    assert_eq!(parse_action(" help "), Action::Help);
    assert_eq!(parse_action("begin"), Action::Begin);
    assert_eq!(parse_action("quit\r\n"), Action::Quit);
    assert_eq!(parse_action("set depth = 6\n"), Action::Setting("depth = 6".to_string()));
    assert_eq!(parse_action("settle"), Action::Invalid("settle".to_string()));
    assert_eq!(parse_action("  jump  "), Action::Invalid("jump".to_string()));
    assert_eq!(parse_action("set"), Action::Invalid("set".to_string()));
}

#[test]
fn settings_change_parameters() {
    let mut p = default_parameters();
    assert_eq!(p, Parameters { singleplayer: true, depth: 4, root_maximizes: true });
    assert_eq!(apply_setting(&mut p, "singleplayer = false"), Ok(()));
    assert!(!p.singleplayer);
    assert_eq!(apply_setting(&mut p, "depth = 7"), Ok(()));
    assert_eq!(p.depth, 7);
    assert_eq!(apply_setting(&mut p, "depth=+12"), Ok(()));
    assert_eq!(p.depth, 12);
    assert_eq!(apply_setting(&mut p, "min = player_one"), Ok(()));
    assert!(!p.root_maximizes);
    assert_eq!(apply_setting(&mut p, "max = player_one"), Ok(()));
    assert!(p.root_maximizes);
    assert_eq!(apply_setting(&mut p, "max = player_two"), Ok(()));
    assert!(!p.root_maximizes);
    assert_eq!(apply_setting(&mut p, "min = player_two"), Ok(()));
    assert!(p.root_maximizes);
}

#[test]
fn settings_errors_leave_parameters() {
    let mut p = default_parameters();
    let before = p;
    assert_eq!(apply_setting(&mut p, "depth"), Err(SettingError::Syntax));
    assert_eq!(apply_setting(&mut p, "colour = red"), Err(SettingError::UnknownKey));
    assert_eq!(apply_setting(&mut p, "singleplayer = maybe"), Err(SettingError::NotBoolean));
    assert_eq!(apply_setting(&mut p, "depth = 0"), Err(SettingError::ZeroDepth));
    assert_eq!(apply_setting(&mut p, "depth = -3"), Err(SettingError::BadDepth));
    assert_eq!(apply_setting(&mut p, "depth = 4294967296"), Err(SettingError::BadDepth));
    assert_eq!(apply_setting(&mut p, "depth = six"), Err(SettingError::BadDepth));
    assert_eq!(apply_setting(&mut p, "min = player_three"), Err(SettingError::UnknownPlayer));
    assert_eq!(p, before);
}
