use cfgwow::schema::{OptionDef, OptionType, Schema, ToolMeta};
use cfgwow::state::AppState;
use cfgwow::string_map::StringMap;

fn option(key: &str, option_type: OptionType, default: Option<&str>) -> OptionDef {
    OptionDef {
        key: key.to_string(),
        option_type,
        default: default.map(|d| d.to_string()),
        description: None,
        section: None,
        min_bits: None,
        max_bits: None,
        values: None,
    }
}

fn make_state() -> AppState {
    let schema = Schema {
        tool: ToolMeta {
            name: "ghostty".to_string(),
            description: None,
            config_path: "~/.config/ghostty/config".to_string(),
            format: "key_equals_value".to_string(),
        },
        options: vec![
            option("font-size", OptionType::Int, Some("12")),
            option("theme", OptionType::String, None),
        ],
    };
    let mut parsed = StringMap::new();
    parsed.insert("theme".to_string(), "dark".to_string());
    AppState::new(schema, vec![], parsed)
}

#[test]
fn pending_edit_takes_priority() {
    let mut state = make_state();
    state.apply_edit("theme", "light".to_string());
    assert_eq!(state.resolve_value("theme"), Some("light"));
}

#[test]
fn parsed_value_used_when_no_edit() {
    let state = make_state();
    assert_eq!(state.resolve_value("theme"), Some("dark"));
}

#[test]
fn schema_default_used_as_fallback() {
    let state = make_state();
    // font-size not in parsed_values, but has a schema default
    assert_eq!(state.resolve_value("font-size"), Some("12"));
}

#[test]
fn unknown_key_returns_none() {
    let state = make_state();
    assert_eq!(state.resolve_value("nonexistent"), None);
}

#[test]
fn new_state_has_no_pending_edits() {
    let state = make_state();
    assert!(state.pending_edits.is_empty());
    assert_eq!(state.parsed_values.len(), 1);
}

#[test]
fn edit_leaves_other_keys_alone() {
    let mut state = make_state();
    state.apply_edit("font-size", "14".to_string());
    assert_eq!(state.resolve_value("font-size"), Some("14"));
    assert_eq!(state.resolve_value("theme"), Some("dark"));
    assert_eq!(state.parsed_values.get("font-size"), None);
}

#[test]
fn later_edit_replaces_earlier_one() {
    let mut state = make_state();
    state.apply_edit("theme", "light".to_string());
    state.apply_edit("theme", "solarized".to_string());
    assert_eq!(state.resolve_value("theme"), Some("solarized"));
    assert_eq!(state.pending_edits.len(), 1);
}

#[test]
fn first_option_definition_decides_default() {
    let mut state = make_state();
    state.schema.options.push(option("theme", OptionType::String, Some("ignored")));
    state.schema.options.push(option("cursor", OptionType::Enum, None));
    state.schema.options.push(option("cursor", OptionType::Enum, Some("block")));
    state.parsed_values = StringMap::new();
    assert_eq!(state.resolve_value("theme"), None);
    assert_eq!(state.resolve_value("cursor"), None);
}
