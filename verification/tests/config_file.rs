use cfgwow::config_file::{expand_tilde_in, render_config, schema_dir_in};
use cfgwow::parsers::key_equals_value::read;
use cfgwow::schema::{OptionDef, OptionType, Schema, ToolMeta};
use cfgwow::state::AppState;
use cfgwow::string_map::StringMap;

fn ghostty_schema() -> Schema {
    Schema {
        tool: ToolMeta {
            name: "ghostty".to_string(),
            description: None,
            config_path: "~/.config/ghostty/config".to_string(),
            format: "key_equals_value".to_string(),
        },
        options: vec![OptionDef {
            key: "font-size".to_string(),
            option_type: OptionType::Int,
            default: Some("12".to_string()),
            description: None,
            section: None,
            min_bits: None,
            max_bits: None,
            values: None,
        }],
    }
}

#[test]
fn render_round_trip_edits_in_place() {
    let src = "# Ghostty config\nfont-size = 12\ntheme = dark\n";
    let (lines, parsed) = read(src);
    let mut state = AppState::new(ghostty_schema(), lines, parsed);
    state.apply_edit("font-size", "14".to_string());

    let result = render_config(&state.lines, &state.pending_edits);
    assert_eq!(result, "# Ghostty config\nfont-size = 14\ntheme = dark\n");
    let (_, parsed2) = read(&result);
    assert_eq!(parsed2.get("font-size").unwrap(), "14", "edit should be applied");
    assert_eq!(parsed2.get("theme").unwrap(), "dark", "other keys preserved");
    assert!(result.contains("# Ghostty config"), "comment preserved");
}

#[test]
fn render_appends_new_key() {
    let (lines, _) = read("font-size = 12\n");
    let mut edits = StringMap::new();
    edits.insert("new-key".to_string(), "hello".to_string());
    let result = render_config(&lines, &edits);
    assert!(result.contains("new-key = hello"), "new key appended");
    assert!(result.contains("font-size = 12"), "existing key preserved");
    assert_eq!(result, "font-size = 12\nnew-key = hello\n");
}

#[test]
fn render_appends_new_keys_sorted() {
    let (lines, _) = read("b = 1\n");
    let mut edits = StringMap::new();
    edits.insert("zz".to_string(), "3".to_string());
    edits.insert("b".to_string(), "2".to_string());
    edits.insert("aa".to_string(), "4".to_string());
    let result = render_config(&lines, &edits);
    assert_eq!(result, "b = 2\naa = 4\nzz = 3\n");
}

#[test]
fn render_without_edits_keeps_text() {
    let src = "# comment\n\n  spaced =  value  \nunknown line\nk = v\n";
    let (lines, _) = read(src);
    let result = render_config(&lines, &StringMap::new());
    assert_eq!(result, src);
}

#[test]
fn render_normalises_line_ends() {
    let (lines, _) = read("a = 1\r\nb = 2");
    let result = render_config(&lines, &StringMap::new());
    assert_eq!(result, "a = 1\nb = 2\n");
}

#[test]
fn render_replaces_every_line_of_an_edited_key() {
    let (lines, _) = read("k = 1\n# x\nk = 2\n");
    let mut edits = StringMap::new();
    edits.insert("k".to_string(), "3".to_string());
    assert_eq!(render_config(&lines, &edits), "k = 3\n# x\nk = 3\n");
}

#[test]
fn expand_tilde_in_replaces_home() {
    let home = "/home/user";
    assert_eq!(expand_tilde_in("~/foo/bar", home), "/home/user/foo/bar");
    assert_eq!(expand_tilde_in("~", home), "/home/user");
    assert_eq!(expand_tilde_in("/abs/path", home), "/abs/path");
    assert_eq!(expand_tilde_in("~user/x", home), "~user/x");
}

#[test]
fn expand_tilde_in_joins_like_paths() {
    assert_eq!(expand_tilde_in("~/x", "/home/user/"), "/home/user/x");
    assert_eq!(expand_tilde_in("~/x", ""), "x");
    assert_eq!(expand_tilde_in("~//etc", "/home/user"), "/home/user//etc");
    assert_eq!(expand_tilde_in("~//etc", ""), "/etc");
    assert_eq!(expand_tilde_in("~/", "/h"), "/h/");
}

#[test]
fn schema_dir_is_under_home() {
    assert_eq!(schema_dir_in("/home/u"), "/home/u/.config/cfgwow/schemas");
    assert_eq!(schema_dir_in("/home/u/"), "/home/u/.config/cfgwow/schemas");
    assert_eq!(schema_dir_in(""), ".config/cfgwow/schemas");
}
