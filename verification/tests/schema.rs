use cfgwow::schema::{is_schema_file, merge_schemas, Schema, ToolMeta};

fn schema(name: &str, path: &str) -> Schema {
    Schema {
        tool: ToolMeta {
            name: name.to_string(),
            description: None,
            config_path: path.to_string(),
            format: "key_equals_value".to_string(),
        },
        options: vec![],
    }
}

#[test]
fn user_schema_replaces_builtin_of_same_name() {
    let builtins = vec![schema("ghostty", "/a"), schema("tmux", "/b"), schema("fish", "/c")];
    let user = vec![schema("ghostty", "/custom"), schema("alacritty", "/d")];
    let merged = merge_schemas(builtins, user);
    let names: Vec<&str> = merged.iter().map(|s| s.tool.name.as_str()).collect();
    assert_eq!(names, ["ghostty", "tmux", "fish", "alacritty"]);
    assert_eq!(merged[0].tool.config_path, "/custom");
    assert_eq!(merged[1].tool.config_path, "/b");
}

#[test]
fn later_user_schema_of_same_name_wins() {
    let builtins = vec![schema("ghostty", "/a")];
    let user = vec![schema("x", "/1"), schema("x", "/2")];
    let merged = merge_schemas(builtins, user);
    assert_eq!(merged.len(), 2);
    assert_eq!(merged[1].tool.config_path, "/2");
}

#[test]
fn schema_files_are_toml_files() {
    assert!(is_schema_file("ghostty.toml"));
    assert!(is_schema_file("a.b.toml"));
    assert!(is_schema_file("..toml"));
    assert!(!is_schema_file(".toml"));
    assert!(!is_schema_file("toml"));
    assert!(!is_schema_file("notes.txt"));
    assert!(!is_schema_file("x.tomlx"));
    assert!(!is_schema_file("x.TOML"));
    assert!(!is_schema_file(""));
}
