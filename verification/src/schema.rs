//! Schemas: what a tool's config file holds and how its options are typed.

use vstd::prelude::*;

use crate::order::text_eq;

verus! {

/// The type of a config option, which decides the widget that edits it.
#[derive(Debug, Clone, Copy, PartialEq, Eq, Structural)]
pub enum OptionType {
    Bool,
    String,
    Int,
    Float,
    Enum,
    Color,
}

/// One option of a tool's config.
#[derive(Debug, Clone)]
pub struct OptionDef {
    pub key: String,
    pub option_type: OptionType,
    pub default: Option<String>,
    pub description: Option<String>,
    pub section: Option<String>,
    /// Minimum value for `int`/`float` types, as the bits of an `f64`
    /// (`f64::to_bits`).
    pub min_bits: Option<u64>,
    /// Maximum value for `int`/`float` types, as the bits of an `f64`
    /// (`f64::to_bits`).
    pub max_bits: Option<u64>,
    /// Allowed values for `enum` type.
    pub values: Option<Vec<String>>,
}

/// What a schema says of the tool itself.
#[derive(Debug, Clone)]
pub struct ToolMeta {
    pub name: String,
    pub description: Option<String>,
    /// Path to the tool's config file (may contain `~`).
    pub config_path: String,
    /// Parser format: `key_equals_value`, `key_space_value`, or `fish_set`.
    pub format: String,
}

/// A tool and the options of its config.
#[derive(Debug, Clone)]
pub struct Schema {
    pub tool: ToolMeta,
    pub options: Vec<OptionDef>,
}

/// The names of the tools of a list of schemas.
pub open spec fn tool_names(list: Seq<Schema>) -> Seq<Seq<char>> {
    list.map_values(|s: Schema| s.tool.name@)
}

/// `list` with `s` in place of the first schema of the same tool name, or
/// with `s` at the end if there is none.
pub open spec fn merge_one(list: Seq<Schema>, s: Schema) -> Seq<Schema> {
    match tool_names(list).index_of_first(s.tool.name@) {
        Some(i) => list.update(i, s),
        None => list.push(s),
    }
}

/// `builtins` with each of `user`, in order, merged in by [`merge_one`].
pub open spec fn merged_schemas(builtins: Seq<Schema>, user: Seq<Schema>) -> Seq<Schema>
    decreases user.len(),
{
    if user.len() == 0 {
        builtins
    } else {
        merge_one(merged_schemas(builtins, user.drop_last()), user.last())
    }
}

/// `i` is the first position of `x` in `s`.
pub proof fn lemma_first_position<A>(s: Seq<A>, x: A, i: int)
    requires
        0 <= i < s.len(),
        s[i] == x,
        forall|j: int| 0 <= j < i ==> s[j] != x,
    ensures
        s.index_of_first(x) == Some(i),
{
    s.index_of_first_ensures(x);
}

/// After the merge, the first schema for the tool of a user schema is that
/// user schema, if no later user schema names the same tool: a user schema
/// overrides a built-in one of the same name.
pub proof fn lemma_user_schema_overrides(builtins: Seq<Schema>, user: Seq<Schema>, a: int)
    requires
        0 <= a < user.len(),
        forall|b: int| a < b < user.len() ==> (#[trigger] user[b]).tool.name@ != user[a].tool.name@,
    ensures
        match tool_names(merged_schemas(builtins, user)).index_of_first(user[a].tool.name@) {
            Some(i) => merged_schemas(builtins, user)[i] == user[a],
            None => false,
        },
    decreases user.len(),
{
    let n = user[a].tool.name@;
    let init = user.drop_last();
    let u = user.last();
    let m = merged_schemas(builtins, init);
    let names = tool_names(m);
    let r = merged_schemas(builtins, user);
    names.index_of_first_ensures(u.tool.name@);
    if a == user.len() - 1 {
        match names.index_of_first(n) {
            Some(j) => {
                assert(r == m.update(j, u));
                assert forall|k: int| 0 <= k < j implies tool_names(r)[k] != n by {
                    assert(tool_names(r)[k] == names[k]);
                }
                lemma_first_position(tool_names(r), n, j);
            },
            None => {
                assert(r == m.push(u));
                assert forall|k: int| 0 <= k < m.len() implies tool_names(r)[k] != n by {
                    assert(tool_names(r)[k] == names[k]);
                }
                lemma_first_position(tool_names(r), n, m.len() as int);
            },
        }
    } else {
        assert forall|b: int| a < b < init.len() implies (#[trigger] init[b]).tool.name@ != n by {
            assert(init[b] == user[b]);
        }
        lemma_user_schema_overrides(builtins, init, a);
        assert(init[a] == user[a]);
        assert(u.tool.name@ != n) by {
            assert(user[user.len() - 1] == u);
        }
        names.index_of_first_ensures(n);
        let i = names.index_of_first(n).unwrap();
        match names.index_of_first(u.tool.name@) {
            Some(j) => {
                assert(r == m.update(j, u));
                assert(j != i);
                assert forall|k: int| 0 <= k < i implies tool_names(r)[k] != n by {
                    if k != j {
                        assert(tool_names(r)[k] == names[k]);
                    }
                }
                assert(tool_names(r)[i] == n);
                lemma_first_position(tool_names(r), n, i);
            },
            None => {
                assert(r == m.push(u));
                assert forall|k: int| 0 <= k < i implies tool_names(r)[k] != n by {
                    assert(tool_names(r)[k] == names[k]);
                }
                assert(tool_names(r)[i] == n);
                lemma_first_position(tool_names(r), n, i);
            },
        }
    }
}

/// A built-in schema whose tool no user schema names stays where it was.
pub proof fn lemma_builtin_schema_kept(builtins: Seq<Schema>, user: Seq<Schema>, i: int)
    requires
        0 <= i < builtins.len(),
        forall|b: int| 0 <= b < user.len() ==> (#[trigger] user[b]).tool.name@ != builtins[i].tool.name@,
    ensures
        i < merged_schemas(builtins, user).len(),
        merged_schemas(builtins, user)[i] == builtins[i],
    decreases user.len(),
{
    if user.len() > 0 {
        let init = user.drop_last();
        let u = user.last();
        assert forall|b: int| 0 <= b < init.len() implies (#[trigger] init[b]).tool.name@
            != builtins[i].tool.name@ by {
            assert(init[b] == user[b]);
        }
        lemma_builtin_schema_kept(builtins, init, i);
        let m = merged_schemas(builtins, init);
        let names = tool_names(m);
        names.index_of_first_ensures(u.tool.name@);
        assert(u.tool.name@ != builtins[i].tool.name@) by {
            assert(user[user.len() - 1] == u);
        }
        match names.index_of_first(u.tool.name@) {
            Some(j) => {
                assert(names[i] == builtins[i].tool.name@);
                assert(j != i);
            },
            None => {},
        }
    }
}

/// The file name has the extension `toml`, as `Path::extension` finds it:
/// the text after the last `.`, where that `.` is not the first character.
pub open spec fn has_toml_extension(name: Seq<char>) -> bool {
    match name.index_of_last('.') {
        Some(i) => i > 0 && name.skip(i + 1) == seq!['t', 'o', 'm', 'l'],
        None => false,
    }
}

/// A file name has the extension `toml` exactly when it ends with `.toml`
/// and has at least one character before that `.`: `a.toml` and `..toml`
/// do, `.toml`, `a.toml.bak` and `a.toml~` do not.
pub proof fn lemma_toml_extension_is_suffix(name: Seq<char>)
    ensures
        has_toml_extension(name) <==> (name.len() > 5 && name.skip(name.len() - 5) == seq![
            '.',
            't',
            'o',
            'm',
            'l',
        ]),
{
    let dot = seq!['.', 't', 'o', 'm', 'l'];
    name.index_of_last_ensures('.');
    if has_toml_extension(name) {
        let i = name.index_of_last('.').unwrap();
        let ext = name.skip(i + 1);
        assert(ext.len() == 4);
        assert(name.len() == i + 5);
        assert(name.skip(name.len() - 5) =~= dot) by {
            assert(name[i] == '.');
            assert(name[i + 1] == ext[0] && name[i + 2] == ext[1] && name[i + 3] == ext[2]
                && name[i + 4] == ext[3]);
        }
    }
    if name.len() > 5 && name.skip(name.len() - 5) == dot {
        let n = name.len() as int;
        let tail = name.skip(n - 5);
        assert(name[n - 5] == tail[0]);
        assert(name.contains('.'));
        assert forall|j: int| n - 5 < j < n implies name[j] != '.' by {
            assert(name[j] == tail[j - n + 5]);
        }
        let k = name.index_of_last('.').unwrap();
        if k > n - 5 {
            assert(name[k] != '.');
        }
        if k < n - 5 {
            assert(name[n - 5] != '.');
        }
        assert(name.skip(k + 1) =~= seq!['t', 'o', 'm', 'l']) by {
            assert(name[n - 4] == tail[1] && name[n - 3] == tail[2] && name[n - 2] == tail[3]
                && name[n - 1] == tail[4]);
        }
    }
}

/// Whether a file of the user schema directory, by its name, holds a schema.
pub fn is_schema_file(file_name: &str) -> (r: bool)
    ensures
        r == has_toml_extension(file_name@),
{
    let chars = crate::text::chars_of(file_name);
    let ghost s = chars@;
    proof {
        s.index_of_last_ensures('.');
    }
    let mut i = chars.len();
    while i > 0 && chars[i - 1] != '.'
        invariant
            s == chars@,
            i <= s.len(),
            forall|j: int| i <= j < s.len() ==> s[j] != '.',
        decreases i,
    {
        i = i - 1;
    }
    if i == 0 {
        proof {
            s.index_of_last_ensures('.');
            if s.contains('.') {
                let k = s.index_of_last('.').unwrap();
                assert(s[k] != '.');
            }
        }
        return false;
    }
    let d = i - 1;
    proof {
        s.index_of_last_ensures('.');
        assert(s.contains('.')) by {
            assert(s[d as int] == '.');
        }
        let k = s.index_of_last('.').unwrap();
        if k > d {
            assert(s[k] != '.');
        }
        if k < d {
            assert(s[d as int] != '.');
        }
        assert(k == d);
    }
    let n = chars.len();
    let r = d > 0 && n - i == 4 && chars[i] == 't' && chars[i + 1] == 'o' && chars[i + 2] == 'm'
        && chars[i + 3] == 'l';
    proof {
        let ext = s.skip(i as int);
        if n - i == 4 {
            assert(ext.len() == 4);
            assert(ext[0] == s[i as int] && ext[1] == s[i + 1] && ext[2] == s[i + 2] && ext[3]
                == s[i + 3]);
            if chars[i as int] == 't' && chars[i + 1] == 'o' && chars[i + 2] == 'm' && chars[i + 3]
                == 'l' {
                assert(ext =~= seq!['t', 'o', 'm', 'l']);
            }
        } else {
            assert(ext.len() != 4);
        }
    }
    r
}

/// The position of the first schema of `list` for the tool `name`.
pub fn find_tool(list: &Vec<Schema>, name: &str) -> (r: Option<usize>)
    ensures
        match r {
            Some(i) => i < list@.len() && tool_names(list@).index_of_first(name@) == Some(i as int),
            None => tool_names(list@).index_of_first(name@) is None,
        },
{
    let ghost names = tool_names(list@);
    proof {
        names.index_of_first_ensures(name@);
    }
    let mut i: usize = 0;
    while i < list.len()
        invariant
            names == tool_names(list@),
            i <= list@.len(),
            forall|j: int| 0 <= j < i ==> names[j] != name@,
        decreases list@.len() - i,
    {
        if text_eq(list[i].tool.name.as_str(), name) {
            proof {
                names.index_of_first_ensures(name@);
                assert(names[i as int] == name@);
                assert(names.contains(name@));
                let idx = names.index_of_first(name@).unwrap();
                if idx < i {
                    assert(names[idx] != name@);
                }
            }
            return Some(i);
        }
        i = i + 1;
    }
    proof {
        names.index_of_first_ensures(name@);
        if names.contains(name@) {
            let idx = names.index_of_first(name@).unwrap();
            assert(names[idx] != name@);
        }
    }
    None
}

/// Merges user schemas into the built-in ones: a user schema with the same
/// `tool.name` as a schema already in the list replaces it, and any other
/// is added at the end.
pub fn merge_schemas(builtins: Vec<Schema>, user: Vec<Schema>) -> (r: Vec<Schema>)
    ensures
        r@ == merged_schemas(builtins@, user@),
{
    let ghost all = user@;
    let mut schemas = builtins;
    let mut user = user;
    let ghost mut k: int = 0;
    while user.len() > 0
        invariant
            0 <= k <= all.len(),
            user@ == all.skip(k),
            schemas@ == merged_schemas(builtins@, all.take(k)),
        decreases user@.len(),
    {
        let s = user.remove(0);
        proof {
            assert(s == all[k]);
            assert(all.take(k + 1).drop_last() =~= all.take(k));
        }
        match find_tool(&schemas, s.tool.name.as_str()) {
            Some(i) => {
                schemas.set(i, s);
            },
            None => {
                schemas.push(s);
            },
        }
        proof {
            k = k + 1;
            assert(user@ =~= all.skip(k));
        }
    }
    assert(all.take(k) =~= all);
    schemas
}

} // verus!
