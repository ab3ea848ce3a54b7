//! The in-memory state of one tool's config while it is being edited.

use vstd::prelude::*;

use crate::order::text_eq;
use crate::parsers::Line;
use crate::schema::{OptionDef, Schema};
use crate::string_map::StringMap;

verus! {

/// The keys of a list of option definitions.
pub open spec fn option_keys(options: Seq<OptionDef>) -> Seq<Seq<char>> {
    options.map_values(|o: OptionDef| o.key@)
}

/// The default that the first option definition for `key` gives, if any.
pub open spec fn schema_default(options: Seq<OptionDef>, key: Seq<char>) -> Option<Seq<char>> {
    match option_keys(options).index_of_first(key) {
        Some(i) => match options[i].default {
            Some(d) => Some(d@),
            None => None,
        },
        None => None,
    }
}

/// The value of `key` by priority: a pending edit, else the value parsed
/// from the file, else the schema default.
pub open spec fn resolved(
    pending: Map<Seq<char>, Seq<char>>,
    parsed: Map<Seq<char>, Seq<char>>,
    options: Seq<OptionDef>,
    key: Seq<char>,
) -> Option<Seq<char>> {
    if pending.contains_key(key) {
        Some(pending[key])
    } else if parsed.contains_key(key) {
        Some(parsed[key])
    } else {
        schema_default(options, key)
    }
}

/// Once an edit is staged for a key, the key resolves to the staged value.
pub proof fn lemma_staged_edit_resolves(
    pending: Map<Seq<char>, Seq<char>>,
    parsed: Map<Seq<char>, Seq<char>>,
    options: Seq<OptionDef>,
    key: Seq<char>,
    value: Seq<char>,
)
    ensures
        resolved(pending.insert(key, value), parsed, options, key) == Some(value),
{
}

/// With no edit staged for a key, a value read from the config file is what
/// the key resolves to, whatever default the schema gives it.
pub proof fn lemma_parsed_value_beats_default(
    pending: Map<Seq<char>, Seq<char>>,
    parsed: Map<Seq<char>, Seq<char>>,
    options: Seq<OptionDef>,
    key: Seq<char>,
)
    requires
        !pending.contains_key(key),
        parsed.contains_key(key),
    ensures
        resolved(pending, parsed, options, key) == Some(parsed[key]),
{
}

/// A key that has neither a staged edit nor a value in the file resolves to
/// the default of the first option definition for it, and to nothing when no
/// option has that key.
pub proof fn lemma_default_as_fallback(
    pending: Map<Seq<char>, Seq<char>>,
    parsed: Map<Seq<char>, Seq<char>>,
    options: Seq<OptionDef>,
    key: Seq<char>,
    i: int,
)
    requires
        !pending.contains_key(key),
        !parsed.contains_key(key),
    ensures
        0 <= i < options.len() && options[i].key@ == key && (forall|j: int|
            0 <= j < i ==> (#[trigger] options[j]).key@ != key) ==> resolved(
            pending,
            parsed,
            options,
            key,
        ) == match options[i].default {
            Some(d) => Some(d@),
            None => None,
        },
        (forall|j: int| 0 <= j < options.len() ==> (#[trigger] options[j]).key@ != key) ==> resolved(
            pending,
            parsed,
            options,
            key,
        ) is None,
{
    let keys = option_keys(options);
    keys.index_of_first_ensures(key);
    if 0 <= i < options.len() && options[i].key@ == key && (forall|j: int|
        0 <= j < i ==> (#[trigger] options[j]).key@ != key) {
        assert(keys[i] == key);
        let idx = keys.index_of_first(key).unwrap();
        if idx < i {
            assert(options[idx].key@ != key);
        }
        if idx > i {
            assert(keys[i] != key);
        }
    }
    if forall|j: int| 0 <= j < options.len() ==> (#[trigger] options[j]).key@ != key {
        if keys.contains(key) {
            let idx = keys.index_of_first(key).unwrap();
            assert(options[idx].key@ != key);
        }
    }
}

/// Staging an edit for one key leaves what every other key resolves to.
pub proof fn lemma_edit_keeps_other_keys(
    pending: Map<Seq<char>, Seq<char>>,
    parsed: Map<Seq<char>, Seq<char>>,
    options: Seq<OptionDef>,
    key: Seq<char>,
    value: Seq<char>,
    other: Seq<char>,
)
    requires
        other != key,
    ensures
        resolved(pending.insert(key, value), parsed, options, other) == resolved(
            pending,
            parsed,
            options,
            other,
        ),
{
}

/// A loaded schema, the lines and values read from its config file, and the
/// edits staged but not yet written.
pub struct AppState {
    pub schema: Schema,
    pub lines: Vec<Line>,
    pub parsed_values: StringMap,
    pub pending_edits: StringMap,
}

impl AppState {
    /// The state of a freshly read config, with no edits staged.
    pub fn new(schema: Schema, lines: Vec<Line>, parsed_values: StringMap) -> (r: Self)
        ensures
            r.schema == schema,
            r.lines == lines,
            r.parsed_values == parsed_values,
            r.pending_edits@ == Map::<Seq<char>, Seq<char>>::empty(),
    {
        AppState { schema, lines, parsed_values, pending_edits: StringMap::new() }
    }

    /// Stage an edit. Does not write to disk.
    pub fn apply_edit(&mut self, key: &str, value: String)
        ensures
            final(self).pending_edits@ == old(self).pending_edits@.insert(key@, value@),
            final(self).schema == old(self).schema,
            final(self).lines == old(self).lines,
            final(self).parsed_values == old(self).parsed_values,
    {
        self.pending_edits.insert(key.to_owned(), value);
    }

    /// Resolve the current value for `key` using priority:
    /// pending edit > parsed value > schema default.
    pub fn resolve_value(&self, key: &str) -> (r: Option<&str>)
        ensures
            match r {
                Some(v) => resolved(
                    self.pending_edits@,
                    self.parsed_values@,
                    self.schema.options@,
                    key@,
                ) == Some(v@),
                None => resolved(
                    self.pending_edits@,
                    self.parsed_values@,
                    self.schema.options@,
                    key@,
                ) is None,
            },
    {
        if let Some(v) = self.pending_edits.get(key) {
            return Some(v.as_str());
        }
        if let Some(v) = self.parsed_values.get(key) {
            return Some(v.as_str());
        }
        let options = &self.schema.options;
        let ghost keys = option_keys(options@);
        let mut i: usize = 0;
        while i < options.len()
            invariant
                keys == option_keys(options@),
                options@ == self.schema.options@,
                !self.pending_edits@.contains_key(key@),
                !self.parsed_values@.contains_key(key@),
                i <= options@.len(),
                forall|j: int| 0 <= j < i ==> keys[j] != key@,
            decreases options@.len() - i,
        {
            if text_eq(options[i].key.as_str(), key) {
                proof {
                    keys.index_of_first_ensures(key@);
                    assert(keys[i as int] == key@);
                    assert(keys.contains(key@));
                    let idx = keys.index_of_first(key@).unwrap();
                    if idx < i {
                        assert(keys[idx] != key@);
                    }
                }
                return match &options[i].default {
                    Some(d) => Some(d.as_str()),
                    None => None,
                };
            }
            i = i + 1;
        }
        proof {
            keys.index_of_first_ensures(key@);
            if keys.contains(key@) {
                let idx = keys.index_of_first(key@).unwrap();
                assert(keys[idx] != key@);
            }
        }
        None
    }
}

} // verus!
