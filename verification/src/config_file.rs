//! Writing a config file back: the text that replaces the file, and the
//! expansion of `~` in config paths.

use vstd::prelude::*;

use crate::parsers::{lines_map, lines_view, raw_text, Line, LineView};
use crate::string_map::{entries_map, lemma_entries_map_dom, lemma_entries_map_index, StringMap};
use crate::text::{join_lines, push_char};

verus! {

/// The line `key = value`.
pub open spec fn assignment(key: Seq<char>, value: Seq<char>) -> Seq<char> {
    key + seq![' ', '=', ' '] + value
}

/// How one line is written back: a `key = value` line whose key has a
/// pending edit becomes `key = new value`; every other line is written as it
/// was read.
pub open spec fn render_line(l: LineView, edits: Map<Seq<char>, Seq<char>>) -> Seq<char> {
    match l {
        LineView::KeyValue { key, raw, .. } => if edits.contains_key(key) {
            assignment(key, edits[key])
        } else {
            raw
        },
        LineView::Other(raw) => raw,
    }
}

/// The lines appended for the edits (in the given order) whose keys no line
/// of the file sets.
pub open spec fn appended_lines(
    edits: Seq<(Seq<char>, Seq<char>)>,
    present: Map<Seq<char>, Seq<char>>,
) -> Seq<Seq<char>>
    decreases edits.len(),
{
    if edits.len() == 0 {
        seq![]
    } else {
        let rest = appended_lines(edits.drop_last(), present);
        let e = edits.last();
        if present.contains_key(e.0) {
            rest
        } else {
            rest.push(assignment(e.0, e.1))
        }
    }
}

/// The lines written back for `lines` with the pending `edits`, given in
/// ascending key order: every line in place, then the new keys.
pub open spec fn rendered_lines(
    lines: Seq<LineView>,
    edits: Seq<(Seq<char>, Seq<char>)>,
) -> Seq<Seq<char>> {
    lines.map_values(|l: LineView| render_line(l, entries_map(edits))) + appended_lines(
        edits,
        lines_map(lines),
    )
}

/// Writing back keeps each line of the file in its place: a line that is
/// not a `key = value` line of an edited key (a comment, a blank line, an
/// unknown line, or a line of a key without an edit) is written exactly as it
/// was read, whatever the edits; the line of an edited key becomes
/// `key = new value`.
pub proof fn lemma_render_keeps_lines(
    lines: Seq<LineView>,
    edits: Seq<(Seq<char>, Seq<char>)>,
    i: int,
)
    requires
        0 <= i < lines.len(),
    ensures
        i < rendered_lines(lines, edits).len(),
        match lines[i] {
            LineView::KeyValue { key, .. } => if entries_map(edits).contains_key(key) {
                rendered_lines(lines, edits)[i] == key + seq![' ', '=', ' '] + entries_map(
                    edits,
                )[key]
            } else {
                rendered_lines(lines, edits)[i] == raw_text(lines[i])
            },
            LineView::Other(_) => rendered_lines(lines, edits)[i] == raw_text(lines[i]),
        },
{
}

/// Joining one more line adds it and its `\n` at the end.
pub proof fn lemma_join_lines_push(ls: Seq<Seq<char>>, x: Seq<char>)
    ensures
        join_lines(ls.push(x)) == join_lines(ls) + x + seq!['\n'],
    decreases ls.len(),
{
    if ls.len() == 0 {
        let e = Seq::<Seq<char>>::empty();
        assert(ls.push(x).drop_first() =~= e);
        assert(join_lines(e) == Seq::<char>::empty());
        assert(ls.push(x)[0] == x);
        assert(join_lines(ls.push(x)) =~= x + seq!['\n']);
    } else {
        lemma_join_lines_push(ls.drop_first(), x);
        assert(ls.push(x).drop_first() =~= ls.drop_first().push(x));
        assert(join_lines(ls.push(x)) =~= join_lines(ls) + x + seq!['\n']);
    }
}

/// Appends `s` to `out`.
fn push_text(out: &mut String, s: &str)
    ensures
        final(out)@ == old(out)@ + s@,
{
    out.append(s);
}

/// Appends `key = value` and a line end to `out`.
fn push_assignment(out: &mut String, key: &str, value: &str)
    ensures
        final(out)@ == old(out)@ + assignment(key@, value@) + seq!['\n'],
{
    push_text(out, key);
    push_char(out, ' ');
    push_char(out, '=');
    push_char(out, ' ');
    push_text(out, value);
    push_char(out, '\n');
    assert(out@ =~= old(out)@ + assignment(key@, value@) + seq!['\n']);
}

/// The text that replaces a config file: `lines` written back in order,
/// with any key present in `pending_edits` substituted in place, then each
/// key of `pending_edits` that no line sets, in ascending key order, as
/// `key = value`. Every line ends with `\n`.
pub fn render_config(lines: &[Line], pending_edits: &StringMap) -> (r: String)
    ensures
        r@ == join_lines(rendered_lines(lines_view(lines@), pending_edits.entries_view())),
{
    pending_edits.reveal_sorted();
    let ghost lv = lines_view(lines@);
    let ghost es = pending_edits.entries_view();
    let ghost edits = entries_map(es);
    let ghost rl = lv.map_values(|l: LineView| render_line(l, edits));
    let n = pending_edits.len();
    let mut written: Vec<bool> = Vec::new();
    while written.len() < n
        invariant
            written@.len() <= n,
            forall|i: int| 0 <= i < written@.len() ==> !written@[i],
        decreases n - written@.len(),
    {
        written.push(false);
    }
    assert(lv.take(0) =~= Seq::<LineView>::empty());
    let mut out = String::new();
    let mut j: usize = 0;
    while j < lines.len()
        invariant
            lv == lines_view(lines@),
            es == pending_edits.entries_view(),
            edits == entries_map(es),
            edits == pending_edits@,
            rl == lv.map_values(|l: LineView| render_line(l, edits)),
            crate::string_map::keys_distinct(es),
            n == es.len(),
            written@.len() == n,
            j <= lines@.len(),
            out@ == join_lines(rl.take(j as int)),
            forall|i: int|
                0 <= i < n ==> #[trigger] written@[i] == lines_map(lv.take(j as int)).contains_key(
                    es[i].0,
                ),
        decreases lines@.len() - j,
    {
        proof {
            assert(lv.take(j + 1).drop_last() =~= lv.take(j as int));
            assert(rl.take(j + 1) =~= rl.take(j as int).push(rl[j as int]));
            lemma_join_lines_push(rl.take(j as int), rl[j as int]);
        }
        match &lines[j] {
            Line::KeyValue { key, raw, .. } => {
                match pending_edits.position(key.as_str()) {
                    Some(i) => {
                        let (_, value) = pending_edits.entry_at(i);
                        proof {
                            lemma_entries_map_index(es, i as int);
                        }
                        push_assignment(&mut out, key.as_str(), value.as_str());
                        proof {
                            assert forall|a: int| 0 <= a < n && a != i implies es[a].0 != key@ by {
                                assert(es[a].0 != es[i as int].0);
                            }
                        }
                        written.set(i, true);
                    },
                    None => {
                        proof {
                            lemma_entries_map_dom(es, key@);
                        }
                        push_text(&mut out, raw.as_str());
                        push_char(&mut out, '\n');
                    },
                }
            },
            Line::Other(raw) => {
                push_text(&mut out, raw.as_str());
                push_char(&mut out, '\n');
            },
        }
        j = j + 1;
    }
    assert(rl.take(j as int) =~= rl);
    assert(lv.take(j as int) =~= lv);
    let ghost present = lines_map(lv);
    assert(es.take(0) =~= Seq::<(Seq<char>, Seq<char>)>::empty());
    assert(rl + appended_lines(es.take(0), present) =~= rl);
    let mut i: usize = 0;
    while i < n
        invariant
            es == pending_edits.entries_view(),
            present == lines_map(lv),
            n == es.len(),
            written@.len() == n,
            i <= n,
            out@ == join_lines(rl + appended_lines(es.take(i as int), present)),
            forall|a: int| 0 <= a < n ==> #[trigger] written@[a] == present.contains_key(es[a].0),
        decreases n - i,
    {
        proof {
            assert(es.take(i + 1).drop_last() =~= es.take(i as int));
        }
        if !written[i] {
            let (key, value) = pending_edits.entry_at(i);
            proof {
                let x = assignment(es[i as int].0, es[i as int].1);
                assert(rl + appended_lines(es.take(i + 1), present) =~= (rl + appended_lines(
                    es.take(i as int),
                    present,
                )).push(x));
                lemma_join_lines_push(rl + appended_lines(es.take(i as int), present), x);
            }
            push_assignment(&mut out, key.as_str(), value.as_str());
        }
        i = i + 1;
    }
    assert(es.take(n as int) =~= es);
    out
}

/// `rest` put after the path `base`, with a `/` between them unless `base`
/// is empty or already ends with one. The result always starts with `base`.
pub open spec fn join_path(base: Seq<char>, rest: Seq<char>) -> Seq<char> {
    if base.len() == 0 || base.last() == '/' {
        base + rest
    } else {
        base + seq!['/'] + rest
    }
}

/// `path` with a leading `~` standing for `home`: `~` alone is `home`, and
/// `~/rest` is `rest` put after `home` (even where `rest` itself starts with
/// `/`); any other path is unchanged.
pub open spec fn expanded_path(path: Seq<char>, home: Seq<char>) -> Seq<char> {
    if path == seq!['~'] {
        home
    } else if path.len() >= 2 && path[0] == '~' && path[1] == '/' {
        join_path(home, path.skip(2))
    } else {
        path
    }
}

/// Expand a leading `~` in `path` to `home`.
pub fn expand_tilde_in(path: &str, home: &str) -> (r: String)
    ensures
        r@ == expanded_path(path@, home@),
{
    let p = crate::text::chars_of(path);
    let h = crate::text::chars_of(home);
    if p.len() == 1 && p[0] == '~' {
        assert(path@ =~= seq!['~']);
        return crate::text::string_from_chars(&h, 0, h.len());
    }
    if p.len() >= 2 && p[0] == '~' && p[1] == '/' {
        assert(path@ != seq!['~']);
        let rest = crate::text::string_from_chars(&p, 2, p.len());
        assert(rest@ =~= path@.skip(2));
        let mut r = crate::text::string_from_chars(&h, 0, h.len());
        assert(r@ =~= home@);
        if h.len() > 0 && h[h.len() - 1] != '/' {
            push_char(&mut r, '/');
        }
        push_text(&mut r, rest.as_str());
        return r;
    }
    let r = crate::text::string_from_chars(&p, 0, p.len());
    assert(r@ =~= path@);
    proof {
        if path@ == seq!['~'] {
            assert(path@.len() == 1);
        }
    }
    r
}

/// The directory of user schemas under `home`: `home/.config/cfgwow/schemas`.
pub open spec fn schema_dir_path(home: Seq<char>) -> Seq<char> {
    join_path(
        join_path(
            join_path(home, seq!['.', 'c', 'o', 'n', 'f', 'i', 'g']),
            seq!['c', 'f', 'g', 'w', 'o', 'w'],
        ),
        seq!['s', 'c', 'h', 'e', 'm', 'a', 's'],
    )
}

/// Appends `rest` to the path `base` as [`join_path`] does.
fn push_path(base: &mut String, rest: &str)
    ensures
        final(base)@ == join_path(old(base)@, rest@),
{
    let b = crate::text::chars_of(base.as_str());
    if b.len() > 0 && b[b.len() - 1] != '/' {
        push_char(base, '/');
    }
    push_text(base, rest);
}

/// The directory that holds the user's schemas, for the home directory `home`.
pub fn schema_dir_in(home: &str) -> (r: String)
    ensures
        r@ == schema_dir_path(home@),
{
    let h = crate::text::chars_of(home);
    let mut r = crate::text::string_from_chars(&h, 0, h.len());
    assert(r@ =~= home@);
    push_path(&mut r, ".config");
    push_path(&mut r, "cfgwow");
    push_path(&mut r, "schemas");
    proof {
        reveal_strlit(".config");
        reveal_strlit("cfgwow");
        reveal_strlit("schemas");
        assert(".config"@ =~= seq!['.', 'c', 'o', 'n', 'f', 'i', 'g']);
        assert("cfgwow"@ =~= seq!['c', 'f', 'g', 'w', 'o', 'w']);
        assert("schemas"@ =~= seq!['s', 'c', 'h', 'e', 'm', 'a', 's']);
    }
    r
}

} // verus!
