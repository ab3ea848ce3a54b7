//! What reading gives back of writing: the laws that tie [`read`] to
//! [`render_config`].
//!
//! [`read`]: crate::parsers::key_equals_value::read
//! [`render_config`]: crate::config_file::render_config

use vstd::prelude::*;

use crate::config_file::{appended_lines, assignment, render_line, rendered_lines};
use crate::parsers::key_equals_value::{parse_config, parse_line};
use crate::parsers::{line_entry, lines_map, raw_text, LineView};
use crate::string_map::{entries_map, lemma_entries_map_source};
use crate::text::{
    is_ws, join_lines, lemma_first_index, lemma_no_index, lemma_split_join_lines,
    lemma_split_lines_no_newline, lemma_trim_end_first, lemma_trim_push_ws, no_newline,
    split_lines, strip_cr, trim, trim_end, trim_start,
};

verus! {

/// A key that reads back as itself from `key = value`: not empty, without
/// whitespace at either end, not starting with `#`, and with no `=` and no
/// line break.
pub open spec fn clean_key(k: Seq<char>) -> bool {
    &&& k.len() > 0
    &&& !is_ws(k[0])
    &&& !is_ws(k.last())
    &&& k[0] != '#'
    &&& forall|j: int| 0 <= j < k.len() ==> #[trigger] k[j] != '=' && k[j] != '\n'
}

/// A value that reads back as itself from `key = value`: no whitespace at
/// either end and no line break.
pub open spec fn clean_value(v: Seq<char>) -> bool {
    &&& v.len() > 0 ==> !is_ws(v[0]) && !is_ws(v.last())
    &&& no_newline(v)
}

/// Every edit has a clean key and a clean value.
pub open spec fn clean_edits(es: Seq<(Seq<char>, Seq<char>)>) -> bool {
    forall|i: int| 0 <= i < es.len() ==> clean_key(#[trigger] es[i].0) && clean_value(es[i].1)
}

/// The lines of a text written back, each read again as `read` reads a line.
pub open spec fn reparse(ls: Seq<Seq<char>>) -> Seq<LineView> {
    ls.map_values(|l: Seq<char>| parse_line(strip_cr(l)))
}

/// `m` with the value of each of its keys that `e` has taken from `e`.
pub open spec fn overridden(
    m: Map<Seq<char>, Seq<char>>,
    e: Map<Seq<char>, Seq<char>>,
) -> Map<Seq<char>, Seq<char>> {
    Map::new(|k: Seq<char>| m.contains_key(k), |k: Seq<char>| if e.contains_key(k) { e[k] } else { m[k] })
}

/// The entry of a line whose value `e` may replace.
pub open spec fn edited_entry(
    x: Option<(Seq<char>, Seq<char>)>,
    e: Map<Seq<char>, Seq<char>>,
) -> Option<(Seq<char>, Seq<char>)> {
    match x {
        Some(kv) => Some((kv.0, if e.contains_key(kv.0) { e[kv.0] } else { kv.1 })),
        None => None,
    }
}

/// One carriage return at the end of a line does not change what it sets.
pub proof fn lemma_parse_strip_cr(l: Seq<char>)
    ensures
        line_entry(parse_line(strip_cr(l))) == line_entry(parse_line(l)),
{
    if l.len() > 0 && l.last() == '\r' {
        let p = l.drop_last();
        assert(p.push('\r') =~= l);
        lemma_trim_push_ws(p, '\r');
        p.index_of_first_ensures('=');
        match p.index_of_first('=') {
            Some(e) => {
                lemma_first_index(l, '=', e);
                assert(l.take(e) =~= p.take(e));
                assert(l.skip(e + 1) =~= p.skip(e + 1).push('\r'));
                lemma_trim_push_ws(p.skip(e + 1), '\r');
            },
            None => {
                lemma_no_index(l, '=');
            },
        }
    }
}

/// `key = value` with a clean key and value reads back as that key and value.
pub proof fn lemma_parse_assignment(k: Seq<char>, v: Seq<char>)
    requires
        clean_key(k),
        clean_value(v),
    ensures
        parse_line(assignment(k, v)) == (LineView::KeyValue { key: k, value: v, raw: assignment(k, v) }),
        strip_cr(assignment(k, v)) == assignment(k, v),
        no_newline(assignment(k, v)),
{
    let a = assignment(k, v);
    let n = k.len() as int;
    assert(a[0] == k[0]);
    assert(trim_start(a) == a);
    lemma_trim_end_first(a);
    assert(a[n] == ' ');
    assert(a[n + 1] == '=');
    assert forall|j: int| 0 <= j < n + 1 implies a[j] != '=' by {
        if j < n {
            assert(a[j] == k[j]);
        }
    }
    lemma_first_index(a, '=', n + 1);
    let key_part = a.take(n + 1);
    assert(key_part =~= k.push(' '));
    assert(key_part[0] == k[0]);
    assert(trim_start(key_part) == key_part);
    assert(k.push(' ').drop_last() =~= k);
    assert(trim_end(k) == k);
    let value_part = a.skip(n + 2);
    assert(value_part =~= seq![' '] + v);
    assert(value_part.drop_first() =~= v);
    assert(trim_start(v) == v);
    assert(trim_end(v) == v);
    assert(trim(value_part) == v);
    if v.len() > 0 {
        assert(a.last() == v.last());
    } else {
        assert(a.last() == ' ');
    }
    assert forall|j: int| 0 <= j < a.len() implies a[j] != '\n' by {
        if j < n {
            assert(a[j] == k[j]);
        } else if j >= n + 3 {
            assert(a[j] == v[j - n - 3]);
        }
    }
}

/// A line read from a file, written back with the edits `e` and read again,
/// sets what it set before, with the value replaced where `e` has the key.
pub proof fn lemma_render_line_entry(raw: Seq<char>, e: Map<Seq<char>, Seq<char>>)
    requires
        forall|k: Seq<char>| #[trigger] e.contains_key(k) ==> clean_key(k) && clean_value(e[k]),
    ensures
        line_entry(parse_line(strip_cr(render_line(parse_line(raw), e)))) == edited_entry(
            line_entry(parse_line(raw)),
            e,
        ),
{
    lemma_parse_strip_cr(raw);
    match parse_line(raw) {
        LineView::KeyValue { key, value, .. } => {
            if e.contains_key(key) {
                lemma_parse_assignment(key, e[key]);
            }
        },
        LineView::Other(_) => {},
    }
}

/// Replacing values line by line replaces them in the map the lines set.
pub proof fn lemma_lines_map_edited(a: Seq<LineView>, b: Seq<LineView>, e: Map<Seq<char>, Seq<char>>)
    requires
        a.len() == b.len(),
        forall|i: int| 0 <= i < a.len() ==> line_entry(#[trigger] b[i]) == edited_entry(line_entry(a[i]), e),
    ensures
        lines_map(b) == overridden(lines_map(a), e),
    decreases a.len(),
{
    if a.len() == 0 {
        assert(lines_map(b) =~= overridden(lines_map(a), e));
    } else {
        let a0 = a.drop_last();
        let b0 = b.drop_last();
        assert forall|i: int| 0 <= i < a0.len() implies line_entry(#[trigger] b0[i]) == edited_entry(
            line_entry(a0[i]),
            e,
        ) by {
            assert(b0[i] == b[i] && a0[i] == a[i]);
        }
        lemma_lines_map_edited(a0, b0, e);
        assert(line_entry(b.last()) == edited_entry(line_entry(a.last()), e));
        assert(lines_map(b) =~= overridden(lines_map(a), e));
    }
}

/// Reading the appended lines adds the edits whose keys were not present.
pub proof fn lemma_lines_map_appended(
    x: Seq<LineView>,
    es: Seq<(Seq<char>, Seq<char>)>,
    present: Map<Seq<char>, Seq<char>>,
)
    requires
        clean_edits(es),
    ensures
        lines_map(x + reparse(appended_lines(es, present))) == lines_map(x).union_prefer_right(
            entries_map(es).remove_keys(present.dom()),
        ),
    decreases es.len(),
{
    if es.len() == 0 {
        assert(x + reparse(appended_lines(es, present)) =~= x);
        assert(lines_map(x).union_prefer_right(entries_map(es).remove_keys(present.dom()))
            =~= lines_map(x));
    } else {
        let init = es.drop_last();
        let e = es.last();
        assert(clean_edits(init)) by {
            assert forall|i: int| 0 <= i < init.len() implies clean_key(#[trigger] init[i].0)
                && clean_value(init[i].1) by {
                assert(init[i] == es[i]);
            }
        }
        lemma_lines_map_appended(x, init, present);
        let rest = appended_lines(init, present);
        if present.contains_key(e.0) {
            assert(entries_map(es).remove_keys(present.dom()) =~= entries_map(init).remove_keys(
                present.dom(),
            ));
        } else {
            assert(clean_key(es[es.len() - 1].0) && clean_value(es[es.len() - 1].1));
            lemma_parse_assignment(e.0, e.1);
            let a = assignment(e.0, e.1);
            assert(reparse(rest.push(a)) =~= reparse(rest).push(parse_line(a)));
            assert(x + reparse(rest).push(parse_line(a)) =~= (x + reparse(rest)).push(
                parse_line(a),
            ));
            assert((x + reparse(rest).push(parse_line(a))).drop_last() =~= x + reparse(rest));
            assert(lines_map(x).union_prefer_right(entries_map(es).remove_keys(present.dom()))
                =~= lines_map(x).union_prefer_right(
                entries_map(init).remove_keys(present.dom()),
            ).insert(e.0, e.1));
        }
    }
}

/// Reading back what was written with clean edits gives the values read
/// before, overridden by the edits, with the keys that were not in the file
/// added: `read(write(read(src), edits)) == read(src) + edits` for the maps.
pub proof fn lemma_write_read_round_trip(src: Seq<char>, es: Seq<(Seq<char>, Seq<char>)>)
    requires
        clean_edits(es),
    ensures
        lines_map(parse_config(join_lines(rendered_lines(parse_config(src), es)))) == lines_map(
            parse_config(src),
        ).union_prefer_right(entries_map(es)),
{
    let p = parse_config(src);
    let e = entries_map(es);
    let m = lines_map(p);
    let sl = split_lines(src);
    let r1 = p.map_values(|l: LineView| render_line(l, e));
    let r2 = appended_lines(es, m);
    let r = rendered_lines(p, es);
    assert(r == r1 + r2);
    assert forall|k: Seq<char>| #[trigger] e.contains_key(k) implies clean_key(k) && clean_value(
        e[k],
    ) by {
        lemma_entries_map_source(es, k);
        let i = choose|i: int| 0 <= i < es.len() && #[trigger] es[i] == (k, e[k]);
        assert(clean_key(es[i].0) && clean_value(es[i].1));
    }
    // every written line is free of line breaks
    lemma_split_lines_no_newline(src);
    assert forall|i: int| 0 <= i < r1.len() implies no_newline(#[trigger] r1[i]) by {
        assert(p[i] == parse_line(sl[i]));
        assert(no_newline(sl[i]));
        match p[i] {
            LineView::KeyValue { key, .. } => {
                if e.contains_key(key) {
                    lemma_parse_assignment(key, e[key]);
                }
            },
            LineView::Other(_) => {},
        }
    }
    assert forall|i: int| 0 <= i < r2.len() implies no_newline(#[trigger] r2[i]) by {
        lemma_appended_no_newline(es, m, i);
    }
    assert forall|i: int| 0 <= i < r.len() implies no_newline(#[trigger] r[i]) by {
        if i < r1.len() {
            assert(r[i] == r1[i]);
        } else {
            assert(r[i] == r2[i - r1.len()]);
        }
    }
    lemma_split_join_lines(r);
    let q = parse_config(join_lines(r));
    assert(q =~= reparse(r1) + reparse(r2));
    // the lines of the file
    assert forall|i: int| 0 <= i < p.len() implies line_entry(#[trigger] reparse(r1)[i])
        == edited_entry(line_entry(p[i]), e) by {
        assert(p[i] == parse_line(sl[i]));
        lemma_render_line_entry(sl[i], e);
    }
    lemma_lines_map_edited(p, reparse(r1), e);
    // the appended lines
    lemma_lines_map_appended(reparse(r1), es, m);
    assert(lines_map(q) =~= m.union_prefer_right(e));
}

/// Joining the lines of a text gives the text back when it uses `\n` line
/// ends, holds no `\r`, and is empty or ends with `\n`.
pub proof fn lemma_join_split_lines(s: Seq<char>)
    requires
        forall|j: int| 0 <= j < s.len() ==> s[j] != '\r',
        s.len() == 0 || s.last() == '\n',
    ensures
        join_lines(split_lines(s)) == s,
    decreases s.len(),
{
    if s.len() > 0 {
        s.index_of_first_ensures('\n');
        assert(s.contains('\n')) by {
            assert(s[s.len() - 1] == '\n');
        }
        let i = s.index_of_first('\n').unwrap();
        let rest = s.skip(i + 1);
        if rest.len() > 0 {
            assert(rest.last() == s.last());
        }
        lemma_join_split_lines(rest);
        let first = s.take(i);
        if first.len() > 0 {
            assert(first.last() == s[i - 1]);
        }
        assert(strip_cr(first) == first);
        let ls = split_lines(s);
        assert(ls =~= seq![first] + split_lines(rest));
        assert(ls[0] == first);
        assert(ls.drop_first() =~= split_lines(rest));
        assert(join_lines(ls) =~= s);
    }
}

/// Writing back with no edits gives each line of the file as it was read:
/// the file itself when it uses `\n` line ends, holds no `\r`, and ends with
/// a line break (or is empty).
pub proof fn lemma_unedited_write_back(src: Seq<char>)
    ensures
        rendered_lines(parse_config(src), seq![]) == split_lines(src),
        (forall|j: int| 0 <= j < src.len() ==> src[j] != '\r') && (src.len() == 0 || src.last()
            == '\n') ==> join_lines(rendered_lines(parse_config(src), seq![])) == src,
{
    let p = parse_config(src);
    let sl = split_lines(src);
    let none = Seq::<(Seq<char>, Seq<char>)>::empty();
    assert(entries_map(none) == Map::<Seq<char>, Seq<char>>::empty());
    assert(appended_lines(none, lines_map(p)) == Seq::<Seq<char>>::empty());
    let r1 = p.map_values(|l: LineView| render_line(l, entries_map(none)));
    assert forall|i: int| 0 <= i < sl.len() implies #[trigger] r1[i] == sl[i] by {
        assert(p[i] == parse_line(sl[i]));
        assert(raw_text(parse_line(sl[i])) == sl[i]);
    }
    assert(rendered_lines(p, none) =~= sl);
    if (forall|j: int| 0 <= j < src.len() ==> src[j] != '\r') && (src.len() == 0 || src.last()
        == '\n') {
        lemma_join_split_lines(src);
    }
}

/// The appended lines hold no line break.
proof fn lemma_appended_no_newline(
    es: Seq<(Seq<char>, Seq<char>)>,
    present: Map<Seq<char>, Seq<char>>,
    i: int,
)
    requires
        clean_edits(es),
        0 <= i < appended_lines(es, present).len(),
    ensures
        no_newline(appended_lines(es, present)[i]),
    decreases es.len(),
{
    let init = es.drop_last();
    assert(clean_edits(init)) by {
        assert forall|j: int| 0 <= j < init.len() implies clean_key(#[trigger] init[j].0)
            && clean_value(init[j].1) by {
            assert(init[j] == es[j]);
        }
    }
    let rest = appended_lines(init, present);
    if i < rest.len() {
        lemma_appended_no_newline(init, present, i);
    } else {
        assert(clean_key(es[es.len() - 1].0) && clean_value(es[es.len() - 1].1));
        lemma_parse_assignment(es.last().0, es.last().1);
    }
}

} // verus!
