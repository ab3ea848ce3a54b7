//! The Ghostty-style `key = value` config format.

use vstd::prelude::*;

use crate::parsers::{lines_map, lines_view, raw_text, Line, LineView};
use crate::string_map::StringMap;
use crate::text::{
    chars_of, is_ws, lemma_first_index, lemma_no_index, lemma_trim_bounds, line_ranges, split_lines,
    string_from_chars, trim, trim_range,
};

verus! {

/// How one line of the file is read: a blank line or one whose first
/// non-blank character is `#` is kept as it is; a line with an `=` is split
/// at the first `=` into a trimmed key and a trimmed value, unless the key is
/// empty; any other line is kept as it is.
pub open spec fn parse_line(raw: Seq<char>) -> LineView {
    let t = trim(raw);
    if t.len() == 0 || t[0] == '#' {
        LineView::Other(raw)
    } else {
        match raw.index_of_first('=') {
            Some(e) => {
                let key = trim(raw.take(e));
                if key.len() > 0 {
                    LineView::KeyValue { key, value: trim(raw.skip(e + 1)), raw }
                } else {
                    LineView::Other(raw)
                }
            },
            None => LineView::Other(raw),
        }
    }
}

/// The lines of a config source, each read by [`parse_line`].
pub open spec fn parse_config(src: Seq<char>) -> Seq<LineView> {
    split_lines(src).map_values(|l: Seq<char>| parse_line(l))
}

/// Every line is kept with its text exactly as it stood in the file.
pub proof fn lemma_parse_keeps_raw(raw: Seq<char>)
    ensures
        raw_text(parse_line(raw)) == raw,
{
}

/// The layout of a `key = value` line: it is the key and the value, each
/// surrounded only by whitespace, around the first `=` of the line. So the
/// key is everything before the first `=` and the value everything after it,
/// less the whitespace at their ends; the key holds no `=`, does not start
/// with `#`, and neither key nor value starts or ends with whitespace.
/// The result gives the positions: the key is `raw[a..b]`, the `=` is at
/// `e`, and the value is `raw[c..d]`.
pub proof fn lemma_key_value_layout(raw: Seq<char>) -> (pos: (int, int, int, int, int))
    requires
        parse_line(raw) is KeyValue,
    ensures
        ({
            let (a, b, e, c, d) = pos;
            match parse_line(raw) {
                LineView::KeyValue { key, value, .. } => {
                    &&& 0 <= a < b <= e < raw.len()
                    &&& e + 1 <= c <= d <= raw.len()
                    &&& raw[e] == '='
                    &&& forall|j: int| 0 <= j < e ==> #[trigger] raw[j] != '='
                    &&& key == raw.subrange(a, b)
                    &&& value == raw.subrange(c, d)
                    &&& forall|j: int| 0 <= j < a ==> is_ws(#[trigger] raw[j])
                    &&& forall|j: int| b <= j < e ==> is_ws(#[trigger] raw[j])
                    &&& forall|j: int| e + 1 <= j < c ==> is_ws(#[trigger] raw[j])
                    &&& forall|j: int| d <= j < raw.len() ==> is_ws(#[trigger] raw[j])
                    &&& !is_ws(raw[a]) && !is_ws(raw[b - 1]) && raw[a] != '#'
                    &&& c < d ==> !is_ws(raw[c]) && !is_ws(raw[d - 1])
                },
                LineView::Other(_) => false,
            }
        }),
{
    raw.index_of_first_ensures('=');
    let e = raw.index_of_first('=').unwrap();
    let kp = raw.take(e);
    let (a, b) = lemma_trim_bounds(kp);
    assert(kp.subrange(a, b) =~= raw.subrange(a, b));
    let vp = raw.skip(e + 1);
    let (c0, d0) = lemma_trim_bounds(vp);
    assert(vp.subrange(c0, d0) =~= raw.subrange(e + 1 + c0, e + 1 + d0));
    assert forall|j: int| 0 <= j < a implies is_ws(#[trigger] raw[j]) by {
        assert(raw[j] == kp[j]);
    }
    assert forall|j: int| b <= j < e implies is_ws(#[trigger] raw[j]) by {
        assert(raw[j] == kp[j]);
    }
    assert forall|j: int| e + 1 <= j < e + 1 + c0 implies is_ws(#[trigger] raw[j]) by {
        assert(raw[j] == vp[j - e - 1]);
    }
    assert forall|j: int| e + 1 + d0 <= j < raw.len() implies is_ws(#[trigger] raw[j]) by {
        assert(raw[j] == vp[j - e - 1]);
    }
    assert(raw[a] == kp[a] && raw[b - 1] == kp[b - 1]);
    if c0 < d0 {
        assert(raw[e + 1 + c0] == vp[c0] && raw[e + d0] == vp[d0 - 1]);
    }
    // the first non-whitespace character of the line is the key's first
    let (ta, tb) = lemma_trim_bounds(raw);
    assert(trim(raw).len() > 0);
    if ta < a {
        assert(raw[ta] == kp[ta]);
    }
    if ta > a {
        assert(is_ws(raw[a]));
    }
    assert(trim(raw)[0] == raw[ta]);
    (a, b, e, e + 1 + c0, e + 1 + d0)
}

/// A line whose first non-whitespace character is not `#` and comes before
/// the line's first `=` is a `key = value` line.
pub proof fn lemma_key_value_recognized(raw: Seq<char>, j: int, e: int)
    requires
        0 <= j < e < raw.len(),
        raw[e] == '=',
        forall|i: int| 0 <= i < e ==> #[trigger] raw[i] != '=',
        !is_ws(raw[j]),
        raw[j] != '#',
        forall|i: int| 0 <= i < j ==> is_ws(#[trigger] raw[i]),
    ensures
        parse_line(raw) is KeyValue,
{
    lemma_first_index(raw, '=', e);
    let (ta, tb) = lemma_trim_bounds(raw);
    if ta == tb {
        assert(is_ws(raw[j]));
    }
    if ta < j {
        assert(is_ws(raw[ta]));
    }
    if ta > j {
        assert(is_ws(raw[j]));
    }
    assert(trim(raw)[0] == raw[ta]);
    let kp = raw.take(e);
    let (ka, kb) = lemma_trim_bounds(kp);
    if ka == kb {
        assert(is_ws(kp[j]));
    }
}

/// A line that is blank, or whose first non-whitespace character is `#`,
/// is kept as it is and sets nothing, whatever else it holds.
pub proof fn lemma_comment_or_blank_kept(raw: Seq<char>, j: int)
    requires
        (forall|i: int| 0 <= i < raw.len() ==> is_ws(#[trigger] raw[i])) || (0 <= j < raw.len()
            && raw[j] == '#' && forall|i: int| 0 <= i < j ==> is_ws(#[trigger] raw[i])),
    ensures
        parse_line(raw) == LineView::Other(raw),
{
    let (ta, tb) = lemma_trim_bounds(raw);
    if forall|i: int| 0 <= i < raw.len() ==> is_ws(#[trigger] raw[i]) {
        if ta < tb {
            assert(is_ws(raw[ta]));
        }
    } else {
        assert(!is_ws(raw[j]));
        if ta == tb {
            assert(is_ws(raw[j]));
        }
        if ta < j {
            assert(is_ws(raw[ta]));
        }
        if ta > j {
            assert(is_ws(raw[j]));
        }
        assert(trim(raw)[0] == raw[ta]);
    }
}

/// Reads the line `chars[lo..hi]`.
fn parse_line_at(chars: &Vec<char>, lo: usize, hi: usize) -> (r: Line)
    requires
        lo <= hi <= chars@.len(),
    ensures
        r@ == parse_line(chars@.subrange(lo as int, hi as int)),
{
    let ghost s = chars@.subrange(lo as int, hi as int);
    let raw = string_from_chars(chars, lo, hi);
    let (a, b) = trim_range(chars, lo, hi);
    if a == b || chars[a] == '#' {
        return Line::Other(raw);
    }
    let mut e = lo;
    while e < hi && chars[e] != '='
        invariant
            lo <= e <= hi <= chars@.len(),
            s == chars@.subrange(lo as int, hi as int),
            forall|j: int| 0 <= j < e - lo ==> s[j] != '=',
        decreases hi - e,
    {
        e = e + 1;
    }
    if e < hi {
        proof {
            lemma_first_index(s, '=', e - lo);
            assert(s.take(e - lo) =~= chars@.subrange(lo as int, e as int));
            assert(s.skip(e - lo + 1) =~= chars@.subrange(e + 1, hi as int));
        }
        let (ka, kb) = trim_range(chars, lo, e);
        if ka < kb {
            let (va, vb) = trim_range(chars, e + 1, hi);
            let key = string_from_chars(chars, ka, kb);
            let value = string_from_chars(chars, va, vb);
            return Line::KeyValue { key, value, raw };
        }
    } else {
        proof {
            lemma_no_index(s, '=');
        }
    }
    Line::Other(raw)
}

/// Parse a Ghostty-style `key = value` config source into an ordered list of
/// [`Line`]s and a lookup map of key → value.
///
/// Lines that are blank or start with `#` are stored as [`Line::Other`].
/// Lines containing `=` are split on the *first* `=` and stored as
/// [`Line::KeyValue`]; any remaining text is part of the value.
/// Everything else is also [`Line::Other`].
pub fn read(src: &str) -> (r: (Vec<Line>, StringMap))
    ensures
        lines_view(r.0@) == parse_config(src@),
        r.1@ == lines_map(parse_config(src@)),
{
    let chars = chars_of(src);
    let ranges = line_ranges(&chars);
    let ghost parsed = parse_config(src@);
    let mut lines: Vec<Line> = Vec::new();
    let mut map = StringMap::new();
    let mut k: usize = 0;
    while k < ranges.len()
        invariant
            chars@ == src@,
            parsed == parse_config(src@),
            ranges@.len() == split_lines(chars@).len(),
            forall|j: int|
                0 <= j < ranges@.len() ==> {
                    &&& (#[trigger] ranges@[j]).0 <= ranges@[j].1 <= chars@.len()
                    &&& chars@.subrange(ranges@[j].0 as int, ranges@[j].1 as int) == split_lines(
                        chars@,
                    )[j]
                },
            k <= ranges@.len(),
            lines_view(lines@) == parsed.take(k as int),
            map@ == lines_map(parsed.take(k as int)),
        decreases ranges@.len() - k,
    {
        let (lo, hi) = ranges[k];
        let line = parse_line_at(&chars, lo, hi);
        assert(line@ == parsed[k as int]);
        assert(parsed.take(k + 1).drop_last() =~= parsed.take(k as int));
        match &line {
            Line::KeyValue { key, value, .. } => {
                map.insert(key.clone(), value.clone());
            },
            Line::Other(_) => {},
        }
        lines.push(line);
        assert(lines_view(lines@) =~= parsed.take(k + 1));
        k = k + 1;
    }
    assert(parsed.take(k as int) =~= parsed);
    (lines, map)
}

} // verus!
