//! Parsers for tool config files.

pub mod key_equals_value;

use vstd::prelude::*;

verus! {

/// A single line from a config file, preserving enough information for
/// lossless write-back.
#[derive(Debug, Clone)]
pub enum Line {
    /// A parsed `key = value` (or equivalent) line.
    KeyValue { key: String, value: String, raw: String },
    /// Any other line (comment, blank, unknown) stored verbatim.
    Other(String),
}

/// A [`Line`] with its texts as character sequences.
pub enum LineView {
    KeyValue { key: Seq<char>, value: Seq<char>, raw: Seq<char> },
    Other(Seq<char>),
}

impl View for Line {
    type V = LineView;

    open spec fn view(&self) -> LineView {
        match self {
            Line::KeyValue { key, value, raw } => LineView::KeyValue {
                key: key@,
                value: value@,
                raw: raw@,
            },
            Line::Other(raw) => LineView::Other(raw@),
        }
    }
}

/// The views of a list of lines.
pub open spec fn lines_view(lines: Seq<Line>) -> Seq<LineView> {
    lines.map_values(|l: Line| l@)
}

/// The text of the line as it stood in the file.
pub open spec fn raw_text(l: LineView) -> Seq<char> {
    match l {
        LineView::KeyValue { raw, .. } => raw,
        LineView::Other(raw) => raw,
    }
}

/// The key–value pair that a line sets, if it sets one.
pub open spec fn line_entry(l: LineView) -> Option<(Seq<char>, Seq<char>)> {
    match l {
        LineView::KeyValue { key, value, .. } => Some((key, value)),
        LineView::Other(_) => None,
    }
}

/// The values that a list of lines sets: each key maps to the value of the
/// last line that sets it.
pub open spec fn lines_map(lines: Seq<LineView>) -> Map<Seq<char>, Seq<char>>
    decreases lines.len(),
{
    if lines.len() == 0 {
        Map::empty()
    } else {
        let m = lines_map(lines.drop_last());
        match line_entry(lines.last()) {
            Some(kv) => m.insert(kv.0, kv.1),
            None => m,
        }
    }
}

} // verus!
