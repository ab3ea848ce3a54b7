//! Character-level text primitives shared by the parser and the writer:
//! Unicode whitespace, trimming, and line splitting.

use vstd::prelude::*;
use vstd::std_specs::iter::IteratorSpec;

verus! {

/// The Unicode `White_Space` property, as `char::is_whitespace` decides it.
pub open spec fn is_ws(c: char) -> bool {
    let u = c as u32;
    ||| 0x09 <= u <= 0x0d
    ||| u == 0x20
    ||| u == 0x85
    ||| u == 0xa0
    ||| u == 0x1680
    ||| 0x2000 <= u <= 0x200a
    ||| u == 0x2028
    ||| u == 0x2029
    ||| u == 0x202f
    ||| u == 0x205f
    ||| u == 0x3000
}

/// Executable counterpart of [`is_ws`].
pub fn is_whitespace(c: char) -> (r: bool)
    ensures
        r == is_ws(c),
{
    let u = c as u32;
    (0x09 <= u && u <= 0x0d) || u == 0x20 || u == 0x85 || u == 0xa0 || u == 0x1680 || (0x2000
        <= u && u <= 0x200a) || u == 0x2028 || u == 0x2029 || u == 0x202f || u == 0x205f || u
        == 0x3000
}

/// `s` without its leading whitespace (`str::trim_start`).
pub open spec fn trim_start(s: Seq<char>) -> Seq<char>
    decreases s.len(),
{
    if s.len() > 0 && is_ws(s[0]) {
        trim_start(s.drop_first())
    } else {
        s
    }
}

/// `s` without its trailing whitespace (`str::trim_end`).
pub open spec fn trim_end(s: Seq<char>) -> Seq<char>
    decreases s.len(),
{
    if s.len() > 0 && is_ws(s.last()) {
        trim_end(s.drop_last())
    } else {
        s
    }
}

/// `s` without leading and trailing whitespace (`str::trim`).
pub open spec fn trim(s: Seq<char>) -> Seq<char> {
    trim_end(trim_start(s))
}

/// A line with one carriage return removed from its end, if it has one.
pub open spec fn strip_cr(l: Seq<char>) -> Seq<char> {
    if l.len() > 0 && l.last() == '\r' {
        l.drop_last()
    } else {
        l
    }
}

/// The lines of `s` as `str::lines` yields them: each line ends at a `\n`
/// (a `\r` just before it is dropped too), a final line without `\n` is kept,
/// and no empty line follows a final `\n`.
pub open spec fn split_lines(s: Seq<char>) -> Seq<Seq<char>>
    decreases s.len(),
{
    if s.len() == 0 {
        seq![]
    } else {
        match s.index_of_first('\n') {
            Some(i) => {
                proof {
                    s.index_of_first_ensures('\n');
                }
                seq![strip_cr(s.take(i))] + split_lines(s.skip(i + 1))
            },
            None => seq![s],
        }
    }
}

/// The text made of `lines`, each followed by `\n`.
pub open spec fn join_lines(lines: Seq<Seq<char>>) -> Seq<char>
    decreases lines.len(),
{
    if lines.len() == 0 {
        seq![]
    } else {
        lines[0] + seq!['\n'] + join_lines(lines.drop_first())
    }
}

/// `i` is the first position of `c` in `s`.
pub proof fn lemma_first_index(s: Seq<char>, c: char, i: int)
    requires
        0 <= i < s.len(),
        s[i] == c,
        forall|j: int| 0 <= j < i ==> s[j] != c,
    ensures
        s.index_of_first(c) == Some(i),
{
    s.index_of_first_ensures(c);
}

/// `c` does not occur in `s`.
pub proof fn lemma_no_index(s: Seq<char>, c: char)
    requires
        forall|j: int| 0 <= j < s.len() ==> s[j] != c,
    ensures
        s.index_of_first(c) is None,
{
    s.index_of_first_ensures(c);
}

/// `l` holds no line break.
pub open spec fn no_newline(l: Seq<char>) -> bool {
    forall|j: int| 0 <= j < l.len() ==> l[j] != '\n'
}

/// Trimming the start of `p` with one more character at its end: the
/// character stays at the end, unless all of `p` was whitespace.
pub proof fn lemma_trim_start_push(p: Seq<char>, c: char)
    ensures
        trim_start(p.push(c)) == trim_start(p).push(c) || (trim_start(p).len() == 0
            && trim_start(p.push(c)) == trim_start(seq![c])),
    decreases p.len(),
{
    if p.len() == 0 {
        assert(p.push(c) =~= seq![c]);
    } else if is_ws(p[0]) {
        assert(p.push(c).drop_first() =~= p.drop_first().push(c));
        lemma_trim_start_push(p.drop_first(), c);
    }
}

/// Whitespace at the end does not change what `trim` gives.
pub proof fn lemma_trim_push_ws(p: Seq<char>, c: char)
    requires
        is_ws(c),
    ensures
        trim(p.push(c)) == trim(p),
{
    lemma_trim_start_push(p, c);
    let e = Seq::<char>::empty();
    assert(seq![c].drop_first() =~= e);
    assert(trim_start(seq![c]) == trim_start(e));
    if trim_start(p.push(c)) == trim_start(p).push(c) {
        assert(trim_start(p).push(c).drop_last() =~= trim_start(p));
    } else {
        assert(trim_start(p) =~= e);
    }
}

/// A text that starts with a non-whitespace character keeps that character
/// first when trimmed at its end.
pub proof fn lemma_trim_end_first(s: Seq<char>)
    requires
        s.len() > 0,
        !is_ws(s[0]),
    ensures
        trim_end(s).len() > 0,
        trim_end(s)[0] == s[0],
    decreases s.len(),
{
    if is_ws(s.last()) {
        lemma_trim_end_first(s.drop_last());
    }
}

/// Trimming the start of `s` drops exactly its leading whitespace: the
/// result is `s` from the first non-whitespace character on.
pub proof fn lemma_trim_start_skip(s: Seq<char>) -> (a: int)
    ensures
        0 <= a <= s.len(),
        trim_start(s) == s.skip(a),
        forall|j: int| 0 <= j < a ==> is_ws(#[trigger] s[j]),
        a < s.len() ==> !is_ws(s[a]),
    decreases s.len(),
{
    if s.len() > 0 && is_ws(s[0]) {
        let t = s.drop_first();
        let a1 = lemma_trim_start_skip(t);
        assert(t.skip(a1) =~= s.skip(a1 + 1));
        assert forall|j: int| 0 <= j < a1 + 1 implies is_ws(#[trigger] s[j]) by {
            if j > 0 {
                assert(s[j] == t[j - 1]);
            }
        }
        a1 + 1
    } else {
        assert(s.skip(0) =~= s);
        0
    }
}

/// Trimming the end of `s` drops exactly its trailing whitespace: the result
/// is `s` up to and including its last non-whitespace character.
pub proof fn lemma_trim_end_take(s: Seq<char>) -> (b: int)
    ensures
        0 <= b <= s.len(),
        trim_end(s) == s.take(b),
        forall|j: int| b <= j < s.len() ==> is_ws(#[trigger] s[j]),
        b > 0 ==> !is_ws(s[b - 1]),
    decreases s.len(),
{
    if s.len() > 0 && is_ws(s.last()) {
        let t = s.drop_last();
        let b1 = lemma_trim_end_take(t);
        assert(t.take(b1) =~= s.take(b1));
        assert forall|j: int| b1 <= j < s.len() implies is_ws(#[trigger] s[j]) by {
            if j < s.len() - 1 {
                assert(s[j] == t[j]);
            }
        }
        if b1 > 0 {
            assert(s[b1 - 1] == t[b1 - 1]);
        }
        b1
    } else {
        assert(s.take(s.len() as int) =~= s);
        s.len() as int
    }
}

/// `trim(s)` is the part of `s` between its leading and its trailing
/// whitespace: only whitespace lies outside it, and it neither starts nor
/// ends with whitespace.
pub proof fn lemma_trim_bounds(s: Seq<char>) -> (r: (int, int))
    ensures
        0 <= r.0 <= r.1 <= s.len(),
        trim(s) == s.subrange(r.0, r.1),
        forall|j: int| 0 <= j < r.0 ==> is_ws(#[trigger] s[j]),
        forall|j: int| r.1 <= j < s.len() ==> is_ws(#[trigger] s[j]),
        r.0 < r.1 ==> !is_ws(s[r.0]) && !is_ws(s[r.1 - 1]),
        r.0 == r.1 ==> forall|j: int| 0 <= j < s.len() ==> is_ws(#[trigger] s[j]),
{
    let a = lemma_trim_start_skip(s);
    let t = s.skip(a);
    let b = lemma_trim_end_take(t);
    assert(t.take(b) =~= s.subrange(a, a + b));
    assert forall|j: int| a + b <= j < s.len() implies is_ws(#[trigger] s[j]) by {
        assert(s[j] == t[j - a]);
    }
    if b > 0 {
        assert(s[a + b - 1] == t[b - 1]);
    }
    (a, a + b)
}

/// The lines of a text hold no line break.
pub proof fn lemma_split_lines_no_newline(s: Seq<char>)
    ensures
        forall|i: int| 0 <= i < split_lines(s).len() ==> no_newline(#[trigger] split_lines(s)[i]),
    decreases s.len(),
{
    if s.len() > 0 {
        s.index_of_first_ensures('\n');
        match s.index_of_first('\n') {
            Some(i) => {
                lemma_split_lines_no_newline(s.skip(i + 1));
                let first = strip_cr(s.take(i));
                assert(no_newline(first));
                let rest = split_lines(s.skip(i + 1));
                assert(split_lines(s) =~= seq![first] + rest);
                assert forall|k: int| 0 <= k < split_lines(s).len() implies no_newline(
                    #[trigger] split_lines(s)[k],
                ) by {
                    if k > 0 {
                        assert(split_lines(s)[k] == rest[k - 1]);
                    }
                }
            },
            None => {},
        }
    }
}

/// Splitting the joined lines gives the lines back, each without one final
/// carriage return.
pub proof fn lemma_split_join_lines(ls: Seq<Seq<char>>)
    requires
        forall|i: int| 0 <= i < ls.len() ==> no_newline(#[trigger] ls[i]),
    ensures
        split_lines(join_lines(ls)) == ls.map_values(|l: Seq<char>| strip_cr(l)),
    decreases ls.len(),
{
    if ls.len() == 0 {
        assert(ls.map_values(|l: Seq<char>| strip_cr(l)) =~= Seq::<Seq<char>>::empty());
    } else {
        let rest = ls.drop_first();
        assert forall|i: int| 0 <= i < rest.len() implies no_newline(#[trigger] rest[i]) by {
            assert(rest[i] == ls[i + 1]);
        }
        lemma_split_join_lines(rest);
        let l0 = ls[0];
        assert(no_newline(l0));
        let s = join_lines(ls);
        assert(s == l0 + seq!['\n'] + join_lines(rest));
        assert(s[l0.len() as int] == '\n');
        assert forall|j: int| 0 <= j < l0.len() implies s[j] != '\n' by {
            assert(s[j] == l0[j]);
        }
        lemma_first_index(s, '\n', l0.len() as int);
        assert(s.take(l0.len() as int) =~= l0);
        assert(s.skip(l0.len() as int + 1) =~= join_lines(rest));
        assert(split_lines(s) =~= ls.map_values(|l: Seq<char>| strip_cr(l)));
    }
}

/// Appends one character to a `String` (`String::push`).
#[verifier::external_body]
pub(crate) fn push_char(s: &mut String, c: char)
    ensures
        final(s)@ == old(s)@.push(c),
{
    s.push(c);
}

/// The characters of `s`, in order.
pub fn chars_of(s: &str) -> (v: Vec<char>)
    ensures
        v@ == s@,
{
    broadcast use vstd::string::group_string_axioms;

    let mut v: Vec<char> = Vec::new();
    let mut it = s.chars();
    loop
        invariant
            v@ + it.remaining() == s@,
            it.decrease() is Some,
        decreases it.decrease()->0,
    {
        match it.next() {
            Some(c) => {
                v.push(c);
            },
            None => {
                assert(v@ == s@);
                return v;
            },
        }
    }
}

/// The `String` made of `chars[lo..hi]`.
pub fn string_from_chars(chars: &Vec<char>, lo: usize, hi: usize) -> (r: String)
    requires
        lo <= hi <= chars@.len(),
    ensures
        r@ == chars@.subrange(lo as int, hi as int),
{
    let mut r = String::new();
    let mut i = lo;
    while i < hi
        invariant
            lo <= i <= hi <= chars@.len(),
            r@ == chars@.subrange(lo as int, i as int),
        decreases hi - i,
    {
        push_char(&mut r, chars[i]);
        assert(chars@.subrange(lo as int, i + 1) =~= chars@.subrange(lo as int, i as int).push(
            chars@[i as int],
        ));
        i = i + 1;
    }
    r
}

/// The bounds of `trim(chars[lo..hi])` inside `chars`.
pub fn trim_range(chars: &Vec<char>, lo: usize, hi: usize) -> (r: (usize, usize))
    requires
        lo <= hi <= chars@.len(),
    ensures
        lo <= r.0 <= r.1 <= hi,
        chars@.subrange(r.0 as int, r.1 as int) == trim(chars@.subrange(lo as int, hi as int)),
{
    let mut a = lo;
    while a < hi && is_whitespace(chars[a])
        invariant
            lo <= a <= hi <= chars@.len(),
            trim_start(chars@.subrange(lo as int, hi as int)) == trim_start(
                chars@.subrange(a as int, hi as int),
            ),
        decreases hi - a,
    {
        assert(chars@.subrange(a as int, hi as int).drop_first() =~= chars@.subrange(
            a + 1,
            hi as int,
        ));
        a = a + 1;
    }
    let mut b = hi;
    while b > a && is_whitespace(chars[b - 1])
        invariant
            lo <= a <= b <= hi <= chars@.len(),
            trim_start(chars@.subrange(lo as int, hi as int)) == chars@.subrange(
                a as int,
                hi as int,
            ),
            trim_end(chars@.subrange(a as int, hi as int)) == trim_end(
                chars@.subrange(a as int, b as int),
            ),
        decreases b - a,
    {
        assert(chars@.subrange(a as int, b as int).drop_last() =~= chars@.subrange(
            a as int,
            b - 1,
        ));
        b = b - 1;
    }
    (a, b)
}

/// The bounds in `chars` of each line of `chars`, as [`split_lines`] gives
/// them.
pub fn line_ranges(chars: &Vec<char>) -> (r: Vec<(usize, usize)>)
    ensures
        r@.len() == split_lines(chars@).len(),
        forall|k: int|
            0 <= k < r@.len() ==> {
                &&& (#[trigger] r@[k]).0 <= r@[k].1 <= chars@.len()
                &&& chars@.subrange(r@[k].0 as int, r@[k].1 as int) == split_lines(chars@)[k]
            },
{
    let ghost s = chars@;
    let n = chars.len();
    let mut r: Vec<(usize, usize)> = Vec::new();
    let ghost mut done: Seq<Seq<char>> = seq![];
    let mut start: usize = 0;
    let mut i: usize = 0;
    assert(s.skip(0) =~= s);
    while i < n
        invariant
            s == chars@,
            n == s.len(),
            start <= i <= n,
            split_lines(s) == done + split_lines(s.skip(start as int)),
            forall|j: int| start <= j < i ==> s[j] != '\n',
            r@.len() == done.len(),
            forall|k: int|
                0 <= k < r@.len() ==> {
                    &&& (#[trigger] r@[k]).0 <= r@[k].1 <= n
                    &&& s.subrange(r@[k].0 as int, r@[k].1 as int) == done[k]
                },
        decreases n - i,
    {
        if chars[i] == '\n' {
            let ghost t = s.skip(start as int);
            proof {
                lemma_first_index(t, '\n', i - start);
                assert(t.take(i - start) =~= s.subrange(start as int, i as int));
                assert(t.skip(i - start + 1) =~= s.skip(i + 1));
            }
            let end = if i > start && chars[i - 1] == '\r' {
                i - 1
            } else {
                i
            };
            proof {
                assert(s.subrange(start as int, end as int) =~= strip_cr(
                    s.subrange(start as int, i as int),
                ));
                assert(done + split_lines(t) =~= done.push(strip_cr(t.take(i - start)))
                    + split_lines(s.skip(i + 1)));
                done = done.push(strip_cr(t.take(i - start)));
            }
            r.push((start, end));
            start = i + 1;
        }
        i = i + 1;
    }
    if start < n {
        let ghost t = s.skip(start as int);
        proof {
            lemma_no_index(t, '\n');
            assert(t =~= s.subrange(start as int, n as int));
            assert(done + split_lines(t) =~= done.push(t));
            done = done.push(t);
        }
        r.push((start, n));
    } else {
        assert(s.skip(start as int) =~= Seq::<char>::empty());
        assert(done + split_lines(s.skip(start as int)) =~= done);
    }
    r
}

} // verus!
