//! A map from text keys to text values, kept sorted by key.

use vstd::prelude::*;

use crate::order::{compare_text, lemma_text_lt_order, text_lt, KeyOrder};

verus! {

/// Keys strictly ascending in the order of `str`.
pub open spec fn keys_sorted(es: Seq<(Seq<char>, Seq<char>)>) -> bool {
    forall|i: int, j: int| 0 <= i < j < es.len() ==> text_lt(#[trigger] es[i].0, #[trigger] es[j].0)
}

/// No key occurs twice.
pub open spec fn keys_distinct(es: Seq<(Seq<char>, Seq<char>)>) -> bool {
    forall|i: int, j: int|
        0 <= i < es.len() && 0 <= j < es.len() && i != j ==> #[trigger] es[i].0 != #[trigger] es[j].0
}

/// Some entry has key `k`.
pub open spec fn has_key(es: Seq<(Seq<char>, Seq<char>)>, k: Seq<char>) -> bool {
    exists|i: int| 0 <= i < es.len() && #[trigger] es[i].0 == k
}

/// The map that results from inserting the entries in order.
pub open spec fn entries_map(es: Seq<(Seq<char>, Seq<char>)>) -> Map<Seq<char>, Seq<char>>
    decreases es.len(),
{
    if es.len() == 0 {
        Map::empty()
    } else {
        entries_map(es.drop_last()).insert(es.last().0, es.last().1)
    }
}

/// Sorted keys are distinct.
pub proof fn lemma_sorted_distinct(es: Seq<(Seq<char>, Seq<char>)>)
    requires
        keys_sorted(es),
    ensures
        keys_distinct(es),
{
    assert forall|i: int, j: int|
        0 <= i < es.len() && 0 <= j < es.len() && i != j implies #[trigger] es[i].0
        != #[trigger] es[j].0 by {
        lemma_text_lt_order(es[i].0, es[j].0, es[j].0);
        if i < j {
            assert(text_lt(es[i].0, es[j].0));
        } else {
            assert(text_lt(es[j].0, es[i].0));
        }
    }
}

/// A key is in the map exactly when some entry has it.
pub proof fn lemma_entries_map_dom(es: Seq<(Seq<char>, Seq<char>)>, k: Seq<char>)
    ensures
        entries_map(es).contains_key(k) <==> has_key(es, k),
    decreases es.len(),
{
    if es.len() > 0 {
        let init = es.drop_last();
        lemma_entries_map_dom(init, k);
        if entries_map(es).contains_key(k) {
            if k == es.last().0 {
                assert(es[es.len() - 1].0 == k);
            } else {
                let i = choose|i: int| 0 <= i < init.len() && #[trigger] init[i].0 == k;
                assert(es[i].0 == k);
            }
        }
        if exists|i: int| 0 <= i < es.len() && #[trigger] es[i].0 == k {
            let i = choose|i: int| 0 <= i < es.len() && #[trigger] es[i].0 == k;
            if i < es.len() - 1 {
                assert(init[i].0 == k);
            }
        }
    }
}

/// Each value of the map is the value of some entry with that key.
pub proof fn lemma_entries_map_source(es: Seq<(Seq<char>, Seq<char>)>, k: Seq<char>)
    requires
        entries_map(es).contains_key(k),
    ensures
        exists|i: int| 0 <= i < es.len() && #[trigger] es[i] == (k, entries_map(es)[k]),
    decreases es.len(),
{
    let init = es.drop_last();
    if k == es.last().0 {
        assert(es[es.len() - 1] == (k, entries_map(es)[k]));
    } else {
        lemma_entries_map_source(init, k);
        let i = choose|i: int| 0 <= i < init.len() && #[trigger] init[i] == (k, entries_map(init)[k]);
        assert(es[i] == (k, entries_map(es)[k]));
    }
}

/// With distinct keys, each entry's key maps to that entry's value.
pub proof fn lemma_entries_map_index(es: Seq<(Seq<char>, Seq<char>)>, i: int)
    requires
        keys_distinct(es),
        0 <= i < es.len(),
    ensures
        entries_map(es).contains_key(es[i].0),
        entries_map(es)[es[i].0] == es[i].1,
    decreases es.len(),
{
    if i < es.len() - 1 {
        let init = es.drop_last();
        assert(keys_distinct(init)) by {
            assert forall|a: int, b: int|
                0 <= a < init.len() && 0 <= b < init.len() && a != b implies #[trigger] init[a].0
                != #[trigger] init[b].0 by {
                assert(es[a].0 != es[b].0);
            }
        }
        lemma_entries_map_index(init, i);
        assert(es[i].0 != es[es.len() - 1].0);
    }
}

/// The map of entries with distinct keys has one key per entry.
pub proof fn lemma_entries_map_len(es: Seq<(Seq<char>, Seq<char>)>)
    requires
        keys_distinct(es),
    ensures
        entries_map(es).dom().finite(),
        entries_map(es).len() == es.len(),
    decreases es.len(),
{
    if es.len() > 0 {
        let init = es.drop_last();
        assert(keys_distinct(init)) by {
            assert forall|a: int, b: int|
                0 <= a < init.len() && 0 <= b < init.len() && a != b implies #[trigger] init[a].0
                != #[trigger] init[b].0 by {
                assert(es[a].0 != es[b].0);
            }
        }
        lemma_entries_map_len(init);
        lemma_entries_map_dom(init, es.last().0);
        if entries_map(init).contains_key(es.last().0) {
            let i = choose|i: int| 0 <= i < init.len() && #[trigger] init[i].0 == es.last().0;
            assert(es[i].0 == es[es.len() - 1].0);
        }
    }
}

/// Replacing the value of an entry, or inserting a new entry, acts on the map
/// as `Map::insert` does.
proof fn lemma_entries_map_update(
    es: Seq<(Seq<char>, Seq<char>)>,
    es2: Seq<(Seq<char>, Seq<char>)>,
    k: Seq<char>,
    v: Seq<char>,
    p: int,
)
    requires
        keys_distinct(es),
        keys_distinct(es2),
        0 <= p < es2.len(),
        es2[p] == (k, v),
        forall|x: Seq<char>| x != k ==> (#[trigger] has_key(es, x) <==> #[trigger] has_key(es2, x)),
        forall|j: int|
            0 <= j < es2.len() && j != p ==> exists|i: int| 0 <= i < es.len() && es[i] == #[trigger] es2[j],
    ensures
        entries_map(es2) == entries_map(es).insert(k, v),
{
    let m = entries_map(es);
    let m2 = entries_map(es2);
    lemma_entries_map_index(es2, p);
    assert forall|x: Seq<char>| #[trigger] m2.contains_key(x) == m.insert(k, v).contains_key(x) by {
        lemma_entries_map_dom(es, x);
        lemma_entries_map_dom(es2, x);
    }
    assert forall|x: Seq<char>| m2.contains_key(x) implies #[trigger] m2[x] == m.insert(k, v)[x] by {
        if x != k {
            lemma_entries_map_dom(es2, x);
            let j = choose|j: int| 0 <= j < es2.len() && #[trigger] es2[j].0 == x;
            lemma_entries_map_index(es2, j);
            assert(j != p);
            let i = choose|i: int| 0 <= i < es.len() && #[trigger] es[i] == es2[j];
            lemma_entries_map_index(es, i);
        }
    }
    assert(m2 =~= m.insert(k, v));
}

/// A map from text keys to text values whose entries are kept in ascending
/// key order, so that walking it gives the keys sorted as `str` sorts them.
pub struct StringMap {
    entries: Vec<(String, String)>,
}

impl View for StringMap {
    type V = Map<Seq<char>, Seq<char>>;

    open spec fn view(&self) -> Map<Seq<char>, Seq<char>> {
        entries_map(self.entries_view())
    }
}

impl StringMap {
    /// The entries in ascending key order, as texts.
    pub closed spec fn entries_view(&self) -> Seq<(Seq<char>, Seq<char>)> {
        self.entries@.map_values(|e: (String, String)| (e.0@, e.1@))
    }

    #[verifier::type_invariant]
    closed spec fn sorted(&self) -> bool {
        keys_sorted(self.entries_view())
    }

    /// An empty map.
    pub fn new() -> (r: Self)
        ensures
            r@ == Map::<Seq<char>, Seq<char>>::empty(),
            r.entries_view() == Seq::<(Seq<char>, Seq<char>)>::empty(),
    {
        let r = StringMap { entries: Vec::new() };
        assert(r.entries_view() =~= Seq::<(Seq<char>, Seq<char>)>::empty());
        r
    }

    /// Makes known to the caller's proof that the entries are sorted by key
    /// and that their keys are distinct; does nothing at run time.
    pub fn reveal_sorted(&self)
        ensures
            keys_sorted(self.entries_view()),
            keys_distinct(self.entries_view()),
    {
        proof {
            use_type_invariant(self);
            lemma_sorted_distinct(self.entries_view());
        }
    }

    /// Where `key` is, or where it would be inserted.
    fn search(&self, key: &str) -> (r: Result<usize, usize>)
        ensures
            match r {
                Ok(i) => i < self.entries_view().len() && self.entries_view()[i as int].0 == key@,
                Err(i) => {
                    &&& i <= self.entries_view().len()
                    &&& forall|j: int| 0 <= j < i ==> text_lt(#[trigger] self.entries_view()[j].0, key@)
                    &&& forall|j: int|
                        i <= j < self.entries_view().len() ==> text_lt(key@, #[trigger] self.entries_view()[j].0)
                },
            },
    {
        proof {
            use_type_invariant(self);
        }
        let ghost es = self.entries_view();
        let mut lo: usize = 0;
        let mut hi: usize = self.entries.len();
        while lo < hi
            invariant
                es == self.entries_view(),
                keys_sorted(es),
                es.len() == self.entries@.len(),
                lo <= hi <= es.len(),
                forall|j: int| 0 <= j < lo ==> text_lt(#[trigger] es[j].0, key@),
                forall|j: int| hi <= j < es.len() ==> text_lt(key@, #[trigger] es[j].0),
            decreases hi - lo,
        {
            let mid = lo + (hi - lo) / 2;
            let ghost m = es[mid as int].0;
            assert(m == self.entries@[mid as int].0@);
            match compare_text(self.entries[mid].0.as_str(), key) {
                KeyOrder::Equal => {
                    return Ok(mid);
                },
                KeyOrder::Less => {
                    assert forall|j: int| 0 <= j < mid + 1 implies text_lt(#[trigger] es[j].0, key@) by {
                        if j < mid {
                            assert(text_lt(es[j].0, es[mid as int].0));
                            lemma_text_lt_order(es[j].0, m, key@);
                        }
                    }
                    lo = mid + 1;
                },
                KeyOrder::Greater => {
                    assert forall|j: int| mid <= j < es.len() implies text_lt(key@, #[trigger] es[j].0) by {
                        if j > mid {
                            assert(text_lt(es[mid as int].0, es[j].0));
                            lemma_text_lt_order(key@, m, es[j].0);
                        }
                    }
                    hi = mid;
                },
            }
        }
        Err(lo)
    }

    /// The number of keys.
    pub fn len(&self) -> (r: usize)
        ensures
            r == self.entries_view().len(),
            r == self@.len(),
    {
        proof {
            use_type_invariant(self);
            lemma_sorted_distinct(self.entries_view());
            lemma_entries_map_len(self.entries_view());
        }
        self.entries.len()
    }

    /// Whether the map has no entries.
    pub fn is_empty(&self) -> (r: bool)
        ensures
            r == (self.entries_view().len() == 0),
            r == (self@ == Map::<Seq<char>, Seq<char>>::empty()),
    {
        proof {
            if self.entries_view().len() > 0 {
                let es = self.entries_view();
                lemma_entries_map_dom(es, es[0].0);
                assert(self@.contains_key(es[0].0));
            } else {
                assert(self@ =~= Map::<Seq<char>, Seq<char>>::empty());
            }
        }
        self.entries.len() == 0
    }

    /// The entry at position `i` in key order.
    pub fn entry_at(&self, i: usize) -> (r: (&String, &String))
        requires
            i < self.entries_view().len(),
        ensures
            (r.0@, r.1@) == self.entries_view()[i as int],
    {
        let e = &self.entries[i];
        (&e.0, &e.1)
    }

    /// The position of `key` in key order, if it is present.
    pub fn position(&self, key: &str) -> (r: Option<usize>)
        ensures
            match r {
                Some(i) => i < self.entries_view().len() && self.entries_view()[i as int].0 == key@,
                None => !self@.contains_key(key@),
            },
            r is Some <==> self@.contains_key(key@),
    {
        proof {
            use_type_invariant(self);
            lemma_entries_map_dom(self.entries_view(), key@);
        }
        match self.search(key) {
            Ok(i) => Some(i),
            Err(i) => {
                proof {
                    let es = self.entries_view();
                    assert forall|j: int| 0 <= j < es.len() implies #[trigger] es[j].0 != key@ by {
                        lemma_text_lt_order(es[j].0, key@, key@);
                        lemma_text_lt_order(key@, es[j].0, es[j].0);
                    }
                }
                None
            },
        }
    }

    /// Whether `key` has a value.
    pub fn contains_key(&self, key: &str) -> (r: bool)
        ensures
            r == self@.contains_key(key@),
    {
        self.position(key).is_some()
    }

    /// The value of `key`, if it has one.
    pub fn get(&self, key: &str) -> (r: Option<&String>)
        ensures
            match r {
                Some(v) => self@.contains_key(key@) && self@[key@] == v@,
                None => !self@.contains_key(key@),
            },
    {
        proof {
            use_type_invariant(self);
            lemma_sorted_distinct(self.entries_view());
        }
        match self.position(key) {
            Some(i) => {
                proof {
                    lemma_entries_map_index(self.entries_view(), i as int);
                }
                Some(&self.entries[i].1)
            },
            None => None,
        }
    }

    /// Sets the value of `key`, and hands back the value it had before.
    pub fn insert(&mut self, key: String, value: String) -> (r: Option<String>)
        ensures
            final(self)@ == old(self)@.insert(key@, value@),
            match r {
                Some(v) => old(self)@.contains_key(key@) && old(self)@[key@] == v@,
                None => !old(self)@.contains_key(key@),
            },
    {
        proof {
            use_type_invariant(&*self);
            lemma_sorted_distinct(self.entries_view());
            lemma_entries_map_dom(self.entries_view(), key@);
        }
        let ghost es = self.entries_view();
        let ghost k = key@;
        let ghost v = value@;
        match self.search(key.as_str()) {
            Ok(i) => {
                let prev = self.entries[i].1.clone();
                proof {
                    lemma_entries_map_index(es, i as int);
                    assert(es[i as int].1 == self.entries@[i as int].1@);
                    assert(prev@ == es[i as int].1);
                }
                let mut entries: Vec<(String, String)> = Vec::new();
                std::mem::swap(&mut entries, &mut self.entries);
                entries.set(i, (key, value));
                let ghost es2 = entries@.map_values(|e: (String, String)| (e.0@, e.1@));
                proof {
                    assert(es2 =~= es.update(i as int, (k, v)));
                    assert(keys_sorted(es2));
                    lemma_sorted_distinct(es2);
                    assert forall|j: int|
                        0 <= j < es2.len() && j != i implies exists|a: int|
                        0 <= a < es.len() && es[a] == #[trigger] es2[j] by {
                        assert(es[j] == es2[j]);
                    }
                    assert forall|x: Seq<char>|
                        x != k implies (#[trigger] has_key(es, x) <==> #[trigger] has_key(es2, x)) by {
                        if exists|a: int| 0 <= a < es.len() && #[trigger] es[a].0 == x {
                            let a = choose|a: int| 0 <= a < es.len() && #[trigger] es[a].0 == x;
                            assert(es2[a].0 == x);
                        }
                        if exists|b: int| 0 <= b < es2.len() && #[trigger] es2[b].0 == x {
                            let b = choose|b: int| 0 <= b < es2.len() && #[trigger] es2[b].0 == x;
                            assert(es[b].0 == x);
                        }
                    }
                    lemma_entries_map_update(es, es2, k, v, i as int);
                }
                self.entries = entries;
                Some(prev)
            },
            Err(i) => {
                let mut entries: Vec<(String, String)> = Vec::new();
                std::mem::swap(&mut entries, &mut self.entries);
                entries.insert(i, (key, value));
                let ghost es2 = entries@.map_values(|e: (String, String)| (e.0@, e.1@));
                proof {
                    assert(es2 =~= es.insert(i as int, (k, v)));
                    assert forall|j: int| 0 <= j < es.len() implies #[trigger] es[j].0 != k by {
                        lemma_text_lt_order(es[j].0, k, k);
                        lemma_text_lt_order(k, es[j].0, es[j].0);
                    }
                    assert forall|a: int, b: int|
                        0 <= a < b < es2.len() implies text_lt(#[trigger] es2[a].0, #[trigger] es2[b].0) by {
                        if b < i {
                            assert(es2[a] == es[a] && es2[b] == es[b]);
                        } else if b == i {
                            assert(es2[a] == es[a]);
                        } else if a < i {
                            assert(es2[a] == es[a] && es2[b] == es[b - 1]);
                            lemma_text_lt_order(es[a].0, k, es[b - 1].0);
                        } else if a == i {
                            assert(es2[b] == es[b - 1]);
                        } else {
                            assert(es2[a] == es[a - 1] && es2[b] == es[b - 1]);
                        }
                    }
                    lemma_sorted_distinct(es2);
                    assert forall|j: int|
                        0 <= j < es2.len() && j != i implies exists|a: int|
                        0 <= a < es.len() && es[a] == #[trigger] es2[j] by {
                        if j < i {
                            assert(es[j] == es2[j]);
                        } else {
                            assert(es[j - 1] == es2[j]);
                        }
                    }
                    assert forall|x: Seq<char>|
                        x != k implies (#[trigger] has_key(es, x) <==> #[trigger] has_key(es2, x)) by {
                        if exists|a: int| 0 <= a < es.len() && #[trigger] es[a].0 == x {
                            let a = choose|a: int| 0 <= a < es.len() && #[trigger] es[a].0 == x;
                            if a < i {
                                assert(es2[a].0 == x);
                            } else {
                                assert(es2[a + 1].0 == x);
                            }
                        }
                        if exists|b: int| 0 <= b < es2.len() && #[trigger] es2[b].0 == x {
                            let b = choose|b: int| 0 <= b < es2.len() && #[trigger] es2[b].0 == x;
                            if b < i {
                                assert(es[b].0 == x);
                            } else {
                                assert(es[b - 1].0 == x);
                            }
                        }
                    }
                    lemma_entries_map_update(es, es2, k, v, i as int);
                }
                self.entries = entries;
                None
            },
        }
    }
}

} // verus!
