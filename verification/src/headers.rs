//! Header maps: names and values borrowed from a request or given by the
//! caller, with at most one entry per name.
use vstd::prelude::*;

use crate::text::str_equal;

verus! {

/// One header entry as characters: the name and the value.
pub type HeaderEntry = (Seq<char>, Seq<char>);

/// No two entries of `es` share a name.
pub open spec fn distinct_names(es: Seq<HeaderEntry>) -> bool {
    forall|i: int, j: int| 0 <= i < j < es.len() ==> #[trigger] es[i].0 != #[trigger] es[j].0
}

/// Some entry of `es` is named `k`.
pub open spec fn has_name(es: Seq<HeaderEntry>, k: Seq<char>) -> bool {
    exists|i: int| 0 <= i < es.len() && #[trigger] es[i].0 == k
}

/// The position of the entry named `k` (meaningful when `has_name(es, k)`).
pub open spec fn name_index(es: Seq<HeaderEntry>, k: Seq<char>) -> int {
    choose|i: int| 0 <= i < es.len() && #[trigger] es[i].0 == k
}

/// The entries after setting `k` to `v`: an entry named `k` has its value
/// replaced where it stands; otherwise the entry is added at the end.
pub open spec fn entries_insert(es: Seq<HeaderEntry>, k: Seq<char>, v: Seq<char>) -> Seq<
    HeaderEntry,
> {
    if has_name(es, k) {
        es.update(name_index(es, k), (k, v))
    } else {
        es.push((k, v))
    }
}

/// The value stored under `k`, if any.
pub open spec fn entries_get(es: Seq<HeaderEntry>, k: Seq<char>) -> Option<Seq<char>> {
    if has_name(es, k) {
        Some(es[name_index(es, k)].1)
    } else {
        None
    }
}

/// The entries after setting each pair of `pairs` in turn, starting empty.
pub open spec fn entries_from_pairs(pairs: Seq<HeaderEntry>) -> Seq<HeaderEntry>
    decreases pairs.len(),
{
    if pairs.len() == 0 {
        seq![]
    } else {
        entries_insert(
            entries_from_pairs(pairs.drop_last()),
            pairs.last().0,
            pairs.last().1,
        )
    }
}

/// The header line "Name: value" of the entry `e`.
pub open spec fn header_line(e: HeaderEntry) -> Seq<char> {
    e.0 + ": "@ + e.1
}

/// The header lines "Name: value\r\n" of `es`, in order.
pub open spec fn header_lines(es: Seq<HeaderEntry>) -> Seq<char>
    decreases es.len(),
{
    if es.len() == 0 {
        seq![]
    } else {
        header_lines(es.drop_last()) + header_line(es.last()) + "\r\n"@
    }
}

/// The characters of a pair of string slices.
pub open spec fn pair_chars(p: (&str, &str)) -> HeaderEntry {
    (p.0@, p.1@)
}

/// Header names mapped to values. Setting a name that is already present
/// replaces its value; the entries keep the order in which names first came.
pub struct Headers<'a> {
    entries: Vec<(&'a str, &'a str)>,
}

impl<'a> View for Headers<'a> {
    type V = Seq<HeaderEntry>;

    closed spec fn view(&self) -> Seq<HeaderEntry> {
        self.entries@.map_values(|p: (&'a str, &'a str)| pair_chars(p))
    }
}

/// Setting a name and reading it back gives the value that was set.
pub proof fn lemma_get_after_insert(es: Seq<HeaderEntry>, k: Seq<char>, v: Seq<char>)
    requires
        distinct_names(es),
    ensures
        entries_get(entries_insert(es, k, v), k) == Some(v),
        distinct_names(entries_insert(es, k, v)),
{
    let es2 = entries_insert(es, k, v);
    if has_name(es, k) {
        let i = name_index(es, k);
        assert(es2[i].0 == k);
        assert(has_name(es2, k));
        let j = name_index(es2, k);
        if j != i {
            assert(es[j].0 == k);
        }
    } else {
        let n = es.len() as int;
        assert(es2[n].0 == k);
        assert(has_name(es2, k));
        let j = name_index(es2, k);
        if j != n {
            assert(es[j].0 == k);
        }
    }
}

/// Setting one name leaves what any other name reads unchanged.
pub proof fn lemma_get_other_after_insert(
    es: Seq<HeaderEntry>,
    k: Seq<char>,
    v: Seq<char>,
    k2: Seq<char>,
)
    requires
        distinct_names(es),
        k2 != k,
    ensures
        entries_get(entries_insert(es, k, v), k2) == entries_get(es, k2),
{
    let es2 = entries_insert(es, k, v);
    if has_name(es, k2) {
        let i = name_index(es, k2);
        if has_name(es, k) {
            assert(i != name_index(es, k));
        }
        assert(es2[i] == es[i]);
        assert(has_name(es2, k2));
        let j = name_index(es2, k2);
        if j != i {
            assert(es[j].0 == k2);
        }
    } else {
        if has_name(es2, k2) {
            let j = name_index(es2, k2);
            if has_name(es, k) {
                if j != name_index(es, k) {
                    assert(es[j].0 == k2);
                }
            } else {
                if j < es.len() {
                    assert(es[j].0 == k2);
                }
            }
        }
    }
}

impl<'a> Headers<'a> {
    #[verifier::type_invariant]
    spec fn names_distinct(self) -> bool {
        distinct_names(self@)
    }

    /// An empty header map.
    pub fn new() -> (h: Headers<'a>)
        ensures
            h@ == Seq::<HeaderEntry>::empty(),
    {
        let h = Headers { entries: Vec::new() };
        assert(h@ =~= Seq::<HeaderEntry>::empty());
        h
    }

    /// The header map that setting each pair in turn gives, starting empty.
    pub fn from(pairs: &[(&'a str, &'a str)]) -> (h: Headers<'a>)
        ensures
            h@ == entries_from_pairs(pairs@.map_values(|p: (&'a str, &'a str)| pair_chars(p))),
    {
        let ghost ps = pairs@.map_values(|p: (&'a str, &'a str)| pair_chars(p));
        let mut h = Headers::new();
        let mut i: usize = 0;
        assert(ps.take(0) =~= Seq::<HeaderEntry>::empty());
        while i < pairs.len()
            invariant
                i <= pairs@.len(),
                ps == pairs@.map_values(|p: (&'a str, &'a str)| pair_chars(p)),
                h@ == entries_from_pairs(ps.take(i as int)),
            decreases pairs@.len() - i,
        {
            let (k, v) = pairs[i];
            h.insert(k, v);
            assert(ps.take(i + 1).drop_last() =~= ps.take(i as int));
            i = i + 1;
        }
        assert(ps.take(i as int) =~= ps);
        h
    }

    /// The number of entries.
    pub fn len(&self) -> (n: usize)
        ensures
            n == self@.len(),
    {
        self.entries.len()
    }

    /// The entry at position `i`.
    pub fn entry(&self, i: usize) -> (e: (&'a str, &'a str))
        requires
            i < self@.len(),
        ensures
            pair_chars(e) == self@[i as int],
    {
        self.entries[i]
    }

    /// The position of the entry named `key`, if there is one.
    fn position(&self, key: &str) -> (r: Option<usize>)
        ensures
            r matches Some(i) ==> has_name(self@, key@) && i == name_index(self@, key@) && i
                < self@.len(),
            r is None ==> !has_name(self@, key@),
    {
        proof {
            use_type_invariant(self);
        }
        let mut i: usize = 0;
        while i < self.entries.len()
            invariant
                i <= self@.len(),
                self@.len() == self.entries@.len(),
                distinct_names(self@),
                forall|j: int| 0 <= j < i ==> #[trigger] self@[j].0 != key@,
            decreases self@.len() - i,
        {
            if str_equal(self.entries[i].0, key) {
                assert(self@[i as int].0 == key@);
                assert(has_name(self@, key@));
                let ghost c = name_index(self@, key@);
                assert(self@[c].0 == key@);
                return Some(i);
            }
            i = i + 1;
        }
        None
    }

    /// The value stored under `key`, if any.
    pub fn get(&self, key: &str) -> (r: Option<&'a str>)
        ensures
            r matches Some(v) ==> entries_get(self@, key@) == Some(v@),
            r is None ==> entries_get(self@, key@) is None,
    {
        match self.position(key) {
            Some(i) => Some(self.entries[i].1),
            None => None,
        }
    }

    /// Sets `key` to `value`, replacing the value of an entry with that name.
    pub fn insert(&mut self, key: &'a str, value: &'a str)
        ensures
            final(self)@ == entries_insert(old(self)@, key@, value@),
    {
        proof {
            use_type_invariant(&*self);
            lemma_get_after_insert(self@, key@, value@);
        }
        match self.position(key) {
            Some(i) => {
                let ghost old_view = self@;
                let mut entries: Vec<(&'a str, &'a str)> = Vec::new();
                std::mem::swap(&mut entries, &mut self.entries);
                entries.set(i, (key, value));
                proof {
                    assert(entries@.map_values(|p: (&'a str, &'a str)| pair_chars(p))
                        =~= old_view.update(i as int, (key@, value@)));
                }
                self.entries = entries;
            },
            None => {
                let ghost old_view = self@;
                let mut entries: Vec<(&'a str, &'a str)> = Vec::new();
                std::mem::swap(&mut entries, &mut self.entries);
                entries.push((key, value));
                proof {
                    assert(entries@.map_values(|p: (&'a str, &'a str)| pair_chars(p))
                        =~= old_view.push((key@, value@)));
                }
                self.entries = entries;
            },
        }
    }
}

} // verus!
