//! A small string-keyed association built on a vector of pairs, viewed as a
//! mathematical map. It backs the addition-date index and the category
//! mapping handed to the export renderer; an absent key is a valid outcome,
//! not an error.

use vstd::prelude::*;

use crate::text::str_eq;

verus! {

/// The map denoted by a sequence of key/value pairs, later entries winning.
pub open spec fn map_of(s: Seq<(Seq<char>, Seq<char>)>) -> Map<Seq<char>, Seq<char>>
    decreases s.len(),
{
    if s.len() == 0 {
        Map::empty()
    } else {
        map_of(s.drop_last()).insert(s.last().0, s.last().1)
    }
}

/// An entry whose key no later entry repeats decides the lookup.
pub proof fn lemma_map_of_present(s: Seq<(Seq<char>, Seq<char>)>, j: int)
    requires
        0 <= j < s.len(),
        forall|t: int| j < t < s.len() ==> (#[trigger] s[t]).0 != s[j].0,
    ensures
        map_of(s).contains_key(s[j].0),
        map_of(s)[s[j].0] == s[j].1,
    decreases s.len(),
{
    if j == s.len() - 1 {
    } else {
        assert(s.last().0 != s[j].0);
        assert forall|t: int| j < t < s.drop_last().len() implies (#[trigger] s.drop_last()[t]).0
            != s.drop_last()[j].0 by {
            assert(s.drop_last()[t] == s[t]);
        }
        lemma_map_of_present(s.drop_last(), j);
    }
}

/// A key no entry carries is absent from the map.
pub proof fn lemma_map_of_absent(s: Seq<(Seq<char>, Seq<char>)>, k: Seq<char>)
    requires
        forall|t: int| 0 <= t < s.len() ==> (#[trigger] s[t]).0 != k,
    ensures
        !map_of(s).contains_key(k),
    decreases s.len(),
{
    if s.len() > 0 {
        lemma_map_of_absent(s.drop_last(), k);
    }
}

/// A string-keyed index: insertion replaces, lookup returns the latest
/// binding, and absence of a key is observable.
pub struct StringIndex {
    entries: Vec<(String, String)>,
}

impl StringIndex {
    /// The pairs currently stored, newest binding last.
    pub closed spec fn entries_view(&self) -> Seq<(Seq<char>, Seq<char>)> {
        self.entries@.map_values(|p: (String, String)| (p.0@, p.1@))
    }
}

impl View for StringIndex {
    type V = Map<Seq<char>, Seq<char>>;

    closed spec fn view(&self) -> Map<Seq<char>, Seq<char>> {
        map_of(self.entries_view())
    }
}

impl StringIndex {
    /// An empty index.
    pub fn new() -> (r: StringIndex)
        ensures
            r@ == Map::<Seq<char>, Seq<char>>::empty(),
    {
        let r = StringIndex { entries: Vec::new() };
        proof {
            assert(r.entries_view() =~= Seq::<(Seq<char>, Seq<char>)>::empty());
        }
        r
    }

    /// Binds `key` to `value`, replacing any earlier binding.
    pub fn insert(&mut self, key: String, value: String)
        ensures
            final(self)@ == old(self)@.insert(key@, value@),
    {
        let ghost prev = self.entries_view();
        self.entries.push((key, value));
        proof {
            assert(self.entries_view() =~= prev.push((key@, value@)));
            assert(self.entries_view().drop_last() =~= prev);
        }
    }

    /// Looks `key` up; `None` reports that the key is absent.
    pub fn get(&self, key: &str) -> (r: Option<&String>)
        ensures
            (match r {
                Some(v) => self@.contains_key(key@) && v@ == self@[key@],
                None => !self@.contains_key(key@),
            }),
    {
        let n = self.entries.len();
        let mut j: usize = n;
        while j > 0
            invariant
                j <= n,
                n == self.entries@.len(),
                forall|t: int| j <= t < n ==> (#[trigger] self.entries@[t]).0@ != key@,
            decreases j,
        {
            let e = &self.entries[j - 1];
            if str_eq(e.0.as_str(), key) {
                proof {
                    assert forall|t: int|
                        j - 1 < t < self.entries_view().len() implies (#[trigger] self
                        .entries_view()[t]).0 != self.entries_view()[j - 1].0 by {
                        assert(self.entries_view()[t] == (self.entries@[t].0@, self.entries@[t].1@));
                    }
                    lemma_map_of_present(self.entries_view(), j - 1);
                    assert(self.entries_view()[j - 1].0 == key@);
                }
                return Some(&e.1);
            }
            j = j - 1;
        }
        proof {
            assert forall|t: int| 0 <= t < self.entries_view().len() implies (#[trigger] self
                .entries_view()[t]).0 != key@ by {
                assert(self.entries_view()[t] == (self.entries@[t].0@, self.entries@[t].1@));
            }
            lemma_map_of_absent(self.entries_view(), key@);
        }
        None
    }

    /// Looks `key` up and clones the bound value out.
    pub fn get_cloned(&self, key: &str) -> (r: Option<String>)
        ensures
            (match r {
                Some(v) => self@.contains_key(key@) && v@ == self@[key@],
                None => !self@.contains_key(key@),
            }),
    {
        match self.get(key) {
            Some(v) => Some(v.clone()),
            None => None,
        }
    }
}

} // verus!
