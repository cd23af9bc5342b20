//! The decoder's intermediate model of the wire text: a mapping from key
//! to the one-or-more values observed for it, in arrival order.  Values
//! are removed as they are consumed, which is also the "already read"
//! marker.

use vstd::prelude::*;

use crate::text::{str_equal, texts_model};

verus! {

/// Adds one value under a key: appended to the key's values when the key
/// is present, as a new single-value entry otherwise.
pub open spec fn map_append(
    m: Map<Seq<char>, Seq<Seq<char>>>,
    k: Seq<char>,
    v: Seq<char>,
) -> Map<Seq<char>, Seq<Seq<char>>> {
    if m.dom().contains(k) {
        m.insert(k, m[k].push(v))
    } else {
        m.insert(k, seq![v])
    }
}

/// The map that a pair list collects to: values of a repeated key
/// accumulate in arrival order.
pub open spec fn spec_collect(pairs: Seq<(Seq<char>, Seq<char>)>) -> Map<
    Seq<char>,
    Seq<Seq<char>>,
>
    decreases pairs,
{
    if pairs.len() == 0 {
        Map::empty()
    } else {
        map_append(spec_collect(pairs.drop_last()), pairs.last().0, pairs.last().1)
    }
}

/// The map an entry list stands for.
pub open spec fn entries_map(s: Seq<(String, Vec<String>)>) -> Map<Seq<char>, Seq<Seq<char>>>
    decreases s,
{
    if s.len() == 0 {
        Map::empty()
    } else {
        entries_map(s.drop_last()).insert(s.last().0@, texts_model(s.last().1@))
    }
}

pub proof fn lemma_entries_map_dom(s: Seq<(String, Vec<String>)>, k: Seq<char>)
    ensures
        entries_map(s).dom().contains(k) <==> exists|i: int|
            0 <= i < s.len() && #[trigger] s[i].0@ == k,
    decreases s,
{
    if s.len() > 0 {
        lemma_entries_map_dom(s.drop_last(), k);
        if entries_map(s).dom().contains(k) && s.last().0@ != k {
            let i = choose|i: int| 0 <= i < s.drop_last().len() && #[trigger] s.drop_last()[i].0@
                == k;
            assert(s[i].0@ == k);
        }
        if exists|i: int| 0 <= i < s.len() && #[trigger] s[i].0@ == k {
            let i = choose|i: int| 0 <= i < s.len() && #[trigger] s[i].0@ == k;
            if i < s.len() - 1 {
                assert(s.drop_last()[i].0@ == k);
            }
        }
    }
}

/// With distinct keys, the map holds each entry's values under its key.
pub proof fn lemma_entries_map_at(s: Seq<(String, Vec<String>)>, i: int)
    requires
        0 <= i < s.len(),
        forall|j: int| 0 <= j < s.len() && j != i ==> #[trigger] s[j].0@ != s[i].0@,
    ensures
        entries_map(s).dom().contains(s[i].0@),
        entries_map(s)[s[i].0@] == texts_model(s[i].1@),
    decreases s,
{
    if i == s.len() - 1 {
    } else {
        assert(forall|j: int|
            0 <= j < s.drop_last().len() && j != i ==> #[trigger] s.drop_last()[j].0@
                != s.drop_last()[i].0@);
        lemma_entries_map_at(s.drop_last(), i);
        assert(s.last().0@ != s[i].0@);
    }
}

/// With distinct keys, removing an entry removes its key from the map.
pub proof fn lemma_entries_map_remove(s: Seq<(String, Vec<String>)>, i: int)
    requires
        0 <= i < s.len(),
        forall|j: int, l: int| 0 <= j < l < s.len() ==> #[trigger] s[j].0@ != #[trigger] s[l].0@,
    ensures
        entries_map(s.remove(i)) =~= entries_map(s).remove(s[i].0@),
    decreases s,
{
    if i == s.len() - 1 {
        assert(s.remove(i) =~= s.drop_last());
        lemma_entries_map_dom(s.drop_last(), s[i].0@);
        assert(!entries_map(s.drop_last()).dom().contains(s[i].0@));
    } else {
        assert(s.remove(i).last() == s.last());
        assert(s.remove(i).drop_last() =~= s.drop_last().remove(i));
        lemma_entries_map_remove(s.drop_last(), i);
        assert(s.last().0@ != s[i].0@);
        assert(s.drop_last()[i] == s[i]);
    }
}

/// With distinct keys, replacing an entry's values updates its key alone.
pub proof fn lemma_entries_map_update(
    s: Seq<(String, Vec<String>)>,
    i: int,
    vals: Vec<String>,
)
    requires
        0 <= i < s.len(),
        forall|j: int, l: int| 0 <= j < l < s.len() ==> #[trigger] s[j].0@ != #[trigger] s[l].0@,
    ensures
        entries_map(s.update(i, (s[i].0, vals))) =~= entries_map(s).insert(
            s[i].0@,
            texts_model(vals@),
        ),
    decreases s,
{
    let s2 = s.update(i, (s[i].0, vals));
    if i == s.len() - 1 {
        assert(s2.drop_last() =~= s.drop_last());
        assert(s2.last() == (s[i].0, vals));
    } else {
        assert(s2.last() == s.last());
        assert(s2.drop_last() =~= s.drop_last().update(i, (s[i].0, vals)));
        lemma_entries_map_update(s.drop_last(), i, vals);
        assert(s.drop_last()[i] == s[i]);
        assert(s.last().0@ != s[i].0@);
    }
}

/// The decoder's working map, keyed by field name.
#[derive(Debug, PartialEq, Eq)]
pub struct FieldMap {
    pub entries: Vec<(String, Vec<String>)>,
}

impl View for FieldMap {
    type V = Map<Seq<char>, Seq<Seq<char>>>;

    open spec fn view(&self) -> Map<Seq<char>, Seq<Seq<char>>> {
        entries_map(self.entries@)
    }
}

impl FieldMap {
    /// Keys are distinct, so each lookup has one home.
    pub open spec fn wf(self) -> bool {
        forall|j: int, l: int|
            0 <= j < l < self.entries@.len() ==> #[trigger] self.entries@[j].0@
                != #[trigger] self.entries@[l].0@
    }

    pub fn new() -> (m: FieldMap)
        ensures
            m.wf(),
            m@ =~= Map::empty(),
    {
        FieldMap { entries: Vec::new() }
    }

    /// The index of the entry for `name`, if the key is present.
    fn find(&self, name: &str) -> (r: Option<usize>)
        ensures
            match r {
                Option::Some(i) => i < self.entries@.len() && self.entries@[i as int].0@ == name@,
                Option::None => forall|i: int|
                    0 <= i < self.entries@.len() ==> #[trigger] self.entries@[i].0@ != name@,
            },
    {
        let mut i: usize = 0;
        let n = self.entries.len();
        while i < n
            invariant
                0 <= i <= n,
                n == self.entries@.len(),
                forall|j: int| 0 <= j < i ==> #[trigger] self.entries@[j].0@ != name@,
            decreases n - i,
        {
            if str_equal(self.entries[i].0.as_str(), name) {
                return Option::Some(i);
            }
            i = i + 1;
        }
        Option::None
    }

    /// Whether the key is present.
    pub fn contains_key(&self, name: &str) -> (r: bool)
        ensures
            r == self@.dom().contains(name@),
    {
        let r = self.find(name);
        proof {
            lemma_entries_map_dom(self.entries@, name@);
        }
        match r {
            Option::Some(_) => true,
            Option::None => false,
        }
    }

    /// Removes the key and hands back all values observed for it, or
    /// nothing when the key is absent.
    pub fn remove_key(&mut self, name: &str) -> (r: Option<Vec<String>>)
        requires
            old(self).wf(),
        ensures
            final(self).wf(),
            match r {
                Option::Some(vals) => old(self)@.dom().contains(name@) && texts_model(vals@)
                    == old(self)@[name@] && final(self)@ == old(self)@.remove(name@),
                Option::None => !old(self)@.dom().contains(name@) && *final(self) == *old(self),
            },
    {
        let r = self.find(name);
        proof {
            lemma_entries_map_dom(self.entries@, name@);
        }
        match r {
            Option::Some(i) => {
                let ghost s = self.entries@;
                proof {
                    lemma_entries_map_at(s, i as int);
                    lemma_entries_map_remove(s, i as int);
                }
                let entry = self.entries.remove(i);
                Option::Some(entry.1)
            },
            Option::None => Option::None,
        }
    }

    /// Records one more value for a key: appended in arrival order when
    /// the key repeats, as a fresh entry otherwise.
    pub fn push_value(&mut self, name: &str, val: String)
        requires
            old(self).wf(),
        ensures
            final(self).wf(),
            final(self)@ =~= map_append(old(self)@, name@, val@),
    {
        let r = self.find(name);
        proof {
            lemma_entries_map_dom(self.entries@, name@);
        }
        match r {
            Option::Some(i) => {
                let ghost s = self.entries@;
                proof {
                    lemma_entries_map_at(s, i as int);
                }
                let entry = self.entries.remove(i);
                let key = entry.0;
                let mut vals = entry.1;
                vals.push(val);
                proof {
                    assert(texts_model(vals@) =~= texts_model(entry.1@).push(val@));
                }
                self.entries.insert(i, (key, vals));
                proof {
                    assert(self.entries@ =~= s.update(i as int, (s[i as int].0, vals)));
                    lemma_entries_map_update(s, i as int, vals);
                }
            },
            Option::None => {
                let ghost s = self.entries@;
                let mut vals: Vec<String> = Vec::new();
                vals.push(val);
                self.entries.push((name.to_owned(), vals));
                proof {
                    assert(self.entries@.drop_last() =~= s);
                    assert(texts_model(vals@) =~= seq![val@]);
                }
            },
        }
    }
}

} // verus!
