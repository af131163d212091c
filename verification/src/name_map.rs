use vstd::prelude::*;

verus! {

/// The map that an association list denotes: each name to its value.
pub open spec fn entries_map<V>(s: Seq<(String, V)>) -> Map<Seq<char>, V>
    decreases s.len(),
{
    if s.len() == 0 {
        Map::empty()
    } else {
        entries_map(s.drop_last()).insert(s.last().0@, s.last().1)
    }
}

/// No name occurs twice in the list.
pub open spec fn keys_distinct<V>(s: Seq<(String, V)>) -> bool {
    forall|i: int, j: int| 0 <= i < j < s.len() ==> (#[trigger] s[i]).0@ != (#[trigger] s[j]).0@
}

/// How many names the map sends to `value`.
pub open spec fn count_value<V>(m: Map<Seq<char>, V>, value: V) -> nat {
    m.dom().filter(|k: Seq<char>| m[k] == value).len()
}

/// The list's names are the map's keys, and each entry's value is the
/// map's value for its name.
pub proof fn lemma_entries_map<V>(s: Seq<(String, V)>)
    requires
        keys_distinct(s),
    ensures
        entries_map(s).dom().finite(),
        entries_map(s).dom().len() == s.len(),
        forall|k: Seq<char>|
            #[trigger] entries_map(s).contains_key(k) <==> exists|i: int|
                0 <= i < s.len() && (#[trigger] s[i]).0@ == k,
        forall|i: int| 0 <= i < s.len() ==> #[trigger] entries_map(s)[s[i].0@] == s[i].1,
    decreases s.len(),
{
    if s.len() > 0 {
        let t = s.drop_last();
        lemma_entries_map(t);
        let x = s.last();
        assert(!entries_map(t).contains_key(x.0@)) by {
            if entries_map(t).contains_key(x.0@) {
                let i = choose|i: int| 0 <= i < t.len() && (#[trigger] t[i]).0@ == x.0@;
                assert(s[i] == t[i]);
            }
        }
        assert forall|k: Seq<char>|
            #[trigger] entries_map(s).contains_key(k) <==> exists|i: int|
                0 <= i < s.len() && (#[trigger] s[i]).0@ == k by {
            if entries_map(s).contains_key(k) {
                if k == x.0@ {
                    assert(s[s.len() - 1].0@ == k);
                } else {
                    let i = choose|i: int| 0 <= i < t.len() && (#[trigger] t[i]).0@ == k;
                    assert(s[i] == t[i]);
                }
            }
            if exists|i: int| 0 <= i < s.len() && (#[trigger] s[i]).0@ == k {
                let i = choose|i: int| 0 <= i < s.len() && (#[trigger] s[i]).0@ == k;
                if i < s.len() - 1 {
                    assert(t[i] == s[i]);
                }
            }
        }
        assert forall|i: int| 0 <= i < s.len() implies #[trigger] entries_map(s)[s[i].0@] == s[i].1 by {
            if i < s.len() - 1 {
                assert(t[i] == s[i]);
                assert(s[i].0@ != x.0@);
            }
        }
    }
}

/// The entries holding `value`.
pub open spec fn value_is<V>(value: V) -> spec_fn((String, V)) -> bool {
    |p: (String, V)| p.1 == value
}

/// Counting the entries with a value counts the names mapped to it.
pub proof fn lemma_count_value<V>(s: Seq<(String, V)>, value: V)
    requires
        keys_distinct(s),
    ensures
        s.filter(value_is(value)).len() == count_value(entries_map(s), value),
    decreases s.len(),
{
    reveal(Seq::filter);
    let m = entries_map(s);
    let f = |k: Seq<char>| m[k] == value;
    if s.len() == 0 {
        assert(m.dom().filter(f) =~= Set::empty());
    } else {
        let t = s.drop_last();
        lemma_count_value(t, value);
        lemma_entries_map(t);
        lemma_entries_map(s);
        let mt = entries_map(t);
        let ft = |k: Seq<char>| mt[k] == value;
        let x = s.last();
        assert(!mt.contains_key(x.0@)) by {
            if mt.contains_key(x.0@) {
                let i = choose|i: int| 0 <= i < t.len() && (#[trigger] t[i]).0@ == x.0@;
                assert(s[i] == t[i]);
            }
        }
        if x.1 == value {
            assert(m.dom().filter(f) =~= mt.dom().filter(ft).insert(x.0@));
        } else {
            assert(m.dom().filter(f) =~= mt.dom().filter(ft));
        }
    }
}

/// A map from names to values, kept as a list of entries with distinct names.
pub struct NameMap<V> {
    entries: Vec<(String, V)>,
}

impl<V> View for NameMap<V> {
    type V = Map<Seq<char>, V>;

    closed spec fn view(&self) -> Map<Seq<char>, V> {
        entries_map(self.entries@)
    }
}

impl<V> NameMap<V> {
    /// No name occurs twice among the entries.
    pub closed spec fn wf(&self) -> bool {
        keys_distinct(self.entries@)
    }
}

impl<V: Copy> NameMap<V> {
    /// The entries, in the order in which their names were first inserted.
    pub closed spec fn entries_view(&self) -> Seq<(String, V)> {
        self.entries@
    }

    /// The entries denote the map, with no name twice.
    pub proof fn lemma_entries(&self)
        requires
            self.wf(),
        ensures
            keys_distinct(self.entries_view()),
            entries_map(self.entries_view()) == self@,
            self@.dom().finite(),
            self@.dom().len() == self.entries_view().len(),
    {
        lemma_entries_map(self.entries@);
    }

    /// An empty map.
    pub fn new() -> (m: Self)
        ensures
            m.wf(),
            m@ == Map::<Seq<char>, V>::empty(),
    {
        NameMap { entries: Vec::new() }
    }

    fn find(&self, key: &String) -> (res: Option<usize>)
        ensures
            match res {
                Some(i) => i < self.entries@.len() && self.entries@[i as int].0@ == key@,
                None => forall|i: int| 0 <= i < self.entries@.len() ==> (#[trigger] self.entries@[i]).0@ != key@,
            },
    {
        let mut i: usize = 0;
        while i < self.entries.len()
            invariant
                i <= self.entries@.len(),
                forall|j: int| 0 <= j < i ==> (#[trigger] self.entries@[j]).0@ != key@,
            decreases self.entries@.len() - i,
        {
            if self.entries[i].0 == *key {
                return Some(i);
            }
            i = i + 1;
        }
        None
    }

    /// The value of a name, if it has one.
    pub fn get(&self, key: &String) -> (res: Option<V>)
        requires
            self.wf(),
        ensures
            match res {
                Some(v) => self@.contains_key(key@) && self@[key@] == v,
                None => !self@.contains_key(key@),
            },
    {
        proof {
            lemma_entries_map(self.entries@);
        }
        match self.find(key) {
            Some(i) => Some(self.entries[i].1),
            None => None,
        }
    }

    /// Whether the name has a value.
    pub fn contains_key(&self, key: &String) -> (res: bool)
        requires
            self.wf(),
        ensures
            res == self@.contains_key(key@),
    {
        proof {
            lemma_entries_map(self.entries@);
        }
        self.find(key).is_some()
    }

    /// Gives the name this value, replacing any value it had.
    pub fn insert(&mut self, key: String, value: V)
        requires
            old(self).wf(),
        ensures
            final(self).wf(),
            final(self)@ == old(self)@.insert(key@, value),
    {
        proof {
            lemma_entries_map(self.entries@);
        }
        let ghost old_entries = self.entries@;
        match self.find(&key) {
            Some(i) => {
                self.entries.set(i, (key, value));
                proof {
                    let s = self.entries@;
                    assert(keys_distinct(s)) by {
                        assert forall|a: int, b: int| 0 <= a < b < s.len() implies (#[trigger] s[a]).0@ != (#[trigger] s[b]).0@ by {
                            assert(old_entries[a].0@ != old_entries[b].0@);
                        }
                    }
                    lemma_entries_map(s);
                    assert(entries_map(s) =~= entries_map(old_entries).insert(key@, value)) by {
                        assert forall|k: Seq<char>| #[trigger] entries_map(s).contains_key(k)
                            == entries_map(old_entries).insert(key@, value).contains_key(k) by {
                            if entries_map(old_entries).contains_key(k) {
                                let j = choose|j: int| 0 <= j < old_entries.len() && (#[trigger] old_entries[j]).0@ == k;
                                assert(s[j].0@ == k);
                            }
                            if entries_map(s).contains_key(k) {
                                let j = choose|j: int| 0 <= j < s.len() && (#[trigger] s[j]).0@ == k;
                                if j != i {
                                    assert(old_entries[j].0@ == k);
                                }
                            }
                        }
                        assert forall|k: Seq<char>| #[trigger] entries_map(s).contains_key(k)
                            implies entries_map(s)[k] == entries_map(old_entries).insert(key@, value)[k] by {
                            let j = choose|j: int| 0 <= j < s.len() && (#[trigger] s[j]).0@ == k;
                            if j != i {
                                assert(old_entries[j] == s[j]);
                            }
                        }
                    }
                }
            },
            None => {
                self.entries.push((key, value));
                proof {
                    let s = self.entries@;
                    assert(s.drop_last() =~= old_entries);
                    assert(keys_distinct(s)) by {
                        assert forall|a: int, b: int| 0 <= a < b < s.len() implies (#[trigger] s[a]).0@ != (#[trigger] s[b]).0@ by {
                            if b < s.len() - 1 {
                                assert(old_entries[a].0@ != old_entries[b].0@);
                            } else {
                                assert(old_entries[a] == s[a]);
                            }
                        }
                    }
                }
            },
        }
    }

    /// The entries, each name once.
    pub fn entries(&self) -> (res: &Vec<(String, V)>)
        requires
            self.wf(),
        ensures
            res@ == self.entries_view(),
            keys_distinct(res@),
            entries_map(res@) == self@,
    {
        &self.entries
    }
}

} // verus!
