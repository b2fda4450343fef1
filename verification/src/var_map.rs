//! A small map from variable names to values, kept as a vector of entries
//! with distinct names, in the order in which names were first inserted.
use vstd::prelude::*;

verus! {

/// A map keyed by variable name. Its view is a `Map` from the name's
/// characters to the view of the value.
pub struct VarMap<V> {
    entries: Vec<(String, V)>,
}

/// The names of a sequence of entries.
pub open spec fn entry_names<V>(entries: Seq<(String, V)>) -> Seq<Seq<char>> {
    entries.map_values(|e: (String, V)| e.0@)
}

/// The map that a sequence of entries with distinct names stands for.
pub open spec fn entries_view<V: View>(entries: Seq<(String, V)>) -> Map<Seq<char>, V::V> {
    let names = entry_names(entries);
    Map::new(|k: Seq<char>| names.contains(k), |k: Seq<char>| entries[names.index_of(k)].1@)
}

/// The map that a sequence of bindings stands for, a later binding of a name
/// replacing an earlier one.
pub open spec fn pairs_view<V: View>(pairs: Seq<(String, V)>) -> Map<Seq<char>, V::V>
    decreases pairs.len(),
{
    if pairs.len() == 0 {
        Map::empty()
    } else {
        pairs_view(pairs.drop_last()).insert(pairs.last().0@, pairs.last().1@)
    }
}

/// The views of a sequence of strings.
pub open spec fn string_views(strings: Seq<String>) -> Seq<Seq<char>> {
    strings.map_values(|s: String| s@)
}

proof fn lemma_entries_index<V: View>(entries: Seq<(String, V)>, i: int)
    requires
        entry_names(entries).no_duplicates(),
        0 <= i < entries.len(),
    ensures
        entry_names(entries).index_of(entries[i].0@) == i,
        entries_view(entries).contains_key(entries[i].0@),
        entries_view(entries)[entries[i].0@] == entries[i].1@,
{
    let names = entry_names(entries);
    assert(names[i] == entries[i].0@);
    assert(names.contains(entries[i].0@));
}

proof fn lemma_entries_push<V: View>(entries: Seq<(String, V)>, e: (String, V))
    requires
        entry_names(entries.push(e)).no_duplicates(),
    ensures
        entry_names(entries).no_duplicates(),
        entries_view(entries.push(e)) == entries_view(entries).insert(e.0@, e.1@),
{
    let longer = entries.push(e);
    let names = entry_names(longer);
    let short_names = entry_names(entries);
    assert(short_names =~= names.drop_last());
    assert(short_names.no_duplicates()) by {
        assert forall|a: int, b: int|
            0 <= a < short_names.len() && 0 <= b < short_names.len() && a != b implies short_names[a]
            != short_names[b] by {
            assert(names[a] != names[b]);
        }
    }
    let m = entries_view(longer);
    let want = entries_view(entries).insert(e.0@, e.1@);
    let last = entries.len() as int;
    lemma_entries_index(longer, last);
    assert forall|k: Seq<char>| #[trigger] m.contains_key(k) == want.contains_key(k) by {
        if m.contains_key(k) {
            let j = names.index_of(k);
            assert(names[j] == k);
            if j < last {
                assert(short_names[j] == k);
            }
        }
        if want.contains_key(k) && k != e.0@ {
            let j = short_names.index_of(k);
            assert(short_names[j] == k);
            assert(names[j] == k);
        }
    }
    assert forall|k: Seq<char>| m.contains_key(k) implies #[trigger] m[k] == want[k] by {
        let j = names.index_of(k);
        assert(names[j] == k);
        lemma_entries_index(longer, j);
        if k != e.0@ {
            assert(j != last);
            assert(short_names[j] == k);
            lemma_entries_index(entries, j);
        }
    }
    assert(m =~= want);
}

impl<V: View> View for VarMap<V> {
    type V = Map<Seq<char>, V::V>;

    closed spec fn view(&self) -> Map<Seq<char>, V::V> {
        entries_view(self.entries@)
    }
}

impl<V> VarMap<V> {
    /// No name occurs in two entries.
    #[verifier::type_invariant]
    pub closed spec fn names_distinct(self) -> bool {
        entry_names(self.entries@).no_duplicates()
    }
}

impl<V: View> VarMap<V> {

    /// The names, in the order in which they were first inserted.
    pub closed spec fn names(&self) -> Seq<Seq<char>> {
        entry_names(self.entries@)
    }

    proof fn lemma_index(&self, i: int)
        requires
            self.names_distinct(),
            0 <= i < self.entries@.len(),
        ensures
            self.names().index_of(self.entries@[i].0@) == i,
            self@.contains_key(self.entries@[i].0@),
            self@[self.entries@[i].0@] == self.entries@[i].1@,
    {
        let names = self.names();
        assert(names[i] == self.entries@[i].0@);
        assert(names.contains(self.entries@[i].0@));
    }

    /// The names are distinct and are exactly the keys of the map.
    pub proof fn lemma_names(&self)
        requires
            self.names_distinct(),
        ensures
            self.names().no_duplicates(),
            self.names().to_set() == self@.dom(),
            self.names().len() == self@.len(),
            self@.dom().finite(),
    {
        assert(self.names().to_set() =~= self@.dom());
        self.names().unique_seq_to_set();
    }

    /// An empty map.
    pub fn new() -> (res: Self)
        ensures
            res@ == Map::<Seq<char>, V::V>::empty(),
    {
        let res = VarMap { entries: Vec::new() };
        assert(res@ =~= Map::<Seq<char>, V::V>::empty());
        res
    }

    /// The number of names in the map.
    pub fn len(&self) -> (res: usize)
        ensures
            res == self@.len(),
    {
        proof {
            use_type_invariant(self);
            self.lemma_names();
        }
        self.entries.len()
    }

    /// Whether the map has no names.
    pub fn is_empty(&self) -> (res: bool)
        ensures
            res == (self@.len() == 0),
            res == (self@ == Map::<Seq<char>, V::V>::empty()),
    {
        proof {
            use_type_invariant(self);
            self.lemma_names();
            if self@.len() == 0 {
                assert(self@.dom() =~= Set::empty());
                assert(self@ =~= Map::<Seq<char>, V::V>::empty());
            }
        }
        self.entries.len() == 0
    }

    /// The position of `key` among the entries.
    fn find(&self, key: &str) -> (res: Option<usize>)
        ensures
            match res {
                Some(i) => i < self.entries@.len() && self.entries@[i as int].0@ == key@,
                None => !self@.contains_key(key@),
            },
    {
        proof {
            use_type_invariant(self);
        }
        let owned = key.to_owned();
        let n = self.entries.len();
        let mut i: usize = 0;
        while i < n
            invariant
                n == self.entries@.len(),
                owned@ == key@,
                0 <= i <= n,
                forall|j: int| 0 <= j < i ==> self.entries@[j].0@ != key@,
            decreases n - i,
        {
            if self.entries[i].0 == owned {
                return Some(i);
            }
            i = i + 1;
        }
        proof {
            if self@.contains_key(key@) {
                let names = self.names();
                let j = names.index_of(key@);
                assert(names[j] == self.entries@[j].0@);
            }
        }
        None
    }

    /// Whether `key` is in the map.
    pub fn contains_key(&self, key: &str) -> (res: bool)
        ensures
            res == self@.contains_key(key@),
    {
        match self.find(key) {
            Some(i) => {
                proof {
                    use_type_invariant(self);
                    self.lemma_index(i as int);
                }
                true
            },
            None => false,
        }
    }

    /// The value of `key`, if the map holds it.
    pub fn get(&self, key: &str) -> (res: Option<&V>)
        ensures
            match res {
                Some(v) => self@.contains_key(key@) && v@ == self@[key@],
                None => !self@.contains_key(key@),
            },
    {
        match self.find(key) {
            Some(i) => {
                proof {
                    use_type_invariant(self);
                    self.lemma_index(i as int);
                }
                Some(&self.entries[i].1)
            },
            None => None,
        }
    }

    /// Adds every binding of `other`, whose values replace those of `self`
    /// for the names that both hold.
    pub fn extend(&mut self, other: VarMap<V>)
        ensures
            final(self)@ == old(self)@.union_prefer_right(other@),
    {
        proof {
            use_type_invariant(&other);
        }
        let VarMap { entries: mut rest } = other;
        let ghost all = rest@;
        let n = rest.len();
        let mut i: usize = 0;
        while i < n
            invariant
                n == all.len(),
                0 <= i <= n,
                rest@ == all.skip(i as int),
                entry_names(all).no_duplicates(),
                self@ == old(self)@.union_prefer_right(entries_view(all.take(i as int))),
            decreases n - i,
        {
            let (k, v) = rest.remove(0);
            proof {
                assert(all.take(i + 1) =~= all.take(i as int).push((k, v)));
                assert(entry_names(all.take(i + 1)).no_duplicates()) by {
                    let nm = entry_names(all.take(i + 1));
                    let an = entry_names(all);
                    assert forall|a: int, b: int|
                        0 <= a < nm.len() && 0 <= b < nm.len() && a != b implies nm[a] != nm[b] by {
                        assert(nm[a] == an[a] && nm[b] == an[b]);
                    }
                }
                lemma_entries_push(all.take(i as int), (k, v));
            }
            self.insert(k, v);
            proof {
                let before = entries_view(all.take(i as int));
                assert(old(self)@.union_prefer_right(before).insert(k@, v@) =~= old(self)@.union_prefer_right(
                    before.insert(k@, v@),
                ));
                assert(rest@ =~= all.skip(i + 1));
            }
            i = i + 1;
        }
        proof {
            assert(all.take(n as int) =~= all);
        }
    }

    /// The map of a sequence of bindings, a later binding of a name replacing
    /// an earlier one.
    pub fn from_pairs(pairs: Vec<(String, V)>) -> (res: Self)
        ensures
            res@ == pairs_view(pairs@),
    {
        let mut res = VarMap::new();
        let mut rest = pairs;
        let ghost all = rest@;
        let n = rest.len();
        let mut i: usize = 0;
        while i < n
            invariant
                n == all.len(),
                0 <= i <= n,
                rest@ == all.skip(i as int),
                res@ == pairs_view(all.take(i as int)),
            decreases n - i,
        {
            let (k, v) = rest.remove(0);
            proof {
                assert(all.take(i + 1).drop_last() =~= all.take(i as int));
                assert(rest@ =~= all.skip(i + 1));
            }
            res.insert(k, v);
            i = i + 1;
        }
        proof {
            assert(all.take(n as int) =~= all);
        }
        res
    }

    /// The names, in the order in which they were first inserted.
    pub fn keys(&self) -> (res: Vec<String>)
        ensures
            string_views(res@) == self.names(),
            string_views(res@).no_duplicates(),
            string_views(res@).to_set() == self@.dom(),
    {
        proof {
            use_type_invariant(self);
            self.lemma_names();
        }
        let mut res: Vec<String> = Vec::new();
        let n = self.entries.len();
        let mut i: usize = 0;
        while i < n
            invariant
                n == self.entries@.len(),
                0 <= i <= n,
                res@.len() == i,
                forall|j: int| 0 <= j < i ==> #[trigger] res@[j]@ == self.entries@[j].0@,
            decreases n - i,
        {
            res.push(self.entries[i].0.clone());
            i = i + 1;
        }
        proof {
            assert(string_views(res@) =~= self.names());
        }
        res
    }

    /// Binds `key` to `value`, replacing an earlier value of `key`.
    pub fn insert(&mut self, key: String, value: V)
        ensures
            final(self)@ == old(self)@.insert(key@, value@),
    {
        proof {
            use_type_invariant(&*self);
        }
        let ghost old_entries = self.entries@;
        let found = self.find(key.as_str());
        let mut entries: Vec<(String, V)> = Vec::new();
        std::mem::swap(&mut entries, &mut self.entries);
        let ghost pos: int;
        match found {
            Some(i) => {
                proof {
                    pos = i as int;
                }
                entries.set(i, (key, value));
            },
            None => {
                proof {
                    pos = old_entries.len() as int;
                }
                entries.push((key, value));
            },
        }
        proof {
            let names = entry_names(entries@);
            let old_names = entry_names(old_entries);
            assert(forall|j: int| 0 <= j < old_entries.len() && j != pos ==> entries@[j] == old_entries[j]);
            assert(forall|j: int| 0 <= j < old_entries.len() && j != pos ==> names[j] == old_names[j]);
            assert(names[pos] == key@);
            assert(names.no_duplicates()) by {
                assert forall|a: int, b: int|
                    0 <= a < names.len() && 0 <= b < names.len() && a != b implies names[a]
                    != names[b] by {
                    if a != pos && b != pos {
                        assert(old_names[a] != old_names[b]);
                    } else if a == pos {
                        if found is None {
                            assert(old_names[b] == names[b]);
                            assert(old_names.contains(names[b]));
                        } else {
                            assert(old_names[b] == names[b]);
                        }
                    } else {
                        if found is None {
                            assert(old_names[a] == names[a]);
                            assert(old_names.contains(names[a]));
                        } else {
                            assert(old_names[a] == names[a]);
                        }
                    }
                }
            }
        }
        self.entries = entries;
        proof {
            let names = self.names();
            let old_names = entry_names(old_entries);
            let new_view = self@;
            let want = old(self)@.insert(key@, value@);
            self.lemma_index(pos);
            assert forall|k: Seq<char>| #[trigger] new_view.contains_key(k) == want.contains_key(k)
                by {
                if want.contains_key(k) && k != key@ {
                    let oj = old_names.index_of(k);
                    assert(old_names[oj] == k);
                    assert(names[oj] == k);
                }
                if new_view.contains_key(k) {
                    let j = names.index_of(k);
                    assert(names[j] == k);
                    if k != key@ {
                        assert(old_names[j] == k);
                    }
                }
            }
            assert forall|k: Seq<char>| new_view.contains_key(k) implies #[trigger] new_view[k]
                == want[k] by {
                let j = names.index_of(k);
                assert(names[j] == k);
                self.lemma_index(j);
                if k != key@ {
                    assert(old_names[j] == k);
                    old(self).lemma_index(j);
                }
            }
            assert(new_view =~= want);
        }
    }
}

impl<V: View + Copy> VarMap<V> {
    /// A copy of the map, entry by entry.
    pub fn duplicate(&self) -> (res: Self)
        ensures
            res@ == self@,
    {
        proof {
            use_type_invariant(self);
        }
        let mut entries: Vec<(String, V)> = Vec::new();
        let n = self.entries.len();
        let mut i: usize = 0;
        while i < n
            invariant
                n == self.entries@.len(),
                0 <= i <= n,
                entries@.len() == i,
                forall|j: int|
                    0 <= j < i ==> (#[trigger] entries@[j]).0@ == self.entries@[j].0@ && entries@[j].1
                        == self.entries@[j].1,
            decreases n - i,
        {
            let v = self.entries[i].1;
            entries.push((self.entries[i].0.clone(), v));
            i = i + 1;
        }
        proof {
            assert(entry_names(entries@) =~= entry_names(self.entries@));
            assert(entries_view(entries@) =~= entries_view(self.entries@));
        }
        VarMap { entries }
    }
}

} // verus!
