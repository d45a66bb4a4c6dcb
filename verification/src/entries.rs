//! A map from names to entries whose entries can be walked.
use crate::text::same_text;
use vstd::prelude::*;

verus! {

/// A map from names to entries, kept as rows in the order of insertion.
#[derive(Debug)]
pub struct EntryMap<T: View> {
    rows: Vec<(String, T)>,
}

/// No name stands in two rows.
pub open spec fn are_distinct<V>(rows: Seq<(Seq<char>, V)>) -> bool {
    forall|i: int, j: int|
        0 <= i < j < rows.len() ==> (#[trigger] rows[i]).0 != (#[trigger] rows[j]).0
}

/// The map that the rows spell.
pub open spec fn map_of<V>(rows: Seq<(Seq<char>, V)>) -> Map<Seq<char>, V>
    decreases rows.len(),
{
    if rows.len() == 0 {
        Map::empty()
    } else {
        map_of(rows.drop_last()).insert(rows.last().0, rows.last().1)
    }
}

/// What the rows hold.
pub open spec fn row_views<T: View>(rows: Seq<(String, T)>) -> Seq<(Seq<char>, T::V)> {
    rows.map_values(|row: (String, T)| (row.0@, row.1@))
}

/// The map has the names of the rows and no others, and it gives for each name what stands in its
/// row. It is as large as there are rows.
pub proof fn lemma_map_of<V>(rows: Seq<(Seq<char>, V)>)
    requires
        are_distinct(rows),
    ensures
        map_of(rows).dom().finite(),
        map_of(rows).dom().len() == rows.len(),
        forall|i: int|
            #![trigger rows[i]]
            0 <= i < rows.len() ==> map_of(rows).contains_key(rows[i].0) && map_of(
                rows,
            )[rows[i].0] == rows[i].1,
        forall|key: Seq<char>| #[trigger]
            map_of(rows).contains_key(key) ==> exists|i: int|
                0 <= i < rows.len() && (#[trigger] rows[i]).0 == key,
    decreases rows.len(),
{
    if rows.len() > 0 {
        let front = rows.drop_last();
        let end = rows.len() - 1;
        lemma_map_of(front);
        assert forall|i: int|
            #![trigger rows[i]]
            0 <= i < rows.len() implies map_of(rows).contains_key(rows[i].0) && map_of(
            rows,
        )[rows[i].0] == rows[i].1 by {
            if i < end {
                assert(front[i] == rows[i]);
                assert(rows[i].0 != rows[end].0);
            }
        }
        assert(!map_of(front).contains_key(rows[end].0)) by {
            if map_of(front).contains_key(rows[end].0) {
                let i = choose|i: int|
                    0 <= i < front.len() && (#[trigger] front[i]).0 == rows[end].0;
                assert(rows[i].0 == rows[end].0);
            }
        }
        assert forall|key: Seq<char>| #[trigger] map_of(rows).contains_key(key) implies exists|
            i: int,
        |
            0 <= i < rows.len() && (#[trigger] rows[i]).0 == key by {
            if key == rows[end].0 {
                assert(rows[end].0 == key);
            } else {
                assert(map_of(front).contains_key(key));
                let i = choose|i: int| 0 <= i < front.len() && (#[trigger] front[i]).0 == key;
                assert(rows[i].0 == key);
            }
        }
    }
}

impl<T: View> View for EntryMap<T> {
    type V = Map<Seq<char>, T::V>;

    open spec fn view(&self) -> Map<Seq<char>, T::V> {
        map_of(self.listed())
    }
}

impl<T: View> EntryMap<T> {
    /// The rows, in the order in which the map is walked.
    pub closed spec fn listed(&self) -> Seq<(Seq<char>, T::V)> {
        row_views(self.rows@)
    }

    /// No name has two entries.
    #[verifier::type_invariant]
    spec fn has_distinct_names(self) -> bool {
        are_distinct(self.listed())
    }

    /// A map without entries.
    pub fn new() -> (map: Self)
        ensures
            map.listed() == Seq::<(Seq<char>, T::V)>::empty(),
            map@ == Map::<Seq<char>, T::V>::empty(),
    {
        let rows: Vec<(String, T)> = Vec::new();
        assert(row_views(rows@) =~= Seq::empty());
        let map = EntryMap { rows };
        map
    }

    /// The number of entries.
    pub fn len(&self) -> (n: usize)
        ensures
            n == self.listed().len(),
            n == self@.dom().len(),
            self@.dom().finite(),
            are_distinct(self.listed()),
    {
        proof {
            use_type_invariant(self);
            lemma_map_of(self.listed());
        }
        self.rows.len()
    }

    /// Tells whether there are no entries.
    pub fn is_empty(&self) -> (yes: bool)
        ensures
            yes == (self@ == Map::<Seq<char>, T::V>::empty()),
    {
        proof {
            use_type_invariant(self);
            lemma_map_of(self.listed());
            if self.listed().len() == 0 {
                assert(self@ =~= Map::empty());
            }
        }
        self.rows.len() == 0
    }

    /// The name in a row.
    pub fn name_at(&self, index: usize) -> (name: &str)
        requires
            index < self.listed().len(),
        ensures
            name@ == self.listed()[index as int].0,
    {
        self.rows[index].0.as_str()
    }

    /// The entry in a row.
    pub fn entry_at(&self, index: usize) -> (entry: &T)
        requires
            index < self.listed().len(),
        ensures
            entry@ == self.listed()[index as int].1,
    {
        &self.rows[index].1
    }

    /// The row that holds a name.
    fn find(&self, name: &str) -> (index: Option<usize>)
        ensures
            match index {
                Some(index) => index < self.listed().len() && self.listed()[index as int].0
                    == name@,
                None => forall|i: int|
                    0 <= i < self.listed().len() ==> (#[trigger] self.listed()[i]).0 != name@,
            },
    {
        let mut i: usize = 0;
        while i < self.rows.len()
            invariant
                i <= self.rows@.len(),
                forall|j: int| 0 <= j < i ==> (#[trigger] self.listed()[j]).0 != name@,
            decreases self.rows@.len() - i,
        {
            if same_text(self.rows[i].0.as_str(), name) {
                return Some(i);
            }
            i += 1;
        }
        None
    }

    /// The entry of a name.
    pub fn get(&self, name: &str) -> (entry: Option<&T>)
        ensures
            match entry {
                Some(entry) => self@.contains_key(name@) && self@[name@] == entry@,
                None => !self@.contains_key(name@),
            },
    {
        proof {
            use_type_invariant(self);
            lemma_map_of(self.listed());
        }
        match self.find(name) {
            Some(index) => {
                assert(self.listed()[index as int].0 == name@);
                Some(&self.rows[index].1)
            },
            None => None,
        }
    }

    /// Tells whether a name has an entry.
    pub fn contains_key(&self, name: &str) -> (yes: bool)
        ensures
            yes == self@.contains_key(name@),
    {
        self.get(name).is_some()
    }

    /// Takes the entry of a name out.
    pub fn remove(&mut self, name: &str)
        ensures
            final(self)@ == old(self)@.remove(name@),
    {
        let ghost before = self.listed();
        proof {
            use_type_invariant(&*self);
            lemma_map_of(before);
        }
        match self.find(name) {
            Some(index) => {
                let mut rows: Vec<(String, T)> = Vec::new();
                std::mem::swap(&mut rows, &mut self.rows);
                rows.remove(index);
                proof {
                    let after = row_views(rows@);
                    let at = index as int;
                    assert(after =~= before.remove(at));
                    assert forall|i: int| 0 <= i < after.len() implies #[trigger] after[i]
                        == before[if i < at { i } else { i + 1 }] by {}
                    assert(are_distinct(after));
                    lemma_map_of(after);
                    assert forall|key: Seq<char>|
                        map_of(after).contains_key(key) == (map_of(before).contains_key(key) && key
                            != name@) && (map_of(after).contains_key(key) ==> map_of(after)[key]
                            == map_of(before)[key]) by {
                        if map_of(after).contains_key(key) {
                            let i = choose|i: int|
                                0 <= i < after.len() && (#[trigger] after[i]).0 == key;
                            let j = if i < at {
                                i
                            } else {
                                i + 1
                            };
                            assert(before[j] == after[i]);
                            assert(before[at].0 == name@);
                        }
                        if map_of(before).contains_key(key) && key != name@ {
                            let j = choose|j: int|
                                0 <= j < before.len() && (#[trigger] before[j]).0 == key;
                            let i = if j < at {
                                j
                            } else {
                                j - 1
                            };
                            assert(before[at].0 == name@);
                            assert(after[i] == before[j]);
                        }
                    }
                    assert(map_of(after) =~= map_of(before).remove(name@));
                }
                self.rows = rows;
            },
            None => {
                assert(!map_of(before).contains_key(name@));
                assert(map_of(before) =~= map_of(before).remove(name@));
            },
        }
    }

    /// Gives a name an entry, in place of the one that it had.
    pub fn insert(&mut self, name: String, entry: T)
        ensures
            final(self)@ == old(self)@.insert(name@, entry@),
    {
        let ghost before = self@;
        self.remove(name.as_str());
        let ghost middle = self.listed();
        proof {
            use_type_invariant(&*self);
            lemma_map_of(middle);
            assert(!self@.contains_key(name@));
        }
        let mut rows: Vec<(String, T)> = Vec::new();
        std::mem::swap(&mut rows, &mut self.rows);
        rows.push((name, entry));
        proof {
            let after = row_views(rows@);
            assert(after.drop_last() =~= middle);
            assert forall|i: int, j: int| 0 <= i < j < after.len() implies (#[trigger] after[i]).0
                != (#[trigger] after[j]).0 by {
                assert(after[i] == middle[i]);
                if j < middle.len() {
                    assert(after[j] == middle[j]);
                }
            }
            assert(map_of(after) =~= before.insert(name@, entry@));
        }
        self.rows = rows;
    }

    /// The rows, in the order in which the map is walked.
    pub(crate) fn into_rows(self) -> (rows: Vec<(String, T)>)
        ensures
            row_views(rows@) == self.listed(),
            are_distinct(row_views(rows@)),
    {
        proof {
            use_type_invariant(&self);
        }
        self.rows
    }

    /// The map with the given rows.
    pub(crate) fn from_rows(rows: Vec<(String, T)>) -> (map: Self)
        requires
            are_distinct(row_views(rows@)),
        ensures
            map.listed() == row_views(rows@),
    {
        EntryMap { rows }
    }
}

impl<T: View + Clone> EntryMap<T> {
    /// The entries of the rows.
    pub closed spec fn row_entries(&self) -> Seq<T> {
        self.rows@.map_values(|row: (String, T)| row.1)
    }
}

impl<T: View + Clone> Clone for EntryMap<T> {
    /// The same names in the same order, with clones of the entries.
    fn clone(&self) -> (copy: Self)
        ensures
            copy.listed().len() == self.listed().len(),
            copy.row_entries().len() == self.listed().len(),
            self.row_entries().len() == self.listed().len(),
            forall|i: int|
                0 <= i < self.listed().len() ==> {
                    &&& (#[trigger] copy.listed()[i]).0 == self.listed()[i].0
                    &&& copy.listed()[i].1 == copy.row_entries()[i]@
                    &&& self.listed()[i].1 == self.row_entries()[i]@
                    &&& cloned(self.row_entries()[i], copy.row_entries()[i])
                },
    {
        proof {
            use_type_invariant(self);
        }
        let mut rows: Vec<(String, T)> = Vec::new();
        let mut i: usize = 0;
        while i < self.rows.len()
            invariant
                i <= self.rows@.len(),
                rows@.len() == i,
                forall|j: int|
                    0 <= j < i ==> (#[trigger] rows@[j]).0@ == self.rows@[j].0@ && cloned(
                        self.rows@[j].1,
                        rows@[j].1,
                    ),
            decreases self.rows@.len() - i,
        {
            rows.push((self.rows[i].0.clone(), self.rows[i].1.clone()));
            i += 1;
        }
        proof {
            let copied = row_views(rows@);
            assert forall|i: int, j: int| 0 <= i < j < copied.len() implies (#[trigger] copied[i]).0
                != (#[trigger] copied[j]).0 by {
                assert(copied[i].0 == self.listed()[i].0);
                assert(copied[j].0 == self.listed()[j].0);
            }
        }
        EntryMap { rows }
    }
}

/// A copy of a map from names to texts.
pub fn copy_of_texts(map: &EntryMap<String>) -> (copy: EntryMap<String>)
    ensures
        copy@ == map@,
{
    let copy = map.clone();
    proof {
        assert forall|i: int| 0 <= i < map.listed().len() implies #[trigger] copy.listed()[i]
            == map.listed()[i] by {
            assert(copy.listed()[i].0 == map.listed()[i].0);
            assert(cloned(map.row_entries()[i], copy.row_entries()[i]));
        }
        assert(copy.listed() =~= map.listed());
    }
    copy
}

} // verus!
