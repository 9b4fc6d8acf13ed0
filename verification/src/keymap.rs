//! A map from keys to records, kept sorted by key.
use crate::keys::{group_key_order, key_lt, str_eq, str_lt};
use crate::rows::{
    has_key, is_lower_bound, lemma_key_at_lower_bound, lemma_lower_bound, lemma_lower_bound_unique, lemma_upsert,
    lower_bound, rows_get, sorted, upsert, Row,
};
use vstd::prelude::*;

verus! {

/// What can be stored under a key.
pub trait Record: Sized {
    /// The stored value, or `None` for a tombstone.
    spec fn stored(&self) -> Option<Seq<char>>;
}

/// The rows that a vector of keys and records stands for.
pub open spec fn rows_of<V: Record>(entries: Seq<(String, V)>) -> Seq<Row> {
    Seq::new(entries.len(), |i: int| (entries[i].0@, entries[i].1.stored()))
}

pub struct KeyMap<V: Record> {
    entries: Vec<(String, V)>,
}

/// The number of entries whose key is below `key`.
pub fn lower_bound_of<V: Record>(entries: &Vec<(String, V)>, key: &str) -> (at: usize)
    requires
        sorted(rows_of(entries@)),
    ensures
        at == lower_bound(rows_of(entries@), key@),
        at <= entries@.len(),
{
    let ghost rows = rows_of(entries@);
    let mut low: usize = 0;
    let mut high: usize = entries.len();
    while low < high
        invariant
            rows == rows_of(entries@),
            sorted(rows),
            low <= high <= entries@.len(),
            forall|i: int| 0 <= i < low ==> key_lt((#[trigger] rows[i]).0, key@),
            forall|i: int| high <= i < rows.len() ==> !key_lt((#[trigger] rows[i]).0, key@),
        decreases high - low,
    {
        broadcast use group_key_order;

        let mid: usize = low + (high - low) / 2;
        assert(rows[mid as int].0 == entries@[mid as int].0@);
        if str_lt(entries[mid].0.as_str(), key) {
            proof {
                assert forall|i: int| 0 <= i < mid + 1 implies key_lt((#[trigger] rows[i]).0, key@) by {
                    if i < mid {
                        assert(key_lt(rows[i].0, rows[mid as int].0));
                    }
                }
            }
            low = mid + 1;
        } else {
            proof {
                assert forall|i: int| mid <= i < rows.len() implies !key_lt((#[trigger] rows[i]).0, key@) by {
                    if mid < i {
                        assert(key_lt(rows[mid as int].0, rows[i].0));
                    }
                }
            }
            high = mid;
        }
    }
    proof {
        assert(is_lower_bound(rows, key@, low as int));
        lemma_lower_bound_unique(rows, key@, low as int);
    }
    low
}

/// The index of `key`, when it is there.
pub fn find_in<V: Record>(entries: &Vec<(String, V)>, key: &str) -> (found: Option<usize>)
    requires
        sorted(rows_of(entries@)),
    ensures
        found is Some <==> has_key(rows_of(entries@), key@),
        found matches Some(i) ==> i < entries@.len() && entries@[i as int].0@ == key@ && rows_get(
            rows_of(entries@),
            key@,
        ) == Some(entries@[i as int].1.stored()),
{
    let at = lower_bound_of(entries, key);
    proof {
        lemma_key_at_lower_bound(rows_of(entries@), key@);
    }
    if at < entries.len() && str_eq(entries[at].0.as_str(), key) {
        Some(at)
    } else {
        None
    }
}

impl<V: Record> KeyMap<V> {
    pub closed spec fn entries(&self) -> Seq<(String, V)> {
        self.entries@
    }

    /// The contents, sorted by key.
    pub open spec fn rows(&self) -> Seq<Row> {
        rows_of(self.entries())
    }

    pub open spec fn wf(&self) -> bool {
        sorted(self.rows())
    }

    pub fn new() -> (map: Self)
        ensures
            map.wf(),
            map.rows() == Seq::<Row>::empty(),
    {
        let map = KeyMap { entries: Vec::new() };
        proof {
            assert(map.rows() =~= Seq::<Row>::empty());
        }
        map
    }

    /// The map that holds `entries`, whose keys ascend.
    pub fn from_sorted(entries: Vec<(String, V)>) -> (map: Self)
        requires
            sorted(rows_of(entries@)),
        ensures
            map.wf(),
            map.entries() == entries@,
            map.rows() == rows_of(entries@),
    {
        KeyMap { entries }
    }

    pub fn len(&self) -> (len: usize)
        ensures
            len == self.rows().len(),
            len == self.entries().len(),
    {
        self.entries.len()
    }

    pub fn is_empty(&self) -> (empty: bool)
        ensures
            empty == (self.rows().len() == 0),
    {
        self.entries.len() == 0
    }

    /// Stores `value` under `key`, in place of what was there.
    pub fn insert(&mut self, key: String, value: V)
        requires
            old(self).wf(),
        ensures
            final(self).wf(),
            final(self).rows() == upsert(old(self).rows(), (key@, value.stored())),
    {
        let at = lower_bound_of(&self.entries, key.as_str());
        let ghost row = (key@, value.stored());
        proof {
            lemma_upsert(self.rows(), row);
            lemma_lower_bound(self.rows(), key@);
        }
        if at < self.entries.len() && str_eq(self.entries[at].0.as_str(), key.as_str()) {
            self.entries[at] = (key, value);
        } else {
            self.entries.insert(at, (key, value));
        }
        proof {
            assert(self.rows() =~= upsert(old(self).rows(), row));
        }
    }

    pub fn get(&self, key: &str) -> (found: Option<&V>)
        requires
            self.wf(),
        ensures
            match found {
                Some(value) => rows_get(self.rows(), key@) == Some(value.stored()),
                None => !has_key(self.rows(), key@),
            },
            found is Some <==> rows_get(self.rows(), key@) is Some,
    {
        match find_in(&self.entries, key) {
            Some(i) => Some(&self.entries[i].1),
            None => None,
        }
    }

    /// The key and the record at an index, in key order.
    pub fn entry(&self, i: usize) -> (entry: &(String, V))
        requires
            i < self.rows().len(),
        ensures
            *entry == self.entries()[i as int],
            entry.0@ == self.rows()[i as int].0,
            entry.1.stored() == self.rows()[i as int].1,
    {
        &self.entries[i]
    }

    pub fn clear(&mut self)
        ensures
            final(self).wf(),
            final(self).rows() == Seq::<Row>::empty(),
    {
        self.entries.clear();
        proof {
            assert(self.rows() =~= Seq::<Row>::empty());
        }
    }
}

}
