//! A small string-keyed association map used for metadata, template sets,
//! placeholder values and rendered pages.  Entries are kept in insertion
//! order and a later insertion of the same key wins; the view is the
//! resulting `Map` from key characters to value views.

use crate::text::str_eq;
use vstd::prelude::*;

verus! {

/// Mathematical content of an entry list: a map built by inserting the
/// entries front to back, so that the latest entry for a key wins.
pub open spec fn map_of<V: View>(entries: Seq<(String, V)>) -> Map<Seq<char>, V::V>
    decreases entries.len(),
{
    if entries.len() == 0 {
        Map::empty()
    } else {
        map_of(entries.drop_last()).insert(entries.last().0@, entries.last().1@)
    }
}

proof fn lemma_map_of_found<V: View>(entries: Seq<(String, V)>, i: int, k: Seq<char>)
    requires
        0 <= i < entries.len(),
        entries[i].0@ == k,
        forall|j: int| i < j < entries.len() ==> entries[j].0@ != k,
    ensures
        map_of(entries).contains_key(k),
        map_of(entries)[k] == entries[i].1@,
    decreases entries.len(),
{
    if i == entries.len() - 1 {
    } else {
        lemma_map_of_found(entries.drop_last(), i, k);
    }
}

proof fn lemma_map_of_covers<V: View>(entries: Seq<(String, V)>, i: int)
    requires
        0 <= i < entries.len(),
    ensures
        map_of(entries).contains_key(entries[i].0@),
    decreases entries.len(),
{
    if i < entries.len() - 1 {
        lemma_map_of_covers(entries.drop_last(), i);
    }
}

proof fn lemma_map_of_absent<V: View>(entries: Seq<(String, V)>, k: Seq<char>)
    requires
        forall|j: int| 0 <= j < entries.len() ==> entries[j].0@ != k,
    ensures
        !map_of(entries).contains_key(k),
    decreases entries.len(),
{
    if entries.len() > 0 {
        lemma_map_of_absent(entries.drop_last(), k);
    }
}

/// A string-keyed map.
#[derive(Debug)]
pub struct Dict<V> {
    entries: Vec<(String, V)>,
}

impl<V: View> View for Dict<V> {
    type V = Map<Seq<char>, V::V>;

    closed spec fn view(&self) -> Map<Seq<char>, V::V> {
        map_of(self.entries@)
    }
}

impl<V: View> Dict<V> {
    /// The empty map.
    pub fn new() -> (r: Dict<V>)
        ensures
            r@ == Map::<Seq<char>, V::V>::empty(),
    {
        Dict { entries: Vec::new() }
    }

    /// Binds `key` to `value`, shadowing any earlier binding.
    pub fn insert(&mut self, key: String, value: V)
        ensures
            final(self)@ == old(self)@.insert(key@, value@),
    {
        self.entries.push((key, value));
        proof {
            assert(self.entries@.drop_last() =~= old(self).entries@);
        }
    }

    /// The value bound to `key`, if any.
    pub fn get(&self, key: &str) -> (r: Option<&V>)
        ensures
            match r {
                Some(v) => self@.contains_key(key@) && v@ == self@[key@],
                None => !self@.contains_key(key@),
            },
    {
        let n = self.entries.len();
        let mut i = n;
        while i > 0
            invariant
                i <= n,
                n == self.entries@.len(),
                forall|j: int| i <= j < n ==> self.entries@[j].0@ != key@,
            decreases i,
        {
            i -= 1;
            if str_eq(self.entries[i].0.as_str(), key) {
                proof {
                    lemma_map_of_found(self.entries@, i as int, key@);
                }
                return Some(&self.entries[i].1);
            }
        }
        proof {
            lemma_map_of_absent(self.entries@, key@);
        }
        None
    }

    /// Whether `key` is bound.
    pub fn contains_key(&self, key: &str) -> (r: bool)
        ensures
            r == self@.contains_key(key@),
    {
        self.get(key).is_some()
    }

    /// How many entries have been inserted (shadowed entries included).
    pub closed spec fn spec_len(&self) -> nat {
        self.entries@.len()
    }

    /// How many entries have been inserted (shadowed entries included).
    pub fn len(&self) -> (r: usize)
        ensures
            r == self.spec_len(),
    {
        self.entries.len()
    }

    /// The key of the entry at position `i`, in insertion order.
    pub fn key_at(&self, i: usize) -> (r: &String)
        requires
            i < self.spec_len(),
        ensures
            self@.contains_key(r@),
    {
        proof {
            lemma_map_of_covers(self.entries@, i as int);
        }
        &self.entries[i].0
    }

    /// The value of the entry at position `i`, in insertion order.  Where
    /// the same key was inserted twice, only the latest entry's value is
    /// the one the map binds.
    pub fn value_at(&self, i: usize) -> (r: &V)
        requires
            i < self.spec_len(),
    {
        &self.entries[i].1
    }
}

impl Dict<String> {
    /// An identical copy of the map.
    pub fn duplicate(&self) -> (r: Dict<String>)
        ensures
            r@ == self@,
    {
        let n = self.entries.len();
        let mut entries: Vec<(String, String)> = Vec::new();
        let mut i: usize = 0;
        while i < n
            invariant
                i <= n,
                n == self.entries@.len(),
                entries@ =~= self.entries@.take(i as int),
            decreases n - i,
        {
            let k = self.entries[i].0.clone();
            let v = self.entries[i].1.clone();
            entries.push((k, v));
            proof {
                assert(entries@ =~= self.entries@.take(i + 1));
            }
            i += 1;
        }
        proof {
            assert(entries@ =~= self.entries@);
        }
        Dict { entries }
    }

    /// The bindings of `self` laid over the bindings of `base`: a key bound
    /// in both takes the value from `self`.
    pub fn over(&self, base: &Dict<String>) -> (r: Dict<String>)
        ensures
            r@ == base@.union_prefer_right(self@),
    {
        let mut merged = base.duplicate();
        let n = self.entries.len();
        let mut i: usize = 0;
        proof {
            assert(self.entries@.take(0) =~= Seq::<(String, String)>::empty());
            assert(map_of(self.entries@.take(0)) =~= Map::<Seq<char>, Seq<char>>::empty());
            assert(base@.union_prefer_right(map_of(self.entries@.take(0))) =~= base@);
        }
        while i < n
            invariant
                i <= n,
                n == self.entries@.len(),
                map_of(merged.entries@) == base@.union_prefer_right(
                    map_of(self.entries@.take(i as int)),
                ),
            decreases n - i,
        {
            let k = self.entries[i].0.clone();
            let v = self.entries[i].1.clone();
            let ghost before = merged.entries@;
            merged.entries.push((k, v));
            proof {
                assert(merged.entries@.drop_last() =~= before);
                assert(self.entries@.take(i + 1).drop_last() =~= self.entries@.take(i as int));
                assert(self.entries@.take(i + 1).last() == self.entries@[i as int]);
                assert(base@.union_prefer_right(
                    map_of(self.entries@.take(i as int)).insert(
                        self.entries@[i as int].0@,
                        self.entries@[i as int].1@,
                    ),
                ) =~= base@.union_prefer_right(map_of(self.entries@.take(i as int))).insert(
                    self.entries@[i as int].0@,
                    self.entries@[i as int].1@,
                ));
            }
            i += 1;
        }
        proof {
            assert(self.entries@.take(n as int) =~= self.entries@);
        }
        merged
    }
}

} // verus!
