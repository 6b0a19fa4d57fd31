//! The in-memory key/value mapping.

use vstd::prelude::*;

verus! {

/// The mapping described by a sequence of key/value entries, where a later
/// entry with the same key wins.
pub open spec fn map_of_entries(es: Seq<(Seq<char>, Seq<char>)>) -> Map<Seq<char>, Seq<char>>
    decreases es.len(),
{
    if es.len() == 0 {
        Map::empty()
    } else {
        map_of_entries(es.drop_last()).insert(es.last().0, es.last().1)
    }
}

/// A mapping from string keys to string values, loaded from and stored to
/// the property-file text format.
///
/// Entries are kept in first-insertion order; `store` writes them out in
/// that order. Keys are unique: setting an existing key replaces its value
/// in place.
pub struct Properties {
    entries: Vec<(String, String)>,
}

impl View for Properties {
    type V = Map<Seq<char>, Seq<char>>;

    open spec fn view(&self) -> Map<Seq<char>, Seq<char>> {
        map_of_entries(self.entries_seq())
    }
}

impl Properties {
    /// The entries in their stored order.
    pub closed spec fn entries_seq(&self) -> Seq<(Seq<char>, Seq<char>)> {
        self.entries@.map_values(|e: (String, String)| (e.0@, e.1@))
    }

    /// Well-formed: no two entries share a key.
    pub open spec fn wf(&self) -> bool {
        forall|i: int, j: int|
            0 <= i < j < self.entries_seq().len() ==> #[trigger] self.entries_seq()[i].0 != (
            #[trigger] self.entries_seq()[j].0)
    }

    /// An empty mapping.
    pub fn new() -> (r: Self)
        ensures
            r@ == Map::<Seq<char>, Seq<char>>::empty(),
            r.entries_seq() == Seq::<(Seq<char>, Seq<char>)>::empty(),
            r.wf(),
    {
        let r = Properties { entries: Vec::new() };
        proof {
            assert(r.entries_seq() =~= Seq::<(Seq<char>, Seq<char>)>::empty());
        }
        r
    }

    /// The number of entries.
    pub fn len(&mut self) -> (n: usize)
        requires
            old(self).wf(),
        ensures
            *final(self) == *old(self),
            n == old(self).entries_seq().len(),
            n == old(self)@.dom().len(),
    {
        proof {
            lemma_map_of_entries_len(self.entries_seq());
        }
        self.entries.len()
    }

    /// Store `value` under `key`, replacing any previous value for the same
    /// key.
    pub fn set(&mut self, key: &str, value: &str)
        requires
            old(self).wf(),
        ensures
            final(self).wf(),
            final(self)@ == old(self)@.insert(key@, value@),
            !old(self)@.dom().contains(key@) ==> final(self).entries_seq() == old(
                self,
            ).entries_seq().push((key@, value@)),
            old(self)@.dom().contains(key@) ==> exists|i: int|
                0 <= i < old(self).entries_seq().len() && old(self).entries_seq()[i].0 == key@
                    && final(self).entries_seq() == old(self).entries_seq().update(
                    i,
                    (key@, value@),
                ),
    {
        self.put(key.to_owned(), value.to_owned())
    }

    /// Store an owned entry, replacing any previous value for the same key.
    #[verifier::loop_isolation(false)]
    pub fn put(&mut self, key: String, value: String)
        requires
            old(self).wf(),
        ensures
            final(self).wf(),
            final(self)@ == old(self)@.insert(key@, value@),
            !old(self)@.dom().contains(key@) ==> final(self).entries_seq() == old(
                self,
            ).entries_seq().push((key@, value@)),
            old(self)@.dom().contains(key@) ==> exists|i: int|
                0 <= i < old(self).entries_seq().len() && old(self).entries_seq()[i].0 == key@
                    && final(self).entries_seq() == old(self).entries_seq().update(
                    i,
                    (key@, value@),
                ),
    {
        proof {
            lemma_map_of_entries_get(old(self).entries_seq());
        }
        let n = self.entries.len();
        let mut i: usize = 0;
        while i < n
            invariant
                n == self.entries@.len(),
                0 <= i <= n,
                *self == *old(self),
                forall|k: int| 0 <= k < i ==> #[trigger] self.entries_seq()[k].0 != key@,
            decreases n - i,
        {
            if self.entries[i].0 == key {
                let ghost old_seq = self.entries_seq();
                self.entries[i] = (key, value);
                proof {
                    let es = self.entries_seq();
                    assert(es =~= old_seq.update(i as int, (key@, value@)));
                    lemma_map_of_entries_update(old_seq, i as int, (key@, value@));
                    assert(forall|j: int|
                        0 <= j < es.len() ==> (#[trigger] es[j]).0 == old_seq[j].0);
                    assert(exists|j: int|
                        0 <= j < old_seq.len() && (#[trigger] old_seq[j]).0 == key@);
                }
                return ;
            }
            i = i + 1;
        }
        let ghost old_seq = self.entries_seq();
        self.entries.push((key, value));
        proof {
            assert(self.entries_seq() =~= old_seq.push((key@, value@)));
            assert(self.entries_seq().drop_last() =~= old_seq);
        }
    }

    /// The number of entries, without touching the mapping.
    pub(crate) fn entry_count(&self) -> (n: usize)
        ensures
            n == self.entries_seq().len(),
    {
        self.entries.len()
    }

    /// Borrow the key and value of the entry at `i` in stored order.
    pub(crate) fn entry_at(&self, i: usize) -> (e: (&String, &String))
        requires
            i < self.entries_seq().len(),
        ensures
            e.0@ == self.entries_seq()[i as int].0,
            e.1@ == self.entries_seq()[i as int].1,
    {
        (&self.entries[i].0, &self.entries[i].1)
    }

    /// The value stored under `key`, if any.
    #[verifier::loop_isolation(false)]
    pub fn get(&mut self, key: &str) -> (r: Option<String>)
        requires
            old(self).wf(),
        ensures
            *final(self) == *old(self),
            match r {
                Some(v) => old(self)@.dom().contains(key@) && old(self)@[key@] == v@,
                None => !old(self)@.dom().contains(key@),
            },
    {
        proof {
            lemma_map_of_entries_get(self.entries_seq());
        }
        let owned = key.to_owned();
        let n = self.entries.len();
        let mut i: usize = 0;
        while i < n
            invariant
                n == self.entries@.len(),
                0 <= i <= n,
                *self == *old(self),
                owned@ == key@,
                forall|k: int| 0 <= k < i ==> #[trigger] self.entries_seq()[k].0 != key@,
            decreases n - i,
        {
            if self.entries[i].0 == owned {
                let v = self.entries[i].1.clone();
                proof {
                    assert(forall|j: int|
                        i < j < self.entries_seq().len() ==> (#[trigger] self.entries_seq()[j]).0
                            != self.entries_seq()[i as int].0);
                }
                return Some(v);
            }
            i = i + 1;
        }
        None
    }
}

/// With no duplicate keys, the derived map has exactly one key per entry.
pub proof fn lemma_map_of_entries_len(es: Seq<(Seq<char>, Seq<char>)>)
    requires
        forall|i: int, j: int| 0 <= i < j < es.len() ==> #[trigger] es[i].0 != (#[trigger] es[j].0),
    ensures
        map_of_entries(es).dom().len() == es.len(),
        map_of_entries(es).dom().finite(),
    decreases es.len(),
{
    if es.len() > 0 {
        let prefix = es.drop_last();
        lemma_map_of_entries_len(prefix);
        lemma_map_of_entries_get(prefix);
        assert(!map_of_entries(prefix).dom().contains(es.last().0));
        assert(map_of_entries(es).dom() =~= map_of_entries(prefix).dom().insert(es.last().0));
        vstd::set::axiom_set_insert_len(map_of_entries(prefix).dom(), es.last().0);
    } else {
        assert(map_of_entries(es).dom() =~= Set::<Seq<char>>::empty());
    }
}

/// The derived map contains exactly the keys of the entries, and maps each
/// key present in the entries to the value of its last occurrence.
#[verifier::rlimit(50)]
pub proof fn lemma_map_of_entries_get(es: Seq<(Seq<char>, Seq<char>)>)
    ensures
        forall|k: Seq<char>|
            #[trigger] map_of_entries(es).dom().contains(k) <==> exists|i: int|
                0 <= i < es.len() && (#[trigger] es[i]).0 == k,
        forall|i: int|
            0 <= i < es.len() && (forall|j: int| i < j < es.len() ==> (#[trigger] es[j]).0 != es[i].0)
                ==> map_of_entries(es).dom().contains((#[trigger] es[i]).0) && map_of_entries(es)[es[i].0]
                == es[i].1,
    decreases es.len(),
{
    if es.len() > 0 {
        let prefix = es.drop_last();
        let last = es.last();
        lemma_map_of_entries_get(prefix);
        assert(map_of_entries(es) == map_of_entries(prefix).insert(last.0, last.1));
        assert forall|k: Seq<char>| #[trigger]
            map_of_entries(es).dom().contains(k) implies exists|i: int|
            0 <= i < es.len() && (#[trigger] es[i]).0 == k by {
            if k == last.0 {
                assert(0 <= es.len() - 1 < es.len() && (es[es.len() - 1]).0 == k);
            } else {
                assert(map_of_entries(prefix).dom().contains(k));
                let i = choose|i: int| 0 <= i < prefix.len() && (#[trigger] prefix[i]).0 == k;
                assert(0 <= i < es.len() && (es[i]).0 == k);
            }
        }
        assert forall|k: Seq<char>|
            (exists|i: int| 0 <= i < es.len() && (#[trigger] es[i]).0 == k) implies #[trigger]
            map_of_entries(es).dom().contains(k) by {
            let i = choose|i: int| 0 <= i < es.len() && (#[trigger] es[i]).0 == k;
            if i < es.len() - 1 {
                assert(0 <= i < prefix.len() && (prefix[i]).0 == k);
                assert(map_of_entries(prefix).dom().contains(k));
            }
        }
        assert forall|i: int|
            0 <= i < es.len() && (forall|j: int|
                i < j < es.len() ==> (#[trigger] es[j]).0 != es[i].0) implies map_of_entries(
            es,
        ).dom().contains((es[i]).0) && map_of_entries(es)[es[i].0] == es[i].1 by {
            if i == es.len() - 1 {
                assert(map_of_entries(es)[last.0] == last.1);
            } else {
                assert(es[es.len() - 1].0 != es[i].0);
                assert(prefix[i] == es[i]);
                assert(forall|j: int|
                    i < j < prefix.len() ==> (#[trigger] prefix[j]).0 != prefix[i].0);
                assert(map_of_entries(prefix).dom().contains(prefix[i].0) && map_of_entries(
                    prefix,
                )[prefix[i].0] == prefix[i].1);
            }
        }
    }
}

/// Replacing the value at an index whose key occurs nowhere later leaves the
/// derived map as an `insert` of that key.
proof fn lemma_map_of_entries_update(es: Seq<(Seq<char>, Seq<char>)>, i: int, e: (Seq<char>, Seq<char>))
    requires
        0 <= i < es.len(),
        es[i].0 == e.0,
        forall|j: int, k: int| 0 <= j < k < es.len() ==> #[trigger] es[j].0 != (#[trigger] es[k].0),
    ensures
        map_of_entries(es.update(i, e)) == map_of_entries(es).insert(e.0, e.1),
    decreases es.len(),
{
    let up = es.update(i, e);
    if i == es.len() - 1 {
        assert(up.drop_last() =~= es.drop_last());
        assert(up.last() == e);
        assert(map_of_entries(up) =~= map_of_entries(es).insert(e.0, e.1));
    } else {
        assert(up.drop_last() =~= es.drop_last().update(i, e));
        lemma_map_of_entries_update(es.drop_last(), i, e);
        assert(up.last() == es.last());
        assert(es.last().0 != e.0);
        assert(map_of_entries(up) == map_of_entries(es.drop_last()).insert(e.0, e.1).insert(
            es.last().0,
            es.last().1,
        ));
        assert(map_of_entries(es.drop_last()).insert(e.0, e.1).insert(es.last().0, es.last().1)
            =~= map_of_entries(es.drop_last()).insert(es.last().0, es.last().1).insert(e.0, e.1));
    }
}

} // verus!
