//! A small association table keyed by names.
//!
//! Every registry of the engine (the value store, the binding table, the
//! producer index, the task name index) is a mapping from a string name to
//! some value.  This module provides one verified table for all of them,
//! abstracted as a `Map<Seq<char>, _>` over the views of its entries.

use vstd::prelude::*;

verus! {

/// One key/value pair of a [`NameTable`].
pub struct TableEntry<V> {
    pub key: String,
    pub val: V,
}

/// An association table from string names to values, with
/// insert-or-replace semantics.
pub struct NameTable<V> {
    entries: Vec<TableEntry<V>>,
}

/// The mapping described by a sequence of entries; a later entry for the
/// same key overrides an earlier one.
pub open spec fn entries_model<V: View>(s: Seq<TableEntry<V>>) -> Map<Seq<char>, V::V>
    decreases s.len(),
{
    if s.len() == 0 {
        Map::empty()
    } else {
        entries_model(s.drop_last()).insert(s.last().key@, s.last().val@)
    }
}

/// No two entries share a key.
pub open spec fn keys_unique<V>(s: Seq<TableEntry<V>>) -> bool {
    forall|i: int, j: int| 0 <= i < j < s.len() ==> s[i].key@ != s[j].key@
}

proof fn lemma_model_dom<V: View>(s: Seq<TableEntry<V>>)
    ensures
        forall|k: Seq<char>|
            entries_model(s).dom().contains(k) <==> exists|i: int|
                0 <= i < s.len() && s[i].key@ == k,
    decreases s.len(),
{
    if s.len() > 0 {
        lemma_model_dom(s.drop_last());
        assert forall|k: Seq<char>| entries_model(s).dom().contains(k) implies exists|i: int|
            0 <= i < s.len() && s[i].key@ == k by {
            if k == s.last().key@ {
                assert(s[s.len() - 1].key@ == k);
            } else {
                assert(entries_model(s.drop_last()).dom().contains(k));
                let i = choose|i: int| 0 <= i < s.drop_last().len() && s.drop_last()[i].key@ == k;
                assert(s.drop_last()[i] == s[i]);
                assert(s[i].key@ == k);
            }
        }
        assert forall|k: Seq<char>|
            (exists|i: int| 0 <= i < s.len() && s[i].key@ == k) implies entries_model(
            s,
        ).dom().contains(k) by {
            let i = choose|i: int| 0 <= i < s.len() && s[i].key@ == k;
            if i < s.len() - 1 {
                assert(s.drop_last()[i] == s[i]);
                assert(s.drop_last()[i].key@ == k);
                assert(entries_model(s.drop_last()).dom().contains(k));
            } else {
                assert(k == s.last().key@);
            }
        }
    }
}

proof fn lemma_model_at<V: View>(s: Seq<TableEntry<V>>, i: int)
    requires
        keys_unique(s),
        0 <= i < s.len(),
    ensures
        entries_model(s).dom().contains(s[i].key@),
        entries_model(s)[s[i].key@] == s[i].val@,
    decreases s.len(),
{
    if i == s.len() - 1 {
    } else {
        lemma_model_at(s.drop_last(), i);
        assert(s.drop_last()[i] == s[i]);
        assert(s[i].key@ != s.last().key@);
    }
}

/// Replacing the value of the entry at `i` updates the model at its key.
proof fn lemma_model_update<V: View>(s: Seq<TableEntry<V>>, i: int, e: TableEntry<V>)
    requires
        keys_unique(s),
        0 <= i < s.len(),
        e.key@ == s[i].key@,
    ensures
        entries_model(s.update(i, e)) == entries_model(s).insert(e.key@, e.val@),
    decreases s.len(),
{
    let t = s.update(i, e);
    if i == s.len() - 1 {
        assert(t.drop_last() =~= s.drop_last());
        assert(entries_model(t) =~= entries_model(s).insert(e.key@, e.val@));
    } else {
        assert(t.drop_last() =~= s.drop_last().update(i, e));
        lemma_model_update(s.drop_last(), i, e);
        assert(t.last() == s.last());
        assert(s[i].key@ != s.last().key@);
        assert(entries_model(t) =~= entries_model(s).insert(e.key@, e.val@));
    }
}

impl<V: View> View for NameTable<V> {
    type V = Map<Seq<char>, V::V>;

    closed spec fn view(&self) -> Map<Seq<char>, V::V> {
        entries_model(self.entries@)
    }
}

impl<V: View> NameTable<V> {
    /// All keys are distinct; every lookup is then unambiguous.
    pub closed spec fn wf(&self) -> bool {
        keys_unique(self.entries@)
    }

    /// The number of entries equals the number of distinct names held.
    pub closed spec fn spec_len(&self) -> nat {
        self.entries@.len()
    }

    pub fn new() -> (r: NameTable<V>)
        ensures
            r@ == Map::<Seq<char>, V::V>::empty(),
            r.wf(),
            r.spec_len() == 0,
    {
        NameTable { entries: Vec::new() }
    }

    /// Index of the entry holding `name`, if any.
    fn find(&self, name: &str) -> (r: Option<usize>)
        requires
            self.wf(),
        ensures
            match r {
                Some(i) => i < self.entries@.len() && self.entries@[i as int].key@ == name@,
                None => forall|i: int|
                    0 <= i < self.entries@.len() ==> self.entries@[i].key@ != name@,
            },
    {
        let key: String = name.to_owned();
        let n = self.entries.len();
        for i in 0..n
            invariant
                n == self.entries@.len(),
                key@ == name@,
                forall|j: int| 0 <= j < i ==> self.entries@[j].key@ != name@,
        {
            if self.entries[i].key == key {
                return Some(i);
            }
        }
        None
    }

    /// Whether a value is held under `name`.
    pub fn contains(&self, name: &str) -> (r: bool)
        requires
            self.wf(),
        ensures
            r == self@.dom().contains(name@),
    {
        proof {
            lemma_model_dom(self.entries@);
        }
        self.find(name).is_some()
    }

    /// The value held under `name`, if any.
    pub fn get(&self, name: &str) -> (r: Option<&V>)
        requires
            self.wf(),
        ensures
            match r {
                Some(v) => self@.dom().contains(name@) && v@ == self@[name@],
                None => !self@.dom().contains(name@),
            },
    {
        proof {
            lemma_model_dom(self.entries@);
        }
        match self.find(name) {
            Some(i) => {
                proof {
                    lemma_model_at(self.entries@, i as int);
                }
                Some(&self.entries[i].val)
            },
            None => None,
        }
    }

    /// Stores `val` under `key`, replacing any prior value for that name.
    pub fn insert(&mut self, key: String, val: V)
        requires
            old(self).wf(),
        ensures
            final(self).wf(),
            final(self)@ == old(self)@.insert(key@, val@),
            final(self).spec_len() <= old(self).spec_len() + 1,
    {
        match self.find(key.as_str()) {
            Some(i) => {
                let ghost s0 = self.entries@;
                let e = TableEntry { key, val };
                let ghost ek = e.key@;
                let ghost ev = e.val@;
                self.entries[i] = e;
                proof {
                    lemma_model_update::<V>(s0, i as int, self.entries@[i as int]);
                    assert(self@ =~= old(self)@.insert(ek, ev));
                }
            },
            None => {
                let ghost s0 = self.entries@;
                self.entries.push(TableEntry { key, val });
                proof {
                    assert(self.entries@.drop_last() =~= s0);
                }
            },
        }
    }
}

} // verus!
