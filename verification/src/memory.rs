//! The in-memory backend: a table of tables, each table a sorted
//! association list from key to value.

use vstd::prelude::*;
use crate::pb::{Value, ValueV, Kvpair, KvpairV};
use crate::error::KvError;
use crate::storage::{
    Storage, StorageIter, StoreV, TableV, lex_lt, sorted_by_key, pairs_match_table,
    opt_value_view, pairs_view, store_get, store_set, store_del, table_of, tbl_get,
    str_eq, str_lt, lemma_lex_lt_irrefl, lemma_lex_lt_trans, lemma_lex_lt_connex,
};

verus! {

/// The mapping an association list denotes; a later entry for the same
/// key would win, so the lists kept here hold each key once.
pub open spec fn assoc_model<V>(s: Seq<(Seq<char>, V)>) -> Map<Seq<char>, V>
    decreases s.len(),
{
    if s.len() == 0 {
        Map::empty()
    } else {
        assoc_model(s.drop_last()).insert(s.last().0, s.last().1)
    }
}

/// No key appears twice in the list.
pub open spec fn assoc_unique<V>(s: Seq<(Seq<char>, V)>) -> bool {
    forall|i: int, j: int| 0 <= i < j < s.len() ==> (#[trigger] s[i]).0 != (#[trigger] s[j]).0
}

/// A key is in the denoted mapping exactly when some entry holds it.
pub proof fn lemma_assoc_contains<V>(s: Seq<(Seq<char>, V)>, k: Seq<char>)
    ensures
        assoc_model(s).contains_key(k) <==> exists|i: int| 0 <= i < s.len() && (#[trigger] s[i]).0 == k,
    decreases s.len(),
{
    if s.len() > 0 {
        lemma_assoc_contains(s.drop_last(), k);
        if s.last().0 == k {
            assert((s[s.len() - 1]).0 == k);
        } else {
            if assoc_model(s).contains_key(k) {
                let i = choose|i: int| 0 <= i < s.drop_last().len() && (#[trigger] s.drop_last()[i]).0 == k;
                assert((s[i]).0 == k);
            }
            if exists|i: int| 0 <= i < s.len() && (#[trigger] s[i]).0 == k {
                let i = choose|i: int| 0 <= i < s.len() && (#[trigger] s[i]).0 == k;
                assert(i < s.len() - 1);
                assert((s.drop_last()[i]).0 == k);
            }
        }
    }
}

/// With unique keys, the mapping sends each entry's key to its value.
pub proof fn lemma_assoc_get<V>(s: Seq<(Seq<char>, V)>, i: int)
    requires
        assoc_unique(s),
        0 <= i < s.len(),
    ensures
        assoc_model(s).contains_key(s[i].0),
        assoc_model(s)[s[i].0] == s[i].1,
    decreases s.len(),
{
    if i < s.len() - 1 {
        assert(assoc_unique(s.drop_last()));
        lemma_assoc_get(s.drop_last(), i);
        assert(s.drop_last()[i] == s[i]);
        assert(s.last().0 != s[i].0);
    }
}

/// Replacing the value at an entry updates the mapping at its key.
pub proof fn lemma_assoc_update<V>(s: Seq<(Seq<char>, V)>, i: int, v: V)
    requires
        assoc_unique(s),
        0 <= i < s.len(),
    ensures
        assoc_model(s.update(i, (s[i].0, v))) =~= assoc_model(s).insert(s[i].0, v),
    decreases s.len(),
{
    let s2 = s.update(i, (s[i].0, v));
    if i == s.len() - 1 {
        assert(s2.drop_last() =~= s.drop_last());
    } else {
        assert(assoc_unique(s.drop_last()));
        assert(s.drop_last()[i] == s[i]);
        lemma_assoc_update(s.drop_last(), i, v);
        assert(s2.drop_last() =~= s.drop_last().update(i, (s[i].0, v)));
        assert(s2.last() == s.last());
        assert(s.last().0 != s[i].0);
    }
}

/// Appending an entry for a fresh key inserts it into the mapping.
pub proof fn lemma_assoc_push<V>(s: Seq<(Seq<char>, V)>, k: Seq<char>, v: V)
    ensures
        assoc_model(s.push((k, v))) =~= assoc_model(s).insert(k, v),
{
    assert(s.push((k, v)).drop_last() =~= s);
}

/// Inserting an entry for a fresh key anywhere inserts it into the mapping.
pub proof fn lemma_assoc_insert<V>(s: Seq<(Seq<char>, V)>, i: int, k: Seq<char>, v: V)
    requires
        0 <= i <= s.len(),
        forall|j: int| 0 <= j < s.len() ==> (#[trigger] s[j]).0 != k,
    ensures
        assoc_model(s.insert(i, (k, v))) =~= assoc_model(s).insert(k, v),
    decreases s.len(),
{
    let s2 = s.insert(i, (k, v));
    if i == s.len() {
        assert(s2 =~= s.push((k, v)));
        lemma_assoc_push(s, k, v);
    } else {
        assert(s2.last() == s.last());
        assert(s2.drop_last() =~= s.drop_last().insert(i, (k, v)));
        assert(forall|j: int| 0 <= j < s.drop_last().len() ==> (#[trigger] s.drop_last()[j]).0 != k);
        lemma_assoc_insert(s.drop_last(), i, k, v);
        assert(s.last().0 != k);
    }
}

/// Removing an entry removes its key from the mapping.
pub proof fn lemma_assoc_remove<V>(s: Seq<(Seq<char>, V)>, i: int)
    requires
        assoc_unique(s),
        0 <= i < s.len(),
    ensures
        assoc_model(s.remove(i)) =~= assoc_model(s).remove(s[i].0),
    decreases s.len(),
{
    let s2 = s.remove(i);
    if i == s.len() - 1 {
        assert(s2 =~= s.drop_last());
        assert(forall|j: int| 0 <= j < s.drop_last().len() ==> (#[trigger] s.drop_last()[j]).0 != s[i].0);
        lemma_assoc_contains(s.drop_last(), s[i].0);
        assert(!assoc_model(s.drop_last()).contains_key(s[i].0));
    } else {
        assert(assoc_unique(s.drop_last()));
        assert(s.drop_last()[i] == s[i]);
        lemma_assoc_remove(s.drop_last(), i);
        assert(s2.last() == s.last());
        assert(s2.drop_last() =~= s.drop_last().remove(i));
        assert(s.last().0 != s[i].0);
    }
}

/// The entries of one table, as (key, value) models.
pub open spec fn entry_views(s: Seq<(String, Value)>) -> Seq<(Seq<char>, ValueV)> {
    s.map_values(|e: (String, Value)| (e.0@, e.1@))
}

/// The table one entry list denotes.
pub open spec fn table_entries_model(s: Seq<(String, Value)>) -> TableV {
    assoc_model(entry_views(s))
}

/// The entries stand in strictly increasing key order.
pub open spec fn entries_sorted(s: Seq<(String, Value)>) -> bool {
    forall|i: int, j: int| 0 <= i < j < s.len() ==> lex_lt((#[trigger] s[i]).0@, (#[trigger] s[j]).0@)
}

/// Sorted entries hold each key at most once.
proof fn lemma_entries_sorted_unique(s: Seq<(String, Value)>)
    requires
        entries_sorted(s),
    ensures
        assoc_unique(entry_views(s)),
{
    assert forall|i: int, j: int| 0 <= i < j < entry_views(s).len() implies (#[trigger] entry_views(
        s,
    )[i]).0 != (#[trigger] entry_views(s)[j]).0 by {
        assert(lex_lt(s[i].0@, s[j].0@));
        if s[i].0@ == s[j].0@ {
            lemma_lex_lt_irrefl(s[i].0@);
        }
    }
}

/// Removing an entry keeps the rest sorted.
proof fn lemma_sorted_remove(s: Seq<(String, Value)>, i: int)
    requires
        entries_sorted(s),
        0 <= i < s.len(),
    ensures
        entries_sorted(s.remove(i)),
{
    let s2 = s.remove(i);
    assert forall|a: int, b: int| 0 <= a < b < s2.len() implies lex_lt(
        (#[trigger] s2[a]).0@,
        (#[trigger] s2[b]).0@,
    ) by {
        let a0: int = if a < i { a } else { a + 1 };
        let b0: int = if b < i { b } else { b + 1 };
        assert(s2[a] == s[a0]);
        assert(s2[b] == s[b0]);
    }
}

/// An entry below everything from position `i` on, and above everything
/// before it, can be inserted at `i` without disturbing the order.
proof fn lemma_sorted_insert(s: Seq<(String, Value)>, i: int, p: (String, Value))
    requires
        entries_sorted(s),
        0 <= i <= s.len(),
        forall|j: int| 0 <= j < i ==> lex_lt((#[trigger] s[j]).0@, p.0@),
        forall|j: int| i <= j < s.len() ==> lex_lt(p.0@, (#[trigger] s[j]).0@),
    ensures
        entries_sorted(s.insert(i, p)),
{
    let s2 = s.insert(i, p);
    assert forall|a: int, b: int| 0 <= a < b < s2.len() implies lex_lt(
        (#[trigger] s2[a]).0@,
        (#[trigger] s2[b]).0@,
    ) by {
        if a < i {
            assert(s2[a] == s[a]);
        } else if a == i {
            assert(s2[a] == p);
        } else {
            assert(s2[a] == s[a - 1]);
        }
        if b < i {
            assert(s2[b] == s[b]);
        } else if b == i {
            assert(s2[b] == p);
        } else {
            assert(s2[b] == s[b - 1]);
        }
    }
}

/// Look one key up in a sorted entry list.
fn table_get(entries: &Vec<(String, Value)>, key: &str) -> (r: Option<Value>)
    requires
        assoc_unique(entry_views(entries@)),
    ensures
        opt_value_view(r) == tbl_get(table_entries_model(entries@), key@),
{
    let mut i: usize = 0;
    while i < entries.len()
        invariant
            i <= entries@.len(),
            assoc_unique(entry_views(entries@)),
            forall|j: int| 0 <= j < i ==> (#[trigger] entries@[j]).0@ != key@,
        decreases entries@.len() - i,
    {
        if str_eq(entries[i].0.as_str(), key) {
            let v = entries[i].1.clone();
            proof {
                lemma_assoc_get(entry_views(entries@), i as int);
            }
            return Some(v);
        }
        i = i + 1;
    }
    proof {
        lemma_assoc_contains(entry_views(entries@), key@);
        assert forall|j: int| 0 <= j < entry_views(entries@).len() implies (#[trigger] entry_views(
            entries@,
        )[j]).0 != key@ by {
            assert(entry_views(entries@)[j].0 == entries@[j].0@);
        }
    }
    None
}

/// Write one key into a sorted entry list, keeping it sorted; return the
/// previous value, if any.
pub(crate) fn table_set(entries: &mut Vec<(String, Value)>, key: String, value: Value) -> (r: Option<Value>)
    requires
        entries_sorted(old(entries)@),
    ensures
        entries_sorted(final(entries)@),
        table_entries_model(final(entries)@) == table_entries_model(old(entries)@).insert(
            key@,
            value@,
        ),
        opt_value_view(r) == tbl_get(table_entries_model(old(entries)@), key@),
{
    let ghost s0 = entries@;
    let ghost kv = key@;
    let ghost vv = value@;
    proof {
        lemma_entries_sorted_unique(s0);
    }
    let mut i: usize = 0;
    while i < entries.len()
        invariant
            i <= s0.len(),
            old(entries)@ == s0,
            entries@ == s0,
            entries_sorted(s0),
            assoc_unique(entry_views(s0)),
            kv == key@,
            vv == value@,
            forall|j: int| 0 <= j < i ==> lex_lt((#[trigger] s0[j]).0@, kv),
        decreases s0.len() - i,
    {
        if str_eq(entries[i].0.as_str(), key.as_str()) {
            let prev = entries[i].1.clone();
            let ghost gi = i as int;
            let _ = entries.remove(i);
            entries.insert(i, (key, value));
            proof {
                assert(entries@ =~= s0.update(gi, entries@[gi]));
                assert(entries@[gi].0@ == kv);
                assert(entries@[gi].1@ == vv);
                assert(entry_views(entries@) =~= entry_views(s0).update(gi, (kv, vv)));
                assert(entry_views(s0)[gi].0 == kv);
                assert(entry_views(s0).update(gi, (kv, vv)) =~= entry_views(s0).update(
                    gi,
                    (entry_views(s0)[gi].0, vv),
                ));
                lemma_assoc_update(entry_views(s0), gi, vv);
                lemma_assoc_get(entry_views(s0), gi);
                assert(table_entries_model(entries@) =~= table_entries_model(s0).insert(kv, vv));
                assert forall|a: int, b: int| 0 <= a < b < entries@.len() implies lex_lt(
                    (#[trigger] entries@[a]).0@,
                    (#[trigger] entries@[b]).0@,
                ) by {
                    assert(entries@[a].0@ == s0[a].0@);
                    assert(entries@[b].0@ == s0[b].0@);
                }
            }
            return Some(prev);
        }
        if str_lt(key.as_str(), entries[i].0.as_str()) {
            let ghost gi = i as int;
            entries.insert(i, (key, value));
            proof {
                assert(forall|j: int|
                    gi <= j < s0.len() ==> lex_lt(kv, (#[trigger] s0[j]).0@)) by {
                    assert forall|j: int| gi <= j < s0.len() implies lex_lt(
                        kv,
                        (#[trigger] s0[j]).0@,
                    ) by {
                        if j > gi {
                            lemma_lex_lt_trans(kv, s0[gi].0@, s0[j].0@);
                        }
                    }
                }
                lemma_sorted_insert(s0, gi, (entries@[gi].0, entries@[gi].1));
                assert(entries@ =~= s0.insert(gi, (entries@[gi].0, entries@[gi].1)));
                assert forall|j: int| 0 <= j < entry_views(s0).len() implies (#[trigger] entry_views(
                    s0,
                )[j]).0 != kv by {
                    assert(entry_views(s0)[j].0 == s0[j].0@);
                    if s0[j].0@ == kv {
                        if j < gi {
                            lemma_lex_lt_irrefl(kv);
                        } else {
                            lemma_lex_lt_irrefl(kv);
                        }
                    }
                }
                assert(entry_views(entries@) =~= entry_views(s0).insert(gi, (kv, vv)));
                lemma_assoc_insert(entry_views(s0), gi, kv, vv);
                lemma_assoc_contains(entry_views(s0), kv);
                assert(table_entries_model(entries@) =~= table_entries_model(s0).insert(kv, vv));
            }
            return None;
        }
        proof {
            if !lex_lt(s0[i as int].0@, kv) {
                lemma_lex_lt_connex(kv, s0[i as int].0@);
                assert(false);
            }
        }
        i = i + 1;
    }
    let ghost glen = s0.len() as int;
    entries.push((key, value));
    proof {
        assert forall|j: int| 0 <= j < entry_views(s0).len() implies (#[trigger] entry_views(
            s0,
        )[j]).0 != kv by {
            assert(entry_views(s0)[j].0 == s0[j].0@);
            if s0[j].0@ == kv {
                lemma_lex_lt_irrefl(kv);
            }
        }
        lemma_sorted_insert(s0, glen, (entries@[glen].0, entries@[glen].1));
        assert(entries@ =~= s0.insert(glen, (entries@[glen].0, entries@[glen].1)));
        assert(entry_views(entries@) =~= entry_views(s0).insert(glen, (kv, vv)));
        lemma_assoc_insert(entry_views(s0), glen, kv, vv);
        lemma_assoc_contains(entry_views(s0), kv);
        assert(table_entries_model(entries@) =~= table_entries_model(s0).insert(kv, vv));
    }
    None
}

/// Delete one key from a sorted entry list; return the removed value, if any.
fn table_del(entries: &mut Vec<(String, Value)>, key: &str) -> (r: Option<Value>)
    requires
        entries_sorted(old(entries)@),
    ensures
        entries_sorted(final(entries)@),
        table_entries_model(final(entries)@) == table_entries_model(old(entries)@).remove(key@),
        opt_value_view(r) == tbl_get(table_entries_model(old(entries)@), key@),
{
    let ghost s0 = entries@;
    let ghost kv = key@;
    proof {
        lemma_entries_sorted_unique(s0);
    }
    let mut i: usize = 0;
    while i < entries.len()
        invariant
            i <= s0.len(),
            old(entries)@ == s0,
            entries@ == s0,
            entries_sorted(s0),
            assoc_unique(entry_views(s0)),
            kv == key@,
            forall|j: int| 0 <= j < i ==> (#[trigger] s0[j]).0@ != kv,
        decreases s0.len() - i,
    {
        if str_eq(entries[i].0.as_str(), key) {
            let (_, prev) = entries.remove(i);
            proof {
                let gi = i as int;
                lemma_sorted_remove(s0, gi);
                assert(entry_views(entries@) =~= entry_views(s0).remove(gi));
                lemma_assoc_remove(entry_views(s0), gi);
                lemma_assoc_get(entry_views(s0), gi);
                assert(entry_views(s0)[gi].0 == kv);
                assert(table_entries_model(entries@) =~= table_entries_model(s0).remove(kv));
            }
            return Some(prev);
        }
        i = i + 1;
    }
    proof {
        lemma_assoc_contains(entry_views(s0), kv);
        assert forall|j: int| 0 <= j < entry_views(s0).len() implies (#[trigger] entry_views(
            s0,
        )[j]).0 != kv by {
            assert(entry_views(s0)[j].0 == s0[j].0@);
        }
        assert(!table_entries_model(s0).contains_key(kv));
        assert(table_entries_model(s0).remove(kv) =~= table_entries_model(s0));
    }
    None
}



/// Emit a sorted entry list as pairs: exactly the table it denotes, in
/// key order.
pub(crate) fn entries_to_pairs(entries: &Vec<(String, Value)>) -> (r: Vec<Kvpair>)
    requires
        entries_sorted(entries@),
    ensures
        sorted_by_key(pairs_view(r@)),
        pairs_match_table(pairs_view(r@), table_entries_model(entries@)),
{
    proof {
        lemma_entries_sorted_unique(entries@);
    }
    let ghost es = entries@;
    let ghost tbl = table_entries_model(es);
    let mut out: Vec<Kvpair> = Vec::new();
    let mut j: usize = 0;
    while j < entries.len()
        invariant
            j <= es.len(),
            entries@ == es,
            out@.len() == j,
            forall|l: int|
                0 <= l < j ==> (#[trigger] out@[l])@ == (KvpairV {
                    key: es[l].0@,
                    value: es[l].1@,
                }),
        decreases es.len() - j,
    {
        let p = Kvpair::new(entries[j].0.as_str(), entries[j].1.clone());
        out.push(p);
        j = j + 1;
    }
    proof {
        let pv = pairs_view(out@);
        assert forall|a: int, b: int| 0 <= a < b < pv.len() implies lex_lt(
            (#[trigger] pv[a]).key,
            (#[trigger] pv[b]).key,
        ) by {
            assert(pv[a].key == es[a].0@);
            assert(pv[b].key == es[b].0@);
        }
        assert forall|l: int| 0 <= l < pv.len() implies tbl.contains_key((#[trigger] pv[l]).key)
            && tbl[pv[l].key] == pv[l].value by {
            lemma_assoc_get(entry_views(es), l);
            assert(pv[l].key == es[l].0@);
            assert(pv[l].value == es[l].1@);
        }
        assert forall|k: Seq<char>| tbl.contains_key(k) implies exists|l: int|
            0 <= l < pv.len() && (#[trigger] pv[l]).key == k by {
            lemma_assoc_contains(entry_views(es), k);
            let l = choose|l: int|
                0 <= l < entry_views(es).len() && (#[trigger] entry_views(es)[l]).0 == k;
            assert(pv[l].key == k);
        }
    }
    out
}

/// The tables of the in-memory backend, as (name, table) models.
pub open spec fn outer_views(s: Seq<(String, Vec<(String, Value)>)>) -> Seq<(Seq<char>, TableV)> {
    s.map_values(|t: (String, Vec<(String, Value)>)| (t.0@, table_entries_model(t.1@)))
}

/// The in-memory backend: a list of named tables, each a sorted entry
/// list. It never fails.
pub struct MemTable {
    tables_vec: Vec<(String, Vec<(String, Value)>)>,
}

impl MemTable {
    /// Table names are unique and every table is sorted by key.
    pub closed spec fn inv(&self) -> bool {
        &&& assoc_unique(outer_views(self.tables_vec@))
        &&& forall|i: int|
            0 <= i < self.tables_vec@.len() ==> entries_sorted((#[trigger] self.tables_vec@[i]).1@)
    }

    /// An empty store: no table exists yet.
    pub fn new() -> (r: Self)
        ensures
            r.wf(),
            r.tables() == Map::<Seq<char>, TableV>::empty(),
            !r.may_fail(),
    {
        let r = MemTable { tables_vec: Vec::new() };
        proof {
            assert(outer_views(r.tables_vec@) =~= Seq::<(Seq<char>, TableV)>::empty());
        }
        r
    }

    /// The position of the table named `table`, if one exists.
    fn find_table(&self, table: &str) -> (r: Option<usize>)
        ensures
            (match r {
                Some(i) => i < self.tables_vec@.len() && self.tables_vec@[i as int].0@ == table@,
                None => forall|i: int|
                    0 <= i < self.tables_vec@.len() ==> (#[trigger] self.tables_vec@[i]).0@ != table@,
            }),
    {
        let mut i: usize = 0;
        while i < self.tables_vec.len()
            invariant
                i <= self.tables_vec@.len(),
                forall|j: int| 0 <= j < i ==> (#[trigger] self.tables_vec@[j]).0@ != table@,
            decreases self.tables_vec@.len() - i,
        {
            if str_eq(self.tables_vec[i].0.as_str(), table) {
                return Some(i);
            }
            i = i + 1;
        }
        None
    }

    /// The names of all entries differ from `table`, so the model holds
    /// no table of that name.
    proof fn lemma_absent(&self, table: Seq<char>)
        requires
            forall|i: int|
                0 <= i < self.tables_vec@.len() ==> (#[trigger] self.tables_vec@[i]).0@ != table,
        ensures
            !self.tables().contains_key(table),
    {
        lemma_assoc_contains(outer_views(self.tables_vec@), table);
        assert forall|j: int| 0 <= j < outer_views(self.tables_vec@).len() implies (
        #[trigger] outer_views(self.tables_vec@)[j]).0 != table by {
            assert(outer_views(self.tables_vec@)[j].0 == self.tables_vec@[j].0@);
        }
    }

    /// Entry `i` of the list is the model's table of that name.
    proof fn lemma_found(&self, i: int)
        requires
            self.inv(),
            0 <= i < self.tables_vec@.len(),
        ensures
            self.tables().contains_key(self.tables_vec@[i].0@),
            self.tables()[self.tables_vec@[i].0@] == table_entries_model(self.tables_vec@[i].1@),
    {
        lemma_assoc_get(outer_views(self.tables_vec@), i);
    }
}

impl Default for MemTable {
    /// The default store is the empty store.
    fn default() -> (r: Self)
        ensures
            r.wf(),
            r.tables() == Map::<Seq<char>, TableV>::empty(),
            !r.may_fail(),
    {
        MemTable::new()
    }
}

impl Storage for MemTable {
    closed spec fn wf(&self) -> bool {
        self.inv()
    }

    closed spec fn tables(&self) -> StoreV {
        assoc_model(outer_views(self.tables_vec@))
    }

    open spec fn may_fail(&self) -> bool {
        false
    }

    fn get(&self, table: &str, key: &str) -> (r: Result<Option<Value>, KvError>) {
        match self.find_table(table) {
            Some(i) => {
                proof {
                    self.lemma_found(i as int);
                    lemma_entries_sorted_unique(self.tables_vec@[i as int].1@);
                }
                Ok(table_get(&self.tables_vec[i].1, key))
            },
            None => {
                proof {
                    self.lemma_absent(table@);
                }
                Ok(None)
            },
        }
    }

    fn set(&mut self, table: &str, key: String, value: Value) -> (r: Result<
        Option<Value>,
        KvError,
    >) {
        let ghost m0 = self.tables();
        let ghost s0 = self.tables_vec@;
        let ghost tv = table@;
        let ghost kv = key@;
        let ghost vv = value@;
        match self.find_table(table) {
            Some(i) => {
                let ghost gi = i as int;
                proof {
                    self.lemma_found(gi);
                }
                let (name, mut inner) = self.tables_vec.remove(i);
                let ghost e0 = inner@;
                let prev = table_set(&mut inner, key, value);
                self.tables_vec.insert(i, (name, inner));
                proof {
                    let s2 = self.tables_vec@;
                    assert(s2 =~= s0.update(gi, s2[gi]));
                    assert(s2[gi].0@ == tv);
                    assert(s2[gi].1@ == inner@);
                    assert(outer_views(s2) =~= outer_views(s0).update(
                        gi,
                        (tv, table_entries_model(inner@)),
                    ));
                    assert(outer_views(s0)[gi].0 == tv);
                    assert(outer_views(s0).update(gi, (tv, table_entries_model(inner@)))
                        =~= outer_views(s0).update(
                        gi,
                        (outer_views(s0)[gi].0, table_entries_model(inner@)),
                    ));
                    lemma_assoc_update(outer_views(s0), gi, table_entries_model(inner@));
                    assert(table_entries_model(inner@) == table_entries_model(e0).insert(kv, vv));
                    assert(table_of(m0, tv) == table_entries_model(e0));
                    assert(self.tables() =~= store_set(m0, tv, kv, vv));
                    assert forall|a: int, b: int|
                        0 <= a < b < outer_views(s2).len() implies (#[trigger] outer_views(
                        s2,
                    )[a]).0 != (#[trigger] outer_views(s2)[b]).0 by {
                        assert(outer_views(s2)[a].0 == outer_views(s0)[a].0);
                        assert(outer_views(s2)[b].0 == outer_views(s0)[b].0);
                    }
                    assert forall|j: int| 0 <= j < s2.len() implies entries_sorted(
                        (#[trigger] s2[j]).1@,
                    ) by {
                        if j != gi {
                            assert(s2[j] == s0[j]);
                        }
                    }
                }
                Ok(prev)
            },
            None => {
                proof {
                    self.lemma_absent(tv);
                }
                let mut inner: Vec<(String, Value)> = Vec::new();
                inner.push((key, value));
                self.tables_vec.push((table.to_owned(), inner));
                proof {
                    let s2 = self.tables_vec@;
                    assert(s2 =~= s0.push(s2.last()));
                    assert(s2.last().0@ == tv);
                    assert(entry_views(s2.last().1@) =~= seq![(kv, vv)]);
                    assert(entry_views(s2.last().1@).drop_last() =~= Seq::<(Seq<char>, ValueV)>::empty());
                    assert(assoc_model(Seq::<(Seq<char>, ValueV)>::empty()) =~= Map::<Seq<char>, ValueV>::empty());
                    assert(table_entries_model(s2.last().1@) =~= Map::<Seq<char>, ValueV>::empty().insert(kv, vv));
                    assert(outer_views(s2) =~= outer_views(s0).push(
                        (tv, table_entries_model(s2.last().1@)),
                    ));
                    lemma_assoc_push(outer_views(s0), tv, table_entries_model(s2.last().1@));
                    assert(table_of(m0, tv) =~= Map::<Seq<char>, ValueV>::empty());
                    assert(self.tables() =~= store_set(m0, tv, kv, vv));
                    assert forall|a: int, b: int|
                        0 <= a < b < outer_views(s2).len() implies (#[trigger] outer_views(
                        s2,
                    )[a]).0 != (#[trigger] outer_views(s2)[b]).0 by {
                        if b < s2.len() - 1 {
                            assert(outer_views(s2)[a].0 == outer_views(s0)[a].0);
                            assert(outer_views(s2)[b].0 == outer_views(s0)[b].0);
                        } else {
                            assert(outer_views(s2)[a].0 == s0[a].0@);
                            assert(outer_views(s2)[b].0 == tv);
                        }
                    }
                    assert forall|j: int| 0 <= j < s2.len() implies entries_sorted(
                        (#[trigger] s2[j]).1@,
                    ) by {
                        if j < s2.len() - 1 {
                            assert(s2[j] == s0[j]);
                        } else {
                            assert(s2[j].1@.len() == 1);
                        }
                    }
                }
                Ok(None)
            },
        }
    }

    fn contains(&self, table: &str, key: &str) -> (r: Result<bool, KvError>) {
        match self.get(table, key) {
            Ok(o) => Ok(o.is_some()),
            Err(e) => Err(e),
        }
    }

    fn del(&mut self, table: &str, key: &str) -> (r: Result<Option<Value>, KvError>) {
        let ghost m0 = self.tables();
        let ghost s0 = self.tables_vec@;
        let ghost tv = table@;
        let ghost kv = key@;
        match self.find_table(table) {
            Some(i) => {
                let ghost gi = i as int;
                proof {
                    self.lemma_found(gi);
                }
                let (name, mut inner) = self.tables_vec.remove(i);
                let ghost e0 = inner@;
                let prev = table_del(&mut inner, key);
                self.tables_vec.insert(i, (name, inner));
                proof {
                    let s2 = self.tables_vec@;
                    assert(s2 =~= s0.update(gi, s2[gi]));
                    assert(s2[gi].0@ == tv);
                    assert(s2[gi].1@ == inner@);
                    assert(outer_views(s2) =~= outer_views(s0).update(
                        gi,
                        (tv, table_entries_model(inner@)),
                    ));
                    assert(outer_views(s0)[gi].0 == tv);
                    assert(outer_views(s0).update(gi, (tv, table_entries_model(inner@)))
                        =~= outer_views(s0).update(
                        gi,
                        (outer_views(s0)[gi].0, table_entries_model(inner@)),
                    ));
                    lemma_assoc_update(outer_views(s0), gi, table_entries_model(inner@));
                    assert(table_entries_model(inner@) == table_entries_model(e0).remove(kv));
                    assert(m0.contains_key(tv));
                    assert(m0[tv] == table_entries_model(e0));
                    assert(self.tables() =~= store_del(m0, tv, kv));
                    assert forall|a: int, b: int|
                        0 <= a < b < outer_views(s2).len() implies (#[trigger] outer_views(
                        s2,
                    )[a]).0 != (#[trigger] outer_views(s2)[b]).0 by {
                        assert(outer_views(s2)[a].0 == outer_views(s0)[a].0);
                        assert(outer_views(s2)[b].0 == outer_views(s0)[b].0);
                    }
                    assert forall|j: int| 0 <= j < s2.len() implies entries_sorted(
                        (#[trigger] s2[j]).1@,
                    ) by {
                        if j != gi {
                            assert(s2[j] == s0[j]);
                        }
                    }
                }
                Ok(prev)
            },
            None => {
                proof {
                    self.lemma_absent(tv);
                }
                Ok(None)
            },
        }
    }

    fn get_all(&self, table: &str) -> (r: Result<Vec<Kvpair>, KvError>) {
        match self.find_table(table) {
            Some(i) => {
                proof {
                    self.lemma_found(i as int);
                }
                Ok(entries_to_pairs(&self.tables_vec[i].1))
            },
            None => {
                proof {
                    self.lemma_absent(table@);
                    assert(table_of(self.tables(), table@) =~= Map::<Seq<char>, ValueV>::empty());
                    assert(pairs_view(Seq::<Kvpair>::empty()) =~= Seq::<KvpairV>::empty());
                }
                Ok(Vec::new())
            },
        }
    }

    fn get_iter(&self, table: &str) -> (r: Result<StorageIter<Vec<Kvpair>>, KvError>) {
        match self.get_all(table) {
            Ok(v) => Ok(StorageIter::new(v)),
            Err(e) => Err(e),
        }
    }
}

} // verus!
