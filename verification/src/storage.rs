//! The storage capability: an abstract, table-of-tables keyspace, the
//! contract every backend meets, and the order in which scans come back.

use vstd::prelude::*;
use vstd::string::StrSliceExecFns;
use crate::pb::{Value, ValueV, Kvpair, KvpairV};
use crate::error::{KvError, KvErrorV};

verus! {

/// The model of one table: a mapping from key to value.
pub type TableV = Map<Seq<char>, ValueV>;

/// The model of a whole store: a mapping from table name to table.
pub type StoreV = Map<Seq<char>, TableV>;

/// The table named `t`, or the empty table if it was never written.
pub open spec fn table_of(m: StoreV, t: Seq<char>) -> TableV {
    if m.contains_key(t) {
        m[t]
    } else {
        Map::empty()
    }
}

/// What a read of key `k` in a single table returns.
pub open spec fn tbl_get(t: TableV, k: Seq<char>) -> Option<ValueV> {
    if t.contains_key(k) {
        Some(t[k])
    } else {
        None
    }
}

/// What a read of key `k` in table `t` returns.
pub open spec fn store_get(m: StoreV, t: Seq<char>, k: Seq<char>) -> Option<ValueV> {
    tbl_get(table_of(m, t), k)
}

/// The store after writing `v` under key `k` in table `t`; the table is
/// created if absent.
pub open spec fn store_set(m: StoreV, t: Seq<char>, k: Seq<char>, v: ValueV) -> StoreV {
    m.insert(t, table_of(m, t).insert(k, v))
}

/// The store after deleting key `k` from table `t`. Deleting from an
/// absent table, or an absent key, changes nothing.
pub open spec fn store_del(m: StoreV, t: Seq<char>, k: Seq<char>) -> StoreV {
    if m.contains_key(t) {
        m.insert(t, m[t].remove(k))
    } else {
        m
    }
}

/// Two stores that hold the same tables, key for key: no observation
/// through a table read tells them apart. A backend that cannot represent
/// an empty table meets its contracts up to this equivalence.
pub open spec fn tables_equiv(a: StoreV, b: StoreV) -> bool {
    forall|t: Seq<char>| #[trigger] table_of(a, t) == table_of(b, t)
}

/// Strict lexicographic order on keys, by character.
pub open spec fn lex_lt(a: Seq<char>, b: Seq<char>) -> bool
    decreases a.len(),
{
    if b.len() == 0 {
        false
    } else if a.len() == 0 {
        true
    } else if a[0] != b[0] {
        (a[0] as u32) < (b[0] as u32)
    } else {
        lex_lt(a.skip(1), b.skip(1))
    }
}

/// The order is irreflexive: no key is below itself.
pub proof fn lemma_lex_lt_irrefl(a: Seq<char>)
    ensures
        !lex_lt(a, a),
    decreases a.len(),
{
    if a.len() > 0 {
        lemma_lex_lt_irrefl(a.skip(1));
    }
}

/// The order is transitive.
pub proof fn lemma_lex_lt_trans(a: Seq<char>, b: Seq<char>, c: Seq<char>)
    requires
        lex_lt(a, b),
        lex_lt(b, c),
    ensures
        lex_lt(a, c),
    decreases a.len(),
{
    broadcast use vstd::utf8::char_u32_cast;

    if a.len() > 0 {
        if a[0] == b[0] && b[0] == c[0] {
            lemma_lex_lt_trans(a.skip(1), b.skip(1), c.skip(1));
        }
    }
}

/// The order is total: two keys not ordered either way are equal.
pub proof fn lemma_lex_lt_connex(a: Seq<char>, b: Seq<char>)
    requires
        !lex_lt(a, b),
        !lex_lt(b, a),
    ensures
        a =~= b,
    decreases a.len(),
{
    broadcast use vstd::utf8::char_u32_cast;

    if a.len() > 0 && b.len() > 0 {
        if a[0] != b[0] {
            assert((a[0] as u32) == (b[0] as u32));
            vstd::utf8::char_u32_cast(a[0], a[0] as u32);
            vstd::utf8::char_u32_cast(b[0], b[0] as u32);
            assert(false);
        }
        lemma_lex_lt_connex(a.skip(1), b.skip(1));
        assert(a =~= seq![a[0]] + a.skip(1));
        assert(b =~= seq![b[0]] + b.skip(1));
    }
}

/// Keys with an equal prefix compare as their remainders do.
pub proof fn lemma_lex_lt_skip_prefix(a: Seq<char>, b: Seq<char>, i: int)
    requires
        0 <= i <= a.len(),
        i <= b.len(),
        forall|j: int| 0 <= j < i ==> a[j] == b[j],
    ensures
        lex_lt(a, b) == lex_lt(a.skip(i), b.skip(i)),
    decreases i,
{
    if i > 0 {
        assert(a[0] == b[0]);
        assert(lex_lt(a, b) == lex_lt(a.skip(1), b.skip(1)));
        lemma_lex_lt_skip_prefix(a.skip(1), b.skip(1), i - 1);
        assert(a.skip(1).skip(i - 1) =~= a.skip(i));
        assert(b.skip(1).skip(i - 1) =~= b.skip(i));
    } else {
        assert(a.skip(0) =~= a);
        assert(b.skip(0) =~= b);
    }
}

/// Whether two pieces of text hold the same characters.
pub fn str_eq(a: &str, b: &str) -> (r: bool)
    ensures
        r == (a@ == b@),
{
    let la = a.unicode_len();
    let lb = b.unicode_len();
    if la != lb {
        assert(a@ != b@) by {
            assert(a@.len() != b@.len());
        }
        return false;
    }
    let mut i: usize = 0;
    while i < la
        invariant
            i <= la,
            la == a@.len(),
            la == b@.len(),
            forall|j: int| 0 <= j < i ==> a@[j] == b@[j],
        decreases la - i,
    {
        let ca = a.get_char(i);
        let cb = b.get_char(i);
        if ca != cb {
            return false;
        }
        i = i + 1;
    }
    proof {
        assert(a@ =~= b@);
    }
    true
}

/// Whether `a` comes strictly before `b` in lexicographic key order.
pub fn str_lt(a: &str, b: &str) -> (r: bool)
    ensures
        r == lex_lt(a@, b@),
{
    let la = a.unicode_len();
    let lb = b.unicode_len();
    let mut i: usize = 0;
    while i < la && i < lb
        invariant
            i <= la,
            i <= lb,
            la == a@.len(),
            lb == b@.len(),
            forall|j: int| 0 <= j < i ==> a@[j] == b@[j],
        decreases la - i,
    {
        let ca = a.get_char(i);
        let cb = b.get_char(i);
        if ca != cb {
            proof {
                lemma_lex_lt_skip_prefix(a@, b@, i as int);
                assert(a@.skip(i as int)[0] == a@[i as int]);
                assert(b@.skip(i as int)[0] == b@[i as int]);
            }
            return (ca as u32) < (cb as u32);
        }
        i = i + 1;
    }
    proof {
        lemma_lex_lt_skip_prefix(a@, b@, i as int);
    }
    la < lb
}

/// The pairs stand in strictly increasing key order (so no key repeats).
pub open spec fn sorted_by_key(s: Seq<KvpairV>) -> bool {
    forall|i: int, j: int| 0 <= i < j < s.len() ==> lex_lt(#[trigger] s[i].key, #[trigger] s[j].key)
}

/// The pairs are exactly the contents of the table: every pair is in the
/// table, and every key of the table appears.
pub open spec fn pairs_match_table(s: Seq<KvpairV>, t: TableV) -> bool {
    &&& forall|i: int|
        0 <= i < s.len() ==> t.contains_key(#[trigger] s[i].key) && t[s[i].key] == s[i].value
    &&& forall|k: Seq<char>| t.contains_key(k) ==> exists|i: int| 0 <= i < s.len() && (#[trigger] s[i].key) == k
}

/// A key never written reads as absent: the empty store holds nothing,
/// under any table and any key.
pub proof fn lemma_empty_store_reads_none(t: Seq<char>, k: Seq<char>)
    ensures
        store_get(Map::empty(), t, k) is None,
{
}

/// A write is read back: after writing `v` under key `k` of table `t`,
/// that key holds exactly `v`.
pub proof fn lemma_set_get(m: StoreV, t: Seq<char>, k: Seq<char>, v: ValueV)
    ensures
        store_get(store_set(m, t, k, v), t, k) == Some(v),
{
}

/// A write leaves every other key, in any table, unchanged.
pub proof fn lemma_set_frame(
    m: StoreV,
    t: Seq<char>,
    k: Seq<char>,
    v: ValueV,
    t2: Seq<char>,
    k2: Seq<char>,
)
    requires
        t != t2 || k != k2,
    ensures
        store_get(store_set(m, t, k, v), t2, k2) == store_get(m, t2, k2),
{
}

/// Two writes to the same key land in order: the later one wins.
pub proof fn lemma_set_set_last_wins(
    m: StoreV,
    t: Seq<char>,
    k: Seq<char>,
    v1: ValueV,
    v2: ValueV,
)
    ensures
        store_get(store_set(store_set(m, t, k, v1), t, k, v2), t, k) == Some(v2),
{
}

/// Writes to distinct keys are independent: they commute, so any
/// interleaving of writers to distinct keys leaves the same store.
pub proof fn lemma_set_commutes(
    m: StoreV,
    t1: Seq<char>,
    k1: Seq<char>,
    v1: ValueV,
    t2: Seq<char>,
    k2: Seq<char>,
    v2: ValueV,
)
    requires
        t1 != t2 || k1 != k2,
    ensures
        store_set(store_set(m, t1, k1, v1), t2, k2, v2) == store_set(
            store_set(m, t2, k2, v2),
            t1,
            k1,
            v1,
        ),
{
    if t1 == t2 {
        let ta = table_of(m, t1);
        assert(ta.insert(k1, v1).insert(k2, v2) =~= ta.insert(k2, v2).insert(k1, v1));
        assert(store_set(store_set(m, t1, k1, v1), t2, k2, v2) =~= store_set(
            store_set(m, t2, k2, v2),
            t1,
            k1,
            v1,
        ));
    } else {
        assert(table_of(store_set(m, t1, k1, v1), t2) == table_of(m, t2));
        assert(table_of(store_set(m, t2, k2, v2), t1) == table_of(m, t1));
        assert(store_set(store_set(m, t1, k1, v1), t2, k2, v2) =~= store_set(
            store_set(m, t2, k2, v2),
            t1,
            k1,
            v1,
        ));
    }
}

/// Deleting a key leaves it absent; an unset key stays absent, and that
/// is not an error.
pub proof fn lemma_del_get(m: StoreV, t: Seq<char>, k: Seq<char>)
    ensures
        store_get(store_del(m, t, k), t, k) is None,
{
}

/// A delete leaves every other key, in any table, unchanged.
pub proof fn lemma_del_frame(m: StoreV, t: Seq<char>, k: Seq<char>, t2: Seq<char>, k2: Seq<char>)
    requires
        t != t2 || k != k2,
    ensures
        store_get(store_del(m, t, k), t2, k2) == store_get(m, t2, k2),
{
}

/// The model of an optional value handed back by a backend.
pub open spec fn opt_value_view(o: Option<Value>) -> Option<ValueV> {
    match o {
        Some(v) => Some(v@),
        None => None,
    }
}

/// The model of a sequence of pairs.
pub open spec fn pairs_view(s: Seq<Kvpair>) -> Seq<KvpairV> {
    s.map_values(|p: Kvpair| p@)
}

/// An error a backend is allowed to fail with: a storage-access error,
/// a decode failure on stored bytes, or an internal defect.
pub open spec fn is_backend_error(e: KvErrorV) -> bool {
    ||| e is SledError
    ||| e is DecodeError
    ||| e is Internal
}

/// The storage capability. A backend owns all tables; its model is a
/// mapping from table name to a mapping from key to value. A backend
/// whose `may_fail` is false never returns an error.
pub trait Storage: Sized {
    /// The backend's well-formedness; every operation preserves it.
    spec fn wf(&self) -> bool;

    /// The tables the backend holds.
    spec fn tables(&self) -> StoreV;

    /// Whether operations may fail with a backend error.
    spec fn may_fail(&self) -> bool;

    /// Read the value under `key` in `table`, if any.
    fn get(&self, table: &str, key: &str) -> (r: Result<Option<Value>, KvError>)
        requires
            self.wf(),
        ensures
            (match r {
                Ok(o) => opt_value_view(o) == store_get(self.tables(), table@, key@),
                Err(e) => self.may_fail() && is_backend_error(e@),
            }),
            !self.may_fail() ==> r is Ok,
    ;

    /// Write `value` under `key` in `table`, creating the table if absent;
    /// return the previous value, if any.
    fn set(&mut self, table: &str, key: String, value: Value) -> (r: Result<Option<Value>, KvError>)
        requires
            old(self).wf(),
        ensures
            final(self).wf(),
            final(self).may_fail() == old(self).may_fail(),
            (match r {
                Ok(prev) => {
                    &&& tables_equiv(
                        final(self).tables(),
                        store_set(old(self).tables(), table@, key@, value@),
                    )
                    &&& opt_value_view(prev) == store_get(old(self).tables(), table@, key@)
                },
                Err(e) => old(self).may_fail() && is_backend_error(e@),
            }),
            !old(self).may_fail() ==> r is Ok,
    ;

    /// Whether `table` holds anything under `key`.
    fn contains(&self, table: &str, key: &str) -> (r: Result<bool, KvError>)
        requires
            self.wf(),
        ensures
            (match r {
                Ok(b) => b == (store_get(self.tables(), table@, key@) is Some),
                Err(e) => self.may_fail() && is_backend_error(e@),
            }),
            !self.may_fail() ==> r is Ok,
    ;

    /// Delete `key` from `table`; return the removed value, if any.
    /// Deleting an absent key is not an error.
    fn del(&mut self, table: &str, key: &str) -> (r: Result<Option<Value>, KvError>)
        requires
            old(self).wf(),
        ensures
            final(self).wf(),
            final(self).may_fail() == old(self).may_fail(),
            (match r {
                Ok(prev) => {
                    &&& tables_equiv(
                        final(self).tables(),
                        store_del(old(self).tables(), table@, key@),
                    )
                    &&& opt_value_view(prev) == store_get(old(self).tables(), table@, key@)
                },
                Err(e) => old(self).may_fail() && is_backend_error(e@),
            }),
            !old(self).may_fail() ==> r is Ok,
    ;

    /// All pairs of `table`, sorted by key; empty for an absent table.
    fn get_all(&self, table: &str) -> (r: Result<Vec<Kvpair>, KvError>)
        requires
            self.wf(),
        ensures
            (match r {
                Ok(v) => {
                    &&& sorted_by_key(pairs_view(v@))
                    &&& pairs_match_table(pairs_view(v@), table_of(self.tables(), table@))
                },
                Err(e) => self.may_fail() && is_backend_error(e@),
            }),
            !self.may_fail() ==> r is Ok,
    ;

    /// A single-pass iterator over the same pairs `get_all` returns.
    fn get_iter(&self, table: &str) -> (r: Result<StorageIter<Vec<Kvpair>>, KvError>)
        requires
            self.wf(),
        ensures
            (match r {
                Ok(it) => {
                    &&& it.pos == 0
                    &&& sorted_by_key(pairs_view(it.data@))
                    &&& pairs_match_table(pairs_view(it.data@), table_of(self.tables(), table@))
                },
                Err(e) => self.may_fail() && is_backend_error(e@),
            }),
            !self.may_fail() ==> r is Ok,
    ;
}

/// A finite, single-pass walk over scanned data.
pub struct StorageIter<T> {
    pub data: T,
    pub pos: usize,
}

impl<T> StorageIter<T> {
    /// Start a walk at the front of `data`.
    pub fn new(data: T) -> (r: Self)
        ensures
            r.data == data,
            r.pos == 0,
    {
        StorageIter { data, pos: 0 }
    }
}

impl StorageIter<Vec<Kvpair>> {
    /// The next pair, or nothing once the walk is done.
    pub fn next(&mut self) -> (r: Option<Kvpair>)
        ensures
            final(self).data == old(self).data,
            (if old(self).pos < old(self).data.len() {
                &&& final(self).pos == old(self).pos + 1
                &&& (match r {
                    Some(p) => p@ == old(self).data@[old(self).pos as int]@,
                    None => false,
                })
            } else {
                &&& final(self).pos == old(self).pos
                &&& r is None
            }),
    {
        if self.pos < self.data.len() {
            let p = self.data[self.pos].clone();
            self.pos = self.pos + 1;
            Some(p)
        } else {
            None
        }
    }
}

/// Turn an optional fallible value inside out: absence stays success.
pub fn flip<T, E>(x: Option<Result<T, E>>) -> (r: Result<Option<T>, E>)
    ensures
        (match x {
            None => r == Ok::<Option<T>, E>(None),
            Some(Ok(t)) => r == Ok::<Option<T>, E>(Some(t)),
            Some(Err(e)) => r == Err::<Option<T>, E>(e),
        }),
{
    match x {
        None => Ok(None),
        Some(Ok(t)) => Ok(Some(t)),
        Some(Err(e)) => Err(e),
    }
}

} // verus!
