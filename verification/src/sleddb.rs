//! The durable backend: one ordered byte-string keyspace, shared by all
//! tables. An entry for key `k` of table `t` is stored under the text
//! `t ++ ":" ++ k`, and values are stored as the bytes of `enc_value`.
//! A table whose name holds the separator cannot be composed
//! unambiguously, so this backend keeps no such table: writes to one are
//! refused, and reads of one find nothing.

use vstd::prelude::*;
use vstd::string::{StringExecFns, StrSliceExecFns};
use crate::pb::{Value, ValueV, Kvpair, KvpairV};
use crate::error::KvError;
use crate::codec::{enc_value, encode_value, decode_value, lemma_enc_value_injective};
use crate::storage::{
    Storage, StorageIter, StoreV, TableV, table_of, store_set, store_del, tables_equiv,
    pairs_view,
};
use crate::memory::{entries_sorted, table_entries_model, entries_to_pairs};

verus! {

#[verifier::external_type_specification]
#[verifier::external_body]
pub struct ExSledDb(sled::Db);

/// What the keyspace holds under text keys, as a mapping from key to
/// stored bytes. Keys that are not text lie outside this view and are
/// neither written nor handed out by the wrappers below.
pub uninterp spec fn db_view(db: sled::Db) -> Map<Seq<char>, Seq<u8>>;

/// `p` is a prefix of `s`.
pub open spec fn is_text_prefix(p: Seq<char>, s: Seq<char>) -> bool {
    p.len() <= s.len() && s.subrange(0, p.len() as int) == p
}

/// The separator appears nowhere in the text.
pub open spec fn no_colon(t: Seq<char>) -> bool {
    forall|i: int| 0 <= i < t.len() ==> t[i] != ':'
}

/// Whether the text holds the separator character.
pub fn has_colon(s: &str) -> (r: bool)
    ensures
        r == !no_colon(s@),
{
    let n = s.unicode_len();
    let mut i: usize = 0;
    while i < n
        invariant
            i <= n,
            n == s@.len(),
            forall|j: int| 0 <= j < i ==> s@[j] != ':',
        decreases n - i,
    {
        if s.get_char(i) == ':' {
            return true;
        }
        i = i + 1;
    }
    false
}

/// The scan prefix of a table: its name and the separator.
pub open spec fn prefix_spec(t: Seq<char>) -> Seq<char> {
    t + seq![':']
}

/// The stored key of one entry: the table's prefix, then the key.
pub open spec fn full_key_spec(t: Seq<char>, k: Seq<char>) -> Seq<char> {
    t + seq![':'] + k
}

/// Compose the stored key of one entry.
fn full_key(table: &str, key: &str) -> (r: String)
    ensures
        r@ == full_key_spec(table@, key@),
{
    let mut s = table.to_owned();
    s.append(":");
    s.append(key);
    proof {
        reveal_strlit(":");
        assert(":"@ =~= seq![':']);
    }
    s
}

/// Compose the scan prefix of a table.
fn table_prefix(table: &str) -> (r: String)
    ensures
        r@ == prefix_spec(table@),
{
    let mut s = table.to_owned();
    s.append(":");
    proof {
        reveal_strlit(":");
        assert(":"@ =~= seq![':']);
    }
    s
}

/// Separator-free table names compose injectively: equal stored keys
/// name the same table and the same key.
pub proof fn lemma_full_key_injective(t1: Seq<char>, k1: Seq<char>, t2: Seq<char>, k2: Seq<char>)
    requires
        no_colon(t1),
        no_colon(t2),
        full_key_spec(t1, k1) == full_key_spec(t2, k2),
    ensures
        t1 == t2,
        k1 == k2,
{
    let f = full_key_spec(t1, k1);
    assert(f[t1.len() as int] == ':');
    assert(f[t2.len() as int] == ':');
    if t1.len() < t2.len() {
        assert(f[t1.len() as int] == t2[t1.len() as int]);
        assert(false);
    }
    if t2.len() < t1.len() {
        assert(f[t2.len() as int] == t1[t2.len() as int]);
        assert(false);
    }
    assert forall|i: int| 0 <= i < t1.len() implies t1[i] == t2[i] by {
        assert(full_key_spec(t1, k1)[i] == t1[i]);
        assert(full_key_spec(t2, k2)[i] == t2[i]);
    }
    assert(t1 =~= t2);
    assert(full_key_spec(t1, k1).len() == full_key_spec(t2, k2).len());
    assert(k1.len() == k2.len());
    assert forall|i: int| 0 <= i < k1.len() implies k1[i] == k2[i] by {
        assert(full_key_spec(t1, k1)[t1.len() + 1 + i] == k1[i]);
        assert(full_key_spec(t2, k2)[t2.len() + 1 + i] == k2[i]);
    }
    assert(k1 =~= k2);
}

/// A table's prefix reaches exactly its own stored keys: a stored key
/// that starts with `prefix_spec(t1)` was composed from table `t1`.
pub proof fn lemma_prefix_separates(t1: Seq<char>, t2: Seq<char>, k2: Seq<char>)
    requires
        no_colon(t1),
        no_colon(t2),
        is_text_prefix(prefix_spec(t1), full_key_spec(t2, k2)),
    ensures
        t1 == t2,
{
    let p = prefix_spec(t1);
    let f = full_key_spec(t2, k2);
    assert(p[t1.len() as int] == ':');
    assert(f[t2.len() as int] == ':');
    assert(forall|i: int| 0 <= i < p.len() ==> p[i] == f[i]) by {
        assert(f.subrange(0, p.len() as int) == p);
        assert(forall|i: int|
            0 <= i < p.len() ==> p[i] == #[trigger] f.subrange(0, p.len() as int)[i]);
    }
    if t1.len() < t2.len() {
        assert(p[t1.len() as int] == f[t1.len() as int]);
        assert(f[t1.len() as int] == t2[t1.len() as int]);
        assert(false);
    }
    if t2.len() < t1.len() {
        assert(p[t2.len() as int] == t1[t2.len() as int]);
        assert(p[t2.len() as int] == f[t2.len() as int]);
        assert(false);
    }
    assert forall|i: int| 0 <= i < t1.len() implies t1[i] == t2[i] by {
        assert(p[i] == t1[i]);
        assert(f[i] == t2[i]);
    }
    assert(t1 =~= t2);
}

/// Every stored key of a table starts with that table's prefix, and the
/// key follows it.
pub proof fn lemma_full_key_has_prefix(t: Seq<char>, k: Seq<char>)
    ensures
        is_text_prefix(prefix_spec(t), full_key_spec(t, k)),
        full_key_spec(t, k).subrange(
            prefix_spec(t).len() as int,
            full_key_spec(t, k).len() as int,
        ) == k,
{
    assert(full_key_spec(t, k).subrange(0, prefix_spec(t).len() as int) =~= prefix_spec(t));
    assert(full_key_spec(t, k).subrange(
        prefix_spec(t).len() as int,
        full_key_spec(t, k).len() as int,
    ) =~= k);
}

/// Relies on sled::open: opens or creates the keyspace at `path`. What
/// it holds depends on the disk, so nothing is promised of its contents.
#[verifier::external_body]
fn sled_open(path: &str) -> (r: Result<sled::Db, ()>) {
    match sled::open(path) {
        Ok(db) => Ok(db),
        Err(_) => Err(()),
    }
}

/// Relies on sled::Tree::get: the bytes stored under the key, if any.
#[verifier::external_body]
fn sled_get(db: &sled::Db, key: &str) -> (r: Result<Option<Vec<u8>>, ()>)
    ensures
        (match r {
            Ok(Some(v)) => db_view(*db).contains_key(key@) && db_view(*db)[key@] == v@,
            Ok(None) => !db_view(*db).contains_key(key@),
            Err(_) => true,
        }),
{
    match db.get(key.as_bytes()) {
        Ok(Some(iv)) => Ok(Some(iv.as_ref().to_vec())),
        Ok(None) => Ok(None),
        Err(_) => Err(()),
    }
}

/// Relies on sled::Tree::insert: stores the bytes under the key and
/// returns the bytes they replace, if any.
#[verifier::external_body]
fn sled_insert(db: &mut sled::Db, key: String, value: Vec<u8>) -> (r: Result<Option<Vec<u8>>, ()>)
    ensures
        (match r {
            Ok(prev) => {
                &&& db_view(*final(db)) == db_view(*old(db)).insert(key@, value@)
                &&& (match prev {
                    Some(p) => db_view(*old(db)).contains_key(key@) && db_view(*old(db))[key@]
                        == p@,
                    None => !db_view(*old(db)).contains_key(key@),
                })
            },
            Err(_) => true,
        }),
{
    match db.insert(key.as_bytes(), value) {
        Ok(Some(iv)) => Ok(Some(iv.as_ref().to_vec())),
        Ok(None) => Ok(None),
        Err(_) => Err(()),
    }
}

/// Relies on sled::Tree::remove: removes the entry and returns the bytes
/// it held, if any.
#[verifier::external_body]
fn sled_remove(db: &mut sled::Db, key: &str) -> (r: Result<Option<Vec<u8>>, ()>)
    ensures
        (match r {
            Ok(prev) => {
                &&& db_view(*final(db)) == db_view(*old(db)).remove(key@)
                &&& (match prev {
                    Some(p) => db_view(*old(db)).contains_key(key@) && db_view(*old(db))[key@]
                        == p@,
                    None => !db_view(*old(db)).contains_key(key@),
                })
            },
            Err(_) => true,
        }),
{
    match db.remove(key.as_bytes()) {
        Ok(Some(iv)) => Ok(Some(iv.as_ref().to_vec())),
        Ok(None) => Ok(None),
        Err(_) => Err(()),
    }
}

/// Relies on sled::Tree::scan_prefix: every entry whose key starts with
/// the prefix, each key once. UTF-8 encoding preserves prefixes both
/// ways, so the byte scan returns exactly the text keys with this text
/// prefix; a stored key that is not text is reported as an error.
#[verifier::external_body]
fn sled_scan_prefix(db: &sled::Db, prefix: &str) -> (r: Result<Vec<(String, Vec<u8>)>, ()>)
    ensures
        (match r {
            Ok(entries) => {
                &&& forall|i: int|
                    0 <= i < entries@.len() ==> {
                        &&& is_text_prefix(prefix@, (#[trigger] entries@[i]).0@)
                        &&& db_view(*db).contains_key(entries@[i].0@)
                        &&& db_view(*db)[entries@[i].0@] == entries@[i].1@
                    }
                &&& forall|i: int, j: int|
                    0 <= i < j < entries@.len() ==> (#[trigger] entries@[i]).0@ != (
                    #[trigger] entries@[j]).0@
                &&& forall|k: Seq<char>|
                    db_view(*db).contains_key(k) && is_text_prefix(prefix@, k)
                        ==> exists|i: int| 0 <= i < entries@.len() && (#[trigger] entries@[i]).0@
                        == k
            },
            Err(_) => true,
        }),
{
    let mut out: Vec<(String, Vec<u8>)> = Vec::new();
    for item in db.scan_prefix(prefix.as_bytes()) {
        let (k, v) = match item {
            Ok(kv) => kv,
            Err(_) => return Err(()),
        };
        match core::str::from_utf8(k.as_ref()) {
            Ok(ks) => out.push((ks.to_owned(), v.as_ref().to_vec())),
            Err(_) => return Err(()),
        }
    }
    Ok(out)
}

/// Some value is stored as these bytes.
pub open spec fn decodes(b: Seq<u8>) -> bool {
    exists|v: ValueV| b == enc_value(v)
}

/// The value stored as these bytes.
pub open spec fn dec_of(b: Seq<u8>) -> ValueV {
    choose|v: ValueV| b == enc_value(v)
}

/// The bytes of a value decode to it.
pub proof fn lemma_dec_of_enc(v: ValueV)
    ensures
        decodes(enc_value(v)),
        dec_of(enc_value(v)) == v,
{
    assert(decodes(enc_value(v))) by {
        assert(enc_value(v) == enc_value(v));
    }
    lemma_enc_value_injective(dec_of(enc_value(v)), v);
}

/// Table `t` holds key `k` in the keyspace `m`: the composed key is
/// stored and its bytes decode.
pub open spec fn entry_live(m: Map<Seq<char>, Seq<u8>>, t: Seq<char>, k: Seq<char>) -> bool {
    m.contains_key(full_key_spec(t, k)) && decodes(m[full_key_spec(t, k)])
}

/// The table named `t` that the keyspace `m` holds.
pub open spec fn sled_table_v(m: Map<Seq<char>, Seq<u8>>, t: Seq<char>) -> TableV {
    Map::new(|k: Seq<char>| entry_live(m, t, k), |k: Seq<char>| dec_of(m[full_key_spec(t, k)]))
}

/// All tables the keyspace `m` holds: the separator-free names with at
/// least one live entry.
pub open spec fn sled_tables_v(m: Map<Seq<char>, Seq<u8>>) -> StoreV {
    Map::new(
        |t: Seq<char>| no_colon(t) && (exists|k: Seq<char>| entry_live(m, t, k)),
        |t: Seq<char>| sled_table_v(m, t),
    )
}

/// Reading a table out of the keyspace model: a separator-free name
/// reads as its table, with or without live entries.
pub proof fn lemma_table_of_sled(m: Map<Seq<char>, Seq<u8>>, t: Seq<char>)
    requires
        no_colon(t),
    ensures
        table_of(sled_tables_v(m), t) == sled_table_v(m, t),
{
    if sled_tables_v(m).contains_key(t) {
    } else {
        assert(sled_table_v(m, t) =~= Map::<Seq<char>, ValueV>::empty());
        assert(table_of(sled_tables_v(m), t) =~= sled_table_v(m, t));
    }
}

/// A name holding the separator reads as the empty table.
pub proof fn lemma_table_of_sled_colon(m: Map<Seq<char>, Seq<u8>>, t: Seq<char>)
    requires
        !no_colon(t),
    ensures
        table_of(sled_tables_v(m), t) == Map::<Seq<char>, ValueV>::empty(),
{
    assert(!sled_tables_v(m).contains_key(t));
}

/// The durable backend: a handle on one sled keyspace.
pub struct SledDb(sled::Db);

impl SledDb {
    /// Open or create the keyspace at `path`.
    pub fn new(path: &str) -> (r: Result<SledDb, KvError>)
        ensures
            r is Ok ==> r->Ok_0.wf(),
    {
        match sled_open(path) {
            Ok(db) => Ok(SledDb(db)),
            Err(_) => Err(KvError::SledError),
        }
    }
}

impl Storage for SledDb {
    closed spec fn wf(&self) -> bool {
        true
    }

    closed spec fn tables(&self) -> StoreV {
        sled_tables_v(db_view(self.0))
    }

    open spec fn may_fail(&self) -> bool {
        true
    }

    fn get(&self, table: &str, key: &str) -> (r: Result<Option<Value>, KvError>) {
        if has_colon(table) {
            proof {
                lemma_table_of_sled_colon(db_view(self.0), table@);
            }
            return Ok(None);
        }
        let fk = full_key(table, key);
        proof {
            lemma_table_of_sled(db_view(self.0), table@);
        }
        match sled_get(&self.0, fk.as_str()) {
            Ok(Some(bytes)) => {
                match decode_value(&bytes) {
                    Ok(v) => {
                        proof {
                            lemma_dec_of_enc(v@);
                            assert(entry_live(db_view(self.0), table@, key@));
                            assert(sled_table_v(db_view(self.0), table@)[key@] == v@);
                        }
                        Ok(Some(v))
                    },
                    Err(e) => Err(e),
                }
            },
            Ok(None) => {
                proof {
                    assert(!entry_live(db_view(self.0), table@, key@));
                }
                Ok(None)
            },
            Err(_) => Err(KvError::SledError),
        }
    }

    fn set(&mut self, table: &str, key: String, value: Value) -> (r: Result<
        Option<Value>,
        KvError,
    >) {
        if has_colon(table) {
            return Err(KvError::Internal("table name holds the key separator".to_owned()));
        }
        let ghost m0 = db_view(self.0);
        let ghost tv = table@;
        let ghost kv = key@;
        let ghost vv = value@;
        let fk = full_key(table, key.as_str());
        let bytes = encode_value(&value);
        match sled_insert(&mut self.0, fk, bytes) {
            Ok(prev) => {
                let ghost m1 = db_view(self.0);
                proof {
                    lemma_dec_of_enc(vv);
                    lemma_sled_set(m0, tv, kv, vv);
                    lemma_table_of_sled(m0, tv);
                }
                match prev {
                    Some(pb) => {
                        match decode_value(&pb) {
                            Ok(pv) => {
                                proof {
                                    lemma_dec_of_enc(pv@);
                                    assert(entry_live(m0, tv, kv));
                                    assert(sled_table_v(m0, tv)[kv] == pv@);
                                }
                                Ok(Some(pv))
                            },
                            Err(e) => Err(e),
                        }
                    },
                    None => {
                        proof {
                            assert(!entry_live(m0, tv, kv));
                        }
                        Ok(None)
                    },
                }
            },
            Err(_) => Err(KvError::SledError),
        }
    }

    fn contains(&self, table: &str, key: &str) -> (r: Result<bool, KvError>) {
        match self.get(table, key) {
            Ok(o) => Ok(o.is_some()),
            Err(e) => Err(e),
        }
    }

    fn del(&mut self, table: &str, key: &str) -> (r: Result<Option<Value>, KvError>) {
        if has_colon(table) {
            proof {
                lemma_table_of_sled_colon(db_view(self.0), table@);
                assert(!sled_tables_v(db_view(self.0)).contains_key(table@));
                assert(tables_equiv(
                    sled_tables_v(db_view(self.0)),
                    store_del(sled_tables_v(db_view(self.0)), table@, key@),
                ));
            }
            return Ok(None);
        }
        let ghost m0 = db_view(self.0);
        let ghost tv = table@;
        let ghost kv = key@;
        let fk = full_key(table, key);
        match sled_remove(&mut self.0, fk.as_str()) {
            Ok(prev) => {
                proof {
                    lemma_sled_del(m0, tv, kv);
                    lemma_table_of_sled(m0, tv);
                }
                match prev {
                    Some(pb) => {
                        match decode_value(&pb) {
                            Ok(pv) => {
                                proof {
                                    lemma_dec_of_enc(pv@);
                                    assert(entry_live(m0, tv, kv));
                                    assert(sled_table_v(m0, tv)[kv] == pv@);
                                }
                                Ok(Some(pv))
                            },
                            Err(e) => Err(e),
                        }
                    },
                    None => {
                        proof {
                            assert(!entry_live(m0, tv, kv));
                        }
                        Ok(None)
                    },
                }
            },
            Err(_) => Err(KvError::SledError),
        }
    }

    fn get_all(&self, table: &str) -> (r: Result<Vec<Kvpair>, KvError>) {
        if has_colon(table) {
            proof {
                lemma_table_of_sled_colon(db_view(self.0), table@);
                assert(pairs_view(Seq::<Kvpair>::empty()) =~= Seq::<KvpairV>::empty());
            }
            return Ok(Vec::new());
        }
        let ghost m = db_view(self.0);
        let ghost tv = table@;
        proof {
            lemma_table_of_sled(m, tv);
        }
        let prefix = table_prefix(table);
        let plen = prefix.as_str().unicode_len();
        let entries = match sled_scan_prefix(&self.0, prefix.as_str()) {
            Ok(entries) => entries,
            Err(_) => {
                return Err(KvError::SledError);
            },
        };
        let ghost es = entries@;
        let mut tbl: Vec<(String, Value)> = Vec::new();
        let mut i: usize = 0;
        while i < entries.len()
            invariant
                i <= es.len(),
                entries@ == es,
                plen == prefix_spec(tv).len(),
                no_colon(tv),
                entries_sorted(tbl@),
                forall|j: int|
                    0 <= j < es.len() ==> {
                        &&& is_text_prefix(prefix_spec(tv), (#[trigger] es[j]).0@)
                        &&& m.contains_key(es[j].0@)
                        &&& m[es[j].0@] == es[j].1@
                    },
                forall|k: Seq<char>|
                    #[trigger] table_entries_model(tbl@).contains_key(k) ==> entry_live(m, tv, k)
                        && table_entries_model(tbl@)[k] == dec_of(m[full_key_spec(tv, k)]),
                forall|j: int|
                    0 <= j < i ==> table_entries_model(tbl@).contains_key(
                        (#[trigger] es[j]).0@.subrange(plen as int, es[j].0@.len() as int),
                    ),
            decreases es.len() - i,
        {
            let flen = entries[i].0.as_str().unicode_len();
            let suffix = entries[i].0.as_str().substring_char(plen, flen);
            let v = match decode_value(&entries[i].1) {
                Ok(v) => v,
                Err(e) => {
                    return Err(e);
                },
            };
            proof {
                lemma_dec_of_enc(v@);
                assert(es[i as int].0@ =~= full_key_spec(tv, suffix@));
                assert(entry_live(m, tv, suffix@));
                assert(dec_of(m[full_key_spec(tv, suffix@)]) == v@);
            }
            let ghost tbl0 = tbl@;
            let _ = crate::memory::table_set(&mut tbl, suffix.to_owned(), v);
            proof {
                assert forall|k: Seq<char>| #[trigger] table_entries_model(tbl@).contains_key(k)
                    implies entry_live(m, tv, k) && table_entries_model(tbl@)[k] == dec_of(
                    m[full_key_spec(tv, k)],
                ) by {
                    if k != suffix@ {
                        assert(table_entries_model(tbl0).contains_key(k));
                    }
                }
            }
            i = i + 1;
        }
        let out = entries_to_pairs(&tbl);
        proof {
            let tm = table_entries_model(tbl@);
            let st = sled_table_v(m, tv);
            assert forall|k: Seq<char>| st.contains_key(k) implies tm.contains_key(k) by {
                lemma_full_key_has_prefix(tv, k);
                let j = choose|j: int| 0 <= j < es.len() && (#[trigger] es[j]).0@ == full_key_spec(
                    tv,
                    k,
                );
                assert(es[j].0@.subrange(plen as int, es[j].0@.len() as int) == k);
            }
            assert(tm =~= st);
        }
        Ok(out)
    }

    fn get_iter(&self, table: &str) -> (r: Result<StorageIter<Vec<Kvpair>>, KvError>) {
        match self.get_all(table) {
            Ok(v) => Ok(StorageIter::new(v)),
            Err(e) => Err(e),
        }
    }
}

/// Inserting one entry's bytes updates exactly its table at its key.
proof fn lemma_sled_set(m: Map<Seq<char>, Seq<u8>>, t: Seq<char>, k: Seq<char>, v: ValueV)
    requires
        no_colon(t),
    ensures
        tables_equiv(
            sled_tables_v(m.insert(full_key_spec(t, k), enc_value(v))),
            store_set(sled_tables_v(m), t, k, v),
        ),
{
    let m1 = m.insert(full_key_spec(t, k), enc_value(v));
    lemma_dec_of_enc(v);
    assert forall|t2: Seq<char>| #[trigger] table_of(sled_tables_v(m1), t2) == table_of(
        store_set(sled_tables_v(m), t, k, v),
        t2,
    ) by {
        if no_colon(t2) {
            lemma_table_of_sled(m1, t2);
            lemma_table_of_sled(m, t2);
            if t2 == t {
                assert forall|k2: Seq<char>|
                    #![trigger sled_table_v(m1, t)[k2]]
                    #![trigger sled_table_v(m1, t).contains_key(k2)]
                    true implies {
                    &&& sled_table_v(m1, t).contains_key(k2) == sled_table_v(m, t).insert(
                        k,
                        v,
                    ).contains_key(k2)
                    &&& (sled_table_v(m1, t).contains_key(k2) ==> sled_table_v(m1, t)[k2]
                        == sled_table_v(m, t).insert(k, v)[k2])
                } by {
                    if k2 != k {
                        lemma_full_key_injective_ne(t, k2, t, k);
                    }
                }
                assert(sled_table_v(m1, t) =~= sled_table_v(m, t).insert(k, v));
                assert(table_of(store_set(sled_tables_v(m), t, k, v), t) == table_of(
                    sled_tables_v(m),
                    t,
                ).insert(k, v));
            } else {
                assert forall|k2: Seq<char>|
                    #![trigger sled_table_v(m1, t2)[k2]]
                    #![trigger sled_table_v(m1, t2).contains_key(k2)]
                    true implies {
                    &&& sled_table_v(m1, t2).contains_key(k2) == sled_table_v(m, t2).contains_key(
                        k2,
                    )
                    &&& (sled_table_v(m1, t2).contains_key(k2) ==> sled_table_v(m1, t2)[k2]
                        == sled_table_v(m, t2)[k2])
                } by {
                    lemma_full_key_injective_ne(t2, k2, t, k);
                }
                assert(sled_table_v(m1, t2) =~= sled_table_v(m, t2));
            }
        } else {
            lemma_table_of_sled_colon(m1, t2);
            lemma_table_of_sled_colon(m, t2);
        }
    }
}

/// Removing one entry's bytes updates exactly its table at its key.
proof fn lemma_sled_del(m: Map<Seq<char>, Seq<u8>>, t: Seq<char>, k: Seq<char>)
    requires
        no_colon(t),
    ensures
        tables_equiv(
            sled_tables_v(m.remove(full_key_spec(t, k))),
            store_del(sled_tables_v(m), t, k),
        ),
{
    let m1 = m.remove(full_key_spec(t, k));
    assert forall|t2: Seq<char>| #[trigger] table_of(sled_tables_v(m1), t2) == table_of(
        store_del(sled_tables_v(m), t, k),
        t2,
    ) by {
        if no_colon(t2) {
            lemma_table_of_sled(m1, t2);
            lemma_table_of_sled(m, t2);
            if t2 == t {
                assert forall|k2: Seq<char>|
                    #![trigger sled_table_v(m1, t)[k2]]
                    #![trigger sled_table_v(m1, t).contains_key(k2)]
                    true implies {
                    &&& sled_table_v(m1, t).contains_key(k2) == sled_table_v(m, t).remove(
                        k,
                    ).contains_key(k2)
                    &&& (sled_table_v(m1, t).contains_key(k2) ==> sled_table_v(m1, t)[k2]
                        == sled_table_v(m, t).remove(k)[k2])
                } by {
                    if k2 != k {
                        lemma_full_key_injective_ne(t, k2, t, k);
                    }
                }
                assert(sled_table_v(m1, t) =~= sled_table_v(m, t).remove(k));
                if sled_tables_v(m).contains_key(t) {
                    assert(table_of(store_del(sled_tables_v(m), t, k), t) == table_of(
                        sled_tables_v(m),
                        t,
                    ).remove(k));
                } else {
                    assert(sled_table_v(m, t) =~= Map::<Seq<char>, ValueV>::empty());
                    assert(sled_table_v(m, t).remove(k) =~= sled_table_v(m, t));
                }
            } else {
                assert forall|k2: Seq<char>|
                    #![trigger sled_table_v(m1, t2)[k2]]
                    #![trigger sled_table_v(m1, t2).contains_key(k2)]
                    true implies {
                    &&& sled_table_v(m1, t2).contains_key(k2) == sled_table_v(m, t2).contains_key(
                        k2,
                    )
                    &&& (sled_table_v(m1, t2).contains_key(k2) ==> sled_table_v(m1, t2)[k2]
                        == sled_table_v(m, t2)[k2])
                } by {
                    lemma_full_key_injective_ne(t2, k2, t, k);
                }
                assert(sled_table_v(m1, t2) =~= sled_table_v(m, t2));
            }
        } else {
            lemma_table_of_sled_colon(m1, t2);
            lemma_table_of_sled_colon(m, t2);
        }
    }
}

/// Distinct (table, key) pairs compose distinct stored keys.
proof fn lemma_full_key_injective_ne(t1: Seq<char>, k1: Seq<char>, t2: Seq<char>, k2: Seq<char>)
    requires
        no_colon(t1),
        no_colon(t2),
        t1 != t2 || k1 != k2,
    ensures
        full_key_spec(t1, k1) != full_key_spec(t2, k2),
{
    if full_key_spec(t1, k1) == full_key_spec(t2, k2) {
        lemma_full_key_injective(t1, k1, t2, k2);
    }
}

} // verus!
