//! Per-variant command execution: each request variant maps to exactly
//! one storage call and one response-shaping rule.

use vstd::prelude::*;
use crate::pb::{
    Value, ValueV, KvpairV, Hget, Hgetall, Hset, CommandResponse, CommandResponseV,
    resp_ok_value, resp_ok_pairs, resp_error, opt_pair_view,
};
use crate::error::{KvError, KvErrorV};
use crate::storage::{
    Storage, StoreV, store_get, store_set, table_of, is_backend_error, sorted_by_key,
    pairs_match_table, tables_equiv,
};

verus! {

/// A response reporting a backend failure: the status and message of some
/// backend error, with empty payloads.
pub open spec fn backend_error_resp(r: CommandResponseV) -> bool {
    exists|e: KvErrorV| is_backend_error(e) && resp_error(r, e)
}

/// What answering a fetch of key `k` in table `t` must look like: the
/// wrapped value if the key is there, a not-found error if not; a backend
/// that can fail may instead report its failure.
pub open spec fn hget_post(
    m: StoreV,
    may_fail: bool,
    t: Seq<char>,
    k: Seq<char>,
    r: CommandResponseV,
) -> bool {
    match store_get(m, t, k) {
        Some(v) => resp_ok_value(r, v) || (may_fail && backend_error_resp(r)),
        None => resp_error(r, KvErrorV::NotFound(t, k)) || (may_fail && backend_error_resp(r)),
    }
}

/// What answering a scan of table `t` must look like: all its pairs,
/// sorted by key, with success status — or a reported backend failure.
pub open spec fn hgetall_post(m: StoreV, may_fail: bool, t: Seq<char>, r: CommandResponseV) -> bool {
    ||| {
        &&& resp_ok_pairs(r, r.pairs)
        &&& sorted_by_key(r.pairs)
        &&& pairs_match_table(r.pairs, table_of(m, t))
    }
    ||| (may_fail && backend_error_resp(r))
}

/// The payload a write answers with: the previous value under the key,
/// defaulted to the empty value on a fresh key, so callers can tell
/// inserts from overwrites.
pub open spec fn prev_or_default(m: StoreV, t: Seq<char>, k: Seq<char>) -> ValueV {
    match store_get(m, t, k) {
        Some(v) => v,
        None => ValueV::Nil,
    }
}

/// What answering a write must look like: without a pair the command is
/// invalid and nothing changes; with one, the store is updated and the
/// previous value is returned — or a backend failure is reported.
pub open spec fn hset_post(
    m: StoreV,
    may_fail: bool,
    t: Seq<char>,
    pair: Option<KvpairV>,
    r: CommandResponseV,
    m2: StoreV,
) -> bool {
    match pair {
        None => resp_error(r, KvErrorV::InvalidCommand("Hset command carries no pair"@)) && m2
            == m,
        Some(p) => {
            ||| {
                &&& tables_equiv(m2, store_set(m, t, p.key, p.value))
                &&& resp_ok_value(r, prev_or_default(m, t, p.key))
            }
            ||| (may_fail && backend_error_resp(r))
        },
    }
}

/// Turning one command into a response against a storage backend.
pub trait CommandService: Sized {
    /// What the command's response, and the store it leaves behind,
    /// must satisfy.
    spec fn post(&self, m: StoreV, may_fail: bool, r: CommandResponseV, m2: StoreV) -> bool;

    /// Run the command against `store` and shape its response.
    fn execute<S: Storage>(self, store: &mut S) -> (res: CommandResponse)
        requires
            old(store).wf(),
        ensures
            final(store).wf(),
            final(store).may_fail() == old(store).may_fail(),
            self.post(old(store).tables(), old(store).may_fail(), res@, final(store).tables()),
    ;
}

impl CommandService for Hget {
    open spec fn post(&self, m: StoreV, may_fail: bool, r: CommandResponseV, m2: StoreV) -> bool {
        hget_post(m, may_fail, self.table@, self.key@, r) && m2 == m
    }

    fn execute<S: Storage>(self, store: &mut S) -> (res: CommandResponse) {
        match store.get(self.table.as_str(), self.key.as_str()) {
            Ok(Some(v)) => CommandResponse::ok_value(v),
            Ok(None) => CommandResponse::from_error(KvError::NotFound(self.table, self.key)),
            Err(e) => {
                let ghost ev = e@;
                let r = CommandResponse::from_error(e);
                proof {
                    assert(is_backend_error(ev) && resp_error(r@, ev));
                }
                r
            },
        }
    }
}

impl CommandService for Hgetall {
    open spec fn post(&self, m: StoreV, may_fail: bool, r: CommandResponseV, m2: StoreV) -> bool {
        hgetall_post(m, may_fail, self.table@, r) && m2 == m
    }

    fn execute<S: Storage>(self, store: &mut S) -> (res: CommandResponse) {
        match store.get_all(self.table.as_str()) {
            Ok(v) => CommandResponse::ok_pairs(v),
            Err(e) => {
                let ghost ev = e@;
                let r = CommandResponse::from_error(e);
                proof {
                    assert(is_backend_error(ev) && resp_error(r@, ev));
                }
                r
            },
        }
    }
}

impl CommandService for Hset {
    open spec fn post(&self, m: StoreV, may_fail: bool, r: CommandResponseV, m2: StoreV) -> bool {
        hset_post(m, may_fail, self.table@, opt_pair_view(self.pair), r, m2)
    }

    fn execute<S: Storage>(self, store: &mut S) -> (res: CommandResponse) {
        match self.pair {
            Some(p) => {
                match store.set(self.table.as_str(), p.key, p.value) {
                    Ok(Some(v)) => CommandResponse::ok_value(v),
                    Ok(None) => CommandResponse::ok_value(Value::default()),
                    Err(e) => {
                        let ghost ev = e@;
                        let r = CommandResponse::from_error(e);
                        proof {
                            assert(is_backend_error(ev) && resp_error(r@, ev));
                        }
                        r
                    },
                }
            },
            None => CommandResponse::from_error(
                KvError::InvalidCommand("Hset command carries no pair".to_owned()),
            ),
        }
    }
}

} // verus!
