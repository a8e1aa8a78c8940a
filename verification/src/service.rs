//! The service front end: dispatching a request to the matching storage
//! operation, and the hook pipeline run around every dispatch.

use vstd::prelude::*;
use vstd::string::StrSliceExecFns;
use crate::pb::{
    Value, ValueV, Kvpair, KvpairV, CommandRequest, CommandResponse, CommandResponseV,
    RequestData, RequestDataV, resp_error, value_eq, kvpair_eq,
};
use crate::error::{KvError, KvErrorV, str_contains, contains_str};
use crate::storage::{Storage, StoreV};
use crate::command_service::{CommandService, hget_post, hgetall_post, hset_post};

verus! {

/// What dispatching one request does: a request without data is answered
/// with an invalid-command error and changes nothing; otherwise the active
/// variant's own rule applies.
pub open spec fn dispatch_post(
    c: Option<RequestDataV>,
    m: StoreV,
    may_fail: bool,
    r: CommandResponseV,
    m2: StoreV,
) -> bool {
    match c {
        None => resp_error(r, KvErrorV::InvalidCommand("Request has no data"@)) && m2 == m,
        Some(RequestDataV::Hget(t, k)) => hget_post(m, may_fail, t, k, r) && m2 == m,
        Some(RequestDataV::Hgetall(t)) => hgetall_post(m, may_fail, t, r) && m2 == m,
        Some(RequestDataV::Hset(t, p)) => hset_post(m, may_fail, t, p, r, m2),
    }
}

/// Turn one request into a response against `store`.
pub fn dispatch<S: Storage>(cmd: CommandRequest, store: &mut S) -> (res: CommandResponse)
    requires
        old(store).wf(),
    ensures
        final(store).wf(),
        final(store).may_fail() == old(store).may_fail(),
        dispatch_post(cmd@, old(store).tables(), old(store).may_fail(), res@, final(store).tables()),
{
    match cmd.request_data {
        Some(RequestData::Hget(param)) => param.execute(store),
        Some(RequestData::Hgetall(param)) => param.execute(store),
        Some(RequestData::Hset(param)) => param.execute(store),
        None => CommandResponse::from_error(
            KvError::InvalidCommand("Request has no data".to_owned()),
        ),
    }
}

/// A hook registered with a service. One hook value takes part in each
/// stage of the pipeline; a stage it does not care about is a no-op.
/// Only the before-send stage may change anything, and what it does to a
/// response is pinned by `mutation`.
pub trait Hooks: Sized {
    /// What the before-send stage of this hook does to a response.
    spec fn mutation(&self, r: CommandResponseV) -> CommandResponseV;

    /// Observe a request before it is dispatched.
    fn on_received(&self, cmd: &CommandRequest);

    /// Observe a response after dispatch.
    fn on_executed(&self, res: &CommandResponse);

    /// Rewrite the response before it is sent.
    fn on_before_send(&self, res: CommandResponse) -> (out: CommandResponse)
        ensures
            out@ == self.mutation(res@),
    ;

    /// Run after the response counts as sent.
    fn on_after_send(&self);
}

/// A before-send policy that overrides the status code of every response,
/// and observes the other stages without effect.
pub struct StatusSetter {
    pub status: u32,
}

impl Hooks for StatusSetter {
    open spec fn mutation(&self, r: CommandResponseV) -> CommandResponseV {
        CommandResponseV { status: self.status, ..r }
    }

    fn on_received(&self, cmd: &CommandRequest) {
    }

    fn on_executed(&self, res: &CommandResponse) {
    }

    fn on_before_send(&self, res: CommandResponse) -> (out: CommandResponse) {
        let mut out = res;
        out.status = self.status;
        out
    }

    fn on_after_send(&self) {
    }
}

/// The before-send hooks applied to `r` in registration order, each
/// seeing the previous hook's output.
pub open spec fn apply_mutations<H: Hooks>(hooks: Seq<H>, r: CommandResponseV) -> CommandResponseV
    decreases hooks.len(),
{
    if hooks.len() == 0 {
        r
    } else {
        apply_mutations(hooks.skip(1), hooks[0].mutation(r))
    }
}

/// Hooks land in registration order: registering one more hook applies
/// its mutation last, to the output of the pipeline before it.
pub proof fn lemma_apply_mutations_push<H: Hooks>(hooks: Seq<H>, h: H, r: CommandResponseV)
    ensures
        apply_mutations(hooks.push(h), r) == h.mutation(apply_mutations(hooks, r)),
    decreases hooks.len(),
{
    if hooks.len() == 0 {
        assert(hooks.push(h)[0] == h);
        assert(hooks.push(h).skip(1) =~= Seq::<H>::empty());
        assert(apply_mutations(hooks.push(h), r) == apply_mutations(
            Seq::<H>::empty(),
            h.mutation(r),
        ));
        assert(apply_mutations(Seq::<H>::empty(), h.mutation(r)) == h.mutation(r));
        assert(apply_mutations(hooks, r) == r);
    } else {
        assert(hooks.push(h)[0] == hooks[0]);
        assert(hooks.push(h).skip(1) =~= hooks.skip(1).push(h));
        lemma_apply_mutations_push(hooks.skip(1), h, hooks[0].mutation(r));
        assert(apply_mutations(hooks.push(h), r) == apply_mutations(
            hooks.skip(1).push(h),
            hooks[0].mutation(r),
        ));
        assert(apply_mutations(hooks, r) == apply_mutations(hooks.skip(1), hooks[0].mutation(r)));
    }
}

/// Status overrides land in registration order: a pipeline of status
/// setters leaves the status of the last one registered.
pub proof fn lemma_status_override_applies(hooks: Seq<StatusSetter>, r: CommandResponseV)
    requires
        hooks.len() > 0,
    ensures
        apply_mutations(hooks, r).status == hooks.last().status,
    decreases hooks.len(),
{
    if hooks.len() == 1 {
        assert(hooks.skip(1) =~= Seq::<StatusSetter>::empty());
        assert(apply_mutations(hooks.skip(1), hooks[0].mutation(r)) == hooks[0].mutation(r));
    } else {
        lemma_status_override_applies(hooks.skip(1), hooks[0].mutation(r));
        assert(hooks.skip(1).last() == hooks.last());
    }
}

/// The shared front end: one storage backend and the hook pipeline,
/// registered once at construction and immutable afterwards.
pub struct Service<Store: Storage, H: Hooks> {
    store: Store,
    on_received: Vec<H>,
    on_executed: Vec<H>,
    on_before_send: Vec<H>,
    on_after_send: Vec<H>,
}

impl<Store: Storage, H: Hooks> Service<Store, H> {
    /// The service is usable: its store is.
    pub closed spec fn wf(&self) -> bool {
        self.store.wf()
    }

    /// The tables of the owned store.
    pub closed spec fn tables(&self) -> StoreV {
        self.store.tables()
    }

    /// Whether the owned store may fail.
    pub closed spec fn may_fail(&self) -> bool {
        self.store.may_fail()
    }

    /// The registered before-send hooks, in registration order.
    pub closed spec fn before_send_hooks(&self) -> Seq<H> {
        self.on_before_send@
    }

    /// A service around `store` with no hooks registered.
    pub fn new(store: Store) -> (r: Self)
        requires
            store.wf(),
        ensures
            r.wf(),
            r.tables() == store.tables(),
            r.may_fail() == store.may_fail(),
            r.before_send_hooks() == Seq::<H>::empty(),
    {
        let r = Service {
            store,
            on_received: Vec::new(),
            on_executed: Vec::new(),
            on_before_send: Vec::new(),
            on_after_send: Vec::new(),
        };
        proof {
            assert(r.on_before_send@ =~= Seq::<H>::empty());
        }
        r
    }

    /// Register a hook that observes every received request.
    pub fn fn_received(self, h: H) -> (r: Self)
        requires
            self.wf(),
        ensures
            r.wf(),
            r.tables() == self.tables(),
            r.may_fail() == self.may_fail(),
            r.before_send_hooks() == self.before_send_hooks(),
    {
        let mut s = self;
        s.on_received.push(h);
        s
    }

    /// Register a hook that observes every dispatched response.
    pub fn fn_executed(self, h: H) -> (r: Self)
        requires
            self.wf(),
        ensures
            r.wf(),
            r.tables() == self.tables(),
            r.may_fail() == self.may_fail(),
            r.before_send_hooks() == self.before_send_hooks(),
    {
        let mut s = self;
        s.on_executed.push(h);
        s
    }

    /// Register a hook that rewrites every response before it is sent;
    /// such hooks run in registration order, each seeing the previous
    /// one's output.
    pub fn fn_before_send(self, h: H) -> (r: Self)
        requires
            self.wf(),
        ensures
            r.wf(),
            r.tables() == self.tables(),
            r.may_fail() == self.may_fail(),
            r.before_send_hooks() == self.before_send_hooks().push(h),
    {
        let mut s = self;
        s.on_before_send.push(h);
        s
    }

    /// Register a hook that fires after every response is sent.
    pub fn fn_after_send(self, h: H) -> (r: Self)
        requires
            self.wf(),
        ensures
            r.wf(),
            r.tables() == self.tables(),
            r.may_fail() == self.may_fail(),
            r.before_send_hooks() == self.before_send_hooks(),
    {
        let mut s = self;
        s.on_after_send.push(h);
        s
    }

    /// Answer one request: run the received hooks, dispatch, run the
    /// executed hooks, let the before-send hooks shape the final response
    /// in registration order, and fire the after-send hooks.
    pub fn execute(&mut self, cmd: CommandRequest) -> (res: CommandResponse)
        requires
            old(self).wf(),
        ensures
            final(self).wf(),
            final(self).may_fail() == old(self).may_fail(),
            final(self).before_send_hooks() == old(self).before_send_hooks(),
            exists|d: CommandResponseV|
                dispatch_post(cmd@, old(self).tables(), old(self).may_fail(), d, final(self).tables())
                    && res@ == apply_mutations(old(self).before_send_hooks(), d),
    {
        let mut i: usize = 0;
        while i < self.on_received.len()
            invariant
                self == old(self),
            decreases self.on_received@.len() - i,
        {
            self.on_received[i].on_received(&cmd);
            i = i + 1;
        }
        let dispatched = dispatch(cmd, &mut self.store);
        let ghost d0 = dispatched@;
        let mut j: usize = 0;
        while j < self.on_executed.len()
            invariant
                self.on_executed@ == old(self).on_executed@,
            decreases self.on_executed@.len() - j,
        {
            self.on_executed[j].on_executed(&dispatched);
            j = j + 1;
        }
        let mut res = dispatched;
        let ghost hooks = self.on_before_send@;
        let mut k: usize = 0;
        while k < self.on_before_send.len()
            invariant
                self.on_before_send@ == hooks,
                k <= hooks.len(),
                res@ == apply_mutations(hooks.take(k as int), d0),
            decreases hooks.len() - k,
        {
            res = self.on_before_send[k].on_before_send(res);
            proof {
                lemma_apply_mutations_push(hooks.take(k as int), hooks[k as int], d0);
                assert(hooks.take(k as int).push(hooks[k as int]) =~= hooks.take(k as int + 1));
            }
            k = k + 1;
        }
        proof {
            assert(hooks.take(hooks.len() as int) =~= hooks);
        }
        let mut l: usize = 0;
        while l < self.on_after_send.len()
            invariant
                self.on_after_send@ == old(self).on_after_send@,
            decreases self.on_after_send@.len() - l,
        {
            self.on_after_send[l].on_after_send();
            l = l + 1;
        }
        proof {
            assert(res@ == apply_mutations(old(self).before_send_hooks(), d0));
            assert(dispatch_post(cmd@, old(self).tables(), old(self).may_fail(), d0, self.tables())
                && res@ == apply_mutations(old(self).before_send_hooks(), d0));
        }
        res
    }
}

/// Whether a response is the successful answer carrying exactly the
/// given values and the given pairs, in order.
pub fn assert_res_ok(res: &CommandResponse, values: &Vec<Value>, pairs: &Vec<Kvpair>) -> (r: bool)
    ensures
        r == (res@.status == 200u32 && res@.message == Seq::<char>::empty() && res@.values
            == values@.map_values(|v: Value| v@) && res@.pairs == pairs@.map_values(
            |p: Kvpair| p@,
        )),
{
    if res.status != 200 {
        return false;
    }
    if res.message.as_str().unicode_len() != 0 {
        proof {
            assert(res@.message != Seq::<char>::empty());
        }
        return false;
    }
    proof {
        assert(res@.message =~= Seq::<char>::empty());
    }
    if res.values.len() != values.len() {
        proof {
            assert(res@.values.len() == res.values@.len());
            assert(values@.map_values(|v: Value| v@).len() == values@.len());
        }
        return false;
    }
    let mut i: usize = 0;
    while i < res.values.len()
        invariant
            i <= res.values@.len(),
            res.values@.len() == values@.len(),
            forall|j: int| 0 <= j < i ==> (#[trigger] res.values@[j])@ == values@[j]@,
        decreases res.values@.len() - i,
    {
        if !value_eq(&res.values[i], &values[i]) {
            proof {
                assert(res@.values[i as int] != values@.map_values(|v: Value| v@)[i as int]);
            }
            return false;
        }
        i = i + 1;
    }
    proof {
        assert(res@.values =~= values@.map_values(|v: Value| v@));
    }
    if res.pairs.len() != pairs.len() {
        proof {
            assert(res@.pairs.len() == res.pairs@.len());
            assert(pairs@.map_values(|p: Kvpair| p@).len() == pairs@.len());
        }
        return false;
    }
    let mut j: usize = 0;
    while j < res.pairs.len()
        invariant
            j <= res.pairs@.len(),
            res.pairs@.len() == pairs@.len(),
            forall|l: int| 0 <= l < j ==> (#[trigger] res.pairs@[l])@ == pairs@[l]@,
        decreases res.pairs@.len() - j,
    {
        if !kvpair_eq(&res.pairs[j], &pairs[j]) {
            proof {
                assert(res@.pairs[j as int] != pairs@.map_values(|p: Kvpair| p@)[j as int]);
            }
            return false;
        }
        j = j + 1;
    }
    proof {
        assert(res@.pairs =~= pairs@.map_values(|p: Kvpair| p@));
    }
    true
}

/// Whether a response reports an error: the given status, a message that
/// holds the given text, and empty payloads.
pub fn assert_res_error(res: &CommandResponse, code: u32, msg: &str) -> (r: bool)
    ensures
        r == (res@.status == code && str_contains(res@.message, msg@) && res@.values
            == Seq::<ValueV>::empty() && res@.pairs == Seq::<KvpairV>::empty()),
{
    if res.status != code {
        return false;
    }
    if !contains_str(res.message.as_str(), msg) {
        return false;
    }
    if res.values.len() != 0 {
        proof {
            assert(res@.values.len() != 0);
        }
        return false;
    }
    if res.pairs.len() != 0 {
        proof {
            assert(res@.pairs.len() != 0);
        }
        return false;
    }
    proof {
        assert(res@.values =~= Seq::<ValueV>::empty());
        assert(res@.pairs =~= Seq::<KvpairV>::empty());
    }
    true
}

} // verus!
