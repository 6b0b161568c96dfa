use std::sync::Arc;
use vstd::prelude::*;
use vstd::rwlock::RwLock;
use vstd::string::StringExecFns;

use crate::command::CommandRequest;
use crate::command::CommandResponse;
use crate::command::Hget;
use crate::command::Hgetall;
use crate::command::Hset;
use crate::command::ReqDataView;
use crate::command::ReqView;
use crate::command::RequestData;
use crate::command::RespView;
use crate::error::KvError;
use crate::error::KvErrorView;
use crate::error::spec_error_message;
use crate::memory::MemTable;
use crate::memory::lemma_pairs_map_at;
use crate::memory::lemma_pairs_map_contains;
use crate::storage::Storage;
use crate::storage::StoreModel;
use crate::storage::pairs_keys_distinct;
use crate::storage::pairs_map;
use crate::storage::store_get;
use crate::storage::store_set;
use crate::storage::store_table;
use crate::value::Kvpair;
use crate::value::KvpairView;
use crate::value::Value;
use crate::value::ValueView;
use crate::value::str_eq;

verus! {

/// The status a response carries for each error.
pub open spec fn spec_error_status(e: KvErrorView) -> u32 {
    match e {
        KvErrorView::NotFound(t, k) => 404,
        KvErrorView::InvalidCommand(m) => 400,
        KvErrorView::Internal(m) => 500,
        KvErrorView::StorageError(op, t, k, c) => 500,
    }
}

/// The well-formed response an error resolves to: its status, its text, and
/// nothing else.
fn error_response(e: KvError) -> (r: CommandResponse)
    ensures
        r@.status == spec_error_status(e@),
        r@.message == spec_error_message(e@),
        r@.values == Seq::<ValueView>::empty(),
        r@.pairs == Seq::<KvpairView>::empty(),
{
    let status: u32 = match &e {
        KvError::NotFound(_, _) => 404,
        KvError::InvalidCommand(_) => 400,
        KvError::Internal(_) => 500,
        KvError::StorageError(_, _, _, _) => 500,
    };
    let r = CommandResponse {
        status,
        message: e.message(),
        values: Vec::new(),
        pairs: Vec::new(),
    };
    proof {
        assert(r.values.deep_view() =~= Seq::<ValueView>::empty());
        assert(r.pairs.deep_view() =~= Seq::<KvpairView>::empty());
    }
    r
}

/// What `Hget` answers when the lookup yields `ov`.
pub open spec fn spec_hget_resp(ov: Option<ValueView>) -> RespView {
    match ov {
        Some(v) => RespView {
            status: 200,
            message: Seq::<char>::empty(),
            values: seq![v],
            pairs: Seq::<KvpairView>::empty(),
        },
        None => RespView {
            status: 404,
            message: "Not found"@,
            values: Seq::<ValueView>::empty(),
            pairs: Seq::<KvpairView>::empty(),
        },
    }
}

/// What `Hset` answers when the slot previously held `prev`: always exactly
/// one value, the zero value standing in for an empty slot.
pub open spec fn spec_hset_resp(prev: Option<ValueView>) -> RespView {
    RespView {
        status: 200,
        message: Seq::<char>::empty(),
        values: seq![
            match prev {
                Some(v) => v,
                None => ValueView::Empty,
            },
        ],
        pairs: Seq::<KvpairView>::empty(),
    }
}

/// What `Hgetall` answers on table `t` of store `s`: a success response
/// whose pairs spell out exactly that table, in no promised order.
pub open spec fn spec_hgetall_matches(s: StoreModel, t: Seq<char>, r: RespView) -> bool {
    &&& r.status == 200
    &&& r.message == Seq::<char>::empty()
    &&& r.values == Seq::<ValueView>::empty()
    &&& pairs_keys_distinct(r.pairs)
    &&& pairs_map(r.pairs) == store_table(s, t)
}

/// The answer to a request that carried no operation.
pub open spec fn spec_invalid_resp() -> RespView {
    RespView {
        status: 400,
        message: "Request has no data"@,
        values: Seq::<ValueView>::empty(),
        pairs: Seq::<KvpairView>::empty(),
    }
}

/// The answer to a wire variant this build does not serve.
pub open spec fn spec_not_implemented_resp() -> RespView {
    RespView {
        status: 500,
        message: "Not implemented"@,
        values: Seq::<ValueView>::empty(),
        pairs: Seq::<KvpairView>::empty(),
    }
}

/// The shape of a backend-failure response: status 500, no data, and the
/// failing backend error's own description as the message.
pub open spec fn spec_storage_error_resp(r: RespView) -> bool {
    &&& r.status == 500
    &&& r.values == Seq::<ValueView>::empty()
    &&& r.pairs == Seq::<KvpairView>::empty()
    &&& exists|e: KvErrorView| e is StorageError && r.message == #[trigger] spec_error_message(e)
}

/// A backend error's description is never empty.
proof fn lemma_storage_error_message_nonempty(e: KvErrorView)
    requires
        e is StorageError,
    ensures
        spec_error_message(e).len() > 0,
{
    reveal_strlit("Cannot process command ");
    assert("Cannot process command "@.len() == 23);
}

/// The response dispatch owes for `req` against store `s`, when the backend
/// does not fail.
pub open spec fn dispatch_matches(req: ReqView, s: StoreModel, r: RespView) -> bool {
    match req.data {
        None => r == spec_invalid_resp(),
        Some(ReqDataView::Hget { table, key }) => r == spec_hget_resp(store_get(s, table, key)),
        Some(ReqDataView::Hgetall { table }) => spec_hgetall_matches(s, table, r),
        Some(ReqDataView::Hset { table, pair }) => r == spec_hset_resp(
            store_get(s, table, pair.key),
        ),
        Some(ReqDataView::Hdel { table, key }) => r == spec_not_implemented_resp(),
        Some(ReqDataView::Hexist { table, key }) => r == spec_not_implemented_resp(),
    }
}

/// The store dispatch leaves behind when the backend does not fail: only
/// `Hset` writes.
pub open spec fn spec_store_after(req: ReqView, s: StoreModel) -> StoreModel {
    match req.data {
        Some(ReqDataView::Hset { table, pair }) => store_set(s, table, pair.key, pair.value),
        _ => s,
    }
}

/// Every way a dispatch of `req` may end: the owed response with the owed
/// store, or a backend failure reported as a 500 response with the store
/// unchanged.
pub open spec fn dispatch_outcome(req: ReqView, s0: StoreModel, s1: StoreModel, r: RespView) -> bool {
    ||| (dispatch_matches(req, s0, r) && s1 == spec_store_after(req, s0))
    ||| (spec_storage_error_resp(r) && s1 == s0)
}

/// How one command is served against a storage engine.
pub trait CommandService {
    /// Serve the command; every failure resolves to a well-formed response.
    fn execute<S: Storage>(self, store: &mut S) -> (res: CommandResponse)
        requires
            old(store).inv(),
        ensures
            final(store).inv(),
            final(store).never_fails() == old(store).never_fails(),
    ;
}

impl CommandService for Hget {
    fn execute<S: Storage>(self, store: &mut S) -> (res: CommandResponse)
        ensures
            final(store).store() == old(store).store(),
            res@ == spec_hget_resp(store_get(old(store).store(), self.table@, self.key@))
                || spec_storage_error_resp(res@),
            old(store).never_fails() ==> res@ == spec_hget_resp(
                store_get(old(store).store(), self.table@, self.key@),
            ),
            res@.status == 200 <==> res@.message == Seq::<char>::empty(),
    {
        match store.get(self.table.as_str(), self.key.as_str()) {
            Ok(Some(v)) => {
                let mut values: Vec<Value> = Vec::new();
                values.push(v);
                proof {
                    assert(values.deep_view() =~= seq![
                        store_get(old(store).store(), self.table@, self.key@)->Some_0,
                    ]);
                }
                CommandResponse::ok_with_values(values)
            },
            Ok(None) => {
                let r = error_response(KvError::NotFound(self.table, self.key));
                proof {
                    reveal_strlit("Not found");
                    assert("Not found"@.len() == 9);
                    assert(r@.message.len() != 0);
                }
                r
            },
            Err(e) => {
                let ghost ev = e@;
                let r = error_response(e);
                proof {
                    lemma_storage_error_message_nonempty(ev);
                    assert(r@.message.len() != 0);
                    assert(spec_storage_error_resp(r@));
                }
                r
            },
        }
    }
}

impl CommandService for Hgetall {
    fn execute<S: Storage>(self, store: &mut S) -> (res: CommandResponse)
        ensures
            final(store).store() == old(store).store(),
            spec_hgetall_matches(old(store).store(), self.table@, res@) || spec_storage_error_resp(
                res@,
            ),
            old(store).never_fails() ==> spec_hgetall_matches(
                old(store).store(),
                self.table@,
                res@,
            ),
            res@.status == 200 <==> res@.message == Seq::<char>::empty(),
    {
        match store.get_all(self.table.as_str()) {
            Ok(pairs) => CommandResponse::ok_with_pairs(pairs),
            Err(e) => {
                let ghost ev = e@;
                let r = error_response(e);
                proof {
                    lemma_storage_error_message_nonempty(ev);
                    assert(r@.message.len() != 0);
                    assert(spec_storage_error_resp(r@));
                }
                r
            },
        }
    }
}

impl CommandService for Hset {
    fn execute<S: Storage>(self, store: &mut S) -> (res: CommandResponse)
        ensures
            (res@ == spec_hset_resp(store_get(old(store).store(), self.table@, self.pair@.key))
                && final(store).store() == spec_store_after(
                ReqView {
                    data: Some(ReqDataView::Hset { table: self.table@, pair: self.pair@ }),
                },
                old(store).store(),
            )) || (spec_storage_error_resp(res@) && final(store).store() == old(store).store()),
            old(store).never_fails() ==> res@ == spec_hset_resp(
                store_get(old(store).store(), self.table@, self.pair@.key),
            ) && final(store).store() == store_set(
                old(store).store(),
                self.table@,
                self.pair@.key,
                self.pair@.value,
            ),
            res@.status == 200 <==> res@.message == Seq::<char>::empty(),
    {
        let Kvpair { key, value } = self.pair;
        match store.set(self.table.as_str(), key, value) {
            Ok(prev) => {
                let mut values: Vec<Value> = Vec::new();
                match prev {
                    Some(v) => values.push(v),
                    None => values.push(Value::Empty),
                }
                proof {
                    assert(values.deep_view() =~= seq![
                        match store_get(old(store).store(), self.table@, self.pair@.key) {
                            Some(v) => v,
                            None => ValueView::Empty,
                        },
                    ]);
                }
                CommandResponse::ok_with_values(values)
            },
            Err(e) => {
                let ghost ev = e@;
                let r = error_response(e);
                proof {
                    lemma_storage_error_message_nonempty(ev);
                    assert(r@.message.len() != 0);
                    assert(spec_storage_error_resp(r@));
                }
                r
            },
        }
    }
}

/// Route one decoded request to the storage operation it denotes. Every
/// path, failures included, resolves to a well-formed response; when the
/// backend cannot fail, the response and the new store are pinned exactly.
pub fn dispatch(cmd: CommandRequest, store: &mut impl Storage) -> (res: CommandResponse)
    requires
        old(store).inv(),
    ensures
        final(store).inv(),
        final(store).never_fails() == old(store).never_fails(),
        dispatch_outcome(cmd@, old(store).store(), final(store).store(), res@),
        old(store).never_fails() ==> dispatch_matches(cmd@, old(store).store(), res@)
            && final(store).store() == spec_store_after(cmd@, old(store).store()),
        cmd@.data is None ==> res@ == spec_invalid_resp() && final(store).store() == old(
            store,
        ).store(),
        cmd@.data matches Some(d) ==> ((d is Hdel || d is Hexist) ==> res@
            == spec_not_implemented_resp() && final(store).store() == old(store).store()),
        res@.status == 200 <==> res@.message == Seq::<char>::empty(),
{
    match cmd.request_data {
        Some(RequestData::Hget(param)) => {
            let r = param.execute(store);
            proof {
                assert(r@.status == 200 <==> r@.message == Seq::<char>::empty());
            }
            r
        },
        Some(RequestData::Hgetall(param)) => {
            let r = param.execute(store);
            proof {
                assert(r@.status == 200 <==> r@.message == Seq::<char>::empty());
            }
            r
        },
        Some(RequestData::Hset(param)) => {
            let r = param.execute(store);
            proof {
                assert(r@.status == 200 <==> r@.message == Seq::<char>::empty());
            }
            r
        },
        Some(RequestData::Hdel(param)) => {
            let r = error_response(KvError::Internal(String::from_str("Not implemented")));
            proof {
                assert(r@ =~= spec_not_implemented_resp());
                reveal_strlit("Not implemented");
                assert("Not implemented"@.len() == 15);
            }
            r
        },
        Some(RequestData::Hexist(param)) => {
            let r = error_response(KvError::Internal(String::from_str("Not implemented")));
            proof {
                assert(r@ =~= spec_not_implemented_resp());
                reveal_strlit("Not implemented");
                assert("Not implemented"@.len() == 15);
            }
            r
        },
        None => {
            let r = error_response(KvError::InvalidCommand(String::from_str("Request has no data")));
            proof {
                assert(r@ =~= spec_invalid_resp());
                reveal_strlit("Request has no data");
                assert("Request has no data"@.len() == 19);
            }
            r
        },
    }
}

/// One response-rewriting callback of the `before_send` pipeline. Hooks are
/// data, applied in registration order by a verified interpreter; each sees
/// the previous hook's rewrite.
#[derive(Debug)]
pub enum RespHook {
    /// Override the status code.
    SetStatus(u32),
    /// Replace the message.
    SetMessage(String),
    /// Put a prefix in front of the message.
    PrefixMessage(String),
}

/// What one hook makes of a response.
pub open spec fn apply_hook(h: RespHook, r: RespView) -> RespView {
    match h {
        RespHook::SetStatus(s) => RespView { status: s, ..r },
        RespHook::SetMessage(m) => RespView { message: m@, ..r },
        RespHook::PrefixMessage(m) => RespView { message: m@ + r.message, ..r },
    }
}

/// What a whole registry makes of a response, first registered hook first.
pub open spec fn apply_hooks(hs: Seq<RespHook>, r: RespView) -> RespView
    decreases hs.len(),
{
    if hs.len() == 0 {
        r
    } else {
        apply_hook(hs.last(), apply_hooks(hs.drop_last(), r))
    }
}

/// Law: a status override standing last in the `before_send` registry
/// decides the returned status, whatever ran before it.
pub proof fn lemma_status_hook_wins(hs: Seq<RespHook>, r: RespView, s: u32)
    requires
        hs.len() > 0,
        hs.last() == RespHook::SetStatus(s),
    ensures
        apply_hooks(hs, r).status == s,
{
}

/// An observation callback: it sees the argument and returns nothing.
/// Observers run outside the verified core — an embedding implements this
/// for its loggers and fires them, in registration order, around `execute`.
pub trait Notify<Arg> {
    fn notify(&self, arg: &Arg);
}

/// A rewriting callback registry: applied to the argument in place.
pub trait NotifyMut<Arg> {
    fn notify(&self, arg: &mut Arg);
}

impl NotifyMut<CommandResponse> for Vec<RespHook> {
    /// Apply every hook in registration order, each seeing the previous
    /// hook's rewrite.
    fn notify(&self, arg: &mut CommandResponse)
        ensures
            final(arg)@ == apply_hooks(self@, old(arg)@),
    {
        let ghost r0 = arg@;
        let mut j: usize = 0;
        while j < self.len()
            invariant
                j <= self@.len(),
                arg@ == apply_hooks(self@.take(j as int), r0),
            decreases self@.len() - j,
        {
            match &self[j] {
                RespHook::SetStatus(s) => {
                    arg.status = *s;
                },
                RespHook::SetMessage(m) => {
                    arg.message = m.clone();
                },
                RespHook::PrefixMessage(m) => {
                    let mut p = m.clone();
                    p.append(arg.message.as_str());
                    arg.message = p;
                },
            }
            proof {
                assert(self@.take(j + 1 as int).drop_last() =~= self@.take(j as int));
                assert(arg@ =~= apply_hook(self@[j as int], apply_hooks(self@.take(j as int), r0)));
            }
            j += 1;
        }
        proof {
            assert(self@.take(self@.len() as int) =~= self@);
        }
    }
}

/// The lock predicate every engine behind a service satisfies: the engine's
/// own invariant, and a fixed record of whether it can fail, taken when the
/// service was built.
pub open spec fn store_pred<Store: Storage>(nf: bool) -> spec_fn(Store) -> bool {
    |s: Store| s.inv() && s.never_fails() == nf
}

/// The service's state: one bound storage engine behind a writer lock, plus
/// the four hook registries, fixed once the service is built. Observation
/// hooks (`on_received`, `on_executed`, `on_after_send`) are registered by
/// name and fired by the embedding; `on_before_send` hooks are data the
/// verified core applies itself.
#[verifier::reject_recursive_types(Store)]
pub struct ServiceInner<Store> {
    store: RwLock<Store, spec_fn(Store) -> bool>,
    nf: Ghost<bool>,
    on_received: Vec<String>,
    on_executed: Vec<String>,
    on_before_send: Vec<RespHook>,
    on_after_send: Vec<String>,
}

impl<Store: Storage> ServiceInner<Store> {
    /// The lock was built with the engine's own invariant as its predicate.
    pub closed spec fn wf(&self) -> bool {
        self.store.pred() == store_pred::<Store>(self.nf@)
    }

    /// Whether the engine behind the lock can fail; fixed at construction.
    pub closed spec fn never_fails(&self) -> bool {
        self.nf@
    }

    /// The `before_send` registry, in registration order.
    pub closed spec fn before_send(&self) -> Seq<RespHook> {
        self.on_before_send@
    }

    /// The names of the `received` observers, in registration order.
    pub closed spec fn received(&self) -> Seq<Seq<char>> {
        self.on_received.deep_view()
    }

    /// The names of the `executed` observers, in registration order.
    pub closed spec fn executed(&self) -> Seq<Seq<char>> {
        self.on_executed.deep_view()
    }

    /// The names of the `after_send` observers, in registration order.
    pub closed spec fn after_send(&self) -> Seq<Seq<char>> {
        self.on_after_send.deep_view()
    }

    pub fn new(store: Store) -> (r: Self)
        requires
            store.inv(),
        ensures
            r.wf(),
            r.never_fails() == store.never_fails(),
            r.before_send() == Seq::<RespHook>::empty(),
            r.received() == Seq::<Seq<char>>::empty(),
            r.executed() == Seq::<Seq<char>>::empty(),
            r.after_send() == Seq::<Seq<char>>::empty(),
    {
        let ghost nf = store.never_fails();
        let r = ServiceInner {
            store: RwLock::new(store, Ghost(store_pred::<Store>(nf))),
            nf: Ghost(nf),
            on_received: Vec::new(),
            on_executed: Vec::new(),
            on_before_send: Vec::new(),
            on_after_send: Vec::new(),
        };
        proof {
            assert(r.received() =~= Seq::<Seq<char>>::empty());
            assert(r.executed() =~= Seq::<Seq<char>>::empty());
            assert(r.after_send() =~= Seq::<Seq<char>>::empty());
        }
        r
    }

    /// Register a `received` observer by name.
    pub fn fn_received(self, f: &str) -> (r: Self)
        ensures
            r.wf() == self.wf(),
            r.never_fails() == self.never_fails(),
            r.received() == self.received().push(f@),
            r.executed() == self.executed(),
            r.before_send() == self.before_send(),
            r.after_send() == self.after_send(),
    {
        let mut this = self;
        let ghost s0 = this.on_received.deep_view();
        this.on_received.push(f.to_owned());
        proof {
            assert(this.on_received.deep_view() =~= s0.push(f@));
        }
        this
    }

    /// Register an `executed` observer by name.
    pub fn fn_executed(self, f: &str) -> (r: Self)
        ensures
            r.wf() == self.wf(),
            r.never_fails() == self.never_fails(),
            r.executed() == self.executed().push(f@),
            r.received() == self.received(),
            r.before_send() == self.before_send(),
            r.after_send() == self.after_send(),
    {
        let mut this = self;
        let ghost s0 = this.on_executed.deep_view();
        this.on_executed.push(f.to_owned());
        proof {
            assert(this.on_executed.deep_view() =~= s0.push(f@));
        }
        this
    }

    /// Register a `before_send` rewriting hook; it runs after every hook
    /// registered before it.
    pub fn fn_before_send(self, f: RespHook) -> (r: Self)
        ensures
            r.wf() == self.wf(),
            r.never_fails() == self.never_fails(),
            r.before_send() == self.before_send().push(f),
            r.received() == self.received(),
            r.executed() == self.executed(),
            r.after_send() == self.after_send(),
    {
        let mut this = self;
        this.on_before_send.push(f);
        this
    }

    /// Register an `after_send` observer by name.
    pub fn fn_after_send(self, f: &str) -> (r: Self)
        ensures
            r.wf() == self.wf(),
            r.never_fails() == self.never_fails(),
            r.after_send() == self.after_send().push(f@),
            r.received() == self.received(),
            r.executed() == self.executed(),
            r.before_send() == self.before_send(),
    {
        let mut this = self;
        let ghost s0 = this.on_after_send.deep_view();
        this.on_after_send.push(f.to_owned());
        proof {
            assert(this.on_after_send.deep_view() =~= s0.push(f@));
        }
        this
    }
}

/// The shared service handle: a reference-counted wrapper around one
/// [`ServiceInner`]. Cloning shares the engine and the registries; it never
/// deep-copies, so any number of threads can hold clones and observe one
/// store.
#[verifier::reject_recursive_types(Store)]
pub struct Service<Store = MemTable> {
    inner: Arc<ServiceInner<Store>>,
}

impl<Store: Storage> Service<Store> {
    pub closed spec fn wf(&self) -> bool {
        (*self.inner).wf()
    }

    /// Whether the shared engine can fail; fixed when the service was built.
    pub closed spec fn never_fails(&self) -> bool {
        (*self.inner).never_fails()
    }

    /// The `before_send` registry all clones share.
    pub closed spec fn before_send(&self) -> Seq<RespHook> {
        (*self.inner).before_send()
    }

    /// The names of the `received` observers, in registration order.
    pub closed spec fn received(&self) -> Seq<Seq<char>> {
        (*self.inner).received()
    }

    /// The names of the `executed` observers, in registration order.
    pub closed spec fn executed(&self) -> Seq<Seq<char>> {
        (*self.inner).executed()
    }

    /// The names of the `after_send` observers, in registration order.
    pub closed spec fn after_send(&self) -> Seq<Seq<char>> {
        (*self.inner).after_send()
    }

    /// The registered `received` observer names, for the embedding to look
    /// up and fire, in this order, before transmission is handled.
    pub fn received_names(&self) -> (r: &Vec<String>)
        ensures
            r.deep_view() == self.received(),
    {
        &self.inner.on_received
    }

    /// The registered `executed` observer names, in registration order.
    pub fn executed_names(&self) -> (r: &Vec<String>)
        ensures
            r.deep_view() == self.executed(),
    {
        &self.inner.on_executed
    }

    /// The registered `after_send` observer names, in registration order.
    pub fn after_send_names(&self) -> (r: &Vec<String>)
        ensures
            r.deep_view() == self.after_send(),
    {
        &self.inner.on_after_send
    }

    /// Serve one request and hand back both responses: the one dispatch
    /// produced — what the `executed` observers see, before any rewrite —
    /// and the one the `before_send` hooks made of it, which the caller
    /// transmits.
    ///
    /// Other clones may write between any two calls, so the contract pins
    /// the first response to a dispatch against some well-formed store the
    /// lock admitted this call on.
    pub fn execute_observed(&self, cmd: CommandRequest) -> (rs: (CommandResponse, CommandResponse))
        requires
            self.wf(),
        ensures
            rs.1@ == apply_hooks(self.before_send(), rs.0@),
            exists|s0: StoreModel, s1: StoreModel| dispatch_outcome(cmd@, s0, s1, rs.0@),
            self.never_fails() ==> exists|s0: StoreModel| dispatch_matches(cmd@, s0, rs.0@),
            rs.0@.status == 200 <==> rs.0@.message == Seq::<char>::empty(),
            cmd@.data is None ==> rs.0@ == spec_invalid_resp(),
            cmd@.data matches Some(d) ==> ((d is Hdel || d is Hexist) ==> rs.0@
                == spec_not_implemented_resp()),
    {
        let (mut store, handle) = self.inner.store.acquire_write();
        proof {
            assert(store.inv() && store.never_fails() == self.never_fails());
        }
        let raw = dispatch(cmd, &mut store);
        handle.release_write(store);
        let mut fin = raw.clone();
        self.inner.on_before_send.notify(&mut fin);
        (raw, fin)
    }

    /// Serve one request: dispatch it against the shared engine under the
    /// writer lock, then let the `before_send` hooks rewrite the response.
    ///
    /// Other clones may write between any two calls, so the contract pins
    /// the response to a dispatch against some well-formed store: what came
    /// back is the owed answer for the store the lock admitted this call on,
    /// rewritten by the hooks in registration order. The caller transmits
    /// the response and then fires the `after_send` observers; a caller that
    /// fires `executed` observers uses [`Service::execute_observed`], whose
    /// first response is the answer as dispatched, before any rewrite.
    pub fn execute(&self, cmd: CommandRequest) -> (res: CommandResponse)
        requires
            self.wf(),
        ensures
            exists|s0: StoreModel, s1: StoreModel, r0: RespView|
                dispatch_outcome(cmd@, s0, s1, r0) && res@ == apply_hooks(self.before_send(), r0),
            self.never_fails() ==> exists|s0: StoreModel, r0: RespView|
                dispatch_matches(cmd@, s0, r0) && res@ == apply_hooks(self.before_send(), r0),
            cmd@.data is None ==> res@ == apply_hooks(self.before_send(), spec_invalid_resp()),
            cmd@.data matches Some(d) ==> ((d is Hdel || d is Hexist) ==> res@ == apply_hooks(
                self.before_send(),
                spec_not_implemented_resp(),
            )),
    {
        let rs = self.execute_observed(cmd);
        rs.1
    }
}

impl<Store: Storage> Clone for Service<Store> {
    /// Share, never deep-copy: the clone sees the same engine and the same
    /// registries.
    fn clone(&self) -> (r: Self)
        ensures
            r.wf() == self.wf(),
            r.never_fails() == self.never_fails(),
            r.before_send() == self.before_send(),
            r.received() == self.received(),
            r.executed() == self.executed(),
            r.after_send() == self.after_send(),
    {
        Service { inner: self.inner.clone() }
    }
}

impl<Store: Storage> From<ServiceInner<Store>> for Service<Store> {
    /// Wrap the state behind a fresh shared handle: nothing is copied, and
    /// the engine and the four registries come through unchanged.
    fn from(inner: ServiceInner<Store>) -> (r: Self)
        ensures
            r.wf() == inner.wf(),
            r.never_fails() == inner.never_fails(),
            r.before_send() == inner.before_send(),
            r.received() == inner.received(),
            r.executed() == inner.executed(),
            r.after_send() == inner.after_send(),
    {
        let ghost g = inner;
        let r = Service { inner: Arc::new(inner) };
        proof {
            assert(r.inner == g);
            assert(exists|s: Service<Store>| s.inner == g);
            let c = choose|s: Service<Store>| s.inner == g;
            assert(c.inner == g);
            assert(c == r);
        }
        r
    }
}

impl<Store: Storage> vstd::std_specs::convert::FromSpecImpl<ServiceInner<Store>> for Service<Store> {
    open spec fn obeys_from_spec() -> bool {
        true
    }

    closed spec fn from_spec(v: ServiceInner<Store>) -> Self {
        choose|s: Service<Store>| s.inner == v
    }
}

/// A pair with this key and value stands somewhere in the sequence.
spec fn pair_in(p: KvpairView, s: Seq<KvpairView>) -> bool {
    exists|y: int| 0 <= y < s.len() && s[y].key == p.key && s[y].value == p.value
}

/// A pair with this key stands somewhere in the sequence.
spec fn key_in(k: Seq<char>, s: Seq<KvpairView>) -> bool {
    exists|y: int| 0 <= y < s.len() && s[y].key == k
}

fn find_key(ps: &[Kvpair], key: &str) -> (r: Option<usize>)
    ensures
        r matches Some(y) ==> y < ps@.len() && ps.deep_view()[y as int].key == key@,
        r is None ==> forall|y: int| 0 <= y < ps@.len() ==> ps.deep_view()[y].key != key@,
{
    let mut y: usize = 0;
    while y < ps.len()
        invariant
            y <= ps@.len(),
            forall|a: int| 0 <= a < y ==> ps.deep_view()[a].key != key@,
        decreases ps@.len() - y,
    {
        if str_eq(ps[y].key.as_str(), key) {
            proof {
                assert(ps.deep_view()[y as int].key == ps@[y as int].key@);
            }
            return Some(y);
        }
        proof {
            assert(ps.deep_view()[y as int].key == ps@[y as int].key@);
        }
        y += 1;
    }
    None
}

/// Whether no two pairs share a key.
fn keys_distinct(ps: &[Kvpair]) -> (r: bool)
    ensures
        r == pairs_keys_distinct(ps.deep_view()),
{
    let mut i: usize = 0;
    while i < ps.len()
        invariant
            i <= ps@.len(),
            forall|a: int, b: int|
                0 <= a < b < ps@.len() && a < i ==> ps.deep_view()[a].key != ps.deep_view()[b].key,
        decreases ps@.len() - i,
    {
        let mut j: usize = i + 1;
        while j < ps.len()
            invariant
                i < ps@.len(),
                i + 1 <= j <= ps@.len(),
                forall|b: int| i < b < j ==> ps.deep_view()[i as int].key != ps.deep_view()[b].key,
            decreases ps@.len() - j,
        {
            if str_eq(ps[i].key.as_str(), ps[j].key.as_str()) {
                proof {
                    assert(ps.deep_view()[i as int].key == ps@[i as int].key@);
                    assert(ps.deep_view()[j as int].key == ps@[j as int].key@);
                }
                return false;
            }
            proof {
                assert(ps.deep_view()[i as int].key == ps@[i as int].key@);
                assert(ps.deep_view()[j as int].key == ps@[j as int].key@);
            }
            j += 1;
        }
        i += 1;
    }
    true
}

/// Whether two pair sequences with distinct keys spell out the same table.
fn pairs_table_eq(a: &[Kvpair], b: &[Kvpair]) -> (r: bool)
    requires
        pairs_keys_distinct(a.deep_view()),
        pairs_keys_distinct(b.deep_view()),
    ensures
        r == (pairs_map(a.deep_view()) == pairs_map(b.deep_view())),
{
    let mut i: usize = 0;
    while i < a.len()
        invariant
            i <= a@.len(),
            pairs_keys_distinct(a.deep_view()),
            pairs_keys_distinct(b.deep_view()),
            forall|x: int| 0 <= x < i ==> pair_in(#[trigger] a.deep_view()[x], b.deep_view()),
        decreases a@.len() - i,
    {
        proof {
            assert(a.deep_view()[i as int].key == a@[i as int].key@);
            assert(a.deep_view()[i as int].value == a@[i as int].value@);
        }
        match find_key(b, a[i].key.as_str()) {
            None => {
                proof {
                    let k = a.deep_view()[i as int].key;
                    lemma_pairs_map_contains(a.deep_view(), k);
                    lemma_pairs_map_contains(b.deep_view(), k);
                }
                return false;
            },
            Some(y) => {
                proof {
                    assert(b.deep_view()[y as int].value == b@[y as int].value@);
                }
                if !(a[i].value == b[y].value) {
                    proof {
                        lemma_pairs_map_at(a.deep_view(), i as int);
                        lemma_pairs_map_at(b.deep_view(), y as int);
                    }
                    return false;
                }
            },
        }
        i += 1;
    }
    let mut j: usize = 0;
    while j < b.len()
        invariant
            j <= b@.len(),
            pairs_keys_distinct(a.deep_view()),
            pairs_keys_distinct(b.deep_view()),
            forall|x: int| 0 <= x < a@.len() ==> pair_in(#[trigger] a.deep_view()[x], b.deep_view()),
            forall|y: int| 0 <= y < j ==> key_in(#[trigger] b.deep_view()[y].key, a.deep_view()),
        decreases b@.len() - j,
    {
        proof {
            assert(b.deep_view()[j as int].key == b@[j as int].key@);
        }
        match find_key(a, b[j].key.as_str()) {
            None => {
                proof {
                    let k = b.deep_view()[j as int].key;
                    lemma_pairs_map_contains(a.deep_view(), k);
                    lemma_pairs_map_contains(b.deep_view(), k);
                }
                return false;
            },
            Some(_) => {},
        }
        j += 1;
    }
    proof {
        let da = a.deep_view();
        let db = b.deep_view();
        assert forall|k: Seq<char>| #[trigger] pairs_map(da).contains_key(k) implies pairs_map(
            db,
        ).contains_key(k) && pairs_map(db)[k] == pairs_map(da)[k] by {
            lemma_pairs_map_contains(da, k);
            let x = choose|x: int| 0 <= x < da.len() && da[x].key == k;
            assert(pair_in(da[x], db));
            let y = choose|y: int| 0 <= y < db.len() && db[y].key == k && db[y].value == da[x].value;
            lemma_pairs_map_contains(db, k);
            lemma_pairs_map_at(da, x);
            lemma_pairs_map_at(db, y);
        }
        assert forall|k: Seq<char>| #[trigger] pairs_map(db).contains_key(k) implies pairs_map(
            da,
        ).contains_key(k) by {
            lemma_pairs_map_contains(db, k);
            let y = choose|y: int| 0 <= y < db.len() && db[y].key == k;
            assert(key_in(db[y].key, da));
            lemma_pairs_map_contains(da, k);
        }
        assert(pairs_map(da) =~= pairs_map(db));
    }
    true
}

/// Whether a response is the successful answer carrying exactly the given
/// values and the given pairs as a table: status 200, empty message, values
/// equal in order, and the pairs — unique keys on both sides — equal in any
/// order.
pub fn assert_res_ok(res: &CommandResponse, values: &[Value], pairs: &[Kvpair]) -> (ok: bool)
    ensures
        ok == (res@.status == 200 && res@.message == Seq::<char>::empty() && res@.values
            == values.deep_view() && res@.pairs.len() == pairs@.len() && pairs_keys_distinct(
            res@.pairs,
        ) && pairs_keys_distinct(pairs.deep_view()) && pairs_map(res@.pairs) == pairs_map(
            pairs.deep_view(),
        )),
{
    if res.status != 200 {
        return false;
    }
    if !str_eq(res.message.as_str(), "") {
        proof {
            reveal_strlit("");
            assert(""@ =~= Seq::<char>::empty());
        }
        return false;
    }
    proof {
        reveal_strlit("");
        assert(""@ =~= Seq::<char>::empty());
    }
    if res.values.len() != values.len() {
        proof {
            assert(res@.values.len() == res.values@.len());
            assert(values.deep_view().len() == values@.len());
        }
        return false;
    }
    let mut i: usize = 0;
    while i < res.values.len()
        invariant
            i <= res.values@.len(),
            res.values@.len() == values@.len(),
            forall|a: int| 0 <= a < i ==> res.values.deep_view()[a] == values.deep_view()[a],
        decreases res.values@.len() - i,
    {
        if !(res.values[i] == values[i]) {
            proof {
                assert(res.values.deep_view()[i as int] == res.values@[i as int].deep_view());
                assert(values.deep_view()[i as int] == values@[i as int].deep_view());
            }
            return false;
        }
        i += 1;
    }
    proof {
        assert(res@.values =~= values.deep_view());
    }
    if res.pairs.len() != pairs.len() {
        proof {
            assert(res@.pairs.len() == res.pairs@.len());
        }
        return false;
    }
    let rp = res.pairs.as_slice();
    proof {
        assert(rp.deep_view() =~= res.pairs.deep_view());
    }
    if !keys_distinct(rp) {
        return false;
    }
    if !keys_distinct(pairs) {
        return false;
    }
    if !pairs_table_eq(rp, pairs) {
        return false;
    }
    true
}

/// Whether a haystack holds the needle as a contiguous run of bytes.
pub open spec fn contains_bytes(h: Seq<u8>, n: Seq<u8>) -> bool {
    exists|i: int| 0 <= i <= h.len() - n.len() && #[trigger] h.subrange(i, i + n.len()) == n
}

fn match_at(h: &[u8], n: &[u8], i: usize) -> (r: bool)
    requires
        i + n@.len() <= h@.len(),
    ensures
        r == (h@.subrange(i as int, i + n@.len()) == n@),
{
    let hl = h.len();
    let mut j: usize = 0;
    while j < n.len()
        invariant
            i + n@.len() <= h@.len(),
            h@.len() == hl,
            j <= n@.len(),
            forall|b: int| 0 <= b < j ==> h@[i + b] == n@[b],
        decreases n@.len() - j,
    {
        if h[i + j] != n[j] {
            proof {
                if h@.subrange(i as int, i + n@.len()) == n@ {
                    assert(h@.subrange(i as int, i + n@.len())[j as int] == n@[j as int]);
                }
            }
            return false;
        }
        j += 1;
    }
    proof {
        assert(h@.subrange(i as int, i + n@.len()) =~= n@);
    }
    true
}

fn slice_contains(h: &[u8], n: &[u8]) -> (r: bool)
    ensures
        r == contains_bytes(h@, n@),
{
    if n.len() > h.len() {
        return false;
    }
    if n.len() == 0 {
        proof {
            assert(h@.subrange(0, 0 + n@.len() as int) =~= n@);
        }
        return true;
    }
    let hl = h.len();
    let limit = h.len() - n.len();
    let mut i: usize = 0;
    while i <= limit
        invariant
            1 <= n@.len() <= h@.len(),
            h@.len() == hl,
            limit == h@.len() - n@.len(),
            i <= h@.len() - n@.len() + 1,
            forall|a: int| 0 <= a < i ==> #[trigger] h@.subrange(a, a + n@.len()) != n@,
        decreases h@.len() - n@.len() + 1 - i,
    {
        if match_at(h, n, i) {
            return true;
        }
        i += 1;
    }
    false
}

/// Whether a response reports the given failure: the status code matches,
/// the message holds `msg` (compared over the UTF-8 bytes), and no data came
/// along.
pub fn assert_res_error(res: &CommandResponse, code: u32, msg: &str) -> (ok: bool)
    ensures
        ok == (res@.status == code && contains_bytes(
            vstd::utf8::encode_utf8(res@.message),
            vstd::utf8::encode_utf8(msg@),
        ) && res@.values == Seq::<ValueView>::empty() && res@.pairs == Seq::<KvpairView>::empty()),
{
    if res.status != code {
        return false;
    }
    if !slice_contains(res.message.as_str().as_bytes(), msg.as_bytes()) {
        return false;
    }
    if res.values.len() != 0 {
        proof {
            assert(res@.values.len() == res.values@.len());
        }
        return false;
    }
    if res.pairs.len() != 0 {
        proof {
            assert(res@.pairs.len() == res.pairs@.len());
        }
        return false;
    }
    proof {
        assert(res@.values =~= Seq::<ValueView>::empty());
        assert(res@.pairs =~= Seq::<KvpairView>::empty());
    }
    true
}

} // verus!
