//! The interceptor step: on each inbound request, record one occurrence of
//! the resolved caller address (if any) and hand the request through to the
//! downstream handler unchanged, returning its response unchanged.

use vstd::prelude::*;
use crate::counter::CounterStore;

verus! {

/// Record one occurrence of the resolved caller address. A request whose
/// address could not be resolved is non-fatal: it is recorded nowhere and the
/// store is left exactly as it was.
pub fn observe(store: &mut CounterStore, ip: Option<String>)
    requires
        old(store).wf(),
        ip is Some ==> old(store)@.len() < u64::MAX,
    ensures
        final(store).wf(),
        final(store)@ == (match ip {
            Some(s) => old(store)@.push(s@),
            None => old(store)@,
        }),
{
    match ip {
        Some(s) => store.record(s),
        None => (),
    }
}

/// The whole interceptor step: observe the caller address, then delegate to
/// the downstream handler. The response is exactly what the handler returns
/// for the very same request — the interceptor never short-circuits, retries,
/// or alters the downstream outcome.
pub fn intercept<Req, Resp, F: FnOnce(Req) -> Resp>(
    store: &mut CounterStore,
    ip: Option<String>,
    request: Req,
    next: F,
) -> (resp: Resp)
    requires
        old(store).wf(),
        ip is Some ==> old(store)@.len() < u64::MAX,
        call_requires(next, (request,)),
    ensures
        final(store).wf(),
        final(store)@ == (match ip {
            Some(s) => old(store)@.push(s@),
            None => old(store)@,
        }),
        call_ensures(next, (request,), resp),
{
    observe(store, ip);
    next(request)
}

} // verus!
