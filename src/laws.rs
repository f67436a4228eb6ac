//! Laws of the ledger and the validator, stated over their models.
use vstd::prelude::*;
use crate::ledger::{bind_all, Binding};
use crate::outref::{RefKey, SignRequest};
use crate::validator::{all_bound_to, verdict, Rejection, Verdict};

verus! {

/// Across any run in which each ledger state keeps every binding of the one
/// before it (as every step of the server does), an output bound at some
/// point stays bound to that same transaction forever after: at most one
/// transaction is ever observed for it.
pub proof fn lemma_at_most_once(run: Seq<Map<RefKey, Binding>>, i: int, j: int, k: RefKey)
    requires
        forall|n: int| 0 <= n < run.len() - 1 ==> #[trigger] run[n].submap_of(run[n + 1]),
        0 <= i <= j < run.len(),
        run[i].contains_key(k),
    ensures
        run[j].contains_key(k),
        run[j][k] == run[i][k],
    decreases j - i,
{
    if i < j {
        lemma_at_most_once(run, i, j - 1, k);
        assert(run[j - 1].submap_of(run[j - 1 + 1]));
    }
}

/// Binding free outputs keeps every earlier binding.
pub proof fn lemma_binding_free_outputs_keeps_others(
    m: Map<RefKey, Binding>,
    ks: Seq<RefKey>,
    b: Binding,
)
    requires
        forall|i: int| 0 <= i < ks.len() ==> !m.contains_key(ks[i]),
    ensures
        m.submap_of(bind_all(m, ks, b)),
{
    assert forall|k: RefKey| #[trigger] m.contains_key(k) implies bind_all(m, ks, b).contains_key(k)
        && bind_all(m, ks, b)[k] == m[k] by {
        if ks.contains(k) {
            let i = choose|i: int| 0 <= i < ks.len() && ks[i] == k;
        }
    }
}

/// Once an approved request has been committed, sending the identical request
/// again is a replay, and it hands back the signature issued the first time.
pub proof fn lemma_idempotent_replay(m: Map<RefKey, Binding>, req: SignRequest, sig: Seq<u8>, now: u64)
    requires
        verdict(m, req) is Approve,
    ensures
        verdict(bind_all(m, req.keys(), (req.tx_digest@, sig, now)), req) is Replay,
        bind_all(m, req.keys(), (req.tx_digest@, sig, now))[req.keys()[0]].1 == sig,
{
    let m2 = bind_all(m, req.keys(), (req.tx_digest@, sig, now));
    assert forall|i: int| 0 <= i < req.keys().len() implies m2.contains_key(req.keys()[i])
        && m2[req.keys()[i]].0 == req.tx_digest@ by {
        assert(req.keys().contains(req.keys()[i]));
    }
    assert(req.keys().contains(req.keys()[0]));
    assert(all_bound_to(m2, req.keys(), req.tx_digest@));
    assert(m2.contains_key(req.keys()[0]));
}

/// A well-formed request that spends an output bound to another transaction
/// is rejected as a conflict.
pub proof fn lemma_conflict_rejected(m: Map<RefKey, Binding>, req: SignRequest, i: int)
    requires
        req.well_formed(),
        0 <= i < req.keys().len(),
        m.contains_key(req.keys()[i]),
        m[req.keys()[i]].0 != req.tx_digest@,
    ensures
        verdict(m, req) == Verdict::Reject(Rejection::Conflict),
{
}

/// A well-formed request that spends both a bound output and a free one is
/// rejected as a conflict, so the free one is not bound either.
pub proof fn lemma_mixed_request_rejected(m: Map<RefKey, Binding>, req: SignRequest, i: int, j: int)
    requires
        req.well_formed(),
        0 <= i < req.keys().len(),
        0 <= j < req.keys().len(),
        m.contains_key(req.keys()[i]),
        !m.contains_key(req.keys()[j]),
    ensures
        verdict(m, req) == Verdict::Reject(Rejection::Conflict),
{
}

} // verus!
