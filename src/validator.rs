//! The request validator: decides whether a sign request may be honoured.
use vstd::prelude::*;
use crate::ledger::{none_bound, Binding, Ledger};
use crate::outref::{bytes_copy, bytes_eq, RefKey, SignRequest};

verus! {

/// Every output of `ks` is bound, and to the transaction digest `d`.
pub open spec fn all_bound_to(m: Map<RefKey, Binding>, ks: Seq<RefKey>, d: Seq<u8>) -> bool {
    forall|i: int| 0 <= i < ks.len() ==> m.contains_key(ks[i]) && m[ks[i]].0 == d
}

/// Why a request is refused.
#[derive(PartialEq, Eq, Structural, Clone, Copy, Debug)]
pub enum Rejection {
    /// An output is bound to another transaction, or the request mixes bound
    /// and free outputs.
    Conflict,
    /// The request spends no output, or names one twice.
    Malformed,
}

/// The outcome of validating a request against the ledger.
pub enum Decision {
    /// Every output is free: the transaction may be signed, and its outputs
    /// bound to it.
    Approve,
    /// Every output is already bound to this very transaction: the signature
    /// issued then is handed back.
    ApproveReplay(Vec<u8>),
    Reject(Rejection),
}

/// The kind of decision owed for a request against the bindings `m`.
pub enum Verdict {
    Approve,
    Replay,
    Reject(Rejection),
}

pub open spec fn verdict(m: Map<RefKey, Binding>, req: SignRequest) -> Verdict {
    if !req.well_formed() {
        Verdict::Reject(Rejection::Malformed)
    } else if none_bound(m, req.keys()) {
        Verdict::Approve
    } else if all_bound_to(m, req.keys(), req.tx_digest@) {
        Verdict::Replay
    } else {
        Verdict::Reject(Rejection::Conflict)
    }
}

/// The decision `d` is the one owed for `req` against the bindings `m`; a
/// replay hands back the signature recorded with the first spent output.
pub open spec fn decision_matches(d: Decision, m: Map<RefKey, Binding>, req: SignRequest) -> bool {
    match verdict(m, req) {
        Verdict::Approve => d is Approve,
        Verdict::Replay => d matches Decision::ApproveReplay(s) && s@ == m[req.keys()[0]].1,
        Verdict::Reject(why) => d == Decision::Reject(why),
    }
}

/// Validates `req` against the ledger. The ledger is only read.
pub fn validate(ledger: &Ledger, req: &SignRequest) -> (d: Decision)
    requires
        ledger.wf(),
    ensures
        decision_matches(d, ledger@, *req),
{
    if !req.check_well_formed() {
        return Decision::Reject(Rejection::Malformed);
    }
    let ghost m = ledger@;
    let ghost ks = req.keys();
    let n = req.spent_outputs.len();
    let mut n_free: usize = 0;
    let mut n_same: usize = 0;
    let mut i: usize = 0;
    while i < n
        invariant
            n == req.spent_outputs@.len(),
            ks == req.keys(),
            m == ledger@,
            ledger.wf(),
            0 <= i <= n,
            n_free <= i,
            n_same <= i,
            n_free == i ==> none_bound(m, ks.subrange(0, i as int)),
            n_same == i ==> all_bound_to(m, ks.subrange(0, i as int), req.tx_digest@),
            n_free < i ==> !none_bound(m, ks),
            n_same < i ==> !all_bound_to(m, ks, req.tx_digest@),
        decreases n - i,
    {
        assert(ks[i as int] == req.spent_outputs@[i as int]@);
        match ledger.lookup(&req.spent_outputs[i]) {
            None => {
                n_free = n_free + 1;
            },
            Some(rec) => {
                if bytes_eq(&rec.tx_digest, &req.tx_digest) {
                    n_same = n_same + 1;
                }
            },
        }
        assert(ks.subrange(0, i + 1) =~= ks.subrange(0, i as int).push(ks[i as int]));
        i = i + 1;
    }
    assert(ks.subrange(0, n as int) =~= ks);
    if n_free == n {
        Decision::Approve
    } else if n_same == n {
        let rec = ledger.lookup(&req.spent_outputs[0]);
        assert(ks[0] == req.spent_outputs@[0]@);
        match rec {
            Some(rec) => Decision::ApproveReplay(bytes_copy(&rec.signature)),
            None => Decision::Reject(Rejection::Conflict),
        }
    } else {
        Decision::Reject(Rejection::Conflict)
    }
}

} // verus!
