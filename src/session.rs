//! The session server's decisions. One connection is served at a time; the
//! caller performs each action (handshake, read, sign, persist, write, close)
//! and hands the outcome back as the next event.
use vstd::prelude::*;
use crate::ledger::{bind_all, none_bound, record_views, AuthorizationRecord, Binding, Ledger};
use crate::outref::{bytes_copy, RefKey, SignRequest};
use crate::validator::{validate, verdict, Decision, Rejection, Verdict};

verus! {

/// The error reported to a manager.
#[derive(PartialEq, Eq, Structural, Clone, Copy, Debug)]
pub enum ErrorKind {
    Conflict,
    Malformed,
    Internal,
}

pub open spec fn error_of(why: Rejection) -> ErrorKind {
    match why {
        Rejection::Conflict => ErrorKind::Conflict,
        Rejection::Malformed => ErrorKind::Malformed,
    }
}

/// The single message written back on a connection.
pub enum Response {
    Signature(Vec<u8>),
    Error(ErrorKind),
}

/// Where the current connection stands.
pub enum Phase {
    Listening,
    Accepted,
    Authenticated,
    /// The request was approved; its transaction is being signed.
    Signing(SignRequest),
    /// The signature exists; the bindings are being written to storage.
    Persisting(SignRequest, Vec<u8>, u64),
    /// The response is being written.
    Responded,
}

/// The outcome of the last action.
pub enum Event {
    /// A new inbound connection arrived.
    Connected,
    /// The mutual authentication handshake succeeded or failed.
    Handshake(bool),
    /// One message was read and decoded; `None` when reading or decoding failed.
    MessageRead(Option<SignRequest>),
    /// The signature, or `None` on a signing fault; and the time now.
    Signed(Option<Vec<u8>>, u64),
    /// Whether the records reached storage.
    Persisted(bool),
    /// The response was written, or writing it failed.
    ResponseWritten,
    /// The transport failed or the peer stalled past its deadline.
    Abort,
}

/// What the caller is to do next.
pub enum Action {
    Handshake,
    ReadMessage,
    /// Sign this encoded transaction.
    Sign(Vec<u8>),
    /// Write these records to storage, durably, before anything else.
    Persist(Vec<AuthorizationRecord>),
    Respond(Response),
    /// Close the connection and wait for the next one.
    Close,
}

/// The records binding each output of `ks` to `b`, in order.
pub open spec fn records_for(ks: Seq<RefKey>, b: Binding) -> Seq<(RefKey, Binding)> {
    ks.map_values(|k: RefKey| (k, b))
}

/// The daemon's state: the ledger and the phase of the current connection.
pub struct Server {
    pub ledger: Ledger,
    pub phase: Phase,
}

impl Server {
    /// The ledger is well formed, and a request on its way to being signed
    /// is well formed and spends only free outputs.
    pub open spec fn wf(&self) -> bool {
        &&& self.ledger.wf()
        &&& match self.phase {
            Phase::Signing(req) => req.well_formed() && none_bound(self.ledger@, req.keys()),
            Phase::Persisting(req, _, _) => req.well_formed() && none_bound(
                self.ledger@,
                req.keys(),
            ),
            _ => true,
        }
    }

    /// A server listening with the given ledger.
    pub fn new(ledger: Ledger) -> (r: Server)
        requires
            ledger.wf(),
        ensures
            r.wf(),
            r.ledger@ == ledger@,
            r.phase is Listening,
    {
        Server { ledger, phase: Phase::Listening }
    }

    /// Takes the outcome of the last action and decides the next one.
    pub fn step(&mut self, event: Event) -> (a: Action)
        requires
            old(self).wf(),
        ensures
            final(self).wf(),
            // A binding, once made, is never changed or removed.
            old(self).ledger@.submap_of(final(self).ledger@),
            // The ledger changes only once the new records are durable.
            !(old(self).phase is Persisting && event == Event::Persisted(true))
                ==> final(self).ledger@ == old(self).ledger@,
            // A signature is released only once the ledger binds an output to it.
            a matches Action::Respond(Response::Signature(s)) ==> exists|k: RefKey|
                final(self).ledger@.contains_key(k) && #[trigger] final(self).ledger@[k].1 == s@,
            match (old(self).phase, event) {
                (Phase::Listening, Event::Connected) => final(self).phase is Accepted && a is Handshake,
                (Phase::Accepted, Event::Handshake(true)) => final(self).phase is Authenticated
                    && a is ReadMessage,
                (Phase::Authenticated, Event::MessageRead(Some(req))) => match verdict(
                    old(self).ledger@,
                    req,
                ) {
                    Verdict::Approve => final(self).phase == Phase::Signing(req) && (a matches Action::Sign(t)
                        && t@ == req.transaction@),
                    Verdict::Replay => final(self).phase is Responded && (a matches Action::Respond(
                        Response::Signature(s),
                    ) && s@ == old(self).ledger@[req.keys()[0]].1),
                    Verdict::Reject(why) => final(self).phase is Responded && (a matches Action::Respond(
                        Response::Error(e),
                    ) && e == error_of(why)),
                },
                (Phase::Signing(req), Event::Signed(Some(sig), now)) => final(self).phase
                    == Phase::Persisting(req, sig, now) && (a matches Action::Persist(recs)
                    && record_views(recs@) == records_for(req.keys(), (req.tx_digest@, sig@, now))),
                (Phase::Signing(_), Event::Signed(None, _)) => final(self).phase is Responded && (a matches Action::Respond(
                    Response::Error(e),
                ) && e == ErrorKind::Internal),
                (Phase::Persisting(req, sig, now), Event::Persisted(true)) => final(self).phase is Responded
                    && final(self).ledger@ == bind_all(old(self).ledger@, req.keys(), (req.tx_digest@, sig@, now))
                    && (a matches Action::Respond(Response::Signature(s)) && s@ == sig@),
                (Phase::Persisting(_, _, _), Event::Persisted(false)) => final(self).phase is Responded
                    && (a matches Action::Respond(Response::Error(e)) && e == ErrorKind::Internal),
                _ => final(self).phase is Listening && a is Close,
            },
    {
        let mut phase = Phase::Listening;
        std::mem::swap(&mut phase, &mut self.phase);
        match (phase, event) {
            (Phase::Listening, Event::Connected) => {
                self.phase = Phase::Accepted;
                Action::Handshake
            },
            (Phase::Accepted, Event::Handshake(true)) => {
                self.phase = Phase::Authenticated;
                Action::ReadMessage
            },
            (Phase::Authenticated, Event::MessageRead(Some(req))) => {
                match validate(&self.ledger, &req) {
                    Decision::Approve => {
                        let t = bytes_copy(&req.transaction);
                        self.phase = Phase::Signing(req);
                        Action::Sign(t)
                    },
                    Decision::ApproveReplay(s) => {
                        assert(self.ledger@[req.keys()[0]].1 == s@);
                        self.phase = Phase::Responded;
                        Action::Respond(Response::Signature(s))
                    },
                    Decision::Reject(why) => {
                        self.phase = Phase::Responded;
                        let e = match why {
                            Rejection::Conflict => ErrorKind::Conflict,
                            Rejection::Malformed => ErrorKind::Malformed,
                        };
                        Action::Respond(Response::Error(e))
                    },
                }
            },
            (Phase::Signing(req), Event::Signed(Some(sig), now)) => {
                let recs = make_records(&req, &sig, now);
                self.phase = Phase::Persisting(req, sig, now);
                Action::Persist(recs)
            },
            (Phase::Signing(_), Event::Signed(None, _)) => {
                self.phase = Phase::Responded;
                Action::Respond(Response::Error(ErrorKind::Internal))
            },
            (Phase::Persisting(req, sig, now), Event::Persisted(true)) => {
                let r = self.ledger.commit_all(&req.spent_outputs, &req.tx_digest, &sig, now);
                proof {
                    assert(r is Ok);
                    let k = req.keys()[0];
                    assert(req.keys().contains(k));
                    assert(self.ledger@[k].1 == sig@);
                }
                self.phase = Phase::Responded;
                Action::Respond(Response::Signature(sig))
            },
            (Phase::Persisting(_, _, _), Event::Persisted(false)) => {
                self.phase = Phase::Responded;
                Action::Respond(Response::Error(ErrorKind::Internal))
            },
            _ => Action::Close,
        }
    }
}

/// The records that bind every output of `req` to its transaction.
fn make_records(req: &SignRequest, sig: &Vec<u8>, now: u64) -> (recs: Vec<AuthorizationRecord>)
    ensures
        record_views(recs@) == records_for(req.keys(), (req.tx_digest@, sig@, now)),
{
    let mut recs: Vec<AuthorizationRecord> = Vec::new();
    let n = req.spent_outputs.len();
    let mut i: usize = 0;
    while i < n
        invariant
            n == req.spent_outputs@.len(),
            0 <= i <= n,
            record_views(recs@) == records_for(req.keys().subrange(0, i as int), (req.tx_digest@, sig@, now)),
        decreases n - i,
    {
        let rec = AuthorizationRecord::new(
            req.spent_outputs[i].copy(),
            bytes_copy(&req.tx_digest),
            bytes_copy(sig),
            now,
        );
        let ghost rv = rec@;
        let ghost old_recs = recs@;
        recs.push(rec);
        assert(req.keys()[i as int] == req.spent_outputs@[i as int]@);
        assert(rv == (req.keys()[i as int], (req.tx_digest@, sig@, now)));
        assert(record_views(recs@) =~= record_views(old_recs).push(rv));
        assert(record_views(recs@) =~= records_for(
            req.keys().subrange(0, i + 1),
            (req.tx_digest@, sig@, now),
        ));
        i = i + 1;
    }
    assert(req.keys().subrange(0, n as int) =~= req.keys());
    recs
}

} // verus!
