use cosignerd::args::{parse_args, ArgsError};
use cosignerd::ledger::{AuthorizationRecord, Committed, Ledger};
use cosignerd::outref::{bytes_eq, OutputRef, SignRequest};
use cosignerd::session::{Action, ErrorKind, Event, Phase, Response, Server};
use cosignerd::validator::{validate, Decision, Rejection};

fn txid(b: u8) -> Vec<u8> {
    vec![b; 32]
}

fn out(b: u8, vout: u32) -> OutputRef {
    OutputRef::new(txid(b), vout)
}

fn request(digest: u8, outputs: Vec<OutputRef>) -> SignRequest {
    SignRequest::new(vec![digest; 32], vec![0xee, digest], outputs)
}

fn connect(server: &mut Server) {
    assert!(matches!(server.step(Event::Connected), Action::Handshake));
    assert!(matches!(server.step(Event::Handshake(true)), Action::ReadMessage));
}

fn respond_signature(a: Action) -> Vec<u8> {
    match a {
        Action::Respond(Response::Signature(s)) => s,
        _ => panic!("expected a signature"),
    }
}

fn respond_error(a: Action) -> ErrorKind {
    match a {
        Action::Respond(Response::Error(e)) => e,
        _ => panic!("expected an error response"),
    }
}

/// Runs a full approved session and returns the signature written back.
fn sign_fresh(server: &mut Server, req: SignRequest, sig: Vec<u8>, now: u64) -> Vec<u8> {
    connect(server);
    let tx = req.transaction.clone();
    match server.step(Event::MessageRead(Some(req))) {
        Action::Sign(t) => assert_eq!(t, tx),
        _ => panic!("expected a signing action"),
    }
    match server.step(Event::Signed(Some(sig), now)) {
        Action::Persist(recs) => assert!(!recs.is_empty()),
        _ => panic!("expected a persist action"),
    }
    let s = respond_signature(server.step(Event::Persisted(true)));
    assert!(matches!(server.step(Event::ResponseWritten), Action::Close));
    assert!(matches!(server.phase, Phase::Listening));
    s
}

#[test]
fn sign_replay_then_conflict() {
    let mut server = Server::new(Ledger::new());
    let s1 = vec![0x51, 0x01];
    let got = sign_fresh(&mut server, request(0xa0, vec![out(0xaa, 0)]), s1.clone(), 1000);
    assert_eq!(got, s1);
    assert_eq!(server.ledger.len(), 1);
    let rec = server.ledger.lookup(&out(0xaa, 0)).unwrap();
    assert_eq!(rec.tx_digest, vec![0xa0; 32]);
    assert_eq!(rec.signature, s1);
    assert_eq!(rec.created_at, 1000);

    // The identical request again: the same signature, no signing, no write.
    connect(&mut server);
    let again = respond_signature(server.step(Event::MessageRead(Some(request(0xa0, vec![out(0xaa, 0)])))));
    assert_eq!(again, s1);
    assert_eq!(server.ledger.len(), 1);
    assert!(matches!(server.step(Event::ResponseWritten), Action::Close));

    // Another transaction for the same output: a conflict, the record stays.
    connect(&mut server);
    let e = respond_error(server.step(Event::MessageRead(Some(request(0xb0, vec![out(0xaa, 0)])))));
    assert_eq!(e, ErrorKind::Conflict);
    assert_eq!(server.ledger.lookup(&out(0xaa, 0)).unwrap().tx_digest, vec![0xa0; 32]);
    assert_eq!(server.ledger.len(), 1);
}

#[test]
fn conflicting_request_leaves_free_output_free() {
    let mut server = Server::new(Ledger::new());
    sign_fresh(&mut server, request(0xa0, vec![out(0x01, 0)]), vec![1], 5);
    connect(&mut server);
    let e = respond_error(server.step(Event::MessageRead(Some(request(
        0xb0,
        vec![out(0x01, 0), out(0x02, 3)],
    )))));
    assert_eq!(e, ErrorKind::Conflict);
    assert!(server.ledger.lookup(&out(0x02, 3)).is_none());
    assert_eq!(server.ledger.len(), 1);
}

#[test]
fn mixed_bound_and_free_outputs_conflict() {
    let mut server = Server::new(Ledger::new());
    sign_fresh(&mut server, request(0xa0, vec![out(0x01, 0)]), vec![1], 5);
    connect(&mut server);
    // Same transaction, but one extra output that is still free.
    let e = respond_error(server.step(Event::MessageRead(Some(request(
        0xa0,
        vec![out(0x01, 0), out(0x02, 0)],
    )))));
    assert_eq!(e, ErrorKind::Conflict);
    assert!(server.ledger.lookup(&out(0x02, 0)).is_none());
}

#[test]
fn multi_output_request_binds_all() {
    let mut server = Server::new(Ledger::new());
    let outs = vec![out(0x2b, 0), out(0xce, 1), out(0x0b, 189)];
    sign_fresh(&mut server, request(0x77, outs), vec![9, 9], 42);
    assert_eq!(server.ledger.len(), 3);
    for (b, v) in [(0x2b, 0), (0xce, 1), (0x0b, 189)] {
        let rec = server.ledger.lookup(&out(b, v)).unwrap();
        assert_eq!(rec.tx_digest, vec![0x77; 32]);
        assert_eq!(rec.signature, vec![9, 9]);
    }
}

#[test]
fn persist_records_match_request() {
    let mut server = Server::new(Ledger::new());
    connect(&mut server);
    server.step(Event::MessageRead(Some(request(0x10, vec![out(1, 1), out(2, 2)]))));
    match server.step(Event::Signed(Some(vec![3, 3, 3]), 77)) {
        Action::Persist(recs) => {
            assert_eq!(recs.len(), 2);
            assert!(recs[0].output_ref.same_as(&out(1, 1)));
            assert!(recs[1].output_ref.same_as(&out(2, 2)));
            for r in recs.iter() {
                assert_eq!(r.tx_digest, vec![0x10; 32]);
                assert_eq!(r.signature, vec![3, 3, 3]);
                assert_eq!(r.created_at, 77);
            }
        }
        _ => panic!("expected a persist action"),
    }
    // Nothing is bound until the records are durable.
    assert_eq!(server.ledger.len(), 0);
}

#[test]
fn failed_persist_releases_no_signature() {
    let mut server = Server::new(Ledger::new());
    connect(&mut server);
    server.step(Event::MessageRead(Some(request(0x10, vec![out(1, 1)]))));
    server.step(Event::Signed(Some(vec![3]), 1));
    let e = respond_error(server.step(Event::Persisted(false)));
    assert_eq!(e, ErrorKind::Internal);
    assert_eq!(server.ledger.len(), 0);
}

#[test]
fn signing_fault_is_internal_error() {
    let mut server = Server::new(Ledger::new());
    connect(&mut server);
    server.step(Event::MessageRead(Some(request(0x10, vec![out(1, 1)]))));
    let e = respond_error(server.step(Event::Signed(None, 1)));
    assert_eq!(e, ErrorKind::Internal);
    assert_eq!(server.ledger.len(), 0);
}

#[test]
fn handshake_failure_drops_connection() {
    let mut server = Server::new(Ledger::new());
    assert!(matches!(server.step(Event::Connected), Action::Handshake));
    assert!(matches!(server.step(Event::Handshake(false)), Action::Close));
    assert!(matches!(server.phase, Phase::Listening));
}

#[test]
fn undecodable_message_drops_connection() {
    let mut server = Server::new(Ledger::new());
    connect(&mut server);
    assert!(matches!(server.step(Event::MessageRead(None)), Action::Close));
    assert!(matches!(server.phase, Phase::Listening));
}

#[test]
fn abort_while_signing_binds_nothing() {
    let mut server = Server::new(Ledger::new());
    connect(&mut server);
    server.step(Event::MessageRead(Some(request(0x10, vec![out(1, 1)]))));
    assert!(matches!(server.step(Event::Abort), Action::Close));
    assert_eq!(server.ledger.len(), 0);
    assert!(matches!(server.phase, Phase::Listening));
}

#[test]
fn malformed_requests_rejected() {
    let mut server = Server::new(Ledger::new());
    connect(&mut server);
    let e = respond_error(server.step(Event::MessageRead(Some(request(1, vec![])))));
    assert_eq!(e, ErrorKind::Malformed);
    server.step(Event::ResponseWritten);
    connect(&mut server);
    let e = respond_error(server.step(Event::MessageRead(Some(request(1, vec![out(4, 0), out(4, 0)])))));
    assert_eq!(e, ErrorKind::Malformed);
    assert_eq!(server.ledger.len(), 0);
}

#[test]
fn validate_decisions() {
    let mut ledger = Ledger::new();
    assert!(matches!(validate(&ledger, &request(1, vec![out(1, 0)])), Decision::Approve));
    assert!(ledger.commit_all(&vec![out(1, 0), out(1, 1)], &vec![1; 32], &vec![0xab], 3).is_ok());
    match validate(&ledger, &request(1, vec![out(1, 1), out(1, 0)])) {
        Decision::ApproveReplay(s) => assert_eq!(s, vec![0xab]),
        _ => panic!("expected a replay"),
    }
    assert!(matches!(
        validate(&ledger, &request(2, vec![out(1, 0)])),
        Decision::Reject(Rejection::Conflict)
    ));
    assert!(matches!(
        validate(&ledger, &request(1, vec![out(1, 1), out(1, 1)])),
        Decision::Reject(Rejection::Malformed)
    ));
}

#[test]
fn commit_single_output() {
    let mut ledger = Ledger::new();
    assert!(matches!(ledger.commit(&out(5, 5), &vec![1], &vec![2], 0), Ok(Committed::New)));
    assert!(matches!(ledger.commit(&out(5, 5), &vec![1], &vec![7], 9), Ok(Committed::Existing)));
    assert!(ledger.commit(&out(5, 5), &vec![8], &vec![2], 0).is_err());
    let rec = ledger.lookup(&out(5, 5)).unwrap();
    assert_eq!(rec.tx_digest, vec![1]);
    assert_eq!(rec.signature, vec![2]);
    assert_eq!(ledger.len(), 1);
}

#[test]
fn commit_all_is_all_or_nothing() {
    let mut ledger = Ledger::new();
    assert!(ledger.commit_all(&vec![out(1, 0)], &vec![1], &vec![1], 0).is_ok());
    assert!(ledger.commit_all(&vec![out(2, 0), out(1, 0)], &vec![2], &vec![2], 0).is_err());
    assert!(ledger.lookup(&out(2, 0)).is_none());
    assert_eq!(ledger.len(), 1);
}

#[test]
fn restore_after_restart() {
    let mut server = Server::new(Ledger::new());
    sign_fresh(&mut server, request(0xa0, vec![out(0xaa, 0)]), vec![0x51], 10);
    sign_fresh(&mut server, request(0xc0, vec![out(0xcc, 2), out(0xcc, 3)]), vec![0x52], 11);
    let stored: Vec<AuthorizationRecord> = server.ledger.records().iter().map(|r| r.copy()).collect();
    let restored = Ledger::restore(stored).unwrap();
    assert_eq!(restored.len(), 3);
    let rec = restored.lookup(&out(0xcc, 3)).unwrap();
    assert_eq!(rec.tx_digest, vec![0xc0; 32]);
    assert_eq!(rec.signature, vec![0x52]);
    assert_eq!(rec.created_at, 11);

    // After the restart the identical request is still a replay.
    let mut server = Server::new(restored);
    connect(&mut server);
    let s = respond_signature(server.step(Event::MessageRead(Some(request(0xa0, vec![out(0xaa, 0)])))));
    assert_eq!(s, vec![0x51]);
}

#[test]
fn restore_refuses_duplicate_outputs() {
    let a = AuthorizationRecord::new(out(1, 0), vec![1], vec![1], 0);
    let b = AuthorizationRecord::new(out(1, 0), vec![2], vec![2], 0);
    assert!(Ledger::restore(vec![a, b]).is_none());
    assert!(Ledger::restore(Vec::new()).unwrap().len() == 0);
}

#[test]
fn parse_args_forms() {
    assert_eq!(parse_args(vec!["cosignerd".to_string()]), Ok(None));
    assert_eq!(
        parse_args(vec!["cosignerd".to_string(), "--conf".to_string(), "/etc/c.toml".to_string()]),
        Ok(Some("/etc/c.toml".to_string()))
    );
    assert_eq!(
        parse_args(vec!["cosignerd".to_string(), "--conf".to_string()]),
        Err(ArgsError::UnknownArguments)
    );
    assert_eq!(parse_args(Vec::new()), Err(ArgsError::UnknownArguments));
}

#[test]
fn byte_helpers() {
    assert!(bytes_eq(&vec![1, 2, 3], &vec![1, 2, 3]));
    assert!(!bytes_eq(&vec![1, 2, 3], &vec![1, 2, 4]));
    assert!(!bytes_eq(&vec![1, 2], &vec![1, 2, 3]));
    assert!(out(1, 2).same_as(&out(1, 2)));
    assert!(!out(1, 2).same_as(&out(1, 3)));
    assert!(request(1, vec![out(1, 0), out(1, 1)]).check_well_formed());
}
