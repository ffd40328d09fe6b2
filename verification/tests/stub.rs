use mco_rpc::stub::{ClientStub, RequestOutcome, ServerStub};

#[test]
fn ids_start_at_one_and_increase() {
    let mut s = ClientStub::new();
    assert_eq!(s.tag, 0);
    assert_eq!(s.next_id(), 1);
    assert_eq!(s.next_id(), 2);
    assert_eq!(s.tag, 2);
}

#[test]
fn reply_unknown_method() {
    let s = ServerStub::new();
    let r = s.reply(7, RequestOutcome::UnknownMethod("handle".to_string()));
    assert_eq!(r.id, 7);
    assert_eq!(r.body, Err("method handle not find!".to_string()));
    assert!(r.close);
}

#[test]
fn reply_rejected() {
    let s = ServerStub::new();
    let r = s.reply(3, RequestOutcome::Rejected("bad arg".to_string()));
    assert_eq!(r.id, 3);
    assert_eq!(r.body, Err("accept bad arg fail!".to_string()));
    assert!(r.close);
}

#[test]
fn reply_accepted_and_undecodable() {
    let s = ServerStub::new();
    let r = s.reply(9, RequestOutcome::Accepted(vec![1, 2, 3]));
    assert_eq!(r.id, 9);
    assert_eq!(r.body, Ok(vec![1, 2, 3]));
    assert!(!r.close);
    let u = s.reply(10, RequestOutcome::Undecodable);
    assert_eq!(u.id, 10);
    assert_eq!(u.body, Ok(vec![]));
    assert!(!u.close);
}

#[test]
fn reset_zeroes_every_byte() {
    let mut buf = vec![1u8, 2, 3, 255];
    mco_rpc::stub::reset(&mut buf);
    assert_eq!(buf, vec![0, 0, 0, 0]);
    let mut empty: Vec<u8> = vec![];
    mco_rpc::stub::reset(&mut empty);
    assert!(empty.is_empty());
}
