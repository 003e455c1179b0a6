use offset_funder::encode::{hash_balances, response_signature_buff};
use offset_funder::mutual_credit::{McError, MutualCredit};
use offset_funder::types::{McBalance, McCancel, McRequest, McResponse};

use ring::signature::{Ed25519KeyPair, KeyPair};

fn keypair(seed: u8) -> Ed25519KeyPair {
    Ed25519KeyPair::from_seed_unchecked(&[seed; 32]).unwrap()
}

fn sha512_256(data: &[u8]) -> Vec<u8> {
    ring::digest::digest(&ring::digest::SHA512_256, data).as_ref().to_vec()
}

fn request(id: u8, route: Vec<Vec<u8>>, dest_payment: u128, left_fees: u128) -> McRequest {
    McRequest {
        request_id: vec![id; 16],
        src_hashed_lock: sha512_256(&[1u8; 32]),
        route,
        dest_payment,
        total_dest_payment: dest_payment,
        invoice_hash: vec![0u8; 32],
        left_fees,
    }
}

fn signed_response(currency: &Vec<u8>, req: &McRequest, dest: &Ed25519KeyPair) -> McResponse {
    let mut resp = McResponse {
        request_id: req.request_id.clone(),
        src_plain_lock: vec![1u8; 32],
        serial_num: 0,
        signature: Vec::new(),
    };
    let buff = response_signature_buff(currency, req, &resp);
    resp.signature = dest.sign(&buff).as_ref().to_vec();
    resp
}

fn route_abc() -> (Vec<Vec<u8>>, Ed25519KeyPair) {
    let c = keypair(0xcc);
    let route = vec![vec![0xaa; 32], keypair(0xbb).public_key().as_ref().to_vec(), c.public_key().as_ref().to_vec()];
    (route, c)
}

#[test]
fn test_request_cancel_send_funds() {
    let (route, _) = route_abc();
    let mut mc = MutualCredit::new(0);

    let req = request(3, route, 10, 5);
    let request_id = req.request_id.clone();
    assert!(matches!(mc.queue_request(req, 100), Ok(Ok(()))));
    let b = mc.get_balance();
    assert_eq!(b.balance, 0);
    assert_eq!(b.local_pending_debt, 10 + 5);
    assert_eq!(b.remote_pending_debt, 0);

    let cancelled = mc.process_cancel(&McCancel { request_id }).unwrap();
    assert_eq!(cancelled.dest_payment, 10);
    let b = mc.get_balance();
    assert_eq!(b.balance, 0);
    assert_eq!(b.local_pending_debt, 0);
    assert_eq!(b.remote_pending_debt, 0);
}

#[test]
fn request_then_response_moves_balance() {
    let currency = b"FST".to_vec();
    let (route, c) = route_abc();
    // A's side sends the request; B's side receives it.
    let mut a = MutualCredit::new(0);
    let mut b = MutualCredit::new(0);
    let req = request(3, route, 10, 5);
    assert!(matches!(a.queue_request(req.clone(), 100), Ok(Ok(()))));
    assert_eq!(b.process_request(req.clone(), 100), Ok(()));
    assert_eq!(b.get_balance().remote_pending_debt, 15);

    let resp = signed_response(&currency, &req, &c);
    assert_eq!(b.queue_response(&currency, &resp), Ok(()));
    let settled = a.process_response(&currency, &resp).unwrap();
    assert_eq!(settled.request_id, req.request_id);

    assert_eq!(a.get_balance().balance, 15);
    assert_eq!(a.get_balance().local_pending_debt, 0);
    assert_eq!(b.get_balance().balance, -15);
    assert_eq!(b.get_balance().remote_pending_debt, 0);
}

#[test]
fn request_beyond_local_limit_is_answered_with_cancel() {
    let (route, _) = route_abc();
    let mut mc = MutualCredit::new(0);
    match mc.queue_request(request(4, route, 10, 5), 14) {
        Ok(Err(cancel)) => assert_eq!(cancel.request_id, vec![4u8; 16]),
        other => panic!("unexpected {:?}", other),
    }
    assert_eq!(mc.get_balance().local_pending_debt, 0);
    assert!(mc.pending_local_requests.is_empty());
}

#[test]
fn request_exactly_at_local_limit_is_sent() {
    let (route, _) = route_abc();
    let mut mc = MutualCredit::new(0);
    assert!(matches!(mc.queue_request(request(4, route, 10, 5), 15), Ok(Ok(()))));
    assert_eq!(mc.get_balance().local_pending_debt, 15);
}

#[test]
fn zero_amount_request_is_legal() {
    let (route, _) = route_abc();
    let mut mc = MutualCredit::new(0);
    assert!(matches!(mc.queue_request(request(5, route, 0, 0), 0), Ok(Ok(()))));
    assert_eq!(mc.pending_local_requests.len(), 1);
    assert_eq!(mc.get_balance().local_pending_debt, 0);
}

#[test]
fn incoming_request_beyond_remote_limit_is_insufficient_credit() {
    let (route, _) = route_abc();
    let mut mc = MutualCredit::new(0);
    assert_eq!(mc.process_request(request(6, route, 10, 5), 14), Err(McError::InsufficientCredit));
    assert_eq!(mc.get_balance().remote_pending_debt, 0);
}

#[test]
fn duplicate_request_id_is_refused() {
    let (route, _) = route_abc();
    let mut mc = MutualCredit::new(0);
    assert!(matches!(mc.queue_request(request(7, route.clone(), 1, 0), 10), Ok(Ok(()))));
    assert_eq!(mc.process_request(request(7, route.clone(), 1, 0), 10), Err(McError::DuplicateRequestId));
    assert!(matches!(mc.queue_request(request(7, route, 1, 0), 10), Err(McError::DuplicateRequestId)));
}

#[test]
fn unknown_request_id_is_refused() {
    let mut mc = MutualCredit::new(0);
    assert!(matches!(mc.process_cancel(&McCancel { request_id: vec![9; 16] }), Err(McError::UnknownRequestId)));
    assert_eq!(mc.queue_cancel(&McCancel { request_id: vec![9; 16] }), Err(McError::UnknownRequestId));
}

#[test]
fn response_with_wrong_lock_is_refused() {
    let currency = b"FST".to_vec();
    let (route, c) = route_abc();
    let mut mc = MutualCredit::new(0);
    let req = request(8, route, 10, 5);
    assert!(matches!(mc.queue_request(req.clone(), 100), Ok(Ok(()))));
    let mut resp = signed_response(&currency, &req, &c);
    resp.src_plain_lock = vec![2u8; 32];
    assert!(matches!(mc.process_response(&currency, &resp), Err(McError::LockMismatch)));
    assert_eq!(mc.get_balance().local_pending_debt, 15);
}

#[test]
fn response_with_wrong_signature_is_refused() {
    let currency = b"FST".to_vec();
    let (route, _) = route_abc();
    let mut mc = MutualCredit::new(0);
    let req = request(8, route, 10, 5);
    assert!(matches!(mc.queue_request(req.clone(), 100), Ok(Ok(()))));
    // Signed by a key that is not the destination's.
    let resp = signed_response(&currency, &req, &keypair(0xdd));
    assert!(matches!(mc.process_response(&currency, &resp), Err(McError::SignatureInvalid)));
    assert_eq!(mc.get_balance().balance, 0);
}

#[test]
fn request_amount_overflow_is_refused() {
    let (route, _) = route_abc();
    let mut mc = MutualCredit::new(0);
    assert!(matches!(mc.queue_request(request(9, route, u128::MAX, 1), u128::MAX), Err(McError::ArithmeticOverflow)));
}

#[test]
fn flip_negates_balance_and_swaps_debts() {
    let b = McBalance { balance: 7, local_pending_debt: 1, remote_pending_debt: 2, in_fees: 3, out_fees: 4 };
    let f = b.flip().unwrap();
    assert_eq!(f, McBalance { balance: -7, local_pending_debt: 2, remote_pending_debt: 1, in_fees: 4, out_fees: 3 });
    let m = McBalance { balance: i128::MIN, ..b };
    assert!(m.flip().is_none());
}

#[test]
fn hash_of_no_balances_is_sha512_256_of_nothing() {
    let h = hash_balances(&Vec::new());
    assert_eq!(h, sha512_256(&[]));
    assert_eq!(h.len(), 32);
    assert_eq!(h[0], 0xc6);
    assert_eq!(h[1], 0x72);
}
