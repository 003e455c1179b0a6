use offset_funder::encode::{reset_token_signature_buff, response_signature_buff};
use offset_funder::friend::{dispatch_request, RequestDispatch, dispatch_backwards, find_request_origin, handle_friend_message, FriendInconsistencyError, FriendMessageOutput, IncomingFriendFunds};
use offset_funder::mutual_credit::IncomingMessage;
use offset_funder::report::{create_channel_status_report, ChannelStatusReport, DirectionReport};
use offset_funder::token_channel::{
    compare_public_key_lt, friend_tc_op_from_outgoing_tc_op, initial_move_token, reset_balance_to_mc_balance,
    token_from_public_key, OutMoveToken, Rate, ReceiveMoveTokenOutput, TcOp, TcStatus, TokenChannel,
    TokenChannelError,
};
use offset_funder::router::{BackwardsOp, FriendQueues};
use offset_funder::types::{McBalance, McCancel, McOp, McRequest, McResponse, MoveToken, ResetBalance};

use ring::signature::{Ed25519KeyPair, KeyPair};

struct Side {
    key: Ed25519KeyPair,
    pk: Vec<u8>,
    tc: TokenChannel,
}

fn keypair(seed: u8) -> Ed25519KeyPair {
    Ed25519KeyPair::from_seed_unchecked(&[seed; 32]).unwrap()
}

fn sha512_256(data: &[u8]) -> Vec<u8> {
    ring::digest::digest(&ring::digest::SHA512_256, data).as_ref().to_vec()
}

fn fst() -> Vec<u8> {
    b"FST".to_vec()
}

/// Two new sides; the first returned is the one whose turn it is.
fn pair() -> (Side, Side) {
    let k1 = keypair(1);
    let k2 = keypair(2);
    let pk1 = k1.public_key().as_ref().to_vec();
    let pk2 = k2.public_key().as_ref().to_vec();
    let first = Side { tc: TokenChannel::new(&pk1, &pk2), key: k1, pk: pk1 };
    let second = Side { tc: TokenChannel::new(&pk2, &first.pk), key: k2, pk: pk2 };
    if matches!(first.tc.status, TcStatus::ConsistentIn(_)) {
        (first, second)
    } else {
        (second, first)
    }
}

/// `from` assembles, signs and sends a move token.
fn send(from: &mut Side, to_pk: &Vec<u8>, diff: Vec<Vec<u8>>, ops: Vec<(Vec<u8>, McOp)>) -> MoveToken {
    let mut out = OutMoveToken::new(&from.tc);
    for c in diff {
        out.toggle_currency(c).unwrap();
    }
    for (c, op) in ops {
        match op {
            McOp::Request(r) => assert!(matches!(out.queue_request(c, r, 1000), Ok(Ok(())))),
            McOp::Response(p) => out.queue_response(c, p).unwrap(),
            McOp::Cancel(x) => out.queue_cancel(c, x).unwrap(),
        }
    }
    let pending = out.finalize(&from.pk, to_pk).unwrap();
    let signature = from.key.sign(&pending.signature_buff()).as_ref().to_vec();
    let (tc, mt) = pending.sign(signature);
    from.tc = tc;
    mt
}

fn receive(to: &mut Side, from_pk: &Vec<u8>, mt: &MoveToken) -> ReceiveMoveTokenOutput {
    to.tc.handle_in_move_token(mt, &to.pk, from_pk).unwrap()
}

fn balance(side: &Side) -> McBalance {
    side.tc.ledger.credits[0].mutual_credit.balance
}

/// Both sides open FST and set the credit limit granted to the other.
fn open_fst(a: &mut Side, b: &mut Side) {
    let mt = send(a, &b.pk.clone(), vec![fst()], vec![]);
    assert!(matches!(receive(b, &a.pk.clone(), &mt), ReceiveMoveTokenOutput::Received(_)));
    let mt = send(b, &a.pk.clone(), vec![fst()], vec![]);
    assert!(matches!(receive(a, &b.pk.clone(), &mt), ReceiveMoveTokenOutput::Received(_)));
    a.tc.set_currency_config(&fst(), 1000, Rate { mul: 0, add: 0 }).unwrap();
    b.tc.set_currency_config(&fst(), 1000, Rate { mul: 0, add: 0 }).unwrap();
}

fn request(id: u8, route: Vec<Vec<u8>>) -> McRequest {
    McRequest {
        request_id: vec![id; 16],
        src_hashed_lock: sha512_256(&[1u8; 32]),
        route,
        dest_payment: 10,
        total_dest_payment: 10,
        invoice_hash: vec![0u8; 32],
        left_fees: 5,
    }
}

#[test]
fn genesis_tokens_come_from_both_keys() {
    let low = vec![0xaau8; 32];
    let high = vec![0xbbu8; 32];
    assert!(compare_public_key_lt(&low, &high));
    assert!(!compare_public_key_lt(&high, &low));
    let mt = initial_move_token(&low, &high);
    let mut expected_old = vec![0xaau8; 32];
    expected_old.extend_from_slice(&[0u8; 32]);
    let mut expected_new = vec![0xbbu8; 32];
    expected_new.extend_from_slice(&[0u8; 32]);
    assert_eq!(mt.old_token, expected_old);
    assert_eq!(mt.new_token, expected_new);
    assert!(mt.currencies_operations.is_empty());
    assert_eq!(token_from_public_key(&high), expected_new);

    let tc_low = TokenChannel::new(&low, &high);
    let tc_high = TokenChannel::new(&high, &low);
    match &tc_low.status {
        TcStatus::ConsistentOut(out, None) => assert_eq!(out.new_token, expected_new),
        _ => panic!("low side must start as sender"),
    }
    match &tc_high.status {
        TcStatus::ConsistentIn(h) => {
            assert_eq!(h.new_token, expected_new);
            assert_eq!(h.token_info.move_token_counter, 0);
        },
        _ => panic!("high side must start as receiver"),
    }
    assert_eq!(tc_low.get_move_token_counter(), 0);
}

#[test]
fn request_and_cancel_through_the_channel() {
    let (mut a, mut b) = pair();
    open_fst(&mut a, &mut b);
    let route = vec![a.pk.clone(), b.pk.clone(), vec![0xcc; 32]];
    let req = request(3, route);
    let counter = a.tc.get_move_token_counter();
    let mt = send(&mut a, &b.pk.clone(), vec![], vec![(fst(), McOp::Request(req.clone()))]);
    assert!(a.tc.get_move_token_counter() > counter);
    assert_eq!(balance(&a), McBalance { balance: 0, local_pending_debt: 15, remote_pending_debt: 0, in_fees: 0, out_fees: 0 });
    match receive(&mut b, &a.pk.clone(), &mt) {
        ReceiveMoveTokenOutput::Received(r) => {
            assert_eq!(r.incoming_messages.len(), 1);
            assert!(matches!(r.incoming_messages[0].1, IncomingMessage::Request(_)));
        },
        other => panic!("unexpected {:?}", other),
    }
    assert_eq!(balance(&b).remote_pending_debt, 15);

    let mt = send(&mut b, &a.pk.clone(), vec![], vec![(fst(), McOp::Cancel(McCancel { request_id: req.request_id.clone() }))]);
    assert!(matches!(receive(&mut a, &b.pk.clone(), &mt), ReceiveMoveTokenOutput::Received(_)));
    assert_eq!(balance(&a), McBalance { balance: 0, local_pending_debt: 0, remote_pending_debt: 0, in_fees: 0, out_fees: 0 });
    assert_eq!(balance(&b), McBalance { balance: 0, local_pending_debt: 0, remote_pending_debt: 0, in_fees: 0, out_fees: 0 });
}

#[test]
fn request_and_response_through_the_channel() {
    let (mut a, mut b) = pair();
    open_fst(&mut a, &mut b);
    let dest = keypair(0xcc);
    let route = vec![a.pk.clone(), b.pk.clone(), dest.public_key().as_ref().to_vec()];
    let req = request(3, route);
    let mt = send(&mut a, &b.pk.clone(), vec![], vec![(fst(), McOp::Request(req.clone()))]);
    assert!(matches!(receive(&mut b, &a.pk.clone(), &mt), ReceiveMoveTokenOutput::Received(_)));

    let mut resp = McResponse { request_id: req.request_id.clone(), src_plain_lock: vec![1u8; 32], serial_num: 0, signature: vec![] };
    resp.signature = dest.sign(&response_signature_buff(&fst(), &req, &resp)).as_ref().to_vec();
    let mt = send(&mut b, &a.pk.clone(), vec![], vec![(fst(), McOp::Response(resp))]);
    match receive(&mut a, &b.pk.clone(), &mt) {
        ReceiveMoveTokenOutput::Received(r) => assert!(matches!(r.incoming_messages[0].1, IncomingMessage::Response(_, _))),
        other => panic!("unexpected {:?}", other),
    }
    assert_eq!(balance(&a).balance, 15);
    assert_eq!(balance(&a).local_pending_debt, 0);
    assert_eq!(balance(&b).balance, -15);
    assert_eq!(balance(&b).remote_pending_debt, 0);
}

#[test]
fn duplicate_move_token_changes_nothing() {
    let (mut a, mut b) = pair();
    let mt = send(&mut a, &b.pk.clone(), vec![fst()], vec![]);
    assert!(matches!(receive(&mut b, &a.pk.clone(), &mt), ReceiveMoveTokenOutput::Received(_)));
    let counter = b.tc.get_move_token_counter();
    assert!(matches!(receive(&mut b, &a.pk.clone(), &mt), ReceiveMoveTokenOutput::Duplicate));
    assert_eq!(b.tc.get_move_token_counter(), counter);
    assert_eq!(b.tc.ledger.remote_currencies, vec![fst()]);
}

#[test]
fn previous_move_token_asks_for_retransmit() {
    let (mut a, mut b) = pair();
    let mt0 = send(&mut a, &b.pk.clone(), vec![fst()], vec![]);
    assert!(matches!(receive(&mut b, &a.pk.clone(), &mt0), ReceiveMoveTokenOutput::Received(_)));
    let mt1 = send(&mut b, &a.pk.clone(), vec![], vec![]);
    let counter = b.tc.get_move_token_counter();
    // A did not get mt1 and sends mt0 again.
    match receive(&mut b, &a.pk.clone(), &mt0) {
        ReceiveMoveTokenOutput::RetransmitOutgoing(out) => {
            assert_eq!(out.new_token, mt1.new_token);
            assert_eq!(out.old_token, mt1.old_token);
        },
        other => panic!("unexpected {:?}", other),
    }
    assert_eq!(b.tc.get_move_token_counter(), counter);
}

#[test]
fn broken_chain_then_reset() {
    let (mut a, mut b) = pair();
    open_fst(&mut a, &mut b);
    // A sends; B answers; A now waits for B.
    let mt = send(&mut a, &b.pk.clone(), vec![], vec![]);
    assert!(matches!(receive(&mut b, &a.pk.clone(), &mt), ReceiveMoveTokenOutput::Received(_)));
    let mt = send(&mut b, &a.pk.clone(), vec![], vec![]);
    assert!(matches!(receive(&mut a, &b.pk.clone(), &mt), ReceiveMoveTokenOutput::Received(_)));
    let _ = send(&mut a, &b.pk.clone(), vec![], vec![]);

    // A receives a move token that links to nothing.
    let mut bogus = mt.clone();
    bogus.old_token = vec![7u8; 64];
    bogus.new_token = vec![8u8; 64];
    let prev = a.tc.get_move_token_counter();
    assert!(matches!(receive(&mut a, &b.pk.clone(), &bogus), ReceiveMoveTokenOutput::ChainBroken));
    let buff = a.tc.reset_token_request(&a.pk, &b.pk).unwrap();
    assert_eq!(buff, reset_token_signature_buff(&a.pk, &b.pk, prev + 2));
    let token = a.key.sign(&buff).as_ref().to_vec();
    let terms = a.tc.set_inconsistent(token.clone()).unwrap();
    assert_eq!(terms.move_token_counter, prev + 2);
    assert_eq!(terms.reset_token, token);
    assert_eq!(terms.reset_balances, vec![(fst(), ResetBalance { balance: 0, in_fees: 0, out_fees: 0 })]);

    // B hears of it, breaks its own side, records A's terms and accepts them.
    let msg = IncomingFriendFunds::InconsistencyError(FriendInconsistencyError { reset_terms: terms.clone() });
    assert!(matches!(handle_friend_message(&mut b.tc, msg, &b.pk.clone(), &a.pk.clone()), Ok(FriendMessageOutput::ChainBroken)));
    let b_token = b.key.sign(&b.tc.reset_token_request(&b.pk, &a.pk).unwrap()).as_ref().to_vec();
    b.tc.set_inconsistent(b_token).unwrap();
    let msg = IncomingFriendFunds::InconsistencyError(FriendInconsistencyError { reset_terms: terms.clone() });
    assert!(matches!(handle_friend_message(&mut b.tc, msg, &b.pk.clone(), &a.pk.clone()), Ok(FriendMessageOutput::RemoteResetTermsLoaded)));
    b.tc.accept_remote_reset().unwrap();
    assert_eq!(b.tc.get_move_token_counter(), terms.move_token_counter - 1);

    let mt = send(&mut b, &a.pk.clone(), vec![], vec![]);
    assert_eq!(mt.old_token, terms.reset_token);
    assert!(matches!(receive(&mut a, &b.pk.clone(), &mt), ReceiveMoveTokenOutput::Received(_)));
    assert!(matches!(a.tc.status, TcStatus::ConsistentIn(_)));
    assert_eq!(a.tc.get_move_token_counter(), terms.move_token_counter);
    assert_eq!(b.tc.get_move_token_counter(), terms.move_token_counter);
}

#[test]
fn inconsistent_side_announces_its_terms_again() {
    let (mut a, b) = pair();
    let token = a.key.sign(&a.tc.reset_token_request(&a.pk, &b.pk).unwrap()).as_ref().to_vec();
    let terms = a.tc.set_inconsistent(token).unwrap();
    assert_eq!(terms.move_token_counter, 2);
    let mut bogus = initial_move_token(&a.pk, &b.pk);
    bogus.old_token = vec![9u8; 64];
    match receive(&mut a, &b.pk.clone(), &bogus) {
        ReceiveMoveTokenOutput::ChainInconsistent(t) => assert_eq!(t.reset_token, terms.reset_token),
        other => panic!("unexpected {:?}", other),
    }
}

#[test]
fn removing_a_currency_in_use_is_refused() {
    let (mut a, mut b) = pair();
    open_fst(&mut a, &mut b);
    b.tc.ledger.credits[0].mutual_credit.balance.balance = 7;
    let counter = b.tc.get_move_token_counter();
    let mt = send(&mut a, &b.pk.clone(), vec![fst()], vec![]);
    assert!(matches!(receive(&mut b, &a.pk.clone(), &mt), ReceiveMoveTokenOutput::ChainBroken));
    assert_eq!(b.tc.get_move_token_counter(), counter);
    assert_eq!(b.tc.ledger.remote_currencies, vec![fst()]);
    assert_eq!(b.tc.ledger.credits.len(), 1);
}

#[test]
fn local_side_cannot_remove_a_currency_in_use() {
    let (mut a, mut b) = pair();
    open_fst(&mut a, &mut b);
    a.tc.ledger.credits[0].mutual_credit.balance.balance = 7;
    let mut out = OutMoveToken::new(&a.tc);
    assert_eq!(out.toggle_currency(fst()), Err(TokenChannelError::CanNotRemoveCurrencyInUse));
}

#[test]
fn removing_an_idle_currency_drops_its_credit() {
    let (mut a, mut b) = pair();
    open_fst(&mut a, &mut b);
    let mt = send(&mut a, &b.pk.clone(), vec![fst()], vec![]);
    assert!(a.tc.ledger.credits.is_empty());
    assert!(matches!(receive(&mut b, &a.pk.clone(), &mt), ReceiveMoveTokenOutput::Received(_)));
    assert!(b.tc.ledger.credits.is_empty());
    assert!(b.tc.ledger.remote_currencies.is_empty());
}

#[test]
fn bad_signature_breaks_the_chain() {
    let (mut a, mut b) = pair();
    let mut mt = send(&mut a, &b.pk.clone(), vec![fst()], vec![]);
    mt.currencies_diff = vec![b"XYZ".to_vec()];
    assert!(matches!(receive(&mut b, &a.pk.clone(), &mt), ReceiveMoveTokenOutput::ChainBroken));
    assert!(b.tc.ledger.remote_currencies.is_empty());
}

#[test]
fn finalize_needs_our_turn() {
    let (a, b) = pair();
    let out = OutMoveToken::new(&b.tc);
    assert!(matches!(out.finalize(&b.pk, &a.pk), Err(TokenChannelError::InvalidTokenChannelStatus)));
}

#[test]
fn queue_on_unknown_currency_is_invalid_state() {
    let (a, _) = pair();
    let mut out = OutMoveToken::new(&a.tc);
    assert!(matches!(out.queue_cancel(fst(), McCancel { request_id: vec![1; 16] }), Err(TokenChannelError::InvalidState)));
}

#[test]
fn counter_overflow_is_reported() {
    let (mut a, b) = pair();
    a.tc.move_token_counter = u128::MAX - 1;
    assert!(a.tc.reset_token_request(&a.pk, &b.pk).is_none());
    assert_eq!(a.tc.set_inconsistent(vec![1]).unwrap_err(), TokenChannelError::MoveTokenCounterOverflow);
    a.tc.move_token_counter = u128::MAX;
    let out = OutMoveToken::new(&a.tc);
    assert!(matches!(out.finalize(&a.pk, &b.pk), Err(TokenChannelError::MoveTokenCounterOverflow)));
}

#[test]
fn reset_balance_drops_pending_debts() {
    let b = reset_balance_to_mc_balance(ResetBalance { balance: -4, in_fees: 1, out_fees: 2 });
    assert_eq!(b, McBalance { balance: -4, local_pending_debt: 0, remote_pending_debt: 0, in_fees: 1, out_fees: 2 });
}

#[test]
fn tc_op_travels_beside_its_currency() {
    let op = TcOp { currency: fst(), mc_op: McOp::Cancel(McCancel { request_id: vec![5; 16] }) };
    let (c, f) = friend_tc_op_from_outgoing_tc_op(op);
    assert_eq!(c, fst());
    assert!(matches!(f, McOp::Cancel(x) if x.request_id == vec![5; 16]));
}

#[test]
fn status_report_shows_direction_and_balances() {
    let (mut a, mut b) = pair();
    open_fst(&mut a, &mut b);
    match create_channel_status_report(&a.tc) {
        ChannelStatusReport::Consistent(r) => {
            assert_eq!(r.direction, DirectionReport::Incoming);
            assert_eq!(r.currencies.len(), 1);
            assert_eq!(r.currencies[0].currency, fst());
            assert_eq!(r.currencies[0].num_local_pending_requests, 0);
        },
        _ => panic!("expected a consistent channel"),
    }
    match create_channel_status_report(&b.tc) {
        ChannelStatusReport::Consistent(r) => assert_eq!(r.direction, DirectionReport::Outgoing),
        _ => panic!("expected a consistent channel"),
    }
}

#[test]
fn request_origin_is_the_friend_that_sent_it() {
    let (mut a, mut b) = pair();
    open_fst(&mut a, &mut b);
    let req = request(3, vec![a.pk.clone(), b.pk.clone(), vec![0xcc; 32]]);
    let mt = send(&mut a, &b.pk.clone(), vec![], vec![(fst(), McOp::Request(req.clone()))]);
    assert!(matches!(receive(&mut b, &a.pk.clone(), &mt), ReceiveMoveTokenOutput::Received(_)));
    let other = TokenChannel::new(&vec![0x11; 32], &b.pk);
    let friends = vec![(vec![0x11; 32], other), (a.pk.clone(), b.tc)];
    assert_eq!(find_request_origin(&friends, &req.request_id), Some(1));
    assert_eq!(find_request_origin(&friends, &vec![4u8; 16]), None);
}

#[test]
fn returned_cancel_goes_back_to_the_origin() {
    let (mut a, mut b) = pair();
    open_fst(&mut a, &mut b);
    let req = request(3, vec![a.pk.clone(), b.pk.clone(), vec![0xcc; 32]]);
    let mt = send(&mut a, &b.pk.clone(), vec![], vec![(fst(), McOp::Request(req.clone()))]);
    assert!(matches!(receive(&mut b, &a.pk.clone(), &mt), ReceiveMoveTokenOutput::Received(_)));
    let other = TokenChannel::new(&vec![0x11; 32], &b.pk);
    let friends = vec![(vec![0x11; 32], other), (a.pk.clone(), b.tc)];
    let mut queues = vec![FriendQueues::new(), FriendQueues::new()];
    let op = BackwardsOp::Cancel(McCancel { request_id: req.request_id.clone() });
    assert_eq!(dispatch_backwards(&friends, &mut queues, fst(), op), Some(1));
    assert_eq!(queues[1].pending_backwards.len(), 1);
    assert!(queues[0].is_empty());
    let op = BackwardsOp::Cancel(McCancel { request_id: vec![4u8; 16] });
    assert_eq!(dispatch_backwards(&friends, &mut queues, fst(), op), None);
    assert_eq!(queues[1].pending_backwards.len(), 1);
}

#[test]
fn currency_config_needs_a_credit() {
    let (mut a, mut b) = pair();
    assert_eq!(a.tc.set_currency_config(&fst(), 5, Rate { mul: 1, add: 2 }), Err(TokenChannelError::InvalidState));
    open_fst(&mut a, &mut b);
    a.tc.set_currency_config(&fst(), 5, Rate { mul: 1, add: 2 }).unwrap();
    assert_eq!(a.tc.ledger.credits[0].remote_max_debt, 5);
    assert_eq!(a.tc.ledger.credits[0].rate, Rate { mul: 1, add: 2 });
    assert_eq!(balance(&a).balance, 0);
}

#[test]
fn credits_are_kept_in_currency_order() {
    let (mut a, mut b) = pair();
    let mt = send(&mut a, &b.pk.clone(), vec![b"ZZZ".to_vec(), b"AAA".to_vec(), b"MMM".to_vec()], vec![]);
    assert!(matches!(receive(&mut b, &a.pk.clone(), &mt), ReceiveMoveTokenOutput::Received(_)));
    let mt = send(&mut b, &a.pk.clone(), vec![b"MMM".to_vec(), b"ZZZ".to_vec(), b"AAA".to_vec()], vec![]);
    assert!(matches!(receive(&mut a, &b.pk.clone(), &mt), ReceiveMoveTokenOutput::Received(_)));
    let order: Vec<Vec<u8>> = a.tc.ledger.credits.iter().map(|e| e.currency.clone()).collect();
    assert_eq!(order, vec![b"AAA".to_vec(), b"MMM".to_vec(), b"ZZZ".to_vec()]);
    let order: Vec<Vec<u8>> = b.tc.ledger.credits.iter().map(|e| e.currency.clone()).collect();
    assert_eq!(order, vec![b"AAA".to_vec(), b"MMM".to_vec(), b"ZZZ".to_vec()]);
}

#[test]
fn incoming_requests_are_queued_by_route() {
    let a = vec![0xaa; 32];
    let b = vec![0xbb; 32];
    let c = vec![0xcc; 32];
    let friends = vec![(a.clone(), TokenChannel::new(&b, &a)), (c.clone(), TokenChannel::new(&b, &c))];
    let mut queues = vec![FriendQueues::new(), FriendQueues::new()];
    // From A, on to C: C's forwarded requests.
    let r = dispatch_request(&friends, &mut queues, 0, &b, fst(), request(1, vec![a.clone(), b.clone(), c.clone()]));
    assert_eq!(r, RequestDispatch::Forwarded(1));
    assert_eq!(queues[1].pending_requests.len(), 1);
    // From A, on to D who is no friend: a cancel back to A.
    let r = dispatch_request(&friends, &mut queues, 0, &b, fst(), request(2, vec![a.clone(), b.clone(), vec![0xdd; 32]]));
    assert_eq!(r, RequestDispatch::Cancelled);
    assert_eq!(queues[0].pending_backwards.len(), 1);
    // From A, to us: nothing queued.
    let r = dispatch_request(&friends, &mut queues, 0, &b, fst(), request(3, vec![a.clone(), b.clone()]));
    assert_eq!(r, RequestDispatch::Local);
    assert_eq!(queues[0].pending_backwards.len(), 1);
    assert_eq!(queues[1].pending_requests.len(), 1);
}
