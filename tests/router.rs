use offset_funder::router::{
    calc_recv_capacity, collect_currencies_operations, collect_outgoing_move_token,
    collect_outgoing_move_token_allow_empty, collect_outgoing_pre_move_token,
    currencies_diff, is_pending_move_token, BackwardsOp, FriendQueues, IndexMutation,
};
use offset_funder::token_channel::{OutMoveToken, TcStatus, TokenChannel};
use offset_funder::types::{McCancel, McOp, McRequest};

use ring::signature::{Ed25519KeyPair, KeyPair};

fn req(id: u8) -> McRequest {
    McRequest {
        request_id: vec![id; 16],
        src_hashed_lock: vec![0u8; 32],
        route: vec![vec![0xaa; 32], vec![0xbb; 32]],
        dest_payment: 10,
        total_dest_payment: 10,
        invoice_hash: vec![0u8; 32],
        left_fees: 5,
    }
}

fn cancel(id: u8) -> BackwardsOp {
    BackwardsOp::Cancel(McCancel { request_id: vec![id; 16] })
}

fn id_of(op: &McOp) -> u8 {
    match op {
        McOp::Request(r) => r.request_id[0],
        McOp::Response(p) => p.request_id[0],
        McOp::Cancel(c) => c.request_id[0],
    }
}

fn queues() -> FriendQueues {
    let mut q = FriendQueues::new();
    q.pending_requests.push((b"FST".to_vec(), req(5)));
    q.pending_user_requests.push((b"FST".to_vec(), req(3)));
    q.pending_user_requests.push((b"FST".to_vec(), req(4)));
    q.pending_backwards.push((b"FST".to_vec(), cancel(1)));
    q.pending_backwards.push((b"FST".to_vec(), cancel(2)));
    q
}

#[test]
fn backwards_first_then_user_then_forwarded() {
    let mut q = queues();
    let ops = collect_currencies_operations(&q, 100);
    let ids: Vec<u8> = ops.iter().map(|(_, op)| id_of(op)).collect();
    assert_eq!(ids, vec![1, 2, 3, 4, 5]);
    // Collecting takes nothing off the queues.
    assert_eq!(q.pending_backwards.len(), 2);
    q.drop_front(5);
    assert!(q.is_empty());
}

#[test]
fn batch_stops_at_the_cap() {
    let mut q = queues();
    let ops = collect_currencies_operations(&q, 3);
    let ids: Vec<u8> = ops.iter().map(|(_, op)| id_of(op)).collect();
    assert_eq!(ids, vec![1, 2, 3]);
    q.drop_front(3);
    assert!(q.pending_backwards.is_empty());
    assert_eq!(q.pending_user_requests.len(), 1);
    assert_eq!(q.pending_requests.len(), 1);
    let q2 = queues();
    assert!(collect_currencies_operations(&q2, 0).is_empty());
}

#[test]
fn nothing_to_send_gives_none() {
    let q = FriendQueues::new();
    assert!(collect_outgoing_pre_move_token(&q, vec![], 10).is_none());
    assert!(!is_pending_move_token(&q, &vec![]));
    assert!(is_pending_move_token(&q, &vec![b"FST".to_vec()]));
}

#[test]
fn token_wanted_when_more_is_pending() {
    let q = queues();
    let pre = collect_outgoing_pre_move_token(&q, vec![], 2).unwrap();
    assert!(pre.token_wanted);
    assert_eq!(pre.pre_move_token.currencies_operations.len(), 2);
    let pre = collect_outgoing_pre_move_token(&q, vec![], 10).unwrap();
    assert!(!pre.token_wanted);
    assert_eq!(pre.pre_move_token.currencies_operations.len(), 5);
}

#[test]
fn diff_is_the_symmetric_difference() {
    let desired = vec![b"A".to_vec(), b"B".to_vec()];
    let advertised = vec![b"B".to_vec(), b"C".to_vec()];
    assert_eq!(currencies_diff(&desired, &advertised), vec![b"A".to_vec(), b"C".to_vec()]);
    assert!(currencies_diff(&desired, &desired).is_empty());
}

#[test]
fn recv_capacity_values() {
    assert_eq!(calc_recv_capacity(100, 20, 30), 50);
    assert_eq!(calc_recv_capacity(100, 80, 30), 0);
    assert_eq!(calc_recv_capacity(100, -20, 30), 90);
    assert_eq!(calc_recv_capacity(u128::MAX, -1, 0), u128::MAX);
    assert_eq!(calc_recv_capacity(0, i128::MIN, 0), 1u128 << 127);
}

#[test]
fn outgoing_move_token_reports_capacity_changes() {
    let k1 = Ed25519KeyPair::from_seed_unchecked(&[1u8; 32]).unwrap();
    let k2 = Ed25519KeyPair::from_seed_unchecked(&[2u8; 32]).unwrap();
    let pk1 = k1.public_key().as_ref().to_vec();
    let pk2 = k2.public_key().as_ref().to_vec();
    let tc1 = TokenChannel::new(&pk1, &pk2);
    let (mut tc, local, remote, key) = if matches!(tc1.status, TcStatus::ConsistentIn(_)) {
        (tc1, pk1, pk2, k1)
    } else {
        (TokenChannel::new(&pk2, &pk1), pk2, pk1, k2)
    };
    // Give the channel an FST credit on both sides directly.
    tc.ledger.local_currencies.push(b"FST".to_vec());
    let mut out = OutMoveToken::new(&tc);
    out.ledger.remote_currencies.push(b"FST".to_vec());
    tc.ledger.remote_currencies.push(b"FST".to_vec());
    drop(out);
    tc.ledger.credits.push(offset_funder::token_channel::CurrencyCredit {
        currency: b"FST".to_vec(),
        remote_max_debt: 100,
        rate: offset_funder::token_channel::Rate { mul: 3, add: 1 },
        mutual_credit: offset_funder::mutual_credit::MutualCredit::new(0),
    });
    // The friend sent us a request of 15, which we now cancel.
    tc.ledger.credits[0].mutual_credit.process_request(req(9), 100).unwrap();
    let mut q = FriendQueues::new();
    q.pending_backwards.push((b"FST".to_vec(), cancel(9)));
    let (pending, cancelled, mutations, wanted) =
        collect_outgoing_move_token(&tc, &mut q, vec![], 10, 1000, &local, &remote).unwrap().unwrap();
    assert!(cancelled.is_empty());
    assert!(!wanted);
    assert_eq!(mutations.len(), 1);
    match &mutations[0] {
        IndexMutation::UpdateFriendCurrency { public_key, currency, recv_capacity, rate } => {
            assert_eq!(public_key, &remote);
            assert_eq!(currency, &b"FST".to_vec());
            assert_eq!(*recv_capacity, 100);
            assert_eq!(*rate, offset_funder::token_channel::Rate { mul: 3, add: 1 });
        },
        other => panic!("unexpected {:?}", other),
    }
    let signature = key.sign(&pending.signature_buff()).as_ref().to_vec();
    let (tc2, mt) = pending.sign(signature);
    assert_eq!(mt.currencies_operations.len(), 1);
    assert_eq!(tc2.get_move_token_counter(), 1);
    assert!(matches!(tc2.status, TcStatus::ConsistentOut(..)));
}

#[test]
fn empty_move_token_when_allowed() {
    let k1 = Ed25519KeyPair::from_seed_unchecked(&[1u8; 32]).unwrap();
    let k2 = Ed25519KeyPair::from_seed_unchecked(&[2u8; 32]).unwrap();
    let pk1 = k1.public_key().as_ref().to_vec();
    let pk2 = k2.public_key().as_ref().to_vec();
    let tc1 = TokenChannel::new(&pk1, &pk2);
    let (tc, local, remote) = if matches!(tc1.status, TcStatus::ConsistentIn(_)) {
        (tc1, pk1, pk2)
    } else {
        (TokenChannel::new(&pk2, &pk1), pk2, pk1)
    };
    let mut q = FriendQueues::new();
    assert!(collect_outgoing_move_token(&tc, &mut q, vec![], 10, 0, &local, &remote).unwrap().is_none());
    let (pending, cancelled, wanted) =
        collect_outgoing_move_token_allow_empty(&tc, &mut q, vec![], 10, 0, &local, &remote).unwrap();
    assert!(cancelled.is_empty());
    assert!(!wanted);
    assert!(pending.move_token().currencies_operations.is_empty());
    assert_eq!(pending.move_token_counter, 1);
}

#[test]
fn withdrawal_of_a_currency_in_use_waits() {
    let k1 = Ed25519KeyPair::from_seed_unchecked(&[1u8; 32]).unwrap();
    let k2 = Ed25519KeyPair::from_seed_unchecked(&[2u8; 32]).unwrap();
    let pk1 = k1.public_key().as_ref().to_vec();
    let pk2 = k2.public_key().as_ref().to_vec();
    let tc1 = TokenChannel::new(&pk1, &pk2);
    let (mut tc, local, remote) = if matches!(tc1.status, TcStatus::ConsistentIn(_)) {
        (tc1, pk1, pk2)
    } else {
        (TokenChannel::new(&pk2, &pk1), pk2, pk1)
    };
    tc.ledger.local_currencies.push(b"FST".to_vec());
    tc.ledger.remote_currencies.push(b"FST".to_vec());
    let mut mc = offset_funder::mutual_credit::MutualCredit::new(0);
    mc.balance.balance = 7;
    tc.ledger.credits.push(offset_funder::token_channel::CurrencyCredit {
        currency: b"FST".to_vec(),
        remote_max_debt: 0,
        rate: offset_funder::token_channel::Rate { mul: 0, add: 0 },
        mutual_credit: mc,
    });
    let mut q = FriendQueues::new();
    let (pending, _, _, _) =
        collect_outgoing_move_token(&tc, &mut q, vec![b"FST".to_vec()], 10, 0, &local, &remote).unwrap().unwrap();
    assert!(pending.move_token().currencies_diff.is_empty());
    assert_eq!(pending.ledger.local_currencies, vec![b"FST".to_vec()]);

    // Once the credit is back to zero, the same wish withdraws the currency.
    tc.ledger.credits[0].mutual_credit.balance.balance = 0;
    let diff = currencies_diff(&vec![], &tc.ledger.local_currencies);
    let (pending, _, _, _) =
        collect_outgoing_move_token(&tc, &mut q, diff, 10, 0, &local, &remote).unwrap().unwrap();
    assert_eq!(pending.move_token().currencies_diff, vec![b"FST".to_vec()]);
    assert!(pending.ledger.local_currencies.is_empty());
    assert!(pending.ledger.credits.is_empty());
}

#[test]
fn refused_batch_keeps_the_queues() {
    let k1 = Ed25519KeyPair::from_seed_unchecked(&[1u8; 32]).unwrap();
    let k2 = Ed25519KeyPair::from_seed_unchecked(&[2u8; 32]).unwrap();
    let pk1 = k1.public_key().as_ref().to_vec();
    let pk2 = k2.public_key().as_ref().to_vec();
    let tc1 = TokenChannel::new(&pk1, &pk2);
    // The side that waits for the friend cannot send.
    let (tc, local, remote) = if matches!(tc1.status, TcStatus::ConsistentOut(..)) {
        (tc1, pk1, pk2)
    } else {
        (TokenChannel::new(&pk2, &pk1), pk2, pk1)
    };
    let mut q = queues();
    assert!(collect_outgoing_move_token(&tc, &mut q, vec![], 3, 0, &local, &remote).is_err());
    assert_eq!(q.pending_backwards.len(), 2);
    assert_eq!(q.pending_user_requests.len(), 2);
    assert_eq!(q.pending_requests.len(), 1);
    assert!(collect_outgoing_move_token_allow_empty(&tc, &mut q, vec![], 3, 0, &local, &remote).is_err());
    assert_eq!(q.pending_backwards.len(), 2);
}
