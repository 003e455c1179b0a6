//! The canonical byte encoding that both friends hash and sign. Every field
//! is written in a fixed order; integers big-endian, byte strings and lists
//! with an eight-byte length in front.
use vstd::prelude::*;

use crate::crypto::{hash_buffer, sha512_256_of};
use crate::types::{
    bytes_list_view, ops_view, Currency, FriendTcOp, HashResult, McBalance, McOp, McOpV, McRequest,
    McRequestV, McResponse, McResponseV, MoveToken, MoveTokenV, PublicKey, TokenInfo, TokenInfoV,
};

verus! {

/// The `n` lowest bytes of `x`, most significant first.
pub open spec fn be_bytes(x: nat, n: nat) -> Seq<u8>
    decreases n,
{
    if n == 0 {
        Seq::empty()
    } else {
        be_bytes(x / 256, (n - 1) as nat).push((x % 256) as u8)
    }
}

pub open spec fn enc_u128(x: u128) -> Seq<u8> {
    be_bytes(x as nat, 16)
}

pub open spec fn enc_len(n: nat) -> Seq<u8> {
    be_bytes(n, 8)
}

pub open spec fn enc_bytes(b: Seq<u8>) -> Seq<u8> {
    enc_len(b.len()) + b
}

pub open spec fn enc_bytes_items(s: Seq<Seq<u8>>) -> Seq<u8>
    decreases s.len(),
{
    if s.len() == 0 {
        Seq::empty()
    } else {
        enc_bytes_items(s.drop_last()) + enc_bytes(s.last())
    }
}

pub open spec fn enc_bytes_list(s: Seq<Seq<u8>>) -> Seq<u8> {
    enc_len(s.len()) + enc_bytes_items(s)
}

pub open spec fn enc_request(r: McRequestV) -> Seq<u8> {
    enc_bytes(r.request_id) + enc_bytes(r.src_hashed_lock) + enc_bytes_list(r.route) + enc_u128(
        r.dest_payment,
    ) + enc_u128(r.total_dest_payment) + enc_bytes(r.invoice_hash) + enc_u128(r.left_fees)
}

pub open spec fn enc_response(p: McResponseV) -> Seq<u8> {
    enc_bytes(p.request_id) + enc_bytes(p.src_plain_lock) + enc_u128(p.serial_num) + enc_bytes(
        p.signature,
    )
}

pub open spec fn enc_op(op: McOpV) -> Seq<u8> {
    match op {
        McOpV::Request(r) => seq![0u8] + enc_request(r),
        McOpV::Response(p) => seq![1u8] + enc_response(p),
        McOpV::Cancel(id) => seq![2u8] + enc_bytes(id),
    }
}

pub open spec fn enc_op_items(s: Seq<(Seq<u8>, McOpV)>) -> Seq<u8>
    decreases s.len(),
{
    if s.len() == 0 {
        Seq::empty()
    } else {
        enc_op_items(s.drop_last()) + enc_bytes(s.last().0) + enc_op(s.last().1)
    }
}

pub open spec fn enc_ops(s: Seq<(Seq<u8>, McOpV)>) -> Seq<u8> {
    enc_len(s.len()) + enc_op_items(s)
}

/// Everything of a move token but its new token.
pub open spec fn enc_move_token_prefix(mt: MoveTokenV) -> Seq<u8> {
    enc_bytes(mt.old_token) + enc_ops(mt.currencies_operations) + enc_bytes_list(
        mt.currencies_diff,
    ) + enc_bytes(mt.info_hash)
}

/// What the sender of a move token signs to produce its new token.
pub open spec fn move_token_signature_buff_of(mt: MoveTokenV) -> Seq<u8> {
    seq![1u8] + enc_move_token_prefix(mt)
}

/// What a side signs to offer reset terms at a given counter.
pub open spec fn reset_token_signature_buff_of(
    local_public_key: Seq<u8>,
    remote_public_key: Seq<u8>,
    move_token_counter: u128,
) -> Seq<u8> {
    seq![2u8] + enc_bytes(local_public_key) + enc_bytes(remote_public_key) + enc_u128(
        move_token_counter,
    )
}

/// What the destination of a request signs in its response.
pub open spec fn response_signature_buff_of(
    currency: Seq<u8>,
    r: McRequestV,
    p: McResponseV,
) -> Seq<u8> {
    seq![3u8] + enc_bytes(currency) + enc_bytes(p.request_id) + enc_bytes(r.src_hashed_lock)
        + enc_u128(p.serial_num) + enc_u128(r.dest_payment) + enc_u128(r.total_dest_payment)
        + enc_bytes(r.invoice_hash)
}

pub open spec fn enc_balance(b: McBalance) -> Seq<u8> {
    enc_u128(b.balance as u128) + enc_u128(b.local_pending_debt) + enc_u128(b.remote_pending_debt)
        + enc_u128(b.in_fees) + enc_u128(b.out_fees)
}

/// The bytes hashed into a balances hash: for each currency, in order, the
/// hash of its tag and its balance.
pub open spec fn balances_bytes(s: Seq<(Seq<u8>, McBalance)>) -> Seq<u8>
    decreases s.len(),
{
    if s.len() == 0 {
        Seq::empty()
    } else {
        balances_bytes(s.drop_last()) + sha512_256_of(s.last().0) + enc_balance(s.last().1)
    }
}

/// The hash that binds a list of balances.
pub open spec fn balances_hash_of(s: Seq<(Seq<u8>, McBalance)>) -> Seq<u8> {
    sha512_256_of(balances_bytes(s))
}

/// The bytes hashed into the info hash of a move token.
pub open spec fn token_info_bytes(sender: Seq<u8>, receiver: Seq<u8>, info: TokenInfoV) -> Seq<u8> {
    enc_bytes(sender) + enc_bytes(receiver) + enc_bytes(info.balances_hash) + enc_u128(
        info.move_token_counter,
    )
}

/// The info hash of a move token, from its sender to its receiver.
pub open spec fn info_hash_of(sender: Seq<u8>, receiver: Seq<u8>, info: TokenInfoV) -> Seq<u8> {
    sha512_256_of(token_info_bytes(sender, receiver, info))
}

/// The hash of everything of a move token but its new token.
pub open spec fn prefix_hash_of(mt: MoveTokenV) -> Seq<u8> {
    sha512_256_of(enc_move_token_prefix(mt))
}

// ---------------------------------------------------------------------------
// Writers
// ---------------------------------------------------------------------------

fn push_be(out: &mut Vec<u8>, x: u128, n: usize)
    ensures
        final(out)@ == old(out)@ + be_bytes(x as nat, n as nat),
    decreases n,
{
    if n == 0 {
        assert(old(out)@ + be_bytes(x as nat, 0) =~= old(out)@);
    } else {
        push_be(out, x / 256, n - 1);
        out.push((x % 256) as u8);
        assert(final(out)@ =~= old(out)@ + be_bytes(x as nat, n as nat));
    }
}

pub fn write_u128(out: &mut Vec<u8>, x: u128)
    ensures
        final(out)@ == old(out)@ + enc_u128(x),
{
    push_be(out, x, 16);
}

fn write_len(out: &mut Vec<u8>, n: usize)
    ensures
        final(out)@ == old(out)@ + enc_len(n as nat),
{
    push_be(out, n as u128, 8);
}

pub fn write_bytes(out: &mut Vec<u8>, b: &Vec<u8>)
    ensures
        final(out)@ == old(out)@ + enc_bytes(b@),
{
    write_len(out, b.len());
    let ghost mid = out@;
    out.extend_from_slice(b.as_slice());
    assert(out@ =~= mid + b@);
    assert(out@ =~= old(out)@ + enc_bytes(b@));
}

pub fn write_bytes_list(out: &mut Vec<u8>, v: &Vec<Vec<u8>>)
    ensures
        final(out)@ == old(out)@ + enc_bytes_list(bytes_list_view(v@)),
{
    write_len(out, v.len());
    let ghost start = out@;
    let mut i: usize = 0;
    while i < v.len()
        invariant
            i <= v.len(),
            out@ == start + enc_bytes_items(bytes_list_view(v@.take(i as int))),
        decreases v.len() - i,
    {
        write_bytes(out, &v[i]);
        proof {
            let s = bytes_list_view(v@.take(i + 1));
            assert(s.drop_last() =~= bytes_list_view(v@.take(i as int)));
            assert(s.last() == v@[i as int]@);
        }
        i = i + 1;
        assert(out@ =~= start + enc_bytes_items(bytes_list_view(v@.take(i as int))));
    }
    assert(v@.take(i as int) =~= v@);
    assert(bytes_list_view(v@).len() == v@.len());
    assert(out@ =~= old(out)@ + enc_bytes_list(bytes_list_view(v@)));
}

fn write_request(out: &mut Vec<u8>, r: &McRequest)
    ensures
        final(out)@ == old(out)@ + enc_request(r@),
{
    write_bytes(out, &r.request_id);
    write_bytes(out, &r.src_hashed_lock);
    write_bytes_list(out, &r.route);
    write_u128(out, r.dest_payment);
    write_u128(out, r.total_dest_payment);
    write_bytes(out, &r.invoice_hash);
    write_u128(out, r.left_fees);
    assert(out@ =~= old(out)@ + enc_request(r@));
}

fn write_response(out: &mut Vec<u8>, p: &McResponse)
    ensures
        final(out)@ == old(out)@ + enc_response(p@),
{
    write_bytes(out, &p.request_id);
    write_bytes(out, &p.src_plain_lock);
    write_u128(out, p.serial_num);
    write_bytes(out, &p.signature);
    assert(out@ =~= old(out)@ + enc_response(p@));
}

fn write_op(out: &mut Vec<u8>, op: &McOp)
    ensures
        final(out)@ == old(out)@ + enc_op(op@),
{
    match op {
        McOp::Request(r) => {
            out.push(0u8);
            write_request(out, r);
        },
        McOp::Response(p) => {
            out.push(1u8);
            write_response(out, p);
        },
        McOp::Cancel(c) => {
            out.push(2u8);
            write_bytes(out, &c.request_id);
        },
    }
    assert(out@ =~= old(out)@ + enc_op(op@));
}

fn write_ops(out: &mut Vec<u8>, v: &Vec<(Currency, FriendTcOp)>)
    ensures
        final(out)@ == old(out)@ + enc_ops(ops_view(v@)),
{
    write_len(out, v.len());
    let ghost start = out@;
    let mut i: usize = 0;
    while i < v.len()
        invariant
            i <= v.len(),
            out@ == start + enc_op_items(ops_view(v@.take(i as int))),
        decreases v.len() - i,
    {
        write_bytes(out, &v[i].0);
        write_op(out, &v[i].1);
        proof {
            let s = ops_view(v@.take(i + 1));
            assert(s.drop_last() =~= ops_view(v@.take(i as int)));
            assert(s.last() == (v@[i as int].0@, v@[i as int].1@));
        }
        i = i + 1;
        assert(out@ =~= start + enc_op_items(ops_view(v@.take(i as int))));
    }
    assert(v@.take(i as int) =~= v@);
    assert(ops_view(v@).len() == v@.len());
    assert(out@ =~= old(out)@ + enc_ops(ops_view(v@)));
}

fn write_move_token_prefix(out: &mut Vec<u8>, mt: &MoveToken)
    ensures
        final(out)@ == old(out)@ + enc_move_token_prefix(mt@),
{
    write_bytes(out, &mt.old_token);
    write_ops(out, &mt.currencies_operations);
    write_bytes_list(out, &mt.currencies_diff);
    write_bytes(out, &mt.info_hash);
    assert(out@ =~= old(out)@ + enc_move_token_prefix(mt@));
}

/// The bytes that the sender of a move token signs.
pub fn move_token_signature_buff(mt: &MoveToken) -> (r: Vec<u8>)
    ensures
        r@ == move_token_signature_buff_of(mt@),
{
    let mut out: Vec<u8> = Vec::new();
    out.push(1u8);
    write_move_token_prefix(&mut out, mt);
    assert(out@ =~= move_token_signature_buff_of(mt@));
    out
}

/// The bytes that a side signs to offer reset terms at `move_token_counter`.
pub fn reset_token_signature_buff(
    local_public_key: &PublicKey,
    remote_public_key: &PublicKey,
    move_token_counter: u128,
) -> (r: Vec<u8>)
    ensures
        r@ == reset_token_signature_buff_of(
            local_public_key@,
            remote_public_key@,
            move_token_counter,
        ),
{
    let mut out: Vec<u8> = Vec::new();
    out.push(2u8);
    write_bytes(&mut out, local_public_key);
    write_bytes(&mut out, remote_public_key);
    write_u128(&mut out, move_token_counter);
    assert(out@ =~= reset_token_signature_buff_of(
        local_public_key@,
        remote_public_key@,
        move_token_counter,
    ));
    out
}

/// The bytes that the destination of a request signs in its response.
pub fn response_signature_buff(currency: &Currency, r: &McRequest, p: &McResponse) -> (out: Vec<
    u8,
>)
    ensures
        out@ == response_signature_buff_of(currency@, r@, p@),
{
    let mut out: Vec<u8> = Vec::new();
    out.push(3u8);
    write_bytes(&mut out, currency);
    write_bytes(&mut out, &p.request_id);
    write_bytes(&mut out, &r.src_hashed_lock);
    write_u128(&mut out, p.serial_num);
    write_u128(&mut out, r.dest_payment);
    write_u128(&mut out, r.total_dest_payment);
    write_bytes(&mut out, &r.invoice_hash);
    assert(out@ =~= response_signature_buff_of(currency@, r@, p@));
    out
}

fn write_balance(out: &mut Vec<u8>, b: &McBalance)
    ensures
        final(out)@ == old(out)@ + enc_balance(*b),
{
    write_u128(out, b.balance as u128);
    write_u128(out, b.local_pending_debt);
    write_u128(out, b.remote_pending_debt);
    write_u128(out, b.in_fees);
    write_u128(out, b.out_fees);
    assert(out@ =~= old(out)@ + enc_balance(*b));
}

/// The hash that binds a list of balances, each beside its currency.
pub fn hash_balances(v: &Vec<(Currency, McBalance)>) -> (r: HashResult)
    ensures
        r@ == balances_hash_of(v@.map_values(|p: (Currency, McBalance)| (p.0@, p.1))),
{
    let ghost sv = v@.map_values(|p: (Currency, McBalance)| (p.0@, p.1));
    let mut out: Vec<u8> = Vec::new();
    let mut i: usize = 0;
    while i < v.len()
        invariant
            i <= v.len(),
            sv == v@.map_values(|p: (Currency, McBalance)| (p.0@, p.1)),
            out@ == balances_bytes(sv.take(i as int)),
        decreases v.len() - i,
    {
        let h = hash_buffer(v[i].0.as_slice());
        out.extend_from_slice(h.as_slice());
        write_balance(&mut out, &v[i].1);
        proof {
            let s = sv.take(i + 1);
            assert(s.drop_last() =~= sv.take(i as int));
            assert(s.last() == (v@[i as int].0@, v@[i as int].1));
        }
        i = i + 1;
        assert(out@ =~= balances_bytes(sv.take(i as int)));
    }
    assert(sv.take(i as int) =~= sv);
    hash_buffer(out.as_slice())
}

/// The info hash of a move token, from `sender` to `receiver`.
pub fn hash_token_info(sender: &PublicKey, receiver: &PublicKey, info: &TokenInfo) -> (r: HashResult)
    ensures
        r@ == info_hash_of(sender@, receiver@, info@),
{
    let mut out: Vec<u8> = Vec::new();
    write_bytes(&mut out, sender);
    write_bytes(&mut out, receiver);
    write_bytes(&mut out, &info.balances_hash);
    write_u128(&mut out, info.move_token_counter);
    assert(out@ =~= token_info_bytes(sender@, receiver@, info@));
    hash_buffer(out.as_slice())
}

/// The hash of everything of a move token but its new token.
pub fn hash_move_token_prefix(mt: &MoveToken) -> (r: HashResult)
    ensures
        r@ == prefix_hash_of(mt@),
{
    let mut out: Vec<u8> = Vec::new();
    write_move_token_prefix(&mut out, mt);
    assert(out@ =~= enc_move_token_prefix(mt@));
    hash_buffer(out.as_slice())
}

} // verus!
