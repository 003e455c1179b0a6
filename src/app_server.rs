//! The messages that an application sends to its node, and their byte form:
//! a tag byte, then the fields in the canonical encoding, and nothing after.
use vstd::prelude::*;

use crate::encode::{
    be_bytes, enc_bytes, enc_bytes_items, enc_bytes_list, enc_len, enc_u128, write_bytes,
    write_bytes_list, write_u128,
};
use crate::types::{bytes_list_view, PublicKey, Signature, Uid};

verus! {

/// A request of the application to the node.
#[derive(Clone, Debug)]
pub enum AppToAppServer {
    /// Send funds along a route.
    UserRequestSendFunds { request_id: Uid, route: Vec<PublicKey>, dest_payment: u128, invoice_id: Vec<u8> },
    /// Acknowledge a receipt.
    ReceiptAck { request_id: Uid, receipt_signature: Signature },
    /// Rename a friend.
    SetFriendName { friend_public_key: PublicKey, name: Vec<u8> },
    /// Change the credit limit granted to a friend.
    SetFriendRemoteMaxDebt { friend_public_key: PublicKey, remote_max_debt: u128 },
    /// Accept a friend's reset terms.
    ResetFriendChannel { friend_public_key: PublicKey, reset_token: Signature },
}

pub enum AppToAppServerV {
    UserRequestSendFunds(Seq<u8>, Seq<Seq<u8>>, u128, Seq<u8>),
    ReceiptAck(Seq<u8>, Seq<u8>),
    SetFriendName(Seq<u8>, Seq<u8>),
    SetFriendRemoteMaxDebt(Seq<u8>, u128),
    ResetFriendChannel(Seq<u8>, Seq<u8>),
}

impl View for AppToAppServer {
    type V = AppToAppServerV;

    open spec fn view(&self) -> AppToAppServerV {
        match self {
            AppToAppServer::UserRequestSendFunds { request_id, route, dest_payment, invoice_id } =>
                AppToAppServerV::UserRequestSendFunds(
                request_id@,
                bytes_list_view(route@),
                *dest_payment,
                invoice_id@,
            ),
            AppToAppServer::ReceiptAck { request_id, receipt_signature } =>
                AppToAppServerV::ReceiptAck(request_id@, receipt_signature@),
            AppToAppServer::SetFriendName { friend_public_key, name } =>
                AppToAppServerV::SetFriendName(friend_public_key@, name@),
            AppToAppServer::SetFriendRemoteMaxDebt { friend_public_key, remote_max_debt } =>
                AppToAppServerV::SetFriendRemoteMaxDebt(friend_public_key@, *remote_max_debt),
            AppToAppServer::ResetFriendChannel { friend_public_key, reset_token } =>
                AppToAppServerV::ResetFriendChannel(friend_public_key@, reset_token@),
        }
    }
}

/// Why bytes could not be read as a message.
#[derive(Clone, Copy, Debug, PartialEq, Eq, Structural)]
pub enum SerializeError {
    /// The bytes are not the encoding of any message.
    Malformed,
}

/// The byte form of a message.
pub open spec fn enc_app_to_app_server(m: AppToAppServerV) -> Seq<u8> {
    match m {
        AppToAppServerV::UserRequestSendFunds(id, route, dest, invoice) => seq![0u8] + enc_bytes(id)
            + enc_bytes_list(route) + enc_u128(dest) + enc_bytes(invoice),
        AppToAppServerV::ReceiptAck(id, sig) => seq![1u8] + enc_bytes(id) + enc_bytes(sig),
        AppToAppServerV::SetFriendName(pk, name) => seq![2u8] + enc_bytes(pk) + enc_bytes(name),
        AppToAppServerV::SetFriendRemoteMaxDebt(pk, v) => seq![3u8] + enc_bytes(pk) + enc_u128(v),
        AppToAppServerV::ResetFriendChannel(pk, tok) => seq![4u8] + enc_bytes(pk) + enc_bytes(tok),
    }
}

// ---------------------------------------------------------------------------
// Reading
// ---------------------------------------------------------------------------

pub open spec fn pow256(n: nat) -> nat
    decreases n,
{
    if n == 0 {
        1
    } else {
        256 * pow256((n - 1) as nat)
    }
}

/// The number that bytes stand for, most significant first.
pub open spec fn be_value(s: Seq<u8>) -> nat
    decreases s.len(),
{
    if s.len() == 0 {
        0
    } else {
        (be_value(s.drop_last()) * 256 + s.last()) as nat
    }
}

pub open spec fn read_u128_of(d: Seq<u8>, p: int) -> Option<(u128, int)> {
    if 0 <= p && p + 16 <= d.len() {
        Some((be_value(d.subrange(p, p + 16)) as u128, p + 16))
    } else {
        None
    }
}

pub open spec fn read_len_of(d: Seq<u8>, p: int) -> Option<(nat, int)> {
    if 0 <= p && p + 8 <= d.len() {
        Some((be_value(d.subrange(p, p + 8)), p + 8))
    } else {
        None
    }
}

pub open spec fn read_bytes_of(d: Seq<u8>, p: int) -> Option<(Seq<u8>, int)> {
    match read_len_of(d, p) {
        Some((n, q)) => if q + n <= d.len() {
            Some((d.subrange(q, q + n), q + n))
        } else {
            None
        },
        None => None,
    }
}

pub open spec fn read_bytes_items_of(d: Seq<u8>, p: int, n: nat) -> Option<(Seq<Seq<u8>>, int)>
    decreases n,
{
    if n == 0 {
        Some((Seq::empty(), p))
    } else {
        match read_bytes_items_of(d, p, (n - 1) as nat) {
            Some((s, q)) => match read_bytes_of(d, q) {
                Some((b, r)) => Some((s.push(b), r)),
                None => None,
            },
            None => None,
        }
    }
}

pub open spec fn read_bytes_list_of(d: Seq<u8>, p: int) -> Option<(Seq<Seq<u8>>, int)> {
    match read_len_of(d, p) {
        Some((n, q)) => read_bytes_items_of(d, q, n),
        None => None,
    }
}

/// The message that bytes encode, if any: every field must be there and
/// nothing may follow the last one.
pub open spec fn parse_app_to_app_server(d: Seq<u8>) -> Option<AppToAppServerV> {
    if d.len() == 0 {
        None
    } else if d[0] == 0 {
        match read_bytes_of(d, 1) {
            Some((id, k1)) => match read_bytes_list_of(d, k1) {
                Some((route, k2)) => match read_u128_of(d, k2) {
                    Some((dest, k3)) => match read_bytes_of(d, k3) {
                        Some((invoice, k4)) => if k4 == d.len() {
                            Some(AppToAppServerV::UserRequestSendFunds(id, route, dest, invoice))
                        } else {
                            None
                        },
                        None => None,
                    },
                    None => None,
                },
                None => None,
            },
            None => None,
        }
    } else if d[0] == 1 || d[0] == 2 || d[0] == 4 {
        match read_bytes_of(d, 1) {
            Some((a, k1)) => match read_bytes_of(d, k1) {
                Some((b, k2)) => if k2 == d.len() {
                    Some(
                        if d[0] == 1 {
                            AppToAppServerV::ReceiptAck(a, b)
                        } else if d[0] == 2 {
                            AppToAppServerV::SetFriendName(a, b)
                        } else {
                            AppToAppServerV::ResetFriendChannel(a, b)
                        },
                    )
                } else {
                    None
                },
                None => None,
            },
            None => None,
        }
    } else if d[0] == 3 {
        match read_bytes_of(d, 1) {
            Some((pk, k1)) => match read_u128_of(d, k1) {
                Some((v, k2)) => if k2 == d.len() {
                    Some(AppToAppServerV::SetFriendRemoteMaxDebt(pk, v))
                } else {
                    None
                },
                None => None,
            },
            None => None,
        }
    } else {
        None
    }
}

// ---------------------------------------------------------------------------
// Lemmas
// ---------------------------------------------------------------------------

proof fn lemma_pow256_pos(n: nat)
    ensures
        pow256(n) > 0,
    decreases n,
{
    if n > 0 {
        lemma_pow256_pos((n - 1) as nat);
    }
}

proof fn lemma_be_value_bound(s: Seq<u8>)
    ensures
        be_value(s) < pow256(s.len()),
    decreases s.len(),
{
    if s.len() > 0 {
        lemma_be_value_bound(s.drop_last());
        let v = be_value(s.drop_last());
        let p = pow256(s.drop_last().len());
        assert(v * 256 + s.last() < p * 256) by (nonlinear_arith)
            requires
                v < p,
                s.last() < 256,
        ;
    }
}

proof fn lemma_be_round_trip(x: nat, n: nat)
    ensures
        be_bytes(x, n).len() == n,
        be_value(be_bytes(x, n)) == x % pow256(n),
    decreases n,
{
    if n > 0 {
        lemma_be_round_trip(x / 256, (n - 1) as nat);
        lemma_pow256_pos((n - 1) as nat);
        let s = be_bytes(x, n);
        assert(s.drop_last() =~= be_bytes(x / 256, (n - 1) as nat));
        vstd::arithmetic::div_mod::lemma_breakdown(x as int, 256, pow256((n - 1) as nat) as int);
    }
}

proof fn lemma_pow256_16()
    ensures
        pow256(16) == 0x1_0000_0000_0000_0000_0000_0000_0000_0000,
        pow256(8) == 0x1_0000_0000_0000_0000,
{
    reveal_with_fuel(pow256, 17);
}

/// Reading bytes back from where they were written.
proof fn lemma_read_u128(pre: Seq<u8>, x: u128, suf: Seq<u8>)
    ensures
        read_u128_of(pre + enc_u128(x) + suf, pre.len() as int) == Some(
            (x, pre.len() + enc_u128(x).len() as int),
        ),
        enc_u128(x).len() == 16,
{
    lemma_be_round_trip(x as nat, 16);
    lemma_pow256_16();
    let d = pre + enc_u128(x) + suf;
    assert(d.subrange(pre.len() as int, pre.len() + 16int) =~= enc_u128(x));
}

proof fn lemma_read_len(pre: Seq<u8>, n: nat, suf: Seq<u8>)
    requires
        n < 0x1_0000_0000_0000_0000,
    ensures
        read_len_of(pre + enc_len(n) + suf, pre.len() as int) == Some((n, pre.len() + 8int)),
        enc_len(n).len() == 8,
{
    lemma_be_round_trip(n, 8);
    lemma_pow256_16();
    let d = pre + enc_len(n) + suf;
    assert(d.subrange(pre.len() as int, pre.len() + 8int) =~= enc_len(n));
}

proof fn lemma_read_bytes(pre: Seq<u8>, b: Seq<u8>, suf: Seq<u8>)
    requires
        b.len() < 0x1_0000_0000_0000_0000,
    ensures
        read_bytes_of(pre + enc_bytes(b) + suf, pre.len() as int) == Some(
            (b, pre.len() + enc_bytes(b).len() as int),
        ),
        enc_bytes(b).len() == 8 + b.len(),
{
    let d = pre + enc_bytes(b) + suf;
    lemma_read_len(pre, b.len(), b + suf);
    assert(d =~= pre + enc_len(b.len()) + (b + suf));
    assert(d.subrange(pre.len() + 8int, pre.len() + 8int + b.len()) =~= b);
}

pub open spec fn short(s: Seq<Seq<u8>>) -> bool {
    &&& s.len() < 0x1_0000_0000_0000_0000
    &&& forall|i: int| 0 <= i < s.len() ==> (#[trigger] s[i]).len() < 0x1_0000_0000_0000_0000
}

proof fn lemma_read_bytes_items(pre: Seq<u8>, s: Seq<Seq<u8>>, suf: Seq<u8>)
    requires
        short(s),
    ensures
        read_bytes_items_of(pre + enc_bytes_items(s) + suf, pre.len() as int, s.len()) == Some(
            (s, pre.len() + enc_bytes_items(s).len() as int),
        ),
    decreases s.len(),
{
    if s.len() == 0 {
        assert(s =~= Seq::<Seq<u8>>::empty());
    } else {
        let front = s.drop_last();
        let b = s.last();
        assert(short(front)) by {
            assert forall|i: int| 0 <= i < front.len() implies (#[trigger] front[i]).len()
                < 0x1_0000_0000_0000_0000 by {
                assert(front[i] == s[i]);
            }
        }
        assert(b.len() < 0x1_0000_0000_0000_0000) by {
            assert(b == s[s.len() - 1]);
        }
        let d = pre + enc_bytes_items(s) + suf;
        assert(d =~= pre + enc_bytes_items(front) + (enc_bytes(b) + suf));
        lemma_read_bytes_items(pre, front, enc_bytes(b) + suf);
        assert(d =~= (pre + enc_bytes_items(front)) + enc_bytes(b) + suf);
        lemma_read_bytes(pre + enc_bytes_items(front), b, suf);
        assert(front.push(b) =~= s);
    }
}

proof fn lemma_read_bytes_list(pre: Seq<u8>, s: Seq<Seq<u8>>, suf: Seq<u8>)
    requires
        short(s),
    ensures
        read_bytes_list_of(pre + enc_bytes_list(s) + suf, pre.len() as int) == Some(
            (s, pre.len() + enc_bytes_list(s).len() as int),
        ),
{
    let d = pre + enc_bytes_list(s) + suf;
    lemma_read_len(pre, s.len(), enc_bytes_items(s) + suf);
    assert(d =~= pre + enc_len(s.len()) + (enc_bytes_items(s) + suf));
    assert(d =~= (pre + enc_len(s.len())) + enc_bytes_items(s) + suf);
    lemma_read_bytes_items(pre + enc_len(s.len()), s, suf);
}

/// Whether every byte string of a message is short enough for its length to
/// fit the eight bytes in front of it.
pub open spec fn message_fits(m: AppToAppServerV) -> bool {
    match m {
        AppToAppServerV::UserRequestSendFunds(id, route, _, invoice) => id.len()
            < 0x1_0000_0000_0000_0000 && short(route) && invoice.len() < 0x1_0000_0000_0000_0000,
        AppToAppServerV::ReceiptAck(a, b) => a.len() < 0x1_0000_0000_0000_0000 && b.len()
            < 0x1_0000_0000_0000_0000,
        AppToAppServerV::SetFriendName(a, b) => a.len() < 0x1_0000_0000_0000_0000 && b.len()
            < 0x1_0000_0000_0000_0000,
        AppToAppServerV::SetFriendRemoteMaxDebt(a, _) => a.len() < 0x1_0000_0000_0000_0000,
        AppToAppServerV::ResetFriendChannel(a, b) => a.len() < 0x1_0000_0000_0000_0000 && b.len()
            < 0x1_0000_0000_0000_0000,
    }
}

/// Reading the byte form of a message gives the message back.
pub proof fn lemma_app_to_app_server_round_trip(m: AppToAppServerV)
    requires
        message_fits(m),
    ensures
        parse_app_to_app_server(enc_app_to_app_server(m)) == Some(m),
{
    let e = Seq::<u8>::empty();
    match m {
        AppToAppServerV::UserRequestSendFunds(id, route, dest, invoice) => {
            let t = seq![0u8];
            let d = enc_app_to_app_server(m);
            assert(d[0] == 0u8);
            let rest1 = enc_bytes_list(route) + enc_u128(dest) + enc_bytes(invoice);
            assert(d =~= t + enc_bytes(id) + rest1);
            lemma_read_bytes(t, id, rest1);
            let k1 = t + enc_bytes(id);
            let rest2 = enc_u128(dest) + enc_bytes(invoice);
            assert(d =~= k1 + enc_bytes_list(route) + rest2);
            lemma_read_bytes_list(k1, route, rest2);
            let k2 = k1 + enc_bytes_list(route);
            assert(d =~= k2 + enc_u128(dest) + enc_bytes(invoice));
            lemma_read_u128(k2, dest, enc_bytes(invoice));
            let k3 = k2 + enc_u128(dest);
            assert(d =~= k3 + enc_bytes(invoice) + e);
            lemma_read_bytes(k3, invoice, e);
        },
        AppToAppServerV::SetFriendRemoteMaxDebt(pk, v) => {
            let t = seq![3u8];
            let d = enc_app_to_app_server(m);
            assert(d[0] == 3u8);
            assert(d =~= t + enc_bytes(pk) + enc_u128(v));
            lemma_read_bytes(t, pk, enc_u128(v));
            let k1 = t + enc_bytes(pk);
            assert(d =~= k1 + enc_u128(v) + e);
            lemma_read_u128(k1, v, e);
        },
        AppToAppServerV::ReceiptAck(a, b) => {
            lemma_two_fields(1u8, a, b);
        },
        AppToAppServerV::SetFriendName(a, b) => {
            lemma_two_fields(2u8, a, b);
        },
        AppToAppServerV::ResetFriendChannel(a, b) => {
            lemma_two_fields(4u8, a, b);
        },
    }
}

proof fn lemma_two_fields(tag: u8, a: Seq<u8>, b: Seq<u8>)
    requires
        a.len() < 0x1_0000_0000_0000_0000,
        b.len() < 0x1_0000_0000_0000_0000,
    ensures
        ({
            let d = seq![tag] + enc_bytes(a) + enc_bytes(b);
            &&& read_bytes_of(d, 1) == Some((a, 1 + enc_bytes(a).len() as int))
            &&& read_bytes_of(d, 1 + enc_bytes(a).len() as int) == Some((b, d.len() as int))
            &&& d[0] == tag
        }),
{
    let t = seq![tag];
    let e = Seq::<u8>::empty();
    let d = t + enc_bytes(a) + enc_bytes(b);
    lemma_read_bytes(t, a, enc_bytes(b));
    let k1 = t + enc_bytes(a);
    assert(d =~= k1 + enc_bytes(b) + e);
    lemma_read_bytes(k1, b, e);
}

// ---------------------------------------------------------------------------
// Executable forms
// ---------------------------------------------------------------------------

/// The byte form of a message.
pub fn serialize_app_to_app_server(app_to_app_server: &AppToAppServer) -> (r: Vec<u8>)
    ensures
        r@ == enc_app_to_app_server(app_to_app_server@),
{
    let mut out: Vec<u8> = Vec::new();
    match app_to_app_server {
        AppToAppServer::UserRequestSendFunds { request_id, route, dest_payment, invoice_id } => {
            out.push(0u8);
            write_bytes(&mut out, request_id);
            write_bytes_list(&mut out, route);
            write_u128(&mut out, *dest_payment);
            write_bytes(&mut out, invoice_id);
        },
        AppToAppServer::ReceiptAck { request_id, receipt_signature } => {
            out.push(1u8);
            write_bytes(&mut out, request_id);
            write_bytes(&mut out, receipt_signature);
        },
        AppToAppServer::SetFriendName { friend_public_key, name } => {
            out.push(2u8);
            write_bytes(&mut out, friend_public_key);
            write_bytes(&mut out, name);
        },
        AppToAppServer::SetFriendRemoteMaxDebt { friend_public_key, remote_max_debt } => {
            out.push(3u8);
            write_bytes(&mut out, friend_public_key);
            write_u128(&mut out, *remote_max_debt);
        },
        AppToAppServer::ResetFriendChannel { friend_public_key, reset_token } => {
            out.push(4u8);
            write_bytes(&mut out, friend_public_key);
            write_bytes(&mut out, reset_token);
        },
    }
    assert(out@ =~= enc_app_to_app_server(app_to_app_server@));
    out
}

/// The number that `n` bytes at `pos` stand for.
fn read_be(data: &Vec<u8>, pos: usize, n: usize) -> (r: u128)
    requires
        n <= 16,
        pos + n <= data@.len(),
    ensures
        r == be_value(data@.subrange(pos as int, pos + n)),
{
    let len = data.len();
    let mut acc: u128 = 0;
    let mut i: usize = 0;
    proof {
        lemma_pow256_16();
        assert(data@.subrange(pos as int, pos as int) =~= Seq::<u8>::empty());
    }
    while i < n
        invariant
            i <= n,
            n <= 16,
            pos + n <= data@.len(),
            len == data@.len(),
            acc == be_value(data@.subrange(pos as int, pos + i)),
            pow256(16) == 0x1_0000_0000_0000_0000_0000_0000_0000_0000,
        decreases n - i,
    {
        proof {
            let s = data@.subrange(pos as int, pos + i + 1);
            assert(s.drop_last() =~= data@.subrange(pos as int, pos + i));
            lemma_be_value_bound(s);
            lemma_pow256_mono((i + 1) as nat, 16);
        }
        acc = acc * 256 + data[pos + i] as u128;
        i = i + 1;
    }
    acc
}

proof fn lemma_pow256_mono(a: nat, b: nat)
    requires
        a <= b,
    ensures
        pow256(a) <= pow256(b),
    decreases b,
{
    if a < b {
        lemma_pow256_mono(a, (b - 1) as nat);
        lemma_pow256_pos((b - 1) as nat);
    }
}

fn read_u128(data: &Vec<u8>, pos: usize) -> (r: Option<(u128, usize)>)
    ensures
        match read_u128_of(data@, pos as int) {
            Some((v, q)) => r matches Some((v2, q2)) && v2 == v && q2 == q,
            None => r is None,
        },
{
    if pos > data.len() || data.len() - pos < 16 {
        return None;
    }
    let v = read_be(data, pos, 16);
    proof {
        lemma_be_value_bound(data@.subrange(pos as int, pos + 16));
        lemma_pow256_16();
    }
    Some((v, pos + 16))
}

fn read_bytes(data: &Vec<u8>, pos: usize) -> (r: Option<(Vec<u8>, usize)>)
    ensures
        match read_bytes_of(data@, pos as int) {
            Some((b, q)) => r matches Some((b2, q2)) && b2@ == b && q2 == q,
            None => r is None,
        },
{
    if pos > data.len() || data.len() - pos < 8 {
        return None;
    }
    let n = read_be(data, pos, 8);
    let start = pos + 8;
    if n > (data.len() - start) as u128 {
        return None;
    }
    let n = n as usize;
    let len = data.len();
    let mut out: Vec<u8> = Vec::new();
    let mut i: usize = 0;
    while i < n
        invariant
            i <= n,
            start + n <= data@.len(),
            len == data@.len(),
            out@ =~= data@.subrange(start as int, start + i),
        decreases n - i,
    {
        out.push(data[start + i]);
        i = i + 1;
    }
    Some((out, start + n))
}

fn read_bytes_list(data: &Vec<u8>, pos: usize) -> (r: Option<(Vec<Vec<u8>>, usize)>)
    ensures
        match read_bytes_list_of(data@, pos as int) {
            Some((s, q)) => r matches Some((list, q2)) && bytes_list_view(list@) == s && q2 == q,
            None => r is None,
        },
{
    if pos > data.len() || data.len() - pos < 8 {
        return None;
    }
    let n = read_be(data, pos, 8);
    let mut p = pos + 8;
    let mut out: Vec<Vec<u8>> = Vec::new();
    let mut i: u128 = 0;
    assert(bytes_list_view(out@) =~= Seq::<Seq<u8>>::empty());
    while i < n
        invariant
            i <= n,
            n == be_value(data@.subrange(pos as int, pos + 8)),
            pos + 8 <= data@.len(),
            read_bytes_items_of(data@, pos + 8, i as nat) == Some((bytes_list_view(out@), p as int)),
        decreases n - i,
    {
        match read_bytes(data, p) {
            Some((b, q)) => {
                let ghost o0 = bytes_list_view(out@);
                out.push(b);
                assert(bytes_list_view(out@) =~= o0.push(b@));
                p = q;
            },
            None => {
                proof {
                    lemma_items_none(data@, pos + 8, (i + 1) as nat, n as nat);
                }
                return None;
            },
        }
        i = i + 1;
    }
    Some((out, p))
}

proof fn lemma_items_none(d: Seq<u8>, p: int, k: nat, n: nat)
    requires
        k <= n,
        read_bytes_items_of(d, p, k) is None,
    ensures
        read_bytes_items_of(d, p, n) is None,
    decreases n - k,
{
    if k < n {
        lemma_items_none(d, p, k + 1, n);
    }
}

/// The message that bytes encode: an error where they encode none.
pub fn deserialize_app_to_app_server(data: &[u8]) -> (r: Result<AppToAppServer, SerializeError>)
    ensures
        match parse_app_to_app_server(data@) {
            Some(m) => r matches Ok(x) && x@ == m,
            None => r == Err::<AppToAppServer, SerializeError>(SerializeError::Malformed),
        },
{
    let mut d: Vec<u8> = Vec::new();
    d.extend_from_slice(data);
    assert(d@ =~= data@);
    if d.len() == 0 {
        return Err(SerializeError::Malformed);
    }
    let tag = d[0];
    if tag == 0 {
        let (request_id, k1) = match read_bytes(&d, 1) {
            Some(x) => x,
            None => {
                return Err(SerializeError::Malformed);
            },
        };
        let (route, k2) = match read_bytes_list(&d, k1) {
            Some(x) => x,
            None => {
                return Err(SerializeError::Malformed);
            },
        };
        let (dest_payment, k3) = match read_u128(&d, k2) {
            Some(x) => x,
            None => {
                return Err(SerializeError::Malformed);
            },
        };
        let (invoice_id, k4) = match read_bytes(&d, k3) {
            Some(x) => x,
            None => {
                return Err(SerializeError::Malformed);
            },
        };
        if k4 != d.len() {
            return Err(SerializeError::Malformed);
        }
        Ok(AppToAppServer::UserRequestSendFunds { request_id, route, dest_payment, invoice_id })
    } else if tag == 1 || tag == 2 || tag == 4 {
        let (a, k1) = match read_bytes(&d, 1) {
            Some(x) => x,
            None => {
                return Err(SerializeError::Malformed);
            },
        };
        let (b, k2) = match read_bytes(&d, k1) {
            Some(x) => x,
            None => {
                return Err(SerializeError::Malformed);
            },
        };
        if k2 != d.len() {
            return Err(SerializeError::Malformed);
        }
        if tag == 1 {
            Ok(AppToAppServer::ReceiptAck { request_id: a, receipt_signature: b })
        } else if tag == 2 {
            Ok(AppToAppServer::SetFriendName { friend_public_key: a, name: b })
        } else {
            Ok(AppToAppServer::ResetFriendChannel { friend_public_key: a, reset_token: b })
        }
    } else if tag == 3 {
        let (friend_public_key, k1) = match read_bytes(&d, 1) {
            Some(x) => x,
            None => {
                return Err(SerializeError::Malformed);
            },
        };
        let (remote_max_debt, k2) = match read_u128(&d, k1) {
            Some(x) => x,
            None => {
                return Err(SerializeError::Malformed);
            },
        };
        if k2 != d.len() {
            return Err(SerializeError::Malformed);
        }
        Ok(AppToAppServer::SetFriendRemoteMaxDebt { friend_public_key, remote_max_debt })
    } else {
        Err(SerializeError::Malformed)
    }
}

} // verus!
