//! What goes into the next move token to a friend: pending backwards
//! operations first, then the user's requests, then forwarded requests, up to
//! a batch limit; and how the friend's receive capacity changes with it.
use vstd::prelude::*;

use crate::mutual_credit::{has_id, index_of, queue_request_outcome, queue_response_outcome};
use crate::token_channel::{
    credit_index, credits_view, has_credit, OutMoveToken, OutMoveTokenV, PendingMoveToken, Rate,
    TokenChannel, TokenChannelError,
};
use crate::types::{
    bytes_list_view, copy_bytes, Currency, FriendTcOp, McCancel, McOp, McOpV,
    McRequest, McResponse, PublicKey,
};

verus! {

/// A response or a cancel on its way back towards a request's origin.
#[derive(Debug)]
pub enum BackwardsOp {
    Response(McResponse),
    Cancel(McCancel),
}

impl View for BackwardsOp {
    type V = McOpV;

    open spec fn view(&self) -> McOpV {
        match self {
            BackwardsOp::Response(p) => McOpV::Response(p@),
            BackwardsOp::Cancel(c) => McOpV::Cancel(c.request_id@),
        }
    }
}

/// The first-in first-out queues of operations waiting to be sent to one
/// friend, each entry beside its currency.
#[derive(Debug)]
pub struct FriendQueues {
    pub pending_backwards: Vec<(Currency, BackwardsOp)>,
    pub pending_user_requests: Vec<(Currency, McRequest)>,
    pub pending_requests: Vec<(Currency, McRequest)>,
}

pub open spec fn backwards_view(v: Seq<(Currency, BackwardsOp)>) -> Seq<(Seq<u8>, McOpV)> {
    v.map_values(|p: (Currency, BackwardsOp)| (p.0@, p.1@))
}

pub open spec fn requests_ops_view(v: Seq<(Currency, McRequest)>) -> Seq<(Seq<u8>, McOpV)> {
    v.map_values(|p: (Currency, McRequest)| (p.0@, McOpV::Request(p.1@)))
}

impl FriendQueues {
    /// Everything pending, in the order in which it is to be sent.
    pub open spec fn all_pending(&self) -> Seq<(Seq<u8>, McOpV)> {
        backwards_view(self.pending_backwards@) + requests_ops_view(self.pending_user_requests@)
            + requests_ops_view(self.pending_requests@)
    }

    pub fn new() -> (r: FriendQueues)
        ensures
            r.all_pending().len() == 0,
    {
        FriendQueues {
            pending_backwards: Vec::new(),
            pending_user_requests: Vec::new(),
            pending_requests: Vec::new(),
        }
    }

    /// Takes the first pending operation, by priority then by age.
    pub fn pop_front(&mut self) -> (r: Option<(Currency, FriendTcOp)>)
        ensures
            old(self).all_pending().len() == 0 ==> r is None && final(self).all_pending()
                == old(self).all_pending(),
            old(self).all_pending().len() > 0 ==> (r matches Some(p) && (p.0@, p.1@) == old(
                self,
            ).all_pending()[0]) && final(self).all_pending() == old(self).all_pending().drop_first(),
    {
        let ghost a0 = self.all_pending();
        if self.pending_backwards.len() > 0 {
            let ghost b0 = self.pending_backwards@;
            let (c, op) = self.pending_backwards.remove(0);
            assert(b0[0] == (c, op));
            let r = match op {
                BackwardsOp::Response(p) => McOp::Response(p),
                BackwardsOp::Cancel(x) => McOp::Cancel(x),
            };
            assert(backwards_view(self.pending_backwards@) =~= backwards_view(b0).drop_first());
            assert(self.all_pending() =~= a0.drop_first());
            Some((c, r))
        } else if self.pending_user_requests.len() > 0 {
            let ghost u0 = self.pending_user_requests@;
            let (c, q) = self.pending_user_requests.remove(0);
            assert(u0[0] == (c, q));
            assert(backwards_view(self.pending_backwards@) =~= Seq::<(Seq<u8>, McOpV)>::empty());
            assert(requests_ops_view(self.pending_user_requests@) =~= requests_ops_view(u0).drop_first());
            assert(self.all_pending() =~= a0.drop_first());
            Some((c, McOp::Request(q)))
        } else if self.pending_requests.len() > 0 {
            let ghost f0 = self.pending_requests@;
            let (c, q) = self.pending_requests.remove(0);
            assert(f0[0] == (c, q));
            assert(backwards_view(self.pending_backwards@) =~= Seq::<(Seq<u8>, McOpV)>::empty());
            assert(requests_ops_view(self.pending_user_requests@) =~= Seq::<(Seq<u8>, McOpV)>::empty());
            assert(requests_ops_view(self.pending_requests@) =~= requests_ops_view(f0).drop_first());
            assert(self.all_pending() =~= a0.drop_first());
            Some((c, McOp::Request(q)))
        } else {
            assert(a0.len() == 0);
            None
        }
    }

    /// A copy of the pending operation at position `k`, if there is one.
    pub fn pending_at(&self, k: usize) -> (r: Option<(Currency, FriendTcOp)>)
        ensures
            k < self.all_pending().len() ==> (r matches Some(p) && (p.0@, p.1@)
                == self.all_pending()[k as int]),
            k >= self.all_pending().len() ==> r is None,
    {
        let nb = self.pending_backwards.len();
        if k < nb {
            let (c, op) = &self.pending_backwards[k];
            let m = match op {
                BackwardsOp::Response(p) => McOp::Response(p.copy()),
                BackwardsOp::Cancel(x) => McOp::Cancel(McCancel { request_id: copy_bytes(&x.request_id) }),
            };
            return Some((copy_bytes(c), m));
        }
        let k2 = k - nb;
        if k2 < self.pending_user_requests.len() {
            let (c, q) = &self.pending_user_requests[k2];
            return Some((copy_bytes(c), McOp::Request(q.copy())));
        }
        let k3 = k2 - self.pending_user_requests.len();
        if k3 < self.pending_requests.len() {
            let (c, q) = &self.pending_requests[k3];
            return Some((copy_bytes(c), McOp::Request(q.copy())));
        }
        None
    }

    /// Removes the first `n` pending operations.
    pub fn drop_front(&mut self, n: usize)
        requires
            n <= old(self).all_pending().len(),
        ensures
            final(self).all_pending() == old(self).all_pending().skip(n as int),
    {
        let ghost a0 = self.all_pending();
        let mut k: usize = 0;
        while k < n
            invariant
                k <= n,
                n <= a0.len(),
                self.all_pending() =~= a0.skip(k as int),
            decreases n - k,
        {
            let _ = self.pop_front();
            assert(a0.skip(k as int).drop_first() =~= a0.skip(k + 1));
            k = k + 1;
        }
    }

    /// Whether any operation is pending.
    pub fn is_empty(&self) -> (r: bool)
        ensures
            r == (self.all_pending().len() == 0),
    {
        self.pending_backwards.len() == 0 && self.pending_user_requests.len() == 0
            && self.pending_requests.len() == 0
    }
}

/// The number of operations that a batch takes from `n` pending ones.
pub open spec fn batch_len(n: nat, max_operations_in_batch: usize) -> int {
    if n < max_operations_in_batch {
        n as int
    } else {
        max_operations_in_batch as int
    }
}

/// Copies up to `max_operations_in_batch` pending operations, in order,
/// leaving the queues as they are.
pub fn collect_currencies_operations(queues: &FriendQueues, max_operations_in_batch: usize) -> (r:
    Vec<(Currency, FriendTcOp)>)
    ensures
        crate::types::ops_view(r@) == queues.all_pending().take(
            batch_len(queues.all_pending().len(), max_operations_in_batch),
        ),
{
    let ghost a0 = queues.all_pending();
    let mut ops: Vec<(Currency, FriendTcOp)> = Vec::new();
    let mut k: usize = 0;
    let mut done = false;
    while k < max_operations_in_batch && !done
        invariant
            k <= max_operations_in_batch,
            k <= a0.len(),
            a0 == queues.all_pending(),
            done ==> k == a0.len(),
            crate::types::ops_view(ops@) =~= a0.take(k as int),
        decreases max_operations_in_batch - k, if done {
            0int
        } else {
            1int
        },
    {
        let ghost before = ops@;
        match queues.pending_at(k) {
            Some(p) => {
                ops.push(p);
                assert(crate::types::ops_view(ops@) =~= crate::types::ops_view(before).push(
                    a0[k as int],
                ));
                assert(a0.take(k + 1) =~= a0.take(k as int).push(a0[k as int]));
                k = k + 1;
            },
            None => {
                done = true;
            },
        }
    }
    assert(k == batch_len(a0.len(), max_operations_in_batch));
    ops
}

/// Whether any operation is pending.
pub fn is_pending_currencies_operations(queues: &FriendQueues) -> (r: bool)
    ensures
        r == (queues.all_pending().len() > 0),
{
    !queues.is_empty()
}

/// Whether there is anything to send to the friend: a pending operation or a
/// change of the advertised currencies.
pub fn is_pending_move_token(queues: &FriendQueues, currencies_diff: &Vec<Currency>) -> (r: bool)
    ensures
        r == (queues.all_pending().len() > 0 || currencies_diff@.len() > 0),
{
    is_pending_currencies_operations(queues) || currencies_diff.len() > 0
}

/// The currencies in which the desired set and the advertised set differ:
/// first those desired but not advertised, then those advertised but not
/// desired.
pub open spec fn currencies_diff_of(desired: Seq<Seq<u8>>, advertised: Seq<Seq<u8>>) -> Seq<
    Seq<u8>,
> {
    desired.filter(not_in(advertised)) + advertised.filter(not_in(desired))
}

/// The test of not being held by `b`.
pub open spec fn not_in(b: Seq<Seq<u8>>) -> spec_fn(Seq<u8>) -> bool {
    |c: Seq<u8>| !b.contains(c)
}

fn contains_currency(v: &Vec<Currency>, c: &Currency) -> (r: bool)
    ensures
        r == bytes_list_view(v@).contains(c@),
{
    let mut i: usize = 0;
    while i < v.len()
        invariant
            i <= v.len(),
            forall|j: int| 0 <= j < i ==> #[trigger] bytes_list_view(v@)[j] != c@,
        decreases v.len() - i,
    {
        if crate::types::bytes_eq(&v[i], c) {
            assert(bytes_list_view(v@)[i as int] == c@);
            return true;
        }
        i = i + 1;
    }
    false
}

/// The elements of `a` that `b` does not hold, in order, appended to `out`.
fn push_missing(out: &mut Vec<Currency>, a: &Vec<Currency>, b: &Vec<Currency>)
    ensures
        bytes_list_view(final(out)@) == bytes_list_view(old(out)@) + bytes_list_view(a@).filter(
            not_in(bytes_list_view(b@)),
        ),
{
    let ghost av = bytes_list_view(a@);
    let ghost bv = bytes_list_view(b@);
    let ghost o0 = bytes_list_view(out@);
    let mut i: usize = 0;
    while i < a.len()
        invariant
            i <= a.len(),
            av == bytes_list_view(a@),
            bv == bytes_list_view(b@),
            bytes_list_view(out@) =~= o0 + av.take(i as int).filter(not_in(bv)),
        decreases a.len() - i,
    {
        let ghost before = bytes_list_view(out@);
        proof {
            reveal(Seq::filter);
            assert(av.take(i + 1).drop_last() =~= av.take(i as int));
            assert(av.take(i + 1).last() == av[i as int]);
        }
        if !contains_currency(b, &a[i]) {
            out.push(copy_bytes(&a[i]));
            assert(bytes_list_view(out@) =~= before.push(av[i as int]));
        } else {
            assert(bytes_list_view(out@) =~= before);
        }
        i = i + 1;
    }
    assert(av.take(i as int) =~= av);
}

/// The currencies in which the desired set and the advertised set differ.
pub fn currencies_diff(desired: &Vec<Currency>, advertised: &Vec<Currency>) -> (r: Vec<Currency>)
    ensures
        bytes_list_view(r@) == currencies_diff_of(
            bytes_list_view(desired@),
            bytes_list_view(advertised@),
        ),
{
    let mut out: Vec<Currency> = Vec::new();
    assert(bytes_list_view(out@) =~= Seq::<Seq<u8>>::empty());
    push_missing(&mut out, desired, advertised);
    push_missing(&mut out, advertised, desired);
    assert(bytes_list_view(out@) =~= currencies_diff_of(
        bytes_list_view(desired@),
        bytes_list_view(advertised@),
    ));
    out
}

/// Like a move token, without the binding to the channel and the signature.
#[derive(Debug)]
pub struct PreMoveToken {
    pub currencies_operations: Vec<(Currency, FriendTcOp)>,
    pub currencies_diff: Vec<Currency>,
}

/// A batch to send, and whether more is pending after it.
#[derive(Debug)]
pub struct PreMoveTokenRequest {
    pub pre_move_token: PreMoveToken,
    pub token_wanted: bool,
}

/// Collects what to send to the friend: copies of up to
/// `max_operations_in_batch` pending operations and the currency diff, taking
/// nothing off the queues. `None` where both are empty.
pub fn collect_outgoing_pre_move_token(
    queues: &FriendQueues,
    currencies_diff: Vec<Currency>,
    max_operations_in_batch: usize,
) -> (r: Option<PreMoveTokenRequest>)
    ensures
        ({
            let a = queues.all_pending();
            let n = batch_len(a.len(), max_operations_in_batch);
            &&& (n == 0 && currencies_diff@.len() == 0) ==> r is None
            &&& !(n == 0 && currencies_diff@.len() == 0) ==> (r matches Some(p)
                && crate::types::ops_view(p.pre_move_token.currencies_operations@) == a.take(n)
                && bytes_list_view(p.pre_move_token.currencies_diff@) == bytes_list_view(
                currencies_diff@,
            ) && p.token_wanted == (a.len() > n))
        }),
{
    let ops = collect_currencies_operations(queues, max_operations_in_batch);
    assert(ops@.len() == crate::types::ops_view(ops@).len());
    if ops.len() == 0 && currencies_diff.len() == 0 {
        return None;
    }
    let token_wanted = queues.pending_at(ops.len()).is_some();
    Some(
        PreMoveTokenRequest {
            pre_move_token: PreMoveToken { currencies_operations: ops, currencies_diff },
            token_wanted,
        },
    )
}

/// One collected operation applied by the local side to a batch being
/// assembled, with `local_max_debt` as the credit limit for requests. A request
/// beyond the limit is left out and its id reported.
pub open spec fn out_op_of(o: OutMoveTokenV, c: Seq<u8>, op: McOpV, local_max_debt: u128) -> Result<
    (OutMoveTokenV, Option<Seq<u8>>),
    TokenChannelError,
> {
    if !has_credit(o.ledger.credits, c) {
        Err(TokenChannelError::InvalidState)
    } else {
        let i = credit_index(o.ledger.credits, c);
        let mc = o.ledger.credits[i].mc;
        match op {
            McOpV::Request(q) => match queue_request_outcome(mc, q, local_max_debt) {
                Err(e) => Err(TokenChannelError::QueueOperationError(e)),
                Ok(false) => Ok((o, Some(q.request_id))),
                Ok(true) => Ok(
                    (
                        OutMoveTokenV {
                            ledger: crate::token_channel::with_mc(
                                o.ledger,
                                i,
                                crate::mutual_credit::with_local_request(mc, q),
                            ),
                            ops: o.ops.push((c, op)),
                            ..o
                        },
                        None,
                    ),
                ),
            },
            McOpV::Response(p) => match queue_response_outcome(mc, c, p) {
                Err(e) => Err(TokenChannelError::QueueOperationError(e)),
                Ok(()) => Ok(
                    (
                        OutMoveTokenV {
                            ledger: crate::token_channel::with_mc(
                                o.ledger,
                                i,
                                crate::mutual_credit::settle_remote(
                                    mc,
                                    index_of(mc.remote, p.request_id),
                                ),
                            ),
                            ops: o.ops.push((c, op)),
                            ..o
                        },
                        None,
                    ),
                ),
            },
            McOpV::Cancel(id) => if !has_id(mc.remote, id) {
                Err(
                    TokenChannelError::QueueOperationError(
                        crate::mutual_credit::McError::UnknownRequestId,
                    ),
                )
            } else {
                Ok(
                    (
                        OutMoveTokenV {
                            ledger: crate::token_channel::with_mc(
                                o.ledger,
                                i,
                                crate::mutual_credit::drop_remote(mc, index_of(mc.remote, id)),
                            ),
                            ops: o.ops.push((c, op)),
                            ..o
                        },
                        None,
                    ),
                )
            },
        }
    }
}

/// Collected operations applied in order; the ids of the requests left out.
pub open spec fn out_ops_of(o: OutMoveTokenV, ops: Seq<(Seq<u8>, McOpV)>, local_max_debt: u128) -> Result<
    (OutMoveTokenV, Seq<Seq<u8>>),
    TokenChannelError,
>
    decreases ops.len(),
{
    if ops.len() == 0 {
        Ok((o, Seq::empty()))
    } else {
        match out_ops_of(o, ops.drop_last(), local_max_debt) {
            Ok((t, cancelled)) => match out_op_of(t, ops.last().0, ops.last().1, local_max_debt) {
                Ok((u, None)) => Ok((u, cancelled)),
                Ok((u, Some(id))) => Ok((u, cancelled.push(id))),
                Err(e) => Err(e),
            },
            Err(e) => Err(e),
        }
    }
}

/// Toggles applied in order by the local side to a batch being assembled. A
/// withdrawal of a currency whose mutual credit is still in use is left out
/// of this batch: the currency stays advertised, and since the diff is the
/// difference between the currencies the local side wants and those it
/// advertises (`currencies_diff`), it names the currency again in every later
/// batch, which withdraws it once its credit is back to zero. The withdrawal
/// cannot travel earlier: the remote side applies a diff before the
/// operations beside it, and refuses to drop a credit in use.
pub open spec fn out_toggles_of(o: OutMoveTokenV, diff: Seq<Seq<u8>>) -> OutMoveTokenV
    decreases diff.len(),
{
    if diff.len() == 0 {
        o
    } else {
        let t = out_toggles_of(o, diff.drop_last());
        match crate::token_channel::toggle_currency_of(t.ledger, diff.last(), false) {
            Some(l) => OutMoveTokenV { ledger: l, diff: t.diff.push(diff.last()), ..t },
            None => t,
        }
    }
}

proof fn lemma_out_ops_err(o: OutMoveTokenV, ops: Seq<(Seq<u8>, McOpV)>, lmd: u128, k: int)
    requires
        0 <= k <= ops.len(),
        out_ops_of(o, ops.take(k), lmd) is Err,
    ensures
        out_ops_of(o, ops, lmd) == out_ops_of(o, ops.take(k), lmd),
    decreases ops.len() - k,
{
    if k == ops.len() {
        assert(ops.take(k) =~= ops);
    } else {
        assert(ops.take(k + 1).drop_last() =~= ops.take(k));
        lemma_out_ops_err(o, ops, lmd, k + 1);
    }
}

/// What applying a collected batch to a channel gives: the batch that waits
/// for its signature, and the ids of the requests left out.
pub open spec fn send_outcome_of(
    tc: crate::token_channel::TcState,
    diff: Seq<Seq<u8>>,
    ops: Seq<(Seq<u8>, McOpV)>,
    local_max_debt: u128,
    local: Seq<u8>,
    remote: Seq<u8>,
) -> Result<(crate::token_channel::PendingMoveTokenV, Seq<Seq<u8>>), TokenChannelError> {
    let o = OutMoveTokenV {
        ledger: tc.ledger,
        counter: tc.counter,
        move_token_in: match tc.status {
            crate::token_channel::TcStatusV::ConsistentIn(h) => Some(h),
            _ => None,
        },
        ops: Seq::empty(),
        diff: Seq::empty(),
    };
    match out_ops_of(out_toggles_of(o, diff), ops, local_max_debt) {
            Err(e) => Err(e),
            Ok((o2, cancelled)) => if o2.move_token_in is None {
                Err(TokenChannelError::InvalidTokenChannelStatus)
            } else if o2.counter == u128::MAX {
                Err(TokenChannelError::MoveTokenCounterOverflow)
            } else {
                Ok(
                    (
                        crate::token_channel::PendingMoveTokenV {
                            ledger: o2.ledger,
                            counter: (o2.counter + 1) as u128,
                            move_token_in: o2.move_token_in->Some_0,
                            move_token: crate::token_channel::unsigned_move_token_of(
                                o2,
                                o2.move_token_in->Some_0,
                                local,
                                remote,
                            ),
                        },
                        cancelled,
                    ),
                )
            },
    }
}

/// Applies a collected batch to the channel as the local side's next move
/// token: the toggles, then the operations, each as the local side's own. A
/// currency still in use is not withdrawn yet.
/// Requests beyond `local_max_debt` are left out, and returned so that their
/// origin can be told. The result waits for its signature.
pub fn send_pre_move_token(
    tc: &TokenChannel,
    pre_move_token: PreMoveToken,
    local_max_debt: u128,
    local_public_key: &PublicKey,
    remote_public_key: &PublicKey,
) -> (r: Result<(PendingMoveToken, Vec<McCancel>), TokenChannelError>)
    requires
        tc@.wf(),
    ensures
        match send_outcome_of(
            tc@,
            bytes_list_view(pre_move_token.currencies_diff@),
            crate::types::ops_view(pre_move_token.currencies_operations@),
            local_max_debt,
            local_public_key@,
            remote_public_key@,
        ) {
            Err(e) => r == Err::<(PendingMoveToken, Vec<McCancel>), TokenChannelError>(e),
            Ok((pv, cancelled)) => r matches Ok((p, cs)) && p@ == pv && cs@.map_values(
                |c: McCancel| c.request_id@,
            ) == cancelled && p@.ledger.wf(),
        },
{
    let PreMoveToken { currencies_operations, currencies_diff } = pre_move_token;
    let mut out = OutMoveToken::new(tc);
    let ghost o0 = out@;
    assert(o0.ops =~= Seq::<(Seq<u8>, McOpV)>::empty());
    assert(o0.diff =~= Seq::<Seq<u8>>::empty());
    let ghost dv = bytes_list_view(currencies_diff@);
    let ghost opsv = crate::types::ops_view(currencies_operations@);
    let mut i: usize = 0;
    while i < currencies_diff.len()
        invariant
            i <= currencies_diff.len(),
            dv == bytes_list_view(currencies_diff@),
            dv == bytes_list_view(pre_move_token.currencies_diff@),
            opsv == crate::types::ops_view(pre_move_token.currencies_operations@),
            opsv == crate::types::ops_view(currencies_operations@),
            o0 == (OutMoveTokenV {
                ledger: tc@.ledger,
                counter: tc@.counter,
                move_token_in: match tc@.status {
                    crate::token_channel::TcStatusV::ConsistentIn(h) => Some(h),
                    _ => None,
                },
                ops: Seq::empty(),
                diff: Seq::empty(),
            }),
            out.wf(),
            out_toggles_of(o0, dv.take(i as int)) == out@,
        decreases currencies_diff.len() - i,
    {
        let c = copy_bytes(&currencies_diff[i]);
        // A withdrawal refused while the credit is in use waits for a later
        // batch.
        let _ = out.toggle_currency(c);
        proof {
            assert(dv.take(i + 1).drop_last() =~= dv.take(i as int));
        }
        i = i + 1;
    }
    proof {
        assert(dv.take(i as int) =~= dv);
    }
    let ghost o1 = out@;
    let ghost ov = crate::types::ops_view(currencies_operations@);
    let mut cancelled: Vec<McCancel> = Vec::new();
    assert(cancelled@.map_values(|c: McCancel| c.request_id@) =~= Seq::<Seq<u8>>::empty());
    assert(ov.take(0) =~= Seq::<(Seq<u8>, McOpV)>::empty());
    let mut rest = currencies_operations;
    let n = rest.len();
    let mut k: usize = 0;
    while k < n
        invariant
            k <= n,
            n == ov.len(),
            rest@.len() == n - k,
            crate::types::ops_view(rest@) =~= ov.skip(k as int),
            ov == crate::types::ops_view(pre_move_token.currencies_operations@),
            out_toggles_of(o0, bytes_list_view(pre_move_token.currencies_diff@)) == o1,
            o0 == (OutMoveTokenV {
                ledger: tc@.ledger,
                counter: tc@.counter,
                move_token_in: match tc@.status {
                    crate::token_channel::TcStatusV::ConsistentIn(h) => Some(h),
                    _ => None,
                },
                ops: Seq::empty(),
                diff: Seq::empty(),
            }),
            out.wf(),
            out_ops_of(o1, ov.take(k as int), local_max_debt) == Ok::<
                (OutMoveTokenV, Seq<Seq<u8>>),
                TokenChannelError,
            >((out@, cancelled@.map_values(|c: McCancel| c.request_id@))),
        decreases n - k,
    {
        let ghost r0 = rest@;
        let (c, op) = rest.remove(0);
        assert((c@, op@) == ov[k as int]) by {
            assert(crate::types::ops_view(r0)[0] == (c@, op@));
        }
        assert(crate::types::ops_view(rest@) =~= ov.skip(k + 1)) by {
            assert(rest@ =~= r0.subrange(1, r0.len() as int));
            assert forall|j: int| 0 <= j < rest@.len() implies #[trigger] crate::types::ops_view(
                rest@,
            )[j] == ov.skip(k + 1)[j] by {
                assert(rest@[j] == r0[j + 1]);
                assert(crate::types::ops_view(r0)[j + 1] == ov.skip(k as int)[j + 1]);
            }
        }
        proof {
            assert(ov.take(k + 1).drop_last() =~= ov.take(k as int));
            assert(ov.take(k + 1).last() == ov[k as int]);
        }
        let ghost cv0 = cancelled@;
        let res: Result<(), TokenChannelError> = match op {
            McOp::Request(q) => {
                let id = copy_bytes(&q.request_id);
                match out.queue_request(c, q, local_max_debt) {
                    Ok(Ok(())) => Ok(()),
                    Ok(Err(_)) => {
                        cancelled.push(McCancel { request_id: id });
                        assert(cancelled@.map_values(|x: McCancel| x.request_id@) =~= cv0.map_values(
                            |x: McCancel| x.request_id@,
                        ).push(ov[k as int].1->Request_0.request_id));
                        Ok(())
                    },
                    Err(e) => Err(e),
                }
            },
            McOp::Response(p) => out.queue_response(c, p),
            McOp::Cancel(x) => out.queue_cancel(c, x),
        };
        match res {
            Ok(()) => {},
            Err(e) => {
                proof {
                    lemma_out_ops_err(o1, ov, local_max_debt, k + 1);
                }
                return Err(e);
            },
        }
        k = k + 1;
    }
    proof {
        assert(ov.take(k as int) =~= ov);
    }
    let pending = out.finalize(local_public_key, remote_public_key)?;
    Ok((pending, cancelled))
}

/// How much more the friend can be owed in a currency: its credit limit less
/// its balance and its pending debt, and nothing below zero.
pub open spec fn recv_capacity_of(remote_max_debt: u128, balance: i128, remote_pending_debt: u128) -> int {
    if remote_max_debt - balance - remote_pending_debt > 0 {
        remote_max_debt - balance - remote_pending_debt
    } else {
        0
    }
}

/// The receive capacity of a currency's mutual credit, at most `u128::MAX`.
pub fn calc_recv_capacity(remote_max_debt: u128, balance: i128, remote_pending_debt: u128) -> (r: u128)
    ensures
        r == (if recv_capacity_of(remote_max_debt, balance, remote_pending_debt) > u128::MAX {
            u128::MAX as int
        } else {
            recv_capacity_of(remote_max_debt, balance, remote_pending_debt)
        }),
{
    if balance >= 0 {
        let b = balance as u128;
        if remote_max_debt < b {
            0
        } else {
            let rest = remote_max_debt - b;
            if rest < remote_pending_debt {
                0
            } else {
                rest - remote_pending_debt
            }
        }
    } else {
        let neg: u128 = (-(balance + 1)) as u128 + 1;
        if remote_pending_debt >= neg {
            let d = remote_pending_debt - neg;
            if remote_max_debt < d {
                0
            } else {
                remote_max_debt - d
            }
        } else {
            match remote_max_debt.checked_add(neg - remote_pending_debt) {
                Some(x) => x,
                None => u128::MAX,
            }
        }
    }
}

/// A change to announce to the index servers about a friend's currency.
#[derive(Debug)]
pub enum IndexMutation {
    /// The friend can receive nothing more in this currency.
    RemoveFriendCurrency { public_key: PublicKey, currency: Currency },
    /// The friend can now receive this much in this currency.
    UpdateFriendCurrency { public_key: PublicKey, currency: Currency, recv_capacity: u128, rate: Rate },
}

pub enum IndexMutationV {
    RemoveFriendCurrency(Seq<u8>, Seq<u8>),
    UpdateFriendCurrency(Seq<u8>, Seq<u8>, u128, Rate),
}

impl View for IndexMutation {
    type V = IndexMutationV;

    open spec fn view(&self) -> IndexMutationV {
        match self {
            IndexMutation::RemoveFriendCurrency { public_key, currency } =>
                IndexMutationV::RemoveFriendCurrency(public_key@, currency@),
            IndexMutation::UpdateFriendCurrency { public_key, currency, recv_capacity, rate } =>
                IndexMutationV::UpdateFriendCurrency(public_key@, currency@, *recv_capacity, *rate),
        }
    }
}

/// The receive capacity of a currency in a ledger, at most `u128::MAX`; zero
/// where the currency has no mutual credit.
pub open spec fn ledger_capacity_of(l: crate::token_channel::LedgerV, c: Seq<u8>) -> int {
    if has_credit(l.credits, c) {
        let e = l.credits[credit_index(l.credits, c)];
        let cap = recv_capacity_of(e.remote_max_debt, e.mc.balance.balance, e.mc.balance.remote_pending_debt);
        if cap > u128::MAX {
            u128::MAX as int
        } else {
            cap
        }
    } else {
        0
    }
}

/// The rate asked for forwarding in a currency of a ledger; zero where the
/// currency has no mutual credit.
pub open spec fn ledger_rate_of(l: crate::token_channel::LedgerV, c: Seq<u8>) -> Rate {
    if has_credit(l.credits, c) {
        l.credits[credit_index(l.credits, c)].rate
    } else {
        Rate { mul: 0, add: 0 }
    }
}

/// The index mutations that a change of ledger makes for the given
/// currencies, in order: one for each currency whose capacity changed.
pub open spec fn index_mutations_of(
    friend: Seq<u8>,
    cs: Seq<Seq<u8>>,
    before: crate::token_channel::LedgerV,
    after: crate::token_channel::LedgerV,
) -> Seq<IndexMutationV>
    decreases cs.len(),
{
    if cs.len() == 0 {
        Seq::empty()
    } else {
        let rest = index_mutations_of(friend, cs.drop_last(), before, after);
        let c = cs.last();
        if ledger_capacity_of(before, c) == ledger_capacity_of(after, c) {
            rest
        } else if ledger_capacity_of(after, c) == 0 {
            rest.push(IndexMutationV::RemoveFriendCurrency(friend, c))
        } else {
            rest.push(
                IndexMutationV::UpdateFriendCurrency(
                    friend,
                    c,
                    ledger_capacity_of(after, c) as u128,
                    ledger_rate_of(after, c),
                ),
            )
        }
    }
}

fn ledger_capacity(l: &crate::token_channel::Ledger, c: &Currency) -> (r: (u128, Rate))
    requires
        l@.wf(),
    ensures
        r.0 == ledger_capacity_of(l@, c@),
        r.1 == ledger_rate_of(l@, c@),
{
    let mut i: usize = 0;
    while i < l.credits.len()
        invariant
            i <= l.credits.len(),
            l@.wf(),
            forall|j: int| 0 <= j < i ==> (#[trigger] credits_view(l.credits@)[j]).currency != c@,
        decreases l.credits.len() - i,
    {
        if crate::types::bytes_eq(&l.credits[i].currency, c) {
            proof {
                let cr = credits_view(l.credits@);
                assert(cr[i as int].currency == c@);
                assert(has_credit(cr, c@));
                crate::token_channel::lemma_credit_index(cr, i as int);
            }
            let e = &l.credits[i];
            let cap = calc_recv_capacity(
                e.remote_max_debt,
                e.mutual_credit.balance.balance,
                e.mutual_credit.balance.remote_pending_debt,
            );
            return (cap, e.rate);
        }
        i = i + 1;
    }
    (0, Rate { mul: 0, add: 0 })
}

/// The index mutations for the given currencies between two ledgers of the
/// channel with `friend`.
pub fn index_mutations(
    friend: &PublicKey,
    currencies: &Vec<Currency>,
    before: &crate::token_channel::Ledger,
    after: &crate::token_channel::Ledger,
) -> (r: Vec<IndexMutation>)
    requires
        before@.wf(),
        after@.wf(),
    ensures
        r@.map_values(|m: IndexMutation| m@) == index_mutations_of(
            friend@,
            bytes_list_view(currencies@),
            before@,
            after@,
        ),
{
    let ghost cs = bytes_list_view(currencies@);
    let mut out: Vec<IndexMutation> = Vec::new();
    let mut i: usize = 0;
    while i < currencies.len()
        invariant
            i <= currencies.len(),
            before@.wf(),
            after@.wf(),
            cs == bytes_list_view(currencies@),
            out@.map_values(|m: IndexMutation| m@) =~= index_mutations_of(
                friend@,
                cs.take(i as int),
                before@,
                after@,
            ),
        decreases currencies.len() - i,
    {
        let c = &currencies[i];
        let (cap_before, _) = ledger_capacity(before, c);
        let (cap_after, rate) = ledger_capacity(after, c);
        let ghost o0 = out@;
        proof {
            assert(cs.take(i + 1).drop_last() =~= cs.take(i as int));
            assert(cs.take(i + 1).last() == c@);
        }
        if cap_before != cap_after {
            if cap_after == 0 {
                out.push(
                    IndexMutation::RemoveFriendCurrency {
                        public_key: copy_bytes(friend),
                        currency: copy_bytes(c),
                    },
                );
            } else {
                out.push(
                    IndexMutation::UpdateFriendCurrency {
                        public_key: copy_bytes(friend),
                        currency: copy_bytes(c),
                        recv_capacity: cap_after,
                        rate,
                    },
                );
            }
            assert(out@.map_values(|m: IndexMutation| m@) =~= o0.map_values(
                |m: IndexMutation| m@,
            ).push(out@[out@.len() - 1]@));
        }
        i = i + 1;
    }
    proof {
        assert(cs.take(i as int) =~= cs);
    }
    out
}

/// A list without repeats: each element where it first occurs.
pub open spec fn dedup(s: Seq<Seq<u8>>) -> Seq<Seq<u8>>
    decreases s.len(),
{
    if s.len() == 0 {
        s
    } else if dedup(s.drop_last()).contains(s.last()) {
        dedup(s.drop_last())
    } else {
        dedup(s.drop_last()).push(s.last())
    }
}

/// The currencies that a batch mentions, each once: those of its diff, then
/// those of its operations.
pub open spec fn mentioned_of(diff: Seq<Seq<u8>>, ops: Seq<(Seq<u8>, McOpV)>) -> Seq<Seq<u8>> {
    dedup(diff + ops.map_values(|p: (Seq<u8>, McOpV)| p.0))
}

/// The currencies that a batch mentions, each once.
pub fn mentioned_currencies(pre_move_token: &PreMoveToken) -> (r: Vec<Currency>)
    ensures
        bytes_list_view(r@) == mentioned_of(
            bytes_list_view(pre_move_token.currencies_diff@),
            crate::types::ops_view(pre_move_token.currencies_operations@),
        ),
{
    let ghost dv = bytes_list_view(pre_move_token.currencies_diff@);
    let ghost ov = crate::types::ops_view(pre_move_token.currencies_operations@);
    let ghost all = dv + ov.map_values(|p: (Seq<u8>, McOpV)| p.0);
    let nd = pre_move_token.currencies_diff.len();
    let no = pre_move_token.currencies_operations.len();
    let mut out: Vec<Currency> = Vec::new();
    assert(bytes_list_view(out@) =~= dedup(all.take(0)));
    let mut i: usize = 0;
    while i < nd
        invariant
            i <= nd,
            nd == pre_move_token.currencies_diff@.len(),
            no == pre_move_token.currencies_operations@.len(),
            all.len() == nd + no,
            dv == bytes_list_view(pre_move_token.currencies_diff@),
            ov == crate::types::ops_view(pre_move_token.currencies_operations@),
            all == dv + ov.map_values(|p: (Seq<u8>, McOpV)| p.0),
            bytes_list_view(out@) =~= dedup(all.take(i as int)),
        decreases nd - i,
    {
        let c = &pre_move_token.currencies_diff[i];
        assert(all[i as int] == c@);
        let ghost o0 = bytes_list_view(out@);
        proof {
            assert(all.take(i + 1).drop_last() =~= all.take(i as int));
            assert(all.take(i + 1).last() == c@);
        }
        if !contains_currency(&out, c) {
            out.push(copy_bytes(c));
            assert(bytes_list_view(out@) =~= o0.push(c@));
        }
        i = i + 1;
    }
    let mut j: usize = 0;
    while j < no
        invariant
            j <= no,
            nd == pre_move_token.currencies_diff@.len(),
            no == pre_move_token.currencies_operations@.len(),
            all.len() == nd + no,
            dv == bytes_list_view(pre_move_token.currencies_diff@),
            ov == crate::types::ops_view(pre_move_token.currencies_operations@),
            all == dv + ov.map_values(|p: (Seq<u8>, McOpV)| p.0),
            bytes_list_view(out@) =~= dedup(all.take(nd + j)),
        decreases no - j,
    {
        let c = &pre_move_token.currencies_operations[j].0;
        assert(all[nd + j] == c@);
        let ghost o0 = bytes_list_view(out@);
        proof {
            assert(all.take(nd + j + 1).drop_last() =~= all.take(nd + j));
            assert(all.take(nd + j + 1).last() == c@);
        }
        if !contains_currency(&out, c) {
            out.push(copy_bytes(c));
            assert(bytes_list_view(out@) =~= o0.push(c@));
        }
        j = j + 1;
    }
    let ghost i = nd + no;
    assert(all.take(i) =~= all);
    out
}

/// Collects and applies the next batch for a friend: `None` where there is
/// nothing to send. Otherwise the batch waits for its signature, beside the
/// cancels for the requests left out, the index mutations it makes for the
/// currencies it mentions, and whether more is pending. The operations leave
/// the queues only once the batch is made; where it is refused, the queues
/// stay as they were.
pub fn collect_outgoing_move_token(
    tc: &TokenChannel,
    queues: &mut FriendQueues,
    currencies_diff: Vec<Currency>,
    max_operations_in_batch: usize,
    local_max_debt: u128,
    local_public_key: &PublicKey,
    friend_public_key: &PublicKey,
) -> (r: Result<Option<(PendingMoveToken, Vec<McCancel>, Vec<IndexMutation>, bool)>, TokenChannelError>)
    requires
        tc@.wf(),
    ensures
        ({
            let a = old(queues).all_pending();
            let n = batch_len(a.len(), max_operations_in_batch);
            let d = bytes_list_view(currencies_diff@);
            &&& r matches Ok(Some(_)) ==> final(queues).all_pending() == a.skip(n)
            &&& !(r matches Ok(Some(_))) ==> *final(queues) == *old(queues)
            &&& (n == 0 && d.len() == 0) ==> (r matches Ok(None))
            &&& !(n == 0 && d.len() == 0) ==> (match send_outcome_of(
                tc@,
                d,
                a.take(n),
                local_max_debt,
                local_public_key@,
                friend_public_key@,
            ) {
                Err(e) => r == Err::<
                    Option<(PendingMoveToken, Vec<McCancel>, Vec<IndexMutation>, bool)>,
                    TokenChannelError,
                >(e),
                Ok((pv, cancelled)) => r matches Ok(Some((p, cs, ms, wanted))) && p@ == pv
                    && cs@.map_values(|c: McCancel| c.request_id@) == cancelled
                    && ms@.map_values(|m: IndexMutation| m@) == index_mutations_of(
                    friend_public_key@,
                    mentioned_of(d, a.take(n)),
                    tc@.ledger,
                    pv.ledger,
                ) && wanted == (a.len() > n),
            })
        }),
{
    let pre = match collect_outgoing_pre_move_token(queues, currencies_diff, max_operations_in_batch) {
        Some(pre) => pre,
        None => {
            return Ok(None);
        },
    };
    let PreMoveTokenRequest { pre_move_token, token_wanted } = pre;
    let n = pre_move_token.currencies_operations.len();
    assert(n == crate::types::ops_view(pre_move_token.currencies_operations@).len());
    let currencies = mentioned_currencies(&pre_move_token);
    let (pending, cancelled) = send_pre_move_token(
        tc,
        pre_move_token,
        local_max_debt,
        local_public_key,
        friend_public_key,
    )?;
    queues.drop_front(n);
    let mutations = index_mutations(friend_public_key, &currencies, &tc.ledger, &pending.ledger);
    Ok(Some((pending, cancelled, mutations, token_wanted)))
}

/// Collects and applies the next batch for a friend even where it is empty,
/// as an acknowledgement. The batch waits for its signature, beside the
/// cancels for the requests left out and whether more is pending. The
/// operations leave the queues only once the batch is made.
pub fn collect_outgoing_move_token_allow_empty(
    tc: &TokenChannel,
    queues: &mut FriendQueues,
    currencies_diff: Vec<Currency>,
    max_operations_in_batch: usize,
    local_max_debt: u128,
    local_public_key: &PublicKey,
    friend_public_key: &PublicKey,
) -> (r: Result<(PendingMoveToken, Vec<McCancel>, bool), TokenChannelError>)
    requires
        tc@.wf(),
    ensures
        ({
            let a = old(queues).all_pending();
            let n = batch_len(a.len(), max_operations_in_batch);
            &&& r is Ok ==> final(queues).all_pending() == a.skip(n)
            &&& r is Err ==> *final(queues) == *old(queues)
            &&& match send_outcome_of(
                tc@,
                bytes_list_view(currencies_diff@),
                a.take(n),
                local_max_debt,
                local_public_key@,
                friend_public_key@,
            ) {
                Err(e) => r == Err::<(PendingMoveToken, Vec<McCancel>, bool), TokenChannelError>(e),
                Ok((pv, cancelled)) => r matches Ok((p, cs, wanted)) && p@ == pv && cs@.map_values(
                    |c: McCancel| c.request_id@,
                ) == cancelled && wanted == (a.len() > n),
            }
        }),
{
    let currencies_operations = collect_currencies_operations(queues, max_operations_in_batch);
    let n = currencies_operations.len();
    assert(n == crate::types::ops_view(currencies_operations@).len());
    let token_wanted = queues.pending_at(n).is_some();
    let (pending, cancelled) = send_pre_move_token(
        tc,
        PreMoveToken { currencies_operations, currencies_diff },
        local_max_debt,
        local_public_key,
        friend_public_key,
    )?;
    queues.drop_front(n);
    Ok((pending, cancelled, token_wanted))
}

} // verus!
