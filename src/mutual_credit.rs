//! The per-currency ledger between two friends: a balance, the pending
//! requests of each side, and the debts they reserve.
use vstd::prelude::*;

use crate::crypto::{ed25519_accepts, hash_buffer, sha512_256_of, verify_signature};
use crate::encode::{response_signature_buff, response_signature_buff_of};
use crate::types::{
    amount, bytes_eq, Currency, McBalance, McCancel, McRequest, McRequestV, McResponse,
    McResponseV, Uid,
};

verus! {

/// Why an operation could not be applied to a mutual credit.
#[derive(Clone, Copy, Debug, PartialEq, Eq, Structural)]
pub enum McError {
    InsufficientCredit,
    UnknownRequestId,
    DuplicateRequestId,
    LockMismatch,
    SignatureInvalid,
    ArithmeticOverflow,
}

/// What an incoming operation amounts to, once applied.
#[derive(Debug)]
pub enum IncomingMessage {
    /// The remote side sent a request through us.
    Request(McRequest),
    /// The remote side settled one of our requests.
    Response(McRequest, McResponse),
    /// The remote side withdrew one of our requests.
    Cancel(McRequest, McCancel),
}

/// The abstract value of an incoming message.
pub enum IncomingMessageV {
    Request(McRequestV),
    Response(McRequestV, McResponseV),
    Cancel(McRequestV, Seq<u8>),
}

impl View for IncomingMessage {
    type V = IncomingMessageV;

    open spec fn view(&self) -> IncomingMessageV {
        match self {
            IncomingMessage::Request(r) => IncomingMessageV::Request(r@),
            IncomingMessage::Response(r, p) => IncomingMessageV::Response(r@, p@),
            IncomingMessage::Cancel(r, c) => IncomingMessageV::Cancel(r@, c.request_id@),
        }
    }
}

/// The ledger of one currency with one friend.
#[derive(Debug)]
pub struct MutualCredit {
    pub balance: McBalance,
    /// Requests that the local side sent, awaiting the remote side's answer.
    pub pending_local_requests: Vec<McRequest>,
    /// Requests that the remote side sent, awaiting the local side's answer.
    pub pending_remote_requests: Vec<McRequest>,
}

/// The abstract value of a mutual credit.
pub struct McState {
    pub balance: McBalance,
    pub local: Seq<McRequestV>,
    pub remote: Seq<McRequestV>,
}

pub open spec fn requests_view(v: Seq<McRequest>) -> Seq<McRequestV> {
    v.map_values(|r: McRequest| r@)
}

impl View for MutualCredit {
    type V = McState;

    open spec fn view(&self) -> McState {
        McState {
            balance: self.balance,
            local: requests_view(self.pending_local_requests@),
            remote: requests_view(self.pending_remote_requests@),
        }
    }
}

/// The sum of the amounts of a list of requests.
pub open spec fn sum_amounts(s: Seq<McRequestV>) -> int
    decreases s.len(),
{
    if s.len() == 0 {
        0
    } else {
        sum_amounts(s.drop_last()) + amount(s.last())
    }
}

pub open spec fn has_id(s: Seq<McRequestV>, id: Seq<u8>) -> bool {
    exists|i: int| 0 <= i < s.len() && (#[trigger] s[i]).request_id == id
}

/// The position of the request with a given id.
pub open spec fn index_of(s: Seq<McRequestV>, id: Seq<u8>) -> int {
    choose|i: int| 0 <= i < s.len() && (#[trigger] s[i]).request_id == id
}

pub open spec fn ids_unique(s: Seq<McRequestV>) -> bool {
    forall|i: int, j: int|
        0 <= i < s.len() && 0 <= j < s.len() && i != j ==> (#[trigger] s[i]).request_id != (
        #[trigger] s[j]).request_id
}

pub open spec fn ids_disjoint(a: Seq<McRequestV>, b: Seq<McRequestV>) -> bool {
    forall|i: int, j: int|
        0 <= i < a.len() && 0 <= j < b.len() ==> (#[trigger] a[i]).request_id != (
        #[trigger] b[j]).request_id
}

impl McState {
    /// Request ids are unique over both tables, and each pending debt is the
    /// sum of the amounts of its table.
    pub open spec fn wf(self) -> bool {
        &&& ids_unique(self.local)
        &&& ids_unique(self.remote)
        &&& ids_disjoint(self.local, self.remote)
        &&& self.balance.local_pending_debt == sum_amounts(self.local)
        &&& self.balance.remote_pending_debt == sum_amounts(self.remote)
    }

    /// Neither side can be committed to owe more than its credit limit.
    pub open spec fn credit_bounded(self, local_max_debt: u128, remote_max_debt: u128) -> bool {
        &&& self.balance.balance - self.balance.local_pending_debt >= -local_max_debt
        &&& self.balance.balance + self.balance.remote_pending_debt <= remote_max_debt
    }

    pub open spec fn has_request(self, id: Seq<u8>) -> bool {
        has_id(self.local, id) || has_id(self.remote, id)
    }
}

// ---------------------------------------------------------------------------
// Transitions
// ---------------------------------------------------------------------------

/// The local side sends a request.
pub open spec fn with_local_request(s: McState, r: McRequestV) -> McState {
    McState {
        balance: McBalance {
            local_pending_debt: (s.balance.local_pending_debt + amount(r)) as u128,
            ..s.balance
        },
        local: s.local.push(r),
        ..s
    }
}

/// The remote side sends a request.
pub open spec fn with_remote_request(s: McState, r: McRequestV) -> McState {
    McState {
        balance: McBalance {
            remote_pending_debt: (s.balance.remote_pending_debt + amount(r)) as u128,
            ..s.balance
        },
        remote: s.remote.push(r),
        ..s
    }
}

/// The remote side settles the local request at `i`: its amount leaves the
/// local pending debt and is added to the balance.
pub open spec fn settle_local(s: McState, i: int) -> McState {
    McState {
        balance: McBalance {
            balance: (s.balance.balance + amount(s.local[i])) as i128,
            local_pending_debt: (s.balance.local_pending_debt - amount(s.local[i])) as u128,
            ..s.balance
        },
        local: s.local.remove(i),
        ..s
    }
}

/// The local side settles the remote request at `i`: its amount leaves the
/// remote pending debt and is taken from the balance.
pub open spec fn settle_remote(s: McState, i: int) -> McState {
    McState {
        balance: McBalance {
            balance: (s.balance.balance - amount(s.remote[i])) as i128,
            remote_pending_debt: (s.balance.remote_pending_debt - amount(s.remote[i])) as u128,
            ..s.balance
        },
        remote: s.remote.remove(i),
        ..s
    }
}

/// The local request at `i` is withdrawn.
pub open spec fn drop_local(s: McState, i: int) -> McState {
    McState {
        balance: McBalance {
            local_pending_debt: (s.balance.local_pending_debt - amount(s.local[i])) as u128,
            ..s.balance
        },
        local: s.local.remove(i),
        ..s
    }
}

/// The remote request at `i` is withdrawn.
pub open spec fn drop_remote(s: McState, i: int) -> McState {
    McState {
        balance: McBalance {
            remote_pending_debt: (s.balance.remote_pending_debt - amount(s.remote[i])) as u128,
            ..s.balance
        },
        remote: s.remote.remove(i),
        ..s
    }
}

/// Whether a response proves the settlement of a request: its plain lock
/// hashes to the request's hashed lock, and the request's destination (the
/// last key of its route) signed it.
pub open spec fn response_valid_lock(r: McRequestV, p: McResponseV) -> bool {
    sha512_256_of(p.src_plain_lock) == r.src_hashed_lock
}

pub open spec fn response_valid_signature(currency: Seq<u8>, r: McRequestV, p: McResponseV) -> bool {
    r.route.len() > 0 && ed25519_accepts(
        r.route.last(),
        response_signature_buff_of(currency, r, p),
        p.signature,
    )
}

/// The outcome of sending a request, with the local credit limit.
pub open spec fn queue_request_outcome(s: McState, r: McRequestV, local_max_debt: u128) -> Result<
    bool,
    McError,
> {
    if s.has_request(r.request_id) {
        Err(McError::DuplicateRequestId)
    } else if s.balance.local_pending_debt + amount(r) > u128::MAX {
        Err(McError::ArithmeticOverflow)
    } else if s.balance.balance + local_max_debt < s.balance.local_pending_debt + amount(r) {
        Ok(false)
    } else {
        Ok(true)
    }
}

/// The outcome of receiving a request, with the remote credit limit.
pub open spec fn process_request_outcome(
    s: McState,
    r: McRequestV,
    remote_max_debt: u128,
) -> Result<(), McError> {
    if s.has_request(r.request_id) {
        Err(McError::DuplicateRequestId)
    } else if s.balance.remote_pending_debt + amount(r) > u128::MAX {
        Err(McError::ArithmeticOverflow)
    } else if s.balance.balance + s.balance.remote_pending_debt + amount(r) > remote_max_debt {
        Err(McError::InsufficientCredit)
    } else {
        Ok(())
    }
}

/// The outcome of checking a response against the request it answers.
pub open spec fn response_check(currency: Seq<u8>, r: McRequestV, p: McResponseV) -> Result<
    (),
    McError,
> {
    if !response_valid_lock(r, p) {
        Err(McError::LockMismatch)
    } else if !response_valid_signature(currency, r, p) {
        Err(McError::SignatureInvalid)
    } else {
        Ok(())
    }
}

/// The outcome of the local side answering a remote request.
pub open spec fn queue_response_outcome(s: McState, currency: Seq<u8>, p: McResponseV) -> Result<
    (),
    McError,
> {
    if !has_id(s.remote, p.request_id) {
        Err(McError::UnknownRequestId)
    } else {
        let r = s.remote[index_of(s.remote, p.request_id)];
        if response_check(currency, r, p) is Err {
            response_check(currency, r, p)
        } else if s.balance.balance - amount(r) < i128::MIN {
            Err(McError::ArithmeticOverflow)
        } else {
            Ok(())
        }
    }
}

/// The outcome of the remote side answering a local request.
pub open spec fn process_response_outcome(s: McState, currency: Seq<u8>, p: McResponseV) -> Result<
    (),
    McError,
> {
    if !has_id(s.local, p.request_id) {
        Err(McError::UnknownRequestId)
    } else {
        let r = s.local[index_of(s.local, p.request_id)];
        if response_check(currency, r, p) is Err {
            response_check(currency, r, p)
        } else if s.balance.balance + amount(r) > i128::MAX {
            Err(McError::ArithmeticOverflow)
        } else {
            Ok(())
        }
    }
}

// ---------------------------------------------------------------------------
// Lemmas on the tables
// ---------------------------------------------------------------------------

proof fn lemma_sum_push(s: Seq<McRequestV>, r: McRequestV)
    ensures
        sum_amounts(s.push(r)) == sum_amounts(s) + amount(r),
{
    assert(s.push(r).drop_last() =~= s);
}

proof fn lemma_sum_nonneg(s: Seq<McRequestV>)
    ensures
        sum_amounts(s) >= 0,
    decreases s.len(),
{
    if s.len() > 0 {
        lemma_sum_nonneg(s.drop_last());
    }
}

proof fn lemma_sum_remove(s: Seq<McRequestV>, i: int)
    requires
        0 <= i < s.len(),
    ensures
        sum_amounts(s.remove(i)) == sum_amounts(s) - amount(s[i]),
    decreases s.len(),
{
    if i == s.len() - 1 {
        assert(s.remove(i) =~= s.drop_last());
    } else {
        lemma_sum_remove(s.drop_last(), i);
        assert(s.remove(i) =~= s.drop_last().remove(i).push(s.last()));
        lemma_sum_push(s.drop_last().remove(i), s.last());
    }
}

proof fn lemma_index_of(s: Seq<McRequestV>, i: int)
    requires
        ids_unique(s),
        0 <= i < s.len(),
    ensures
        has_id(s, s[i].request_id),
        index_of(s, s[i].request_id) == i,
{
    assert(has_id(s, s[i].request_id));
    let j = index_of(s, s[i].request_id);
    assert(s[j].request_id == s[i].request_id);
}

pub(crate) proof fn lemma_index_of_some(s: Seq<McRequestV>, id: Seq<u8>)
    requires
        has_id(s, id),
    ensures
        0 <= index_of(s, id) < s.len(),
        s[index_of(s, id)].request_id == id,
{
}

proof fn lemma_unique_push(s: Seq<McRequestV>, r: McRequestV)
    requires
        ids_unique(s),
        !has_id(s, r.request_id),
    ensures
        ids_unique(s.push(r)),
{
    let t = s.push(r);
    assert forall|i: int, j: int|
        0 <= i < t.len() && 0 <= j < t.len() && i != j implies (#[trigger] t[i]).request_id != (
        #[trigger] t[j]).request_id by {
        if i < s.len() && j < s.len() {
            assert(t[i] == s[i] && t[j] == s[j]);
        } else if i < s.len() {
            assert(t[i] == s[i]);
        } else {
            assert(t[j] == s[j]);
        }
    }
}

proof fn lemma_disjoint_push(a: Seq<McRequestV>, b: Seq<McRequestV>, r: McRequestV)
    requires
        ids_disjoint(a, b),
        !has_id(b, r.request_id),
    ensures
        ids_disjoint(a.push(r), b),
        ids_disjoint(b, a.push(r)),
{
    let t = a.push(r);
    assert forall|i: int, j: int| 0 <= i < t.len() && 0 <= j < b.len() implies (
    #[trigger] t[i]).request_id != (#[trigger] b[j]).request_id by {
        if i < a.len() {
            assert(t[i] == a[i]);
        }
    }
    assert forall|i: int, j: int| 0 <= i < b.len() && 0 <= j < t.len() implies (
    #[trigger] b[i]).request_id != (#[trigger] t[j]).request_id by {
        if j < a.len() {
            assert(t[j] == a[j]);
        }
    }
}

proof fn lemma_unique_remove(s: Seq<McRequestV>, k: int)
    requires
        ids_unique(s),
        0 <= k < s.len(),
    ensures
        ids_unique(s.remove(k)),
{
    let t = s.remove(k);
    assert forall|i: int, j: int|
        0 <= i < t.len() && 0 <= j < t.len() && i != j implies (#[trigger] t[i]).request_id != (
        #[trigger] t[j]).request_id by {
        let i2 = if i < k {
            i
        } else {
            i + 1
        };
        let j2 = if j < k {
            j
        } else {
            j + 1
        };
        assert(t[i] == s[i2] && t[j] == s[j2]);
    }
}

proof fn lemma_disjoint_remove(a: Seq<McRequestV>, b: Seq<McRequestV>, k: int)
    requires
        ids_disjoint(a, b),
        0 <= k < a.len(),
    ensures
        ids_disjoint(a.remove(k), b),
{
    let t = a.remove(k);
    assert forall|i: int, j: int| 0 <= i < t.len() && 0 <= j < b.len() implies (
    #[trigger] t[i]).request_id != (#[trigger] b[j]).request_id by {
        let i2 = if i < k {
            i
        } else {
            i + 1
        };
        assert(t[i] == a[i2]);
    }
}

proof fn lemma_disjoint_remove_right(a: Seq<McRequestV>, b: Seq<McRequestV>, k: int)
    requires
        ids_disjoint(a, b),
        0 <= k < b.len(),
    ensures
        ids_disjoint(a, b.remove(k)),
{
    let t = b.remove(k);
    assert forall|i: int, j: int| 0 <= i < a.len() && 0 <= j < t.len() implies (
    #[trigger] a[i]).request_id != (#[trigger] t[j]).request_id by {
        let j2 = if j < k {
            j
        } else {
            j + 1
        };
        assert(t[j] == b[j2]);
    }
}

/// Receiving a request that is accepted keeps the ledger well formed.
pub(crate) proof fn lemma_process_request_wf(s: McState, r: McRequestV, remote_max_debt: u128)
    requires
        s.wf(),
        process_request_outcome(s, r, remote_max_debt) is Ok,
    ensures
        with_remote_request(s, r).wf(),
{
    lemma_with_remote_request_wf(s, r);
}

/// Settling or withdrawing a local request keeps the ledger well formed.
pub(crate) proof fn lemma_remove_local_kept(s: McState, i: int)
    requires
        s.wf(),
        0 <= i < s.local.len(),
    ensures
        drop_local(s, i).wf(),
        settle_local(s, i).wf(),
{
    lemma_remove_local_wf(s, i);
}

/// Every transition that adds a fresh request keeps the ledger well formed.
proof fn lemma_with_local_request_wf(s: McState, r: McRequestV)
    requires
        s.wf(),
        !s.has_request(r.request_id),
        s.balance.local_pending_debt + amount(r) <= u128::MAX,
    ensures
        with_local_request(s, r).wf(),
{
    lemma_unique_push(s.local, r);
    lemma_disjoint_push(s.local, s.remote, r);
    lemma_sum_push(s.local, r);
}

proof fn lemma_with_remote_request_wf(s: McState, r: McRequestV)
    requires
        s.wf(),
        !s.has_request(r.request_id),
        s.balance.remote_pending_debt + amount(r) <= u128::MAX,
    ensures
        with_remote_request(s, r).wf(),
{
    lemma_unique_push(s.remote, r);
    lemma_disjoint_push(s.remote, s.local, r);
    lemma_sum_push(s.remote, r);
}

/// Removing a local request keeps the ledger well formed, whether it was
/// settled or withdrawn.
proof fn lemma_remove_local_wf(s: McState, i: int)
    requires
        s.wf(),
        0 <= i < s.local.len(),
    ensures
        drop_local(s, i).wf(),
        settle_local(s, i).local == drop_local(s, i).local,
        settle_local(s, i).balance.local_pending_debt == drop_local(s, i).balance.local_pending_debt,
        s.balance.local_pending_debt - amount(s.local[i]) >= 0,
        0 <= amount(s.local[i]) <= u128::MAX,
{
    lemma_unique_remove(s.local, i);
    lemma_disjoint_remove(s.local, s.remote, i);
    lemma_sum_remove(s.local, i);
    lemma_sum_nonneg(s.local.remove(i));
}

proof fn lemma_remove_remote_wf(s: McState, i: int)
    requires
        s.wf(),
        0 <= i < s.remote.len(),
    ensures
        drop_remote(s, i).wf(),
        settle_remote(s, i).remote == drop_remote(s, i).remote,
        settle_remote(s, i).balance.remote_pending_debt == drop_remote(
            s,
            i,
        ).balance.remote_pending_debt,
        s.balance.remote_pending_debt - amount(s.remote[i]) >= 0,
        0 <= amount(s.remote[i]) <= u128::MAX,
{
    lemma_unique_remove(s.remote, i);
    lemma_disjoint_remove_right(s.local, s.remote, i);
    lemma_sum_remove(s.remote, i);
    lemma_sum_nonneg(s.remote.remove(i));
}

// ---------------------------------------------------------------------------
// Arithmetic
// ---------------------------------------------------------------------------

/// Whether `balance + max_debt >= debt`.
fn credit_covers(balance: i128, max_debt: u128, debt: u128) -> (r: bool)
    ensures
        r == (balance + max_debt >= debt),
{
    if balance >= 0 {
        match max_debt.checked_add(balance as u128) {
            Some(s) => s >= debt,
            None => true,
        }
    } else {
        let neg: u128 = (-(balance + 1)) as u128 + 1;
        max_debt >= neg && max_debt - neg >= debt
    }
}

/// Whether `balance + debt <= max_debt`.
fn debt_within(balance: i128, debt: u128, max_debt: u128) -> (r: bool)
    ensures
        r == (balance + debt <= max_debt),
{
    if balance < 0 {
        let neg: u128 = (-(balance + 1)) as u128 + 1;
        match max_debt.checked_add(neg) {
            Some(s) => debt <= s,
            None => true,
        }
    } else {
        let b = balance as u128;
        b <= max_debt && debt <= max_debt - b
    }
}

/// The position of the request with the given id, if any.
pub(crate) fn find_request(v: &Vec<McRequest>, id: &Uid) -> (r: Option<usize>)
    ensures
        r is None ==> !has_id(requests_view(v@), id@),
        r matches Some(i) ==> i < v@.len() && requests_view(v@)[i as int].request_id == id@,
{
    let mut i: usize = 0;
    while i < v.len()
        invariant
            i <= v.len(),
            forall|j: int| 0 <= j < i ==> (#[trigger] requests_view(v@)[j]).request_id != id@,
        decreases v.len() - i,
    {
        if bytes_eq(&v[i].request_id, id) {
            return Some(i);
        }
        i = i + 1;
    }
    None
}

/// A copy of a list of requests.
fn copy_requests(v: &Vec<McRequest>) -> (r: Vec<McRequest>)
    ensures
        requests_view(r@) == requests_view(v@),
{
    let mut r: Vec<McRequest> = Vec::new();
    let mut i: usize = 0;
    while i < v.len()
        invariant
            i <= v.len(),
            r@.len() == i,
            forall|j: int| 0 <= j < i ==> #[trigger] r@[j]@ == v@[j]@,
        decreases v.len() - i,
    {
        r.push(v[i].copy());
        i = i + 1;
    }
    assert(requests_view(r@) =~= requests_view(v@));
    r
}

/// Checks the lock and the signature of a response against its request.
fn check_response(currency: &Currency, r: &McRequest, p: &McResponse) -> (res: Result<(), McError>)
    ensures
        res == response_check(currency@, r@, p@),
{
    let hashed = hash_buffer(p.src_plain_lock.as_slice());
    if !bytes_eq(&hashed, &r.src_hashed_lock) {
        return Err(McError::LockMismatch);
    }
    if r.route.len() == 0 {
        return Err(McError::SignatureInvalid);
    }
    let buff = response_signature_buff(currency, r, p);
    let dest = &r.route[r.route.len() - 1];
    if !verify_signature(dest.as_slice(), buff.as_slice(), p.signature.as_slice()) {
        return Err(McError::SignatureInvalid);
    }
    Ok(())
}

// ---------------------------------------------------------------------------
// Operations
// ---------------------------------------------------------------------------

impl MutualCredit {
    /// A ledger with the given balance and nothing pending.
    pub fn new(balance: i128) -> (r: MutualCredit)
        ensures
            r@.balance == (McBalance {
                balance,
                local_pending_debt: 0,
                remote_pending_debt: 0,
                in_fees: 0,
                out_fees: 0,
            }),
            r@.local == Seq::<McRequestV>::empty(),
            r@.remote == Seq::<McRequestV>::empty(),
            r@.wf(),
    {
        let r = MutualCredit {
            balance: McBalance {
                balance,
                local_pending_debt: 0,
                remote_pending_debt: 0,
                in_fees: 0,
                out_fees: 0,
            },
            pending_local_requests: Vec::new(),
            pending_remote_requests: Vec::new(),
        };
        assert(r@.local =~= Seq::<McRequestV>::empty());
        assert(r@.remote =~= Seq::<McRequestV>::empty());
        r
    }

    /// A copy of this ledger.
    pub fn copy(&self) -> (r: MutualCredit)
        ensures
            r@ == self@,
    {
        MutualCredit {
            balance: self.balance,
            pending_local_requests: copy_requests(&self.pending_local_requests),
            pending_remote_requests: copy_requests(&self.pending_remote_requests),
        }
    }

    pub fn get_balance(&self) -> (r: McBalance)
        ensures
            r == self.balance,
    {
        self.balance
    }

    /// Sends a request: it becomes pending and its amount is reserved in the
    /// local pending debt, unless the local credit limit would be exceeded, in
    /// which case the request is answered at once with a cancel and nothing
    /// changes.
    pub fn queue_request(&mut self, request: McRequest, local_max_debt: u128) -> (r: Result<
        Result<(), McCancel>,
        McError,
    >)
        requires
            old(self)@.wf(),
        ensures
            final(self)@.wf(),
            match queue_request_outcome(old(self)@, request@, local_max_debt) {
                Err(e) => r == Err::<Result<(), McCancel>, McError>(e) && final(self)@ == old(
                    self,
                )@,
                Ok(false) => r matches Ok(Err(c)) && c.request_id@ == request@.request_id
                    && final(self)@ == old(self)@,
                Ok(true) => r == Ok::<Result<(), McCancel>, McError>(Ok(())) && final(self)@
                    == with_local_request(old(self)@, request@),
            },
    {
        if find_request(&self.pending_local_requests, &request.request_id).is_some()
            || find_request(&self.pending_remote_requests, &request.request_id).is_some() {
            return Err(McError::DuplicateRequestId);
        }
        let amt = match request.dest_payment.checked_add(request.left_fees) {
            Some(a) => a,
            None => {
                return Err(McError::ArithmeticOverflow);
            },
        };
        let new_debt = match self.balance.local_pending_debt.checked_add(amt) {
            Some(d) => d,
            None => {
                return Err(McError::ArithmeticOverflow);
            },
        };
        if !credit_covers(self.balance.balance, local_max_debt, new_debt) {
            return Ok(Err(McCancel { request_id: request.request_id }));
        }
        proof {
            lemma_with_local_request_wf(self@, request@);
        }
        self.balance.local_pending_debt = new_debt;
        self.pending_local_requests.push(request);
        assert(self@.local =~= old(self)@.local.push(request@));
        Ok(Ok(()))
    }

    /// Receives a request: it becomes pending and its amount is reserved in
    /// the remote pending debt, within the remote credit limit.
    pub fn process_request(&mut self, request: McRequest, remote_max_debt: u128) -> (r: Result<
        (),
        McError,
    >)
        requires
            old(self)@.wf(),
        ensures
            final(self)@.wf(),
            r == process_request_outcome(old(self)@, request@, remote_max_debt),
            r is Ok ==> final(self)@ == with_remote_request(old(self)@, request@),
            r is Err ==> final(self)@ == old(self)@,
    {
        if find_request(&self.pending_local_requests, &request.request_id).is_some()
            || find_request(&self.pending_remote_requests, &request.request_id).is_some() {
            return Err(McError::DuplicateRequestId);
        }
        let amt = match request.dest_payment.checked_add(request.left_fees) {
            Some(a) => a,
            None => {
                return Err(McError::ArithmeticOverflow);
            },
        };
        let new_debt = match self.balance.remote_pending_debt.checked_add(amt) {
            Some(d) => d,
            None => {
                return Err(McError::ArithmeticOverflow);
            },
        };
        if !debt_within(self.balance.balance, new_debt, remote_max_debt) {
            return Err(McError::InsufficientCredit);
        }
        proof {
            lemma_with_remote_request_wf(self@, request@);
        }
        self.balance.remote_pending_debt = new_debt;
        self.pending_remote_requests.push(request);
        assert(self@.remote =~= old(self)@.remote.push(request@));
        Ok(())
    }

    /// Answers a request of the remote side: its amount leaves the remote
    /// pending debt and is taken from the balance.
    pub fn queue_response(&mut self, currency: &Currency, response: &McResponse) -> (r: Result<
        (),
        McError,
    >)
        requires
            old(self)@.wf(),
        ensures
            final(self)@.wf(),
            r == queue_response_outcome(old(self)@, currency@, response@),
            r is Ok ==> final(self)@ == settle_remote(
                old(self)@,
                index_of(old(self)@.remote, response@.request_id),
            ),
            r is Err ==> final(self)@ == old(self)@,
    {
        let i = match find_request(&self.pending_remote_requests, &response.request_id) {
            Some(i) => i,
            None => {
                return Err(McError::UnknownRequestId);
            },
        };
        proof {
            lemma_index_of(self@.remote, i as int);
            lemma_remove_remote_wf(self@, i as int);
        }
        check_response(currency, &self.pending_remote_requests[i], response)?;
        let amt = self.pending_remote_requests[i].dest_payment + self.pending_remote_requests[i].left_fees;
        let new_balance = match self.balance.balance.checked_sub_unsigned(amt) {
            Some(b) => b,
            None => {
                return Err(McError::ArithmeticOverflow);
            },
        };
        self.balance.balance = new_balance;
        self.balance.remote_pending_debt = self.balance.remote_pending_debt - amt;
        self.pending_remote_requests.remove(i);
        assert(self@.remote =~= old(self)@.remote.remove(i as int));
        Ok(())
    }

    /// Receives the answer to a local request: its amount leaves the local
    /// pending debt and is added to the balance. Returns the settled request.
    pub fn process_response(&mut self, currency: &Currency, response: &McResponse) -> (r: Result<
        McRequest,
        McError,
    >)
        requires
            old(self)@.wf(),
        ensures
            final(self)@.wf(),
            r is Ok <==> process_response_outcome(old(self)@, currency@, response@) is Ok,
            r matches Err(e) ==> process_response_outcome(old(self)@, currency@, response@)
                == Err::<(), McError>(e) && final(self)@ == old(self)@,
            r matches Ok(q) ==> q@ == old(self)@.local[index_of(
                old(self)@.local,
                response@.request_id,
            )] && final(self)@ == settle_local(
                old(self)@,
                index_of(old(self)@.local, response@.request_id),
            ),
    {
        let i = match find_request(&self.pending_local_requests, &response.request_id) {
            Some(i) => i,
            None => {
                return Err(McError::UnknownRequestId);
            },
        };
        proof {
            lemma_index_of(self@.local, i as int);
            lemma_remove_local_wf(self@, i as int);
        }
        check_response(currency, &self.pending_local_requests[i], response)?;
        let amt = self.pending_local_requests[i].dest_payment + self.pending_local_requests[i].left_fees;
        let new_balance = match self.balance.balance.checked_add_unsigned(amt) {
            Some(b) => b,
            None => {
                return Err(McError::ArithmeticOverflow);
            },
        };
        self.balance.balance = new_balance;
        self.balance.local_pending_debt = self.balance.local_pending_debt - amt;
        let q = self.pending_local_requests.remove(i);
        assert(self@.local =~= old(self)@.local.remove(i as int));
        Ok(q)
    }

    /// Withdraws a request of the remote side: its amount leaves the remote
    /// pending debt; the balance stays.
    pub fn queue_cancel(&mut self, cancel: &McCancel) -> (r: Result<(), McError>)
        requires
            old(self)@.wf(),
        ensures
            final(self)@.wf(),
            r is Ok <==> has_id(old(self)@.remote, cancel.request_id@),
            r is Err ==> r == Err::<(), McError>(McError::UnknownRequestId) && final(self)@ == old(
                self,
            )@,
            r is Ok ==> final(self)@ == drop_remote(
                old(self)@,
                index_of(old(self)@.remote, cancel.request_id@),
            ),
    {
        let i = match find_request(&self.pending_remote_requests, &cancel.request_id) {
            Some(i) => i,
            None => {
                return Err(McError::UnknownRequestId);
            },
        };
        proof {
            lemma_index_of(self@.remote, i as int);
            lemma_remove_remote_wf(self@, i as int);
        }
        let amt = self.pending_remote_requests[i].dest_payment + self.pending_remote_requests[i].left_fees;
        self.balance.remote_pending_debt = self.balance.remote_pending_debt - amt;
        self.pending_remote_requests.remove(i);
        assert(self@.remote =~= old(self)@.remote.remove(i as int));
        Ok(())
    }

    /// Receives the withdrawal of a local request: its amount leaves the local
    /// pending debt; the balance stays. Returns the withdrawn request.
    pub fn process_cancel(&mut self, cancel: &McCancel) -> (r: Result<McRequest, McError>)
        requires
            old(self)@.wf(),
        ensures
            final(self)@.wf(),
            r is Ok <==> has_id(old(self)@.local, cancel.request_id@),
            r is Err ==> r == Err::<McRequest, McError>(McError::UnknownRequestId) && final(self)@
                == old(self)@,
            r matches Ok(q) ==> q@ == old(self)@.local[index_of(
                old(self)@.local,
                cancel.request_id@,
            )] && final(self)@ == drop_local(
                old(self)@,
                index_of(old(self)@.local, cancel.request_id@),
            ),
    {
        let i = match find_request(&self.pending_local_requests, &cancel.request_id) {
            Some(i) => i,
            None => {
                return Err(McError::UnknownRequestId);
            },
        };
        proof {
            lemma_index_of(self@.local, i as int);
            lemma_remove_local_wf(self@, i as int);
        }
        let amt = self.pending_local_requests[i].dest_payment + self.pending_local_requests[i].left_fees;
        self.balance.local_pending_debt = self.balance.local_pending_debt - amt;
        let q = self.pending_local_requests.remove(i);
        assert(self@.local =~= old(self)@.local.remove(i as int));
        Ok(q)
    }
}

// ---------------------------------------------------------------------------
// Laws
// ---------------------------------------------------------------------------

/// Sending a request and then receiving its response leaves the local pending
/// debt as it was and adds the request's amount to the balance; sending it and
/// then receiving its cancel leaves the whole balance and the pending requests
/// as they were.
pub proof fn lemma_request_round_trip(s: McState, r: McRequestV, local_max_debt: u128)
    requires
        s.wf(),
        queue_request_outcome(s, r, local_max_debt) == Ok::<bool, McError>(true),
    ensures
        index_of(with_local_request(s, r).local, r.request_id) == s.local.len(),
        settle_local(with_local_request(s, r), s.local.len() as int).balance.local_pending_debt
            == s.balance.local_pending_debt,
        settle_local(with_local_request(s, r), s.local.len() as int).local == s.local,
        s.balance.balance + amount(r) <= i128::MAX ==> settle_local(
            with_local_request(s, r),
            s.local.len() as int,
        ).balance.balance == s.balance.balance + amount(r),
        drop_local(with_local_request(s, r), s.local.len() as int) == s,
{
    let t = with_local_request(s, r);
    lemma_with_local_request_wf(s, r);
    lemma_index_of(t.local, s.local.len() as int);
    assert(t.local.remove(s.local.len() as int) =~= s.local);
    lemma_sum_push(s.local, r);
    lemma_sum_nonneg(s.local);
}

/// A step that sends or receives a request, or withdraws one, keeps both
/// credit limits.
pub proof fn lemma_credit_bound_requests(
    s: McState,
    r: McRequestV,
    local_max_debt: u128,
    remote_max_debt: u128,
)
    requires
        s.wf(),
        s.credit_bounded(local_max_debt, remote_max_debt),
    ensures
        queue_request_outcome(s, r, local_max_debt) == Ok::<bool, McError>(true) ==> with_local_request(
            s,
            r,
        ).credit_bounded(local_max_debt, remote_max_debt),
        process_request_outcome(s, r, remote_max_debt) is Ok ==> with_remote_request(
            s,
            r,
        ).credit_bounded(local_max_debt, remote_max_debt),
        forall|i: int|
            0 <= i < s.local.len() ==> (#[trigger] drop_local(s, i)).credit_bounded(
                local_max_debt,
                remote_max_debt,
            ),
        forall|i: int|
            0 <= i < s.remote.len() ==> (#[trigger] drop_remote(s, i)).credit_bounded(
                local_max_debt,
                remote_max_debt,
            ),
{
    assert forall|i: int| 0 <= i < s.local.len() implies (#[trigger] drop_local(
        s,
        i,
    )).credit_bounded(local_max_debt, remote_max_debt) by {
        lemma_remove_local_wf(s, i);
        lemma_sum_nonneg(s.local);
    }
    assert forall|i: int| 0 <= i < s.remote.len() implies (#[trigger] drop_remote(
        s,
        i,
    )).credit_bounded(local_max_debt, remote_max_debt) by {
        lemma_remove_remote_wf(s, i);
    }
}

/// A settlement keeps the credit limit on the side whose debt it releases;
/// it keeps the other limit only where the moved balance stays within it.
pub proof fn lemma_credit_bound_settle(
    s: McState,
    i: int,
    local_max_debt: u128,
    remote_max_debt: u128,
)
    requires
        s.wf(),
        s.credit_bounded(local_max_debt, remote_max_debt),
    ensures
        0 <= i < s.local.len() && s.balance.balance + amount(s.local[i]) <= i128::MAX
            && s.balance.balance + amount(s.local[i]) + s.balance.remote_pending_debt
            <= remote_max_debt ==> settle_local(s, i).credit_bounded(
            local_max_debt,
            remote_max_debt,
        ),
        0 <= i < s.remote.len() && s.balance.balance - amount(s.remote[i]) >= i128::MIN
            && s.balance.balance - amount(s.remote[i]) - s.balance.local_pending_debt
            >= -local_max_debt ==> settle_remote(s, i).credit_bounded(
            local_max_debt,
            remote_max_debt,
        ),
{
    if 0 <= i < s.local.len() {
        lemma_remove_local_wf(s, i);
    }
    if 0 <= i < s.remote.len() {
        lemma_remove_remote_wf(s, i);
    }
}

/// The two sides of one mutual credit see it mirrored: opposite balances,
/// and each side's local requests are the other's remote ones.
pub open spec fn mirrored(a: McState, b: McState) -> bool {
    &&& a.balance.balance == -b.balance.balance
    &&& a.balance.local_pending_debt == b.balance.remote_pending_debt
    &&& a.balance.remote_pending_debt == b.balance.local_pending_debt
    &&& a.local == b.remote
    &&& a.remote == b.local
}

/// When one side sends a request and the other receives it, the two sides
/// stay mirrored.
pub proof fn lemma_mirrored_request(a: McState, b: McState, r: McRequestV)
    requires
        mirrored(a, b),
        a.balance.local_pending_debt + amount(r) <= u128::MAX,
    ensures
        mirrored(with_local_request(a, r), with_remote_request(b, r)),
{
}

/// When one side answers a request and the other receives the answer, the two
/// sides stay mirrored.
pub proof fn lemma_mirrored_response(a: McState, b: McState, id: Seq<u8>)
    requires
        mirrored(a, b),
        a.wf(),
        has_id(a.local, id),
        a.balance.balance + amount(a.local[index_of(a.local, id)]) <= i128::MAX,
        b.balance.balance - amount(a.local[index_of(a.local, id)]) >= i128::MIN,
    ensures
        mirrored(
            settle_local(a, index_of(a.local, id)),
            settle_remote(b, index_of(b.remote, id)),
        ),
{
}

/// When one side withdraws a request and the other receives the withdrawal,
/// the two sides stay mirrored.
pub proof fn lemma_mirrored_cancel(a: McState, b: McState, id: Seq<u8>)
    requires
        mirrored(a, b),
        has_id(a.local, id),
    ensures
        mirrored(drop_local(a, index_of(a.local, id)), drop_remote(b, index_of(b.remote, id))),
{
}

} // verus!
