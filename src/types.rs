//! The values that travel between two friends and the abstract models that
//! the contracts speak of.
use vstd::prelude::*;

verus! {

/// A public key: a fixed-width opaque byte string.
pub type PublicKey = Vec<u8>;

/// A signature: a fixed-width opaque byte string.
pub type Signature = Vec<u8>;

/// The result of hashing.
pub type HashResult = Vec<u8>;

/// A request identifier.
pub type Uid = Vec<u8>;

/// The preimage of a hash lock.
pub type PlainLock = Vec<u8>;

/// The hash of a plain lock.
pub type HashedLock = Vec<u8>;

/// A short opaque currency tag, such as "FST".
pub type Currency = Vec<u8>;

/// The balance part of one mutual credit, from the local side's point of view.
#[derive(Clone, Copy, Debug, PartialEq, Eq, Structural)]
pub struct McBalance {
    /// The net amount owed; positive when the remote side owes the local side.
    pub balance: i128,
    /// The sum of the amounts of pending requests that the local side sent.
    pub local_pending_debt: u128,
    /// The sum of the amounts of pending requests that the remote side sent.
    pub remote_pending_debt: u128,
    pub in_fees: u128,
    pub out_fees: u128,
}

impl McBalance {
    /// The same balance as the remote side sees it.
    pub open spec fn flipped(self) -> McBalance {
        McBalance {
            balance: (-self.balance) as i128,
            local_pending_debt: self.remote_pending_debt,
            remote_pending_debt: self.local_pending_debt,
            in_fees: self.out_fees,
            out_fees: self.in_fees,
        }
    }

    /// Whether the balance and both pending debts are zero.
    pub open spec fn is_zero(self) -> bool {
        self.balance == 0 && self.local_pending_debt == 0 && self.remote_pending_debt == 0
    }

    /// The balance as the remote side sees it; `None` where the negation of
    /// the balance does not fit.
    pub fn flip(&self) -> (r: Option<McBalance>)
        ensures
            r == (if self.balance == i128::MIN {
                None::<McBalance>
            } else {
                Some(self.flipped())
            }),
    {
        if self.balance == i128::MIN {
            None
        } else {
            Some(
                McBalance {
                    balance: -self.balance,
                    local_pending_debt: self.remote_pending_debt,
                    remote_pending_debt: self.local_pending_debt,
                    in_fees: self.out_fees,
                    out_fees: self.in_fees,
                },
            )
        }
    }
}

/// The balance that a side offers to restart a broken channel from.
#[derive(Clone, Copy, Debug, PartialEq, Eq, Structural)]
pub struct ResetBalance {
    pub balance: i128,
    pub in_fees: u128,
    pub out_fees: u128,
}

/// A request to pass funds along a route of public keys.
#[derive(Clone, Debug)]
pub struct McRequest {
    pub request_id: Uid,
    pub src_hashed_lock: HashedLock,
    pub route: Vec<PublicKey>,
    pub dest_payment: u128,
    pub total_dest_payment: u128,
    pub invoice_hash: HashResult,
    pub left_fees: u128,
}

/// The answer of the destination that settles a request.
#[derive(Clone, Debug)]
pub struct McResponse {
    pub request_id: Uid,
    pub src_plain_lock: PlainLock,
    pub serial_num: u128,
    pub signature: Signature,
}

/// The withdrawal of a request.
#[derive(Clone, Debug)]
pub struct McCancel {
    pub request_id: Uid,
}

/// One operation on a mutual credit.
#[derive(Clone, Debug)]
pub enum McOp {
    Request(McRequest),
    Response(McResponse),
    Cancel(McCancel),
}

/// An operation as it travels inside a move token, beside its currency.
pub type FriendTcOp = McOp;

/// A signed batch of operations that moves the token to the other side.
#[derive(Clone, Debug)]
pub struct MoveToken {
    pub old_token: Signature,
    pub currencies_operations: Vec<(Currency, FriendTcOp)>,
    pub currencies_diff: Vec<Currency>,
    pub info_hash: HashResult,
    pub new_token: Signature,
}

/// The summary of a channel's state that every move token is bound to.
#[derive(Clone, Debug)]
pub struct TokenInfo {
    pub balances_hash: HashResult,
    pub move_token_counter: u128,
}

/// A move token as it is kept after it was received: the hash of its
/// contents, the token info it was checked against and its new token.
#[derive(Clone, Debug)]
pub struct MoveTokenHashed {
    pub prefix_hash: HashResult,
    pub token_info: TokenInfo,
    pub new_token: Signature,
}

/// A signed offer to restart a broken chain.
#[derive(Clone, Debug)]
pub struct ResetTerms {
    pub reset_token: Signature,
    pub move_token_counter: u128,
    pub reset_balances: Vec<(Currency, ResetBalance)>,
}

// ---------------------------------------------------------------------------
// Abstract models
// ---------------------------------------------------------------------------

/// The abstract value of a request.
pub struct McRequestV {
    pub request_id: Seq<u8>,
    pub src_hashed_lock: Seq<u8>,
    pub route: Seq<Seq<u8>>,
    pub dest_payment: u128,
    pub total_dest_payment: u128,
    pub invoice_hash: Seq<u8>,
    pub left_fees: u128,
}

/// The abstract value of a response.
pub struct McResponseV {
    pub request_id: Seq<u8>,
    pub src_plain_lock: Seq<u8>,
    pub serial_num: u128,
    pub signature: Seq<u8>,
}

/// The abstract value of an operation.
pub enum McOpV {
    Request(McRequestV),
    Response(McResponseV),
    Cancel(Seq<u8>),
}

/// The abstract value of a move token.
pub struct MoveTokenV {
    pub old_token: Seq<u8>,
    pub currencies_operations: Seq<(Seq<u8>, McOpV)>,
    pub currencies_diff: Seq<Seq<u8>>,
    pub info_hash: Seq<u8>,
    pub new_token: Seq<u8>,
}

/// The abstract value of a token info.
pub struct TokenInfoV {
    pub balances_hash: Seq<u8>,
    pub move_token_counter: u128,
}

/// The abstract value of a hashed move token.
pub struct MoveTokenHashedV {
    pub prefix_hash: Seq<u8>,
    pub token_info: TokenInfoV,
    pub new_token: Seq<u8>,
}

/// The abstract value of reset terms.
pub struct ResetTermsV {
    pub reset_token: Seq<u8>,
    pub move_token_counter: u128,
    pub reset_balances: Seq<(Seq<u8>, ResetBalance)>,
}

/// The amount that a request reserves: what the destination gets plus the fees
/// left for the hops after this one.
pub open spec fn amount(r: McRequestV) -> int {
    r.dest_payment + r.left_fees
}

/// The abstract values of a list of byte strings.
pub open spec fn bytes_list_view(v: Seq<Vec<u8>>) -> Seq<Seq<u8>> {
    v.map_values(|b: Vec<u8>| b@)
}

impl View for McRequest {
    type V = McRequestV;

    open spec fn view(&self) -> McRequestV {
        McRequestV {
            request_id: self.request_id@,
            src_hashed_lock: self.src_hashed_lock@,
            route: bytes_list_view(self.route@),
            dest_payment: self.dest_payment,
            total_dest_payment: self.total_dest_payment,
            invoice_hash: self.invoice_hash@,
            left_fees: self.left_fees,
        }
    }
}

impl View for McResponse {
    type V = McResponseV;

    open spec fn view(&self) -> McResponseV {
        McResponseV {
            request_id: self.request_id@,
            src_plain_lock: self.src_plain_lock@,
            serial_num: self.serial_num,
            signature: self.signature@,
        }
    }
}

impl View for McOp {
    type V = McOpV;

    open spec fn view(&self) -> McOpV {
        match self {
            McOp::Request(r) => McOpV::Request(r@),
            McOp::Response(r) => McOpV::Response(r@),
            McOp::Cancel(c) => McOpV::Cancel(c.request_id@),
        }
    }
}

/// The abstract values of a list of currency operations.
pub open spec fn ops_view(v: Seq<(Currency, FriendTcOp)>) -> Seq<(Seq<u8>, McOpV)> {
    v.map_values(|p: (Currency, FriendTcOp)| (p.0@, p.1@))
}

impl View for MoveToken {
    type V = MoveTokenV;

    open spec fn view(&self) -> MoveTokenV {
        MoveTokenV {
            old_token: self.old_token@,
            currencies_operations: ops_view(self.currencies_operations@),
            currencies_diff: bytes_list_view(self.currencies_diff@),
            info_hash: self.info_hash@,
            new_token: self.new_token@,
        }
    }
}

impl View for TokenInfo {
    type V = TokenInfoV;

    open spec fn view(&self) -> TokenInfoV {
        TokenInfoV { balances_hash: self.balances_hash@, move_token_counter: self.move_token_counter }
    }
}

impl View for MoveTokenHashed {
    type V = MoveTokenHashedV;

    open spec fn view(&self) -> MoveTokenHashedV {
        MoveTokenHashedV {
            prefix_hash: self.prefix_hash@,
            token_info: self.token_info@,
            new_token: self.new_token@,
        }
    }
}

/// The abstract values of a list of reset balances.
pub open spec fn reset_balances_view(v: Seq<(Currency, ResetBalance)>) -> Seq<(Seq<u8>, ResetBalance)> {
    v.map_values(|p: (Currency, ResetBalance)| (p.0@, p.1))
}

impl View for ResetTerms {
    type V = ResetTermsV;

    open spec fn view(&self) -> ResetTermsV {
        ResetTermsV {
            reset_token: self.reset_token@,
            move_token_counter: self.move_token_counter,
            reset_balances: reset_balances_view(self.reset_balances@),
        }
    }
}

// ---------------------------------------------------------------------------
// Copies with a known value
// ---------------------------------------------------------------------------

/// A copy of a byte string.
pub fn copy_bytes(b: &Vec<u8>) -> (r: Vec<u8>)
    ensures
        r@ == b@,
{
    let r = b.clone();
    assert(r@ =~= b@);
    r
}

/// A copy of a list of byte strings.
pub fn copy_bytes_list(v: &Vec<Vec<u8>>) -> (r: Vec<Vec<u8>>)
    ensures
        bytes_list_view(r@) == bytes_list_view(v@),
{
    let mut r: Vec<Vec<u8>> = Vec::new();
    let mut i: usize = 0;
    while i < v.len()
        invariant
            i <= v.len(),
            r@.len() == i,
            forall|j: int| 0 <= j < i ==> #[trigger] r@[j]@ == v@[j]@,
        decreases v.len() - i,
    {
        r.push(copy_bytes(&v[i]));
        i = i + 1;
    }
    assert(bytes_list_view(r@) =~= bytes_list_view(v@));
    r
}

impl McRequest {
    /// A copy of this request.
    pub fn copy(&self) -> (r: McRequest)
        ensures
            r@ == self@,
    {
        McRequest {
            request_id: copy_bytes(&self.request_id),
            src_hashed_lock: copy_bytes(&self.src_hashed_lock),
            route: copy_bytes_list(&self.route),
            dest_payment: self.dest_payment,
            total_dest_payment: self.total_dest_payment,
            invoice_hash: copy_bytes(&self.invoice_hash),
            left_fees: self.left_fees,
        }
    }
}

impl McResponse {
    /// A copy of this response.
    pub fn copy(&self) -> (r: McResponse)
        ensures
            r@ == self@,
    {
        McResponse {
            request_id: copy_bytes(&self.request_id),
            src_plain_lock: copy_bytes(&self.src_plain_lock),
            serial_num: self.serial_num,
            signature: copy_bytes(&self.signature),
        }
    }
}

impl McOp {
    /// A copy of this operation.
    pub fn copy(&self) -> (r: McOp)
        ensures
            r@ == self@,
    {
        match self {
            McOp::Request(q) => McOp::Request(q.copy()),
            McOp::Response(p) => McOp::Response(p.copy()),
            McOp::Cancel(c) => McOp::Cancel(McCancel { request_id: copy_bytes(&c.request_id) }),
        }
    }
}

impl TokenInfo {
    /// A copy of this token info.
    pub fn copy(&self) -> (r: TokenInfo)
        ensures
            r@ == self@,
    {
        TokenInfo {
            balances_hash: copy_bytes(&self.balances_hash),
            move_token_counter: self.move_token_counter,
        }
    }
}

impl MoveTokenHashed {
    /// A copy of this hashed move token.
    pub fn copy(&self) -> (r: MoveTokenHashed)
        ensures
            r@ == self@,
    {
        MoveTokenHashed {
            prefix_hash: copy_bytes(&self.prefix_hash),
            token_info: self.token_info.copy(),
            new_token: copy_bytes(&self.new_token),
        }
    }
}

/// A copy of a list of currency operations.
pub fn copy_ops(v: &Vec<(Currency, FriendTcOp)>) -> (r: Vec<(Currency, FriendTcOp)>)
    ensures
        ops_view(r@) == ops_view(v@),
{
    let mut r: Vec<(Currency, FriendTcOp)> = Vec::new();
    let mut i: usize = 0;
    while i < v.len()
        invariant
            i <= v.len(),
            r@.len() == i,
            forall|j: int| 0 <= j < i ==> #[trigger] r@[j].0@ == v@[j].0@ && r@[j].1@ == v@[j].1@,
        decreases v.len() - i,
    {
        let c = copy_bytes(&v[i].0);
        let o = v[i].1.copy();
        r.push((c, o));
        i = i + 1;
    }
    assert(ops_view(r@) =~= ops_view(v@));
    r
}

impl MoveToken {
    /// A copy of this move token.
    pub fn copy(&self) -> (r: MoveToken)
        ensures
            r@ == self@,
    {
        MoveToken {
            old_token: copy_bytes(&self.old_token),
            currencies_operations: copy_ops(&self.currencies_operations),
            currencies_diff: copy_bytes_list(&self.currencies_diff),
            info_hash: copy_bytes(&self.info_hash),
            new_token: copy_bytes(&self.new_token),
        }
    }
}

/// A copy of a list of reset balances.
pub fn copy_reset_balances(v: &Vec<(Currency, ResetBalance)>) -> (r: Vec<(Currency, ResetBalance)>)
    ensures
        reset_balances_view(r@) == reset_balances_view(v@),
{
    let mut r: Vec<(Currency, ResetBalance)> = Vec::new();
    let mut i: usize = 0;
    while i < v.len()
        invariant
            i <= v.len(),
            r@.len() == i,
            forall|j: int| 0 <= j < i ==> #[trigger] r@[j].0@ == v@[j].0@ && r@[j].1 == v@[j].1,
        decreases v.len() - i,
    {
        let c = copy_bytes(&v[i].0);
        let b = v[i].1;
        r.push((c, b));
        i = i + 1;
    }
    assert(reset_balances_view(r@) =~= reset_balances_view(v@));
    r
}

impl ResetTerms {
    /// A copy of these reset terms.
    pub fn copy(&self) -> (r: ResetTerms)
        ensures
            r@ == self@,
    {
        ResetTerms {
            reset_token: copy_bytes(&self.reset_token),
            move_token_counter: self.move_token_counter,
            reset_balances: copy_reset_balances(&self.reset_balances),
        }
    }
}

/// Whether two byte strings are equal.
pub fn bytes_eq(a: &Vec<u8>, b: &Vec<u8>) -> (r: bool)
    ensures
        r == (a@ == b@),
{
    if a.len() != b.len() {
        return false;
    }
    let mut i: usize = 0;
    while i < a.len()
        invariant
            i <= a.len(),
            a.len() == b.len(),
            forall|j: int| 0 <= j < i ==> a@[j] == b@[j],
        decreases a.len() - i,
    {
        if a[i] != b[i] {
            return false;
        }
        i = i + 1;
    }
    assert(a@ =~= b@);
    true
}

} // verus!
