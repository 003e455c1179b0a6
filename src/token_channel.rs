//! The token channel with one friend: the mutual credits of the currencies
//! that both sides keep, the direction of the token, and the signed chain of
//! move tokens with its recovery after a break.
use vstd::prelude::*;

use crate::crypto::{ed25519_accepts, sha512_256_of, verify_signature};
use crate::encode::{
    balances_bytes, balances_hash_of, hash_balances, hash_move_token_prefix, hash_token_info,
    info_hash_of, move_token_signature_buff, move_token_signature_buff_of, prefix_hash_of,
    reset_token_signature_buff, reset_token_signature_buff_of,
};
use crate::mutual_credit::{
    drop_local, drop_remote, has_id, index_of, process_request_outcome, process_response_outcome,
    queue_request_outcome, queue_response_outcome, settle_local, settle_remote, with_local_request,
    with_remote_request, IncomingMessage, IncomingMessageV, McError, McState, MutualCredit,
};
use crate::types::{
    amount, bytes_eq, bytes_list_view, copy_bytes, copy_bytes_list, Currency, FriendTcOp,
    McBalance, McCancel, McOp, McOpV, McRequest, McRequestV, McResponse, McResponseV, MoveToken,
    MoveTokenHashed, MoveTokenHashedV, MoveTokenV, PublicKey, ResetBalance, ResetTerms,
    ResetTermsV, Signature, TokenInfo, TokenInfoV,
};

verus! {

/// The width of a signature, and of the tokens derived from public keys.
pub const SIGNATURE_LEN: usize = 64;

/// Why the token channel could not go on; none of these is the remote side's
/// fault alone, and each leaves the channel as it was.
#[derive(Clone, Copy, Debug, PartialEq, Eq, Structural)]
pub enum TokenChannelError {
    MoveTokenCounterOverflow,
    CanNotRemoveCurrencyInUse,
    InvalidTokenChannelStatus,
    InvalidState,
    QueueOperationError(McError),
}

/// Why an incoming move token was refused; each breaks the chain.
#[derive(Clone, Copy, Debug, PartialEq, Eq, Structural)]
pub enum InvalidIncoming {
    InvalidSignature,
    InvalidOperation,
    InvalidTokenInfo,
    CanNotRemoveCurrencyInUse,
}

/// What a received move token carried, once applied.
#[derive(Debug)]
pub struct MoveTokenReceived {
    pub incoming_messages: Vec<(Currency, IncomingMessage)>,
}

/// What became of an incoming move token.
#[derive(Debug)]
pub enum ReceiveMoveTokenOutput {
    /// The move token was the last one received: nothing changed.
    Duplicate,
    /// The remote side asks again for our last move token.
    RetransmitOutgoing(MoveToken),
    /// The move token was applied.
    Received(MoveTokenReceived),
    /// The channel is inconsistent: these are our reset terms.
    ChainInconsistent(ResetTerms),
    /// The chain is broken and nothing changed yet: new local reset terms are
    /// to be signed and set with `set_inconsistent`.
    ChainBroken,
}

/// The direction of the token, or the terms of a broken channel.
#[derive(Debug)]
pub enum TcStatus {
    /// It is our turn to send; the last move token received.
    ConsistentIn(MoveTokenHashed),
    /// We sent last; our move token, and the one received before it.
    ConsistentOut(MoveToken, Option<MoveTokenHashed>),
    /// The chain is broken; our reset terms, and the remote side's.
    Inconsistent(ResetTerms, Option<ResetTerms>),
}

/// The fee that the local side asks for forwarding in a currency: `mul`
/// millionths of the amount plus `add`.
#[derive(Clone, Copy, Debug, PartialEq, Eq, Structural)]
pub struct Rate {
    pub mul: u32,
    pub add: u32,
}

/// The mutual credit of one currency, with the credit limit granted to the
/// remote side and the rate asked for forwarding.
#[derive(Debug)]
pub struct CurrencyCredit {
    pub currency: Currency,
    pub remote_max_debt: u128,
    pub rate: Rate,
    pub mutual_credit: MutualCredit,
}

/// The currencies that each side advertises and the mutual credits of those
/// that both advertise.
#[derive(Debug)]
pub struct Ledger {
    /// The currencies that the local side has advertised.
    pub local_currencies: Vec<Currency>,
    /// The currencies that the remote side has advertised.
    pub remote_currencies: Vec<Currency>,
    /// One mutual credit for each currency that both sides advertise, in
    /// increasing order of currency.
    pub credits: Vec<CurrencyCredit>,
}

/// The token channel with one friend.
#[derive(Debug)]
pub struct TokenChannel {
    pub status: TcStatus,
    pub move_token_counter: u128,
    pub ledger: Ledger,
}

// ---------------------------------------------------------------------------
// Abstract models
// ---------------------------------------------------------------------------

pub enum TcStatusV {
    ConsistentIn(MoveTokenHashedV),
    ConsistentOut(MoveTokenV, Option<MoveTokenHashedV>),
    Inconsistent(ResetTermsV, Option<ResetTermsV>),
}

pub struct CreditV {
    pub currency: Seq<u8>,
    pub remote_max_debt: u128,
    pub rate: Rate,
    pub mc: McState,
}

pub struct LedgerV {
    pub local_currencies: Seq<Seq<u8>>,
    pub remote_currencies: Seq<Seq<u8>>,
    pub credits: Seq<CreditV>,
}

pub struct TcState {
    pub status: TcStatusV,
    pub counter: u128,
    pub ledger: LedgerV,
}

pub open spec fn opt_hashed_view(o: Option<MoveTokenHashed>) -> Option<MoveTokenHashedV> {
    match o {
        Some(h) => Some(h@),
        None => None,
    }
}

pub open spec fn opt_terms_view(o: Option<ResetTerms>) -> Option<ResetTermsV> {
    match o {
        Some(t) => Some(t@),
        None => None,
    }
}

impl View for TcStatus {
    type V = TcStatusV;

    open spec fn view(&self) -> TcStatusV {
        match self {
            TcStatus::ConsistentIn(h) => TcStatusV::ConsistentIn(h@),
            TcStatus::ConsistentOut(mt, oh) => TcStatusV::ConsistentOut(mt@, opt_hashed_view(*oh)),
            TcStatus::Inconsistent(l, r) => TcStatusV::Inconsistent(l@, opt_terms_view(*r)),
        }
    }
}

impl View for CurrencyCredit {
    type V = CreditV;

    open spec fn view(&self) -> CreditV {
        CreditV {
            currency: self.currency@,
            remote_max_debt: self.remote_max_debt,
            rate: self.rate,
            mc: self.mutual_credit@,
        }
    }
}

pub open spec fn credits_view(v: Seq<CurrencyCredit>) -> Seq<CreditV> {
    v.map_values(|c: CurrencyCredit| c@)
}

impl View for Ledger {
    type V = LedgerV;

    open spec fn view(&self) -> LedgerV {
        LedgerV {
            local_currencies: bytes_list_view(self.local_currencies@),
            remote_currencies: bytes_list_view(self.remote_currencies@),
            credits: credits_view(self.credits@),
        }
    }
}

impl View for TokenChannel {
    type V = TcState;

    open spec fn view(&self) -> TcState {
        TcState { status: self.status@, counter: self.move_token_counter, ledger: self.ledger@ }
    }
}

pub open spec fn has_credit(credits: Seq<CreditV>, c: Seq<u8>) -> bool {
    exists|i: int| 0 <= i < credits.len() && (#[trigger] credits[i]).currency == c
}

pub open spec fn credit_index(credits: Seq<CreditV>, c: Seq<u8>) -> int {
    choose|i: int| 0 <= i < credits.len() && (#[trigger] credits[i]).currency == c
}

pub open spec fn credits_unique(credits: Seq<CreditV>) -> bool {
    forall|i: int, j: int|
        0 <= i < credits.len() && 0 <= j < credits.len() && i != j ==> (
        #[trigger] credits[i]).currency != (#[trigger] credits[j]).currency
}

/// The mutual credits are in increasing order of currency.
pub open spec fn credits_sorted(credits: Seq<CreditV>) -> bool {
    forall|i: int, j: int|
        0 <= i < j < credits.len() ==> lex_lt(
            (#[trigger] credits[i]).currency,
            (#[trigger] credits[j]).currency,
        )
}

/// Where a new currency goes among sorted credits: after those that come
/// before it, before the others.
pub open spec fn insert_position(credits: Seq<CreditV>, c: Seq<u8>) -> int {
    choose|p: int| is_insert_position(credits, c, p)
}

pub open spec fn is_insert_position(credits: Seq<CreditV>, c: Seq<u8>, p: int) -> bool {
    &&& 0 <= p <= credits.len()
    &&& forall|i: int| 0 <= i < p ==> lex_lt((#[trigger] credits[i]).currency, c)
    &&& forall|j: int| p <= j < credits.len() ==> !lex_lt((#[trigger] credits[j]).currency, c)
}

impl LedgerV {
    /// Every mutual credit is well formed, no currency is listed twice, and a
    /// mutual credit exists exactly for the currencies that both sides
    /// advertise.
    pub open spec fn wf(self) -> bool {
        &&& forall|i: int| 0 <= i < self.credits.len() ==> (#[trigger] self.credits[i]).mc.wf()
        &&& credits_unique(self.credits)
        &&& credits_sorted(self.credits)
        &&& self.local_currencies.no_duplicates()
        &&& self.remote_currencies.no_duplicates()
        &&& forall|c: Seq<u8>|
            #![trigger has_credit(self.credits, c)]
            #![trigger self.local_currencies.contains(c), self.remote_currencies.contains(c)]
            has_credit(self.credits, c) <==> (self.local_currencies.contains(c)
                && self.remote_currencies.contains(c))
    }
}

impl TcState {
    /// The ledger is well formed, and local reset terms always name the
    /// counter two past the channel's own.
    pub open spec fn wf(self) -> bool {
        &&& self.ledger.wf()
        &&& (self.status matches TcStatusV::Inconsistent(l, _) ==> l.move_token_counter
            == self.counter + 2)
    }
}

/// The balance of a fresh mutual credit.
pub open spec fn zero_balance() -> McBalance {
    McBalance { balance: 0, local_pending_debt: 0, remote_pending_debt: 0, in_fees: 0, out_fees: 0 }
}

pub open spec fn new_credit(c: Seq<u8>) -> CreditV {
    CreditV {
        currency: c,
        remote_max_debt: 0,
        rate: Rate { mul: 0, add: 0 },
        mc: McState { balance: zero_balance(), local: Seq::empty(), remote: Seq::empty() },
    }
}

/// The balances of the mutual credits, each beside its currency.
pub open spec fn balances_of(credits: Seq<CreditV>) -> Seq<(Seq<u8>, McBalance)> {
    credits.map_values(|e: CreditV| (e.currency, e.mc.balance))
}

/// The balances as the remote side sees them.
pub open spec fn flipped_balances_of(credits: Seq<CreditV>) -> Seq<(Seq<u8>, McBalance)> {
    credits.map_values(|e: CreditV| (e.currency, e.mc.balance.flipped()))
}

pub open spec fn all_flippable(credits: Seq<CreditV>) -> bool {
    forall|i: int| 0 <= i < credits.len() ==> (#[trigger] credits[i]).mc.balance.balance != i128::MIN
}

pub open spec fn hashed_of(mt: MoveTokenV, info: TokenInfoV) -> MoveTokenHashedV {
    MoveTokenHashedV { prefix_hash: prefix_hash_of(mt), token_info: info, new_token: mt.new_token }
}

/// A signature-wide token that holds a public key followed by zeros.
pub open spec fn token_from_public_key_of(pk: Seq<u8>) -> Seq<u8> {
    Seq::new(SIGNATURE_LEN as nat, |i: int| if i < pk.len() { pk[i] } else { 0u8 })
}

/// The move token that both sides take as already sent by the low side.
pub open spec fn initial_move_token_of(low: Seq<u8>, high: Seq<u8>) -> MoveTokenV {
    MoveTokenV {
        old_token: token_from_public_key_of(low),
        currencies_operations: Seq::empty(),
        currencies_diff: Seq::empty(),
        info_hash: Seq::empty(),
        new_token: token_from_public_key_of(high),
    }
}

/// The token info of a channel with no mutual credit at counter zero.
pub open spec fn initial_token_info() -> TokenInfoV {
    TokenInfoV { balances_hash: sha512_256_of(Seq::empty()), move_token_counter: 0 }
}

/// Lexicographic order on byte strings; a proper prefix comes first.
pub open spec fn lex_lt(a: Seq<u8>, b: Seq<u8>) -> bool
    decreases a.len(),
{
    if a.len() == 0 {
        b.len() > 0
    } else if b.len() == 0 {
        false
    } else if a[0] != b[0] {
        a[0] < b[0]
    } else {
        lex_lt(a.drop_first(), b.drop_first())
    }
}

/// The state in which a channel starts: the side with the lower public key
/// holds the initial move token as sent, the other as received.
pub open spec fn initial_state(local: Seq<u8>, remote: Seq<u8>) -> TcState {
    TcState {
        status: if lex_lt(local, remote) {
            TcStatusV::ConsistentOut(initial_move_token_of(local, remote), None)
        } else {
            TcStatusV::ConsistentIn(
                hashed_of(initial_move_token_of(remote, local), initial_token_info()),
            )
        },
        counter: 0,
        ledger: LedgerV {
            local_currencies: Seq::empty(),
            remote_currencies: Seq::empty(),
            credits: Seq::empty(),
        },
    }
}

// ---------------------------------------------------------------------------
// Small executable pieces
// ---------------------------------------------------------------------------

/// A token that holds `public_key` in its first bytes and zeros after it. It
/// is no signature; it only seeds the chain of a new channel.
pub fn token_from_public_key(public_key: &PublicKey) -> (r: Signature)
    ensures
        r@ == token_from_public_key_of(public_key@),
{
    let mut r: Vec<u8> = Vec::new();
    let mut i: usize = 0;
    while i < SIGNATURE_LEN
        invariant
            i <= SIGNATURE_LEN,
            r@.len() == i,
            forall|j: int| 0 <= j < i ==> #[trigger] r@[j] == token_from_public_key_of(public_key@)[j],
        decreases SIGNATURE_LEN - i,
    {
        if i < public_key.len() {
            r.push(public_key[i]);
        } else {
            r.push(0u8);
        }
        i = i + 1;
    }
    assert(r@ =~= token_from_public_key_of(public_key@));
    r
}

/// The move token that both sides of a new channel take as already sent by the
/// side with the lower public key, so that both start from one chain without
/// talking.
pub fn initial_move_token(low_public_key: &PublicKey, high_public_key: &PublicKey) -> (r: MoveToken)
    ensures
        r@ == initial_move_token_of(low_public_key@, high_public_key@),
{
    let r = MoveToken {
        old_token: token_from_public_key(low_public_key),
        currencies_operations: Vec::new(),
        currencies_diff: Vec::new(),
        info_hash: Vec::new(),
        new_token: token_from_public_key(high_public_key),
    };
    assert(r@.currencies_operations =~= Seq::<(Seq<u8>, McOpV)>::empty());
    assert(r@.currencies_diff =~= Seq::<Seq<u8>>::empty());
    assert(r@ =~= initial_move_token_of(low_public_key@, high_public_key@));
    r
}

/// A fresh balance, with no pending debt, from reset terms.
pub fn reset_balance_to_mc_balance(reset_balance: ResetBalance) -> (r: McBalance)
    ensures
        r == (McBalance {
            balance: reset_balance.balance,
            local_pending_debt: 0,
            remote_pending_debt: 0,
            in_fees: reset_balance.in_fees,
            out_fees: reset_balance.out_fees,
        }),
{
    McBalance {
        balance: reset_balance.balance,
        local_pending_debt: 0,
        remote_pending_debt: 0,
        in_fees: reset_balance.in_fees,
        out_fees: reset_balance.out_fees,
    }
}

proof fn lemma_lex_lt_skip(a: Seq<u8>, b: Seq<u8>, i: int)
    requires
        0 <= i <= a.len(),
        i <= b.len(),
        a.take(i) == b.take(i),
    ensures
        lex_lt(a, b) == lex_lt(a.skip(i), b.skip(i)),
    decreases i,
{
    if i > 0 {
        assert(a[0] == a.take(i)[0]);
        assert(b[0] == b.take(i)[0]);
        assert(a.drop_first().take(i - 1) =~= a.take(i).drop_first());
        assert(b.drop_first().take(i - 1) =~= b.take(i).drop_first());
        lemma_lex_lt_skip(a.drop_first(), b.drop_first(), i - 1);
        assert(a.drop_first().skip(i - 1) =~= a.skip(i));
        assert(b.drop_first().skip(i - 1) =~= b.skip(i));
    } else {
        assert(a.skip(0) =~= a);
        assert(b.skip(0) =~= b);
    }
}

/// Whether `a` comes before `b` in lexicographic order.
pub fn compare_public_key_lt(a: &PublicKey, b: &PublicKey) -> (r: bool)
    ensures
        r == lex_lt(a@, b@),
{
    let mut i: usize = 0;
    while i < a.len() && i < b.len()
        invariant
            i <= a.len(),
            i <= b.len(),
            a@.take(i as int) == b@.take(i as int),
        decreases a.len() - i,
    {
        if a[i] != b[i] {
            proof {
                lemma_lex_lt_skip(a@, b@, i as int);
                assert(a@.skip(i as int)[0] == a@[i as int]);
                assert(b@.skip(i as int)[0] == b@[i as int]);
            }
            return a[i] < b[i];
        }
        assert(a@.take(i + 1) =~= a@.take(i as int).push(a@[i as int]));
        assert(b@.take(i + 1) =~= b@.take(i as int).push(b@[i as int]));
        i = i + 1;
    }
    proof {
        lemma_lex_lt_skip(a@, b@, i as int);
    }
    i < b.len()
}

// ---------------------------------------------------------------------------
// The ledger: currencies and mutual credits
// ---------------------------------------------------------------------------

/// The currencies that one side advertises: the remote side's where `remote`.
pub open spec fn side_of(l: LedgerV, remote: bool) -> Seq<Seq<u8>> {
    if remote {
        l.remote_currencies
    } else {
        l.local_currencies
    }
}

/// The currencies that the other side advertises.
pub open spec fn other_side_of(l: LedgerV, remote: bool) -> Seq<Seq<u8>> {
    side_of(l, !remote)
}

pub open spec fn with_side(l: LedgerV, remote: bool, s: Seq<Seq<u8>>) -> LedgerV {
    if remote {
        LedgerV { remote_currencies: s, ..l }
    } else {
        LedgerV { local_currencies: s, ..l }
    }
}

/// One side adds a currency it does not advertise, or withdraws one it does.
/// Adding creates the mutual credit, in its place by currency, where the
/// other side advertises it too;
/// withdrawing removes it, which is refused (`None`) unless its balance and
/// pending debts are zero.
pub open spec fn toggle_currency_of(l: LedgerV, c: Seq<u8>, remote: bool) -> Option<LedgerV> {
    let mine = side_of(l, remote);
    if !mine.contains(c) {
        let l1 = with_side(l, remote, mine.push(c));
        if other_side_of(l, remote).contains(c) {
            Some(
                LedgerV {
                    credits: l.credits.insert(insert_position(l.credits, c), new_credit(c)),
                    ..l1
                },
            )
        } else {
            Some(l1)
        }
    } else if other_side_of(l, remote).contains(c) {
        let i = credit_index(l.credits, c);
        if l.credits[i].mc.balance.is_zero() {
            Some(
                LedgerV {
                    credits: l.credits.remove(i),
                    ..with_side(l, remote, mine.remove(mine.index_of(c)))
                },
            )
        } else {
            None
        }
    } else {
        Some(with_side(l, remote, mine.remove(mine.index_of(c))))
    }
}

/// A list of toggles, applied in order; `None` from the first refused one.
pub open spec fn toggle_all_of(l: LedgerV, diff: Seq<Seq<u8>>, remote: bool) -> Option<LedgerV>
    decreases diff.len(),
{
    if diff.len() == 0 {
        Some(l)
    } else {
        match toggle_all_of(l, diff.drop_last(), remote) {
            Some(t) => toggle_currency_of(t, diff.last(), remote),
            None => None,
        }
    }
}

pub open spec fn with_mc(l: LedgerV, i: int, m: McState) -> LedgerV {
    LedgerV { credits: l.credits.update(i, CreditV { mc: m, ..l.credits[i] }), ..l }
}

/// An operation received from the remote side, applied to the mutual credit
/// of its currency; `None` where there is none or the operation is refused.
pub open spec fn incoming_op_of(l: LedgerV, c: Seq<u8>, op: McOpV) -> Option<
    (LedgerV, IncomingMessageV),
> {
    if !has_credit(l.credits, c) {
        None
    } else {
        let i = credit_index(l.credits, c);
        let e = l.credits[i];
        match op {
            McOpV::Request(r) => if process_request_outcome(e.mc, r, e.remote_max_debt) is Ok {
                Some((with_mc(l, i, with_remote_request(e.mc, r)), IncomingMessageV::Request(r)))
            } else {
                None
            },
            McOpV::Response(p) => if process_response_outcome(e.mc, c, p) is Ok {
                let j = index_of(e.mc.local, p.request_id);
                Some(
                    (
                        with_mc(l, i, settle_local(e.mc, j)),
                        IncomingMessageV::Response(e.mc.local[j], p),
                    ),
                )
            } else {
                None
            },
            McOpV::Cancel(id) => if has_id(e.mc.local, id) {
                let j = index_of(e.mc.local, id);
                Some((with_mc(l, i, drop_local(e.mc, j)), IncomingMessageV::Cancel(e.mc.local[j], id)))
            } else {
                None
            },
        }
    }
}

/// A list of received operations, applied in order, with what each amounts to.
pub open spec fn incoming_ops_of(l: LedgerV, ops: Seq<(Seq<u8>, McOpV)>) -> Option<
    (LedgerV, Seq<(Seq<u8>, IncomingMessageV)>),
>
    decreases ops.len(),
{
    if ops.len() == 0 {
        Some((l, Seq::empty()))
    } else {
        match incoming_ops_of(l, ops.drop_last()) {
            Some((t, msgs)) => match incoming_op_of(t, ops.last().0, ops.last().1) {
                Some((u, m)) => Some((u, msgs.push((ops.last().0, m)))),
                None => None,
            },
            None => None,
        }
    }
}

pub(crate) proof fn lemma_push_no_dup(s: Seq<Seq<u8>>, x: Seq<u8>)
    requires
        s.no_duplicates(),
        !s.contains(x),
    ensures
        s.push(x).no_duplicates(),
        forall|c: Seq<u8>| #[trigger] s.push(x).contains(c) <==> (s.contains(c) || c == x),
{
    let t = s.push(x);
    assert forall|c: Seq<u8>| #[trigger] t.contains(c) <==> (s.contains(c) || c == x) by {
        if s.contains(c) {
            let k = choose|k: int| 0 <= k < s.len() && s[k] == c;
            assert(t[k] == c);
        }
        if c == x {
            assert(t[s.len() as int] == c);
        }
        if t.contains(c) {
            let k = choose|k: int| 0 <= k < t.len() && t[k] == c;
            if k < s.len() {
                assert(s[k] == c);
            }
        }
    }
    assert forall|i: int, j: int| 0 <= i < t.len() && 0 <= j < t.len() && i != j implies t[i]
        != t[j] by {
        if i < s.len() && j < s.len() {
        } else if i < s.len() {
            assert(s.contains(s[i]));
        } else {
            assert(s.contains(s[j]));
        }
    }
}

proof fn lemma_remove_no_dup(s: Seq<Seq<u8>>, x: Seq<u8>)
    requires
        s.no_duplicates(),
        s.contains(x),
    ensures
        0 <= s.index_of(x) < s.len(),
        s[s.index_of(x)] == x,
        s.remove(s.index_of(x)).no_duplicates(),
        forall|c: Seq<u8>| #[trigger] s.remove(s.index_of(x)).contains(c) <==> (s.contains(c) && c != x),
{
    let k = s.index_of(x);
    let t = s.remove(k);
    assert forall|i: int, j: int| 0 <= i < t.len() && 0 <= j < t.len() && i != j implies t[i]
        != t[j] by {
        let i2 = if i < k {
            i
        } else {
            i + 1
        };
        let j2 = if j < k {
            j
        } else {
            j + 1
        };
        assert(t[i] == s[i2] && t[j] == s[j2]);
    }
    assert forall|c: Seq<u8>| #[trigger] t.contains(c) <==> (s.contains(c) && c != x) by {
        if t.contains(c) {
            let i = choose|i: int| 0 <= i < t.len() && t[i] == c;
            let i2 = if i < k {
                i
            } else {
                i + 1
            };
            assert(s[i2] == c);
            assert(i2 != k);
        }
        if s.contains(c) && c != x {
            let i = choose|i: int| 0 <= i < s.len() && s[i] == c;
            assert(i != k);
            if i < k {
                assert(t[i] == c);
            } else {
                assert(t[i - 1] == c);
            }
        }
    }
}

pub(crate) proof fn lemma_credit_index(credits: Seq<CreditV>, i: int)
    requires
        credits_unique(credits),
        0 <= i < credits.len(),
    ensures
        has_credit(credits, credits[i].currency),
        credit_index(credits, credits[i].currency) == i,
{
    assert(has_credit(credits, credits[i].currency));
    let j = credit_index(credits, credits[i].currency);
    assert(credits[j].currency == credits[i].currency);
}

proof fn lemma_credits_remove(credits: Seq<CreditV>, k: int)
    requires
        credits_unique(credits),
        0 <= k < credits.len(),
    ensures
        credits_unique(credits.remove(k)),
        forall|c: Seq<u8>| #[trigger] has_credit(credits.remove(k), c) <==> (has_credit(credits, c) && c != credits[k].currency),
        forall|i: int| 0 <= i < credits.remove(k).len() ==> #[trigger] credits.remove(k)[i] == credits[if i < k { i } else { i + 1 }],
{
    let t = credits.remove(k);
    assert forall|i: int, j: int| 0 <= i < t.len() && 0 <= j < t.len() && i != j implies (
    #[trigger] t[i]).currency != (#[trigger] t[j]).currency by {
        let i2 = if i < k {
            i
        } else {
            i + 1
        };
        let j2 = if j < k {
            j
        } else {
            j + 1
        };
        assert(t[i] == credits[i2] && t[j] == credits[j2]);
    }
    assert forall|c: Seq<u8>| #[trigger] has_credit(t, c) <==> (has_credit(credits, c) && c != credits[k].currency) by {
        if has_credit(t, c) {
            let i = choose|i: int| 0 <= i < t.len() && (#[trigger] t[i]).currency == c;
            let i2 = if i < k {
                i
            } else {
                i + 1
            };
            assert(t[i] == credits[i2]);
        }
        if has_credit(credits, c) && c != credits[k].currency {
            let i = choose|i: int| 0 <= i < credits.len() && (#[trigger] credits[i]).currency == c;
            if i < k {
                assert(t[i] == credits[i]);
            } else {
                assert(t[i - 1] == credits[i]);
            }
        }
    }
}

proof fn lemma_lex_lt_irrefl(a: Seq<u8>)
    ensures
        !lex_lt(a, a),
    decreases a.len(),
{
    if a.len() > 0 {
        lemma_lex_lt_irrefl(a.drop_first());
    }
}

proof fn lemma_lex_lt_trans(a: Seq<u8>, b: Seq<u8>, c: Seq<u8>)
    requires
        lex_lt(a, b),
        lex_lt(b, c),
    ensures
        lex_lt(a, c),
    decreases a.len(),
{
    if a.len() > 0 && b.len() > 0 && c.len() > 0 && a[0] == b[0] && b[0] == c[0] {
        lemma_lex_lt_trans(a.drop_first(), b.drop_first(), c.drop_first());
    }
}

proof fn lemma_lex_lt_total(a: Seq<u8>, b: Seq<u8>)
    requires
        a != b,
    ensures
        lex_lt(a, b) || lex_lt(b, a),
    decreases a.len(),
{
    if a.len() > 0 && b.len() > 0 && a[0] == b[0] {
        if a.drop_first() == b.drop_first() {
            assert(a =~= seq![a[0]] + a.drop_first());
            assert(b =~= seq![b[0]] + b.drop_first());
        } else {
            lemma_lex_lt_total(a.drop_first(), b.drop_first());
        }
    } else if a.len() == 0 && b.len() == 0 {
        assert(a =~= b);
    }
}

proof fn lemma_insert_position_exists(credits: Seq<CreditV>, c: Seq<u8>) -> (p: int)
    requires
        credits_sorted(credits),
    ensures
        is_insert_position(credits, c, p),
    decreases credits.len(),
{
    if credits.len() == 0 {
        0
    } else {
        let front = credits.drop_last();
        let n = credits.len() - 1;
        assert(credits_sorted(front)) by {
            assert forall|i: int, j: int| 0 <= i < j < front.len() implies lex_lt(
                (#[trigger] front[i]).currency,
                (#[trigger] front[j]).currency,
            ) by {
                assert(front[i] == credits[i] && front[j] == credits[j]);
            }
        }
        let q = lemma_insert_position_exists(front, c);
        if q < n {
            assert forall|j: int| q <= j < credits.len() implies !lex_lt(
                (#[trigger] credits[j]).currency,
                c,
            ) by {
                if j < n {
                    assert(front[j] == credits[j]);
                } else {
                    assert(front[q] == credits[q]);
                    assert(lex_lt(credits[q].currency, credits[j].currency));
                    if lex_lt(credits[j].currency, c) {
                        lemma_lex_lt_trans(credits[q].currency, credits[j].currency, c);
                    }
                }
            }
            assert forall|i: int| 0 <= i < q implies lex_lt((#[trigger] credits[i]).currency, c) by {
                assert(front[i] == credits[i]);
            }
            q
        } else {
            assert forall|i: int| 0 <= i < n implies lex_lt((#[trigger] credits[i]).currency, c) by {
                assert(front[i] == credits[i]);
            }
            if lex_lt(credits[n].currency, c) {
                credits.len() as int
            } else {
                n
            }
        }
    }
}

/// Inserting a currency that is not there yet at its place keeps the credits
/// sorted and unique.
proof fn lemma_credits_insert(credits: Seq<CreditV>, e: CreditV, p: int)
    requires
        credits_unique(credits),
        credits_sorted(credits),
        !has_credit(credits, e.currency),
        is_insert_position(credits, e.currency, p),
    ensures
        insert_position(credits, e.currency) == p,
        credits_unique(credits.insert(p, e)),
        credits_sorted(credits.insert(p, e)),
        forall|c: Seq<u8>|
            #[trigger] has_credit(credits.insert(p, e), c) <==> (has_credit(credits, c) || c
                == e.currency),
        forall|k: int|
            0 <= k < credits.insert(p, e).len() ==> #[trigger] credits.insert(p, e)[k] == (if k
                < p {
                credits[k]
            } else if k == p {
                e
            } else {
                credits[k - 1]
            }),
{
    let c = e.currency;
    let t = credits.insert(p, e);
    let q = insert_position(credits, c);
    assert(is_insert_position(credits, c, q));
    if q < p {
        assert(lex_lt(credits[q].currency, c));
    } else if p < q {
        assert(lex_lt(credits[p].currency, c));
    }
    assert forall|k: int| 0 <= k < t.len() implies #[trigger] t[k] == (if k < p {
        credits[k]
    } else if k == p {
        e
    } else {
        credits[k - 1]
    }) by {}
    assert forall|j: int| p <= j < credits.len() implies lex_lt(c, (#[trigger] credits[j]).currency) by {
        if credits[j].currency == c {
            assert(has_credit(credits, c));
        }
        lemma_lex_lt_total(c, credits[j].currency);
    }
    assert forall|i: int, j: int| 0 <= i < j < t.len() implies lex_lt(
        (#[trigger] t[i]).currency,
        (#[trigger] t[j]).currency,
    ) by {
        if j < p {
        } else if j == p {
        } else if i < p {
            assert(lex_lt(credits[i].currency, c));
            assert(lex_lt(c, credits[j - 1].currency));
            lemma_lex_lt_trans(credits[i].currency, c, credits[j - 1].currency);
        } else if i == p {
        } else {
        }
    }
    assert forall|i: int, j: int|
        0 <= i < t.len() && 0 <= j < t.len() && i != j implies (#[trigger] t[i]).currency != (
        #[trigger] t[j]).currency by {
        if i < j {
            assert(lex_lt(t[i].currency, t[j].currency));
            lemma_lex_lt_irrefl(t[i].currency);
        } else {
            assert(lex_lt(t[j].currency, t[i].currency));
            lemma_lex_lt_irrefl(t[j].currency);
        }
    }
    assert forall|x: Seq<u8>| #[trigger] has_credit(t, x) <==> (has_credit(credits, x) || x == c) by {
        if has_credit(credits, x) {
            let k = choose|k: int| 0 <= k < credits.len() && (#[trigger] credits[k]).currency == x;
            if k < p {
                assert(t[k] == credits[k]);
            } else {
                assert(t[k + 1] == credits[k]);
            }
        }
        if x == c {
            assert(t[p] == e);
        }
        if has_credit(t, x) {
            let k = choose|k: int| 0 <= k < t.len() && (#[trigger] t[k]).currency == x;
            if k < p {
                assert(credits[k] == t[k]);
            } else if k > p {
                assert(credits[k - 1] == t[k]);
            }
        }
    }
}

proof fn lemma_credits_sorted_remove(credits: Seq<CreditV>, k: int)
    requires
        credits_sorted(credits),
        0 <= k < credits.len(),
    ensures
        credits_sorted(credits.remove(k)),
{
    let t = credits.remove(k);
    assert forall|i: int, j: int| 0 <= i < j < t.len() implies lex_lt(
        (#[trigger] t[i]).currency,
        (#[trigger] t[j]).currency,
    ) by {
        let i2 = if i < k {
            i
        } else {
            i + 1
        };
        let j2 = if j < k {
            j
        } else {
            j + 1
        };
        assert(t[i] == credits[i2] && t[j] == credits[j2]);
    }
}

proof fn lemma_toggle_wf(l: LedgerV, c: Seq<u8>, remote: bool)
    requires
        l.wf(),
        toggle_currency_of(l, c, remote) is Some,
    ensures
        toggle_currency_of(l, c, remote)->Some_0.wf(),
{
    let mine = side_of(l, remote);
    let other = other_side_of(l, remote);
    let r = toggle_currency_of(l, c, remote)->Some_0;
    if !mine.contains(c) {
        lemma_push_no_dup(mine, c);
        if other.contains(c) {
            assert(!has_credit(l.credits, c));
            let e = new_credit(c);
            let p = lemma_insert_position_exists(l.credits, c);
            lemma_credits_insert(l.credits, e, p);
            assert forall|i: int| 0 <= i < r.credits.len() implies (#[trigger] r.credits[i]).mc.wf() by {
                if i < p {
                    assert(r.credits[i] == l.credits[i]);
                } else if i == p {
                    assert(r.credits[i] == e);
                    assert(e.mc.local =~= Seq::<McRequestV>::empty());
                } else {
                    assert(r.credits[i] == l.credits[i - 1]);
                }
            }
        } else {
            assert(r.credits == l.credits);
        }
    } else {
        lemma_remove_no_dup(mine, c);
        if other.contains(c) {
            let i = credit_index(l.credits, c);
            assert(has_credit(l.credits, c));
            lemma_credits_remove(l.credits, i);
            lemma_credits_sorted_remove(l.credits, i);
            assert forall|j: int| 0 <= j < r.credits.len() implies (#[trigger] r.credits[j]).mc.wf() by {
                let j2 = if j < i {
                    j
                } else {
                    j + 1
                };
                assert(r.credits[j] == l.credits[j2]);
            }
        } else {
            assert(!has_credit(l.credits, c));
            assert(r.credits == l.credits);
        }
    }
}

proof fn lemma_with_mc_wf(l: LedgerV, i: int, m: McState)
    requires
        l.wf(),
        0 <= i < l.credits.len(),
        m.wf(),
    ensures
        with_mc(l, i, m).wf(),
        with_mc(l, i, m).credits.len() == l.credits.len(),
        forall|c: Seq<u8>| #[trigger] has_credit(with_mc(l, i, m).credits, c) == has_credit(l.credits, c),
        forall|c: Seq<u8>| has_credit(l.credits, c) ==> #[trigger] credit_index(with_mc(l, i, m).credits, c) == credit_index(l.credits, c),
{
    let t = with_mc(l, i, m).credits;
    assert forall|c: Seq<u8>| #[trigger] has_credit(t, c) == has_credit(l.credits, c) by {
        if has_credit(l.credits, c) {
            let k = choose|k: int| 0 <= k < l.credits.len() && (#[trigger] l.credits[k]).currency == c;
            assert(t[k].currency == c);
        }
        if has_credit(t, c) {
            let k = choose|k: int| 0 <= k < t.len() && (#[trigger] t[k]).currency == c;
            assert(l.credits[k].currency == c);
        }
    }
    assert(credits_unique(t)) by {
        assert forall|a: int, b: int| 0 <= a < t.len() && 0 <= b < t.len() && a != b implies (
        #[trigger] t[a]).currency != (#[trigger] t[b]).currency by {
            assert(t[a].currency == l.credits[a].currency);
            assert(t[b].currency == l.credits[b].currency);
        }
    }
    assert forall|c: Seq<u8>| has_credit(l.credits, c) implies #[trigger] credit_index(t, c) == credit_index(l.credits, c) by {
        let k = credit_index(l.credits, c);
        assert(t[k].currency == c);
        lemma_credit_index(t, k);
    }
}

proof fn lemma_incoming_op_wf(l: LedgerV, c: Seq<u8>, op: McOpV)
    requires
        l.wf(),
        incoming_op_of(l, c, op) is Some,
    ensures
        incoming_op_of(l, c, op)->Some_0.0.wf(),
{
    let i = credit_index(l.credits, c);
    let e = l.credits[i];
    assert(e.mc.wf());
    match op {
        McOpV::Request(r) => {
            crate::mutual_credit::lemma_process_request_wf(e.mc, r, e.remote_max_debt);
            lemma_with_mc_wf(l, i, with_remote_request(e.mc, r));
        },
        McOpV::Response(p) => {
            crate::mutual_credit::lemma_index_of_some(e.mc.local, p.request_id);
            crate::mutual_credit::lemma_remove_local_kept(e.mc, index_of(e.mc.local, p.request_id));
            lemma_with_mc_wf(l, i, settle_local(e.mc, index_of(e.mc.local, p.request_id)));
        },
        McOpV::Cancel(id) => {
            crate::mutual_credit::lemma_index_of_some(e.mc.local, id);
            crate::mutual_credit::lemma_remove_local_kept(e.mc, index_of(e.mc.local, id));
            lemma_with_mc_wf(l, i, drop_local(e.mc, index_of(e.mc.local, id)));
        },
    }
}

proof fn lemma_toggle_all_none(l: LedgerV, d: Seq<Seq<u8>>, k: int)
    requires
        0 <= k <= d.len(),
        toggle_all_of(l, d.take(k), true) is None,
    ensures
        toggle_all_of(l, d, true) is None,
    decreases d.len() - k,
{
    if k == d.len() {
        assert(d.take(k) =~= d);
    } else {
        assert(d.take(k + 1).drop_last() =~= d.take(k));
        lemma_toggle_all_none(l, d, k + 1);
    }
}

proof fn lemma_incoming_ops_none(l: LedgerV, ops: Seq<(Seq<u8>, McOpV)>, k: int)
    requires
        0 <= k <= ops.len(),
        incoming_ops_of(l, ops.take(k)) is None,
    ensures
        incoming_ops_of(l, ops) is None,
    decreases ops.len() - k,
{
    if k == ops.len() {
        assert(ops.take(k) =~= ops);
    } else {
        assert(ops.take(k + 1).drop_last() =~= ops.take(k));
        lemma_incoming_ops_none(l, ops, k + 1);
    }
}

/// The position of a currency in a list, if it is there.
fn find_currency(v: &Vec<Currency>, c: &Currency) -> (r: Option<usize>)
    ensures
        r is None ==> !bytes_list_view(v@).contains(c@),
        r matches Some(i) ==> i < v@.len() && bytes_list_view(v@)[i as int] == c@,
{
    let mut i: usize = 0;
    while i < v.len()
        invariant
            i <= v.len(),
            forall|j: int| 0 <= j < i ==> #[trigger] bytes_list_view(v@)[j] != c@,
        decreases v.len() - i,
    {
        if bytes_eq(&v[i], c) {
            return Some(i);
        }
        i = i + 1;
    }
    None
}

/// The position of the mutual credit of a currency, if there is one.
fn find_credit(v: &Vec<CurrencyCredit>, c: &Currency) -> (r: Option<usize>)
    ensures
        r is None ==> !has_credit(credits_view(v@), c@),
        r matches Some(i) ==> i < v@.len() && credits_view(v@)[i as int].currency == c@,
{
    let mut i: usize = 0;
    while i < v.len()
        invariant
            i <= v.len(),
            forall|j: int| 0 <= j < i ==> (#[trigger] credits_view(v@)[j]).currency != c@,
        decreases v.len() - i,
    {
        if bytes_eq(&v[i].currency, c) {
            return Some(i);
        }
        i = i + 1;
    }
    None
}

/// Where a currency goes among credits sorted by currency.
fn credit_insert_position(v: &Vec<CurrencyCredit>, c: &Currency) -> (r: usize)
    requires
        credits_sorted(credits_view(v@)),
    ensures
        is_insert_position(credits_view(v@), c@, r as int),
{
    let ghost cv = credits_view(v@);
    let mut i: usize = 0;
    while i < v.len() && compare_public_key_lt(&v[i].currency, c)
        invariant
            i <= v.len(),
            cv == credits_view(v@),
            credits_sorted(cv),
            forall|k: int| 0 <= k < i ==> lex_lt((#[trigger] cv[k]).currency, c@),
        decreases v.len() - i,
    {
        i = i + 1;
    }
    proof {
        assert forall|j: int| i <= j < cv.len() implies !lex_lt((#[trigger] cv[j]).currency, c@) by {
            if j > i && lex_lt(cv[j].currency, c@) {
                assert(lex_lt(cv[i as int].currency, cv[j].currency));
                lemma_lex_lt_trans(cv[i as int].currency, cv[j].currency, c@);
            }
        }
    }
    i
}

impl CurrencyCredit {
    /// A copy of this mutual credit.
    pub fn copy(&self) -> (r: CurrencyCredit)
        ensures
            r@ == self@,
    {
        CurrencyCredit {
            currency: copy_bytes(&self.currency),
            remote_max_debt: self.remote_max_debt,
            rate: self.rate,
            mutual_credit: self.mutual_credit.copy(),
        }
    }
}

/// The ledger with every pending request dropped and every pending debt zero.
pub open spec fn cleared_ledger(l: LedgerV) -> LedgerV {
    LedgerV {
        credits: l.credits.map_values(
            |e: CreditV|
                CreditV {
                    mc: McState {
                        balance: McBalance {
                            local_pending_debt: 0,
                            remote_pending_debt: 0,
                            ..e.mc.balance
                        },
                        local: Seq::empty(),
                        remote: Seq::empty(),
                    },
                    ..e
                },
        ),
        ..l
    }
}

impl Ledger {
    /// No currency and no mutual credit.
    pub fn new() -> (r: Ledger)
        ensures
            r@.local_currencies.len() == 0,
            r@.remote_currencies.len() == 0,
            r@.credits.len() == 0,
            r@.wf(),
    {
        let r = Ledger {
            local_currencies: Vec::new(),
            remote_currencies: Vec::new(),
            credits: Vec::new(),
        };
        assert(r@.local_currencies =~= Seq::<Seq<u8>>::empty());
        assert(r@.remote_currencies =~= Seq::<Seq<u8>>::empty());
        assert(r@.credits =~= Seq::<CreditV>::empty());
        r
    }

    /// A copy of this ledger.
    pub fn copy(&self) -> (r: Ledger)
        ensures
            r@ == self@,
    {
        let mut credits: Vec<CurrencyCredit> = Vec::new();
        let mut i: usize = 0;
        while i < self.credits.len()
            invariant
                i <= self.credits.len(),
                credits@.len() == i,
                forall|j: int| 0 <= j < i ==> #[trigger] credits@[j]@ == self.credits@[j]@,
            decreases self.credits.len() - i,
        {
            credits.push(self.credits[i].copy());
            i = i + 1;
        }
        assert(credits_view(credits@) =~= credits_view(self.credits@));
        Ledger {
            local_currencies: copy_bytes_list(&self.local_currencies),
            remote_currencies: copy_bytes_list(&self.remote_currencies),
            credits,
        }
    }

    /// A copy of this ledger with every pending request dropped.
    pub fn cleared(&self) -> (r: Ledger)
        requires
            self@.wf(),
        ensures
            r@ == cleared_ledger(self@),
            r@.wf(),
    {
        let mut credits: Vec<CurrencyCredit> = Vec::new();
        let mut i: usize = 0;
        while i < self.credits.len()
            invariant
                i <= self.credits.len(),
                credits@.len() == i,
                forall|j: int|
                    0 <= j < i ==> #[trigger] credits@[j]@ == cleared_ledger(self@).credits[j],
            decreases self.credits.len() - i,
        {
            let e = &self.credits[i];
            let mut mc = MutualCredit::new(e.mutual_credit.balance.balance);
            mc.balance.in_fees = e.mutual_credit.balance.in_fees;
            mc.balance.out_fees = e.mutual_credit.balance.out_fees;
            credits.push(
                CurrencyCredit {
                    currency: copy_bytes(&e.currency),
                    remote_max_debt: e.remote_max_debt,
                    rate: e.rate,
                    mutual_credit: mc,
                },
            );
            proof {
                assert(credits@[i as int]@.mc.balance == cleared_ledger(self@).credits[i as int].mc.balance);
            }
            i = i + 1;
        }
        let r = Ledger {
            local_currencies: copy_bytes_list(&self.local_currencies),
            remote_currencies: copy_bytes_list(&self.remote_currencies),
            credits,
        };
        assert(r@.credits =~= cleared_ledger(self@).credits);
        proof {
            let c = cleared_ledger(self@);
            assert forall|x: Seq<u8>| #[trigger] has_credit(c.credits, x) == has_credit(self@.credits, x) by {
                if has_credit(c.credits, x) {
                    let k = choose|k: int| 0 <= k < c.credits.len() && (#[trigger] c.credits[k]).currency == x;
                    assert(self@.credits[k].currency == x);
                }
                if has_credit(self@.credits, x) {
                    let k = choose|k: int| 0 <= k < self@.credits.len() && (#[trigger] self@.credits[k]).currency == x;
                    assert(c.credits[k].currency == x);
                }
            }
            assert forall|a: int, b: int| 0 <= a < c.credits.len() && 0 <= b < c.credits.len() && a != b implies (
            #[trigger] c.credits[a]).currency != (#[trigger] c.credits[b]).currency by {
                assert(c.credits[a].currency == self@.credits[a].currency);
                assert(c.credits[b].currency == self@.credits[b].currency);
            }
            assert forall|k: int| 0 <= k < c.credits.len() implies (#[trigger] c.credits[k]).mc.wf() by {
                assert(c.credits[k].mc.local =~= Seq::<McRequestV>::empty());
            }
        }
        r
    }

    /// One side adds a currency it does not advertise, or withdraws one it
    /// does (the remote side's where `remote`). Returns false, with nothing
    /// changed, where the withdrawal is refused because the mutual credit is in
    /// use.
    pub fn toggle_currency(&mut self, c: &Currency, remote: bool) -> (r: bool)
        requires
            old(self)@.wf(),
        ensures
            final(self)@.wf(),
            match toggle_currency_of(old(self)@, c@, remote) {
                Some(l) => r && final(self)@ == l,
                None => !r && final(self)@ == old(self)@,
            },
    {
        let in_mine = if remote {
            find_currency(&self.remote_currencies, c)
        } else {
            find_currency(&self.local_currencies, c)
        };
        let in_other = if remote {
            find_currency(&self.local_currencies, c)
        } else {
            find_currency(&self.remote_currencies, c)
        };
        proof {
            if in_other.is_some() {
                assert(other_side_of(self@, remote).contains(c@));
            }
        }
        match in_mine {
            None => {
                proof {
                    lemma_toggle_wf(self@, c@, remote);
                }
                if remote {
                    self.remote_currencies.push(copy_bytes(c));
                } else {
                    self.local_currencies.push(copy_bytes(c));
                }
                if in_other.is_some() {
                    proof {
                        assert(!has_credit(self@.credits, c@));
                    }
                    let p = credit_insert_position(&self.credits, c);
                    proof {
                        lemma_credits_insert(self@.credits, new_credit(c@), p as int);
                    }
                    self.credits.insert(
                        p,
                        CurrencyCredit {
                            currency: copy_bytes(c),
                            remote_max_debt: 0,
                            rate: Rate { mul: 0, add: 0 },
                            mutual_credit: MutualCredit::new(0),
                        },
                    );
                    assert(self@.credits[p as int] == new_credit(c@));
                    assert(self@.credits =~= old(self)@.credits.insert(p as int, new_credit(c@)));
                }
                assert(self@.local_currencies =~= toggle_currency_of(old(self)@, c@, remote)->Some_0.local_currencies);
                assert(self@.remote_currencies =~= toggle_currency_of(old(self)@, c@, remote)->Some_0.remote_currencies);
                assert(self@.credits =~= toggle_currency_of(old(self)@, c@, remote)->Some_0.credits);
                true
            },
            Some(k) => {
                proof {
                    assert(side_of(self@, remote).contains(c@));
                    lemma_remove_no_dup(side_of(self@, remote), c@);
                    assert(side_of(self@, remote).index_of(c@) == k);
                }
                if in_other.is_some() {
                    let i = match find_credit(&self.credits, c) {
                        Some(i) => i,
                        None => {
                            return false;
                        },
                    };
                    proof {
                        lemma_credit_index(self@.credits, i as int);
                    }
                    let b = self.credits[i].mutual_credit.balance;
                    if b.balance == 0 && b.local_pending_debt == 0 && b.remote_pending_debt == 0 {
                        proof {
                            lemma_toggle_wf(self@, c@, remote);
                        }
                        if remote {
                            self.remote_currencies.remove(k);
                        } else {
                            self.local_currencies.remove(k);
                        }
                        self.credits.remove(i);
                        assert(self@.local_currencies =~= toggle_currency_of(old(self)@, c@, remote)->Some_0.local_currencies);
                        assert(self@.remote_currencies =~= toggle_currency_of(old(self)@, c@, remote)->Some_0.remote_currencies);
                        assert(self@.credits =~= toggle_currency_of(old(self)@, c@, remote)->Some_0.credits);
                        true
                    } else {
                        false
                    }
                } else {
                    proof {
                        lemma_toggle_wf(self@, c@, remote);
                    }
                    if remote {
                        self.remote_currencies.remove(k);
                    } else {
                        self.local_currencies.remove(k);
                    }
                    assert(self@.local_currencies =~= toggle_currency_of(old(self)@, c@, remote)->Some_0.local_currencies);
                    assert(self@.remote_currencies =~= toggle_currency_of(old(self)@, c@, remote)->Some_0.remote_currencies);
                    true
                }
            },
        }
    }

    /// Applies an operation received from the remote side to the mutual credit
    /// of its currency. Returns what it amounts to, or `None`, with nothing
    /// changed, where it is refused.
    pub fn apply_incoming_op(&mut self, c: &Currency, op: &McOp) -> (r: Option<IncomingMessage>)
        requires
            old(self)@.wf(),
        ensures
            final(self)@.wf(),
            match incoming_op_of(old(self)@, c@, op@) {
                Some((l, m)) => r matches Some(x) && x@ == m && final(self)@ == l,
                None => r is None && final(self)@ == old(self)@,
            },
    {
        let i = match find_credit(&self.credits, c) {
            Some(i) => i,
            None => {
                return None;
            },
        };
        proof {
            lemma_credit_index(self@.credits, i as int);
            if incoming_op_of(self@, c@, op@) is Some {
                lemma_incoming_op_wf(self@, c@, op@);
            }
        }
        let mut e = self.credits.remove(i);
        let ghost before = e@;
        let res = match op {
            McOp::Request(q) => {
                match e.mutual_credit.process_request(q.copy(), e.remote_max_debt) {
                    Ok(()) => Some(IncomingMessage::Request(q.copy())),
                    Err(_) => None,
                }
            },
            McOp::Response(p) => {
                match e.mutual_credit.process_response(c, p) {
                    Ok(q) => Some(IncomingMessage::Response(q, p.copy())),
                    Err(_) => None,
                }
            },
            McOp::Cancel(x) => {
                match e.mutual_credit.process_cancel(x) {
                    Ok(q) => Some(
                        IncomingMessage::Cancel(q, McCancel { request_id: copy_bytes(&x.request_id) }),
                    ),
                    Err(_) => None,
                }
            },
        };
        self.credits.insert(i, e);
        assert(self@.credits =~= old(self)@.credits.update(i as int, e@));
        if res.is_none() {
            assert(e@ == before);
            assert(self@.credits =~= old(self)@.credits);
        }
        res
    }
}

// ---------------------------------------------------------------------------
// Receiving move tokens
// ---------------------------------------------------------------------------

pub open spec fn messages_view(v: Seq<(Currency, IncomingMessage)>) -> Seq<(Seq<u8>, IncomingMessageV)> {
    v.map_values(|p: (Currency, IncomingMessage)| (p.0@, p.1@))
}

/// The abstract value of the outcome of an incoming move token.
pub enum ReceiveV {
    Duplicate,
    RetransmitOutgoing(MoveTokenV),
    Received(Seq<(Seq<u8>, IncomingMessageV)>),
    ChainInconsistent(ResetTermsV),
    ChainBroken,
}

impl View for ReceiveMoveTokenOutput {
    type V = ReceiveV;

    open spec fn view(&self) -> ReceiveV {
        match self {
            ReceiveMoveTokenOutput::Duplicate => ReceiveV::Duplicate,
            ReceiveMoveTokenOutput::RetransmitOutgoing(mt) => ReceiveV::RetransmitOutgoing(mt@),
            ReceiveMoveTokenOutput::Received(m) => ReceiveV::Received(
                messages_view(m.incoming_messages@),
            ),
            ReceiveMoveTokenOutput::ChainInconsistent(t) => ReceiveV::ChainInconsistent(t@),
            ReceiveMoveTokenOutput::ChainBroken => ReceiveV::ChainBroken,
        }
    }
}

pub open spec fn receive_result_view(r: Result<ReceiveMoveTokenOutput, TokenChannelError>) -> Result<
    ReceiveV,
    TokenChannelError,
> {
    match r {
        Ok(o) => Ok(o@),
        Err(e) => Err(e),
    }
}

/// A batch of the remote side applied to a ledger, at a counter: the
/// signature must verify under the remote key, the currency toggles and then
/// the operations must all be accepted, and the info hash must match the
/// balances as the remote side sees them, at the next counter.
pub open spec fn receive_batch_of(
    l: LedgerV,
    counter: u128,
    mt: MoveTokenV,
    local: Seq<u8>,
    remote: Seq<u8>,
) -> Result<(LedgerV, TokenInfoV, Seq<(Seq<u8>, IncomingMessageV)>), InvalidIncoming> {
    if !ed25519_accepts(remote, move_token_signature_buff_of(mt), mt.new_token) {
        Err(InvalidIncoming::InvalidSignature)
    } else {
        match toggle_all_of(l, mt.currencies_diff, true) {
            None => Err(InvalidIncoming::CanNotRemoveCurrencyInUse),
            Some(l1) => match incoming_ops_of(l1, mt.currencies_operations) {
                None => Err(InvalidIncoming::InvalidOperation),
                Some((l2, msgs)) => if !all_flippable(l2.credits) {
                    Err(InvalidIncoming::InvalidTokenInfo)
                } else {
                    let info = TokenInfoV {
                        balances_hash: balances_hash_of(flipped_balances_of(l2.credits)),
                        move_token_counter: (counter + 1) as u128,
                    };
                    if info_hash_of(remote, local, info) != mt.info_hash {
                        Err(InvalidIncoming::InvalidTokenInfo)
                    } else {
                        Ok((l2, info, msgs))
                    }
                },
            },
        }
    }
}

/// The state after an accepted batch.
pub open spec fn received_state(
    mt: MoveTokenV,
    l: LedgerV,
    info: TokenInfoV,
) -> TcState {
    TcState {
        status: TcStatusV::ConsistentIn(hashed_of(mt, info)),
        counter: info.move_token_counter,
        ledger: l,
    }
}

/// What an incoming move token does, by the channel's status:
/// - waiting to send: the last received move token again is a duplicate;
///   anything else breaks the chain;
/// - waiting to receive: a move token that follows ours is applied, and if it
///   is refused the chain breaks; one that precedes ours asks for ours again;
///   anything else breaks the chain;
/// - inconsistent: a move token that follows our reset token is applied to
///   the ledger with its pending requests dropped, at the counter before our
///   reset counter; anything else, or a refusal, announces our terms again.
pub open spec fn receive_outcome_of(s: TcState, mt: MoveTokenV, local: Seq<u8>, remote: Seq<u8>) -> (
    TcState,
    Result<ReceiveV, TokenChannelError>,
) {
    match s.status {
        TcStatusV::ConsistentIn(h) => if h == hashed_of(mt, h.token_info) {
            (s, Ok(ReceiveV::Duplicate))
        } else {
            (s, Ok(ReceiveV::ChainBroken))
        },
        TcStatusV::ConsistentOut(out, _) => if mt.old_token == out.new_token {
            if s.counter == u128::MAX {
                (s, Err(TokenChannelError::MoveTokenCounterOverflow))
            } else {
                match receive_batch_of(s.ledger, s.counter, mt, local, remote) {
                    Ok((l, info, msgs)) => (received_state(mt, l, info), Ok(ReceiveV::Received(msgs))),
                    Err(_) => (s, Ok(ReceiveV::ChainBroken)),
                }
            }
        } else if out.old_token == mt.new_token {
            (s, Ok(ReceiveV::RetransmitOutgoing(out)))
        } else {
            (s, Ok(ReceiveV::ChainBroken))
        },
        TcStatusV::Inconsistent(t, _) => if mt.old_token == t.reset_token && t.move_token_counter
            > 0 {
            match receive_batch_of(
                cleared_ledger(s.ledger),
                (t.move_token_counter - 1) as u128,
                mt,
                local,
                remote,
            ) {
                Ok((l, info, msgs)) => (received_state(mt, l, info), Ok(ReceiveV::Received(msgs))),
                Err(_) => (s, Ok(ReceiveV::ChainInconsistent(t))),
            }
        } else {
            (s, Ok(ReceiveV::ChainInconsistent(t)))
        },
    }
}

/// The balances offered in reset terms: each balance with its fees.
pub open spec fn reset_balances_of(credits: Seq<CreditV>) -> Seq<(Seq<u8>, ResetBalance)> {
    credits.map_values(
        |e: CreditV|
            (
                e.currency,
                ResetBalance {
                    balance: e.mc.balance.balance,
                    in_fees: e.mc.balance.in_fees,
                    out_fees: e.mc.balance.out_fees,
                },
            ),
    )
}

/// The reset terms that a channel offers with a given reset token.
pub open spec fn local_reset_terms_of(s: TcState, reset_token: Seq<u8>) -> ResetTermsV {
    ResetTermsV {
        reset_token,
        move_token_counter: (s.counter + 2) as u128,
        reset_balances: reset_balances_of(s.ledger.credits),
    }
}

fn hashed_eq(a: &MoveTokenHashed, b: &MoveTokenHashed) -> (r: bool)
    ensures
        r == (a@ == b@),
{
    bytes_eq(&a.prefix_hash, &b.prefix_hash) && bytes_eq(
        &a.token_info.balances_hash,
        &b.token_info.balances_hash,
    ) && a.token_info.move_token_counter == b.token_info.move_token_counter && bytes_eq(
        &a.new_token,
        &b.new_token,
    )
}

fn hashed_move_token(mt: &MoveToken, info: TokenInfo) -> (r: MoveTokenHashed)
    ensures
        r@ == hashed_of(mt@, info@),
{
    MoveTokenHashed {
        prefix_hash: hash_move_token_prefix(mt),
        token_info: info,
        new_token: copy_bytes(&mt.new_token),
    }
}

/// Applies a batch of the remote side to a copy of `start`.
fn receive_batch(
    start: &Ledger,
    counter: u128,
    mt: &MoveToken,
    local_public_key: &PublicKey,
    remote_public_key: &PublicKey,
) -> (r: Result<(Ledger, TokenInfo, Vec<(Currency, IncomingMessage)>), InvalidIncoming>)
    requires
        start@.wf(),
        counter < u128::MAX,
    ensures
        match receive_batch_of(start@, counter, mt@, local_public_key@, remote_public_key@) {
            Ok((l, info, msgs)) => r matches Ok((l2, i2, m2)) && l2@ == l && i2@ == info
                && messages_view(m2@) == msgs && l2@.wf(),
            Err(e) => r == Err::<(Ledger, TokenInfo, Vec<(Currency, IncomingMessage)>), InvalidIncoming>(e),
        },
{
    let buff = move_token_signature_buff(mt);
    if !verify_signature(remote_public_key.as_slice(), buff.as_slice(), mt.new_token.as_slice()) {
        return Err(InvalidIncoming::InvalidSignature);
    }
    let ghost diff = mt@.currencies_diff;
    let mut work = start.copy();
    let mut i: usize = 0;
    while i < mt.currencies_diff.len()
        invariant
            i <= mt.currencies_diff.len(),
            diff == mt@.currencies_diff,
            ed25519_accepts(remote_public_key@, move_token_signature_buff_of(mt@), mt@.new_token),
            work@.wf(),
            toggle_all_of(start@, diff.take(i as int), true) == Some(work@),
        decreases mt.currencies_diff.len() - i,
    {
        let ok = work.toggle_currency(&mt.currencies_diff[i], true);
        proof {
            assert(diff.take(i + 1).drop_last() =~= diff.take(i as int));
            assert(diff.take(i + 1).last() == diff[i as int]);
        }
        if !ok {
            proof {
                lemma_toggle_all_none(start@, diff, i + 1);
            }
            return Err(InvalidIncoming::CanNotRemoveCurrencyInUse);
        }
        i = i + 1;
    }
    proof {
        assert(diff.take(i as int) =~= diff);
    }
    let ghost l1 = work@;
    let ghost ops = mt@.currencies_operations;
    let mut msgs: Vec<(Currency, IncomingMessage)> = Vec::new();
    let mut j: usize = 0;
    while j < mt.currencies_operations.len()
        invariant
            j <= mt.currencies_operations.len(),
            ops == mt@.currencies_operations,
            ops.len() == mt.currencies_operations@.len(),
            ed25519_accepts(remote_public_key@, move_token_signature_buff_of(mt@), mt@.new_token),
            toggle_all_of(start@, mt@.currencies_diff, true) == Some(l1),
            work@.wf(),
            incoming_ops_of(l1, ops.take(j as int)) == Some((work@, messages_view(msgs@))),
        decreases mt.currencies_operations.len() - j,
    {
        let c = &mt.currencies_operations[j].0;
        let op = &mt.currencies_operations[j].1;
        proof {
            assert(ops.take(j + 1).drop_last() =~= ops.take(j as int));
            assert(ops.take(j + 1).last() == (c@, op@));
        }
        match work.apply_incoming_op(c, op) {
            Some(m) => {
                let ghost before = msgs@;
                msgs.push((copy_bytes(c), m));
                assert(messages_view(msgs@) =~= messages_view(before).push((c@, m@)));
            },
            None => {
                proof {
                    lemma_incoming_ops_none(l1, ops, j + 1);
                }
                return Err(InvalidIncoming::InvalidOperation);
            },
        }
        j = j + 1;
    }
    proof {
        assert(ops.take(j as int) =~= ops);
    }
    let ghost l2 = work@;
    let mut flipped: Vec<(Currency, McBalance)> = Vec::new();
    let mut k: usize = 0;
    while k < work.credits.len()
        invariant
            k <= work.credits.len(),
            work@ == l2,
            ed25519_accepts(remote_public_key@, move_token_signature_buff_of(mt@), mt@.new_token),
            toggle_all_of(start@, mt@.currencies_diff, true) == Some(l1),
            incoming_ops_of(l1, mt@.currencies_operations) == Some((l2, messages_view(msgs@))),
            flipped@.len() == k,
            forall|x: int|
                0 <= x < k ==> (#[trigger] flipped@[x]).0@ == work@.credits[x].currency
                    && flipped@[x].1 == work@.credits[x].mc.balance.flipped(),
            forall|x: int| 0 <= x < k ==> (#[trigger] work@.credits[x]).mc.balance.balance != i128::MIN,
        decreases work.credits.len() - k,
    {
        match work.credits[k].mutual_credit.balance.flip() {
            Some(b) => {
                flipped.push((copy_bytes(&work.credits[k].currency), b));
            },
            None => {
                assert(work@.credits[k as int].mc.balance.balance == i128::MIN);
                return Err(InvalidIncoming::InvalidTokenInfo);
            },
        }
        k = k + 1;
    }
    assert(flipped@.map_values(|p: (Currency, McBalance)| (p.0@, p.1)) =~= flipped_balances_of(
        work@.credits,
    ));
    let info = TokenInfo {
        balances_hash: hash_balances(&flipped),
        move_token_counter: counter + 1,
    };
    let expected = hash_token_info(remote_public_key, local_public_key, &info);
    if !bytes_eq(&expected, &mt.info_hash) {
        return Err(InvalidIncoming::InvalidTokenInfo);
    }
    Ok((work, info, msgs))
}

impl TokenChannel {
    /// A new channel between two friends. The side with the lower public key
    /// starts as the sender of the initial move token; the other starts as its
    /// receiver, so that the two agree without talking.
    pub fn new(local_public_key: &PublicKey, remote_public_key: &PublicKey) -> (r: TokenChannel)
        ensures
            r@ == initial_state(local_public_key@, remote_public_key@),
            r@.wf(),
    {
        let ledger = Ledger::new();
        assert(ledger@.local_currencies =~= Seq::<Seq<u8>>::empty());
        assert(ledger@.remote_currencies =~= Seq::<Seq<u8>>::empty());
        assert(ledger@.credits =~= Seq::<CreditV>::empty());
        let status = if compare_public_key_lt(local_public_key, remote_public_key) {
            TcStatus::ConsistentOut(initial_move_token(local_public_key, remote_public_key), None)
        } else {
            let empty: Vec<(Currency, McBalance)> = Vec::new();
            let balances_hash = hash_balances(&empty);
            assert(empty@.map_values(|p: (Currency, McBalance)| (p.0@, p.1)) =~= Seq::<
                (Seq<u8>, McBalance),
            >::empty());
            assert(balances_bytes(Seq::<(Seq<u8>, McBalance)>::empty()) =~= Seq::<u8>::empty());
            let info = TokenInfo { balances_hash, move_token_counter: 0 };
            TcStatus::ConsistentIn(
                hashed_move_token(&initial_move_token(remote_public_key, local_public_key), info),
            )
        };
        TokenChannel { status, move_token_counter: 0, ledger }
    }

    pub fn get_move_token_counter(&self) -> (r: u128)
        ensures
            r == self@.counter,
    {
        self.move_token_counter
    }

    /// Handles a move token from the remote side; see `receive_outcome_of`.
    /// Where the chain breaks nothing changes here: the caller signs new reset
    /// terms and sets them with `set_inconsistent`.
    pub fn handle_in_move_token(
        &mut self,
        new_move_token: &MoveToken,
        local_public_key: &PublicKey,
        remote_public_key: &PublicKey,
    ) -> (r: Result<ReceiveMoveTokenOutput, TokenChannelError>)
        requires
            old(self)@.wf(),
        ensures
            final(self)@.wf(),
            (final(self)@, receive_result_view(r)) == receive_outcome_of(
                old(self)@,
                new_move_token@,
                local_public_key@,
                remote_public_key@,
            ),
    {
        match &self.status {
            TcStatus::ConsistentIn(h) => {
                let candidate = hashed_move_token(new_move_token, h.token_info.copy());
                if hashed_eq(h, &candidate) {
                    Ok(ReceiveMoveTokenOutput::Duplicate)
                } else {
                    Ok(ReceiveMoveTokenOutput::ChainBroken)
                }
            },
            TcStatus::ConsistentOut(out, _) => {
                if bytes_eq(&new_move_token.old_token, &out.new_token) {
                    if self.move_token_counter == u128::MAX {
                        return Err(TokenChannelError::MoveTokenCounterOverflow);
                    }
                    match receive_batch(
                        &self.ledger,
                        self.move_token_counter,
                        new_move_token,
                        local_public_key,
                        remote_public_key,
                    ) {
                        Ok((l, info, msgs)) => {
                            self.move_token_counter = info.move_token_counter;
                            self.status = TcStatus::ConsistentIn(hashed_move_token(new_move_token, info));
                            self.ledger = l;
                            Ok(ReceiveMoveTokenOutput::Received(MoveTokenReceived { incoming_messages: msgs }))
                        },
                        Err(_) => Ok(ReceiveMoveTokenOutput::ChainBroken),
                    }
                } else if bytes_eq(&out.old_token, &new_move_token.new_token) {
                    Ok(ReceiveMoveTokenOutput::RetransmitOutgoing(out.copy()))
                } else {
                    Ok(ReceiveMoveTokenOutput::ChainBroken)
                }
            },
            TcStatus::Inconsistent(t, _) => {
                if bytes_eq(&new_move_token.old_token, &t.reset_token) && t.move_token_counter > 0 {
                    let cleared = self.ledger.cleared();
                    match receive_batch(
                        &cleared,
                        t.move_token_counter - 1,
                        new_move_token,
                        local_public_key,
                        remote_public_key,
                    ) {
                        Ok((l, info, msgs)) => {
                            self.move_token_counter = info.move_token_counter;
                            self.status = TcStatus::ConsistentIn(hashed_move_token(new_move_token, info));
                            self.ledger = l;
                            Ok(ReceiveMoveTokenOutput::Received(MoveTokenReceived { incoming_messages: msgs }))
                        },
                        Err(_) => Ok(ReceiveMoveTokenOutput::ChainInconsistent(t.copy())),
                    }
                } else {
                    Ok(ReceiveMoveTokenOutput::ChainInconsistent(t.copy()))
                }
            },
        }
    }

    /// The bytes to sign for the reset token of new local reset terms, or
    /// `None` where the counter leaves no room for them.
    pub fn reset_token_request(
        &self,
        local_public_key: &PublicKey,
        remote_public_key: &PublicKey,
    ) -> (r: Option<Vec<u8>>)
        ensures
            self@.counter + 2 > u128::MAX ==> r is None,
            self@.counter + 2 <= u128::MAX ==> (r matches Some(b) && b@
                == reset_token_signature_buff_of(
                local_public_key@,
                remote_public_key@,
                (self@.counter + 2) as u128,
            )),
    {
        match self.move_token_counter.checked_add(2) {
            Some(c) => Some(reset_token_signature_buff(local_public_key, remote_public_key, c)),
            None => None,
        }
    }

    /// Marks the chain as broken, with local reset terms at the counter two
    /// past ours (the remote side may already have signed the next one) and a
    /// snapshot of the balances with their pending debts dropped. Returns the
    /// terms to announce.
    pub fn set_inconsistent(&mut self, local_reset_token: Signature) -> (r: Result<
        ResetTerms,
        TokenChannelError,
    >)
        requires
            old(self)@.wf(),
        ensures
            final(self)@.wf(),
            old(self)@.counter + 2 > u128::MAX ==> r == Err::<ResetTerms, TokenChannelError>(
                TokenChannelError::MoveTokenCounterOverflow,
            ) && final(self)@ == old(self)@,
            old(self)@.counter + 2 <= u128::MAX ==> (r matches Ok(t) && t@ == local_reset_terms_of(
                old(self)@,
                local_reset_token@,
            ) && final(self)@ == (TcState {
                status: TcStatusV::Inconsistent(t@, None),
                ..old(self)@
            })),
    {
        let counter = match self.move_token_counter.checked_add(2) {
            Some(c) => c,
            None => {
                return Err(TokenChannelError::MoveTokenCounterOverflow);
            },
        };
        let mut balances: Vec<(Currency, ResetBalance)> = Vec::new();
        let mut i: usize = 0;
        while i < self.ledger.credits.len()
            invariant
                i <= self.ledger.credits.len(),
                balances@.len() == i,
                forall|j: int|
                    0 <= j < i ==> (#[trigger] balances@[j]).0@ == reset_balances_of(
                        self@.ledger.credits,
                    )[j].0 && balances@[j].1 == reset_balances_of(self@.ledger.credits)[j].1,
            decreases self.ledger.credits.len() - i,
        {
            let b = self.ledger.credits[i].mutual_credit.balance;
            balances.push(
                (
                    copy_bytes(&self.ledger.credits[i].currency),
                    ResetBalance { balance: b.balance, in_fees: b.in_fees, out_fees: b.out_fees },
                ),
            );
            i = i + 1;
        }
        let terms = ResetTerms {
            reset_token: local_reset_token,
            move_token_counter: counter,
            reset_balances: balances,
        };
        assert(terms@.reset_balances =~= reset_balances_of(self@.ledger.credits));
        let out = terms.copy();
        self.status = TcStatus::Inconsistent(terms, None);
        Ok(out)
    }

    /// Records the reset terms that the remote side announced. The channel
    /// must already be inconsistent: a consistent channel first sets its own
    /// terms with `set_inconsistent`.
    pub fn load_remote_reset_terms(&mut self, remote_reset_terms: ResetTerms) -> (r: Result<
        (),
        TokenChannelError,
    >)
        requires
            old(self)@.wf(),
        ensures
            final(self)@.wf(),
            match old(self)@.status {
                TcStatusV::Inconsistent(t, _) => r is Ok && final(self)@ == (TcState {
                    status: TcStatusV::Inconsistent(t, Some(remote_reset_terms@)),
                    ..old(self)@
                }),
                _ => r == Err::<(), TokenChannelError>(TokenChannelError::InvalidTokenChannelStatus)
                    && final(self)@ == old(self)@,
            },
    {
        let local = match &self.status {
            TcStatus::Inconsistent(t, _) => t.copy(),
            _ => {
                return Err(TokenChannelError::InvalidTokenChannelStatus);
            },
        };
        self.status = TcStatus::Inconsistent(local, Some(remote_reset_terms));
        Ok(())
    }
}

// ---------------------------------------------------------------------------
// Sending move tokens
// ---------------------------------------------------------------------------

/// An operation of the local side on the mutual credit of a currency.
#[derive(Debug)]
pub struct TcOp {
    pub currency: Currency,
    pub mc_op: McOp,
}

impl View for TcOp {
    type V = (Seq<u8>, McOpV);

    open spec fn view(&self) -> (Seq<u8>, McOpV) {
        (self.currency@, self.mc_op@)
    }
}

/// An operation as it travels inside a move token: beside its currency.
pub fn friend_tc_op_from_outgoing_tc_op(tc_op: TcOp) -> (r: (Currency, FriendTcOp))
    ensures
        (r.0@, r.1@) == tc_op@,
{
    (tc_op.currency, tc_op.mc_op)
}

/// A move token being assembled: the operations and currency toggles of the
/// local side, applied to a copy of the channel's ledger as they are queued.
#[derive(Debug)]
pub struct OutMoveToken {
    pub ledger: Ledger,
    pub move_token_counter: u128,
    /// The last move token received, where it is the local side's turn.
    pub move_token_in: Option<MoveTokenHashed>,
    pub tc_ops: Vec<TcOp>,
    pub currencies_diff: Vec<Currency>,
}

pub struct OutMoveTokenV {
    pub ledger: LedgerV,
    pub counter: u128,
    pub move_token_in: Option<MoveTokenHashedV>,
    pub ops: Seq<(Seq<u8>, McOpV)>,
    pub diff: Seq<Seq<u8>>,
}

pub open spec fn tc_ops_view(v: Seq<TcOp>) -> Seq<(Seq<u8>, McOpV)> {
    v.map_values(|o: TcOp| o@)
}

impl View for OutMoveToken {
    type V = OutMoveTokenV;

    open spec fn view(&self) -> OutMoveTokenV {
        OutMoveTokenV {
            ledger: self.ledger@,
            counter: self.move_token_counter,
            move_token_in: opt_hashed_view(self.move_token_in),
            ops: tc_ops_view(self.tc_ops@),
            diff: bytes_list_view(self.currencies_diff@),
        }
    }
}

/// The token info that the sender binds to its move token: its own balances,
/// at the next counter.
pub open spec fn out_info_of(l: LedgerV, counter: u128) -> TokenInfoV {
    TokenInfoV {
        balances_hash: balances_hash_of(balances_of(l.credits)),
        move_token_counter: (counter + 1) as u128,
    }
}

/// The move token that an assembled batch makes, before its signature.
pub open spec fn unsigned_move_token_of(
    o: OutMoveTokenV,
    h: MoveTokenHashedV,
    local: Seq<u8>,
    remote: Seq<u8>,
) -> MoveTokenV {
    MoveTokenV {
        old_token: h.new_token,
        currencies_operations: o.ops,
        currencies_diff: o.diff,
        info_hash: info_hash_of(local, remote, out_info_of(o.ledger, o.counter)),
        new_token: Seq::empty(),
    }
}

/// The state of a channel that sent a move token.
pub open spec fn sent_state(mt: MoveTokenV, h: MoveTokenHashedV, counter: u128, l: LedgerV) -> TcState {
    TcState {
        status: TcStatusV::ConsistentOut(mt, Some(h)),
        counter,
        ledger: l,
    }
}

/// A move token that waits for its signature.
#[derive(Debug)]
pub struct PendingMoveToken {
    pub ledger: Ledger,
    pub move_token_counter: u128,
    pub move_token_in: MoveTokenHashed,
    pub move_token: MoveToken,
}

pub struct PendingMoveTokenV {
    pub ledger: LedgerV,
    pub counter: u128,
    pub move_token_in: MoveTokenHashedV,
    pub move_token: MoveTokenV,
}

impl View for PendingMoveToken {
    type V = PendingMoveTokenV;

    open spec fn view(&self) -> PendingMoveTokenV {
        PendingMoveTokenV {
            ledger: self.ledger@,
            counter: self.move_token_counter,
            move_token_in: self.move_token_in@,
            move_token: self.move_token@,
        }
    }
}

impl OutMoveToken {
    /// Starts a move token from the channel's current state.
    pub fn new(tc: &TokenChannel) -> (r: OutMoveToken)
        requires
            tc@.wf(),
        ensures
            r@.ledger == tc@.ledger,
            r@.counter == tc@.counter,
            r@.move_token_in == (match tc@.status {
                TcStatusV::ConsistentIn(h) => Some(h),
                _ => None::<MoveTokenHashedV>,
            }),
            r@.ops.len() == 0,
            r@.diff.len() == 0,
            r@.ledger.wf(),
    {
        let move_token_in = match &tc.status {
            TcStatus::ConsistentIn(h) => Some(h.copy()),
            _ => None,
        };
        OutMoveToken {
            ledger: tc.ledger.copy(),
            move_token_counter: tc.move_token_counter,
            move_token_in,
            tc_ops: Vec::new(),
            currencies_diff: Vec::new(),
        }
    }

    pub open spec fn wf(&self) -> bool {
        self@.ledger.wf()
    }

    /// Sends a request on the mutual credit of `currency`, within the local
    /// credit limit. Where the limit would be exceeded, the request is
    /// answered at once with a cancel and nothing is queued.
    pub fn queue_request(&mut self, currency: Currency, mc_request: McRequest, local_max_debt: u128) -> (r:
        Result<Result<(), McCancel>, TokenChannelError>)
        requires
            old(self).wf(),
        ensures
            final(self).wf(),
            !has_credit(old(self)@.ledger.credits, currency@) ==> r == Err::<
                Result<(), McCancel>,
                TokenChannelError,
            >(TokenChannelError::InvalidState) && final(self)@ == old(self)@,
            has_credit(old(self)@.ledger.credits, currency@) ==> ({
                let i = credit_index(old(self)@.ledger.credits, currency@);
                let mc = old(self)@.ledger.credits[i].mc;
                match queue_request_outcome(mc, mc_request@, local_max_debt) {
                    Err(e) => r == Err::<Result<(), McCancel>, TokenChannelError>(
                        TokenChannelError::QueueOperationError(e),
                    ) && final(self)@ == old(self)@,
                    Ok(false) => (r matches Ok(Err(c)) && c.request_id@ == mc_request@.request_id)
                        && final(self)@ == old(self)@,
                    Ok(true) => r == Ok::<Result<(), McCancel>, TokenChannelError>(Ok(()))
                        && final(self)@ == (OutMoveTokenV {
                        ledger: with_mc(old(self)@.ledger, i, with_local_request(mc, mc_request@)),
                        ops: old(self)@.ops.push((currency@, McOpV::Request(mc_request@))),
                        ..old(self)@
                    }),
                }
            }),
    {
        let i = match find_credit(&self.ledger.credits, &currency) {
            Some(i) => i,
            None => {
                return Err(TokenChannelError::InvalidState);
            },
        };
        proof {
            lemma_credit_index(self@.ledger.credits, i as int);
        }
        let ghost l0 = self@.ledger;
        let mut e = self.ledger.credits.remove(i);
        let ghost before = e@;
        assert(before.mc.wf());
        let req = mc_request.copy();
        let res = e.mutual_credit.queue_request(mc_request, local_max_debt);
        self.ledger.credits.insert(i, e);
        assert(self@.ledger.credits =~= l0.credits.update(i as int, e@));
        match res {
            Err(err) => {
                assert(self@.ledger.credits =~= l0.credits);
                Err(TokenChannelError::QueueOperationError(err))
            },
            Ok(Err(c)) => {
                assert(self@.ledger.credits =~= l0.credits);
                Ok(Err(c))
            },
            Ok(Ok(())) => {
                proof {
                    lemma_with_mc_wf(l0, i as int, e@.mc);
                }
                let ghost ops0 = self@.ops;
                self.tc_ops.push(TcOp { currency, mc_op: McOp::Request(req) });
                assert(self@.ops =~= ops0.push((currency@, McOpV::Request(mc_request@))));
                Ok(Ok(()))
            },
        }
    }

    /// Answers a request of the remote side on the mutual credit of
    /// `currency`.
    pub fn queue_response(&mut self, currency: Currency, mc_response: McResponse) -> (r: Result<
        (),
        TokenChannelError,
    >)
        requires
            old(self).wf(),
        ensures
            final(self).wf(),
            !has_credit(old(self)@.ledger.credits, currency@) ==> r == Err::<(), TokenChannelError>(
                TokenChannelError::InvalidState,
            ) && final(self)@ == old(self)@,
            has_credit(old(self)@.ledger.credits, currency@) ==> ({
                let i = credit_index(old(self)@.ledger.credits, currency@);
                let mc = old(self)@.ledger.credits[i].mc;
                match queue_response_outcome(mc, currency@, mc_response@) {
                    Err(e) => r == Err::<(), TokenChannelError>(
                        TokenChannelError::QueueOperationError(e),
                    ) && final(self)@ == old(self)@,
                    Ok(()) => r is Ok && final(self)@ == (OutMoveTokenV {
                        ledger: with_mc(
                            old(self)@.ledger,
                            i,
                            settle_remote(mc, index_of(mc.remote, mc_response@.request_id)),
                        ),
                        ops: old(self)@.ops.push((currency@, McOpV::Response(mc_response@))),
                        ..old(self)@
                    }),
                }
            }),
    {
        let i = match find_credit(&self.ledger.credits, &currency) {
            Some(i) => i,
            None => {
                return Err(TokenChannelError::InvalidState);
            },
        };
        proof {
            lemma_credit_index(self@.ledger.credits, i as int);
        }
        let ghost l0 = self@.ledger;
        let mut e = self.ledger.credits.remove(i);
        assert(e@.mc.wf());
        let res = e.mutual_credit.queue_response(&currency, &mc_response);
        self.ledger.credits.insert(i, e);
        assert(self@.ledger.credits =~= l0.credits.update(i as int, e@));
        match res {
            Err(err) => {
                assert(self@.ledger.credits =~= l0.credits);
                Err(TokenChannelError::QueueOperationError(err))
            },
            Ok(()) => {
                proof {
                    lemma_with_mc_wf(l0, i as int, e@.mc);
                }
                let ghost ops0 = self@.ops;
                let ghost pv = mc_response@;
                self.tc_ops.push(TcOp { currency, mc_op: McOp::Response(mc_response) });
                assert(self@.ops =~= ops0.push((currency@, McOpV::Response(pv))));
                Ok(())
            },
        }
    }

    /// Withdraws a request of the remote side on the mutual credit of
    /// `currency`.
    pub fn queue_cancel(&mut self, currency: Currency, mc_cancel: McCancel) -> (r: Result<
        (),
        TokenChannelError,
    >)
        requires
            old(self).wf(),
        ensures
            final(self).wf(),
            !has_credit(old(self)@.ledger.credits, currency@) ==> r == Err::<(), TokenChannelError>(
                TokenChannelError::InvalidState,
            ) && final(self)@ == old(self)@,
            has_credit(old(self)@.ledger.credits, currency@) ==> ({
                let i = credit_index(old(self)@.ledger.credits, currency@);
                let mc = old(self)@.ledger.credits[i].mc;
                if !has_id(mc.remote, mc_cancel.request_id@) {
                    r == Err::<(), TokenChannelError>(
                        TokenChannelError::QueueOperationError(McError::UnknownRequestId),
                    ) && final(self)@ == old(self)@
                } else {
                    r is Ok && final(self)@ == (OutMoveTokenV {
                        ledger: with_mc(
                            old(self)@.ledger,
                            i,
                            drop_remote(mc, index_of(mc.remote, mc_cancel.request_id@)),
                        ),
                        ops: old(self)@.ops.push((currency@, McOpV::Cancel(mc_cancel.request_id@))),
                        ..old(self)@
                    })
                }
            }),
    {
        let i = match find_credit(&self.ledger.credits, &currency) {
            Some(i) => i,
            None => {
                return Err(TokenChannelError::InvalidState);
            },
        };
        proof {
            lemma_credit_index(self@.ledger.credits, i as int);
        }
        let ghost l0 = self@.ledger;
        let mut e = self.ledger.credits.remove(i);
        assert(e@.mc.wf());
        let res = e.mutual_credit.queue_cancel(&mc_cancel);
        self.ledger.credits.insert(i, e);
        assert(self@.ledger.credits =~= l0.credits.update(i as int, e@));
        match res {
            Err(err) => {
                assert(self@.ledger.credits =~= l0.credits);
                Err(TokenChannelError::QueueOperationError(err))
            },
            Ok(()) => {
                proof {
                    lemma_with_mc_wf(l0, i as int, e@.mc);
                }
                let ghost ops0 = self@.ops;
                let ghost id = mc_cancel.request_id@;
                self.tc_ops.push(TcOp { currency, mc_op: McOp::Cancel(mc_cancel) });
                assert(self@.ops =~= ops0.push((currency@, McOpV::Cancel(id))));
                Ok(())
            },
        }
    }

    /// Adds a currency that the local side does not advertise yet, or
    /// withdraws one it does; a withdrawal is refused while its mutual credit
    /// holds a balance or pending debts.
    pub fn toggle_currency(&mut self, currency: Currency) -> (r: Result<(), TokenChannelError>)
        requires
            old(self).wf(),
        ensures
            final(self).wf(),
            match toggle_currency_of(old(self)@.ledger, currency@, false) {
                Some(l) => r is Ok && final(self)@ == (OutMoveTokenV {
                    ledger: l,
                    diff: old(self)@.diff.push(currency@),
                    ..old(self)@
                }),
                None => r == Err::<(), TokenChannelError>(
                    TokenChannelError::CanNotRemoveCurrencyInUse,
                ) && final(self)@ == old(self)@,
            },
    {
        if !self.ledger.toggle_currency(&currency, false) {
            return Err(TokenChannelError::CanNotRemoveCurrencyInUse);
        }
        let ghost d0 = self@.diff;
        let ghost c = currency@;
        self.currencies_diff.push(currency);
        assert(self@.diff =~= d0.push(c));
        Ok(())
    }

    /// Closes the batch: binds it to the last received move token and to the
    /// local balances at the next counter. It is only allowed while it is
    /// the local side's turn.
    pub fn finalize(self, local_public_key: &PublicKey, remote_public_key: &PublicKey) -> (r: Result<
        PendingMoveToken,
        TokenChannelError,
    >)
        requires
            self.wf(),
        ensures
            self@.move_token_in is None ==> r == Err::<PendingMoveToken, TokenChannelError>(
                TokenChannelError::InvalidTokenChannelStatus,
            ),
            self@.move_token_in is Some && self@.counter == u128::MAX ==> r == Err::<
                PendingMoveToken,
                TokenChannelError,
            >(TokenChannelError::MoveTokenCounterOverflow),
            self@.move_token_in is Some && self@.counter < u128::MAX ==> (r matches Ok(p)
                && p@ == (PendingMoveTokenV {
                ledger: self@.ledger,
                counter: (self@.counter + 1) as u128,
                move_token_in: self@.move_token_in->Some_0,
                move_token: unsigned_move_token_of(
                    self@,
                    self@.move_token_in->Some_0,
                    local_public_key@,
                    remote_public_key@,
                ),
            }) && p@.ledger.wf()),
    {
        let OutMoveToken { ledger, move_token_counter, move_token_in, tc_ops, currencies_diff } =
            self;
        let h = match move_token_in {
            Some(h) => h,
            None => {
                return Err(TokenChannelError::InvalidTokenChannelStatus);
            },
        };
        let counter = match move_token_counter.checked_add(1) {
            Some(c) => c,
            None => {
                return Err(TokenChannelError::MoveTokenCounterOverflow);
            },
        };
        let mut balances: Vec<(Currency, McBalance)> = Vec::new();
        let mut i: usize = 0;
        while i < ledger.credits.len()
            invariant
                i <= ledger.credits.len(),
                balances@.len() == i,
                forall|j: int|
                    0 <= j < i ==> (#[trigger] balances@[j]).0@ == ledger@.credits[j].currency
                        && balances@[j].1 == ledger@.credits[j].mc.balance,
            decreases ledger.credits.len() - i,
        {
            balances.push(
                (copy_bytes(&ledger.credits[i].currency), ledger.credits[i].mutual_credit.balance),
            );
            i = i + 1;
        }
        assert(balances@.map_values(|p: (Currency, McBalance)| (p.0@, p.1)) =~= balances_of(
            ledger@.credits,
        ));
        let info = TokenInfo { balances_hash: hash_balances(&balances), move_token_counter: counter };
        let info_hash = hash_token_info(local_public_key, remote_public_key, &info);
        let ghost ops_v = tc_ops_view(tc_ops@);
        let mut ops: Vec<(Currency, FriendTcOp)> = Vec::new();
        let mut rest = tc_ops;
        let n = rest.len();
        let mut k: usize = 0;
        while k < n
            invariant
                k <= n,
                n == ops_v.len(),
                rest@.len() == n - k,
                tc_ops_view(rest@) =~= ops_v.skip(k as int),
                crate::types::ops_view(ops@) =~= ops_v.take(k as int),
            decreases n - k,
        {
            let ghost r0 = rest@;
            let op = rest.remove(0);
            assert(op@ == ops_v[k as int]) by {
                assert(tc_ops_view(r0)[0] == op@);
            }
            assert(tc_ops_view(rest@) =~= ops_v.skip(k + 1)) by {
                assert(rest@ =~= r0.subrange(1, r0.len() as int));
                assert forall|j: int| 0 <= j < rest@.len() implies #[trigger] tc_ops_view(rest@)[j]
                    == ops_v.skip(k + 1)[j] by {
                    assert(tc_ops_view(rest@)[j] == rest@[j]@);
                    assert(rest@[j] == r0[j + 1]);
                    assert(tc_ops_view(r0)[j + 1] == ops_v.skip(k as int)[j + 1]);
                }
            }
            let ghost ov = op@;
            let p = friend_tc_op_from_outgoing_tc_op(op);
            let ghost before = ops@;
            ops.push(p);
            assert(crate::types::ops_view(ops@) =~= crate::types::ops_view(before).push(ov));
            assert(ops_v.take(k + 1) =~= ops_v.take(k as int).push(ops_v[k as int]));
            k = k + 1;
        }
        assert(ops_v.take(n as int) =~= ops_v);
        let move_token = MoveToken {
            old_token: copy_bytes(&h.new_token),
            currencies_operations: ops,
            currencies_diff,
            info_hash,
            new_token: Vec::new(),
        };
        assert(move_token@.new_token =~= Seq::<u8>::empty());
        Ok(PendingMoveToken { ledger, move_token_counter: counter, move_token_in: h, move_token })
    }
}

impl PendingMoveToken {
    /// The move token so far; its new token is still empty.
    pub fn move_token(&self) -> (r: &MoveToken)
        ensures
            r@ == self@.move_token,
    {
        &self.move_token
    }

    /// The bytes that the local side signs to make the new token.
    pub fn signature_buff(&self) -> (r: Vec<u8>)
        ensures
            r@ == move_token_signature_buff_of(self@.move_token),
    {
        move_token_signature_buff(&self.move_token)
    }

    /// Completes the move token with its signature: the channel now waits for
    /// the remote side, at the next counter. Returns the channel and the move
    /// token to send.
    pub fn sign(self, new_token: Signature) -> (r: (TokenChannel, MoveToken))
        requires
            self@.ledger.wf(),
        ensures
            r.1@ == (MoveTokenV { new_token: new_token@, ..self@.move_token }),
            r.0@ == sent_state(r.1@, self@.move_token_in, self@.counter, self@.ledger),
            r.0@.wf(),
    {
        let PendingMoveToken { ledger, move_token_counter, move_token_in, move_token } = self;
        let mut mt = move_token;
        mt.new_token = new_token;
        let out = mt.copy();
        let tc = TokenChannel {
            status: TcStatus::ConsistentOut(mt, Some(move_token_in)),
            move_token_counter,
            ledger,
        };
        (tc, out)
    }
}

// ---------------------------------------------------------------------------
// Accepting the remote side's reset terms
// ---------------------------------------------------------------------------

/// The mutual credit that the remote side's reset balance stands for, as the
/// local side sees it; the credit limit granted to the remote side and the
/// rate are kept.
pub open spec fn reset_credit_of(credits: Seq<CreditV>, c: Seq<u8>, rb: ResetBalance) -> CreditV {
    CreditV {
        currency: c,
        remote_max_debt: if has_credit(credits, c) {
            credits[credit_index(credits, c)].remote_max_debt
        } else {
            0
        },
        rate: if has_credit(credits, c) {
            credits[credit_index(credits, c)].rate
        } else {
            Rate { mul: 0, add: 0 }
        },
        mc: McState {
            balance: McBalance {
                balance: (-rb.balance) as i128,
                local_pending_debt: 0,
                remote_pending_debt: 0,
                in_fees: rb.out_fees,
                out_fees: rb.in_fees,
            },
            local: Seq::empty(),
            remote: Seq::empty(),
        },
    }
}

/// The ledger that the remote side's reset balances stand for: both sides
/// advertise exactly their currencies.
pub open spec fn accepted_ledger_of(l: LedgerV, rbs: Seq<(Seq<u8>, ResetBalance)>) -> LedgerV {
    LedgerV {
        local_currencies: rbs.map_values(|p: (Seq<u8>, ResetBalance)| p.0),
        remote_currencies: rbs.map_values(|p: (Seq<u8>, ResetBalance)| p.0),
        credits: rbs.map_values(|p: (Seq<u8>, ResetBalance)| reset_credit_of(l.credits, p.0, p.1)),
    }
}

/// Whether reset balances can stand for a ledger: in increasing order of
/// currency, no currency twice, and every balance negatable.
pub open spec fn reset_balances_valid(rbs: Seq<(Seq<u8>, ResetBalance)>) -> bool {
    &&& rbs.map_values(|p: (Seq<u8>, ResetBalance)| p.0).no_duplicates()
    &&& forall|i: int, j: int|
        0 <= i < j < rbs.len() ==> lex_lt((#[trigger] rbs[i]).0, (#[trigger] rbs[j]).0)
    &&& forall|i: int| 0 <= i < rbs.len() ==> (#[trigger] rbs[i]).1.balance != i128::MIN
}

/// The move token that the remote side's reset token stands for.
pub open spec fn reset_move_token_of(reset_token: Seq<u8>) -> MoveTokenV {
    MoveTokenV {
        old_token: Seq::new(SIGNATURE_LEN as nat, |i: int| 0u8),
        currencies_operations: Seq::empty(),
        currencies_diff: Seq::empty(),
        info_hash: Seq::empty(),
        new_token: reset_token,
    }
}

/// The state after accepting the remote side's reset terms: it is the local
/// side's turn, as if the remote reset token had just been received, at the
/// counter before the remote reset counter.
pub open spec fn accepted_state_of(s: TcState, rt: ResetTermsV) -> TcState {
    let l = accepted_ledger_of(s.ledger, rt.reset_balances);
    let info = TokenInfoV {
        balances_hash: balances_hash_of(balances_of(l.credits)),
        move_token_counter: (rt.move_token_counter - 1) as u128,
    };
    TcState {
        status: TcStatusV::ConsistentIn(hashed_of(reset_move_token_of(rt.reset_token), info)),
        counter: (rt.move_token_counter - 1) as u128,
        ledger: l,
    }
}

proof fn lemma_accepted_ledger_wf(l: LedgerV, rbs: Seq<(Seq<u8>, ResetBalance)>)
    requires
        reset_balances_valid(rbs),
    ensures
        accepted_ledger_of(l, rbs).wf(),
{
    let a = accepted_ledger_of(l, rbs);
    let cs = rbs.map_values(|p: (Seq<u8>, ResetBalance)| p.0);
    assert forall|i: int| 0 <= i < a.credits.len() implies (#[trigger] a.credits[i]).mc.wf() by {
        assert(a.credits[i].mc.local =~= Seq::<McRequestV>::empty());
    }
    assert forall|i: int, j: int| 0 <= i < j < a.credits.len() implies lex_lt(
        (#[trigger] a.credits[i]).currency,
        (#[trigger] a.credits[j]).currency,
    ) by {
        assert(a.credits[i].currency == rbs[i].0);
        assert(a.credits[j].currency == rbs[j].0);
    }
    assert forall|i: int, j: int|
        0 <= i < a.credits.len() && 0 <= j < a.credits.len() && i != j implies (
        #[trigger] a.credits[i]).currency != (#[trigger] a.credits[j]).currency by {
        assert(a.credits[i].currency == cs[i]);
        assert(a.credits[j].currency == cs[j]);
    }
    assert forall|c: Seq<u8>| #[trigger] has_credit(a.credits, c) <==> (a.local_currencies.contains(c)
        && a.remote_currencies.contains(c)) by {
        if has_credit(a.credits, c) {
            let k = choose|k: int| 0 <= k < a.credits.len() && (#[trigger] a.credits[k]).currency == c;
            assert(cs[k] == c);
        }
        if a.local_currencies.contains(c) {
            let k = choose|k: int| 0 <= k < cs.len() && cs[k] == c;
            assert(a.credits[k].currency == c);
        }
    }
}

impl TokenChannel {
    /// Accepts the reset terms that the remote side announced: the ledger
    /// becomes the one that its reset balances stand for, and it is the local
    /// side's turn; the next move token sent follows the remote reset token.
    /// Refused unless the channel is inconsistent with remote terms at hand;
    /// terms that cannot stand for a ledger leave the channel as it is.
    pub fn accept_remote_reset(&mut self) -> (r: Result<(), TokenChannelError>)
        requires
            old(self)@.wf(),
        ensures
            final(self)@.wf(),
            match old(self)@.status {
                TcStatusV::Inconsistent(_, Some(rt)) => if rt.move_token_counter > 0
                    && reset_balances_valid(rt.reset_balances) {
                    r is Ok && final(self)@ == accepted_state_of(old(self)@, rt)
                } else {
                    r == Err::<(), TokenChannelError>(TokenChannelError::InvalidState)
                        && final(self)@ == old(self)@
                },
                _ => r == Err::<(), TokenChannelError>(TokenChannelError::InvalidTokenChannelStatus)
                    && final(self)@ == old(self)@,
            },
    {
        let rt = match &self.status {
            TcStatus::Inconsistent(_, Some(rt)) => rt.copy(),
            _ => {
                return Err(TokenChannelError::InvalidTokenChannelStatus);
            },
        };
        if rt.move_token_counter == 0 {
            return Err(TokenChannelError::InvalidState);
        }
        let ghost rbs = rt@.reset_balances;
        let ghost cs = rbs.map_values(|p: (Seq<u8>, ResetBalance)| p.0);
        let mut currencies: Vec<Currency> = Vec::new();
        let mut credits: Vec<CurrencyCredit> = Vec::new();
        let mut i: usize = 0;
        while i < rt.reset_balances.len()
            invariant
                i <= rt.reset_balances.len(),
                rbs == rt@.reset_balances,
                rbs.len() == rt.reset_balances@.len(),
                cs == rbs.map_values(|p: (Seq<u8>, ResetBalance)| p.0),
                self@ == old(self)@,
                old(self)@.wf(),
                old(self)@.status == (TcStatusV::Inconsistent(
                    old(self)@.status->Inconsistent_0,
                    Some(rt@),
                )),
                rt.move_token_counter > 0,
                bytes_list_view(currencies@) =~= cs.take(i as int),
                cs.take(i as int).no_duplicates(),
                credits@.len() == i,
                forall|j: int| 0 <= j < i ==> (#[trigger] rbs[j]).1.balance != i128::MIN,
                forall|x: int, y: int|
                    0 <= x < y < i ==> lex_lt((#[trigger] rbs[x]).0, (#[trigger] rbs[y]).0),
                forall|j: int|
                    0 <= j < i ==> #[trigger] credits@[j]@ == reset_credit_of(
                        self@.ledger.credits,
                        rbs[j].0,
                        rbs[j].1,
                    ),
            decreases rt.reset_balances.len() - i,
        {
            let c = &rt.reset_balances[i].0;
            let rb = rt.reset_balances[i].1;
            assert(cs[i as int] == c@);
            if let Some(k) = find_currency(&currencies, c) {
                proof {
                    assert(bytes_list_view(currencies@).len() == i);
                    assert(k < i);
                    assert(cs.take(i as int)[k as int] == c@);
                    assert(cs.take(i as int)[k as int] == cs[k as int]);
                    assert(cs[k as int] == cs[i as int]);
                    assert(!cs.no_duplicates());
                }
                return Err(TokenChannelError::InvalidState);
            }
            if rb.balance == i128::MIN {
                return Err(TokenChannelError::InvalidState);
            }
            if i > 0 && !compare_public_key_lt(&rt.reset_balances[i - 1].0, c) {
                assert(rbs[i - 1].0 == rt.reset_balances@[i - 1].0@);
                assert(!lex_lt(rbs[i - 1].0, rbs[i as int].0));
                return Err(TokenChannelError::InvalidState);
            }
            proof {
                assert forall|x: int, y: int| 0 <= x < y < i + 1 implies lex_lt(
                    (#[trigger] rbs[x]).0,
                    (#[trigger] rbs[y]).0,
                ) by {
                    if y == i && x < i - 1 {
                        lemma_lex_lt_trans(rbs[x].0, rbs[i - 1].0, rbs[y].0);
                    }
                }
            }
            let (remote_max_debt, rate) = match find_credit(&self.ledger.credits, c) {
                Some(k) => {
                    proof {
                        lemma_credit_index(self@.ledger.credits, k as int);
                    }
                    (self.ledger.credits[k].remote_max_debt, self.ledger.credits[k].rate)
                },
                None => (0, Rate { mul: 0, add: 0 }),
            };
            let mut mc = MutualCredit::new(-rb.balance);
            mc.balance.in_fees = rb.out_fees;
            mc.balance.out_fees = rb.in_fees;
            credits.push(
                CurrencyCredit { currency: copy_bytes(c), remote_max_debt, rate, mutual_credit: mc },
            );
            proof {
                assert(credits@[i as int]@.mc.balance == reset_credit_of(
                    self@.ledger.credits,
                    rbs[i as int].0,
                    rbs[i as int].1,
                ).mc.balance);
                assert(cs.take(i + 1) =~= cs.take(i as int).push(c@));
                crate::token_channel::lemma_push_no_dup(cs.take(i as int), c@);
            }
            let ghost cur0 = currencies@;
            currencies.push(copy_bytes(c));
            assert(bytes_list_view(currencies@) =~= bytes_list_view(cur0).push(c@));
            i = i + 1;
        }
        proof {
            assert(cs.take(i as int) =~= cs);
        }
        let ledger = Ledger {
            local_currencies: copy_bytes_list(&currencies),
            remote_currencies: currencies,
            credits,
        };
        assert(ledger@.credits =~= accepted_ledger_of(self@.ledger, rbs).credits);
        assert(ledger@ == accepted_ledger_of(self@.ledger, rbs));
        proof {
            lemma_accepted_ledger_wf(self@.ledger, rbs);
        }
        let mut balances: Vec<(Currency, McBalance)> = Vec::new();
        let mut k: usize = 0;
        while k < ledger.credits.len()
            invariant
                k <= ledger.credits.len(),
                balances@.len() == k,
                forall|j: int|
                    0 <= j < k ==> (#[trigger] balances@[j]).0@ == ledger@.credits[j].currency
                        && balances@[j].1 == ledger@.credits[j].mc.balance,
            decreases ledger.credits.len() - k,
        {
            balances.push(
                (copy_bytes(&ledger.credits[k].currency), ledger.credits[k].mutual_credit.balance),
            );
            k = k + 1;
        }
        assert(balances@.map_values(|p: (Currency, McBalance)| (p.0@, p.1)) =~= balances_of(
            ledger@.credits,
        ));
        let counter = rt.move_token_counter - 1;
        let info = TokenInfo { balances_hash: hash_balances(&balances), move_token_counter: counter };
        let reset_move_token = MoveToken {
            old_token: vec![0u8; SIGNATURE_LEN],
            currencies_operations: Vec::new(),
            currencies_diff: Vec::new(),
            info_hash: Vec::new(),
            new_token: rt.reset_token,
        };
        assert(reset_move_token@.old_token =~= reset_move_token_of(rt@.reset_token).old_token);
        assert(reset_move_token@.currencies_operations =~= Seq::<(Seq<u8>, McOpV)>::empty());
        assert(reset_move_token@.currencies_diff =~= Seq::<Seq<u8>>::empty());
        assert(reset_move_token@ == reset_move_token_of(rt@.reset_token));
        self.status = TcStatus::ConsistentIn(hashed_move_token(&reset_move_token, info));
        self.move_token_counter = counter;
        self.ledger = ledger;
        Ok(())
    }
}

// ---------------------------------------------------------------------------
// Laws
// ---------------------------------------------------------------------------

/// The state of a channel right after it signed and sent a batch assembled
/// from `o`, which started while `h` was the last move token received.
pub open spec fn signed_move_token_of(
    o: OutMoveTokenV,
    h: MoveTokenHashedV,
    local: Seq<u8>,
    remote: Seq<u8>,
    new_token: Seq<u8>,
) -> MoveTokenV {
    MoveTokenV { new_token, ..unsigned_move_token_of(o, h, local, remote) }
}

/// Every accepted move token moves the counter forward, received or sent.
pub proof fn lemma_counter_increases(
    s: TcState,
    mt: MoveTokenV,
    local: Seq<u8>,
    remote: Seq<u8>,
    o: OutMoveTokenV,
    h: MoveTokenHashedV,
    new_token: Seq<u8>,
)
    requires
        s.wf(),
    ensures
        receive_outcome_of(s, mt, local, remote).1 matches Ok(ReceiveV::Received(_))
            ==> receive_outcome_of(s, mt, local, remote).0.counter > s.counter,
        o.counter < u128::MAX ==> sent_state(
            signed_move_token_of(o, h, local, remote, new_token),
            h,
            (o.counter + 1) as u128,
            o.ledger,
        ).counter > o.counter,
{
}

/// A move token that was just received, received again, is a duplicate that
/// changes nothing.
pub proof fn lemma_duplicate_after_receive(s: TcState, mt: MoveTokenV, local: Seq<u8>, remote: Seq<u8>)
    requires
        s.wf(),
        receive_outcome_of(s, mt, local, remote).1 matches Ok(ReceiveV::Received(_)),
    ensures
        receive_outcome_of(receive_outcome_of(s, mt, local, remote).0, mt, local, remote) == (
            receive_outcome_of(s, mt, local, remote).0,
            Ok::<ReceiveV, TokenChannelError>(ReceiveV::Duplicate),
        ),
{
}

/// The sender's last move token is the one that the receiver received last,
/// and both are at the same counter.
pub open spec fn linked(sender: TcState, receiver: TcState) -> bool {
    &&& sender.status is ConsistentOut
    &&& receiver.status is ConsistentIn
    &&& receiver.status->ConsistentIn_0.new_token == sender.status->ConsistentOut_0.new_token
    &&& sender.counter == receiver.counter
}

proof fn lemma_lex_lt_asym(a: Seq<u8>, b: Seq<u8>)
    requires
        lex_lt(a, b),
    ensures
        !lex_lt(b, a),
    decreases a.len(),
{
    if a.len() > 0 && b.len() > 0 && a[0] == b[0] {
        lemma_lex_lt_asym(a.drop_first(), b.drop_first());
    }
}

/// Two new channels start linked: the side with the lower key as the sender.
pub proof fn lemma_initial_linked(low: Seq<u8>, high: Seq<u8>)
    requires
        lex_lt(low, high),
    ensures
        linked(initial_state(low, high), initial_state(high, low)),
{
    lemma_lex_lt_asym(low, high);
}

/// When the receiver of a linked pair sends a batch and the other side
/// accepts it, the pair is linked again with the roles swapped.
pub proof fn lemma_linked_step(
    a: TcState,
    b: TcState,
    o: OutMoveTokenV,
    a_local: Seq<u8>,
    a_remote: Seq<u8>,
    b_local: Seq<u8>,
    b_remote: Seq<u8>,
    new_token: Seq<u8>,
)
    requires
        a.wf(),
        linked(a, b),
        o.move_token_in == Some(b.status->ConsistentIn_0),
        o.counter == b.counter,
        b.counter < u128::MAX,
        receive_outcome_of(
            a,
            signed_move_token_of(o, b.status->ConsistentIn_0, b_local, b_remote, new_token),
            a_local,
            a_remote,
        ).1 matches Ok(ReceiveV::Received(_)),
    ensures
        ({
            let mt = signed_move_token_of(o, b.status->ConsistentIn_0, b_local, b_remote, new_token);
            linked(
                sent_state(mt, b.status->ConsistentIn_0, (o.counter + 1) as u128, o.ledger),
                receive_outcome_of(a, mt, a_local, a_remote).0,
            )
        }),
{
}

/// After a chain break, one round restores it: the remote side accepts the
/// local reset terms and sends a batch that follows the reset token; once the
/// local side accepts that batch, both are consistent, linked, and at the
/// counter of the reset terms.
pub proof fn lemma_reset_recovery(
    a: TcState,
    b: TcState,
    o: OutMoveTokenV,
    a_local: Seq<u8>,
    a_remote: Seq<u8>,
    b_local: Seq<u8>,
    b_remote: Seq<u8>,
    new_token: Seq<u8>,
)
    requires
        a.wf(),
        a.status is Inconsistent,
        b.status == TcStatusV::Inconsistent(
            b.status->Inconsistent_0,
            Some(a.status->Inconsistent_0),
        ),
        a.status->Inconsistent_0.move_token_counter > 0,
        reset_balances_valid(a.status->Inconsistent_0.reset_balances),
        o.move_token_in == Some(accepted_state_of(b, a.status->Inconsistent_0).status->ConsistentIn_0),
        o.counter == accepted_state_of(b, a.status->Inconsistent_0).counter,
        receive_outcome_of(
            a,
            signed_move_token_of(
                o,
                accepted_state_of(b, a.status->Inconsistent_0).status->ConsistentIn_0,
                b_local,
                b_remote,
                new_token,
            ),
            a_local,
            a_remote,
        ).1 matches Ok(ReceiveV::Received(_)),
    ensures
        ({
            let t = a.status->Inconsistent_0;
            let h = accepted_state_of(b, t).status->ConsistentIn_0;
            let mt = signed_move_token_of(o, h, b_local, b_remote, new_token);
            let b2 = sent_state(mt, h, (o.counter + 1) as u128, o.ledger);
            let a2 = receive_outcome_of(a, mt, a_local, a_remote).0;
            &&& linked(b2, a2)
            &&& b2.counter == t.move_token_counter
            &&& a2.counter == t.move_token_counter
        }),
{
}

impl TokenChannel {
    /// Sets the credit limit granted to the remote side and the rate asked for
    /// forwarding in a currency that has a mutual credit; the balances stay.
    pub fn set_currency_config(&mut self, currency: &Currency, remote_max_debt: u128, rate: Rate) -> (r:
        Result<(), TokenChannelError>)
        requires
            old(self)@.wf(),
        ensures
            final(self)@.wf(),
            !has_credit(old(self)@.ledger.credits, currency@) ==> r == Err::<(), TokenChannelError>(
                TokenChannelError::InvalidState,
            ) && final(self)@ == old(self)@,
            has_credit(old(self)@.ledger.credits, currency@) ==> r is Ok && final(self)@ == (TcState {
                ledger: LedgerV {
                    credits: old(self)@.ledger.credits.update(
                        credit_index(old(self)@.ledger.credits, currency@),
                        CreditV {
                            remote_max_debt,
                            rate,
                            ..old(self)@.ledger.credits[credit_index(
                                old(self)@.ledger.credits,
                                currency@,
                            )]
                        },
                    ),
                    ..old(self)@.ledger
                },
                ..old(self)@
            }),
    {
        let i = match find_credit(&self.ledger.credits, currency) {
            Some(i) => i,
            None => {
                return Err(TokenChannelError::InvalidState);
            },
        };
        proof {
            lemma_credit_index(self@.ledger.credits, i as int);
        }
        let ghost l0 = self@.ledger;
        let mut e = self.ledger.credits.remove(i);
        e.remote_max_debt = remote_max_debt;
        e.rate = rate;
        self.ledger.credits.insert(i, e);
        assert(self@.ledger.credits =~= l0.credits.update(i as int, e@));
        proof {
            let t = self@.ledger.credits;
            assert forall|x: Seq<u8>| #[trigger] has_credit(t, x) == has_credit(l0.credits, x) by {
                if has_credit(l0.credits, x) {
                    let k = choose|k: int| 0 <= k < l0.credits.len() && (#[trigger] l0.credits[k]).currency == x;
                    assert(t[k].currency == x);
                }
                if has_credit(t, x) {
                    let k = choose|k: int| 0 <= k < t.len() && (#[trigger] t[k]).currency == x;
                    assert(l0.credits[k].currency == x);
                }
            }
            assert forall|a: int, b: int| 0 <= a < t.len() && 0 <= b < t.len() && a != b implies (
            #[trigger] t[a]).currency != (#[trigger] t[b]).currency by {
                assert(t[a].currency == l0.credits[a].currency);
                assert(t[b].currency == l0.credits[b].currency);
            }
            assert forall|a: int, b: int| 0 <= a < b < t.len() implies lex_lt(
                (#[trigger] t[a]).currency,
                (#[trigger] t[b]).currency,
            ) by {
                assert(t[a].currency == l0.credits[a].currency);
                assert(t[b].currency == l0.credits[b].currency);
            }
            assert forall|k: int| 0 <= k < t.len() implies (#[trigger] t[k]).mc.wf() by {
                assert(t[k].mc == l0.credits[k].mc);
            }
        }
        Ok(())
    }
}

/// The mutual credit of a currency in a ledger.
pub open spec fn credit_of(l: LedgerV, c: Seq<u8>) -> CreditV {
    l.credits[credit_index(l.credits, c)]
}

proof fn lemma_toggle_other_keeps(l: LedgerV, c: Seq<u8>, x: Seq<u8>, remote: bool)
    requires
        l.wf(),
        x != c,
        toggle_currency_of(l, x, remote) is Some,
        l.local_currencies.contains(c),
        l.remote_currencies.contains(c),
    ensures
        ({
            let t = toggle_currency_of(l, x, remote)->Some_0;
            &&& t.wf()
            &&& t.local_currencies.contains(c)
            &&& t.remote_currencies.contains(c)
            &&& has_credit(t.credits, c)
            &&& credit_of(t, c) == credit_of(l, c)
        }),
{
    lemma_toggle_wf(l, x, remote);
    let t = toggle_currency_of(l, x, remote)->Some_0;
    let mine = side_of(l, remote);
    let other = other_side_of(l, remote);
    assert(has_credit(l.credits, c));
    let ic = credit_index(l.credits, c);
    if !mine.contains(x) {
        lemma_push_no_dup(mine, x);
        if other.contains(x) {
            let p = lemma_insert_position_exists(l.credits, x);
            lemma_credits_insert(l.credits, new_credit(x), p);
        }
    } else {
        lemma_remove_no_dup(mine, x);
        if other.contains(x) {
            assert(has_credit(l.credits, x));
            lemma_credits_remove(l.credits, credit_index(l.credits, x));
        }
    }
    assert(has_credit(t.credits, c));
    let j = credit_index(t.credits, c);
    assert(t.credits[j].currency == c);
    if !mine.contains(x) && other.contains(x) {
        let p = insert_position(l.credits, x);
        let k = if j < p {
            j
        } else {
            j - 1
        };
        assert(t.credits[j] == l.credits[k]);
        lemma_credit_index(l.credits, k);
    } else if mine.contains(x) && other.contains(x) {
        let ix = credit_index(l.credits, x);
        let k = if j < ix {
            j
        } else {
            j + 1
        };
        assert(t.credits[j] == l.credits[k]);
        lemma_credit_index(l.credits, k);
    } else {
        assert(t.credits == l.credits);
    }
}

proof fn lemma_toggle_prefix_keeps(l: LedgerV, d: Seq<Seq<u8>>, c: Seq<u8>, j: int)
    requires
        l.wf(),
        l.local_currencies.contains(c),
        l.remote_currencies.contains(c),
        0 <= j <= d.len(),
        forall|i: int| 0 <= i < j ==> d[i] != c,
    ensures
        toggle_all_of(l, d.take(j), true) is Some ==> ({
            let t = toggle_all_of(l, d.take(j), true)->Some_0;
            &&& t.wf()
            &&& t.local_currencies.contains(c)
            &&& t.remote_currencies.contains(c)
            &&& has_credit(t.credits, c)
            &&& credit_of(t, c) == credit_of(l, c)
        }),
    decreases j,
{
    if j == 0 {
        assert(d.take(0) =~= Seq::<Seq<u8>>::empty());
        assert(has_credit(l.credits, c));
    } else {
        lemma_toggle_prefix_keeps(l, d, c, j - 1);
        assert(d.take(j).drop_last() =~= d.take(j - 1));
        assert(d.take(j).last() == d[j - 1]);
        if toggle_all_of(l, d.take(j - 1), true) is Some {
            let t0 = toggle_all_of(l, d.take(j - 1), true)->Some_0;
            if toggle_currency_of(t0, d[j - 1], true) is Some {
                lemma_toggle_other_keeps(t0, c, d[j - 1], true);
            }
        }
    }
}

proof fn lemma_first_index(d: Seq<Seq<u8>>, c: Seq<u8>) -> (k: int)
    requires
        d.contains(c),
    ensures
        0 <= k < d.len(),
        d[k] == c,
        forall|i: int| 0 <= i < k ==> d[i] != c,
    decreases d.len(),
{
    let front = d.drop_last();
    if front.contains(c) {
        let k = lemma_first_index(front, c);
        assert forall|i: int| 0 <= i < k implies d[i] != c by {
            assert(d[i] == front[i]);
        }
        assert(d[k] == front[k]);
        k
    } else {
        let w = choose|w: int| 0 <= w < d.len() && d[w] == c;
        if w < d.len() - 1 {
            assert(front[w] == d[w]);
        }
        assert forall|i: int| 0 <= i < d.len() - 1 implies d[i] != c by {
            if d[i] == c {
                assert(front[i] == d[i]);
            }
        }
        d.len() - 1
    }
}

/// A move token that follows ours but withdraws, on the remote side, a
/// currency whose mutual credit is in use breaks the chain, and changes
/// nothing: no toggle or operation of it is applied.
pub proof fn lemma_removal_in_use_breaks_chain(
    s: TcState,
    mt: MoveTokenV,
    local: Seq<u8>,
    remote: Seq<u8>,
    c: Seq<u8>,
)
    requires
        s.wf(),
        s.status is ConsistentOut,
        mt.old_token == s.status->ConsistentOut_0.new_token,
        s.counter < u128::MAX,
        mt.currencies_diff.contains(c),
        s.ledger.local_currencies.contains(c),
        s.ledger.remote_currencies.contains(c),
        !credit_of(s.ledger, c).mc.balance.is_zero(),
    ensures
        receive_outcome_of(s, mt, local, remote) == (s, Ok::<ReceiveV, TokenChannelError>(
            ReceiveV::ChainBroken,
        )),
{
    let d = mt.currencies_diff;
    let l = s.ledger;
    let k = lemma_first_index(d, c);
    lemma_toggle_prefix_keeps(l, d, c, k);
    assert(d.take(k + 1).drop_last() =~= d.take(k));
    assert(d.take(k + 1).last() == c);
    if toggle_all_of(l, d.take(k), true) is None {
        lemma_toggle_all_none(l, d, k);
    } else {
        assert(toggle_all_of(l, d.take(k + 1), true) is None);
        lemma_toggle_all_none(l, d, k + 1);
    }
}

/// Sending a request and then receiving, in the next move token, only its
/// response leaves the local pending debt of its currency as it was before the
/// request, adds the request's amount to the balance, and leaves the request
/// pending no more.
pub proof fn lemma_request_response_through_channel(
    s: TcState,
    mt: MoveTokenV,
    local: Seq<u8>,
    remote: Seq<u8>,
    c: Seq<u8>,
    m0: McState,
    r: McRequestV,
    p: McResponseV,
    local_max_debt: u128,
)
    requires
        s.wf(),
        s.status is ConsistentOut,
        has_credit(s.ledger.credits, c),
        credit_of(s.ledger, c).mc == with_local_request(m0, r),
        m0.wf(),
        queue_request_outcome(m0, r, local_max_debt) == Ok::<bool, McError>(true),
        mt.currencies_diff.len() == 0,
        mt.currencies_operations == seq![(c, McOpV::Response(p))],
        p.request_id == r.request_id,
        receive_outcome_of(s, mt, local, remote).1 matches Ok(ReceiveV::Received(_)),
    ensures
        ({
            let t = receive_outcome_of(s, mt, local, remote).0;
            &&& has_credit(t.ledger.credits, c)
            &&& credit_of(t.ledger, c).mc.balance.local_pending_debt == m0.balance.local_pending_debt
            &&& credit_of(t.ledger, c).mc.balance.balance == m0.balance.balance + amount(r)
            &&& !has_id(credit_of(t.ledger, c).mc.local, r.request_id)
        }),
{
    let l = s.ledger;
    let ops = mt.currencies_operations;
    assert(ops.drop_last() =~= Seq::<(Seq<u8>, McOpV)>::empty());
    let i = credit_index(l.credits, c);
    let mc = l.credits[i].mc;
    assert(mc.wf());
    crate::mutual_credit::lemma_request_round_trip(m0, r, local_max_debt);
    let j = index_of(mc.local, r.request_id);
    assert(j == m0.local.len());
    crate::mutual_credit::lemma_remove_local_kept(mc, j);
    let settled = settle_local(mc, j);
    lemma_with_mc_wf(l, i, settled);
    assert(has_id(m0.local, r.request_id) == false);
    assert(settled.local == m0.local);
    assert(toggle_all_of(l, mt.currencies_diff, true) == Some(l));
    assert(incoming_ops_of(l, ops.drop_last()) == Some((l, Seq::<(Seq<u8>, IncomingMessageV)>::empty())));
    assert(ops.last() == (c, McOpV::Response(p)));
    let out = s.status->ConsistentOut_0;
    assert(mt.old_token == out.new_token);
    assert(s.counter < u128::MAX);
    assert(receive_batch_of(l, s.counter, mt, local, remote) is Ok);
    assert(incoming_ops_of(l, ops) is Some);
    assert(incoming_op_of(l, c, McOpV::Response(p)) is Some);
    assert(process_response_outcome(mc, c, p) is Ok);
    assert(mc.balance.balance + amount(mc.local[j]) <= i128::MAX);
    assert(incoming_op_of(l, c, McOpV::Response(p))->Some_0.0 == with_mc(l, i, settled));
    let t = receive_outcome_of(s, mt, local, remote).0;
    assert(t.ledger == with_mc(l, i, settled));
    assert(credit_index(t.ledger.credits, c) == i);
    assert(credit_of(t.ledger, c).mc == settled);
}

} // verus!
