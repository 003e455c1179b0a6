//! Read-only summaries of a token channel, for the applications that watch a
//! node.
use vstd::prelude::*;

use crate::token_channel::{opt_terms_view, TcStatus, TokenChannel};
use crate::types::{copy_bytes, Currency, McBalance, ResetTerms};

verus! {

/// Whose turn it is to send.
#[derive(Clone, Copy, Debug, PartialEq, Eq, Structural)]
pub enum DirectionReport {
    /// We received last: our turn.
    Incoming,
    /// We sent last: the friend's turn.
    Outgoing,
}

/// The state of the mutual credit of one currency.
#[derive(Debug)]
pub struct CurrencyReport {
    pub currency: Currency,
    pub balance: McBalance,
    pub num_local_pending_requests: u64,
    pub num_remote_pending_requests: u64,
}

/// The state of a consistent token channel.
#[derive(Debug)]
pub struct TcReport {
    pub direction: DirectionReport,
    pub currencies: Vec<CurrencyReport>,
}

/// The terms of an inconsistent token channel.
#[derive(Debug)]
pub struct ChannelInconsistentReport {
    pub local_reset_terms: ResetTerms,
    pub opt_remote_reset_terms: Option<ResetTerms>,
}

/// The state of a token channel.
#[derive(Debug)]
pub enum ChannelStatusReport {
    Inconsistent(ChannelInconsistentReport),
    Consistent(TcReport),
}

/// A count as a `u64`, saturated.
fn count_u64(n: usize) -> (r: u64)
    ensures
        r == (if n > u64::MAX {
            u64::MAX as int
        } else {
            n as int
        }),
{
    if n as u128 > u64::MAX as u128 {
        u64::MAX
    } else {
        n as u64
    }
}

/// The summary of a token channel: its direction and, for each currency, the
/// balance and the number of pending requests of each side; or its reset
/// terms, where it is inconsistent.
pub fn create_channel_status_report(tc: &TokenChannel) -> (r: ChannelStatusReport)
    ensures
        tc@.status is Inconsistent <==> r is Inconsistent,
        r matches ChannelStatusReport::Inconsistent(i) ==> i.local_reset_terms@
            == tc@.status->Inconsistent_0 && opt_terms_view(i.opt_remote_reset_terms)
            == tc@.status->Inconsistent_1,
        r matches ChannelStatusReport::Consistent(t) ==> ({
            &&& (t.direction == DirectionReport::Incoming <==> tc@.status is ConsistentIn)
            &&& t.currencies@.len() == tc@.ledger.credits.len()
            &&& forall|i: int|
                0 <= i < t.currencies@.len() ==> {
                    let c = #[trigger] t.currencies@[i];
                    let e = tc@.ledger.credits[i];
                    &&& c.currency@ == e.currency
                    &&& c.balance == e.mc.balance
                    &&& c.num_local_pending_requests == (if e.mc.local.len() > u64::MAX {
                        u64::MAX as int
                    } else {
                        e.mc.local.len() as int
                    })
                    &&& c.num_remote_pending_requests == (if e.mc.remote.len() > u64::MAX {
                        u64::MAX as int
                    } else {
                        e.mc.remote.len() as int
                    })
                }
        }),
{
    let direction = match &tc.status {
        TcStatus::Inconsistent(l, r) => {
            let opt_remote_reset_terms = match r {
                Some(t) => Some(t.copy()),
                None => None,
            };
            return ChannelStatusReport::Inconsistent(
                ChannelInconsistentReport { local_reset_terms: l.copy(), opt_remote_reset_terms },
            );
        },
        TcStatus::ConsistentIn(_) => DirectionReport::Incoming,
        TcStatus::ConsistentOut(..) => DirectionReport::Outgoing,
    };
    let mut currencies: Vec<CurrencyReport> = Vec::new();
    let mut i: usize = 0;
    while i < tc.ledger.credits.len()
        invariant
            i <= tc.ledger.credits.len(),
            currencies@.len() == i,
            forall|j: int|
                0 <= j < i ==> {
                    let c = #[trigger] currencies@[j];
                    let e = tc@.ledger.credits[j];
                    &&& c.currency@ == e.currency
                    &&& c.balance == e.mc.balance
                    &&& c.num_local_pending_requests == (if e.mc.local.len() > u64::MAX {
                        u64::MAX as int
                    } else {
                        e.mc.local.len() as int
                    })
                    &&& c.num_remote_pending_requests == (if e.mc.remote.len() > u64::MAX {
                        u64::MAX as int
                    } else {
                        e.mc.remote.len() as int
                    })
                },
        decreases tc.ledger.credits.len() - i,
    {
        let e = &tc.ledger.credits[i];
        currencies.push(
            CurrencyReport {
                currency: copy_bytes(&e.currency),
                balance: e.mutual_credit.balance,
                num_local_pending_requests: count_u64(e.mutual_credit.pending_local_requests.len()),
                num_remote_pending_requests: count_u64(
                    e.mutual_credit.pending_remote_requests.len(),
                ),
            },
        );
        i = i + 1;
    }
    ChannelStatusReport::Consistent(TcReport { direction, currencies })
}

} // verus!
