//! The messages that a friend sends about the token channel, and what each
//! does to it.
use vstd::prelude::*;

use crate::token_channel::{
    receive_outcome_of, ReceiveMoveTokenOutput, ReceiveV, TcState, TcStatusV, TokenChannel,
    TokenChannelError,
};
use crate::mutual_credit::{find_request, has_id};
use crate::forward::{request_destination_of, route_incoming_request, RequestDestination, RequestDestinationV};
use crate::router::{backwards_view, requests_ops_view, BackwardsOp, FriendQueues};
use crate::types::{bytes_eq, bytes_list_view, copy_bytes, Currency, McCancel, McOpV, McRequest, MoveToken, PublicKey, ResetTerms, Uid};

verus! {

/// A friend's announcement that its side of the chain broke, with the terms
/// on which it offers to restart.
#[derive(Debug)]
pub struct FriendInconsistencyError {
    pub reset_terms: ResetTerms,
}

/// A message from a friend about the token channel.
#[derive(Debug)]
pub enum IncomingFriendFunds {
    MoveToken(MoveToken),
    InconsistencyError(FriendInconsistencyError),
}

/// Why a friend's message could not be handled.
#[derive(Debug, PartialEq, Eq, Structural)]
pub enum HandleFriendError {
    TokenChannel(TokenChannelError),
}

/// What a friend's message did.
#[derive(Debug)]
pub enum FriendMessageOutput {
    /// The outcome of a move token.
    MoveToken(ReceiveMoveTokenOutput),
    /// The friend's reset terms are recorded beside ours.
    RemoteResetTermsLoaded,
    /// The friend reports a broken chain while ours is whole: nothing changed
    /// yet; new local reset terms are to be signed and set, and the message
    /// handled again.
    ChainBroken,
}

pub enum FriendMessageOutputV {
    MoveToken(ReceiveV),
    RemoteResetTermsLoaded,
    ChainBroken,
}

pub open spec fn friend_result_view(r: Result<FriendMessageOutput, HandleFriendError>) -> Result<
    FriendMessageOutputV,
    TokenChannelError,
> {
    match r {
        Ok(FriendMessageOutput::MoveToken(o)) => Ok(FriendMessageOutputV::MoveToken(o@)),
        Ok(FriendMessageOutput::RemoteResetTermsLoaded) => Ok(
            FriendMessageOutputV::RemoteResetTermsLoaded,
        ),
        Ok(FriendMessageOutput::ChainBroken) => Ok(FriendMessageOutputV::ChainBroken),
        Err(HandleFriendError::TokenChannel(e)) => Err(e),
    }
}

/// What a friend's message does to the channel: a move token is handled as
/// `receive_outcome_of` says; reset terms are recorded where the channel is
/// already inconsistent, and otherwise reported as a broken chain.
pub open spec fn friend_message_outcome_of(
    s: TcState,
    m: IncomingFriendFunds,
    local: Seq<u8>,
    remote: Seq<u8>,
) -> (TcState, Result<FriendMessageOutputV, TokenChannelError>) {
    match m {
        IncomingFriendFunds::MoveToken(mt) => {
            let (t, r) = receive_outcome_of(s, mt@, local, remote);
            (
                t,
                match r {
                    Ok(o) => Ok(FriendMessageOutputV::MoveToken(o)),
                    Err(e) => Err(e),
                },
            )
        },
        IncomingFriendFunds::InconsistencyError(e) => match s.status {
            TcStatusV::Inconsistent(l, _) => (
                TcState { status: TcStatusV::Inconsistent(l, Some(e.reset_terms@)), ..s },
                Ok(FriendMessageOutputV::RemoteResetTermsLoaded),
            ),
            _ => (s, Ok(FriendMessageOutputV::ChainBroken)),
        },
    }
}

/// Handles a message from a friend on the token channel with it.
pub fn handle_friend_message(
    tc: &mut TokenChannel,
    friend_message: IncomingFriendFunds,
    local_public_key: &PublicKey,
    remote_public_key: &PublicKey,
) -> (r: Result<FriendMessageOutput, HandleFriendError>)
    requires
        old(tc)@.wf(),
    ensures
        final(tc)@.wf(),
        (final(tc)@, friend_result_view(r)) == friend_message_outcome_of(
            old(tc)@,
            friend_message,
            local_public_key@,
            remote_public_key@,
        ),
{
    match friend_message {
        IncomingFriendFunds::MoveToken(mt) => {
            match tc.handle_in_move_token(&mt, local_public_key, remote_public_key) {
                Ok(o) => Ok(FriendMessageOutput::MoveToken(o)),
                Err(e) => Err(HandleFriendError::TokenChannel(e)),
            }
        },
        IncomingFriendFunds::InconsistencyError(e) => {
            match tc.load_remote_reset_terms(e.reset_terms) {
                Ok(()) => Ok(FriendMessageOutput::RemoteResetTermsLoaded),
                Err(_) => Ok(FriendMessageOutput::ChainBroken),
            }
        },
    }
}

/// Whether a request id is pending at a channel as a request of the friend.
pub open spec fn holds_remote_request(tc: TcState, id: Seq<u8>) -> bool {
    exists|j: int|
        0 <= j < tc.ledger.credits.len() && has_id(#[trigger] tc.ledger.credits[j].mc.remote, id)
}

/// Finds where a request that we forwarded came from: the first friend at
/// whose channel its id is pending as that friend's request. `None` where no
/// friend sent it, that is where we originated it.
pub fn find_request_origin(friends: &Vec<(PublicKey, TokenChannel)>, request_id: &Uid) -> (r: Option<usize>)
    ensures
        r is None ==> forall|i: int|
            0 <= i < friends@.len() ==> !holds_remote_request(#[trigger] friends@[i].1@, request_id@),
        r matches Some(k) ==> k < friends@.len() && holds_remote_request(friends@[k as int].1@, request_id@)
            && forall|i: int| 0 <= i < k ==> !holds_remote_request(#[trigger] friends@[i].1@, request_id@),
{
    let mut i: usize = 0;
    while i < friends.len()
        invariant
            i <= friends.len(),
            forall|x: int| 0 <= x < i ==> !holds_remote_request(#[trigger] friends@[x].1@, request_id@),
        decreases friends.len() - i,
    {
        let credits = &friends[i].1.ledger.credits;
        let mut j: usize = 0;
        while j < credits.len()
            invariant
                j <= credits.len(),
                i < friends@.len(),
                forall|x: int| 0 <= x < i ==> !holds_remote_request(#[trigger] friends@[x].1@, request_id@),
                credits@ == friends@[i as int].1.ledger.credits@,
                forall|y: int|
                    0 <= y < j ==> !has_id(
                        #[trigger] crate::token_channel::credits_view(credits@)[y].mc.remote,
                        request_id@,
                    ),
            decreases credits.len() - j,
        {
            if find_request(&credits[j].mutual_credit.pending_remote_requests, request_id).is_some() {
                assert(has_id(crate::token_channel::credits_view(credits@)[j as int].mc.remote, request_id@));
                assert(friends@[i as int].1@.ledger.credits[j as int] == crate::token_channel::credits_view(
                    credits@,
                )[j as int]);
                return Some(i);
            }
            j = j + 1;
        }
        i = i + 1;
    }
    None
}

/// The request id that a backwards operation answers.
pub open spec fn backwards_id(op: McOpV) -> Seq<u8> {
    match op {
        McOpV::Response(p) => p.request_id,
        McOpV::Cancel(id) => id,
        McOpV::Request(r) => r.request_id,
    }
}

/// Sends a response or a cancel that a friend returned for a request we
/// forwarded back towards where the request came from: it joins the backwards
/// queue of the first friend at whose channel the request is pending, and the
/// position of that friend is returned. `None`, with nothing queued, where no
/// friend sent the request, that is where we originated it.
pub fn dispatch_backwards(
    friends: &Vec<(PublicKey, TokenChannel)>,
    queues: &mut Vec<FriendQueues>,
    currency: Currency,
    op: BackwardsOp,
) -> (r: Option<usize>)
    requires
        old(queues)@.len() == friends@.len(),
    ensures
        final(queues)@.len() == old(queues)@.len(),
        r is None ==> final(queues)@ == old(queues)@ && forall|i: int|
            0 <= i < friends@.len() ==> !holds_remote_request(
                #[trigger] friends@[i].1@,
                backwards_id(op@),
            ),
        r matches Some(k) ==> {
            &&& k < friends@.len()
            &&& holds_remote_request(friends@[k as int].1@, backwards_id(op@))
            &&& forall|i: int|
                0 <= i < k ==> !holds_remote_request(#[trigger] friends@[i].1@, backwards_id(op@))
            &&& forall|i: int|
                0 <= i < old(queues)@.len() && i != k ==> #[trigger] final(queues)@[i] == old(
                    queues,
                )@[i]
            &&& backwards_view(final(queues)@[k as int].pending_backwards@) == backwards_view(
                old(queues)@[k as int].pending_backwards@,
            ).push((currency@, op@))
            &&& final(queues)@[k as int].pending_user_requests == old(
                queues,
            )@[k as int].pending_user_requests
            &&& final(queues)@[k as int].pending_requests == old(queues)@[k as int].pending_requests
        },
{
    let origin = match &op {
        BackwardsOp::Response(p) => find_request_origin(friends, &p.request_id),
        BackwardsOp::Cancel(c) => find_request_origin(friends, &c.request_id),
    };
    match origin {
        None => None,
        Some(k) => {
            let ghost before = queues@[k as int];
            let ghost entry = (currency@, op@);
            let mut q = queues.remove(k);
            q.pending_backwards.push((currency, op));
            assert(backwards_view(q.pending_backwards@) =~= backwards_view(
                before.pending_backwards@,
            ).push(entry));
            queues.insert(k, q);
            assert forall|i: int| 0 <= i < old(queues)@.len() && i != k implies #[trigger] queues@[i]
                == old(queues)@[i] by {
                if i < k {
                    assert(queues@[i] == old(queues)@[i]);
                } else {
                    assert(queues@[i] == old(queues)@[i]);
                }
            }
            Some(k)
        },
    }
}

/// What became of a request that a friend sent through us.
#[derive(Debug, PartialEq, Eq, Structural)]
pub enum RequestDispatch {
    /// We are its destination: nothing was queued.
    Local,
    /// It joined the forwarded requests of the friend at this position.
    Forwarded(usize),
    /// A cancel for it joined the backwards queue of the friend that sent it.
    Cancelled,
}

/// The public keys of the friends, in order.
pub open spec fn friend_keys_of(friends: Seq<(PublicKey, TokenChannel)>) -> Seq<Seq<u8>> {
    friends.map_values(|p: (PublicKey, TokenChannel)| p.0@)
}

/// Whether two lists of queues agree everywhere but at `k`.
pub open spec fn same_but(a: Seq<FriendQueues>, b: Seq<FriendQueues>, k: int) -> bool {
    &&& a.len() == b.len()
    &&& forall|i: int| 0 <= i < a.len() && i != k ==> #[trigger] a[i] == b[i]
}

/// Queues a request that the friend at `from` sent through us, by its route:
/// where we are its destination nothing is queued; where its next hop is one
/// of our friends it joins that friend's forwarded requests; otherwise a
/// cancel for it joins the sender's backwards queue.
pub fn dispatch_request(
    friends: &Vec<(PublicKey, TokenChannel)>,
    queues: &mut Vec<FriendQueues>,
    from: usize,
    local_public_key: &PublicKey,
    currency: Currency,
    request: McRequest,
) -> (r: RequestDispatch)
    requires
        old(queues)@.len() == friends@.len(),
        from < friends@.len(),
    ensures
        final(queues)@.len() == old(queues)@.len(),
        match request_destination_of(
            request@.route,
            friends@[from as int].0@,
            local_public_key@,
            friend_keys_of(friends@),
        ) {
            RequestDestinationV::Local => r == RequestDispatch::Local && final(queues)@ == old(
                queues,
            )@,
            RequestDestinationV::Cancel => {
                &&& r == RequestDispatch::Cancelled
                &&& same_but(final(queues)@, old(queues)@, from as int)
                &&& backwards_view(final(queues)@[from as int].pending_backwards@) == backwards_view(
                    old(queues)@[from as int].pending_backwards@,
                ).push((currency@, McOpV::Cancel(request@.request_id)))
                &&& final(queues)@[from as int].pending_user_requests == old(
                    queues,
                )@[from as int].pending_user_requests
                &&& final(queues)@[from as int].pending_requests == old(
                    queues,
                )@[from as int].pending_requests
            },
            RequestDestinationV::Forward(next) => r matches RequestDispatch::Forwarded(k) && {
                &&& k < friends@.len()
                &&& friends@[k as int].0@ == next
                &&& forall|i: int| 0 <= i < k ==> (#[trigger] friends@[i]).0@ != next
                &&& same_but(final(queues)@, old(queues)@, k as int)
                &&& requests_ops_view(final(queues)@[k as int].pending_requests@)
                    == requests_ops_view(old(queues)@[k as int].pending_requests@).push(
                    (currency@, McOpV::Request(request@)),
                )
                &&& final(queues)@[k as int].pending_backwards == old(
                    queues,
                )@[k as int].pending_backwards
                &&& final(queues)@[k as int].pending_user_requests == old(
                    queues,
                )@[k as int].pending_user_requests
            },
        },
{
    let mut keys: Vec<PublicKey> = Vec::new();
    let mut i: usize = 0;
    while i < friends.len()
        invariant
            i <= friends.len(),
            keys@.len() == i,
            forall|j: int| 0 <= j < i ==> #[trigger] keys@[j]@ == friends@[j].0@,
        decreases friends.len() - i,
    {
        keys.push(copy_bytes(&friends[i].0));
        i = i + 1;
    }
    assert(bytes_list_view(keys@) =~= friend_keys_of(friends@));
    match route_incoming_request(&request.route, &friends[from].0, local_public_key, &keys) {
        RequestDestination::Local => RequestDispatch::Local,
        RequestDestination::Cancel => {
            let ghost before = queues@[from as int];
            let ghost entry = (currency@, McOpV::Cancel(request@.request_id));
            let mut q = queues.remove(from);
            q.pending_backwards.push(
                (currency, BackwardsOp::Cancel(McCancel { request_id: request.request_id })),
            );
            assert(backwards_view(q.pending_backwards@) =~= backwards_view(
                before.pending_backwards@,
            ).push(entry));
            queues.insert(from, q);
            assert forall|x: int| 0 <= x < queues@.len() && x != from implies #[trigger] queues@[x]
                == old(queues)@[x] by {}
            RequestDispatch::Cancelled
        },
        RequestDestination::Forward(next) => {
            let ghost kv = friend_keys_of(friends@);
            let mut k: usize = 0;
            while k < friends.len() && !bytes_eq(&friends[k].0, &next)
                invariant
                    k <= friends.len(),
                    forall|j: int| 0 <= j < k ==> (#[trigger] friends@[j]).0@ != next@,
                decreases friends.len() - k,
            {
                k = k + 1;
            }
            if k == friends.len() {
                proof {
                    assert(kv.contains(next@));
                    let j = choose|j: int| 0 <= j < kv.len() && kv[j] == next@;
                    assert(friends@[j].0@ == next@);
                }
                return RequestDispatch::Cancelled;
            }
            let ghost before = queues@[k as int];
            let ghost entry = (currency@, McOpV::Request(request@));
            let mut q = queues.remove(k);
            q.pending_requests.push((currency, request));
            assert(requests_ops_view(q.pending_requests@) =~= requests_ops_view(
                before.pending_requests@,
            ).push(entry));
            queues.insert(k, q);
            assert forall|x: int| 0 <= x < queues@.len() && x != k implies #[trigger] queues@[x]
                == old(queues)@[x] by {}
            RequestDispatch::Forwarded(k)
        },
    }
}

} // verus!
