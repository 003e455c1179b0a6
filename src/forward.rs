//! Where an incoming request goes next, and the freeze link that a node adds
//! to a request it forwards.
use vstd::prelude::*;

use crate::types::{bytes_eq, bytes_list_view, copy_bytes, PublicKey};

verus! {

/// The share of the forwarded credit that the next hop may use.
#[derive(Clone, Copy, Debug, PartialEq, Eq, Structural)]
pub enum Ratio {
    /// All of it.
    One,
    /// This many 2^128ths of it.
    Numerator(u128),
}

/// A node's annotation on a request it forwards: how much credit it shares
/// with the previous hop, and which share of it the next hop may use.
#[derive(Clone, Copy, Debug, PartialEq, Eq, Structural)]
pub struct FreezeLink {
    pub shared_credits: u128,
    pub usable_ratio: Ratio,
}

/// 2^128.
pub open spec fn two_pow_128() -> int {
    u128::MAX + 1
}

/// Relies on num-bigint's `BigUint` (`From<u128>`, `<<`, `/` by a `u128`) and
/// on `ToPrimitive::to_u128`: the floor of `2^128 * numerator / denominator`
/// computed exactly, and `None` where it exceeds `u128::MAX`.
#[verifier::external_body]
fn scaled_quotient(numerator: u128, denominator: u128) -> (r: Option<u128>)
    requires
        denominator > 0,
    ensures
        r == (if two_pow_128() * numerator / (denominator as int) <= u128::MAX {
            Some((two_pow_128() * numerator / (denominator as int)) as u128)
        } else {
            None::<u128>
        }),
{
    let q = (num_bigint::BigUint::from(numerator) << 128usize) / denominator;
    num_traits::ToPrimitive::to_u128(&q)
}

/// The freeze link for a request forwarded from a friend trusted with
/// `prev_trust` to one trusted with `forward_trust`, out of `total_trust`:
/// the shared credits are `prev_trust`, and the usable ratio is
/// `2^128 * forward_trust / (total_trust - prev_trust)`, or all where that
/// does not fit.
pub fn freeze_link(prev_trust: u128, forward_trust: u128, total_trust: u128) -> (r: FreezeLink)
    requires
        total_trust > prev_trust,
    ensures
        r.shared_credits == prev_trust,
        r.usable_ratio == (if two_pow_128() * forward_trust / (total_trust - prev_trust) <= u128::MAX {
            Ratio::Numerator((two_pow_128() * forward_trust / (total_trust - prev_trust)) as u128)
        } else {
            Ratio::One
        }),
{
    let usable_ratio = match scaled_quotient(forward_trust, total_trust - prev_trust) {
        Some(n) => Ratio::Numerator(n),
        None => Ratio::One,
    };
    FreezeLink { shared_credits: prev_trust, usable_ratio }
}

/// Where a request received from a friend goes.
#[derive(Debug)]
pub enum RequestDestination {
    /// We are the last hop: the request is a payment to us.
    Local,
    /// On to the next hop, one of our friends.
    Forward(PublicKey),
    /// Back to the sender as a cancel: the next hop is not our friend, or the
    /// route does not pass from the sender to us.
    Cancel,
}

pub enum RequestDestinationV {
    Local,
    Forward(Seq<u8>),
    Cancel,
}

impl View for RequestDestination {
    type V = RequestDestinationV;

    open spec fn view(&self) -> RequestDestinationV {
        match self {
            RequestDestination::Local => RequestDestinationV::Local,
            RequestDestination::Forward(pk) => RequestDestinationV::Forward(pk@),
            RequestDestination::Cancel => RequestDestinationV::Cancel,
        }
    }
}

/// The first position, from `i` on, where the route passes from `remote` to
/// `local`.
pub open spec fn pair_position(route: Seq<Seq<u8>>, remote: Seq<u8>, local: Seq<u8>, i: int) -> Option<
    int,
>
    decreases route.len() - i,
{
    if i < 1 || i >= route.len() {
        None
    } else if route[i - 1] == remote && route[i] == local {
        Some(i)
    } else {
        pair_position(route, remote, local, i + 1)
    }
}

/// Where a request from `remote` goes, by its route and our friends.
pub open spec fn request_destination_of(
    route: Seq<Seq<u8>>,
    remote: Seq<u8>,
    local: Seq<u8>,
    friends: Seq<Seq<u8>>,
) -> RequestDestinationV {
    match pair_position(route, remote, local, 1) {
        None => RequestDestinationV::Cancel,
        Some(i) => if i == route.len() - 1 {
            RequestDestinationV::Local
        } else if friends.contains(route[i + 1]) {
            RequestDestinationV::Forward(route[i + 1])
        } else {
            RequestDestinationV::Cancel
        },
    }
}

/// Where a request received from `remote_public_key` goes.
pub fn route_incoming_request(
    route: &Vec<PublicKey>,
    remote_public_key: &PublicKey,
    local_public_key: &PublicKey,
    friends: &Vec<PublicKey>,
) -> (r: RequestDestination)
    ensures
        r@ == request_destination_of(
            bytes_list_view(route@),
            remote_public_key@,
            local_public_key@,
            bytes_list_view(friends@),
        ),
{
    let ghost rv = bytes_list_view(route@);
    let mut i: usize = 1;
    while i < route.len()
        invariant
            1 <= i,
            rv == bytes_list_view(route@),
            pair_position(rv, remote_public_key@, local_public_key@, 1) == pair_position(
                rv,
                remote_public_key@,
                local_public_key@,
                i as int,
            ),
        decreases route.len() - i,
    {
        if bytes_eq(&route[i - 1], remote_public_key) && bytes_eq(&route[i], local_public_key) {
            if i == route.len() - 1 {
                return RequestDestination::Local;
            }
            let next = &route[i + 1];
            let mut j: usize = 0;
            while j < friends.len()
                invariant
                    j <= friends.len(),
                    rv == bytes_list_view(route@),
                    i + 1 < rv.len(),
                    next@ == rv[i + 1],
                    pair_position(rv, remote_public_key@, local_public_key@, 1) == Some(i as int),
                    forall|k: int| 0 <= k < j ==> #[trigger] bytes_list_view(friends@)[k] != next@,
                decreases friends.len() - j,
            {
                if bytes_eq(&friends[j], next) {
                    assert(bytes_list_view(friends@)[j as int] == next@);
                    return RequestDestination::Forward(copy_bytes(next));
                }
                j = j + 1;
            }
            return RequestDestination::Cancel;
        }
        i = i + 1;
    }
    RequestDestination::Cancel
}

} // verus!
