use offset_funder::forward::{freeze_link, route_incoming_request, FreezeLink, Ratio, RequestDestination};

#[test]
fn freeze_link_ratio_is_scaled_share() {
    // 2^128 * 5 / (20 - 10) = 2^127
    assert_eq!(freeze_link(10, 5, 20), FreezeLink { shared_credits: 10, usable_ratio: Ratio::Numerator(1u128 << 127) });
    // 2^128 * 1 / 3, rounded down
    assert_eq!(freeze_link(0, 1, 3).usable_ratio, Ratio::Numerator(u128::MAX / 3));
    // a share of one or more does not fit: all of it is usable
    assert_eq!(freeze_link(10, 10, 20).usable_ratio, Ratio::One);
    assert_eq!(freeze_link(0, 0, 1).usable_ratio, Ratio::Numerator(0));
}

#[test]
fn request_routing_decisions() {
    let a = vec![0xaa; 32];
    let b = vec![0xbb; 32];
    let c = vec![0xcc; 32];
    let route = vec![a.clone(), b.clone(), c.clone()];
    // B receives from A and C is a friend: forward to C.
    match route_incoming_request(&route, &a, &b, &vec![a.clone(), c.clone()]) {
        RequestDestination::Forward(next) => assert_eq!(next, c),
        other => panic!("unexpected {:?}", other),
    }
    // C is not B's friend: cancel back.
    assert!(matches!(route_incoming_request(&route, &a, &b, &vec![a.clone()]), RequestDestination::Cancel));
    // C is the last hop: the payment is local.
    assert!(matches!(route_incoming_request(&route, &b, &c, &vec![]), RequestDestination::Local));
    // The route does not pass from the sender to us.
    assert!(matches!(route_incoming_request(&route, &c, &b, &vec![a]), RequestDestination::Cancel));
}
