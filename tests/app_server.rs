use offset_funder::app_server::{deserialize_app_to_app_server, serialize_app_to_app_server, AppToAppServer, SerializeError};
use offset_funder::encode::reset_token_signature_buff;

#[test]
fn app_message_round_trip() {
    let msgs = vec![
        AppToAppServer::UserRequestSendFunds {
            request_id: vec![3; 16],
            route: vec![vec![0xaa; 32], vec![0xbb; 32]],
            dest_payment: 10,
            invoice_id: vec![7; 32],
        },
        AppToAppServer::ReceiptAck { request_id: vec![1; 16], receipt_signature: vec![2; 64] },
        AppToAppServer::SetFriendName { friend_public_key: vec![0xaa; 32], name: b"bob".to_vec() },
        AppToAppServer::SetFriendRemoteMaxDebt { friend_public_key: vec![0xaa; 32], remote_max_debt: u128::MAX },
        AppToAppServer::ResetFriendChannel { friend_public_key: vec![0xaa; 32], reset_token: vec![] },
    ];
    for m in msgs {
        let bytes = serialize_app_to_app_server(&m);
        let back = deserialize_app_to_app_server(&bytes).unwrap();
        assert_eq!(format!("{:?}", back), format!("{:?}", m));
    }
}

#[test]
fn app_message_exact_bytes() {
    let m = AppToAppServer::SetFriendRemoteMaxDebt { friend_public_key: vec![0xaa, 0xbb], remote_max_debt: 258 };
    let bytes = serialize_app_to_app_server(&m);
    let mut expected = vec![3u8, 0, 0, 0, 0, 0, 0, 0, 2, 0xaa, 0xbb];
    expected.extend_from_slice(&[0u8; 14]);
    expected.extend_from_slice(&[1, 2]);
    assert_eq!(bytes, expected);
}

#[test]
fn malformed_app_messages_are_refused() {
    assert_eq!(deserialize_app_to_app_server(&[]).unwrap_err(), SerializeError::Malformed);
    assert_eq!(deserialize_app_to_app_server(&[9]).unwrap_err(), SerializeError::Malformed);
    let m = AppToAppServer::ReceiptAck { request_id: vec![1; 16], receipt_signature: vec![2; 64] };
    let mut bytes = serialize_app_to_app_server(&m);
    bytes.push(0);
    assert_eq!(deserialize_app_to_app_server(&bytes).unwrap_err(), SerializeError::Malformed);
    bytes.truncate(bytes.len() - 2);
    assert_eq!(deserialize_app_to_app_server(&bytes).unwrap_err(), SerializeError::Malformed);
}

#[test]
fn reset_token_buffer_layout() {
    let b = reset_token_signature_buff(&vec![1u8], &vec![2u8, 3], 5);
    let mut expected = vec![2u8];
    expected.extend_from_slice(&[0, 0, 0, 0, 0, 0, 0, 1, 1]);
    expected.extend_from_slice(&[0, 0, 0, 0, 0, 0, 0, 2, 2, 3]);
    expected.extend_from_slice(&[0u8; 15]);
    expected.push(5);
    assert_eq!(b, expected);
}
