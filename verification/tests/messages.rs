use ailmedak::message_protocol::{
    encode_message, find_node_msg, find_node_resp, find_val_msg, find_val_resp, ping_ack,
    ping_msg, store_msg, try_decode, Message, NodeContact,
};
use ailmedak::utils::{u16_to_u8_2, u8_2_to_u16, u8_4_to_u32};

fn mock_id() -> Vec<u8> {
    vec![9; 20]
}

#[test]
fn msg_ping() {
    let ping = ping_msg(&mock_id());
    let ds = try_decode(&ping, &20).unwrap();
    assert_eq!(ds, (Message::Ping, mock_id()));
}

#[test]
fn msg_ping_ack() {
    let ping_ack = ping_ack(&mock_id());
    let ds = try_decode(&ping_ack, &20).unwrap();
    assert_eq!(ds, (Message::PingResp, mock_id()));
}

#[test]
fn msg_store() {
    let key = vec![10; 20];
    let val = vec![1, 2, 3, 4, 5];
    let store = store_msg(&mock_id(), &key, &val);
    let ds = try_decode(&store, &20).unwrap();
    assert_eq!(ds, (Message::Store(key, val), mock_id()));
}

#[test]
fn msg_find_node() {
    let key = vec![10; 20];
    let find_val = find_node_msg(&mock_id(), &key);
    let ds = try_decode(&find_val, &20).unwrap();
    assert_eq!(ds, (Message::FindNode(key), mock_id()));
}

#[test]
fn msg_find_val() {
    let key = vec![10; 20];
    let find_val = find_val_msg(&mock_id(), &key);
    let ds = try_decode(&find_val, &20).unwrap();
    assert_eq!(ds, (Message::FindVal(key), mock_id()));
}

#[test]
fn msg_find_node_resp_round_trip() {
    let key = vec![10; 20];
    let closest = vec![
        NodeContact { id: vec![5; 20], ip: vec![1, 2, 3, 4], port: 258 },
        NodeContact { id: vec![6; 20], ip: vec![5, 6, 7, 8], port: 772 },
    ];
    let resp = find_node_resp(&mock_id(), &closest, &key);
    let ds = try_decode(&resp, &20).unwrap();
    assert_eq!(ds, (Message::FindNodeResp(key, closest), mock_id()));
}

#[test]
fn msg_find_val_resp_round_trip() {
    let key = vec![10; 20];
    let val = vec![7, 8, 9];
    let resp = find_val_resp(&mock_id(), &key, &val);
    let ds = try_decode(&resp, &20).unwrap();
    assert_eq!(ds, (Message::FindValResp(key, val), mock_id()));
}

#[test]
fn msg_encode_message_matches_builders() {
    let key = vec![10; 20];
    let msg = Message::FindNode(key.clone());
    assert_eq!(encode_message(&msg, &mock_id()), find_node_msg(&mock_id(), &key));
}

#[test]
fn decode_rejects_truncated_buffer() {
    assert_eq!(try_decode(&[0, 9, 9], &20), None);
    // One byte short of a full envelope head.
    let short = vec![0u8; 24];
    assert_eq!(try_decode(&short, &20), None);
}

#[test]
fn decode_rejects_unknown_tag() {
    let mut buf = ping_msg(&mock_id());
    buf[0] = 7;
    assert_eq!(try_decode(&buf, &20), None);
}

#[test]
fn decode_rejects_length_mismatch() {
    let mut buf = store_msg(&mock_id(), &vec![10; 20], &vec![1, 2, 3]);
    // Declare one more payload byte than the buffer carries.
    buf[24] = buf[24] + 1;
    assert_eq!(try_decode(&buf, &20), None);
}

#[test]
fn wire_bytes_exact_layout() {
    let ping = ping_msg(&mock_id());
    assert_eq!(ping.len(), 25);
    assert_eq!(ping[0], 0);
    assert_eq!(&ping[1..21], &[9; 20][..]);
    assert_eq!(&ping[21..25], &[0, 0, 0, 0][..]);

    let store = store_msg(&mock_id(), &vec![10; 20], &vec![1, 2, 3, 4, 5]);
    assert_eq!(store[0], 2);
    assert_eq!(&store[21..25], &[0, 0, 0, 25][..]);
    assert_eq!(&store[25..45], &[10; 20][..]);
    assert_eq!(&store[45..], &[1, 2, 3, 4, 5][..]);
}

#[test]
fn byte_conversions_exact() {
    assert_eq!(u8_2_to_u16(&[1, 2]), 258);
    assert_eq!(u8_4_to_u32(&[0, 1, 2, 3]), 66051);
    assert_eq!(u16_to_u8_2(&258), vec![1, 2]);
    assert_eq!(u8_2_to_u16(&u16_to_u8_2(&54321)), 54321);
}
