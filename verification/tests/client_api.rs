use ailmedak::api_layer::{parse_client_request, ClientMessage};
use ailmedak::config::Config;
use ailmedak::fmt_utils::{as_hex_string, Loggerator};
use ailmedak::node::KademliaNode;

#[test]
fn parse_get_hashes_the_key() {
    // Type byte 0, a 4-byte length, then the key "abc".
    let buf = [0u8, 0, 0, 0, 3, 97, 98, 99];
    match parse_client_request(&buf) {
        Some(ClientMessage::Get(hash)) => {
            assert_eq!(
                as_hex_string(&hash),
                "a9993e364706816aba3e25717850c26c9cd0d89d"
            );
        },
        _ => panic!("a type-0 request is a lookup"),
    }
}

#[test]
fn parse_put_hashes_the_key_and_keeps_the_value() {
    // Type byte 1, length-prefixed key "abc", length-prefixed value.
    let buf = [1u8, 0, 0, 0, 3, 97, 98, 99, 0, 0, 0, 2, 5, 6];
    match parse_client_request(&buf) {
        Some(ClientMessage::Put(hash, val)) => {
            assert_eq!(hash.len(), 20);
            assert_eq!(
                as_hex_string(&hash),
                "a9993e364706816aba3e25717850c26c9cd0d89d"
            );
            assert_eq!(val, vec![5, 6]);
        },
        _ => panic!("a type-1 request is a store"),
    }
}

#[test]
fn parse_rejects_malformed_requests() {
    assert!(parse_client_request(&[]).is_none());
    assert!(parse_client_request(&[2, 0, 0, 0, 1, 97]).is_none());
    // Declared key length runs past the buffer.
    assert!(parse_client_request(&[0, 0, 0, 0, 9, 97]).is_none());
    // A store missing its value length.
    assert!(parse_client_request(&[1, 0, 0, 0, 1, 97]).is_none());
}

#[test]
fn handle_client_put_then_get_resolves() {
    let mut node = KademliaNode::new(vec![9; 20], 8);
    let key = vec![4u8; 20];
    let r = node.handle_client(ClientMessage::Put(key.clone(), vec![1, 2]));
    assert!(r.is_none());
    let r = node.handle_client(ClientMessage::Get(key.clone()));
    assert_eq!(r, Some((key, vec![1, 2])));
    // An unknown key cannot be resolved locally.
    let r = node.handle_client(ClientMessage::Get(vec![5u8; 20]));
    assert!(r.is_none());
}

#[test]
fn hex_rendering_is_two_lowercase_digits_per_byte() {
    assert_eq!(as_hex_string(&[]), "");
    assert_eq!(as_hex_string(&[0, 255, 10]), "00ff0a");
}

#[test]
fn loggerator_renders_short_and_full_identifiers() {
    let id = vec![0xABu8; 20];
    let lg = Loggerator::new(&id);
    assert_eq!(lg.id, "ababab");
    assert_eq!(lg.id_full.len(), 40);
    assert_eq!(lg.id_full, "ab".repeat(20));
}

#[test]
fn default_config_with_port() {
    let c = Config::default_with_port(3000);
    assert_eq!(c.network_port, 3000);
    assert!(c.api_port.is_none());
    assert_eq!(c.k_val, 8);
    assert_eq!(c.async_poll_interval, 300);
    assert!(c.initial_neighbors.is_empty());
}
