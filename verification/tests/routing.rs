use ailmedak::identity::dist_as_bytes;
use ailmedak::message_protocol::{try_decode, Message, NodeContact};
use ailmedak::node::{AsyncAction, EvictionCandidate, KademliaNode, PeerAddr};

fn contact(n: u8) -> NodeContact {
    NodeContact { id: vec_id(n), ip: vec![10, 0, 0, n], port: 4000 + n as u16 }
}

fn vec_id(n: u8) -> Vec<u8> {
    let mut id = vec![0u8; 20];
    id[19] = n;
    id
}

fn bucket_of(node: &KademliaNode, id: &Vec<u8>) -> usize {
    let d = node.distance_to(id);
    KademliaNode::k_bucket_index(&d)
}

#[test]
fn update_on_non_full_bucket_appends_and_returns_none() {
    let mut node = KademliaNode::new(vec![0; 20], 8);
    let c = contact(2);
    let ki = bucket_of(&node, &c.id);
    let r = node.update_k_bucket(ki, c.clone());
    assert!(r.is_none());
    assert_eq!(node.buckets[ki], vec![c]);
}

#[test]
fn update_on_full_bucket_returns_candidate_and_keeps_bucket() {
    let mut node = KademliaNode::new(vec![0; 20], 1);
    let c2 = contact(2);
    let c3 = contact(3);
    let ki = bucket_of(&node, &c2.id);
    assert_eq!(ki, bucket_of(&node, &c3.id));
    assert!(node.update_k_bucket(ki, c2.clone()).is_none());
    let r = node.update_k_bucket(ki, c3.clone());
    match r {
        Some(ec) => {
            assert_eq!(ec.old, c2);
            assert_eq!(ec.new, c3);
        },
        None => panic!("a full bucket must yield an eviction candidate"),
    }
    assert_eq!(node.buckets[ki], vec![c2]);
}

#[test]
fn update_refreshes_a_known_contact_to_most_recently_seen() {
    let mut node = KademliaNode::new(vec![0; 20], 8);
    let c2 = contact(2);
    let c3 = contact(3);
    let ki = bucket_of(&node, &c2.id);
    node.update_k_bucket(ki, c2.clone());
    node.update_k_bucket(ki, c3.clone());
    // Seeing contact 2 again moves it behind contact 3, even from a new port.
    let mut c2_new = c2.clone();
    c2_new.port = 9999;
    let r = node.update_k_bucket(ki, c2_new.clone());
    assert!(r.is_none());
    assert_eq!(node.buckets[ki], vec![c3, c2_new]);
}

#[test]
fn find_k_closest_is_bounded_and_sorted() {
    let mut node = KademliaNode::new(vec![0; 20], 3);
    for n in [5u8, 9, 2, 12, 7] {
        let c = contact(n);
        let ki = bucket_of(&node, &c.id);
        node.update_k_bucket(ki, c);
    }
    let target = vec_id(6);
    let r = node.find_k_closest(&target);
    assert_eq!(r.len(), 3);
    for w in r.windows(2) {
        assert!(w[0].0 <= w[1].0, "distances must be non-decreasing");
    }
    for (d, c) in &r {
        assert_eq!(*d, dist_as_bytes(&c.id, &target));
    }
    // XOR distances to 6: 5->3, 9->15, 2->4, 12->10, 7->1; closest three are 7, 5, 2.
    assert_eq!(r[0].1.id, vec_id(7));
    assert_eq!(r[1].1.id, vec_id(5));
    assert_eq!(r[2].1.id, vec_id(2));
}

#[test]
fn receive_find_node_with_empty_table_answers_empty_list() {
    let mut node = KademliaNode::new(vec![9; 20], 8);
    let key = vec_id(4);
    let eff = node.receive(Message::FindNode(key.clone()), &vec_id(1));
    assert_eq!(eff.reply, Some(Message::FindNodeResp(key, vec![])));
    assert!(eff.action.is_none());
}

#[test]
fn receive_find_node_with_one_contact_answers_it() {
    let mut node = KademliaNode::new(vec![9; 20], 8);
    let c = contact(200);
    let ki = bucket_of(&node, &c.id);
    node.update_k_bucket(ki, c.clone());
    // The single known contact comes back whatever its distance to the key.
    let key = vec_id(4);
    let eff = node.receive(Message::FindNode(key.clone()), &vec_id(1));
    assert_eq!(eff.reply, Some(Message::FindNodeResp(key, vec![c])));
}

#[test]
fn receive_store_then_find_val_serves_the_value() {
    let mut node = KademliaNode::new(vec![9; 20], 8);
    let key = vec_id(4);
    let val = vec![1, 2, 3];
    let eff = node.receive(Message::Store(key.clone(), val.clone()), &vec_id(1));
    assert!(eff.reply.is_none() && eff.action.is_none());
    let eff = node.receive(Message::FindVal(key.clone()), &vec_id(1));
    assert_eq!(eff.reply, Some(Message::FindValResp(key.clone(), val)));
    // An unknown key falls back to a FindNode-style answer.
    let other = vec_id(5);
    let eff = node.receive(Message::FindVal(other.clone()), &vec_id(1));
    assert_eq!(eff.reply, Some(Message::FindNodeResp(other, vec![])));
}

#[test]
fn receive_store_last_writer_wins() {
    let mut node = KademliaNode::new(vec![9; 20], 8);
    let key = vec_id(4);
    node.receive(Message::Store(key.clone(), vec![1]), &vec_id(1));
    node.receive(Message::Store(key.clone(), vec![2, 2]), &vec_id(1));
    let eff = node.receive(Message::FindVal(key.clone()), &vec_id(1));
    assert_eq!(eff.reply, Some(Message::FindValResp(key, vec![2, 2])));
}

#[test]
fn receive_find_node_resp_feeds_the_lookup_actor() {
    let mut node = KademliaNode::new(vec![9; 20], 8);
    let key = vec_id(4);
    let contacts = vec![contact(2)];
    let eff = node.receive(
        Message::FindNodeResp(key.clone(), contacts.clone()),
        &vec_id(1),
    );
    assert!(eff.reply.is_none());
    match eff.action {
        Some(AsyncAction::LookupResults(k, cs, from)) => {
            assert_eq!(k, key);
            assert_eq!(cs, contacts);
            assert_eq!(from, Some(vec_id(1)));
        },
        _ => panic!("lookup results must be forwarded"),
    }
}

#[test]
fn handle_from_node_pings_the_old_contact_of_a_full_bucket() {
    let mut node = KademliaNode::new(vec![0; 20], 1);
    let c2 = contact(2);
    let c3 = contact(3);
    let src2 = PeerAddr { ip: c2.ip.clone(), port: c2.port };
    let src3 = PeerAddr { ip: c3.ip.clone(), port: c3.port };
    let eff = node.handle_from_node(Message::Ping, c2.id.clone(), src2);
    // A ping gets exactly one reply packet, back to the source.
    assert_eq!(eff.packets.len(), 1);
    assert_eq!(eff.packets[0].ip, c2.ip);
    assert_eq!(eff.packets[0].port, c2.port);
    let (reply, from) = try_decode(&eff.packets[0].bytes, &20).unwrap();
    assert_eq!(reply, Message::PingResp);
    assert_eq!(from, vec![0; 20]);
    // A second peer in the same, now full bucket: the old occupant is
    // pinged and the candidate forwarded for verification.
    let eff = node.handle_from_node(Message::Ping, c3.id.clone(), src3);
    assert_eq!(eff.packets.len(), 2);
    assert_eq!(eff.packets[0].ip, c2.ip);
    assert_eq!(eff.packets[0].port, c2.port);
    let (ping, _) = try_decode(&eff.packets[0].bytes, &20).unwrap();
    assert_eq!(ping, Message::Ping);
    match &eff.actions[0] {
        AsyncAction::SetEvictTimeout(ec) => {
            assert_eq!(ec.old, c2);
            assert_eq!(ec.new.id, c3.id);
        },
        _ => panic!("a full bucket must schedule a verification"),
    }
}

#[test]
fn apply_eviction_replaces_the_unresponsive_contact() {
    let mut node = KademliaNode::new(vec![0; 20], 1);
    let c2 = contact(2);
    let c3 = contact(3);
    let ki = bucket_of(&node, &c2.id);
    node.update_k_bucket(ki, c2.clone());
    node.apply_eviction(&EvictionCandidate { old: c2, new: c3.clone() });
    assert_eq!(node.buckets[ki], vec![c3]);
}
