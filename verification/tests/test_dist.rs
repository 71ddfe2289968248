use ailmedak::identity::{cmp_dist, dist_as_bytes, gen_new_id, DistanceOrder};
use ailmedak::node::KademliaNode;

#[test]
fn test_k_bucket_index_0() {
    let dist = vec![0; 20];
    assert!(KademliaNode::k_bucket_index(&dist) == 0);
}

#[test]
fn test_k_bucket_index_1() {
    let mut dist = vec![0; 20];
    dist[19] = 1;
    let index = KademliaNode::k_bucket_index(&dist);
    assert!(index == 0);
}

#[test]
fn test_k_bucket_index_2() {
    let mut dist = vec![0; 20];
    dist[19] = 2;
    let index = KademliaNode::k_bucket_index(&dist);
    assert!(index == 1);
}

#[test]
fn test_k_bucket_index() {
    let dist = vec![1; 20];
    let bucket_index = KademliaNode::k_bucket_index(&dist);
    assert!(bucket_index == 152);
}

#[test]
fn distance_to_self_is_zero() {
    let a = vec![0xAB; 20];
    assert_eq!(dist_as_bytes(&a, &a), vec![0; 20]);
}

#[test]
fn distance_is_byte_wise_xor() {
    let mut a = vec![0; 20];
    let mut b = vec![0; 20];
    a[0] = 0b1100;
    b[0] = 0b1010;
    a[19] = 0xFF;
    let mut expected = vec![0u8; 20];
    expected[0] = 0b0110;
    expected[19] = 0xFF;
    assert_eq!(dist_as_bytes(&a, &b), expected);
}

#[test]
fn bucket_index_of_distinct_ids_is_in_range() {
    let a = vec![3; 20];
    let mut b = vec![3; 20];
    b[7] = 200;
    let d = dist_as_bytes(&a, &b);
    let index = KademliaNode::k_bucket_index(&d);
    assert!(index <= 159);
    // Equal identifiers map to bucket 0.
    let zero = dist_as_bytes(&a, &a);
    assert_eq!(KademliaNode::k_bucket_index(&zero), 0);
}

#[test]
fn compare_distance_orders_lexicographically() {
    let mut close = vec![0; 20];
    let mut far = vec![0; 20];
    close[1] = 1;
    far[0] = 1;
    assert_eq!(cmp_dist(&close, &far), DistanceOrder::BFarther);
    assert_eq!(cmp_dist(&far, &close), DistanceOrder::AFarther);
    assert_eq!(cmp_dist(&close, &close), DistanceOrder::Equal);
}

#[test]
fn generated_identifier_has_full_width() {
    let id = gen_new_id();
    assert_eq!(id.len(), 20);
}
