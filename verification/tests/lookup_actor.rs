use ailmedak::lookup::{Color, LookupCoordinator, ALPHA_FACTOR};
use ailmedak::message_protocol::{try_decode, Message, NodeContact};
use ailmedak::node::{AsyncAction, EvictionCandidate};

fn contact(n: u8) -> NodeContact {
    NodeContact { id: vec_id(n), ip: vec![10, 0, 0, n], port: 4000 + n as u16 }
}

fn vec_id(n: u8) -> Vec<u8> {
    let mut id = vec![0u8; 20];
    id[19] = n;
    id
}

#[test]
fn merge_results_creates_a_sorted_white_list() {
    let mut c = LookupCoordinator::new(vec![9; 20], 8);
    let key = vec_id(6);
    c.merge_results(&key, &vec![contact(9), contact(7), contact(2)], None);
    assert_eq!(c.lookups.len(), 1);
    assert_eq!(c.lookups[0].0, key);
    // XOR distances to 6: 9->15, 7->1, 2->4; sorted closest first.
    let ids: Vec<u8> = c.lookups[0].1.iter().map(|e| e.0.id[19]).collect();
    assert_eq!(ids, vec![7, 2, 9]);
    for e in &c.lookups[0].1 {
        assert_eq!(e.1, Color::White);
    }
}

#[test]
fn merge_results_twice_keeps_one_entry_per_identifier() {
    let mut c = LookupCoordinator::new(vec![9; 20], 8);
    let key = vec_id(6);
    let batch = vec![contact(7), contact(2)];
    c.merge_results(&key, &batch, None);
    assert_eq!(c.lookups[0].1.len(), 2);
    c.merge_results(&key, &batch, None);
    assert_eq!(c.lookups[0].1.len(), 2);
    // A batch that repeats one identifier also leaves a single entry.
    c.merge_results(&key, &vec![contact(5), contact(5)], None);
    assert_eq!(c.lookups[0].1.len(), 3);
}

#[test]
fn merge_results_marks_the_responder_black() {
    let mut c = LookupCoordinator::new(vec![9; 20], 8);
    let key = vec_id(6);
    c.merge_results(&key, &vec![contact(7)], None);
    let packets = c.dispatch_round(&key, 100);
    assert_eq!(packets.len(), 1);
    assert_eq!(c.lookups[0].1[0].1, Color::Grey(101));
    assert_eq!(c.find_out.len(), 1);
    c.merge_results(&key, &vec![], Some(&vec_id(7)));
    assert_eq!(c.lookups[0].1[0].1, Color::Black);
    assert_eq!(c.find_out.len(), 0);
}

#[test]
fn dispatch_round_respects_the_global_bound() {
    let mut c = LookupCoordinator::new(vec![9; 20], 8);
    let key = vec_id(6);
    let batch: Vec<NodeContact> = [1u8, 2, 3, 4, 5, 8].iter().map(|n| contact(*n)).collect();
    c.merge_results(&key, &batch, None);
    let packets = c.dispatch_round(&key, 100);
    assert_eq!(packets.len(), ALPHA_FACTOR);
    assert_eq!(c.find_out.len(), ALPHA_FACTOR);
    // The budget is exhausted: another round sends nothing.
    let packets = c.dispatch_round(&key, 100);
    assert_eq!(packets.len(), 0);
}

#[test]
fn dispatch_round_sends_find_node_to_the_closest_whites() {
    let mut c = LookupCoordinator::new(vec![9; 20], 8);
    let key = vec_id(6);
    c.merge_results(&key, &vec![contact(7), contact(2)], None);
    let packets = c.dispatch_round(&key, 100);
    assert_eq!(packets.len(), 2);
    assert_eq!(packets[0].ip, vec![10, 0, 0, 7]);
    assert_eq!(packets[0].port, 4007);
    let (msg, from) = try_decode(&packets[0].bytes, &20).unwrap();
    assert_eq!(msg, Message::FindNode(key));
    assert_eq!(from, vec![9; 20]);
}

#[test]
fn is_finished_needs_the_leading_entries_black() {
    let key = vec_id(6);
    // Leading two of two responded: finished.
    let c = LookupCoordinator {
        id: vec![9; 20],
        k_val: 8,
        alpha: 4,
        lookups: vec![(
            key.clone(),
            vec![(contact(7), Color::Black), (contact(2), Color::Black)],
        )],
        find_out: vec![],
        timeoutbuf: vec![],
    };
    assert!(c.is_finished(&key));
    // A White candidate among the leading k blocks completion.
    let c = LookupCoordinator {
        id: vec![9; 20],
        k_val: 8,
        alpha: 4,
        lookups: vec![(
            key.clone(),
            vec![(contact(7), Color::Black), (contact(2), Color::White)],
        )],
        find_out: vec![],
        timeoutbuf: vec![],
    };
    assert!(!c.is_finished(&key));
    // Beyond the leading k, colors are irrelevant.
    let c = LookupCoordinator {
        id: vec![9; 20],
        k_val: 1,
        alpha: 4,
        lookups: vec![(
            key.clone(),
            vec![(contact(7), Color::Black), (contact(2), Color::White)],
        )],
        find_out: vec![],
        timeoutbuf: vec![],
    };
    assert!(c.is_finished(&key));
    // No lookup for the key: nothing to finish.
    assert!(!c.is_finished(&vec_id(5)));
}

#[test]
fn eviction_timers_expire_and_cancel() {
    let mut c = LookupCoordinator::new(vec![9; 20], 8);
    let ec = EvictionCandidate { old: contact(2), new: contact(3) };
    c.schedule_eviction(ec.clone(), 100);
    assert_eq!(c.timeoutbuf.len(), 1);
    // Not yet due.
    let expired = c.sweep_timeouts(102);
    assert!(expired.is_empty());
    assert_eq!(c.timeoutbuf.len(), 1);
    // Due at the timeout boundary.
    let expired = c.sweep_timeouts(103);
    assert_eq!(expired, vec![ec.clone()]);
    assert!(c.timeoutbuf.is_empty());
    // A sign of life cancels the timer instead.
    c.schedule_eviction(ec.clone(), 100);
    c.cancel_eviction(&ec.old.id);
    assert!(c.timeoutbuf.is_empty());
}

#[test]
fn sweep_turns_overdue_grey_entries_yellow() {
    let mut c = LookupCoordinator::new(vec![9; 20], 8);
    let key = vec_id(6);
    c.merge_results(&key, &vec![contact(7)], None);
    c.dispatch_round(&key, 100);
    assert_eq!(c.lookups[0].1[0].1, Color::Grey(101));
    c.sweep_timeouts(101);
    assert_eq!(c.lookups[0].1[0].1, Color::Yellow);
    assert!(c.find_out.is_empty());
}

#[test]
fn handle_action_drives_a_lookup_to_completion() {
    let mut c = LookupCoordinator::new(vec![9; 20], 8);
    let key = vec_id(6);
    // First results from the local table: one candidate, one request out.
    let eff = c.handle_action(
        AsyncAction::LookupResults(key.clone(), vec![contact(7)], None),
        100,
    );
    assert_eq!(eff.packets.len(), 1);
    assert!(eff.finished.is_none());
    // The candidate responds with nothing new: the lookup is finished and
    // its state dropped.
    let eff = c.handle_action(
        AsyncAction::LookupResults(key.clone(), vec![], Some(vec_id(7))),
        100,
    );
    assert!(eff.packets.is_empty());
    assert_eq!(eff.finished, Some(key));
    assert!(c.lookups.is_empty());
}

#[test]
fn handle_action_schedules_and_sweeps_timers() {
    let mut c = LookupCoordinator::new(vec![9; 20], 8);
    let ec = EvictionCandidate { old: contact(2), new: contact(3) };
    c.handle_action(AsyncAction::SetEvictTimeout(ec.clone()), 100);
    assert_eq!(c.timeoutbuf.len(), 1);
    let eff = c.handle_action(AsyncAction::Awake, 104);
    assert_eq!(eff.expired, vec![ec.clone()]);
    assert!(c.timeoutbuf.is_empty());
    // A pong from the old contact cancels a pending timer.
    c.handle_action(AsyncAction::SetEvictTimeout(ec.clone()), 100);
    c.handle_action(AsyncAction::PingSeen(ec.old.id.clone()), 101);
    assert!(c.timeoutbuf.is_empty());
}
