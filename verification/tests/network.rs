use memory_network::{
    Attachment, Delivery, DummyReliability, EncodeError, Intake, Lane, MasterMap, MemoryNetwork,
    MemoryNetworkInner, NetworkChange, NetworkError, NetworkReliability, PendingAttach,
    PendingSend, Progress, PubKey, MESSAGE_LIMIT, QUEUE_CAPACITY,
};
use rand::Rng;

#[derive(Clone, Debug, PartialEq, Eq, PartialOrd, Ord)]
struct Test {
    message: u64,
}

fn to_bytes(test: &Test) -> Vec<u8> {
    test.message.to_le_bytes().to_vec()
}

fn from_bytes(bytes: &[u8]) -> Test {
    let mut raw = [0u8; 8];
    raw.copy_from_slice(bytes);
    Test { message: u64::from_le_bytes(raw) }
}

fn get_pubkey() -> PubKey {
    PubKey::random(rand::thread_rng().gen())
}

fn key(nonce: u64) -> PubKey {
    PubKey { nonce, share: 7 }
}

type Group = MasterMap<DummyReliability>;

fn attach(nonce: u64, group: &mut Group) -> MemoryNetwork {
    attached(MemoryNetwork::attach(key(nonce), group, None))
}

fn attached(res: Result<Attachment<DummyReliability>, NetworkError>) -> MemoryNetwork {
    match res {
        Ok(Attachment::Attached(network)) => network,
        _ => panic!("the node is not attached"),
    }
}

fn held_up(
    res: Result<Attachment<DummyReliability>, NetworkError>,
) -> PendingAttach<DummyReliability> {
    match res {
        Ok(Attachment::Waiting(pending)) => pending,
        _ => panic!("the attachment does not wait"),
    }
}

/// Fills the direct input of a node with the messages 0 to 127.
fn fill(network: &MemoryNetwork, group: &mut Group) {
    for byte in 0..QUEUE_CAPACITY {
        assert!(is_done(&network.message_node(group, vec![byte as u8], network.pub_key())));
    }
}

/// The messages 0 to 127, and some more.
fn filling_and(more: &[u8]) -> Vec<Vec<u8>> {
    let mut list: Vec<Vec<u8>> = (0..QUEUE_CAPACITY).map(|byte| vec![byte as u8]).collect();
    list.extend(more.iter().map(|byte| vec![*byte]));
    list
}

fn is_done(res: &Result<Delivery, NetworkError>) -> bool {
    matches!(res, Ok(Delivery::Done))
}

fn waiting(res: Result<Delivery, NetworkError>) -> PendingSend {
    match res {
        Ok(Delivery::Waiting(pending)) => pending,
        _ => panic!("the send does not wait"),
    }
}

fn work<R: NetworkReliability>(network: &MemoryNetwork, group: &mut MasterMap<R>) {
    let mut favoured = Lane::Direct;
    loop {
        match network.step(group, favoured) {
            Progress::Idle | Progress::Stopped | Progress::Blocked(_) => return,
            _ => favoured = favoured.other(),
        }
    }
}

// Spawning a single MemoryNetwork should produce no errors
#[test]
fn spawn_single() {
    let mut group: Group = MasterMap::new();
    let pub_key = get_pubkey();
    let _network = MemoryNetwork::new(pub_key, &mut group, Option::None);
}

// Spawning a two MemoryNetworks and connecting them should produce no errors
#[test]
fn spawn_double() {
    let mut group: Group = MasterMap::new();
    let pub_key_1 = get_pubkey();
    let _network_1 = MemoryNetwork::new(pub_key_1, &mut group, Option::None);
    let pub_key_2 = get_pubkey();
    let _network_2 = MemoryNetwork::new(pub_key_2, &mut group, Option::None);
}

// Check to make sure direct queue works
#[test]
fn direct_queue() {
    // Create some dummy messages
    let messages: Vec<Test> = (0..5).map(|x| Test { message: x }).collect();
    // Make and connect the networking instances
    let mut group: Group = MasterMap::new();
    let pub_key_1 = get_pubkey();
    let network1 = MemoryNetwork::new(pub_key_1.clone(), &mut group, Option::None);
    let pub_key_2 = get_pubkey();
    let network2 = MemoryNetwork::new(pub_key_2.clone(), &mut group, Option::None);

    // Test 1 -> 2
    // Send messages
    for message in &messages {
        let res = network1.message_node(&mut group, to_bytes(message), pub_key_2.clone());
        assert!(is_done(&res), "Failed to message node");
    }
    work(&network2, &mut group);
    let mut output = Vec::new();
    while output.len() < messages.len() {
        let message = network2
            .next_direct(&mut group)
            .expect("Failed to receive message")
            .expect("Failed to receive message");
        output.push(from_bytes(&message));
    }
    output.sort();
    // Check for equality
    assert_eq!(output, messages);

    // Test 2 -> 1
    // Send messages
    for message in &messages {
        let res = network2.message_node(&mut group, to_bytes(message), pub_key_1.clone());
        assert!(is_done(&res), "Failed to message node");
    }
    work(&network1, &mut group);
    let mut output = Vec::new();
    while output.len() < messages.len() {
        let message = network1
            .next_direct(&mut group)
            .expect("Failed to receive message")
            .expect("Failed to receive message");
        output.push(from_bytes(&message));
    }
    output.sort();
    // Check for equality
    assert_eq!(output, messages);
}

// Check to make sure direct queue works
#[test]
fn broadcast_queue() {
    // Create some dummy messages
    let messages: Vec<Test> = (0..5).map(|x| Test { message: x }).collect();
    // Make and connect the networking instances
    let mut group: Group = MasterMap::new();
    let pub_key_1 = get_pubkey();
    let network1 = MemoryNetwork::new(pub_key_1.clone(), &mut group, Option::None);
    let pub_key_2 = get_pubkey();
    let network2 = MemoryNetwork::new(pub_key_2.clone(), &mut group, Option::None);

    // Test 1 -> 2
    // Send messages
    for message in &messages {
        let res = network1.broadcast_message(&mut group, to_bytes(message));
        assert!(is_done(&res), "Failed to message node");
    }
    work(&network2, &mut group);
    let mut output = Vec::new();
    while output.len() < messages.len() {
        let message = network2
            .next_broadcast(&mut group)
            .expect("Failed to receive message")
            .expect("Failed to receive message");
        output.push(from_bytes(&message));
    }
    output.sort();
    // Check for equality
    assert_eq!(output, messages);

    // Test 2 -> 1
    // Send messages
    for message in &messages {
        let res = network2.broadcast_message(&mut group, to_bytes(message));
        assert!(is_done(&res), "Failed to message node");
    }
    work(&network1, &mut group);
    let mut output = Vec::new();
    while output.len() < messages.len() {
        let message = network1
            .next_broadcast(&mut group)
            .expect("Failed to receive message")
            .expect("Failed to receive message");
        output.push(from_bytes(&message));
    }
    output.sort();
    // Check for equality
    assert_eq!(output, messages);
}

#[test]
fn messages_arrive_in_order_and_once() {
    let mut group: Group = MasterMap::with_id(1);
    let one = attach(1, &mut group);
    let two = attach(2, &mut group);
    for byte in 0u8..10 {
        assert!(is_done(&one.message_node(&mut group, vec![byte], key(2))));
    }
    work(&two, &mut group);
    let expected: Vec<Vec<u8>> = (0u8..10).map(|byte| vec![byte]).collect();
    assert_eq!(two.direct_queue(&mut group), Ok(Some(expected)));
    assert_eq!(two.direct_queue(&mut group), Ok(None));
    assert_eq!(two.next_broadcast(&mut group), Ok(None));
    work(&one, &mut group);
    assert_eq!(one.next_direct(&mut group), Ok(None));
}

#[test]
fn a_node_looks_at_the_favoured_lane_first() {
    let mut group: Group = MasterMap::with_id(1);
    let one = attach(1, &mut group);
    assert!(is_done(&one.message_node(&mut group, vec![1], key(1))));
    assert!(is_done(&one.broadcast_message(&mut group, vec![2])));
    assert_eq!(one.step(&mut group, Lane::Broadcast), Progress::Delivered(Lane::Broadcast));
    assert_eq!(one.step(&mut group, Lane::Broadcast), Progress::Delivered(Lane::Direct));
    assert_eq!(one.step(&mut group, Lane::Broadcast), Progress::Idle);
    assert_eq!(one.next_direct(&mut group), Ok(Some(vec![1])));
    assert_eq!(one.next_broadcast(&mut group), Ok(Some(vec![2])));
}

#[test]
fn a_message_over_the_limit_is_refused() {
    let mut group: Group = MasterMap::with_id(1);
    let one = attach(1, &mut group);
    let largest = vec![9u8; 16_381];
    let too_large = vec![9u8; 16_382];
    assert!(matches!(
        one.broadcast_message(&mut group, too_large.clone()),
        Err(NetworkError::FailedToSerialize)
    ));
    assert!(matches!(
        one.message_node(&mut group, too_large, key(1)),
        Err(NetworkError::FailedToSerialize)
    ));
    assert_eq!(one.step(&mut group, Lane::Direct), Progress::Idle);
    assert!(is_done(&one.message_node(&mut group, largest.clone(), key(1))));
    work(&one, &mut group);
    assert_eq!(one.next_direct(&mut group), Ok(Some(largest)));
}

#[test]
fn a_failed_serialization_is_reported() {
    let mut group: Group = MasterMap::with_id(1);
    let one = attach(1, &mut group);
    let over = vec![0u8; MESSAGE_LIMIT as usize + 1];
    assert!(matches!(
        one.broadcast_encoded(&mut group, Err(EncodeError)),
        Err(NetworkError::FailedToSerialize)
    ));
    assert!(matches!(
        one.broadcast_encoded(&mut group, Ok(over.clone())),
        Err(NetworkError::FailedToSerialize)
    ));
    assert!(matches!(
        one.message_node_encoded(&mut group, Err(EncodeError), key(5)),
        Err(NetworkError::FailedToSerialize)
    ));
    assert!(matches!(
        one.message_node_encoded(&mut group, Ok(over), key(1)),
        Err(NetworkError::FailedToSerialize)
    ));
}

#[test]
fn an_unknown_recipient_is_reported() {
    let mut group: Group = MasterMap::with_id(1);
    let one = attach(1, &mut group);
    let other_share = PubKey { nonce: 1, share: 8 };
    assert!(matches!(
        one.message_node(&mut group, vec![1], key(2)),
        Err(NetworkError::NoSuchNode)
    ));
    assert!(matches!(
        one.message_node(&mut group, vec![1], other_share),
        Err(NetworkError::NoSuchNode)
    ));
}

#[test]
fn a_node_that_was_shut_down_takes_nothing_and_hands_out_the_rest() {
    let mut group: Group = MasterMap::with_id(1);
    let one = attach(1, &mut group);
    let two = attach(2, &mut group);
    assert!(is_done(&one.message_node(&mut group, vec![1], key(2))));
    assert!(two.shut_down(&mut group));
    assert!(two.shut_down(&mut group));
    assert!(matches!(
        one.message_node(&mut group, vec![2], key(2)),
        Err(NetworkError::CouldNotDeliver)
    ));
    assert!(matches!(
        one.broadcast_message(&mut group, vec![3]),
        Err(NetworkError::CouldNotDeliver)
    ));
    assert_eq!(two.next_direct(&mut group), Ok(None));
    assert_eq!(two.step(&mut group, Lane::Direct), Progress::Delivered(Lane::Direct));
    assert_eq!(two.step(&mut group, Lane::Direct), Progress::Stopped);
    assert_eq!(two.step(&mut group, Lane::Direct), Progress::Stopped);
    assert_eq!(two.next_direct(&mut group), Ok(Some(vec![1])));
    assert_eq!(two.next_direct(&mut group), Err(NetworkError::ShutDown));
    assert_eq!(two.direct_queue(&mut group), Err(NetworkError::ShutDown));
    assert_eq!(two.next_broadcast(&mut group), Err(NetworkError::ShutDown));
    assert_eq!(two.broadcast_queue(&mut group), Err(NetworkError::ShutDown));
    assert_eq!(two.network_changes(&mut group), Err(NetworkError::ShutDown));
    assert_eq!(one.network_changes(&mut group).unwrap().unwrap().len(), 1);
}

#[test]
fn a_full_node_makes_senders_wait() {
    let mut group: Group = MasterMap::with_id(1);
    let one = attach(1, &mut group);
    fill(&one, &mut group);
    let pending = waiting(one.message_node(&mut group, vec![200], key(1)));
    let pending = waiting(pending.resume(&mut group));
    assert_eq!(one.step(&mut group, Lane::Direct), Progress::Delivered(Lane::Direct));
    assert!(is_done(&pending.resume(&mut group)));
    // The output fills up, and the message that has no room stands in line.
    work(&one, &mut group);
    assert_eq!(one.step(&mut group, Lane::Broadcast), Progress::Blocked(Lane::Direct));
    assert_eq!(one.direct_queue(&mut group), Ok(Some(filling_and(&[200]))));
    assert_eq!(one.step(&mut group, Lane::Broadcast), Progress::Idle);
    assert_eq!(one.direct_queue(&mut group), Ok(None));
}

#[test]
fn a_receipt_lets_held_up_work_go_on() {
    let mut group: Group = MasterMap::with_id(1);
    let one = attach(1, &mut group);
    fill(&one, &mut group);
    work(&one, &mut group);
    for byte in [200u8, 201] {
        assert!(is_done(&one.message_node(&mut group, vec![byte], key(1))));
    }
    assert_eq!(one.step(&mut group, Lane::Direct), Progress::Blocked(Lane::Direct));
    assert_eq!(one.step(&mut group, Lane::Direct), Progress::Blocked(Lane::Direct));
    assert_eq!(one.next_direct(&mut group), Ok(Some(vec![0])));
    assert_eq!(one.step(&mut group, Lane::Direct), Progress::Blocked(Lane::Direct));
    assert_eq!(one.next_direct(&mut group), Ok(Some(vec![1])));
    assert_eq!(one.step(&mut group, Lane::Direct), Progress::Idle);
    let list = one.direct_queue(&mut group).unwrap().unwrap();
    assert_eq!(list[..], filling_and(&[200, 201])[2..]);
}

#[test]
fn nobody_overtakes_a_sender_that_waits() {
    let mut group: Group = MasterMap::with_id(1);
    let one = attach(1, &mut group);
    fill(&one, &mut group);
    let first = waiting(one.message_node(&mut group, vec![200], key(1)));
    let second = waiting(one.message_node(&mut group, vec![201], key(1)));
    assert_eq!(one.step(&mut group, Lane::Direct), Progress::Delivered(Lane::Direct));
    let third = waiting(one.message_node(&mut group, vec![202], key(1)));
    let second = waiting(second.resume(&mut group));
    assert!(is_done(&first.resume(&mut group)));
    assert_eq!(one.step(&mut group, Lane::Direct), Progress::Delivered(Lane::Direct));
    assert_eq!(one.step(&mut group, Lane::Direct), Progress::Delivered(Lane::Direct));
    assert!(is_done(&third.resume(&mut group)));
    assert!(is_done(&second.resume(&mut group)));
    let mut list = Vec::new();
    while let Some(found) = one.direct_queue(&mut group).unwrap() {
        list.extend(found);
        work(&one, &mut group);
    }
    assert_eq!(list, filling_and(&[200, 201, 202]));
}

#[test]
fn a_send_that_waits_outlasts_a_shut_down() {
    let mut group: Group = MasterMap::with_id(1);
    let one = attach(1, &mut group);
    fill(&one, &mut group);
    let pending = waiting(one.message_node(&mut group, vec![200], key(1)));
    assert!(!one.shut_down(&mut group));
    assert!(matches!(
        one.message_node(&mut group, vec![201], key(1)),
        Err(NetworkError::CouldNotDeliver)
    ));
    let pending = waiting(pending.resume(&mut group));
    assert!(!one.shut_down(&mut group));
    assert_eq!(one.step(&mut group, Lane::Direct), Progress::Delivered(Lane::Direct));
    assert!(is_done(&pending.resume(&mut group)));
    assert!(one.shut_down(&mut group));
    work(&one, &mut group);
    assert_eq!(one.direct_queue(&mut group), Ok(Some(filling_and(&[200]))));
    assert_eq!(one.step(&mut group, Lane::Direct), Progress::Stopped);
    assert_eq!(one.direct_queue(&mut group), Err(NetworkError::ShutDown));
}

#[test]
fn inputs_are_closed_in_turn() {
    let mut group: Group = MasterMap::with_id(1);
    let one = attach(1, &mut group);
    for _ in 0..QUEUE_CAPACITY {
        assert!(is_done(&one.broadcast_message(&mut group, vec![0])));
    }
    let pending = waiting(one.broadcast_message(&mut group, vec![1]));
    // A broadcast stands in line: only the input for broadcasts is closed.
    assert!(!one.shut_down(&mut group));
    assert!(matches!(
        one.broadcast_message(&mut group, vec![2]),
        Err(NetworkError::CouldNotDeliver)
    ));
    fill(&one, &mut group);
    let direct = waiting(one.message_node(&mut group, vec![200], key(1)));
    assert_eq!(one.step(&mut group, Lane::Broadcast), Progress::Delivered(Lane::Broadcast));
    assert!(is_done(&pending.resume(&mut group)));
    // A message for the node stands in line: news is still taken.
    assert!(!one.shut_down(&mut group));
    assert!(matches!(
        one.message_node(&mut group, vec![201], key(1)),
        Err(NetworkError::CouldNotDeliver)
    ));
    attach(1, &mut group);
    assert_eq!(
        one.network_changes(&mut group),
        Ok(Some(vec![NetworkChange::NodeConnected(key(1))]))
    );
    assert_eq!(one.network_changes(&mut group), Ok(None));
    assert_eq!(one.step(&mut group, Lane::Direct), Progress::Delivered(Lane::Direct));
    assert!(is_done(&direct.resume(&mut group)));
    assert!(one.shut_down(&mut group));
    assert_eq!(one.network_changes(&mut group), Err(NetworkError::ShutDown));
    let mut list = Vec::new();
    while let Ok(Some(found)) = one.direct_queue(&mut group) {
        list.extend(found);
        work(&one, &mut group);
        let _ = one.broadcast_queue(&mut group);
        work(&one, &mut group);
    }
    assert_eq!(list, filling_and(&[200]));
    assert_eq!(one.direct_queue(&mut group), Err(NetworkError::ShutDown));
}

#[test]
fn a_send_reaches_the_node_that_a_key_leads_to_when_its_turn_comes() {
    let mut group: Group = MasterMap::with_id(1);
    let one = attach(1, &mut group);
    let two = attach(2, &mut group);
    for _ in 0..QUEUE_CAPACITY {
        assert!(is_done(&one.broadcast_message(&mut group, vec![0])));
    }
    let pending = waiting(one.broadcast_message(&mut group, vec![1]));
    // The message stands in line at one of the two; the other one was not reached yet.
    work(&one, &mut group);
    let list = one.broadcast_queue(&mut group).unwrap().unwrap();
    let (reached, left) = if list.contains(&vec![1]) { (two, two) } else { (two, one) };
    let new = attach(left.pub_key().nonce, &mut group);
    assert!(left.shut_down(&mut group));
    work(&reached, &mut group);
    assert!(is_done(&pending.resume(&mut group)));
    work(&new, &mut group);
    assert_eq!(new.broadcast_queue(&mut group), Ok(Some(vec![vec![1]])));
    work(&left, &mut group);
    if let Ok(Some(list)) = left.broadcast_queue(&mut group) {
        assert!(!list.contains(&vec![1]));
    }
}

#[test]
fn a_broadcast_waits_for_the_node_that_is_full() {
    let mut group: Group = MasterMap::with_id(1);
    let one = attach(1, &mut group);
    let two = attach(2, &mut group);
    for _ in 0..QUEUE_CAPACITY {
        assert!(is_done(&one.broadcast_message(&mut group, vec![0])));
    }
    work(&one, &mut group);
    one.broadcast_queue(&mut group).unwrap().unwrap();
    let pending = waiting(one.broadcast_message(&mut group, vec![1]));
    work(&two, &mut group);
    assert!(is_done(&pending.resume(&mut group)));
    work(&one, &mut group);
    assert_eq!(one.broadcast_queue(&mut group), Ok(Some(vec![vec![1]])));
    let list = two.broadcast_queue(&mut group).unwrap().unwrap();
    assert_eq!(list.len(), QUEUE_CAPACITY + 1);
    assert_eq!(list[QUEUE_CAPACITY], vec![1]);
}

#[test]
fn a_node_takes_any_bytes_until_it_is_shut_down() {
    let mut node: MemoryNetworkInner<DummyReliability> = MemoryNetworkInner::new(key(1), None);
    let many = vec![7u8; 20_000];
    assert!(matches!(node.input(Lane::Broadcast, many.clone()), Intake::Accepted));
    for _ in 1..QUEUE_CAPACITY {
        assert!(matches!(node.input(Lane::Broadcast, vec![]), Intake::Accepted));
    }
    assert!(matches!(node.input(Lane::Direct, vec![1]), Intake::Accepted));
    let ticket = match node.input(Lane::Broadcast, vec![2]) {
        Intake::Queued(ticket) => ticket,
        _ => panic!("the bytes have room"),
    };
    assert!(!node.settle(Lane::Broadcast, ticket));
    // The bytes are no message: they say that more would follow.
    assert_eq!(node.step(Lane::Broadcast), Progress::Skipped(Lane::Broadcast));
    assert!(!node.settle(Lane::Direct, ticket));
    assert!(node.settle(Lane::Broadcast, ticket));
    assert!(!node.settle(Lane::Broadcast, ticket));
    assert!(node.shut_down());
    match node.input(Lane::Direct, many.clone()) {
        Intake::Closed(back) => assert_eq!(back, many),
        _ => panic!("the node was shut down"),
    }
    let change = NetworkChange::NodeConnected(key(2));
    assert!(matches!(node.network_changes_input(change), Intake::Closed(back) if back == change));
}

#[test]
fn attached_nodes_are_announced_to_the_others() {
    let mut group: Group = MasterMap::with_id(1);
    let one = attach(1, &mut group);
    let two = attach(2, &mut group);
    let three = attach(3, &mut group);
    assert_eq!(
        one.network_changes(&mut group),
        Ok(Some(vec![
            NetworkChange::NodeConnected(key(2)),
            NetworkChange::NodeConnected(key(3)),
        ]))
    );
    assert_eq!(
        two.network_changes(&mut group),
        Ok(Some(vec![NetworkChange::NodeConnected(key(3))]))
    );
    assert_eq!(three.network_changes(&mut group), Ok(None));
    let mut keys = one.known_nodes(&group);
    keys.sort();
    assert_eq!(keys, vec![key(1), key(2), key(3)]);
    assert!(one.ready());
    assert_eq!(two.pub_key(), key(2));
}

#[test]
fn a_node_hears_of_those_that_join_after_it_in_order() {
    let mut group: Group = MasterMap::with_id(1);
    let mut nodes: Vec<MemoryNetwork> = Vec::new();
    let mut heard: Vec<Vec<NetworkChange>> = vec![Vec::new(); 6];
    for nonce in 0..6u64 {
        nodes.push(attach(nonce, &mut group));
        let last = nodes[nonce as usize];
        assert!(is_done(&last.broadcast_message(&mut group, vec![nonce as u8])));
        work(&nodes[0], &mut group);
        // One of the nodes reads now and then, the others at the end.
        if let Ok(Some(news)) = nodes[1 % nodes.len()].network_changes(&mut group) {
            heard[1 % nodes.len()].extend(news);
        }
    }
    for (i, node) in nodes.iter().enumerate() {
        if let Ok(Some(news)) = node.network_changes(&mut group) {
            assert!(!news.is_empty());
            heard[i].extend(news);
        }
        let expected: Vec<NetworkChange> =
            (i as u64 + 1..6).map(|nonce| NetworkChange::NodeConnected(key(nonce))).collect();
        assert_eq!(heard[i], expected);
        assert_eq!(node.network_changes(&mut group), Ok(None));
    }
}

#[test]
fn news_that_nobody_reads_holds_up_attachment() {
    let mut group: Group = MasterMap::with_id(1);
    let one = attach(1, &mut group);
    for _ in 0..QUEUE_CAPACITY {
        attach(2, &mut group);
    }
    let pending = held_up(MemoryNetwork::attach(key(3), &mut group, None));
    let pending = held_up(pending.resume(&mut group));
    let mut keys = one.known_nodes(&group);
    keys.sort();
    assert_eq!(keys, vec![key(1), key(2)]);
    let news = one.network_changes(&mut group).unwrap().unwrap();
    assert_eq!(news.len(), QUEUE_CAPACITY + 1);
    assert_eq!(news[QUEUE_CAPACITY], NetworkChange::NodeConnected(key(3)));
    let three = attached(pending.resume(&mut group));
    assert_eq!(three.pub_key(), key(3));
    assert_eq!(one.known_nodes(&group).len(), 3);
    assert_eq!(one.network_changes(&mut group), Ok(None));
    assert_eq!(three.network_changes(&mut group), Ok(None));
}

#[test]
fn an_attachment_that_waits_outlasts_a_shut_down() {
    let mut group: Group = MasterMap::with_id(1);
    let one = attach(1, &mut group);
    for _ in 0..QUEUE_CAPACITY {
        attach(2, &mut group);
    }
    let pending = held_up(MemoryNetwork::attach(key(3), &mut group, None));
    assert!(!one.shut_down(&mut group));
    assert_eq!(one.network_changes(&mut group).unwrap().unwrap().len(), QUEUE_CAPACITY + 1);
    assert!(one.shut_down(&mut group));
    assert_eq!(attached(pending.resume(&mut group)).pub_key(), key(3));
    assert_eq!(one.network_changes(&mut group), Err(NetworkError::ShutDown));
}

#[test]
fn a_node_that_was_shut_down_fails_attachment() {
    let mut group: Group = MasterMap::with_id(1);
    let one = attach(1, &mut group);
    one.shut_down(&mut group);
    assert!(matches!(
        MemoryNetwork::attach(key(2), &mut group, None),
        Err(NetworkError::CouldNotDeliver)
    ));
    assert_eq!(one.known_nodes(&group), vec![key(1)]);
}

#[test]
fn a_key_leads_to_the_node_that_was_attached_last() {
    let mut group: Group = MasterMap::with_id(1);
    let old = attach(1, &mut group);
    let new = attach(1, &mut group);
    assert_eq!(old.network_changes(&mut group).unwrap().unwrap().len(), 1);
    assert_eq!(old.known_nodes(&group), vec![key(1)]);
    assert!(is_done(&old.message_node(&mut group, vec![1], key(1))));
    work(&old, &mut group);
    work(&new, &mut group);
    assert_eq!(old.next_direct(&mut group), Ok(None));
    assert_eq!(new.next_direct(&mut group), Ok(Some(vec![1])));
}

#[test]
fn groups_have_random_numbers() {
    let first: Group = MasterMap::new();
    let second: Group = MasterMap::new();
    let third: Group = MasterMap::new();
    assert!(first.id() != second.id() || second.id() != third.id());
    let fixed: Group = MasterMap::with_id(12);
    assert_eq!(fixed.id(), 12);
}

#[test]
fn random_keys_keep_their_nonce() {
    let keys: Vec<PubKey> = (0..4).map(|_| PubKey::random(77)).collect();
    assert!(keys.iter().all(|key| key.nonce == 77));
    assert!(keys.iter().any(|key| key.share != keys[0].share));
}

#[test]
fn handles_can_be_copied() {
    let mut group: Group = MasterMap::with_id(1);
    let one = attach(1, &mut group);
    let copy = one.clone();
    assert!(is_done(&copy.message_node(&mut group, vec![4], key(1))));
    work(&copy, &mut group);
    assert_eq!(one.next_direct(&mut group), Ok(Some(vec![4])));
}
