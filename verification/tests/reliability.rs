use memory_network::{
    draw_fate, Delivery, DummyReliability, Fate, Lane, MasterMap, MemoryNetwork,
    MemoryNetworkInner, NetworkError, NetworkReliability, Progress, PubKey, QUEUE_CAPACITY,
};

struct Lossy;

impl NetworkReliability for Lossy {
    fn sample_keep(&self) -> bool {
        false
    }
    fn sample_delay(&self) -> u128 {
        1
    }
}

struct Slow;

impl NetworkReliability for Slow {
    fn sample_keep(&self) -> bool {
        true
    }
    fn sample_delay(&self) -> u128 {
        1_500
    }
}

fn key(nonce: u64) -> PubKey {
    PubKey { nonce, share: 7 }
}

fn send<R>(network: &MemoryNetwork, group: &mut MasterMap<R>, message: Vec<u8>) {
    let res = network.message_node(group, message, network.pub_key());
    assert!(matches!(res, Ok(Delivery::Done)));
}

fn ticket_of(progress: Progress) -> usize {
    match progress {
        Progress::Scheduled { ticket, .. } => ticket,
        _ => panic!("no message was set aside"),
    }
}

#[test]
fn the_dummy_model_keeps_everything_at_once() {
    assert!(DummyReliability {}.sample_keep());
    assert_eq!(DummyReliability {}.sample_delay(), 0);
    assert_eq!(draw_fate(&Some(DummyReliability {})), Fate::Delayed(0));
    assert_eq!(draw_fate::<DummyReliability>(&None), Fate::InOrder);
    let mut group = MasterMap::with_id(1);
    let one = MemoryNetwork::new(key(1), &mut group, Some(DummyReliability {}));
    send(&one, &mut group, vec![1]);
    let progress = one.step(&mut group, Lane::Direct);
    assert!(matches!(
        progress,
        Progress::Scheduled { lane: Lane::Direct, pause: None, .. }
    ));
    assert_eq!(one.next_direct(&mut group), Ok(None));
    let ticket = ticket_of(progress);
    assert_eq!(one.release(&mut group, ticket), Some(Progress::Delivered(Lane::Direct)));
    assert_eq!(one.release(&mut group, ticket), None);
    assert_eq!(one.next_direct(&mut group), Ok(Some(vec![1])));
}

#[test]
fn a_lossy_model_drops_messages() {
    assert_eq!(draw_fate(&Some(Lossy)), Fate::Lost);
    let mut group = MasterMap::with_id(1);
    let one = MemoryNetwork::new(key(1), &mut group, Some(Lossy));
    send(&one, &mut group, vec![1]);
    assert_eq!(one.step(&mut group, Lane::Direct), Progress::Dropped(Lane::Direct));
    assert_eq!(one.step(&mut group, Lane::Direct), Progress::Idle);
    assert_eq!(one.next_direct(&mut group), Ok(None));
}

#[test]
fn a_slow_model_holds_messages_back_and_may_reorder_them() {
    let mut group = MasterMap::with_id(1);
    let one = MemoryNetwork::new(key(1), &mut group, Some(Slow));
    send(&one, &mut group, vec![1]);
    send(&one, &mut group, vec![2]);
    let first = one.step(&mut group, Lane::Direct);
    assert!(matches!(first, Progress::Scheduled { pause: Some(1_500), .. }));
    let second = one.step(&mut group, Lane::Direct);
    assert_ne!(ticket_of(first), ticket_of(second));
    assert_eq!(one.release(&mut group, 999), None);
    assert!(one.release(&mut group, ticket_of(second)).is_some());
    assert!(one.release(&mut group, ticket_of(first)).is_some());
    assert_eq!(one.direct_queue(&mut group), Ok(Some(vec![vec![2], vec![1]])));
}

#[test]
fn an_output_stays_open_while_a_message_is_held_back() {
    let mut group = MasterMap::with_id(1);
    let one = MemoryNetwork::new(key(1), &mut group, Some(Slow));
    send(&one, &mut group, vec![1]);
    let ticket = ticket_of(one.step(&mut group, Lane::Direct));
    one.shut_down(&mut group);
    assert_eq!(one.step(&mut group, Lane::Direct), Progress::Stopped);
    assert_eq!(one.next_broadcast(&mut group), Err(NetworkError::ShutDown));
    assert_eq!(one.next_direct(&mut group), Ok(None));
    assert_eq!(one.release(&mut group, ticket), Some(Progress::Delivered(Lane::Direct)));
    assert_eq!(one.next_direct(&mut group), Ok(Some(vec![1])));
    assert_eq!(one.next_direct(&mut group), Err(NetworkError::ShutDown));
}

#[test]
fn what_was_set_aside_stands_in_line_behind_a_full_output() {
    let mut group = MasterMap::with_id(1);
    let one = MemoryNetwork::new(key(1), &mut group, Some(Slow));
    let mut tickets = Vec::new();
    for byte in 0..QUEUE_CAPACITY + 1 {
        send(&one, &mut group, vec![byte as u8]);
        tickets.push(ticket_of(one.step(&mut group, Lane::Direct)));
    }
    for ticket in &tickets[..QUEUE_CAPACITY] {
        assert_eq!(one.release(&mut group, *ticket), Some(Progress::Delivered(Lane::Direct)));
    }
    let last = tickets[QUEUE_CAPACITY];
    assert_eq!(one.release(&mut group, last), Some(Progress::Blocked(Lane::Direct)));
    assert_eq!(one.release(&mut group, last), None);
    // The background work is not held up by it.
    assert_eq!(one.step(&mut group, Lane::Direct), Progress::Idle);
    let list = one.direct_queue(&mut group).unwrap().unwrap();
    assert_eq!(list.len(), QUEUE_CAPACITY + 1);
    assert_eq!(list[QUEUE_CAPACITY], vec![QUEUE_CAPACITY as u8]);
    assert_eq!(one.direct_queue(&mut group), Ok(None));
}

#[test]
fn the_fate_of_a_message_decides() {
    let mut plain: MemoryNetworkInner<Slow> = MemoryNetworkInner::new(key(1), None);
    assert_eq!(
        plain.dispose(Lane::Broadcast, vec![5], Fate::InOrder),
        Progress::Delivered(Lane::Broadcast)
    );
    assert_eq!(plain.receive(Lane::Broadcast), Ok(Some(vec![5])));
    let mut slow = MemoryNetworkInner::new(key(1), Some(Slow));
    assert_eq!(slow.dispose(Lane::Direct, vec![6], Fate::Lost), Progress::Dropped(Lane::Direct));
    let progress = slow.dispose(Lane::Direct, vec![6], Fate::Delayed(3));
    assert!(matches!(progress, Progress::Scheduled { pause: Some(3), .. }));
    let again = slow.dispose(Lane::Direct, vec![7], Fate::Delayed(0));
    assert!(matches!(again, Progress::Scheduled { pause: None, .. }));
    assert!(slow.release(ticket_of(progress)).is_some());
    assert_eq!(slow.receive(Lane::Direct), Ok(Some(vec![6])));
}
