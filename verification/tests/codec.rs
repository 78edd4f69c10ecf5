use bincode::Options;
use memory_network::{
    decode, encode, Delivery, DummyReliability, EncodeError, Lane, MasterMap, MemoryNetwork,
    Progress, PubKey, MESSAGE_LIMIT,
};

fn key(nonce: u64) -> PubKey {
    PubKey { nonce, share: 7 }
}

#[test]
fn short_messages_have_a_header_of_one_byte() {
    assert_eq!(encode(&vec![]), Ok(vec![0]));
    assert_eq!(encode(&vec![9, 8]), Ok(vec![2, 9, 8]));
    let mut expected = vec![250u8];
    expected.extend(vec![1u8; 250]);
    assert_eq!(encode(&vec![1; 250]), Ok(expected));
}

#[test]
fn longer_messages_have_a_header_of_three_bytes() {
    let mut expected = vec![251u8, 251, 0];
    expected.extend(vec![1u8; 251]);
    assert_eq!(encode(&vec![1; 251]), Ok(expected));
    let mut expected = vec![251u8, 0x2c, 0x01];
    expected.extend(vec![1u8; 300]);
    assert_eq!(encode(&vec![1; 300]), Ok(expected));
}

#[test]
fn the_limit_is_exact() {
    assert_eq!(MESSAGE_LIMIT, 16_384);
    assert_eq!(encode(&vec![1; 16_381]).map(|bytes| bytes.len()), Ok(16_384));
    assert_eq!(encode(&vec![1; 16_382]), Err(EncodeError));
    assert_eq!(encode(&vec![1; 70_000]), Err(EncodeError));
}

#[test]
fn what_is_written_is_read_back() {
    for length in [0usize, 1, 249, 250, 251, 252, 255, 256, 1_000, 16_381] {
        let message: Vec<u8> = (0..length).map(|i| (i % 251) as u8).collect();
        let bytes = encode(&message).unwrap();
        assert_eq!(decode(&bytes), Some(message));
    }
}

#[test]
fn wider_headers_are_read_too() {
    assert_eq!(decode(&vec![251, 1, 0, 7]), Some(vec![7]));
    assert_eq!(decode(&vec![252, 1, 0, 0, 0, 7]), Some(vec![7]));
    assert_eq!(decode(&vec![253, 1, 0, 0, 0, 0, 0, 0, 0, 7]), Some(vec![7]));
    let mut long = vec![252u8, 0x70, 0x11, 0x01, 0];
    long.extend(vec![3u8; 70_000]);
    assert_eq!(decode(&long), Some(vec![3; 70_000]));
}

#[test]
fn other_bytes_are_no_message() {
    assert_eq!(decode(&vec![]), None);
    assert_eq!(decode(&vec![1]), None);
    assert_eq!(decode(&vec![1, 2, 3]), None);
    assert_eq!(decode(&vec![251, 1]), None);
    assert_eq!(decode(&vec![253, 255, 255, 255, 255, 255, 255, 255, 255]), None);
    assert_eq!(decode(&vec![254, 0, 0]), None);
    assert_eq!(decode(&vec![255]), None);
}

#[test]
fn bytes_that_are_no_message_are_skipped() {
    let mut group: MasterMap<DummyReliability> = MasterMap::with_id(1);
    let one = MemoryNetwork::new(key(1), &mut group, None);
    let broken = one.message_node_encoded(&mut group, Ok(vec![255]), key(1));
    assert!(matches!(broken, Ok(Delivery::Done)));
    let sound = one.message_node_encoded(&mut group, Ok(vec![1, 42]), key(1));
    assert!(matches!(sound, Ok(Delivery::Done)));
    assert_eq!(one.step(&mut group, Lane::Direct), Progress::Skipped(Lane::Direct));
    assert_eq!(one.step(&mut group, Lane::Direct), Progress::Delivered(Lane::Direct));
    assert_eq!(one.direct_queue(&mut group), Ok(Some(vec![vec![42]])));
}

#[test]
fn structured_messages_travel_with_a_decoder_of_the_caller() {
    let options = bincode::DefaultOptions::new().with_limit(MESSAGE_LIMIT);
    let mut group: MasterMap<DummyReliability> = MasterMap::with_id(1);
    let one = MemoryNetwork::new(key(1), &mut group, None);
    let message: (u64, String) = (70_000, String::from("hello"));
    let bytes = options.serialize(&message).unwrap();
    let sent = one.broadcast_encoded(&mut group, Ok(bytes.clone()));
    assert!(matches!(sent, Ok(Delivery::Done)));
    let broken = one.broadcast_encoded(&mut group, Ok(vec![255, 255]));
    assert!(matches!(broken, Ok(Delivery::Done)));
    let decoder = |bytes: &Vec<u8>| match options.deserialize::<(u64, String)>(bytes) {
        Ok(_) => Some(bytes.clone()),
        Err(_) => None,
    };
    assert_eq!(
        one.step_with(&mut group, Lane::Direct, &decoder),
        Progress::Delivered(Lane::Broadcast)
    );
    assert_eq!(
        one.step_with(&mut group, Lane::Direct, &decoder),
        Progress::Skipped(Lane::Broadcast)
    );
    let received = one.next_broadcast(&mut group).unwrap().unwrap();
    assert_eq!(options.deserialize::<(u64, String)>(&received).unwrap(), message);
}
