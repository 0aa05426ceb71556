use crdt::block::{Block, BlockID, Content};
use crdt::codec::{
    deserialize_updates, deserialize_vector_clock, serialize_updates, serialize_vector_clock,
};
use crdt::doc::{ClockEntry, Doc, VectorClock};
use crdt::sync_txn::{compute_diff, get_remote_updates, merge_peers};
use crdt::utils::Peer;

fn content(s: &str) -> Content {
    Content { content: s.to_string() }
}

#[test]
fn vector_clock_round_trip() {
    let vc = VectorClock {
        clock_map: vec![
            ClockEntry { client: 1, clock: 7 },
            ClockEntry { client: 14, clock: 0 },
            ClockEntry { client: 4294967295, clock: 4294967295 },
        ],
    };
    let wire = serialize_vector_clock(&vc);
    assert_eq!(wire, "{\"1\":7,\"14\":0,\"4294967295\":4294967295}".to_string());
    let back = deserialize_vector_clock(wire.as_str()).unwrap();
    assert_eq!(back.clock_map.len(), 3);
    assert_eq!(back.get(1), 7);
    assert_eq!(back.get(14), 0);
    assert_eq!(back.get(4294967295), 4294967295);
    assert_eq!(back.get(2), 0);
}

#[test]
fn empty_vector_clock_round_trip() {
    let vc = VectorClock { clock_map: vec![] };
    let wire = serialize_vector_clock(&vc);
    assert_eq!(wire, "{}".to_string());
    let back = deserialize_vector_clock(wire.as_str()).unwrap();
    assert_eq!(back.clock_map.len(), 0);
}

#[test]
fn malformed_vector_clock_is_rejected() {
    assert!(deserialize_vector_clock("").is_none());
    assert!(deserialize_vector_clock("{").is_none());
    assert!(deserialize_vector_clock("{\"01\":2}").is_none());
    assert!(deserialize_vector_clock("{\"1\":2}x").is_none());
    assert!(deserialize_vector_clock("{\"1\":2,\"1\":3}").is_none());
    assert!(deserialize_vector_clock("{\"1\":4294967296}").is_none());
}

#[test]
fn updates_round_trip() {
    let blocks = vec![
        Block {
            id: BlockID { client: 1, clock: 0 },
            left_origin: None,
            right_origin: Some(BlockID { client: 2, clock: 9 }),
            is_deleted: false,
            content: content("he said \"hi\\there\"\n"),
        },
        Block {
            id: BlockID { client: 2, clock: 9 },
            left_origin: Some(BlockID { client: 1, clock: 0 }),
            right_origin: None,
            is_deleted: true,
            content: content("tail"),
        },
    ];
    let wire = serialize_updates(&blocks);
    let back = deserialize_updates(wire.as_str()).unwrap();
    assert_eq!(back.len(), 2);
    assert_eq!(back[0].id, blocks[0].id);
    assert_eq!(back[0].left_origin, None);
    assert_eq!(back[0].right_origin, blocks[0].right_origin);
    assert!(!back[0].is_deleted);
    assert_eq!(back[0].content.content, blocks[0].content.content);
    assert_eq!(back[1].id, blocks[1].id);
    assert!(back[1].is_deleted);
    assert_eq!(back[1].content.content, "tail".to_string());
}

#[test]
fn empty_updates_round_trip() {
    let wire = serialize_updates(&vec![]);
    assert_eq!(wire, "[]".to_string());
    assert_eq!(deserialize_updates(wire.as_str()).unwrap().len(), 0);
}

#[test]
fn block_wire_form_is_stable_json() {
    let blocks = vec![Block {
        id: BlockID { client: 2, clock: 100 },
        left_origin: Some(BlockID { client: 1, clock: 0 }),
        right_origin: None,
        is_deleted: false,
        content: content("NEW2"),
    }];
    let wire = serialize_updates(&blocks);
    assert_eq!(
        wire,
        "[{\"id\":{\"client\":2,\"clock\":100},\"left_origin\":{\"client\":1,\"clock\":0},\"right_origin\":null,\"is_deleted\":false,\"content\":\"NEW2\"}]".to_string()
    );
}

#[test]
fn pull_serves_missing_blocks() {
    let mut doc = Doc::new("text".to_string(), 1);
    doc.insert_local(content("abc"), 0);
    doc.insert_local(content("de"), 3);
    // A peer that has seen nothing gets everything.
    let empty = serialize_vector_clock(&VectorClock { clock_map: vec![] });
    let out = get_remote_updates(&doc, empty.as_str()).unwrap();
    let all = deserialize_updates(out.as_str()).unwrap();
    assert_eq!(all.len(), 2);
    assert_eq!(all[0].id.clock, 0);
    assert_eq!(all[1].id.clock, 3);
    // A peer that is current gets nothing.
    let current = serialize_vector_clock(&doc.vector_clock);
    let out2 = get_remote_updates(&doc, current.as_str()).unwrap();
    assert_eq!(deserialize_updates(out2.as_str()).unwrap().len(), 0);
    // Garbage is refused.
    assert!(get_remote_updates(&doc, "nonsense").is_err());
}

#[test]
fn diff_feeds_a_fresh_replica() {
    let mut a = Doc::new("text".to_string(), 1);
    a.insert_local(content("hello "), 0);
    a.insert_local(content("world"), 6);
    let mut b = Doc::new("text".to_string(), 2);
    let diff = compute_diff(&a, &b.vector_clock);
    crdt::sync_txn::update_remote(&mut b, diff);
    assert_eq!(b.to_string(), a.to_string());
    // A deletion travels as the tombstoned block itself.
    a.delete_local(0, 6);
    let mut del = a.block_store.total_store.getList();
    del.retain(|blk| blk.is_deleted);
    crdt::sync_txn::update_remote(&mut b, del);
    assert_eq!(b.to_string(), a.to_string());
    assert_eq!(b.to_string(), "world".to_string());
}

#[test]
fn merge_peers_is_additive() {
    let mut local = vec![Peer { client_id: 1, ip_addr: "127.0.0.1:4001".to_string() }];
    let remote = vec![
        Peer { client_id: 1, ip_addr: "127.0.0.1:4001".to_string() },
        Peer { client_id: 2, ip_addr: "127.0.0.1:4002".to_string() },
    ];
    merge_peers(&mut local, &remote);
    assert_eq!(local.len(), 2);
    assert_eq!(local[0].client_id, 1);
    assert_eq!(local[1].client_id, 2);
    merge_peers(&mut local, &remote);
    assert_eq!(local.len(), 2);
}

#[test]
fn clock_tracks_log_lengths() {
    let mut doc = Doc::new("text".to_string(), 3);
    assert_eq!(doc.vector_clock.get(3), 0);
    doc.insert_local(content("12345"), 0);
    assert_eq!(doc.vector_clock.get(3), 5);
    doc.insert_local(content("xy"), 2);
    assert_eq!(doc.vector_clock.get(3), 7);
    // Deleting never moves the clock.
    doc.delete_local(0, 4);
    assert_eq!(doc.vector_clock.get(3), 7);
}

#[test]
fn vector_clock_ordering_is_pointwise() {
    let a = VectorClock { clock_map: vec![ClockEntry { client: 1, clock: 2 }] };
    let b = VectorClock {
        clock_map: vec![ClockEntry { client: 1, clock: 3 }, ClockEntry { client: 2, clock: 1 }],
    };
    assert!(a.le(&b));
    assert!(!b.le(&a));
    assert!(a.le(&a));
}

#[test]
fn peer_list_round_trip() {
    let peers = vec![
        Peer { client_id: 1, ip_addr: "127.0.0.1:4001".to_string() },
        Peer { client_id: 14, ip_addr: "127.0.0.1:4002".to_string() },
    ];
    let wire = crdt::codec::serialize_peers(&peers);
    assert_eq!(
        wire,
        "[{\"client_id\":1,\"ip_addr\":\"127.0.0.1:4001\"},{\"client_id\":14,\"ip_addr\":\"127.0.0.1:4002\"}]"
            .to_string()
    );
    let back = crdt::codec::deserialize_peers(wire.as_str()).unwrap();
    assert_eq!(back.len(), 2);
    assert_eq!(back[0].client_id, 1);
    assert_eq!(back[0].ip_addr, "127.0.0.1:4001".to_string());
    assert_eq!(back[1].client_id, 14);
    assert_eq!(back[1].ip_addr, "127.0.0.1:4002".to_string());
    let empty = crdt::codec::serialize_peers(&vec![]);
    assert_eq!(empty, "[]".to_string());
    assert_eq!(crdt::codec::deserialize_peers(empty.as_str()).unwrap().len(), 0);
    assert!(crdt::codec::deserialize_peers("[{]").is_none());
}

#[test]
fn diff_is_grouped_in_clock_order() {
    let mut a = Doc::new("text".to_string(), 1);
    a.insert_local(content("abc"), 0);
    a.insert_local(content("de"), 0);
    let empty = VectorClock { clock_map: vec![] };
    let diff = compute_diff(&a, &empty);
    assert_eq!(diff.len(), 2);
    assert!(diff[0].id.clock < diff[1].id.clock);
}
