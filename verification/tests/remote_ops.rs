use crdt::block::{Block, BlockID, Content};
use crdt::doc::Doc;

fn content(s: &str) -> Content {
    Content { content: s.to_string() }
}

fn block(
    id: (u32, u32),
    left: Option<(u32, u32)>,
    right: Option<(u32, u32)>,
    deleted: bool,
    text: &str,
) -> Block {
    Block {
        id: BlockID { client: id.0, clock: id.1 },
        left_origin: left.map(|p| BlockID { client: p.0, clock: p.1 }),
        right_origin: right.map(|p| BlockID { client: p.0, clock: p.1 }),
        is_deleted: deleted,
        content: content(text),
    }
}

#[test]
#[allow(non_snake_case)]
fn remote_insert_None() {
    let mut doc1 = Doc::new("text".to_string(), 1);
    doc1.insert_local(content("1234567"), 0);
    let updates = vec![block((2, 100), None, None, false, "NEW2")];
    doc1.insert_remote(updates);
    assert_eq!(doc1.to_string(), "1234567NEW2".to_string());
}

#[test]
fn remote_insert_split() {
    let mut doc1 = Doc::new("text".to_string(), 1);
    doc1.insert_local(content("1234567"), 0);
    let updates = vec![block((2, 100), Some((1, 0)), Some((1, 2)), false, "NEW2")];
    doc1.insert_remote(updates);
    assert_eq!(doc1.to_string(), "12NEW234567".to_string());
}

#[test]
fn remote_insert_non_split() {
    let mut doc1 = Doc::new("text".to_string(), 1);
    doc1.insert_local(content("1234567"), 0);
    doc1.insert_local(content("aabbccdd"), 7);
    let updates = vec![block((2, 100), Some((1, 0)), Some((1, 7)), false, "NEW2")];
    doc1.insert_remote(updates);
    assert_eq!(doc1.to_string(), "1234567NEW2aabbccdd".to_string());
}

#[test]
fn remote_merge_conflict_insert() {
    let mut doc1 = Doc::new("text".to_string(), 1);
    doc1.insert_local(content("1234567"), 0);
    doc1.insert_local(content("aabbccdd"), 7);
    doc1.insert_remote(vec![block((2, 0), Some((1, 0)), Some((1, 7)), false, "NEW2")]);
    doc1.insert_remote(vec![block((14, 21), Some((1, 0)), Some((1, 7)), false, "FROM14")]);
    assert_eq!(doc1.to_string(), "1234567NEW2FROM14aabbccdd".to_string());
}

#[test]
fn remote_concurrent_inserts_converge_either_order() {
    // Two replicas that saw the same blocks in opposite orders render the
    // same string: the tie breaks on the block id.
    let b1 = block((2, 0), Some((1, 0)), Some((1, 7)), false, "NEW2");
    let b2 = block((14, 21), Some((1, 0)), Some((1, 7)), false, "FROM14");

    let mut doc_a = Doc::new("text".to_string(), 1);
    doc_a.insert_local(content("1234567"), 0);
    doc_a.insert_local(content("aabbccdd"), 7);
    doc_a.insert_remote(vec![b1.duplicate()]);
    doc_a.insert_remote(vec![b2.duplicate()]);

    let mut doc_b = Doc::new("text".to_string(), 1);
    doc_b.insert_local(content("1234567"), 0);
    doc_b.insert_local(content("aabbccdd"), 7);
    doc_b.insert_remote(vec![b2]);
    doc_b.insert_remote(vec![b1]);

    assert_eq!(doc_a.to_string(), doc_b.to_string());
    assert_eq!(doc_a.to_string(), "1234567NEW2FROM14aabbccdd".to_string());
}

#[test]
fn remote_delete_reverse_order() {
    // A delete that arrives before its insert waits in the buffer and lands
    // when the insert does: the block ends up present but tombstoned.
    let mut doc1 = Doc::new("text".to_string(), 1);
    doc1.insert_local(content("1234567"), 0);
    doc1.insert_local(content("aabbccdd"), 7);
    doc1.delete_remote(vec![block((14, 21), Some((1, 0)), Some((1, 7)), true, "NEW2")]);
    doc1.insert_remote(vec![block((14, 21), Some((1, 0)), Some((1, 7)), false, "FROM14")]);
    assert_eq!(doc1.to_string(), "1234567aabbccdd".to_string());
}

#[test]
fn remote_insert_applied_twice_changes_nothing() {
    let mut doc1 = Doc::new("text".to_string(), 1);
    doc1.insert_local(content("abc"), 0);
    let b = block((2, 0), None, None, false, "xyz");
    doc1.insert_remote(vec![b.duplicate()]);
    let once = doc1.to_string();
    doc1.insert_remote(vec![b]);
    assert_eq!(doc1.to_string(), once);
    assert_eq!(doc1.vector_clock.get(2), 3);
}

#[test]
fn remote_missing_anchor_defers() {
    let mut doc1 = Doc::new("text".to_string(), 1);
    doc1.insert_local(content("abc"), 0);
    // Anchored to a block that has not arrived: buffered, text unchanged.
    doc1.insert_remote(vec![block((2, 10), Some((9, 0)), None, false, "zz")]);
    assert_eq!(doc1.to_string(), "abc".to_string());
    // The anchor arrives; both now apply.
    doc1.insert_remote(vec![block((9, 0), None, None, false, "Q")]);
    assert_eq!(doc1.to_string(), "abcQzz".to_string());
}

#[test]
fn remote_own_echo_is_dropped() {
    // A replica's own blocks come back in every pull; they are recognized
    // and never buffered.
    let mut doc1 = Doc::new("text".to_string(), 1);
    doc1.insert_local(content("abc"), 0);
    // The echo of an own block: applied as a duplicate, nothing changes.
    doc1.insert_remote(vec![block((1, 0), None, None, false, "abc")]);
    assert_eq!(doc1.to_string(), "abc".to_string());
    assert_eq!(doc1.pending_updates.len(), 0);
    // A claimed own block that was never written locally is dropped, not
    // buffered.
    doc1.insert_remote(vec![block((1, 100), None, None, false, "zzz")]);
    assert_eq!(doc1.to_string(), "abc".to_string());
    assert_eq!(doc1.pending_updates.len(), 0);
}

#[test]
fn remote_delete_of_covered_target_tombstones_it() {
    let mut doc1 = Doc::new("text".to_string(), 1);
    doc1.insert_local(content("abcdef"), 0);
    // The delete names a clock inside the block: the block splits and the
    // suffix from that clock is tombstoned.
    doc1.delete_remote(vec![block((1, 2), None, None, true, "cdef")]);
    assert_eq!(doc1.to_string(), "ab".to_string());
}
