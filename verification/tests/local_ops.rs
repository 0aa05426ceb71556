use crdt::block::Content;
use crdt::doc::Doc;

fn content(s: &str) -> Content {
    Content { content: s.to_string() }
}

#[test]
fn local_insert_single() {
    let mut doc = Doc::new("text".to_string(), 1);
    doc.insert_local(content("1"), 0);
    assert_eq!(doc.to_string(), "1".to_string());
    doc.insert_local(content("2"), 1);
    assert_eq!(doc.to_string(), "12".to_string());
    doc.insert_local(content("3"), 10);
    assert_eq!(doc.to_string(), "123".to_string());
    doc.insert_local(content("4"), 1);
    assert_eq!(doc.to_string(), "1423".to_string());
}

#[test]
fn local_insert_in_between() {
    let mut doc = Doc::new("text".to_string(), 1);
    doc.insert_local(content("a"), 0);
    assert_eq!(doc.to_string(), "a".to_string());
    doc.insert_local(content("b"), 1);
    assert_eq!(doc.to_string(), "ab".to_string());
    doc.insert_local(content("1"), 1);
    assert_eq!(doc.to_string(), "a1b".to_string());
}

#[test]
fn local_insert_multiple() {
    let mut doc = Doc::new("text".to_string(), 1);
    doc.insert_local(content("123"), 0);
    assert_eq!(doc.to_string(), "123".to_string());
    doc.insert_local(content("45"), 1);
    assert_eq!(doc.to_string(), "14523".to_string());
    doc.insert_local(content("6"), 10);
    assert_eq!(doc.to_string(), "145236".to_string());
    doc.insert_local(content("789"), 4);
    assert_eq!(doc.to_string(), "145278936".to_string());
}

#[test]
fn local_insert_at_begin() {
    let mut doc = Doc::new("text".to_string(), 1);
    doc.insert_local(content("1"), 0);
    assert_eq!(doc.to_string(), "1".to_string());
    doc.insert_local(content("2"), 0);
    assert_eq!(doc.to_string(), "21".to_string());
}

#[test]
fn local_delete_all() {
    let mut doc = Doc::new("text".to_string(), 1);
    doc.insert_local(content("123"), 0);
    assert_eq!(doc.to_string(), "123".to_string());
    doc.delete_local(0, 3);
    assert_eq!(doc.to_string(), "".to_string());
}

#[test]
fn local_delete_block_beg_end() {
    let mut doc = Doc::new("text".to_string(), 1);
    doc.insert_local(content("12345"), 0);
    assert_eq!(doc.to_string(), "12345".to_string());
    doc.delete_local(0, 3);
    assert_eq!(doc.to_string(), "45".to_string());
    doc.delete_local(1, 1);
    assert_eq!(doc.to_string(), "4".to_string());
    doc.delete_local(2, 3);
    assert_eq!(doc.to_string(), "4".to_string());
    doc.insert_local(content("567"), 1);
    assert_eq!(doc.to_string(), "4567".to_string());
    doc.delete_local(2, 10);
    assert_eq!(doc.to_string(), "45".to_string());
}

#[test]
fn local_delete_across_blocks() {
    let mut doc = Doc::new("text".to_string(), 1);
    doc.insert_local(content("123"), 0);
    assert_eq!(doc.to_string(), "123".to_string());
    doc.insert_local(content("456"), 3);
    assert_eq!(doc.to_string(), "123456".to_string());
    doc.delete_local(2, 2);
    assert_eq!(doc.to_string(), "1256".to_string());
}

#[test]
fn local_delete_across_blocks_hard() {
    let mut doc = Doc::new("text".to_string(), 1);
    doc.insert_local(content("123456"), 0);
    assert_eq!(doc.to_string(), "123456".to_string());
    doc.insert_local(content("aabbcc"), 0);
    assert_eq!(doc.to_string(), "aabbcc123456".to_string());
    doc.insert_local(content("AABBDD"), 1);
    assert_eq!(doc.to_string(), "aAABBDDabbcc123456".to_string());
    doc.delete_local(0, 14);
    assert_eq!(doc.to_string(), "3456".to_string());
}

#[test]
fn squash_keeps_rendered_string() {
    let mut doc = Doc::new("text".to_string(), 1);
    doc.insert_local(content("ab"), 0);
    doc.insert_local(content("cd"), 2);
    assert_eq!(doc.to_string(), "abcd".to_string());
    // Nothing synchronized yet: the neighbours may merge.
    doc.block_store.squash(crdt::BlockID::new(1, 2), None);
    assert_eq!(doc.to_string(), "abcd".to_string());
    // A peer has observed everything: nothing may merge.
    let mut doc2 = Doc::new("text".to_string(), 1);
    doc2.insert_local(content("ab"), 0);
    doc2.insert_local(content("cd"), 2);
    doc2.block_store.squash(crdt::BlockID::new(1, 2), Some(4));
    assert_eq!(doc2.to_string(), "abcd".to_string());
}
