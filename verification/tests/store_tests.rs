use mkvs::cas::Cas;
use mkvs::node::Node;
use mkvs::store::CASPatriciaTrie;
use mkvs::store::KeyError;
use mkvs::nibble::bytes_to_nibbles;
use mkvs::nibble::common_prefix_len;

#[test]
fn nibbles_of_bytes() {
    assert_eq!(bytes_to_nibbles(&[0xab, 0x09]), vec![0x0a, 0x0b, 0x00, 0x09]);
    assert_eq!(bytes_to_nibbles(&[]), Vec::<u8>::new());
}

#[test]
fn common_prefix_of_paths() {
    assert_eq!(common_prefix_len(&[1, 2, 3], &[1, 2, 4]), 2);
    assert_eq!(common_prefix_len(&[1, 2], &[1, 2, 4]), 2);
    assert_eq!(common_prefix_len(&[], &[1]), 0);
    assert_eq!(common_prefix_len(&[5], &[5]), 1);
}

#[test]
fn empty_store_reads_nothing() {
    let store = CASPatriciaTrie::empty(Cas::new());
    assert_eq!(store.get(b"anything"), None);
    assert_eq!(store.get(b""), None);
}

#[test]
fn commit_on_empty_buffer_keeps_root() {
    let mut store = CASPatriciaTrie::empty(Cas::new());
    let (_, r0) = store.commit().unwrap();
    assert_eq!(r0, Vec::<u8>::new());
    store.insert(b"a", b"1");
    let (_, r1) = store.commit().unwrap();
    let (_, r2) = store.commit().unwrap();
    assert_eq!(r1, r2);
}

#[test]
fn insert_commit_get_round_trip() {
    let mut store = CASPatriciaTrie::empty(Cas::new());
    assert_eq!(store.insert(b"a", b"1"), None);
    assert_eq!(store.insert(b"b", b"2"), None);
    let (_, r1) = store.commit().unwrap();
    assert_eq!(store.get(b"a"), Some(b"1".to_vec()));
    assert_eq!(store.get(b"b"), Some(b"2".to_vec()));
    assert_eq!(store.get(b"c"), None);
    assert_eq!(store.remove(b"a"), Some(b"1".to_vec()));
    let (_, r2) = store.commit().unwrap();
    assert_eq!(store.get(b"a"), None);
    assert_eq!(store.get(b"b"), Some(b"2".to_vec()));
    assert_ne!(r1, r2);
}

#[test]
fn pending_reads_and_previous_values() {
    let mut store = CASPatriciaTrie::empty(Cas::new());
    assert_eq!(store.insert(b"k", b"v1"), None);
    assert_eq!(store.get(b"k"), Some(b"v1".to_vec()));
    assert_eq!(store.insert(b"k", b"v2"), Some(b"v1".to_vec()));
    store.commit().unwrap();
    assert_eq!(store.get(b"k"), Some(b"v2".to_vec()));
}

#[test]
fn rollback_discards_pending() {
    let mut store = CASPatriciaTrie::empty(Cas::new());
    store.insert(b"a", b"1");
    store.commit().unwrap();
    store.insert(b"a", b"2");
    store.insert(b"b", b"9");
    store.remove(b"a");
    store.rollback();
    assert_eq!(store.get(b"a"), Some(b"1".to_vec()));
    assert_eq!(store.get(b"b"), None);
    // safe on an empty buffer too
    store.rollback();
    assert_eq!(store.get(b"a"), Some(b"1".to_vec()));
}

#[test]
fn commit_is_order_independent() {
    let mut s1 = CASPatriciaTrie::empty(Cas::new());
    s1.insert(b"alpha", b"1");
    s1.insert(b"beta", b"2");
    s1.insert(b"al", b"3");
    s1.remove(b"missing");
    let (_, r1) = s1.commit().unwrap();

    let mut s2 = CASPatriciaTrie::empty(Cas::new());
    s2.remove(b"missing");
    s2.insert(b"al", b"3");
    s2.insert(b"beta", b"2");
    s2.insert(b"alpha", b"1");
    let (_, r2) = s2.commit().unwrap();
    assert_eq!(r1, r2);

    // removals interleaved in different orders settle to the same root too
    let mut s3 = CASPatriciaTrie::empty(Cas::new());
    s3.insert(b"alpha", b"0");
    s3.commit().unwrap();
    s3.insert(b"alpha", b"1");
    s3.insert(b"beta", b"2");
    s3.insert(b"al", b"3");
    let (_, r3) = s3.commit().unwrap();
    assert_eq!(r1, r3);
}

#[test]
fn put_node_is_idempotent() {
    let mut cas = Cas::new();
    let n1 = Node::Leaf { path: vec![1, 2], value: b"x".to_vec() };
    let n2 = Node::Leaf { path: vec![1, 2], value: b"x".to_vec() };
    let d1 = cas.put_node(n1).unwrap();
    let d2 = cas.put_node(n2).unwrap();
    assert_eq!(d1, d2);
    assert_eq!(d1.len(), 32);
    let other = Node::Leaf { path: vec![1, 2], value: b"y".to_vec() };
    let d3 = cas.put_node(other).unwrap();
    assert_ne!(d1, d3);
}

fn assert_canonical(cas: &Cas, digest: &[u8], under_extension: bool) {
    match cas.get_node(digest).expect("a referenced node must be stored") {
        Node::Leaf { .. } => {}
        Node::Extension { path, child } => {
            assert!(!path.is_empty(), "an extension must consume nibbles");
            assert!(!under_extension, "no two adjacent extensions may remain");
            assert_canonical(cas, child.as_slice(), true);
        }
        Node::Branch { slots, value } => {
            let children = slots.iter().filter(|s| s.is_some()).count();
            assert!(
                children >= 2 || (children == 1 && value.is_some()),
                "no branch may keep a single child without a value"
            );
            for slot in slots.iter().flatten() {
                assert_canonical(cas, slot.as_slice(), false);
            }
        }
    }
}

#[test]
fn trie_stays_canonical() {
    let mut store = CASPatriciaTrie::empty(Cas::new());
    let keys: [&[u8]; 7] = [b"a", b"ab", b"abc", b"b", b"ba", b"", b"abd"];
    for (i, k) in keys.iter().enumerate() {
        store.insert(k, &[i as u8]);
    }
    let (_, r1) = store.commit().unwrap();
    assert_canonical(store.backend_store(), r1.as_slice(), false);
    store.remove(b"ab");
    store.remove(b"ba");
    store.remove(b"");
    let (_, r2) = store.commit().unwrap();
    assert_canonical(store.backend_store(), r2.as_slice(), false);
    for k in [b"a" as &[u8], b"abc", b"b", b"abd"] {
        assert!(store.get(k).is_some());
    }
    for k in [b"ab" as &[u8], b"ba", b""] {
        assert!(store.get(k).is_none());
    }
}

#[test]
fn removing_to_empty_returns_empty_root() {
    let mut store = CASPatriciaTrie::empty(Cas::new());
    store.insert(b"only", b"1");
    store.commit().unwrap();
    store.remove(b"only");
    let (_, r) = store.commit().unwrap();
    assert_eq!(r, Vec::<u8>::new());
    assert_eq!(store.get(b"only"), None);
}

#[test]
fn encryption_masks_contents() {
    let key1 = [1u8; 32];
    let key2 = [2u8; 32];
    let nonce = [7u8; 15];

    let mut s1 = CASPatriciaTrie::empty(Cas::new());
    s1.set_encryption_key(Some(&key1), Some(&nonce)).unwrap();
    s1.insert(b"k", b"secret");
    let (_, r1) = s1.commit().unwrap();
    assert_eq!(s1.get(b"k"), Some(b"secret".to_vec()));

    let mut s2 = CASPatriciaTrie::empty(Cas::new());
    s2.set_encryption_key(Some(&key2), Some(&nonce)).unwrap();
    s2.insert(b"k", b"secret");
    let (_, r2) = s2.commit().unwrap();
    assert_ne!(r1, r2);

    // reading with the wrong key yields absence, never a wrong value
    s1.set_encryption_key(Some(&key2), Some(&nonce)).unwrap();
    assert_eq!(s1.get(b"k"), None);
    s1.set_encryption_key(Some(&key1), Some(&nonce)).unwrap();
    assert_eq!(s1.get(b"k"), Some(b"secret".to_vec()));
}

#[test]
fn clearing_the_context_reads_ciphertext_as_absent() {
    let key = [3u8; 32];
    let nonce = [9u8; 15];
    let mut store = CASPatriciaTrie::empty(Cas::new());
    store.set_encryption_key(Some(&key), Some(&nonce)).unwrap();
    store.insert(b"k", b"v");
    store.commit().unwrap();
    store.set_encryption_key(None, None).unwrap();
    assert_eq!(store.get(b"k"), None);
}

#[test]
fn wrong_sized_key_material_is_refused() {
    let mut store = CASPatriciaTrie::empty(Cas::new());
    assert_eq!(store.set_encryption_key(Some(&[1u8; 16]), Some(&[0u8; 15])), Err(KeyError::WrongSize));
    assert_eq!(store.set_encryption_key(Some(&[1u8; 32]), Some(&[0u8; 8])), Err(KeyError::WrongSize));
    assert_eq!(store.set_encryption_key(Some(&[1u8; 32]), None), Err(KeyError::WrongSize));
    // longer material is truncated to the documented sizes
    assert_eq!(store.set_encryption_key(Some(&[1u8; 40]), Some(&[0u8; 20])), Ok(()));
}

#[test]
fn structural_sharing_keeps_old_roots_readable() {
    let mut store = CASPatriciaTrie::empty(Cas::new());
    store.insert(b"a", b"1");
    store.insert(b"b", b"2");
    let (_, r1) = store.commit().unwrap();
    store.insert(b"c", b"3");
    let (_, r2) = store.commit().unwrap();
    assert_ne!(r1, r2);
    // the old root's nodes are still present, byte-identical
    assert!(store.backend_store().get(r1.as_slice()).is_some());
    assert_canonical(store.backend_store(), r1.as_slice(), false);
}

#[test]
fn commit_produces_a_change_log() {
    let mut store = CASPatriciaTrie::empty(Cas::new());
    store.insert(b"a", b"1");
    store.remove(b"gone");
    let (log, _) = store.commit().unwrap();
    assert_eq!(log.len(), 2);
}

#[test]
fn split_cuts_a_path() {
    let (pre, suf) = mkvs::nibble::split(&[1, 2, 3, 4], 1);
    assert_eq!(pre, vec![1]);
    assert_eq!(suf, vec![2, 3, 4]);
    let (pre, suf) = mkvs::nibble::split(&[1, 2], 2);
    assert_eq!(pre, vec![1, 2]);
    assert_eq!(suf, Vec::<u8>::new());
}

#[test]
fn change_log_lists_applied_writes() {
    let mut store = CASPatriciaTrie::empty(Cas::new());
    store.insert(b"a", b"1");
    store.remove(b"gone");
    store.insert(b"a", b"2");
    let (log, _) = store.commit().unwrap();
    assert_eq!(log.len(), 3);
    assert_eq!(log[0].key, b"a".to_vec());
    assert_eq!(log[0].value, Some(b"1".to_vec()));
    assert_eq!(log[1].key, b"gone".to_vec());
    assert_eq!(log[1].value, None);
    assert_eq!(log[2].key, b"a".to_vec());
    assert_eq!(log[2].value, Some(b"2".to_vec()));
    assert_eq!(store.get(b"a"), Some(b"2".to_vec()));
}

#[test]
fn reopening_at_a_committed_root_reads_the_same_content() {
    let mut store = CASPatriciaTrie::empty(Cas::new());
    store.insert(b"a", b"1");
    store.insert(b"b", b"2");
    let (_, root) = store.commit().unwrap();
    let cas = store.into_backend();
    let reopened = CASPatriciaTrie::new(cas, Some(root));
    assert_eq!(reopened.get(b"a"), Some(b"1".to_vec()));
    assert_eq!(reopened.get(b"b"), Some(b"2".to_vec()));
    assert_eq!(reopened.get(b"c"), None);
}
