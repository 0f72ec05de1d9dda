use git_cuda_agent::crdt::{node_precedes, SmartCrdt};

#[test]
fn test_crdt_write_read() {
    let mut crdt = SmartCrdt::new("node-a");
    assert!(crdt.write("key1", "value1"));
    assert_eq!(crdt.read("key1").unwrap().data, "value1");
}

#[test]
fn test_crdt_merge() {
    let mut a = SmartCrdt::new("node-a");
    let mut b = SmartCrdt::new("node-b");
    a.write("shared", "a-value");
    b.write("shared", "b-value"); // b has higher clock
    a.merge(&b);
    assert_eq!(a.read("shared").unwrap().data, "b-value"); // LWW
}

#[test]
fn test_crdt_delete() {
    let mut crdt = SmartCrdt::new("node-a");
    crdt.write("temp", "data");
    crdt.delete("temp");
    assert!(crdt.read("temp").is_none());
}

#[test]
fn new_register_is_empty() {
    let crdt = SmartCrdt::new("n1");
    assert_eq!(crdt.clock, 0);
    assert_eq!(crdt.node_id, "n1");
    assert!(crdt.values.is_empty());
    assert!(crdt.read("anything").is_none());
}

#[test]
fn write_stamps_value_and_advances_clock() {
    let mut crdt = SmartCrdt::new("n1");
    assert!(crdt.write("k", "v1"));
    assert!(crdt.write("k", "v2"));
    assert_eq!(crdt.clock, 2);
    let v = crdt.read("k").unwrap();
    assert_eq!(v.data, "v2");
    assert_eq!(v.version, 2);
    assert_eq!(v.node_id, "n1");
    assert!(!v.tombstone);
    assert_eq!(crdt.values.len(), 1);
}

#[test]
fn write_rejected_when_stored_version_is_newer() {
    let mut remote = SmartCrdt::new("remote");
    for _ in 0..5 {
        remote.write("k", "remote");
    }
    let mut local = SmartCrdt::new("local");
    local.merge(&remote);
    // local clock becomes 1, stored version is 5: the write is refused
    assert!(!local.write("k", "mine"));
    assert_eq!(local.clock, 1);
    assert_eq!(local.read("k").unwrap().data, "remote");
}

#[test]
fn delete_absent_key_changes_nothing() {
    let mut crdt = SmartCrdt::new("n1");
    assert!(!crdt.delete("missing"));
    assert_eq!(crdt.clock, 0);
}

#[test]
fn delete_keeps_data_and_stamps_tombstone() {
    let mut crdt = SmartCrdt::new("n1");
    crdt.write("k", "v");
    assert!(crdt.delete("k"));
    assert_eq!(crdt.clock, 2);
    let (key, v) = &crdt.values[0];
    assert_eq!(key, "k");
    assert!(v.tombstone);
    assert_eq!(v.version, 2);
    assert_eq!(v.data, "v");
    // deleting again still reports the key as present
    assert!(crdt.delete("k"));
    assert_eq!(crdt.clock, 3);
}

#[test]
fn write_after_delete_is_accepted() {
    let mut crdt = SmartCrdt::new("n1");
    crdt.write("k", "v");
    crdt.delete("k");
    assert!(crdt.write("k", "again"));
    assert_eq!(crdt.read("k").unwrap().data, "again");
}

#[test]
fn merge_keeps_own_newer_value() {
    let mut a = SmartCrdt::new("node-a");
    a.write("k", "old");
    a.write("k", "newer");
    let mut b = SmartCrdt::new("node-b");
    b.write("k", "b");
    a.merge(&b);
    assert_eq!(a.read("k").unwrap().data, "newer");
    assert_eq!(a.clock, 2);
    assert_eq!(a.node_id, "node-a");
}

#[test]
fn merge_brings_in_missing_keys_and_tombstones() {
    let mut a = SmartCrdt::new("node-a");
    a.write("mine", "1");
    let mut b = SmartCrdt::new("node-b");
    b.write("theirs", "2");
    b.write("gone", "3");
    b.delete("gone");
    a.merge(&b);
    assert_eq!(a.read("mine").unwrap().data, "1");
    assert_eq!(a.read("theirs").unwrap().data, "2");
    assert!(a.read("gone").is_none());
    assert_eq!(a.values.len(), 3);
}

#[test]
fn merge_is_commutative_on_example() {
    let mut a = SmartCrdt::new("node-a");
    let mut b = SmartCrdt::new("node-b");
    a.write("x", "ax");
    a.write("y", "ay");
    b.write("y", "by");
    b.write("z", "bz");
    let mut ab = SmartCrdt::new("node-a");
    ab.merge(&a);
    ab.merge(&b);
    let mut ba = SmartCrdt::new("node-b");
    ba.merge(&b);
    ba.merge(&a);
    for key in ["x", "y", "z"] {
        assert_eq!(ab.read(key).unwrap().data, ba.read(key).unwrap().data);
        assert_eq!(ab.read(key).unwrap().version, ba.read(key).unwrap().version);
    }
    // a wrote "y" at version 2, b at version 1
    assert_eq!(ab.read("y").unwrap().data, "ay");
}

#[test]
fn merge_twice_is_merge_once() {
    let mut a = SmartCrdt::new("node-a");
    a.write("k", "a");
    let mut b = SmartCrdt::new("node-b");
    b.write("k", "b");
    b.write("j", "b2");
    a.merge(&b);
    let once: Vec<(String, String, u64)> =
        a.values.iter().map(|(k, v)| (k.clone(), v.data.clone(), v.version)).collect();
    a.merge(&b);
    let twice: Vec<(String, String, u64)> =
        a.values.iter().map(|(k, v)| (k.clone(), v.data.clone(), v.version)).collect();
    assert_eq!(once, twice);
}

#[test]
fn merge_with_self_copy_changes_nothing() {
    let mut a = SmartCrdt::new("node-a");
    a.write("k", "v");
    let mut copy = SmartCrdt::new("node-a");
    copy.merge(&a);
    a.merge(&copy);
    assert_eq!(a.values.len(), 1);
    assert_eq!(a.read("k").unwrap().data, "v");
}

#[test]
fn node_order_is_lexicographic() {
    let s = |x: &str| x.to_string();
    assert!(node_precedes(&s("node-a"), &s("node-b")));
    assert!(!node_precedes(&s("node-b"), &s("node-a")));
    assert!(!node_precedes(&s("same"), &s("same")));
    assert!(node_precedes(&s("ab"), &s("abc")));
    assert!(!node_precedes(&s("abc"), &s("ab")));
    assert!(node_precedes(&s(""), &s("a")));
    assert!(node_precedes(&s("Z"), &s("a")));
}
