use k_bucket::Arbiter;
use k_bucket::Bucket;
use k_bucket::GetKey;

#[derive(Debug, Clone, PartialEq)]
struct Item {
    key: [u8; 2],
    version: u32,
}

fn item(a: u8, b: u8, version: u32) -> Item {
    Item { key: [a, b], version }
}

impl GetKey<[u8; 2]> for Item {
    fn get_key(&self) -> [u8; 2] {
        self.key
    }
}

impl Arbiter for Item {
    fn arbitrate(&self, candidate: &Self) -> bool {
        candidate.version > self.version
    }
}

#[derive(Debug)]
struct Value {
    value: u16,
}

impl GetKey<[u8; 2]> for Value {
    fn get_key(&self) -> [u8; 2] {
        [self.value as u8, (self.value >> 8) as u8]
    }
}

impl Arbiter for Value {
    fn arbitrate(&self, candidate: &Self) -> bool {
        self.value > candidate.value
    }
}

#[test]
fn new_table_is_empty() {
    let b: Bucket<[u8; 2], Item, 3> = Bucket::new([0, 0]);
    assert_eq!(b.count(), 0);
    assert!(b.get(&[0, 0]).is_none());
    assert!(b.closest(&[0, 0], 4).is_empty());
    assert_eq!(b.leaves(), vec![(0, true)]);
}

#[test]
fn put_then_get_round_trip() {
    let mut b: Bucket<[u8; 2], Item, 3> = Bucket::new([0, 0]);
    b.put(item(0x12, 0x34, 1));
    let found = b.get(&[0x12, 0x34]).unwrap();
    assert_eq!(found.get_key(), [0x12, 0x34]);
    assert_eq!(found.version, 1);
    assert!(b.get(&[0x12, 0x35]).is_none());
    assert_eq!(b.count(), 1);
}

#[test]
fn put_same_item_twice_changes_nothing() {
    let mut b: Bucket<[u8; 2], Item, 3> = Bucket::new([0, 0]);
    b.put(item(0x01, 0x00, 5));
    b.put(item(0x02, 0x00, 5));
    assert_eq!(b.count(), 2);
    b.put(item(0x01, 0x00, 5));
    assert_eq!(b.count(), 2);
    assert_eq!(b.get(&[0x01, 0x00]).unwrap().version, 5);
}

#[test]
fn arbiter_decides_same_key_updates() {
    let mut b: Bucket<[u8; 2], Item, 3> = Bucket::new([0, 0]);
    b.put(item(0x01, 0x00, 5));
    b.put(item(0x02, 0x00, 1));
    // an older version loses
    b.put(item(0x01, 0x00, 3));
    assert_eq!(b.get(&[0x01, 0x00]).unwrap().version, 5);
    // a newer one replaces the incumbent
    b.put(item(0x01, 0x00, 9));
    assert_eq!(b.get(&[0x01, 0x00]).unwrap().version, 9);
    assert_eq!(b.count(), 2);
}

#[test]
fn full_leaf_off_owner_path_refuses_new_keys() {
    let mut b: Bucket<[u8; 2], Item, 2> = Bucket::new([0, 0]);
    b.put(item(0x80, 0, 1));
    b.put(item(0x81, 0, 1));
    assert_eq!(b.count(), 2);
    // the leaf splits; every item goes right, off the owner's path, which is full
    b.put(item(0x82, 0, 1));
    assert_eq!(b.count(), 2);
    assert_eq!(b.leaves(), vec![(0, true), (2, false)]);
    b.put(item(0x83, 0, 1));
    b.put(item(0xff, 0xff, 1));
    assert_eq!(b.count(), 2);
    assert!(b.get(&[0x82, 0]).is_none());
    // the owner's side still takes new keys
    b.put(item(0x00, 0x01, 1));
    assert_eq!(b.count(), 3);
    // same-key updates still happen in a full leaf
    b.put(item(0x81, 0, 7));
    assert_eq!(b.get(&[0x81, 0]).unwrap().version, 7);
    assert_eq!(b.count(), 3);
}

#[test]
fn split_partitions_items_by_bit() {
    let mut b: Bucket<[u8; 2], Item, 3> = Bucket::new([0, 0]);
    b.put(item(0x00, 0, 1));
    b.put(item(0x80, 0, 1));
    b.put(item(0x01, 0, 1));
    assert_eq!(b.leaves(), vec![(3, true)]);
    // a fourth key overflows the root: exactly one split, then it lands right
    b.put(item(0x81, 0, 1));
    assert_eq!(b.leaves(), vec![(2, true), (2, false)]);
    assert_eq!(b.count(), 4);
    for k in [[0x00, 0], [0x80, 0], [0x01, 0], [0x81, 0]] {
        assert_eq!(b.get(&k).unwrap().get_key(), k);
    }
}

#[test]
fn five_keys_fit_along_owner_path() {
    let mut b: Bucket<[u8; 2], Value, 3> = Bucket::new([0, 0]);
    for i in 0..5u16 {
        b.put(Value { value: i });
    }
    assert_eq!(b.count(), 5);
    for i in 0..5u16 {
        assert_eq!(b.get(&[i as u8, 0]).unwrap().value, i);
    }
    assert!(b.get(&[5, 0]).is_none());
}

#[test]
fn closest_ranks_by_distance() {
    let mut b: Bucket<[u8; 2], Item, 3> = Bucket::new([0, 0]);
    b.put(item(0x00, 0x07, 1));
    b.put(item(0x80, 0x00, 1));
    b.put(item(0x00, 0x01, 1));
    b.put(item(0x40, 0x00, 1));
    b.put(item(0x00, 0x02, 1));
    assert_eq!(b.count(), 5);
    let keys: Vec<[u8; 2]> = b.closest(&[0x00, 0x03], 3).iter().map(|i| i.key).collect();
    assert_eq!(keys, vec![[0x00, 0x02], [0x00, 0x01], [0x00, 0x07]]);
    let all: Vec<[u8; 2]> = b.closest(&[0x00, 0x03], 10).iter().map(|i| i.key).collect();
    assert_eq!(
        all,
        vec![[0x00, 0x02], [0x00, 0x01], [0x00, 0x07], [0x40, 0x00], [0x80, 0x00]]
    );
    assert!(b.closest(&[0x00, 0x03], 0).is_empty());
}

#[test]
fn closest_keeps_leaf_order_on_ties() {
    let mut b: Bucket<[u8; 2], Item, 4> = Bucket::new([0, 0]);
    b.put(item(0x00, 0x05, 1));
    b.put(item(0x00, 0x01, 1));
    b.put(item(0x00, 0x05, 2));
    let keys: Vec<[u8; 2]> = b.closest(&[0x00, 0x00], 5).iter().map(|i| i.key).collect();
    assert_eq!(keys, vec![[0x00, 0x01], [0x00, 0x05]]);
    assert_eq!(b.closest(&[0x00, 0x00], 5)[1].version, 2);
}

#[test]
fn delete_removes_one_item() {
    let mut b: Bucket<[u8; 2], Item, 3> = Bucket::new([0, 0]);
    b.put(item(0x01, 0x00, 1));
    b.put(item(0x02, 0x00, 2));
    let removed = b.del(&[0x01, 0x00]).unwrap();
    assert_eq!(removed, item(0x01, 0x00, 1));
    assert!(b.get(&[0x01, 0x00]).is_none());
    assert_eq!(b.count(), 1);
    assert!(b.del(&[0x01, 0x00]).is_none());
    assert_eq!(b.count(), 1);
    assert_eq!(b.get(&[0x02, 0x00]).unwrap().version, 2);
}

#[test]
fn delete_after_split_keeps_forks() {
    let mut b: Bucket<[u8; 2], Item, 2> = Bucket::new([0, 0]);
    b.put(item(0x00, 0, 1));
    b.put(item(0x80, 0, 1));
    b.put(item(0x81, 0, 1));
    assert_eq!(b.leaves(), vec![(1, true), (2, false)]);
    assert!(b.del(&[0x80, 0]).is_some());
    assert!(b.del(&[0x81, 0]).is_some());
    assert_eq!(b.leaves(), vec![(1, true), (0, false)]);
    assert_eq!(b.count(), 1);
}
