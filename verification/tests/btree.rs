use lib::btree::{DeviceDatabase, Node, NodeType};
use lib::IoTDevice;
use std::cell::RefCell;

fn new_device_with_id(id: u64) -> IoTDevice {
    IoTDevice::new(id, format!("address is {:?}", id), "".to_string())
}

fn walked(db: &DeviceDatabase) -> Vec<u64> {
    let v: RefCell<Vec<u64>> = RefCell::new(vec![]);
    db.walk(|n| v.borrow_mut().push(n.numerical_id));
    v.into_inner()
}

#[test]
fn btree_empty_is_not_valid() {
    let db = DeviceDatabase::new_empty(3);
    assert_eq!(db.length, 0);
    assert!(!db.is_a_valid_btree());
    assert_eq!(db.find(1), None);
    assert!(walked(&db).is_empty());
}

#[test]
fn btree_add_and_find_sorted() {
    let mut db = DeviceDatabase::new_empty(3);
    for i in 0..100u64 {
        db.add(new_device_with_id(i));
        assert!(db.is_a_valid_btree());
    }
    assert_eq!(db.length, 100);
    for i in 0..100u64 {
        assert_eq!(db.find(i), Some(new_device_with_id(i)));
    }
    assert_eq!(db.find(100), None);
    assert_eq!(walked(&db), (0..100u64).collect::<Vec<u64>>());
}

#[test]
fn btree_add_and_find_shuffled() {
    let mut db = DeviceDatabase::new_empty(5);
    let mut ids: Vec<u64> = vec![];
    let mut x: u64 = 17;
    for _ in 0..200 {
        x = (x * 37 + 11) % 1009;
        if !ids.contains(&x) {
            ids.push(x);
        }
    }
    for id in ids.iter() {
        db.add(new_device_with_id(*id));
    }
    assert!(db.is_a_valid_btree());
    assert_eq!(db.length as usize, ids.len());
    for id in ids.iter() {
        assert_eq!(db.find(*id), Some(new_device_with_id(*id)));
    }
    let mut sorted = ids.clone();
    sorted.sort();
    assert_eq!(walked(&db), sorted);
}

#[test]
fn btree_root_splits_into_regular_node() {
    let mut db = DeviceDatabase::new_empty(3);
    db.add(new_device_with_id(1));
    db.add(new_device_with_id(2));
    // a leaf of order 3 holds two devices
    assert!(db.root.as_ref().unwrap().devices.len() == 2);
    db.add(new_device_with_id(3));
    let root = db.root.as_ref().unwrap();
    assert_eq!(root.devices.len(), 1);
    assert_eq!(root.devices[0].as_ref().unwrap().numerical_id, 2);
    assert!(db.is_a_valid_btree());
}

#[test]
fn btree_order_two_stays_valid() {
    let mut db = DeviceDatabase::new_empty(2);
    for i in 0..30u64 {
        db.add(new_device_with_id(i));
        assert!(db.is_a_valid_btree());
    }
    assert_eq!(db.length, 30);
    assert_eq!(walked(&db).len(), 30);
}

#[test]
fn btree_small_orders_keep_every_device() {
    for order in 0..2usize {
        let mut db = DeviceDatabase::new_empty(order);
        for i in 0..20u64 {
            db.add(new_device_with_id(i));
        }
        assert_eq!(db.length, 20);
        let mut w = walked(&db);
        w.sort();
        assert_eq!(w, (0..20u64).collect::<Vec<u64>>());
        assert!(!db.is_a_valid_btree());
    }
}

#[test]
fn btree_duplicate_ids_can_hide_a_device() {
    // with a repeated id the search order can break: the device with id 2 is
    // stored but a search for it goes down the wrong subtree
    let mut db = DeviceDatabase::new_empty(2);
    for id in [1u64, 1, 2, 0] {
        db.add(new_device_with_id(id));
    }
    assert_eq!(db.length, 4);
    let mut w = walked(&db);
    assert!(w.contains(&2));
    assert_eq!(db.find(2), None);
    assert_eq!(db.find(1), Some(new_device_with_id(1)));
    w.sort();
    assert_eq!(w, vec![0, 1, 1, 2]);
}

#[test]
fn btree_find_after_add_distinct() {
    let mut db = DeviceDatabase::new_empty(4);
    for id in [40u64, 10, 30, 20, 50, 0, 60, 25] {
        let before: Vec<Option<IoTDevice>> = (0..70u64).map(|k| db.find(k)).collect();
        db.add(new_device_with_id(id));
        assert_eq!(db.find(id), Some(new_device_with_id(id)));
        for k in 0..70u64 {
            if k != id {
                assert_eq!(db.find(k), before[k as usize]);
            }
        }
    }
    assert_eq!(walked(&db), vec![0, 10, 20, 25, 30, 40, 50, 60]);
}

fn ids_of(devices: &Vec<Option<IoTDevice>>) -> Vec<u64> {
    devices.iter().map(|d| d.as_ref().unwrap().numerical_id).collect()
}

#[test]
fn btree_split_hands_middle_device_up() {
    let mut db = DeviceDatabase::new_empty(3);
    for id in 1..4 {
        db.add(new_device_with_id(id));
    }
    let root = db.root.as_ref().unwrap();
    assert_eq!(root.node_type, NodeType::Regular);
    assert_eq!(ids_of(&root.devices), vec![2]);
    let left = root.left_child.as_ref().unwrap();
    assert_eq!(left.node_type, NodeType::Leaf);
    assert_eq!(ids_of(&left.devices), vec![1]);
    assert_eq!(root.children.len(), 1);
    let right = root.children[0].as_ref().unwrap();
    assert_eq!(ids_of(&right.devices), vec![3]);
    assert_eq!(db.length, 3);
}

fn leaf_with(id: u64) -> Box<Node> {
    Box::new(Node {
        devices: vec![Some(new_device_with_id(id))],
        children: vec![None],
        left_child: None,
        node_type: NodeType::Leaf,
    })
}

#[test]
fn btree_validate_reports_uneven_leaves() {
    let inner = Box::new(Node {
        devices: vec![Some(new_device_with_id(4))],
        children: vec![Some(leaf_with(5))],
        left_child: Some(leaf_with(3)),
        node_type: NodeType::Regular,
    });
    let root = Box::new(Node {
        devices: vec![Some(new_device_with_id(2))],
        children: vec![Some(inner)],
        left_child: Some(leaf_with(1)),
        node_type: NodeType::Regular,
    });
    let mut db = DeviceDatabase::new_empty(3);
    db.root = Some(root);
    let stats = db.validate(db.root.as_ref().unwrap(), 0);
    assert_eq!(stats, (true, 1, 2));
    assert!(!db.is_a_valid_btree());
}

#[test]
fn btree_validate_counts_every_subtree_slot() {
    let mut root = Node::new_leaf();
    root.devices.push(Some(new_device_with_id(7)));
    root.children.push(None);
    root.children.push(Some(leaf_with(9)));
    let mut db = DeviceDatabase::new_empty(3);
    db.root = Some(root);
    let stats = db.validate(db.root.as_ref().unwrap(), 0);
    assert_eq!(stats, (true, 0, 0));
}
