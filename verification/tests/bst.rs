use lib::bst::DeviceRegistry;
use lib::IoTDevice;
use std::cell::RefCell;

fn new_device_with_id_path(id: u64, path: &str) -> IoTDevice {
    IoTDevice::new(id, format!("address is {:?}", id), path.to_string())
}

fn new_device_with_id(id: u64) -> IoTDevice {
    new_device_with_id_path(id, "")
}

#[test]
fn binary_search_tree_add() {
    let mut tree = DeviceRegistry::new_empty();
    tree.add(new_device_with_id(4));
    tree.add(new_device_with_id(3));
    assert_eq!(tree.length, 2);
}

#[test]
fn binary_search_tree_walk_in_order() {
    let len = 10;

    let mut tree = DeviceRegistry::new_empty();
    // a fixed shuffle of 0..len
    let order: Vec<u64> = vec![7, 2, 9, 0, 5, 3, 8, 1, 6, 4];
    let items: Vec<IoTDevice> = order.iter().map(|i| new_device_with_id(*i)).collect();

    for item in items.iter() {
        tree.add(item.clone());
    }

    assert_eq!(tree.length, len);
    let v: RefCell<Vec<IoTDevice>> = RefCell::new(vec![]);
    tree.walk(|n| v.borrow_mut().push(n.clone()));
    let mut items = items;

    // sort in descending order
    items.sort_by(|a, b| b.numerical_id.cmp(&a.numerical_id));
    assert_eq!(v.into_inner(), items);
}

#[test]
fn binary_search_tree_find() {
    let mut tree = DeviceRegistry::new_empty();

    tree.add(new_device_with_id(4));
    tree.add(new_device_with_id(3));

    assert_eq!(tree.find(100), None);
    assert_eq!(tree.find(4), Some(new_device_with_id(4)));
}

#[test]
fn binary_search_tree_find_each() {
    let mut tree = DeviceRegistry::new_empty();
    for id in [50u64, 20, 70, 10, 30, 60, 80] {
        tree.add(new_device_with_id(id));
    }
    for id in [50u64, 20, 70, 10, 30, 60, 80] {
        assert_eq!(tree.find(id), Some(new_device_with_id(id)));
    }
    assert_eq!(tree.find(0), None);
    assert_eq!(tree.find(55), None);
    assert_eq!(tree.find(90), None);
}

#[test]
fn binary_search_tree_empty() {
    let tree = DeviceRegistry::new_empty();
    assert_eq!(tree.length, 0);
    assert_eq!(tree.find(1), None);
    let v: RefCell<Vec<IoTDevice>> = RefCell::new(vec![]);
    tree.walk(|n| v.borrow_mut().push(n.clone()));
    assert!(v.into_inner().is_empty());
}

#[test]
fn binary_search_tree_duplicate_id_finds_first_added() {
    let mut tree = DeviceRegistry::new_empty();
    tree.add(new_device_with_id_path(5, "first"));
    tree.add(new_device_with_id(9));
    tree.add(new_device_with_id_path(5, "second"));
    assert_eq!(tree.length, 3);
    let found = tree.find(5).unwrap();
    assert_eq!(found.path, "first");
    // walk order: by descending id, the later of two equal ids first
    let v: RefCell<Vec<String>> = RefCell::new(vec![]);
    tree.walk(|n| v.borrow_mut().push(n.path.clone()));
    assert_eq!(v.into_inner(), vec!["".to_string(), "second".to_string(), "first".to_string()]);
}

#[test]
fn device_equality_ignores_path() {
    let a = new_device_with_id_path(1, "a");
    let b = new_device_with_id_path(1, "b");
    assert_eq!(a, b);
    assert_ne!(a, new_device_with_id(2));
    let c = IoTDevice::new(1, "elsewhere".to_string(), "a".to_string());
    assert_ne!(a, c);
}

#[test]
fn binary_search_tree_hangs_larger_id_left() {
    let mut reg = DeviceRegistry::new_empty();
    reg.add(IoTDevice::new(4, "a4".to_string(), "".to_string()));
    reg.add(IoTDevice::new(5, "a5".to_string(), "".to_string()));
    let root = reg.root.as_ref().unwrap();
    assert_eq!(root.dev.numerical_id, 4);
    assert!(root.right.is_none());
    let left = root.left.as_ref().unwrap();
    assert_eq!(left.dev.numerical_id, 5);
    assert!(left.left.is_none() && left.right.is_none());
    assert_eq!(reg.length, 2);
}

#[test]
fn binary_search_tree_starts_without_root() {
    let reg = DeviceRegistry::new_empty();
    assert!(reg.root.is_none());
    assert_eq!(reg.length, 0);
    assert_eq!(reg.find(3), None);
}
