//! A B-tree of devices keyed by their numerical id.
//!
//! Each node holds its devices in `devices`; the subtree that follows device
//! `i` is `children[i]`, and `left_child` is the subtree before the first
//! device. A leaf has no subtrees. A node holds at most `order` subtree slots
//! (devices plus one); a fuller node splits in two and hands its middle device
//! up to its parent.
use vstd::prelude::*;
use crate::IoTDevice;

pub mod position;
pub mod walk;
pub mod validity;
pub mod order;
pub mod insertion;
pub mod shape;

use self::position::{child_for, closest, first_with_id, insert_pos, is_greater, last_some_before, lemma_closest, lemma_first_with_id, lemma_stop_index, stop_index};
use self::walk::{covered, front_pairs, lemma_walk_front, opt_covered, walk_front, lemma_wf_aligned, contents, dev_seq, height, kid_wf, lemma_reinserted, lemma_search_sound, lemma_walk_pairs_take, node_wf, node_wf_at, reinserted, search, search_opt, walk_node, walk_opt, walk_pairs};
use self::validity::{has_leaf_at, lemma_leaf_bounds, lemma_size_bounds, levels_fit, lemma_levels_fit, opt_levels_fit, keys_ok, keys_ok_cap, size_ok, kids_max, kids_min, leaf_max, leaf_min, lemma_leaf_levels, max_int, opt_keys_ok};
use self::order::{lemma_count_less_split, count_less, distinct_ids, has_id, increasing_ids, lemma_child_fresh, lemma_distinct_after_insert, lemma_insert_increasing, lemma_leaf_insert_walk, lemma_readd_shape, lemma_regular_walk_done, lemma_search_complete, lemma_split_walk, out_walk};
use self::shape::{added, filled, finished, leaf_placed, lemma_placed_filled, lemma_regular_added, lemma_split_filled, lemma_wf_filled, opt_filled, regular_added, regular_placed, root_added, split_into};
use self::insertion::{lemma_add_split, lemma_leaf_insert, lemma_new_root, lemma_regular_left, lemma_regular_right, lemma_split_parts};

verus! {

pub type Tree = Box<Node>;

pub type KeyType = u64;

/// A device together with the subtree that follows it.
pub type Data = (Option<IoTDevice>, Option<Tree>);

#[derive(Clone, Copy, PartialEq, Eq, Structural, Debug)]
pub enum NodeType {
    Leaf,
    Regular,
}

/// Where a key goes in a node: before every device, or after device `i`.
#[derive(Clone, Copy, PartialEq, Eq, Structural, Debug)]
pub enum Direction {
    Left,
    Right(usize),
}

pub struct Node {
    pub devices: Vec<Option<IoTDevice>>,
    pub children: Vec<Option<Tree>>,
    pub left_child: Option<Tree>,
    pub node_type: NodeType,
}

impl Node {
    /// An empty leaf.
    pub fn new_leaf() -> (t: Tree)
        ensures
            t.devices@.len() == 0,
            t.children@.len() == 0,
            t.left_child is None,
            t.node_type == NodeType::Leaf,
    {
        Node::new(NodeType::Leaf)
    }

    /// An empty inner node.
    pub fn new_regular() -> (t: Tree)
        ensures
            t.devices@.len() == 0,
            t.children@.len() == 0,
            t.left_child is None,
            t.node_type == NodeType::Regular,
    {
        Node::new(NodeType::Regular)
    }

    fn new(node_type: NodeType) -> (t: Tree)
        ensures
            t.devices@.len() == 0,
            t.children@.len() == 0,
            t.left_child is None,
            t.node_type == node_type,
    {
        Box::new(Node { left_child: None, devices: Vec::new(), children: Vec::new(), node_type: node_type })
    }

    /// The number of subtree slots: one per device, plus the left one.
    pub fn len(&self) -> (l: usize)
        requires
            self.children@.len() < usize::MAX,
        ensures
            l == self.children@.len() + 1,
    {
        self.children.len() + 1
    }

    /// The last device before the first one whose id is greater than `key`.
    pub fn find_closest_index(&self, key: KeyType) -> (d: Direction)
        ensures
            d == closest(self.devices@, key),
    {
        let ghost devs = self.devices@;
        proof {
            lemma_stop_index(devs, key);
        }
        let mut index = Direction::Left;
        let mut i: usize = 0;
        while i < self.devices.len()
            invariant_except_break
                devs == self.devices@,
                0 <= i <= devs.len(),
                forall|k: int| 0 <= k < i ==> !is_greater(#[trigger] devs[k], key),
                index == last_some_before(devs, i as int),
                0 <= stop_index(devs, key) <= devs.len(),
                forall|k: int| 0 <= k < stop_index(devs, key) ==> !is_greater(#[trigger] devs[k], key),
                stop_index(devs, key) < devs.len() ==> is_greater(devs[stop_index(devs, key)], key),
            ensures
                index == last_some_before(devs, stop_index(devs, key)),
            decreases self.devices.len() - i,
        {
            if let Some(dev) = &self.devices[i] {
                if dev.numerical_id <= key {
                    index = Direction::Right(i);
                } else {
                    proof {
                        assert(is_greater(devs[i as int], key));
                        if stop_index(devs, key) > i {
                            assert(!is_greater(devs[i as int], key));
                        }
                    }
                    break;
                }
            }
            i += 1;
        }
        index
    }

    /// Inserts a device and the subtree after it at the place of `key`; past
    /// the last device, the subtree goes after every subtree slot.
    pub fn add_key(&mut self, key: KeyType, value: Data) -> (added: bool)
        requires
            old(self).devices@.len() <= old(self).children@.len(),
        ensures
            added,
            final(self).devices@ == old(self).devices@.insert(
                insert_pos(old(self).devices@, key),
                value.0,
            ),
            final(self).children@ == if insert_pos(old(self).devices@, key) < old(
                self,
            ).devices@.len() {
                old(self).children@.insert(insert_pos(old(self).devices@, key), value.1)
            } else {
                old(self).children@.push(value.1)
            },
            old(self).devices@.len() == old(self).children@.len() ==> final(self).children@ == old(
                self,
            ).children@.insert(insert_pos(old(self).devices@, key), value.1),
            final(self).left_child == old(self).left_child,
            final(self).node_type == old(self).node_type,
    {
        let n = self.devices.len();
        proof {
            lemma_closest(self.devices@, key);
        }
        let pos = match self.find_closest_index(key) {
            Direction::Left => 0,
            Direction::Right(p) => {
                assert(p < self.devices@.len());
                p + 1
            },
        };
        let (dev, tree) = value;

        if pos >= self.devices.len() {
            self.devices.push(dev);
            self.children.push(tree);
            proof {
                assert(old(self).children@.push(value.1) =~= old(self).children@.insert(
                    old(self).children@.len() as int,
                    value.1,
                ));
            }
        } else {
            self.devices.insert(pos, dev);
            self.children.insert(pos, tree);
        }
        true
    }

    /// Sets the subtree before the first device.
    pub fn add_left_child(&mut self, tree: Option<Tree>)
        ensures
            final(self).left_child == tree,
            final(self).devices == old(self).devices,
            final(self).children == old(self).children,
            final(self).node_type == old(self).node_type,
    {
        self.left_child = tree;
    }

    /// Splits a full node in two: this node keeps the devices before the
    /// middle one, a new sibling gets those after it (re-added one by one with
    /// `add_key`) with the middle device's subtree as its left subtree, and the
    /// middle device is returned with the sibling.
    pub fn split(&mut self) -> (r: (IoTDevice, Tree))
        requires
            old(self).devices@.len() == old(self).children@.len(),
            old(self).devices@.len() >= 1,
            forall|i: int|
                0 <= i < old(self).devices@.len() ==> (#[trigger] old(self).devices@[i]) is Some,
        ensures
            ({
                let s = (old(self).devices@.len() / 2) as int;
                let rest = reinserted(
                    old(self).devices@.skip(s + 1),
                    old(self).children@.skip(s + 1),
                );
                &&& Some(r.0) == old(self).devices@[s as int]
                &&& final(self).devices@ == old(self).devices@.take(s as int)
                &&& final(self).children@ == old(self).children@.take(s as int)
                &&& final(self).left_child == old(self).left_child
                &&& final(self).node_type == old(self).node_type
                &&& r.1.node_type == old(self).node_type
                &&& r.1.left_child == old(self).children@[s as int]
                &&& r.1.devices@ == rest.0
                &&& r.1.children@ == rest.1
            }),
    {
        let ghost od = self.devices@;
        let ghost oc = self.children@;
        let mut sibling = Node::new(self.node_type);

        let no_of_devices = self.devices.len();
        let split_at = no_of_devices / 2;

        let dev = self.devices.remove(split_at);
        let node = self.children.remove(split_at);
        let ghost d = self.devices@;
        let ghost c = self.children@;
        let ghost m = d.len() as int;

        let count = self.devices.len() - split_at;
        let mut t: usize = 0;
        while t < count
            invariant
                split_at < od.len(),
                od.len() == oc.len(),
                d == od.remove(split_at as int),
                c == oc.remove(split_at as int),
                m == d.len(),
                d.len() == c.len(),
                count == m - split_at,
                0 <= t <= count,
                forall|i: int| 0 <= i < od.len() ==> (#[trigger] od[i]) is Some,
                self.devices@ == d.take(m - t),
                self.children@ == c.take(m - t),
                self.left_child == old(self).left_child,
                self.node_type == old(self).node_type,
                sibling.node_type == old(self).node_type,
                sibling.left_child is None,
                sibling.devices@ == reinserted(d.subrange(m - t, m), c.subrange(m - t, m)).0,
                sibling.children@ == reinserted(d.subrange(m - t, m), c.subrange(m - t, m)).1,
            decreases count - t,
        {
            let ghost before_d = d.subrange(m - t, m);
            let ghost before_c = c.subrange(m - t, m);
            proof {
                lemma_reinserted(before_d, before_c, |x: Option<IoTDevice>| true, |y: Option<Tree>| true);
            }
            let device = self.devices.pop().unwrap();
            let child = self.children.pop().unwrap();
            proof {
                assert(device == d[m - t - 1]);
                let k = m - t - 1;
                if k < split_at {
                    assert(d[k] == od[k]);
                } else {
                    assert(d[k] == od[k + 1]);
                }
            }
            let key = device.as_ref().unwrap().numerical_id;
            sibling.add_key(key, (device, child));
            t += 1;
            proof {
                let after_d = d.subrange(m - t, m);
                let after_c = c.subrange(m - t, m);
                assert(after_d.drop_first() =~= before_d);
                assert(after_c.drop_first() =~= before_c);
                assert(after_d[0] == device);
                assert(after_c[0] == child);
                assert(self.devices@ =~= d.take(m - t));
                assert(self.children@ =~= c.take(m - t));
            }
        }

        sibling.add_left_child(node);
        proof {
            let s = split_at as int;
            assert(d.subrange(m - count, m) =~= od.skip(s + 1));
            assert(c.subrange(m - count, m) =~= oc.skip(s + 1));
            assert(d.take(s) =~= od.take(s));
            assert(c.take(s) =~= oc.take(s));
        }
        (dev.unwrap(), sibling)
    }

    /// The first device of this node with id `key`.
    pub fn get_device(&self, key: KeyType) -> (r: Option<&IoTDevice>)
        ensures
            match r {
                Some(d) => first_with_id(self.devices@, key) == Some(*d),
                None => first_with_id(self.devices@, key) is None,
            },
    {
        let ghost devs = self.devices@;
        let mut result: Option<&IoTDevice> = None;
        let mut i: usize = 0;
        while i < self.devices.len()
            invariant_except_break
                devs == self.devices@,
                0 <= i <= devs.len(),
                result is None,
                forall|k: int|
                    0 <= k < i ==> !(#[trigger] devs[k] matches Some(d) && d.numerical_id == key),
            ensures
                result matches Some(d) ==> first_with_id(devs, key) == Some(*d),
                result is None ==> forall|k: int|
                    0 <= k < devs.len() ==> !(#[trigger] devs[k] matches Some(d) && d.numerical_id
                        == key),
            decreases self.devices.len() - i,
        {
            if let Some(device) = &self.devices[i] {
                if device.numerical_id == key {
                    result = Some(device);
                    proof {
                        lemma_first_with_id(devs, key, i as int);
                    }
                    break;
                }
            }
            i += 1;
        }
        proof {
            if result is None {
                lemma_first_with_id(devs, key, devs.len() as int);
            }
        }
        result
    }

    /// The subtree in which a search for `key` goes on.
    pub fn get_child(&self, key: KeyType) -> (r: Option<&Tree>)
        requires
            self.devices@.len() <= self.children@.len(),
        ensures
            match r {
                Some(t) => child_for(*self, key) == Some(*t),
                None => child_for(*self, key) is None,
            },
    {
        proof {
            assert(self.devices.len() == self.devices@.len());
            lemma_closest(self.devices@, key);
        }
        match self.find_closest_index(key) {
            Direction::Left => self.left_child.as_ref(),
            Direction::Right(i) => self.children[i].as_ref(),
        }
    }

    /// Takes out the device at the place of `id` with the subtree after it,
    /// or the left subtree when `id` comes before every device.
    pub fn remove_key(&mut self, id: KeyType) -> (r: Option<(KeyType, Data)>)
        requires
            old(self).devices@.len() <= old(self).children@.len(),
        ensures
            final(self).node_type == old(self).node_type,
            match closest(old(self).devices@, id) {
                Direction::Left => {
                    &&& r == Some((id, (None::<IoTDevice>, old(self).left_child)))
                    &&& final(self).left_child is None
                    &&& final(self).devices == old(self).devices
                    &&& final(self).children == old(self).children
                },
                Direction::Right(p) => {
                    &&& r == Some(
                        (
                            old(self).devices@[p as int].unwrap().numerical_id,
                            (old(self).devices@[p as int], old(self).children@[p as int]),
                        ),
                    )
                    &&& final(self).left_child == old(self).left_child
                    &&& final(self).devices@ == old(self).devices@.remove(p as int)
                    &&& final(self).children@ == old(self).children@.remove(p as int)
                },
            },
    {
        proof {
            assert(self.devices.len() == self.devices@.len());
            lemma_closest(self.devices@, id);
        }
        match self.find_closest_index(id) {
            Direction::Left => {
                let tree = self.left_child.take();
                Some((id, (None, tree)))
            },
            Direction::Right(index) => {
                let dev = self.devices.remove(index);
                let tree = self.children.remove(index);
                let key = dev.as_ref().unwrap().numerical_id;
                Some((key, (dev, tree)))
            },
        }
    }
}

/// A database of devices kept in a B-tree of the given order.
pub struct DeviceDatabase {
    pub root: Option<Tree>,
    pub order: usize,
    pub length: u64,
}

impl View for DeviceDatabase {
    type V = Seq<IoTDevice>;

    /// The devices in walk order.
    open spec fn view(&self) -> Seq<IoTDevice> {
        walk_opt(self.root)
    }
}

impl DeviceDatabase {
    /// Every node has the B-tree shape, `length` counts the devices, and the
    /// tree is no taller than the number of devices.
    pub open spec fn wf(&self) -> bool {
        &&& self.length == self@.len()
        &&& distinct_ids(self@) ==> increasing_ids(self@)
        &&& match self.root {
            Some(r) => {
                &&& node_wf(*r, self.order as int)
                &&& height(*r) <= self.length
                &&& self.order >= 2 ==> keys_ok(*r, true, self.order as int)
            },
            None => true,
        }
    }

    /// An empty database whose nodes hold at most `order` subtree slots.
    pub fn new_empty(order: usize) -> (db: DeviceDatabase)
        ensures
            db.wf(),
            db.root is None,
            db.order == order,
            db.length == 0,
            db@ == Seq::<IoTDevice>::empty(),
    {
        DeviceDatabase { root: None, length: 0, order: order }
    }

    /// Adds a device; a root that grows too full splits and the tree gains a level.
    pub fn add(&mut self, device: IoTDevice)
        requires
            old(self).wf(),
            old(self).length < u64::MAX,
        ensures
            final(self).wf(),
            final(self).root is Some,
            root_added(old(self).root, device, old(self).order as int, final(self).root.unwrap()),
            final(self).order == old(self).order,
            final(self).length == old(self).length + 1,
            final(self)@.to_multiset() == old(self)@.to_multiset().insert(device),
            distinct_ids(old(self)@) && !has_id(old(self)@, device.numerical_id) ==> final(self)@
                == old(self)@.insert(count_less(old(self)@, device.numerical_id) as int, device),
    {
        let node = if self.root.is_some() {
            self.root.take().unwrap()
        } else {
            Node::new_leaf()
        };
        proof {
            if old(self).root is None {
                assert(walk_pairs(node.devices@, node.children@) =~= Seq::<IoTDevice>::empty());
                assert(walk_node(*node) =~= Seq::<IoTDevice>::empty());
            }
        }
        let ghost start = *node;
        proof {
            lemma_wf_filled(start, self.order as int, self.order + 1);
        }
        let r = self.add_r(node, device, true);
        let ghost rg = r;
        let (root, _) = r;
        self.root = Some(root);
        proof {
            if old(self).root is None {
                let order = self.order as int;
                let pre = choose|pre: Node|
                    leaf_placed(start, device, pre) && #[trigger] finished(pre, order, true, rg);
                assert(pre.devices@ =~= seq![Some(device)]);
                assert(pre.children@ =~= seq![None::<Tree>]);
                assert(finished(pre, order, true, (root, None)));
            }
            vstd::seq_lib::lemma_multiset_commutative(
                walk_node(*root),
                Seq::<IoTDevice>::empty(),
            );
            assert(walk_node(*root) + Seq::<IoTDevice>::empty() =~= walk_node(*root));
            final(self)@.to_multiset_ensures();
            old(self)@.to_multiset_ensures();
            assert(old(self)@ == walk_node(*node));
            assert(final(self)@ == out_walk(*root, None));
            if distinct_ids(old(self)@) && !has_id(old(self)@, device.numerical_id) {
                lemma_insert_increasing(old(self)@, device);
            } else {
                lemma_distinct_after_insert(old(self)@, final(self)@, device);
            }
        }
    }

    /// Adds a device to the subtree `node`. Returns the new subtree and, when
    /// a node that is not the root had to split, the middle device and the new
    /// sibling for the parent to take; a root that splits gets a new parent.
    pub fn add_r(&mut self, node: Tree, device: IoTDevice, is_root: bool) -> (r: (Tree, Option<Data>))
        requires
            filled(*node),
            old(self).length < u64::MAX,
        ensures
            added(*node, device, old(self).order as int, is_root, r),
            final(self).root == old(self).root,
            final(self).order == old(self).order,
            final(self).length == old(self).length + 1,
            filled(*r.0),
            is_root ==> r.1 is None,
            !is_root && old(self).order == 0 ==> r.1 is Some,
            r.1 matches Some(split) ==> split.0 is Some && opt_filled(split.1),
            node_wf(*node, old(self).order as int) ==> {
                &&& node_wf(*r.0, old(self).order as int)
                &&& is_root ==> height(*r.0) == height(*node) || height(*r.0) == height(*node) + 1
                &&& !is_root ==> height(*r.0) == height(*node) && r.0.node_type == node.node_type
                &&& forall|fill: bool|
                    old(self).order >= 2 && #[trigger] size_ok(*node, is_root, old(self).order as int, fill)
                        ==> match r.1 {
                        None => size_ok(*r.0, is_root, old(self).order as int, fill),
                        Some(split) => {
                            &&& size_ok(*r.0, false, old(self).order as int, fill)
                            &&& split.1 matches Some(sib) && size_ok(*sib, false, old(self).order as int, fill)
                        },
                    }
                &&& increasing_ids(walk_node(*node)) && !has_id(walk_node(*node), device.numerical_id)
                    ==> out_walk(*r.0, r.1) == walk_node(*node).insert(
                    count_less(walk_node(*node), device.numerical_id) as int,
                    device,
                )
                &&& match r.1 {
                    None => contents(*r.0) == contents(*node).insert(device),
                    Some(split) => {
                        &&& split.0 matches Some(m)
                        &&& split.1 matches Some(sib)
                        &&& node_wf(*sib, old(self).order as int)
                        &&& height(*sib) == height(*node)
                        &&& sib.node_type == node.node_type
                        &&& contents(*r.0).insert(m).add(contents(*sib)) == contents(*node).insert(device)
                    },
                }
            },
        decreases node, 1nat,
    {
        let ghost order = self.order as int;
        let ghost old_node = *node;
        let ghost wf = node_wf(*node, order);
        let ghost ok = |f: bool| wf && order >= 2 && size_ok(*node, is_root, order, f);
        let ghost dv = device;
        let ghost ow = walk_node(*node);
        let ghost fresh = wf && increasing_ids(ow) && !has_id(ow, device.numerical_id);
        let mut node = node;
        let id = device.numerical_id;
        proof {
            assert(node.devices.len() == node.devices@.len());
        }

        match node.node_type {
            NodeType::Leaf => {
                if node.add_key(id, (Some(device), None)) {
                    self.length += 1;
                }
                proof {
                    lemma_closest(old_node.devices@, id);
                    let k = insert_pos(old_node.devices@, id);
                    assert forall|i: int| 0 <= i < node.devices@.len() implies (
                    #[trigger] node.devices@[i]) is Some by {
                        if i < k {
                            assert(node.devices@[i] == old_node.devices@[i]);
                        } else if i > k {
                            assert(node.devices@[i] == old_node.devices@[i - 1]);
                        }
                    }
                    if wf {
                        lemma_leaf_insert(old_node, *node, id, dv, order, is_root);
                        if fresh {
                            lemma_leaf_insert_walk(old_node, *node, dv, order);
                            lemma_insert_increasing(ow, dv);
                        }
                    }
                }
            },
            NodeType::Regular => {
                node = self.add_below(node, device, is_root);
            },
        }

        let ghost pre = *node;
        proof {
            assert(filled(pre));
            assert(pre.devices.len() == pre.devices@.len());
            assert forall|f: bool| ok(f) implies #[trigger] keys_ok_cap(pre, is_root, order, order + 1, f) by {}
        }
        let result = if node.children.len() >= self.order {
            let (new_parent, sibling) = node.split();
            proof {
                lemma_split_filled(pre, *node, new_parent, *sibling);
                if wf {
                    lemma_split_parts(pre, *node, *sibling, new_parent, order);
                }
                assert forall|f: bool| ok(f) implies #[trigger] keys_ok_cap(pre, is_root, order, order + 1, f) by {}
                if fresh {
                    lemma_split_walk(pre, *node, *sibling, new_parent, order);
                    assert(dev_seq(Some(new_parent)) =~= seq![new_parent]);
                }
            }
            if is_root {
                let mut parent = Node::new_regular();
                let ghost kept = *node;
                let ghost sib = *sibling;
                let ghost sib_t = sibling;
                let ghost kept_t = node;
                let ghost med = new_parent;
                parent.add_left_child(Some(node));
                parent.add_key(new_parent.numerical_id, (Some(new_parent), Some(sibling)));
                proof {
                    assert(parent.devices@ =~= seq![Some(med)]);
                    assert(parent.children@ =~= seq![Some(sib_t)]);
                    assert(parent.left_child == Some(kept_t));
                    assert(split_into(pre, kept, med, sib));
                    assert(opt_filled(parent.children@[0]));
                    if wf {
                        lemma_new_root(kept, sib, med, *parent, order);
                    }
                    assert(out_walk(*parent, None) =~= walk_node(*parent));
                }
                (parent, None)
            } else {
                (node, Some((Some(new_parent), Some(sibling))))
            }
        } else {
            proof {
                assert forall|f: bool| ok(f) implies #[trigger] size_ok(*node, is_root, order, f) by {}
                assert(out_walk(*node, None) =~= walk_node(*node));
            }
            (node, None)
        };
        proof {
            assert(finished(pre, order, is_root, result));
            assert forall|f: bool| wf && order >= 2 && #[trigger] size_ok(old_node, is_root, order, f) implies match result.1 {
                None => size_ok(*result.0, is_root, order, f),
                Some(split) => {
                    &&& size_ok(*result.0, false, order, f)
                    &&& split.1 matches Some(sib) && size_ok(*sib, false, order, f)
                },
            } by {
                assert(ok(f));
                assert(keys_ok_cap(pre, is_root, order, order + 1, f));
            }
            if old_node.node_type == NodeType::Leaf {
                assert(leaf_placed(old_node, dv, pre));
            } else {
                assert(regular_added(old_node, dv, order, pre));
            }
        }
        result
    }

    /// Adds a device below an inner node: into the subtree where its id falls,
    /// taking in that subtree's middle device and new sibling if it split.
    /// The node may end up one device too full; `add_r` splits it then.
    fn add_below(&mut self, node: Tree, device: IoTDevice, is_root: bool) -> (n: Tree)
        requires
            filled(*node),
            node.node_type == NodeType::Regular,
            old(self).length < u64::MAX,
        ensures
            final(self).root == old(self).root,
            final(self).order == old(self).order,
            final(self).length == old(self).length + 1,
            regular_added(*node, device, old(self).order as int, *n),
            filled(*n),
            n.node_type == NodeType::Regular,
            n.devices@.len() >= 1 || old(self).order >= 1,
            node_wf(*node, old(self).order as int) ==> {
                &&& node_wf_at(*n, old(self).order as int, old(self).order + 2)
                &&& height(*n) == height(*node)
                &&& contents(*n) == contents(*node).insert(device)
                &&& forall|fill: bool|
                    old(self).order >= 2 && #[trigger] size_ok(*node, is_root, old(self).order as int, fill)
                        ==> keys_ok_cap(*n, is_root, old(self).order as int, old(self).order + 1, fill)
                &&& increasing_ids(walk_node(*node)) && !has_id(walk_node(*node), device.numerical_id)
                    ==> walk_node(*n) == walk_node(*node).insert(
                    count_less(walk_node(*node), device.numerical_id) as int,
                    device,
                ) && increasing_ids(walk_node(*n))
            },
        decreases node, 0nat,
    {
        let ghost order = self.order as int;
        let ghost old_node = *node;
        let ghost wf = node_wf(*node, order);
        let ghost ok = |f: bool| wf && order >= 2 && size_ok(*node, is_root, order, f);
        let ghost dv = device;
        let ghost ow = walk_node(*node);
        let ghost fresh = wf && increasing_ids(ow) && !has_id(ow, device.numerical_id);
        let mut node = node;
        let id = device.numerical_id;
        proof {
            assert(node.devices.len() == node.devices@.len());
            lemma_closest(node.devices@, id);
        }
        let ghost dir = closest(node.devices@, id);
        let (key, (dev, tree)) = node.remove_key(id).unwrap();
        let ghost removed = *node;
        proof {
            if let Direction::Right(p) = dir {
                assert(opt_filled(old_node.children@[p as int]));
                if wf {
                    assert(kid_wf(
                        old_node.children@[p as int],
                        height(*old_node.left_child.unwrap()),
                        order,
                    ));
                }
                assert forall|f: bool| ok(f) implies #[trigger] opt_keys_ok(
                    old_node.children@[p as int],
                    order,
                    f,
                ) by {}
            }
        }
        proof {
            if fresh {
                lemma_child_fresh(old_node, id, order);
            }
        }
        let child = tree.unwrap();
        let ghost ch = child;
        let ghost old_child = *child;
        let new = self.add_r(child, device, false);
        let ghost nres = new;
        let ghost new_child = *new.0;
        let ghost split_part = new.1;
        if dev.is_none() {
            node.add_left_child(Some(new.0));
            proof {
                if wf {
                    lemma_regular_left(old_node, *node, new_child, order);
                }
            }
        } else {
            proof {
                assert(removed.devices.len() == removed.devices@.len());
                lemma_closest(removed.devices@, key);
            }
            node.add_key(key, (dev, Some(new.0)));
            proof {
                if wf {
                    lemma_regular_right(
                    old_node,
                    removed,
                    *node,
                    dir->Right_0 as int,
                    key,
                    new_child,
                    order,
                );
                }
            }
        }
        let ghost readded = *node;
        proof {
            if wf {
            assert(contents(readded).add(contents(old_child)) == contents(old_node).add(
                contents(new_child),
            ));
            assert forall|f: bool| ok(f) implies #[trigger] size_ok(new_child, false, order, f) by {
                if let Direction::Right(p) = dir {
                    assert(opt_keys_ok(old_node.children@[p as int], order, f));
                }
                assert(size_ok(old_child, false, order, f));
            }
            assert forall|f: bool| ok(f) implies #[trigger] size_ok(readded, is_root, order, f) by {
                assert(size_ok(new_child, false, order, f));
            }
            if fresh {
                lemma_readd_shape(old_node, removed, readded, new_child, id, order);
            }
            }
        }
        if let Some(split_result) = new.1 {
            let new_id = split_result.0.as_ref().unwrap().numerical_id;
            let ghost med = split_result.0.unwrap();
            let ghost sib = *split_result.1.unwrap();
            proof {
                assert(readded.devices.len() == readded.devices@.len());
                lemma_closest(readded.devices@, new_id);
            }
            node.add_key(new_id, split_result);
            proof {
                if wf {
                lemma_add_split(readded, *node, med, sib, order);
                assert forall|f: bool| ok(f) implies #[trigger] keys_ok_cap(*node, is_root, order, order + 1, f) by {
                    if let Direction::Right(p) = dir {
                        assert(opt_keys_ok(old_node.children@[p as int], order, f));
                    }
                    assert(size_ok(old_child, false, order, f));
                    assert(size_ok(readded, is_root, order, f));
                    assert(size_ok(sib, false, order, f));
                }
                assert(contents(new_child).insert(med).add(contents(sib)) == contents(
                    old_child,
                ).insert(dv));
                assert forall|x: IoTDevice| #[trigger] contents(*node).count(x) == contents(
                    old_node,
                ).insert(dv).count(x) by {
                    assert(contents(readded).add(contents(old_child)).count(x) == contents(
                        old_node,
                    ).add(contents(new_child)).count(x));
                    assert(contents(new_child).insert(med).add(contents(sib)).count(x)
                        == contents(old_child).insert(dv).count(x));
                }
                assert(contents(*node) =~= contents(old_node).insert(dv));
                if fresh {
                    lemma_regular_walk_done(
                        old_node,
                        readded,
                        *node,
                        new_child,
                        split_part,
                        dv,
                        order,
                    );
                }
                }
            }
        } else {
            proof {
                if wf {
                assert(contents(new_child) == contents(old_child).insert(dv));
                assert(contents(readded).add(contents(old_child)) == contents(old_node).add(
                    contents(old_child).insert(dv)));
                assert forall|x: IoTDevice| #[trigger] contents(readded).count(x) == contents(
                    old_node,
                ).insert(dv).count(x) by {
                    assert(contents(readded).add(contents(old_child)).count(x) == contents(
                        old_node,
                    ).add(contents(old_child).insert(dv)).count(x));
                }
                assert(contents(*node) =~= contents(old_node).insert(dv));
                assert(readded.devices@.len() >= 1 || order >= 1);
                assert forall|f: bool| ok(f) implies #[trigger] keys_ok_cap(*node, is_root, order, order + 1, f) by {
                    assert(size_ok(readded, is_root, order, f));
                }
                if fresh {
                    lemma_regular_walk_done(
                        old_node,
                        readded,
                        *node,
                        new_child,
                        split_part,
                        dv,
                        order,
                    );
                }
                }
            }
        }
        proof {
            assert(regular_placed(old_node, id, nres.0, nres.1, *node));
            lemma_placed_filled(old_node, id, nres.0, nres.1, *node);
            lemma_regular_added(old_node, dv, order, ch, nres.0, nres.1, *node);
        }
        node
    }

    /// The device a search for `id` finds.
    pub fn find(&self, id: KeyType) -> (r: Option<IoTDevice>)
        requires
            self.wf(),
        ensures
            r == search_opt(self.root, id),
    {
        match self.root.as_ref() {
            Some(tree) => self.find_r(tree, id),
            _ => None,
        }
    }

    fn find_r(&self, node: &Tree, id: KeyType) -> (r: Option<IoTDevice>)
        requires
            node_wf(**node, self.order as int),
        ensures
            r == search(**node, id),
        decreases node,
    {
        match node.get_device(id) {
            Some(device) => Some(device.duplicate()),
            None => {
                if node.node_type != NodeType::Leaf {
                    proof {
                        assert(node.devices.len() == node.devices@.len());
                        lemma_closest(node.devices@, id);
                    }
                    match node.get_child(id) {
                        Some(tree) => {
                            proof {
                                match closest(node.devices@, id) {
                                    Direction::Left => {},
                                    Direction::Right(i) => {
                                        assert(kid_wf(
                                            node.children@[i as int],
                                            height(*node.left_child.unwrap()),
                                            self.order as int,
                                        ));
                                    },
                                }
                            }
                            self.find_r(tree, id)
                        },
                        None => None,
                    }
                } else {
                    None
                }
            },
        }
    }

    /// Hands each device to `callback`, in walk order.
    pub fn walk(&self, callback: impl Fn(&IoTDevice))
        requires
            self.wf(),
            forall|d: &IoTDevice| call_requires(callback, (d,)),
        ensures
            forall|i: int| 0 <= i < self@.len() ==> call_ensures(callback, (&self@[i],), ()),
    {
        if let Some(ref root) = self.root {
            let mut items: Vec<IoTDevice> = Vec::new();
            proof {
                lemma_wf_aligned(**root, self.order as int, self.order + 1);
                lemma_walk_front(**root);
            }
            self.walk_in_order(root, &mut items);
            proof {
                assert(items@ =~= self@);
            }
            let mut i: usize = 0;
            while i < items.len()
                invariant
                    i <= items.len(),
                    items@ == self@,
                    forall|d: &IoTDevice| call_requires(callback, (d,)),
                    forall|j: int| 0 <= j < i ==> call_ensures(callback, (&self@[j],), ()),
                decreases items.len() - i,
            {
                callback(&items[i]);
                i += 1;
            }
        }
    }

    /// Appends the devices of a subtree to `out` in walk order.
    fn walk_in_order(&self, node: &Tree, out: &mut Vec<IoTDevice>)
        requires
            covered(**node),
        ensures
            final(out)@ == old(out)@ + walk_front(**node),
        decreases node,
    {
        if let Some(ref left) = node.left_child {
            self.walk_in_order(left, out);
        }
        let ghost start = out@;
        proof {
            assert(start =~= old(out)@ + match node.left_child {
                Some(l) => walk_front(*l),
                None => Seq::empty(),
            });
        }
        let mut i: usize = 0;
        while i < node.devices.len()
            invariant
                0 <= i <= node.devices@.len(),
                covered(**node),
                out@ == start + front_pairs(**node, i as int),
            decreases node.devices.len() - i,
        {
            if let Some(ref k) = node.devices[i] {
                out.push(k.duplicate());
            }
            if let Some(ref ch) = node.children[i] {
                proof {
                    assert(opt_covered(node.children@[i as int]));
                }
                self.walk_in_order(ch, out);
            }
            i += 1;
            proof {
                assert(out@ =~= start + front_pairs(**node, i as int));
            }
        }
        proof {
            assert(final(out)@ =~= old(out)@ + walk_front(**node));
        }
    }

    /// The tree has a root, every node meets the size rule, and all leaves
    /// stand at the same level.
    pub open spec fn valid_btree(&self) -> bool {
        self.root matches Some(t) && keys_ok(*t, true, self.order as int) && leaf_min(*t, 0)
            == leaf_max(*t, 0)
    }

    /// In a valid B-tree every leaf stands on the same level, whether it hangs
    /// from a left subtree or from any other subtree slot.
    pub proof fn lemma_valid_one_level(&self, d1: int, d2: int)
        requires
            self.valid_btree(),
            has_leaf_at(*self.root.unwrap(), 0, d1),
            has_leaf_at(*self.root.unwrap(), 0, d2),
        ensures
            d1 == d2,
    {
        lemma_leaf_bounds(*self.root.unwrap(), 0, d1);
        lemma_leaf_bounds(*self.root.unwrap(), 0, d2);
    }

    /// The root of a valid B-tree has at most `order` subtree slots and, when
    /// it is an inner node, at least two: its left subtree slot and one more.
    pub proof fn lemma_valid_root(&self)
        requires
            self.valid_btree(),
        ensures
            self.root.unwrap().children@.len() + 1 <= self.order,
            self.root.unwrap().node_type == NodeType::Regular ==> self.root.unwrap().children@.len()
                >= 1,
    {
        lemma_size_bounds(*self.root.unwrap(), true, self.order as int);
    }

    /// A database of order at least 2 that holds a device is a valid B-tree,
    /// however its devices were added.
    pub proof fn lemma_valid(&self)
        requires
            self.wf(),
            self.order >= 2,
            self.root is Some,
            self.length <= usize::MAX,
        ensures
            self.valid_btree(),
    {
        let t = self.root.unwrap();
        lemma_leaf_levels(*t, true, self.order as int, 0);
    }

    /// The levels of a well-formed database fit in a `usize`, so its validity
    /// can be checked.
    pub proof fn lemma_fits(&self)
        requires
            self.wf(),
            self.length <= usize::MAX,
            self.order < usize::MAX - 1,
        ensures
            match self.root {
                Some(t) => levels_fit(*t, 0),
                None => true,
            },
    {
        if let Some(t) = self.root {
            lemma_levels_fit(*t, self.order as int, self.order + 1, 0);
        }
    }

    /// In a database whose devices have distinct ids, a search for the id of
    /// any of them finds that device.
    pub proof fn lemma_find_complete(&self, d: IoTDevice)
        requires
            self.wf(),
            distinct_ids(self@),
            self@.contains(d),
        ensures
            search_opt(self.root, d.numerical_id) == Some(d),
    {
        let t = self.root.unwrap();
        let j = choose|j: int| 0 <= j < self@.len() && self@[j] == d;
        lemma_search_complete(*t, self.order as int, j);
    }

    /// A database whose devices have distinct ids walks them by increasing id.
    pub proof fn lemma_walk_sorted(&self)
        requires
            self.wf(),
            distinct_ids(self@),
        ensures
            increasing_ids(self@),
    {
    }

    /// A device that a search finds has the id searched for and is in the database.
    pub proof fn lemma_find_sound(&self, id: KeyType)
        requires
            self.wf(),
        ensures
            search_opt(self.root, id) matches Some(d) ==> d.numerical_id == id && self@.contains(d),
    {
        if let Some(t) = self.root {
            lemma_search_sound(*t, id, self.order as int);
        }
    }

    /// After a device of a new id was added to a database whose ids are
    /// distinct, a search for that id finds the device, and a search for any
    /// other id finds what it found before.
    pub proof fn lemma_find_after_add(before: &Self, after: &Self, device: IoTDevice, k: KeyType)
        requires
            before.wf(),
            after.wf(),
            distinct_ids(before@),
            !has_id(before@, device.numerical_id),
            after@ == before@.insert(count_less(before@, device.numerical_id) as int, device),
        ensures
            search_opt(after.root, k) == if k == device.numerical_id {
                Some(device)
            } else {
                search_opt(before.root, k)
            },
    {
        let w = before@;
        let c = count_less(w, device.numerical_id) as int;
        lemma_insert_increasing(w, device);
        lemma_count_less_split(w, device.numerical_id);
        assert(distinct_ids(after@));
        assert(after@[c] == device);
        if k == device.numerical_id {
            after.lemma_find_complete(device);
        } else {
            before.lemma_find_sound(k);
            after.lemma_find_sound(k);
            if let Some(d) = search_opt(before.root, k) {
                let j = choose|j: int| 0 <= j < w.len() && w[j] == d;
                if j < c {
                    assert(after@[j] == d);
                } else {
                    assert(after@[j + 1] == d);
                }
                after.lemma_find_complete(d);
            } else if let Some(d) = search_opt(after.root, k) {
                let j = choose|j: int| 0 <= j < after@.len() && after@[j] == d;
                if j < c {
                    assert(w[j] == d);
                } else if j > c {
                    assert(w[j - 1] == d);
                }
                before.lemma_find_complete(d);
            }
        }
    }

    /// Whether the tree is a valid B-tree: it has a root, every node meets
    /// the size rule, and all leaves stand at the same level.
    pub fn is_a_valid_btree(&self) -> (valid: bool)
        requires
            match self.root {
                Some(t) => levels_fit(*t, 0),
                None => true,
            },
        ensures
            valid == self.valid_btree(),
    {
        if let Some(tree) = self.root.as_ref() {
            let total = self.validate(tree, 0);
            total.0 && total.1 == total.2
        } else {
            false
        }
    }

    /// Checks the size rule below `node`, standing at `level` (the root is at
    /// level 0), and returns it with the smallest and greatest leaf levels.
    pub fn validate(&self, node: &Tree, level: usize) -> (r: (bool, usize, usize))
        requires
            levels_fit(**node, level as int),
        ensures
            r.0 == keys_ok(**node, level == 0, self.order as int),
            r.1 == leaf_min(**node, level as int),
            r.2 == leaf_max(**node, level as int),
        decreases node,
    {
        let ghost order = self.order as int;
        match node.node_type {
            NodeType::Leaf => (node.len() <= self.order, level, level),
            NodeType::Regular => {
                // the root has at least two subtrees, the other nodes at least order / 2
                let min_children = if level > 0 {
                    self.order / 2
                } else {
                    2
                };
                let key_rules = node.len() <= self.order && node.len() >= min_children;
                let ghost kids = node.children@;

                // all leaves should stand at the same level
                let mut total = (key_rules, usize::MAX, level);
                let mut i: usize = 0;
                while i < node.children.len()
                    invariant
                        kids == node.children@,
                        levels_fit(**node, level as int),
                        node.node_type == NodeType::Regular,
                        order == self.order,
                        0 <= i <= kids.len(),
                        total.0 == (key_rules && forall|j: int|
                            0 <= j < i ==> opt_keys_ok(#[trigger] kids[j], order, true)),
                        total.1 == kids_min(kids.take(i as int), level + 1),
                        total.2 == max_int(level as int, kids_max(kids.take(i as int), level + 1)),
                    decreases node.children.len() - i,
                {
                    proof {
                        assert(kids.take(i + 1).drop_last() =~= kids.take(i as int));
                        assert(opt_levels_fit(kids[i as int], level + 1));
                    }
                    if let Some(ref tree) = node.children[i] {
                        let stats = self.validate(tree, level + 1);
                        total = (
                            total.0 && stats.0,
                            if stats.1 <= total.1 {
                                stats.1
                            } else {
                                total.1
                            },
                            if stats.2 >= total.2 {
                                stats.2
                            } else {
                                total.2
                            },
                        );
                    }
                    i += 1;
                }
                proof {
                    assert(kids.take(kids.len() as int) =~= kids);
                }
                if let Some(ref tree) = node.left_child {
                    let stats = self.validate(tree, level + 1);
                    total = (
                        total.0 && stats.0,
                        if stats.1 <= total.1 {
                            stats.1
                        } else {
                            total.1
                        },
                        if stats.2 >= total.2 {
                            stats.2
                        } else {
                            total.2
                        },
                    );
                }
                total
            },
        }
    }
}

} // verus!
