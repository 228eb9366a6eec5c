//! A binary search tree of devices keyed by their numerical id.
//!
//! A node's left subtree holds the devices whose id is greater than or equal to
//! the node's id, its right subtree those whose id is smaller, so an in-order
//! walk lists the devices by descending id.
use vstd::prelude::*;
use crate::IoTDevice;

verus! {

pub type Tree = Option<Box<Node>>;

/// A node of the tree: one device and its two subtrees.
pub struct Node {
    pub dev: IoTDevice,
    pub left: Tree,
    pub right: Tree,
}

/// The devices of a subtree in walk order: left subtree, node, right subtree.
pub open spec fn tree_seq(t: Tree) -> Seq<IoTDevice>
    decreases t,
{
    match t {
        None => Seq::empty(),
        Some(n) => tree_seq(n.left) + seq![n.dev] + tree_seq(n.right),
    }
}

/// Every node's left subtree holds ids at least its own, its right subtree smaller ones.
pub open spec fn tree_ordered(t: Tree) -> bool
    decreases t,
{
    match t {
        None => true,
        Some(n) => {
            &&& tree_ordered(n.left)
            &&& tree_ordered(n.right)
            &&& forall|i: int|
                0 <= i < tree_seq(n.left).len() ==> #[trigger] tree_seq(n.left)[i].numerical_id
                    >= n.dev.numerical_id
            &&& forall|i: int|
                0 <= i < tree_seq(n.right).len() ==> #[trigger] tree_seq(n.right)[i].numerical_id
                    < n.dev.numerical_id
        },
    }
}

/// How many devices of `s` have an id greater than `id`.
pub open spec fn count_greater(s: Seq<IoTDevice>, id: u64) -> nat
    decreases s.len(),
{
    if s.len() == 0 {
        0
    } else {
        count_greater(s.drop_last(), id) + if s.last().numerical_id > id {
            1nat
        } else {
            0nat
        }
    }
}

/// The device with id `id` that comes last in `s`, if any.
pub open spec fn last_with_id(s: Seq<IoTDevice>, id: u64) -> Option<IoTDevice>
    decreases s.len(),
{
    if s.len() == 0 {
        None
    } else if s.last().numerical_id == id {
        Some(s.last())
    } else {
        last_with_id(s.drop_last(), id)
    }
}

/// The ids of `s` never increase from one device to the next.
pub open spec fn sorted_descending(s: Seq<IoTDevice>) -> bool {
    forall|i: int, j: int| 0 <= i <= j < s.len() ==> s[i].numerical_id >= s[j].numerical_id
}

/// Counting greater ids over two sequences in a row adds up.
pub proof fn lemma_count_greater_add(a: Seq<IoTDevice>, b: Seq<IoTDevice>, id: u64)
    ensures
        count_greater(a + b, id) == count_greater(a, id) + count_greater(b, id),
    decreases b.len(),
{
    if b.len() == 0 {
        assert(a + b =~= a);
    } else {
        assert((a + b).drop_last() =~= a + b.drop_last());
        lemma_count_greater_add(a, b.drop_last(), id);
    }
}

/// `count_greater` is at most the length: zero when no id is greater, the
/// length when every id is.
pub proof fn lemma_count_greater_bounds(s: Seq<IoTDevice>, id: u64)
    ensures
        count_greater(s, id) <= s.len(),
        (forall|i: int| 0 <= i < s.len() ==> s[i].numerical_id <= id) ==> count_greater(s, id)
            == 0,
        (forall|i: int| 0 <= i < s.len() ==> s[i].numerical_id > id) ==> count_greater(s, id)
            == s.len(),
    decreases s.len(),
{
    if s.len() > 0 {
        lemma_count_greater_bounds(s.drop_last(), id);
        assert forall|i: int| 0 <= i < s.drop_last().len() implies s.drop_last()[i] == s[i] by {}
    }
}

/// In two sequences in a row, the last device with an id comes from the
/// second one if it has one.
pub proof fn lemma_last_with_id_add(a: Seq<IoTDevice>, b: Seq<IoTDevice>, id: u64)
    ensures
        last_with_id(a + b, id) == if last_with_id(b, id) is Some {
            last_with_id(b, id)
        } else {
            last_with_id(a, id)
        },
    decreases b.len(),
{
    if b.len() == 0 {
        assert(a + b =~= a);
    } else {
        assert((a + b).drop_last() =~= a + b.drop_last());
        lemma_last_with_id_add(a, b.drop_last(), id);
    }
}

/// What `last_with_id` gives: a device of `s` with that id, or none when no device has it.
pub proof fn lemma_last_with_id(s: Seq<IoTDevice>, id: u64)
    ensures
        last_with_id(s, id) is None <==> (forall|i: int|
            0 <= i < s.len() ==> s[i].numerical_id != id),
        last_with_id(s, id) matches Some(d) ==> d.numerical_id == id && s.contains(d),
    decreases s.len(),
{
    if s.len() > 0 {
        lemma_last_with_id(s.drop_last(), id);
        assert forall|i: int| 0 <= i < s.drop_last().len() implies s.drop_last()[i] == s[i] by {}
        if last_with_id(s, id) is None {
            assert forall|i: int| 0 <= i < s.len() implies s[i].numerical_id != id by {
                if i < s.len() - 1 {
                    assert(s.drop_last()[i] == s[i]);
                }
            }
        }
        if s.last().numerical_id == id {
            assert(s[s.len() - 1] == s.last());
        } else if let Some(d) = last_with_id(s, id) {
            let j = choose|j: int| 0 <= j < s.drop_last().len() && s.drop_last()[j] == d;
            assert(s[j] == d);
        }
    }
}

/// In a sequence sorted by descending id, the devices with an id greater than
/// `id` are exactly the first `count_greater(s, id)` ones.
pub proof fn lemma_count_greater_prefix(s: Seq<IoTDevice>, id: u64)
    requires
        sorted_descending(s),
    ensures
        count_greater(s, id) <= s.len(),
        forall|i: int| 0 <= i < count_greater(s, id) ==> s[i].numerical_id > id,
        forall|i: int| count_greater(s, id) <= i < s.len() ==> s[i].numerical_id <= id,
    decreases s.len(),
{
    lemma_count_greater_bounds(s, id);
    if s.len() > 0 {
        let r = s.drop_last();
        assert(sorted_descending(r)) by {
            assert forall|i: int, j: int| 0 <= i <= j < r.len() implies r[i].numerical_id
                >= r[j].numerical_id by {
                assert(r[i] == s[i] && r[j] == s[j]);
            }
        }
        lemma_count_greater_prefix(r, id);
        assert forall|i: int| 0 <= i < r.len() implies r[i] == s[i] by {}
        if s.last().numerical_id > id {
            assert forall|i: int| 0 <= i < s.len() implies s[i].numerical_id > id by {
                assert(s[i].numerical_id >= s[s.len() - 1].numerical_id);
            }
        }
    }
}

/// What a search gives back after an addition: whatever it found before, and
/// the added device when nothing had its id.
pub proof fn lemma_find_after_add(before: Seq<IoTDevice>, d: IoTDevice, x: u64)
    requires
        sorted_descending(before),
    ensures
        last_with_id(before.insert(count_greater(before, d.numerical_id) as int, d), x) == if last_with_id(
            before,
            x,
        ) is Some {
            last_with_id(before, x)
        } else if d.numerical_id == x {
            Some(d)
        } else {
            None
        },
{
    let k = count_greater(before, d.numerical_id) as int;
    lemma_count_greater_prefix(before, d.numerical_id);
    let a = before.take(k);
    let b = before.skip(k);
    assert(before =~= a + b);
    assert(before.insert(k, d) =~= a + seq![d] + b);
    lemma_last_with_id_add(a, b, x);
    lemma_last_with_id_add(a + seq![d], b, x);
    lemma_last_with_id_add(a, seq![d], x);
    reveal_with_fuel(last_with_id, 2);
    assert(seq![d].drop_last() =~= Seq::<IoTDevice>::empty());
    if d.numerical_id == x {
        lemma_last_with_id(a, x);
        assert forall|i: int| 0 <= i < a.len() implies a[i].numerical_id != x by {
            assert(a[i] == before[i]);
        }
    }
}

/// An ordered tree walks its devices by descending id.
proof fn lemma_ordered_sorted(t: Tree)
    requires
        tree_ordered(t),
    ensures
        sorted_descending(tree_seq(t)),
    decreases t,
{
    if let Some(n) = t {
        lemma_ordered_sorted(n.left);
        lemma_ordered_sorted(n.right);
        let l = tree_seq(n.left);
        let r = tree_seq(n.right);
        let s = tree_seq(t);
        assert(s =~= l + seq![n.dev] + r);
        assert forall|i: int, j: int| 0 <= i <= j < s.len() implies s[i].numerical_id
            >= s[j].numerical_id by {
            if i < l.len() {
                assert(s[i] == l[i]);
                if j < l.len() {
                    assert(s[j] == l[j]);
                } else if j > l.len() {
                    assert(s[j] == r[j - l.len() - 1]);
                }
            } else if i == l.len() {
                if j > l.len() {
                    assert(s[j] == r[j - l.len() - 1]);
                }
            } else {
                assert(s[i] == r[i - l.len() - 1]);
                assert(s[j] == r[j - l.len() - 1]);
            }
        }
    }
}

/// The subtree `t` with `d` hung below it as a new leaf: every node of `t`
/// keeps its place, and `d` goes down to the left of each node whose id is at
/// most its own and to the right of the others.
pub open spec fn hung(t: Tree, d: IoTDevice) -> Tree
    decreases t,
{
    match t {
        Some(n) => if n.dev.numerical_id <= d.numerical_id {
            Some(Box::new(Node { dev: n.dev, left: hung(n.left, d), right: n.right }))
        } else {
            Some(Box::new(Node { dev: n.dev, left: n.left, right: hung(n.right, d) }))
        },
        None => Some(Box::new(Node { dev: d, left: None, right: None })),
    }
}

impl Node {
    /// A subtree holding the one device.
    pub fn new(dev: IoTDevice) -> (t: Tree)
        ensures
            t == Some(Box::new(Node { dev: dev, left: None, right: None })),
            tree_ordered(t),
            tree_seq(t) == seq![dev],
    {
        let t = Some(Box::new(Node { dev: dev, left: None, right: None }));
        proof {
            assert(tree_seq(None) =~= Seq::<IoTDevice>::empty());
            assert(tree_ordered(None));
            assert(tree_seq(t) =~= seq![dev]);
        }
        t
    }
}

/// A registry of devices kept in a binary search tree.
pub struct DeviceRegistry {
    pub root: Tree,
    pub length: u64,
}

impl View for DeviceRegistry {
    type V = Seq<IoTDevice>;

    /// The devices in walk order, by descending id.
    closed spec fn view(&self) -> Seq<IoTDevice> {
        tree_seq(self.root)
    }
}

impl DeviceRegistry {
    /// The tree is ordered and `length` counts its devices.
    pub open spec fn wf(&self) -> bool {
        &&& tree_ordered(self.root)
        &&& self.length == self@.len()
    }

    /// The devices of a well-formed registry come by descending id.
    pub proof fn lemma_sorted(&self)
        requires
            self.wf(),
        ensures
            sorted_descending(self@),
    {
        lemma_ordered_sorted(self.root);
    }

    /// An empty registry.
    pub fn new_empty() -> (r: DeviceRegistry)
        ensures
            r.wf(),
            r@ == Seq::<IoTDevice>::empty(),
            r.root is None,
            r.length == 0,
    {
        DeviceRegistry { root: None, length: 0 }
    }

    /// Adds a device. It goes after the devices with a greater id and before
    /// those with an equal or smaller one.
    pub fn add(&mut self, device: IoTDevice)
        requires
            old(self).wf(),
            old(self).length < u64::MAX,
        ensures
            final(self).wf(),
            final(self).length == old(self).length + 1,
            final(self).root == hung(old(self).root, device),
            final(self)@ == old(self)@.insert(
                count_greater(old(self)@, device.numerical_id) as int,
                device,
            ),
    {
        proof {
            lemma_count_greater_bounds(self@, device.numerical_id);
        }
        self.length += 1;
        let root = self.root.take();
        self.root = self.add_rec(root, device);
    }

    /// Adds a device to a subtree and returns the new subtree; the registry
    /// itself is left as it was.
    pub fn add_rec(&mut self, node: Tree, device: IoTDevice) -> (t: Tree)
        ensures
            *final(self) == *old(self),
            t == hung(node, device),
            tree_ordered(node) ==> tree_ordered(t) && tree_seq(t) == tree_seq(node).insert(
                count_greater(tree_seq(node), device.numerical_id) as int,
                device,
            ),
        decreases node,
    {
        match node {
            Some(mut n) => {
                let ghost old_n = *n;
                let ghost ordered = tree_ordered(Some(n));
                let ghost id = device.numerical_id;
                let ghost l = tree_seq(old_n.left);
                let ghost r = tree_seq(old_n.right);
                proof {
                    lemma_count_greater_bounds(l, id);
                    lemma_count_greater_bounds(r, id);
                    lemma_count_greater_bounds(seq![old_n.dev], id);
                    lemma_count_greater_add(l, seq![old_n.dev], id);
                    lemma_count_greater_add(l + seq![old_n.dev], r, id);
                    assert(tree_seq(node) == l + seq![old_n.dev] + r);
                }
                if n.dev.numerical_id <= device.numerical_id {
                    let left = n.left.take();
                    n.left = self.add_rec(left, device);
                    proof {
                        if ordered {
                        assert forall|i: int| 0 <= i < r.len() implies r[i].numerical_id <= id by {
                            assert(r[i].numerical_id < old_n.dev.numerical_id);
                        }
                        let k = count_greater(l, id) as int;
                        let nl = tree_seq(n.left);
                        assert forall|i: int| 0 <= i < nl.len() implies #[trigger] nl[i].numerical_id
                            >= n.dev.numerical_id by {
                            if i < k {
                                assert(nl[i] == l[i]);
                            } else if i > k {
                                assert(nl[i] == l[i - 1]);
                            }
                        }
                        assert(tree_seq(Some(n)) =~= (l + seq![old_n.dev] + r).insert(k, device));
                        }
                    }
                    Some(n)
                } else {
                    let right = n.right.take();
                    n.right = self.add_rec(right, device);
                    proof {
                        if ordered {
                        assert forall|i: int| 0 <= i < l.len() implies l[i].numerical_id > id by {
                            assert(l[i].numerical_id >= old_n.dev.numerical_id);
                        }
                        let k = count_greater(r, id) as int;
                        let nr = tree_seq(n.right);
                        assert forall|i: int| 0 <= i < nr.len() implies #[trigger] nr[i].numerical_id
                            < n.dev.numerical_id by {
                            if i < k {
                                assert(nr[i] == r[i]);
                            } else if i > k {
                                assert(nr[i] == r[i - 1]);
                            }
                        }
                        assert(tree_seq(Some(n)) =~= (l + seq![old_n.dev] + r).insert(
                            l.len() + 1 + k,
                            device,
                        ));
                        }
                    }
                    Some(n)
                }
            },
            _ => Node::new(device),
        }
    }

    /// The device with this id that comes last in walk order, which is the one
    /// of them added first.
    pub fn find(&self, numerical_id: u64) -> (r: Option<IoTDevice>)
        requires
            self.wf(),
        ensures
            r == last_with_id(self@, numerical_id),
    {
        self.find_recursive(&self.root, numerical_id)
    }

    /// Searches a subtree for a device with this id.
    pub fn find_recursive(&self, node: &Tree, numerical_id: u64) -> (r: Option<IoTDevice>)
        requires
            tree_ordered(*node),
        ensures
            r == last_with_id(tree_seq(*node), numerical_id),
        decreases node,
    {
        match node {
            Some(n) => {
                let ghost l = tree_seq(n.left);
                let ghost r = tree_seq(n.right);
                let ghost d = seq![n.dev];
                proof {
                    assert(tree_seq(*node) == l + d + r);
                    lemma_last_with_id_add(l + d, r, numerical_id);
                    lemma_last_with_id_add(l, d, numerical_id);
                    lemma_last_with_id(l, numerical_id);
                    lemma_last_with_id(r, numerical_id);
                    reveal_with_fuel(last_with_id, 2);
                    assert(d.drop_last() =~= Seq::<IoTDevice>::empty());
                }
                if n.dev.numerical_id == numerical_id {
                    proof {
                        assert forall|i: int| 0 <= i < r.len() implies r[i].numerical_id
                            != numerical_id by {
                            assert(r[i].numerical_id < n.dev.numerical_id);
                        }
                    }
                    Some(n.dev.duplicate())
                } else if n.dev.numerical_id < numerical_id {
                    proof {
                        assert forall|i: int| 0 <= i < r.len() implies r[i].numerical_id
                            != numerical_id by {
                            assert(r[i].numerical_id < n.dev.numerical_id);
                        }
                    }
                    self.find_recursive(&n.left, numerical_id)
                } else {
                    proof {
                        assert forall|i: int| 0 <= i < l.len() implies l[i].numerical_id
                            != numerical_id by {
                            assert(l[i].numerical_id >= n.dev.numerical_id);
                        }
                    }
                    self.find_recursive(&n.right, numerical_id)
                }
            },
            _ => None,
        }
    }

    /// Hands each device to `callback`, in walk order (by descending id).
    pub fn walk(&self, callback: impl Fn(&IoTDevice))
        requires
            self.wf(),
            forall|d: &IoTDevice| call_requires(callback, (d,)),
        ensures
            forall|i: int| 0 <= i < self@.len() ==> call_ensures(callback, (&self@[i],), ()),
    {
        let mut items: Vec<IoTDevice> = Vec::new();
        self.walk_in_order(&self.root, &mut items);
        proof {
            assert(items@ =~= self@);
        }
        let mut i: usize = 0;
        while i < items.len()
            invariant
                i <= items.len(),
                items@ == self@,
                forall|d: &IoTDevice| call_requires(callback, (d,)),
                forall|j: int| 0 <= j < i ==> call_ensures(callback, (&self@[j],), ()),
            decreases items.len() - i,
        {
            callback(&items[i]);
            i += 1;
        }
    }

    /// Appends the devices of a subtree to `out` in walk order.
    fn walk_in_order(&self, node: &Tree, out: &mut Vec<IoTDevice>)
        ensures
            final(out)@ == old(out)@ + tree_seq(*node),
        decreases node,
    {
        if let Some(n) = node {
            self.walk_in_order(&n.left, out);
            out.push(n.dev.duplicate());
            self.walk_in_order(&n.right, out);
            proof {
                assert(tree_seq(*node) == tree_seq(n.left) + seq![n.dev] + tree_seq(n.right));
                assert(final(out)@ =~= old(out)@ + tree_seq(*node));
            }
        } else {
            assert(final(out)@ =~= old(out)@ + tree_seq(*node));
        }
    }
}

} // verus!
