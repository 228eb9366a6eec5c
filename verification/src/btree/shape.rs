//! The tree an insertion builds, node by node.
use vstd::prelude::*;
use crate::IoTDevice;
use super::{Data, Direction, Node, NodeType, Tree};
use super::position::{child_for, closest, insert_pos, lemma_closest};
use super::walk::{height, key_of, kid_wf, lemma_reinserted, node_wf_at, reinserted};

verus! {

/// What an insertion needs of a subtree: every node has one subtree slot per
/// device slot and every device slot filled, and every inner node has its
/// left subtree and every other subtree slot filled.
pub open spec fn filled(n: Node) -> bool
    decreases n,
{
    &&& n.devices@.len() == n.children@.len()
    &&& forall|i: int| 0 <= i < n.devices@.len() ==> (#[trigger] n.devices@[i]) is Some
    &&& n.node_type == NodeType::Regular ==> match n.left_child {
        Some(l) => filled(*l),
        None => false,
    }
    &&& n.node_type == NodeType::Regular ==> forall|i: int|
        0 <= i < n.children@.len() ==> opt_filled(#[trigger] n.children@[i])
}

/// A subtree slot holding a filled subtree.
pub open spec fn opt_filled(t: Option<Tree>) -> bool
    decreases t,
{
    match t {
        Some(c) => filled(*c),
        None => false,
    }
}

/// A well-formed subtree is filled.
pub proof fn lemma_wf_filled(n: Node, order: int, cap: int)
    requires
        node_wf_at(n, order, cap),
    ensures
        filled(n),
    decreases n,
{
    if n.node_type == NodeType::Regular {
        let l = n.left_child.unwrap();
        lemma_wf_filled(*l, order, order + 1);
        assert forall|i: int| 0 <= i < n.children@.len() implies opt_filled(#[trigger] n.children@[i]) by {
            assert(kid_wf(n.children@[i], height(*l), order));
            lemma_wf_filled(*n.children@[i].unwrap(), order, order + 1);
        }
    }
}

/// The two halves of a split of a filled node are filled.
pub proof fn lemma_split_filled(pre: Node, kept: Node, med: IoTDevice, sib: Node)
    requires
        filled(pre),
        1 <= pre.devices@.len() <= usize::MAX,
        split_into(pre, kept, med, sib),
    ensures
        filled(kept),
        filled(sib),
{
    let s = (pre.devices@.len() / 2) as int;
    let d = pre.devices@.skip(s + 1);
    let c = pre.children@.skip(s + 1);
    lemma_reinserted(d, c, |x: Option<IoTDevice>| x is Some, |y: Option<Tree>| opt_filled(y));
    assert forall|i: int| 0 <= i < d.len() implies (|x: Option<IoTDevice>| x is Some)(
        #[trigger] d[i],
    ) by {
        assert(d[i] == pre.devices@[s + 1 + i]);
    }
    if pre.node_type == NodeType::Regular {
        assert forall|i: int| 0 <= i < c.len() implies (|y: Option<Tree>| opt_filled(y))(
            #[trigger] c[i],
        ) by {
            assert(c[i] == pre.children@[s + 1 + i]);
        }
        assert(opt_filled(pre.children@[s]));
    }
    if pre.node_type == NodeType::Regular {
        assert forall|i: int| 0 <= i < kept.children@.len() implies opt_filled(
            #[trigger] kept.children@[i],
        ) by {
            assert(kept.children@[i] == pre.children@[i]);
        }
    }
    assert forall|i: int| 0 <= i < kept.devices@.len() implies (#[trigger] kept.devices@[i]) is Some by {
        assert(kept.devices@[i] == pre.devices@[i]);
    }
}

/// `kept`, `med` and `sib` are what a split makes of `pre`: with `s` half the
/// number of devices, `kept` holds the slots before `s`, `med` is the device
/// at `s`, and `sib` has the subtree after `med` as its left subtree and the
/// slots after `s`, added one by one from the last.
pub open spec fn split_into(pre: Node, kept: Node, med: IoTDevice, sib: Node) -> bool {
    let s = (pre.devices@.len() / 2) as int;
    let rest = reinserted(pre.devices@.skip(s + 1), pre.children@.skip(s + 1));
    &&& Some(med) == pre.devices@[s]
    &&& kept.devices@ == pre.devices@.take(s)
    &&& kept.children@ == pre.children@.take(s)
    &&& kept.left_child == pre.left_child
    &&& kept.node_type == pre.node_type
    &&& sib.node_type == pre.node_type
    &&& sib.left_child == pre.children@[s]
    &&& sib.devices@ == rest.0
    &&& sib.children@ == rest.1
}

/// What an insertion hands back for a node that has become `pre`: `pre`
/// itself while it has at most `order` subtree slots; else its two halves,
/// under a new inner root holding only the middle device when the node is the
/// root, or with the middle device and the sibling for the parent to take.
pub open spec fn finished(pre: Node, order: int, is_root: bool, r: (Tree, Option<Data>)) -> bool {
    if pre.children@.len() < order {
        *r.0 == pre && r.1 is None
    } else if is_root {
        &&& r.1 is None
        &&& r.0.node_type == NodeType::Regular
        &&& r.0.devices@.len() == 1
        &&& r.0.children@.len() == 1
        &&& r.0.left_child matches Some(k)
        &&& r.0.devices@[0] matches Some(m)
        &&& r.0.children@[0] matches Some(sb)
        &&& split_into(pre, *k, m, *sb)
    } else {
        &&& r.1 matches Some((Some(m), Some(sb)))
        &&& split_into(pre, *r.0, m, *sb)
    }
}

/// A leaf that has become `pre` by taking `device` at the place of its id,
/// with an empty subtree slot after it.
pub open spec fn leaf_placed(node: Node, device: IoTDevice, pre: Node) -> bool {
    let p = insert_pos(node.devices@, device.numerical_id);
    &&& pre.devices@ == node.devices@.insert(p, Some(device))
    &&& pre.children@ == node.children@.insert(p, None)
    &&& pre.left_child == node.left_child
    &&& pre.node_type == node.node_type
}

/// The slots of an inner node (devices, subtrees, left subtree) after the
/// subtree where `id` falls was taken out and `nc` put back in its place: the
/// left subtree directly, else with the device before it, added again at the
/// place of that device's id.
pub open spec fn readded_slots(node: Node, id: u64, nc: Tree) -> (
    Seq<Option<IoTDevice>>,
    Seq<Option<Tree>>,
    Option<Tree>,
) {
    match closest(node.devices@, id) {
        Direction::Left => (node.devices@, node.children@, Some(nc)),
        Direction::Right(p) => {
            let d = node.devices@.remove(p as int);
            let c = node.children@.remove(p as int);
            let q = insert_pos(d, key_of(node.devices@[p as int]));
            (d.insert(q, node.devices@[p as int]), c.insert(q, Some(nc)), node.left_child)
        },
    }
}

/// An inner node that has become `pre` once the subtree where `id` falls was
/// replaced by `nc`, and the middle device and sibling `sp` of that subtree's
/// split, if any, were added at the place of the middle device's id.
pub open spec fn regular_placed(node: Node, id: u64, nc: Tree, sp: Option<Data>, pre: Node) -> bool {
    let (d, c, l) = readded_slots(node, id, nc);
    &&& pre.left_child == l
    &&& pre.node_type == node.node_type
    &&& match sp {
        None => pre.devices@ == d && pre.children@ == c,
        Some(x) => {
            let q = insert_pos(d, key_of(x.0));
            &&& pre.devices@ == d.insert(q, x.0)
            &&& pre.children@ == c.insert(q, x.1)
        },
    }
}

/// An inner node that has become `pre` by the insertion of `device` into the
/// subtree where its id falls.
pub open spec fn regular_added(node: Node, device: IoTDevice, order: int, pre: Node) -> bool
    decreases node, 0nat,
{
    match closest(node.devices@, device.numerical_id) {
        Direction::Left => match node.left_child {
            Some(ch) => exists|nc: Tree, sp: Option<Data>|
                added(*ch, device, order, false, (nc, sp)) && #[trigger] regular_placed(
                    node,
                    device.numerical_id,
                    nc,
                    sp,
                    pre,
                ),
            None => false,
        },
        Direction::Right(p) => if 0 <= p < node.children@.len() {
            match node.children@[p as int] {
                Some(ch) => exists|nc: Tree, sp: Option<Data>|
                    added(*ch, device, order, false, (nc, sp)) && #[trigger] regular_placed(
                        node,
                        device.numerical_id,
                        nc,
                        sp,
                        pre,
                    ),
                None => false,
            }
        } else {
            false
        },
    }
}

/// `r` is what the insertion of `device` into the subtree `node` hands back:
/// the device goes into the leaf where its id falls, and every node on the way
/// back up that grows past `order` subtree slots splits.
pub open spec fn added(node: Node, device: IoTDevice, order: int, is_root: bool, r: (Tree, Option<Data>)) -> bool
    decreases node, 1nat,
{
    match node.node_type {
        NodeType::Leaf => exists|pre: Node|
            #[trigger] leaf_placed(node, device, pre) && finished(pre, order, is_root, r),
        NodeType::Regular => exists|pre: Node|
            regular_added(node, device, order, pre) && #[trigger] finished(pre, order, is_root, r),
    }
}

/// The root a database gets when `device` is added: from its old root, or,
/// when it had none, from a leaf holding only `device`.
pub open spec fn root_added(old_root: Option<Tree>, device: IoTDevice, order: int, new_root: Tree) -> bool {
    match old_root {
        Some(t) => added(*t, device, order, true, (new_root, None)),
        None => exists|pre: Node|
            #[trigger] finished(pre, order, true, (new_root, None)) && pre.devices@ == seq![
                Some(device),
            ] && pre.children@ == seq![None::<Tree>] && pre.left_child is None && pre.node_type
                == NodeType::Leaf,
    }
}

/// An inner node that became `pre` from the result of the insertion into the
/// subtree where the id falls was added to as `regular_added` says.
pub proof fn lemma_regular_added(
    node: Node,
    device: IoTDevice,
    order: int,
    ch: Tree,
    nc: Tree,
    sp: Option<Data>,
    pre: Node,
)
    requires
        child_for(node, device.numerical_id) == Some(ch),
        closest(node.devices@, device.numerical_id) matches Direction::Right(p) ==> 0 <= p
            < node.children@.len(),
        added(*ch, device, order, false, (nc, sp)),
        regular_placed(node, device.numerical_id, nc, sp, pre),
    ensures
        regular_added(node, device, order, pre),
{
    let w = (nc, sp);
    assert(added(*ch, device, order, false, (w.0, w.1)));
    assert(regular_placed(node, device.numerical_id, w.0, w.1, pre));
    match closest(node.devices@, device.numerical_id) {
        Direction::Left => {
            assert(node.left_child == Some(ch));
        },
        Direction::Right(p) => {
            assert(node.children@[p as int] == Some(ch));
        },
    }
}

/// An inner node put together from a filled node, a filled new subtree and
/// a filled split, as `regular_placed` says, is filled.
pub proof fn lemma_placed_filled(node: Node, id: u64, nc: Tree, sp: Option<Data>, pre: Node)
    requires
        filled(node),
        node.node_type == NodeType::Regular,
        node.devices@.len() <= usize::MAX,
        filled(*nc),
        sp matches Some(x) ==> x.0 is Some && opt_filled(x.1),
        regular_placed(node, id, nc, sp, pre),
    ensures
        filled(pre),
{
    lemma_closest(node.devices@, id);
    if let Direction::Right(p) = closest(node.devices@, id) {
        lemma_closest(node.devices@.remove(p as int), key_of(node.devices@[p as int]));
    }
    let (d, c, l) = readded_slots(node, id, nc);
    assert(d.len() == c.len() && d.len() == node.devices@.len());
    assert(forall|i: int| 0 <= i < d.len() ==> (#[trigger] d[i]) is Some) by {
        match closest(node.devices@, id) {
            Direction::Left => {},
            Direction::Right(p) => {
                let d0 = node.devices@.remove(p as int);
                lemma_closest(d0, key_of(node.devices@[p as int]));
                let q = insert_pos(d0, key_of(node.devices@[p as int]));
                assert forall|i: int| 0 <= i < d.len() implies (#[trigger] d[i]) is Some by {
                    if i < q {
                        assert(d[i] == d0[i]);
                    } else if i > q {
                        assert(d[i] == d0[i - 1]);
                    }
                }
            },
        }
    }
    assert(forall|i: int| 0 <= i < c.len() ==> opt_filled(#[trigger] c[i])) by {
        match closest(node.devices@, id) {
            Direction::Left => {},
            Direction::Right(p) => {
                let d0 = node.devices@.remove(p as int);
                let c0 = node.children@.remove(p as int);
                lemma_closest(d0, key_of(node.devices@[p as int]));
                let q = insert_pos(d0, key_of(node.devices@[p as int]));
                assert forall|i: int| 0 <= i < c.len() implies opt_filled(#[trigger] c[i]) by {
                    if i < q {
                        assert(c[i] == c0[i]);
                    } else if i > q {
                        assert(c[i] == c0[i - 1]);
                    }
                }
            },
        }
    }
    if let Some(x) = sp {
        lemma_closest(d, key_of(x.0));
        let q = insert_pos(d, key_of(x.0));
        assert forall|i: int| 0 <= i < pre.devices@.len() implies (#[trigger] pre.devices@[i]) is Some by {
            if i < q {
                assert(pre.devices@[i] == d[i]);
            } else if i > q {
                assert(pre.devices@[i] == d[i - 1]);
            }
        }
        assert forall|i: int| 0 <= i < pre.children@.len() implies opt_filled(
            #[trigger] pre.children@[i],
        ) by {
            if i < q {
                assert(pre.children@[i] == c[i]);
            } else if i > q {
                assert(pre.children@[i] == c[i - 1]);
            }
        }
    }
}

} // verus!
