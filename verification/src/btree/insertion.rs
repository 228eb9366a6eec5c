//! The steps of an insertion, each proved on its own.
use vstd::prelude::*;
use vstd::multiset::Multiset;
use crate::IoTDevice;
use super::{Node, NodeType, Tree};
use super::position::{insert_pos, lemma_closest};
use super::walk::{contents, dev_seq, height, kid_wf, lemma_dev_seq_ms, lemma_empty_ms, lemma_reinserted, lemma_walk_pairs_at, lemma_walk_pairs_insert, lemma_walk_pairs_remove, node_wf, node_wf_at, reinserted, walk_node, walk_opt, walk_pairs};
use super::validity::{keys_ok_cap, opt_keys_ok, size_ok};

verus! {

/// A device added to a leaf.
pub(crate) proof fn lemma_leaf_insert(
    old_node: Node,
    n: Node,
    key: u64,
    dv: IoTDevice,
    order: int,
    is_root: bool,
)
    requires
        old_node.node_type == NodeType::Leaf,
        node_wf(old_node, order),
        old_node.devices@.len() <= usize::MAX,
        n.node_type == NodeType::Leaf,
        n.left_child == old_node.left_child,
        n.devices@ == old_node.devices@.insert(insert_pos(old_node.devices@, key), Some(dv)),
        n.children@ == old_node.children@.insert(insert_pos(old_node.devices@, key), None),
    ensures
        node_wf_at(n, order, order + 2),
        height(n) == height(old_node),
        n.devices@.len() >= 1,
        contents(n) == contents(old_node).insert(dv),
        forall|fill: bool|
            size_ok(old_node, is_root, order, fill) ==> #[trigger] keys_ok_cap(
                n,
                is_root,
                order,
                order + 1,
                fill,
            ),
{
    broadcast use vstd::seq_lib::lemma_multiset_commutative;

    lemma_closest(old_node.devices@, key);
    let k = insert_pos(old_node.devices@, key);
    lemma_walk_pairs_insert(old_node.devices@, old_node.children@, k, Some(dv), None);
    let d = n.devices@;
    let c = n.children@;
    assert forall|i: int| 0 <= i < d.len() implies (#[trigger] d[i]) is Some by {
        if i < k {
            assert(d[i] == old_node.devices@[i]);
        } else if i > k {
            assert(d[i] == old_node.devices@[i - 1]);
        }
    }
    assert forall|i: int| 0 <= i < c.len() implies (#[trigger] c[i]) is None by {
        if i < k {
            assert(c[i] == old_node.children@[i]);
        } else if i > k {
            assert(c[i] == old_node.children@[i - 1]);
        }
    }
    lemma_dev_seq_ms(Some(dv));
    lemma_empty_ms();
    assert(walk_opt(None).to_multiset() =~= Multiset::<IoTDevice>::empty());
    assert(contents(n) =~= contents(old_node).insert(dv));
}

/// The left subtree of an inner node replaced by `new_child`.
pub(crate) proof fn lemma_regular_left(old_node: Node, n: Node, new_child: Node, order: int)
    requires
        old_node.node_type == NodeType::Regular,
        node_wf(old_node, order),
        n.node_type == NodeType::Regular,
        n.devices@ == old_node.devices@,
        n.children@ == old_node.children@,
        n.left_child matches Some(b) && *b == new_child,
        node_wf(new_child, order),
        height(new_child) == height(*old_node.left_child.unwrap()),
    ensures
        node_wf(n, order),
        height(n) == height(old_node),
        contents(n).add(contents(*old_node.left_child.unwrap())) == contents(old_node).add(
            contents(new_child),
        ),
        forall|is_root: bool, fill: bool|
            size_ok(old_node, is_root, order, fill) && size_ok(new_child, false, order, fill) ==> #[trigger] size_ok(
                n,
                is_root,
                order,
                fill,
            ),
{
    broadcast use vstd::seq_lib::lemma_multiset_commutative;

    let l = old_node.left_child.unwrap();
    assert forall|i: int| 0 <= i < n.children@.len() implies kid_wf(
        #[trigger] n.children@[i],
        height(new_child),
        order,
    ) by {
        assert(kid_wf(old_node.children@[i], height(*l), order));
    }
    assert(contents(n).add(contents(*l)) =~= contents(old_node).add(contents(new_child)));
}

/// The pair at index `p` of an inner node taken out and put back with the
/// subtree `new_child`.
pub(crate) proof fn lemma_regular_right(
    old_node: Node,
    removed: Node,
    n: Node,
    p: int,
    key: u64,
    new_child: Node,
    order: int,
)
    requires
        old_node.node_type == NodeType::Regular,
        node_wf(old_node, order),
        old_node.devices@.len() <= usize::MAX,
        0 <= p < old_node.devices@.len(),
        removed.devices@ == old_node.devices@.remove(p),
        removed.children@ == old_node.children@.remove(p),
        removed.left_child == old_node.left_child,
        n.node_type == NodeType::Regular,
        n.left_child == old_node.left_child,
        n.devices@ == removed.devices@.insert(insert_pos(removed.devices@, key), old_node.devices@[p]),
        n.children@[insert_pos(removed.devices@, key)] matches Some(b) && *b == new_child,
        n.children@ == removed.children@.insert(
            insert_pos(removed.devices@, key),
            n.children@[insert_pos(removed.devices@, key)],
        ),
        node_wf(new_child, order),
        height(new_child) == height(*old_node.children@[p].unwrap()),
    ensures
        node_wf(n, order),
        height(n) == height(old_node),
        contents(n).add(contents(*old_node.children@[p].unwrap())) == contents(old_node).add(
            contents(new_child),
        ),
        forall|is_root: bool, fill: bool|
            size_ok(old_node, is_root, order, fill) && size_ok(new_child, false, order, fill) ==> #[trigger] size_ok(
                n,
                is_root,
                order,
                fill,
            ),
{
    broadcast use vstd::seq_lib::lemma_multiset_commutative;

    let l = old_node.left_child.unwrap();
    let od = old_node.devices@;
    let oc = old_node.children@;
    let k = insert_pos(removed.devices@, key);
    lemma_closest(removed.devices@, key);
    assert(kid_wf(oc[p], height(*l), order));
    let d = n.devices@;
    let c = n.children@;
    assert forall|i: int| 0 <= i < d.len() implies (#[trigger] d[i]) is Some by {
        if i != k {
            let j = if i < k { i } else { i - 1 };
            assert(d[i] == removed.devices@[j]);
            if j < p {
                assert(removed.devices@[j] == od[j]);
            } else {
                assert(removed.devices@[j] == od[j + 1]);
            }
        }
    }
    assert forall|i: int| 0 <= i < c.len() implies kid_wf(#[trigger] c[i], height(*l), order) by {
        if i != k {
            let j = if i < k { i } else { i - 1 };
            assert(c[i] == removed.children@[j]);
            if j < p {
                assert(removed.children@[j] == oc[j]);
                assert(kid_wf(oc[j], height(*l), order));
            } else {
                assert(removed.children@[j] == oc[j + 1]);
                assert(kid_wf(oc[j + 1], height(*l), order));
            }
        }
    }
    assert forall|is_root: bool, fill: bool|
        size_ok(old_node, is_root, order, fill) && size_ok(new_child, false, order, fill) implies #[trigger] size_ok(
        n,
        is_root,
        order,
        fill,
    ) by {
        assert forall|i: int| 0 <= i < c.len() implies opt_keys_ok(#[trigger] c[i], order, fill) by {
            if i != k {
                let j = if i < k { i } else { i - 1 };
                assert(c[i] == removed.children@[j]);
                if j < p {
                    assert(removed.children@[j] == oc[j]);
                    assert(opt_keys_ok(oc[j], order, fill));
                } else {
                    assert(removed.children@[j] == oc[j + 1]);
                    assert(opt_keys_ok(oc[j + 1], order, fill));
                }
            }
        }
    }
    lemma_walk_pairs_remove(od, oc, p);
    lemma_walk_pairs_insert(removed.devices@, removed.children@, k, od[p], c[k]);
    assert(contents(n).add(contents(*oc[p].unwrap())) =~= contents(old_node).add(
        contents(new_child),
    ));
}

/// The middle device and new sibling handed up by a child added to an inner node.
pub(crate) proof fn lemma_add_split(rd: Node, n: Node, med: IoTDevice, sib: Node, order: int)
    requires
        rd.node_type == NodeType::Regular,
        node_wf(rd, order),
        rd.devices@.len() <= usize::MAX,
        n.node_type == NodeType::Regular,
        n.left_child == rd.left_child,
        n.devices@ == rd.devices@.insert(insert_pos(rd.devices@, med.numerical_id), Some(med)),
        n.children@[insert_pos(rd.devices@, med.numerical_id)] matches Some(b) && *b == sib,
        n.children@ == rd.children@.insert(
            insert_pos(rd.devices@, med.numerical_id),
            n.children@[insert_pos(rd.devices@, med.numerical_id)],
        ),
        node_wf(sib, order),
        height(sib) == height(*rd.left_child.unwrap()),
    ensures
        node_wf_at(n, order, order + 2),
        height(n) == height(rd),
        n.devices@.len() >= 1,
        contents(n) == contents(rd).insert(med).add(contents(sib)),
        forall|is_root: bool, fill: bool|
            size_ok(rd, is_root, order, fill) && size_ok(sib, false, order, fill) ==> #[trigger] keys_ok_cap(
                n,
                is_root,
                order,
                order + 1,
                fill,
            ),
{
    broadcast use vstd::seq_lib::lemma_multiset_commutative;

    let k = insert_pos(rd.devices@, med.numerical_id);
    lemma_closest(rd.devices@, med.numerical_id);
    let lh = height(*rd.left_child.unwrap());
    let d = n.devices@;
    let c = n.children@;
    assert forall|i: int| 0 <= i < d.len() implies (#[trigger] d[i]) is Some by {
        if i < k {
            assert(d[i] == rd.devices@[i]);
        } else if i > k {
            assert(d[i] == rd.devices@[i - 1]);
        }
    }
    assert forall|i: int| 0 <= i < c.len() implies kid_wf(#[trigger] c[i], lh, order) by {
        if i < k {
            assert(c[i] == rd.children@[i]);
        } else if i > k {
            assert(c[i] == rd.children@[i - 1]);
        }
    }
    assert forall|is_root: bool, fill: bool|
        size_ok(rd, is_root, order, fill) && size_ok(sib, false, order, fill) implies #[trigger] keys_ok_cap(
        n,
        is_root,
        order,
        order + 1,
        fill,
    ) by {
        assert forall|i: int| 0 <= i < c.len() implies opt_keys_ok(#[trigger] c[i], order, fill) by {
            if i < k {
                assert(c[i] == rd.children@[i]);
            } else if i > k {
                assert(c[i] == rd.children@[i - 1]);
            }
        }
    }
    lemma_walk_pairs_insert(rd.devices@, rd.children@, k, Some(med), c[k]);
    lemma_dev_seq_ms(Some(med));
    assert(contents(n) =~= contents(rd).insert(med).add(contents(sib)));
}

/// The two halves of a node that `split` leaves, and the device between them.
pub(crate) proof fn lemma_split_parts(pre: Node, kept: Node, sib: Node, med: IoTDevice, order: int)
    requires
        node_wf_at(pre, order, order + 2),
        1 <= pre.devices@.len() <= usize::MAX,
        ({
            let s = (pre.devices@.len() / 2) as int;
            let rest = reinserted(pre.devices@.skip(s + 1), pre.children@.skip(s + 1));
            &&& Some(med) == pre.devices@[s]
            &&& kept.devices@ == pre.devices@.take(s)
            &&& kept.children@ == pre.children@.take(s)
            &&& kept.left_child == pre.left_child
            &&& kept.node_type == pre.node_type
            &&& sib.node_type == pre.node_type
            &&& sib.left_child == pre.children@[s]
            &&& sib.devices@ == rest.0
            &&& sib.children@ == rest.1
        }),
    ensures
        node_wf(kept, order),
        node_wf(sib, order),
        height(kept) == height(pre),
        height(sib) == height(pre),
        contents(kept).insert(med).add(contents(sib)) == contents(pre),
        forall|is_root: bool, fill: bool|
            order >= 2 && #[trigger] keys_ok_cap(pre, is_root, order, order + 1, fill)
                && pre.children@.len() + 1 > order ==> size_ok(kept, false, order, fill) && size_ok(
                sib,
                false,
                order,
                fill,
            ),
{
    broadcast use vstd::seq_lib::lemma_multiset_commutative;

    let sp = (pre.devices@.len() / 2) as int;
    let dd = pre.devices@;
    let cc = pre.children@;
    let sd = dd.skip(sp + 1);
    let sc = cc.skip(sp + 1);
    let h = height(pre);
    let kh: nat = if pre.node_type == NodeType::Leaf { 0 } else { (h - 1) as nat };
    assert forall|i: int| 0 <= i < sd.len() implies (#[trigger] sd[i]) is Some by {
        assert(sd[i] == dd[i + sp + 1]);
    }
    let pk = |y: Option<Tree>|
        if pre.node_type == NodeType::Leaf {
            y is None
        } else {
            kid_wf(y, kh, order)
        };
    lemma_reinserted(sd, sc, |x: Option<IoTDevice>| x is Some, pk);
    assert forall|i: int| 0 <= i < sc.len() implies pk(#[trigger] sc[i]) by {
        assert(sc[i] == cc[i + sp + 1]);
    }
    if pre.node_type == NodeType::Regular {
        assert(height(*pre.left_child.unwrap()) == kh);
        assert(kid_wf(cc[sp], kh, order));
        assert forall|i: int| 0 <= i < kept.children@.len() implies kid_wf(
            #[trigger] kept.children@[i],
            kh,
            order,
        ) by {
            assert(kept.children@[i] == cc[i]);
        }
    }
    assert(node_wf_at(kept, order, order + 1));
    assert(node_wf_at(sib, order, order + 1));
    assert forall|is_root: bool, fill: bool|
        order >= 2 && #[trigger] keys_ok_cap(pre, is_root, order, order + 1, fill) && pre.children@.len()
            + 1 > order implies size_ok(kept, false, order, fill) && size_ok(sib, false, order, fill) by {
        let ok = |y: Option<Tree>| opt_keys_ok(y, order, fill);
        lemma_reinserted(sd, sc, |x: Option<IoTDevice>| true, ok);
        assert forall|i: int| 0 <= i < sc.len() implies ok(#[trigger] sc[i]) by {
            assert(sc[i] == cc[i + sp + 1]);
        }
        assert forall|i: int| 0 <= i < kept.children@.len() implies opt_keys_ok(
            #[trigger] kept.children@[i],
            order,
            fill,
        ) by {
            assert(kept.children@[i] == cc[i]);
        }
        assert forall|i: int| 0 <= i < sib.children@.len() implies opt_keys_ok(
            #[trigger] sib.children@[i],
            order,
            fill,
        ) by {
            assert(ok(sib.children@[i]));
        }
        assert(opt_keys_ok(cc[sp], order, fill));
    }
    lemma_walk_pairs_at(dd, cc, sp);
    lemma_dev_seq_ms(Some(med));
    assert(contents(kept).insert(med).add(contents(sib)) =~= contents(pre));
}

/// A new root over two halves of the old one.
pub(crate) proof fn lemma_new_root(kept: Node, sib: Node, med: IoTDevice, parent: Node, order: int)
    requires
        node_wf(kept, order),
        node_wf(sib, order),
        height(sib) == height(kept),
        order >= 0,
        parent.node_type == NodeType::Regular,
        parent.left_child matches Some(b) && *b == kept,
        parent.devices@ == seq![Some(med)],
        parent.children@.len() == 1,
        parent.children@[0] matches Some(c) && *c == sib,
    ensures
        node_wf(parent, order),
        height(parent) == height(kept) + 1,
        contents(parent) == contents(kept).insert(med).add(contents(sib)),
        walk_node(parent) == walk_node(kept) + seq![med] + walk_node(sib),
        forall|fill: bool|
            order >= 2 && size_ok(kept, false, order, fill) && size_ok(sib, false, order, fill)
                ==> #[trigger] size_ok(parent, true, order, fill),
{
    broadcast use vstd::seq_lib::lemma_multiset_commutative;

    assert(kid_wf(parent.children@[0], height(kept), order));
    assert forall|fill: bool|
        order >= 2 && size_ok(kept, false, order, fill) && size_ok(sib, false, order, fill)
            implies #[trigger] size_ok(parent, true, order, fill) by {
        assert(opt_keys_ok(parent.children@[0], order, fill) == size_ok(sib, false, order, fill));
        assert forall|i: int| 0 <= i < parent.children@.len() implies opt_keys_ok(
            #[trigger] parent.children@[i],
            order,
            fill,
        ) by {
            assert(i == 0);
        }
    }
    let d1 = parent.devices@;
    let c1 = parent.children@;
    assert(d1.drop_last().len() == 0);
    assert(walk_pairs(d1.drop_last(), c1.drop_last()) =~= Seq::<IoTDevice>::empty());
    assert(walk_pairs(d1, c1) =~= dev_seq(Some(med)) + walk_opt(Some(Box::new(sib))));
    lemma_dev_seq_ms(Some(med));
    assert(contents(parent) =~= contents(kept).insert(med).add(contents(sib)));
    assert(walk_node(parent) =~= walk_node(kept) + seq![med] + walk_node(sib));
}

} // verus!
