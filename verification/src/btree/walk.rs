//! What a subtree holds, walked in order, and the shape every node keeps.
use vstd::prelude::*;
use vstd::multiset::Multiset;
use crate::IoTDevice;
use super::{Direction, Node, NodeType, Tree};
use super::position::{closest, first_with_id, insert_pos, lemma_closest, lemma_first_with_id_in};

verus! {

/// The device of a slot, as a sequence of zero or one devices.
pub open spec fn dev_seq(d: Option<IoTDevice>) -> Seq<IoTDevice> {
    match d {
        Some(x) => seq![x],
        None => Seq::empty(),
    }
}

/// The devices of a subtree in walk order: the left subtree, then each device
/// followed by the subtree after it.
pub open spec fn walk_node(n: Node) -> Seq<IoTDevice>
    decreases n,
{
    walk_opt(n.left_child) + walk_pairs(n.devices@, n.children@)
}

/// The walk of a subtree slot: nothing when it is empty.
pub open spec fn walk_opt(t: Option<Tree>) -> Seq<IoTDevice>
    decreases t,
{
    match t {
        Some(b) => walk_node(*b),
        None => Seq::empty(),
    }
}

/// The walk over paired devices and subtrees.
pub open spec fn walk_pairs(devs: Seq<Option<IoTDevice>>, kids: Seq<Option<Tree>>) -> Seq<IoTDevice>
    decreases kids,
{
    if devs.len() == 0 || kids.len() == 0 {
        Seq::empty()
    } else {
        walk_pairs(devs.drop_last(), kids.drop_last()) + dev_seq(devs.last()) + walk_opt(
            kids.last(),
        )
    }
}

/// The number of levels below a node, counted along its leftmost path.
pub open spec fn height(n: Node) -> nat
    decreases n,
{
    match n.node_type {
        NodeType::Leaf => 0,
        NodeType::Regular => match n.left_child {
            Some(l) => 1 + height(*l),
            None => 0,
        },
    }
}

/// The shape every node keeps: one subtree slot per device, every device slot
/// filled, at most `order + 1` devices; a leaf has no subtrees, an inner node
/// has all of them, each well formed and all of the same height.
pub open spec fn node_wf(n: Node, order: int) -> bool {
    node_wf_at(n, order, order + 1)
}

/// The shape of `node_wf`, with at most `cap` devices in this node itself.
pub open spec fn node_wf_at(n: Node, order: int, cap: int) -> bool
    decreases n,
{
    &&& n.devices@.len() == n.children@.len()
    &&& n.devices@.len() <= cap
    &&& forall|i: int| 0 <= i < n.devices@.len() ==> (#[trigger] n.devices@[i]) is Some
    &&& match n.node_type {
        NodeType::Leaf => {
            &&& n.left_child is None
            &&& forall|i: int| 0 <= i < n.children@.len() ==> (#[trigger] n.children@[i]) is None
        },
        NodeType::Regular => match n.left_child {
            Some(l) => {
                &&& node_wf_at(*l, order, order + 1)
                &&& forall|i: int|
                    0 <= i < n.children@.len() ==> kid_wf(#[trigger] n.children@[i], height(*l), order)
            },
            None => false,
        },
    }
}

/// A filled subtree slot holding a well-formed subtree of height `h`.
pub open spec fn kid_wf(t: Option<Tree>, h: nat, order: int) -> bool
    decreases t,
{
    match t {
        Some(c) => node_wf_at(*c, order, order + 1) && height(*c) == h,
        None => false,
    }
}

/// Every node below `n` has one subtree slot per device slot.
pub open spec fn aligned(n: Node) -> bool
    decreases n,
{
    &&& n.devices@.len() == n.children@.len()
    &&& match n.left_child {
        Some(c) => aligned(*c),
        None => true,
    }
    &&& forall|i: int| 0 <= i < n.children@.len() ==> opt_aligned(#[trigger] n.children@[i])
}

/// An empty subtree slot, or one holding an aligned subtree.
pub open spec fn opt_aligned(t: Option<Tree>) -> bool
    decreases t,
{
    match t {
        Some(c) => aligned(*c),
        None => true,
    }
}

/// Every node below `n` has at least one subtree slot per device slot.
pub open spec fn covered(n: Node) -> bool
    decreases n,
{
    &&& n.devices@.len() <= n.children@.len()
    &&& match n.left_child {
        Some(c) => covered(*c),
        None => true,
    }
    &&& forall|i: int| 0 <= i < n.children@.len() ==> opt_covered(#[trigger] n.children@[i])
}

/// An empty subtree slot, or one holding a covered subtree.
pub open spec fn opt_covered(t: Option<Tree>) -> bool
    decreases t,
{
    match t {
        Some(c) => covered(*c),
        None => true,
    }
}

/// The devices of a subtree in the order a walk from the front meets them:
/// the left subtree, then for each device slot, front to back, its device
/// and the subtree in the slot of the same index (later subtree slots are
/// not visited).
pub open spec fn walk_front(n: Node) -> Seq<IoTDevice>
    decreases n, n.devices@.len() + 1,
{
    let left = match n.left_child {
        Some(l) => walk_front(*l),
        None => Seq::empty(),
    };
    left + front_pairs(n, n.devices@.len() as int)
}

/// The part of `walk_front(n)` after the left subtree that covers the
/// first `i` device slots.
pub open spec fn front_pairs(n: Node, i: int) -> Seq<IoTDevice>
    decreases n, i,
{
    if i <= 0 || i > n.devices@.len() || i > n.children@.len() {
        Seq::empty()
    } else {
        let sub = match n.children@[i - 1] {
            Some(c) => walk_front(*c),
            None => Seq::empty(),
        };
        front_pairs(n, i - 1) + dev_seq(n.devices@[i - 1]) + sub
    }
}

/// An aligned subtree is covered, and its walk from the front is its walk.
pub proof fn lemma_walk_front(n: Node)
    requires
        aligned(n),
    ensures
        covered(n),
        walk_front(n) == walk_node(n),
    decreases n, n.devices@.len() + 1,
{
    if let Some(l) = n.left_child {
        lemma_walk_front(*l);
    }
    assert forall|i: int| 0 <= i < n.children@.len() implies opt_covered(#[trigger] n.children@[i]) by {
        if let Some(c) = n.children@[i] {
            assert(opt_aligned(n.children@[i]));
            lemma_walk_front(*c);
        }
    }
    lemma_front_pairs(n, n.devices@.len() as int);
    assert(n.devices@.take(n.devices@.len() as int) =~= n.devices@);
    assert(n.children@.take(n.children@.len() as int) =~= n.children@);
}

/// The first `i` slots of an aligned node walk from the front as they walk.
pub proof fn lemma_front_pairs(n: Node, i: int)
    requires
        aligned(n),
        0 <= i <= n.devices@.len(),
    ensures
        front_pairs(n, i) == walk_pairs(n.devices@.take(i), n.children@.take(i)),
    decreases n, i,
{
    let d = n.devices@;
    let c = n.children@;
    if i == 0 {
        assert(d.take(0).len() == 0);
    } else {
        lemma_front_pairs(n, i - 1);
        lemma_walk_pairs_take(d, c, i - 1);
        if let Some(ch) = c[i - 1] {
            assert(opt_aligned(c[i - 1]));
            lemma_walk_front(*ch);
        }
    }
}

/// A well-formed subtree is aligned.
pub proof fn lemma_wf_aligned(n: Node, order: int, cap: int)
    requires
        node_wf_at(n, order, cap),
    ensures
        aligned(n),
    decreases n,
{
    if let Some(l) = n.left_child {
        lemma_wf_aligned(*l, order, order + 1);
    }
    assert forall|i: int| 0 <= i < n.children@.len() implies opt_aligned(#[trigger] n.children@[i]) by {
        if let Some(c) = n.children@[i] {
            assert(kid_wf(n.children@[i], height(*n.left_child.unwrap()), order));
            lemma_wf_aligned(*c, order, order + 1);
        }
    }
}

/// The devices of a subtree, counted with multiplicity.
pub open spec fn contents(n: Node) -> Multiset<IoTDevice> {
    walk_node(n).to_multiset()
}

/// The id of a device slot (meaningful for a filled slot).
pub open spec fn key_of(d: Option<IoTDevice>) -> u64 {
    d.unwrap().numerical_id
}

/// The slots an empty node ends up with when the given pairs are added with
/// `add_key`, each at the place of its device's id, the last pair first.
pub open spec fn reinserted(devs: Seq<Option<IoTDevice>>, kids: Seq<Option<Tree>>) -> (
    Seq<Option<IoTDevice>>,
    Seq<Option<Tree>>,
)
    decreases devs.len(),
{
    if devs.len() == 0 || kids.len() == 0 {
        (Seq::empty(), Seq::empty())
    } else {
        let rest = reinserted(devs.drop_first(), kids.drop_first());
        let pos = insert_pos(rest.0, key_of(devs[0]));
        (rest.0.insert(pos, devs[0]), rest.1.insert(pos, kids[0]))
    }
}

/// An empty sequence holds no device.
pub proof fn lemma_empty_ms()
    ensures
        Seq::<IoTDevice>::empty().to_multiset() == Multiset::<IoTDevice>::empty(),
{
    broadcast use vstd::seq_lib::group_to_multiset_ensures;

    let e = Seq::<IoTDevice>::empty();
    assert forall|a: IoTDevice| e.to_multiset().count(a) == 0 by {
        assert(!e.contains(a));
    }
    assert(e.to_multiset() =~= Multiset::empty());
}

/// The device of a slot, as a multiset.
pub proof fn lemma_dev_seq_ms(d: Option<IoTDevice>)
    ensures
        dev_seq(d).to_multiset() == match d {
            Some(x) => Multiset::empty().insert(x),
            None => Multiset::<IoTDevice>::empty(),
        },
{
    broadcast use vstd::seq_lib::group_to_multiset_ensures;

    lemma_empty_ms();
    let e = Seq::<IoTDevice>::empty();
    if let Some(x) = d {
        assert(dev_seq(d) =~= e.push(x));
    } else {
        assert(dev_seq(d) =~= e);
    }
}

/// Adding one pair at index `k` adds its device and subtree to the walk.
pub proof fn lemma_walk_pairs_insert(
    d: Seq<Option<IoTDevice>>,
    c: Seq<Option<Tree>>,
    k: int,
    x: Option<IoTDevice>,
    y: Option<Tree>,
)
    requires
        d.len() == c.len(),
        0 <= k <= d.len(),
    ensures
        walk_pairs(d.insert(k, x), c.insert(k, y)).to_multiset() == walk_pairs(d, c).to_multiset().add(
            dev_seq(x).to_multiset(),
        ).add(walk_opt(y).to_multiset()),
    decreases d.len(),
{
    broadcast use vstd::seq_lib::lemma_multiset_commutative;

    let d2 = d.insert(k, x);
    let c2 = c.insert(k, y);
    if k == d.len() {
        assert(d2.drop_last() =~= d);
        assert(c2.drop_last() =~= c);
        assert(d2.last() == x);
        assert(c2.last() == y);
    } else {
        assert(d2.drop_last() =~= d.drop_last().insert(k, x));
        assert(c2.drop_last() =~= c.drop_last().insert(k, y));
        assert(d2.last() == d.last());
        assert(c2.last() == c.last());
        lemma_walk_pairs_insert(d.drop_last(), c.drop_last(), k, x, y);
        let a = walk_pairs(d.drop_last(), c.drop_last()).to_multiset();
        let e = dev_seq(d.last()).to_multiset();
        let f = walk_opt(c.last()).to_multiset();
        let g = dev_seq(x).to_multiset();
        let h = walk_opt(y).to_multiset();
        assert(walk_pairs(d2, c2).to_multiset() =~= a.add(g).add(h).add(e).add(f));
        assert(walk_pairs(d, c).to_multiset() =~= a.add(e).add(f));
    }
}

/// Removing the pair at index `k` takes its device and subtree out of the walk.
pub proof fn lemma_walk_pairs_remove(d: Seq<Option<IoTDevice>>, c: Seq<Option<Tree>>, k: int)
    requires
        d.len() == c.len(),
        0 <= k < d.len(),
    ensures
        walk_pairs(d, c).to_multiset() == walk_pairs(d.remove(k), c.remove(k)).to_multiset().add(
            dev_seq(d[k]).to_multiset(),
        ).add(walk_opt(c[k]).to_multiset()),
{
    assert(d.remove(k).insert(k, d[k]) =~= d);
    assert(c.remove(k).insert(k, c[k]) =~= c);
    lemma_walk_pairs_insert(d.remove(k), c.remove(k), k, d[k], c[k]);
}

/// Splitting the pairs at `k` splits the walk.
pub proof fn lemma_walk_pairs_split(d: Seq<Option<IoTDevice>>, c: Seq<Option<Tree>>, k: int)
    requires
        d.len() == c.len(),
        0 <= k <= d.len(),
    ensures
        walk_pairs(d, c) == walk_pairs(d.take(k), c.take(k)) + walk_pairs(d.skip(k), c.skip(k)),
    decreases d.len(),
{
    if k == d.len() {
        assert(d.take(k) =~= d);
        assert(c.take(k) =~= c);
        assert(d.skip(k).len() == 0);
        assert(walk_pairs(d, c) + Seq::<IoTDevice>::empty() =~= walk_pairs(d, c));
    } else {
        lemma_walk_pairs_split(d.drop_last(), c.drop_last(), k);
        assert(d.drop_last().take(k) =~= d.take(k));
        assert(c.drop_last().take(k) =~= c.take(k));
        assert(d.skip(k).drop_last() =~= d.drop_last().skip(k));
        assert(c.skip(k).drop_last() =~= c.drop_last().skip(k));
        assert(d.skip(k).last() == d.last());
        assert(c.skip(k).last() == c.last());
        let a = walk_pairs(d.take(k), c.take(k));
        let b = walk_pairs(d.drop_last().skip(k), c.drop_last().skip(k));
        let e = dev_seq(d.last());
        let f = walk_opt(c.last());
        assert(walk_pairs(d, c) =~= a + b + e + f);
        assert(walk_pairs(d.skip(k), c.skip(k)) =~= b + e + f);
    }
}

/// What `reinserted` keeps: the lengths, each slot property that held of
/// every input slot, and the devices of the walk.
pub proof fn lemma_reinserted(
    devs: Seq<Option<IoTDevice>>,
    kids: Seq<Option<Tree>>,
    pd: spec_fn(Option<IoTDevice>) -> bool,
    pk: spec_fn(Option<Tree>) -> bool,
)
    requires
        devs.len() == kids.len() <= usize::MAX,
    ensures
        reinserted(devs, kids).0.len() == devs.len(),
        reinserted(devs, kids).1.len() == devs.len(),
        (forall|i: int| 0 <= i < devs.len() ==> pd(#[trigger] devs[i])) ==> (forall|i: int|
            0 <= i < devs.len() ==> pd(#[trigger] reinserted(devs, kids).0[i])),
        (forall|i: int| 0 <= i < kids.len() ==> pk(#[trigger] kids[i])) ==> (forall|i: int|
            0 <= i < kids.len() ==> pk(#[trigger] reinserted(devs, kids).1[i])),
        walk_pairs(reinserted(devs, kids).0, reinserted(devs, kids).1).to_multiset()
            == walk_pairs(devs, kids).to_multiset(),
    decreases devs.len(),
{
    broadcast use vstd::seq_lib::lemma_multiset_commutative;

    if devs.len() > 0 {
        let dr = devs.drop_first();
        let kr = kids.drop_first();
        lemma_reinserted(dr, kr, pd, pk);
        let rest = reinserted(dr, kr);
        lemma_closest(rest.0, key_of(devs[0]));
        let pos = insert_pos(rest.0, key_of(devs[0]));
        let r = reinserted(devs, kids);
        if forall|i: int| 0 <= i < devs.len() ==> pd(#[trigger] devs[i]) {
            assert forall|i: int| 0 <= i < dr.len() implies pd(#[trigger] dr[i]) by {
                assert(dr[i] == devs[i + 1]);
            }
            assert(pd(devs[0]));
            assert forall|i: int| 0 <= i < devs.len() implies pd(#[trigger] r.0[i]) by {
                if i < pos {
                    assert(r.0[i] == rest.0[i]);
                } else if i > pos {
                    assert(r.0[i] == rest.0[i - 1]);
                }
            }
        }
        if forall|i: int| 0 <= i < kids.len() ==> pk(#[trigger] kids[i]) {
            assert forall|i: int| 0 <= i < kr.len() implies pk(#[trigger] kr[i]) by {
                assert(kr[i] == kids[i + 1]);
            }
            assert(pk(kids[0]));
            assert forall|i: int| 0 <= i < kids.len() implies pk(#[trigger] r.1[i]) by {
                if i < pos {
                    assert(r.1[i] == rest.1[i]);
                } else if i > pos {
                    assert(r.1[i] == rest.1[i - 1]);
                }
            }
        }
        lemma_walk_pairs_insert(rest.0, rest.1, pos, devs[0], kids[0]);
        assert(devs =~= dr.insert(0, devs[0]));
        assert(kids =~= kr.insert(0, kids[0]));
        lemma_walk_pairs_insert(dr, kr, 0, devs[0], kids[0]);
    }
}

/// The walk over pairs, cut around the pair at index `i`.
pub proof fn lemma_walk_pairs_at(d: Seq<Option<IoTDevice>>, c: Seq<Option<Tree>>, i: int)
    requires
        d.len() == c.len(),
        0 <= i < d.len(),
    ensures
        walk_pairs(d, c) == walk_pairs(d.take(i), c.take(i)) + dev_seq(d[i]) + walk_opt(c[i])
            + walk_pairs(d.skip(i + 1), c.skip(i + 1)),
{
    lemma_walk_pairs_split(d, c, i);
    let ds = d.skip(i);
    let cs = c.skip(i);
    lemma_walk_pairs_split(ds, cs, 1);
    assert(ds.skip(1) =~= d.skip(i + 1));
    assert(cs.skip(1) =~= c.skip(i + 1));
    let d1 = ds.take(1);
    let c1 = cs.take(1);
    assert(d1.drop_last().len() == 0);
    assert(walk_pairs(d1.drop_last(), c1.drop_last()) =~= Seq::<IoTDevice>::empty());
    assert(d1.last() == d[i]);
    assert(c1.last() == c[i]);
    assert(walk_pairs(d1, c1) =~= dev_seq(d[i]) + walk_opt(c[i]));
}

/// The walk over the first `i + 1` pairs extends that over the first `i`.
pub proof fn lemma_walk_pairs_take(d: Seq<Option<IoTDevice>>, c: Seq<Option<Tree>>, i: int)
    requires
        d.len() == c.len(),
        0 <= i < d.len(),
    ensures
        walk_pairs(d.take(i + 1), c.take(i + 1)) == walk_pairs(d.take(i), c.take(i)) + dev_seq(d[i])
            + walk_opt(c[i]),
{
    assert(d.take(i + 1).drop_last() =~= d.take(i));
    assert(c.take(i + 1).drop_last() =~= c.take(i));
}

/// The device a search for `key` finds: the first one with that id in the
/// node, else the result of searching the subtree where `key` falls.
pub open spec fn search(n: Node, key: u64) -> Option<IoTDevice>
    decreases n,
{
    match first_with_id(n.devices@, key) {
        Some(d) => Some(d),
        None => if n.node_type == NodeType::Leaf {
            None
        } else {
            match closest(n.devices@, key) {
                Direction::Left => match n.left_child {
                    Some(c) => search(*c, key),
                    None => None,
                },
                Direction::Right(i) => if i < n.children@.len() {
                    match n.children@[i as int] {
                        Some(c) => search(*c, key),
                        None => None,
                    }
                } else {
                    None
                },
            }
        },
    }
}

/// A search from an optional root.
pub open spec fn search_opt(t: Option<Tree>, key: u64) -> Option<IoTDevice> {
    match t {
        Some(n) => search(*n, key),
        None => None,
    }
}

/// A search finds only devices of the subtree with the id searched for.
pub proof fn lemma_search_sound(n: Node, key: u64, order: int)
    requires
        node_wf(n, order),
    ensures
        search(n, key) matches Some(d) ==> d.numerical_id == key && walk_node(n).contains(d),
    decreases n,
{
    let devs = n.devices@;
    let kids = n.children@;
    lemma_first_with_id_in(devs, key);
    if let Some(d) = first_with_id(devs, key) {
        let i = choose|i: int| 0 <= i < devs.len() && devs[i] == Some(d);
        lemma_walk_pairs_at(devs, kids, i);
        let w = walk_node(n);
        let off = (walk_opt(n.left_child).len() + walk_pairs(devs.take(i), kids.take(i)).len()) as int;
        assert(w[off] == d);
    } else if n.node_type == NodeType::Regular {
        match closest(devs, key) {
            Direction::Left => {
                let c = n.left_child.unwrap();
                lemma_search_sound(*c, key, order);
                if let Some(d) = search(*c, key) {
                    let j = choose|j: int| 0 <= j < walk_node(*c).len() && walk_node(*c)[j] == d;
                    assert(walk_node(n)[j] == d);
                }
            },
            Direction::Right(i) => {
                if i < kids.len() {
                    assert(kid_wf(kids[i as int], height(*n.left_child.unwrap()), order));
                    let c = kids[i as int].unwrap();
                    lemma_search_sound(*c, key, order);
                    if let Some(d) = search(*c, key) {
                        let j = choose|j: int| 0 <= j < walk_node(*c).len() && walk_node(*c)[j] == d;
                        lemma_walk_pairs_at(devs, kids, i as int);
                        let off = (walk_opt(n.left_child).len() + walk_pairs(
                            devs.take(i as int),
                            kids.take(i as int),
                        ).len() + dev_seq(devs[i as int]).len()) as int;
                        assert(walk_node(n)[off + j] == d);
                    }
                }
            },
        }
    }
}

} // verus!
