//! Search order: walks with increasing ids, searches that find, and insertions that keep the order.
use vstd::prelude::*;
use crate::IoTDevice;
use super::{Data, Direction, Node, NodeType, Tree};
use super::position::{child_for, closest, first_with_id, insert_pos, is_greater, lemma_closest, lemma_first_with_id_in, lemma_stop_index, stop_index};
use super::walk::{dev_seq, height, key_of, kid_wf, lemma_walk_pairs_at, lemma_walk_pairs_split, lemma_walk_pairs_take, node_wf, node_wf_at, reinserted, search, walk_node, walk_opt, walk_pairs};

verus! {

/// The ids of `s` strictly increase.
pub open spec fn increasing_ids(s: Seq<IoTDevice>) -> bool {
    forall|i: int, j: int| 0 <= i < j < s.len() ==> s[i].numerical_id < s[j].numerical_id
}

/// No two devices of `s` share an id.
pub open spec fn distinct_ids(s: Seq<IoTDevice>) -> bool {
    forall|i: int, j: int| 0 <= i < j < s.len() ==> s[i].numerical_id != s[j].numerical_id
}

/// Some device of `s` has id `x`.
pub open spec fn has_id(s: Seq<IoTDevice>, x: u64) -> bool {
    exists|j: int| 0 <= j < s.len() && s[j].numerical_id == x
}

/// How many devices of `s` have an id smaller than `x`.
pub open spec fn count_less(s: Seq<IoTDevice>, x: u64) -> nat
    decreases s.len(),
{
    if s.len() == 0 {
        0
    } else {
        count_less(s.drop_last(), x) + if s.last().numerical_id < x {
            1nat
        } else {
            0nat
        }
    }
}

/// Counting smaller ids over two sequences in a row adds up.
pub proof fn lemma_count_less_add(a: Seq<IoTDevice>, b: Seq<IoTDevice>, x: u64)
    ensures
        count_less(a + b, x) == count_less(a, x) + count_less(b, x),
    decreases b.len(),
{
    if b.len() == 0 {
        assert(a + b =~= a);
    } else {
        assert((a + b).drop_last() =~= a + b.drop_last());
        lemma_count_less_add(a, b.drop_last(), x);
    }
}

/// In a sequence with increasing ids and no device of id `x`, the devices
/// below `x` are the first `count_less(s, x)` ones.
pub proof fn lemma_count_less_split(s: Seq<IoTDevice>, x: u64)
    requires
        increasing_ids(s),
        !has_id(s, x),
    ensures
        count_less(s, x) <= s.len(),
        forall|i: int| 0 <= i < count_less(s, x) ==> (#[trigger] s[i]).numerical_id < x,
        forall|i: int| count_less(s, x) <= i < s.len() ==> (#[trigger] s[i]).numerical_id > x,
    decreases s.len(),
{
    if s.len() > 0 {
        let r = s.drop_last();
        assert forall|i: int| 0 <= i < r.len() implies r[i] == s[i] by {}
        assert(!has_id(r, x)) by {
            if has_id(r, x) {
                let j = choose|j: int| 0 <= j < r.len() && r[j].numerical_id == x;
                assert(s[j].numerical_id == x);
            }
        }
        lemma_count_less_split(r, x);
        assert(s[s.len() - 1].numerical_id != x);
        if s.last().numerical_id < x {
            assert forall|i: int| 0 <= i < s.len() implies (#[trigger] s[i]).numerical_id < x by {
                if i < s.len() - 1 {
                    assert(s[i].numerical_id < s[s.len() - 1].numerical_id);
                }
            }
        }
    }
}

/// Inserting a device of a new id after the smaller ids keeps the ids increasing.
pub proof fn lemma_insert_increasing(s: Seq<IoTDevice>, d: IoTDevice)
    requires
        increasing_ids(s),
        !has_id(s, d.numerical_id),
    ensures
        increasing_ids(s.insert(count_less(s, d.numerical_id) as int, d)),
{
    lemma_count_less_split(s, d.numerical_id);
    let k = count_less(s, d.numerical_id) as int;
    let t = s.insert(k, d);
    assert forall|i: int, j: int| 0 <= i < j < t.len() implies t[i].numerical_id
        < t[j].numerical_id by {
        if i < k {
            assert(t[i] == s[i]);
        } else if i > k {
            assert(t[i] == s[i - 1]);
        }
        if j < k {
            assert(t[j] == s[j]);
        } else if j > k {
            assert(t[j] == s[j - 1]);
        }
    }
}

/// A stretch of a sequence with increasing ids has increasing ids.
pub proof fn lemma_increasing_sub(s: Seq<IoTDevice>, a: int, b: int)
    requires
        increasing_ids(s),
        0 <= a <= b <= s.len(),
    ensures
        increasing_ids(s.subrange(a, b)),
{
    let t = s.subrange(a, b);
    assert forall|i: int, j: int| 0 <= i < j < t.len() implies t[i].numerical_id
        < t[j].numerical_id by {
        assert(t[i] == s[a + i] && t[j] == s[a + j]);
    }
}

/// The keys of a node whose device slots are all filled, in order.
pub open spec fn keys_increasing(devs: Seq<Option<IoTDevice>>) -> bool {
    forall|i: int, j: int| 0 <= i < j < devs.len() ==> key_of(devs[i]) < key_of(devs[j])
}

/// Among increasing keys that do not include `x`, `insert_pos` counts the keys below `x`.
pub proof fn lemma_insert_pos_sorted(devs: Seq<Option<IoTDevice>>, x: u64)
    requires
        devs.len() <= usize::MAX,
        forall|i: int| 0 <= i < devs.len() ==> (#[trigger] devs[i]) is Some,
        keys_increasing(devs),
        forall|i: int| 0 <= i < devs.len() ==> key_of(#[trigger] devs[i]) != x,
    ensures
        0 <= insert_pos(devs, x) <= devs.len(),
        forall|i: int| 0 <= i < insert_pos(devs, x) ==> key_of(#[trigger] devs[i]) < x,
        forall|i: int| insert_pos(devs, x) <= i < devs.len() ==> key_of(#[trigger] devs[i]) > x,
{
    lemma_closest(devs, x);
    lemma_stop_index(devs, x);
    let st = stop_index(devs, x);
    assert forall|i: int| 0 <= i < st implies key_of(#[trigger] devs[i]) < x by {
        assert(!is_greater(devs[i], x));
    }
    if st < devs.len() {
        assert forall|i: int| st <= i < devs.len() implies key_of(#[trigger] devs[i]) > x by {
            assert(is_greater(devs[st], x));
            if i > st {
                assert(key_of(devs[st]) < key_of(devs[i]));
            }
        }
    }
    match closest(devs, x) {
        Direction::Left => {
            if st > 0 {
                assert(devs[0] is None);
            }
        },
        Direction::Right(p) => {
            if p + 1 < st {
                assert(devs[p + 1] is None);
            }
        },
    }
}

/// With increasing keys, adding the pairs back one by one rebuilds them as they were.
pub proof fn lemma_reinserted_sorted(devs: Seq<Option<IoTDevice>>, kids: Seq<Option<Tree>>)
    requires
        devs.len() == kids.len() <= usize::MAX,
        forall|i: int| 0 <= i < devs.len() ==> (#[trigger] devs[i]) is Some,
        keys_increasing(devs),
    ensures
        reinserted(devs, kids) == (devs, kids),
    decreases devs.len(),
{
    if devs.len() > 0 {
        let dr = devs.drop_first();
        let kr = kids.drop_first();
        assert forall|i: int| 0 <= i < dr.len() implies (#[trigger] dr[i]) is Some by {
            assert(dr[i] == devs[i + 1]);
        }
        assert forall|i: int, j: int| 0 <= i < j < dr.len() implies key_of(dr[i]) < key_of(dr[j]) by {
            assert(dr[i] == devs[i + 1] && dr[j] == devs[j + 1]);
        }
        lemma_reinserted_sorted(dr, kr);
        assert forall|i: int| 0 <= i < dr.len() implies key_of(#[trigger] dr[i]) != key_of(devs[0]) by {
            assert(dr[i] == devs[i + 1]);
        }
        lemma_insert_pos_sorted(dr, key_of(devs[0]));
        if dr.len() > 0 {
            assert(key_of(dr[0]) > key_of(devs[0]));
        }
        assert(insert_pos(dr, key_of(devs[0])) == 0);
        assert(dr.insert(0, devs[0]) =~= devs);
        assert(kr.insert(0, kids[0]) =~= kids);
    }
}

/// The walk of a node around the pair at index `i`.
pub proof fn lemma_walk_node_at(n: Node, i: int)
    requires
        n.devices@.len() == n.children@.len(),
        0 <= i < n.devices@.len(),
    ensures
        walk_node(n) == walk_opt(n.left_child) + walk_pairs(n.devices@.take(i), n.children@.take(i))
            + dev_seq(n.devices@[i]) + walk_opt(n.children@[i]) + walk_pairs(
            n.devices@.skip(i + 1),
            n.children@.skip(i + 1),
        ),
{
    lemma_walk_pairs_at(n.devices@, n.children@, i);
    let a = walk_opt(n.left_child);
    let b = walk_pairs(n.devices@.take(i), n.children@.take(i));
    let c = dev_seq(n.devices@[i]);
    let d = walk_opt(n.children@[i]);
    let e = walk_pairs(n.devices@.skip(i + 1), n.children@.skip(i + 1));
    assert(a + (b + c + d + e) =~= a + b + c + d + e);
}

/// The walk over pairs with one pair inserted at `k`.
pub proof fn lemma_walk_pairs_insert_seq(
    d: Seq<Option<IoTDevice>>,
    c: Seq<Option<Tree>>,
    k: int,
    x: Option<IoTDevice>,
    y: Option<Tree>,
)
    requires
        d.len() == c.len(),
        0 <= k <= d.len(),
    ensures
        walk_pairs(d.insert(k, x), c.insert(k, y)) == walk_pairs(d.take(k), c.take(k)) + dev_seq(x)
            + walk_opt(y) + walk_pairs(d.skip(k), c.skip(k)),
{
    let d2 = d.insert(k, x);
    let c2 = c.insert(k, y);
    lemma_walk_pairs_at(d2, c2, k);
    assert(d2.take(k) =~= d.take(k));
    assert(c2.take(k) =~= c.take(k));
    assert(d2.skip(k + 1) =~= d.skip(k));
    assert(c2.skip(k + 1) =~= c.skip(k));
}

/// The walk over the first `i` pairs is at least `i` long.
pub proof fn lemma_walk_pairs_len(d: Seq<Option<IoTDevice>>, c: Seq<Option<Tree>>)
    requires
        d.len() == c.len(),
        forall|i: int| 0 <= i < d.len() ==> (#[trigger] d[i]) is Some,
    ensures
        walk_pairs(d, c).len() >= d.len(),
        (forall|i: int| 0 <= i < c.len() ==> (#[trigger] c[i]) is None) ==> walk_pairs(d, c).len()
            == d.len(),
    decreases d.len(),
{
    if d.len() > 0 {
        assert forall|i: int| 0 <= i < d.drop_last().len() implies (#[trigger] d.drop_last()[i]) is Some by {
            assert(d.drop_last()[i] == d[i]);
        }
        if forall|i: int| 0 <= i < c.len() ==> (#[trigger] c[i]) is None {
            assert forall|i: int| 0 <= i < c.drop_last().len() implies (#[trigger] c.drop_last()[i]) is None by {
                assert(c.drop_last()[i] == c[i]);
            }
            assert(c[c.len() - 1] is None);
        }
        lemma_walk_pairs_len(d.drop_last(), c.drop_last());
        assert(d[d.len() - 1] is Some);
        assert(dev_seq(d.last()).len() == 1);
        if c.last() is None {
            assert(walk_opt(c.last()) =~= Seq::<IoTDevice>::empty());
        }
    }
}

/// When `first_with_id` finds nothing, no device of the node has that id.
pub proof fn lemma_first_with_id_none(devs: Seq<Option<IoTDevice>>, key: u64)
    ensures
        first_with_id(devs, key) is None ==> forall|i: int|
            0 <= i < devs.len() ==> !(#[trigger] devs[i] matches Some(d) && d.numerical_id == key),
    decreases devs.len(),
{
    if devs.len() > 0 {
        lemma_first_with_id_none(devs.drop_first(), key);
        if first_with_id(devs, key) is None {
            assert forall|i: int| 0 <= i < devs.len() implies !(#[trigger] devs[i] matches Some(d)
                && d.numerical_id == key) by {
                if i > 0 {
                    assert(devs[i] == devs.drop_first()[i - 1]);
                }
            }
        }
    }
}

/// The walk of a leaf's pairs is its devices.
pub proof fn lemma_leaf_walk_keys(d: Seq<Option<IoTDevice>>, c: Seq<Option<Tree>>)
    requires
        d.len() == c.len(),
        forall|i: int| 0 <= i < d.len() ==> (#[trigger] d[i]) is Some,
        forall|i: int| 0 <= i < c.len() ==> (#[trigger] c[i]) is None,
    ensures
        walk_pairs(d, c).len() == d.len(),
        forall|i: int| 0 <= i < d.len() ==> walk_pairs(d, c)[i] == (#[trigger] d[i]).unwrap(),
    decreases d.len(),
{
    if d.len() > 0 {
        let dr = d.drop_last();
        let cr = c.drop_last();
        assert forall|i: int| 0 <= i < dr.len() implies (#[trigger] dr[i]) is Some by {
            assert(dr[i] == d[i]);
        }
        assert forall|i: int| 0 <= i < cr.len() implies (#[trigger] cr[i]) is None by {
            assert(cr[i] == c[i]);
        }
        lemma_leaf_walk_keys(dr, cr);
        assert(c[c.len() - 1] is None);
        assert(d[d.len() - 1] is Some);
        assert(walk_opt(c.last()) =~= Seq::<IoTDevice>::empty());
        assert(dev_seq(d.last()) =~= seq![d.last().unwrap()]);
        assert(walk_pairs(d, c) =~= walk_pairs(dr, cr) + seq![d.last().unwrap()]);
        assert forall|i: int| 0 <= i < d.len() implies walk_pairs(d, c)[i] == (#[trigger] d[i]).unwrap() by {
            if i < d.len() - 1 {
                assert(dr[i] == d[i]);
            }
        }
    }
}

/// In a node whose walk has increasing ids, the keys increase.
pub proof fn lemma_keys_increasing(n: Node)
    requires
        n.devices@.len() == n.children@.len(),
        forall|i: int| 0 <= i < n.devices@.len() ==> (#[trigger] n.devices@[i]) is Some,
        increasing_ids(walk_node(n)),
    ensures
        keys_increasing(n.devices@),
{
    let d = n.devices@;
    let c = n.children@;
    let w = walk_node(n);
    assert forall|i: int, j: int| 0 <= i < j < d.len() implies key_of(d[i]) < key_of(d[j]) by {
        lemma_walk_node_at(n, i);
        lemma_walk_node_at(n, j);
        let pi = (walk_opt(n.left_child).len() + walk_pairs(d.take(i), c.take(i)).len()) as int;
        let pj = (walk_opt(n.left_child).len() + walk_pairs(d.take(j), c.take(j)).len()) as int;
        assert(w[pi] == d[i].unwrap());
        assert(w[pj] == d[j].unwrap());
        lemma_walk_pairs_split(d.take(j), c.take(j), i);
        assert(d.take(j).take(i) =~= d.take(i));
        assert(c.take(j).take(i) =~= c.take(i));
        let dj = d.take(j).skip(i);
        let cj = c.take(j).skip(i);
        assert forall|k: int| 0 <= k < dj.len() implies (#[trigger] dj[k]) is Some by {
            assert(dj[k] == d[k + i]);
        }
        lemma_walk_pairs_len(dj, cj);
    }
}

/// Where an id that is not a key of an inner node stands in its walk: inside
/// the walk of the subtree before the first greater key.
pub(crate) proof fn lemma_locate(n: Node, order: int, j: int)
    requires
        node_wf(n, order),
        0 <= order,
        increasing_ids(walk_node(n)),
        0 <= j < walk_node(n).len(),
        forall|i: int|
            0 <= i < n.devices@.len() ==> key_of(#[trigger] n.devices@[i])
                != walk_node(n)[j].numerical_id,
    ensures
        n.node_type == NodeType::Regular,
        ({
            let x = walk_node(n)[j].numerical_id;
            let q = insert_pos(n.devices@, x);
            let w = walk_node(n);
            let lw = walk_opt(n.left_child);
            if q == 0 {
                &&& j < lw.len() <= w.len()
                &&& lw == w.subrange(0, lw.len() as int)
            } else {
                let p = q - 1;
                let cw = walk_opt(n.children@[p]);
                let lo = (lw.len() + walk_pairs(n.devices@.take(p), n.children@.take(p)).len() + 1) as int;
                &&& lo <= j < lo + cw.len() <= w.len()
                &&& cw == w.subrange(lo, lo + cw.len())
            }
        }),
{
    assert(n.devices.len() == n.devices@.len());
    let w = walk_node(n);
    let x = w[j].numerical_id;
    let d = n.devices@;
    let c = n.children@;
    let lw = walk_opt(n.left_child);
    lemma_keys_increasing(n);
    lemma_insert_pos_sorted(d, x);
    let q = insert_pos(d, x);
    if n.node_type == NodeType::Leaf {
        lemma_leaf_walk_keys(d, c);
        assert(w =~= walk_pairs(d, c));
        assert(w[j] == d[j].unwrap());
    } else if q == 0 {
        if d.len() > 0 {
            lemma_walk_node_at(n, 0);
            let p0 = lw.len() as int;
            assert(w[p0] == d[0].unwrap());
            if j > p0 {
                assert(w[p0].numerical_id < w[j].numerical_id);
            }
        } else {
            assert(walk_pairs(d, c) =~= Seq::<IoTDevice>::empty());
            assert(w =~= lw);
        }
        assert(w.subrange(0, lw.len() as int) =~= lw);
    } else {
        let p = q - 1;
        lemma_walk_node_at(n, p);
        let pp = (lw.len() + walk_pairs(d.take(p), c.take(p)).len()) as int;
        assert(w[pp] == d[p].unwrap());
        let cw = walk_opt(c[p]);
        let cl = cw.len() as int;
        if j < pp {
            assert(w[j].numerical_id < w[pp].numerical_id);
        }
        if j > pp + cl {
            if q < d.len() {
                lemma_walk_node_at(n, q);
                let pq = (lw.len() + walk_pairs(d.take(q), c.take(q)).len()) as int;
                assert(w[pq] == d[q].unwrap());
                lemma_walk_pairs_take(d, c, p);
                assert(pq == pp + 1 + cl);
                if j > pq {
                    assert(w[pq].numerical_id < w[j].numerical_id);
                }
            } else {
                assert(d.skip(q) =~= Seq::<Option<IoTDevice>>::empty());
                assert(walk_pairs(d.skip(q), c.skip(q)) =~= Seq::<IoTDevice>::empty());
            }
        }
        assert(w.subrange(pp + 1, pp + 1 + cl) =~= cw);
    }
}

/// A search in a subtree whose walk has increasing ids finds the device with
/// the id searched for whenever there is one.
pub proof fn lemma_search_complete(n: Node, order: int, j: int)
    requires
        node_wf(n, order),
        0 <= order,
        increasing_ids(walk_node(n)),
        0 <= j < walk_node(n).len(),
    ensures
        search(n, walk_node(n)[j].numerical_id) == Some(walk_node(n)[j]),
    decreases n,
{
    assert(n.devices.len() == n.devices@.len());
    let w = walk_node(n);
    let x = w[j].numerical_id;
    let d = n.devices@;
    let c = n.children@;
    let lw = walk_opt(n.left_child);
    lemma_first_with_id_in(d, x);
    if let Some(e) = first_with_id(d, x) {
        let i = choose|i: int| 0 <= i < d.len() && d[i] == Some(e);
        lemma_walk_node_at(n, i);
        let pi = (lw.len() + walk_pairs(d.take(i), c.take(i)).len()) as int;
        assert(w[pi] == e);
        if pi < j {
            assert(w[pi].numerical_id < w[j].numerical_id);
        } else if pi > j {
            assert(w[j].numerical_id < w[pi].numerical_id);
        }
    } else {
        lemma_first_with_id_none(d, x);
        assert forall|i: int| 0 <= i < d.len() implies key_of(#[trigger] d[i]) != x by {
            assert(d[i] is Some);
        }
        lemma_locate(n, order, j);
        lemma_keys_increasing(n);
        lemma_insert_pos_sorted(d, x);
        lemma_closest(d, x);
        let q = insert_pos(d, x);
        let l = n.left_child.unwrap();
        if q == 0 {
            lemma_increasing_sub(w, 0, lw.len() as int);
            lemma_search_complete(*l, order, j);
            assert(lw[j] == w[j]);
        } else {
            let p = q - 1;
            assert(kid_wf(c[p], height(*l), order));
            let ch = c[p].unwrap();
            let cw = walk_node(*ch);
            assert(walk_opt(c[p]) == cw);
            let lo = (lw.len() + walk_pairs(d.take(p), c.take(p)).len() + 1) as int;
            assert(w.subrange(lo, lo + cw.len()) == cw);
            lemma_increasing_sub(w, lo, lo + cw.len());
            lemma_search_complete(*ch, order, j - lo);
            assert(cw[j - lo] == w[j]);
        }
    }
}

// ---------------------------------------------------------------------------
// Insertion in search order
// ---------------------------------------------------------------------------

/// `count_less` is the length when every id is smaller, zero when every id is greater.
pub proof fn lemma_count_less_all(s: Seq<IoTDevice>, x: u64)
    ensures
        (forall|i: int| 0 <= i < s.len() ==> (#[trigger] s[i]).numerical_id < x) ==> count_less(s, x)
            == s.len(),
        (forall|i: int| 0 <= i < s.len() ==> (#[trigger] s[i]).numerical_id > x) ==> count_less(s, x)
            == 0,
    decreases s.len(),
{
    if s.len() > 0 {
        lemma_count_less_all(s.drop_last(), x);
        assert forall|i: int| 0 <= i < s.drop_last().len() implies s.drop_last()[i] == s[i] by {}
        assert(s[s.len() - 1] == s.last());
    }
}

/// A device of a new id goes into the middle part of a walk `a + b + c`,
/// where the ids of `a` are smaller and those of `c` greater: inserting it in
/// order into `b` inserts it in order into the whole.
pub proof fn lemma_insert_middle(
    a: Seq<IoTDevice>,
    b: Seq<IoTDevice>,
    b2: Seq<IoTDevice>,
    c: Seq<IoTDevice>,
    x: IoTDevice,
)
    requires
        forall|i: int| 0 <= i < a.len() ==> (#[trigger] a[i]).numerical_id < x.numerical_id,
        forall|i: int| 0 <= i < c.len() ==> (#[trigger] c[i]).numerical_id > x.numerical_id,
        count_less(b, x.numerical_id) <= b.len(),
        b2 == b.insert(count_less(b, x.numerical_id) as int, x),
    ensures
        a + b2 + c == (a + b + c).insert(count_less(a + b + c, x.numerical_id) as int, x),
{
    let id = x.numerical_id;
    lemma_count_less_add(a + b, c, id);
    lemma_count_less_add(a, b, id);
    lemma_count_less_all(a, id);
    lemma_count_less_all(c, id);
    let k = count_less(b, id) as int;
    assert(a + b2 + c =~= (a + b + c).insert(a.len() + k, x));
}

/// The part of a node's walk before the subtree where `x` falls: the left
/// subtree and the pairs up to and including the last key below `x`.
pub open spec fn walk_before(n: Node, x: u64) -> Seq<IoTDevice> {
    let d = n.devices@;
    let c = n.children@;
    let q = insert_pos(d, x);
    if q == 0 {
        Seq::empty()
    } else {
        walk_opt(n.left_child) + walk_pairs(d.take(q - 1), c.take(q - 1)) + dev_seq(d[q - 1])
    }
}

/// The walk of the subtree where `x` falls.
pub open spec fn walk_at(n: Node, x: u64) -> Seq<IoTDevice> {
    let q = insert_pos(n.devices@, x);
    if q == 0 {
        walk_opt(n.left_child)
    } else {
        walk_opt(n.children@[q - 1])
    }
}

/// The part of a node's walk after the subtree where `x` falls.
pub open spec fn walk_after(n: Node, x: u64) -> Seq<IoTDevice> {
    let d = n.devices@;
    let c = n.children@;
    let q = insert_pos(d, x);
    if q == 0 {
        walk_pairs(d, c)
    } else {
        walk_pairs(d.skip(q), c.skip(q))
    }
}

/// The walk of an inner node around the place of an id `x` it does not
/// hold: the part before the subtree where `x` falls has smaller ids, the part
/// after it greater ones.
pub proof fn lemma_walk_around(n: Node, x: u64)
    requires
        n.devices@.len() == n.children@.len() <= usize::MAX,
        forall|i: int| 0 <= i < n.devices@.len() ==> (#[trigger] n.devices@[i]) is Some,
        increasing_ids(walk_node(n)),
        !has_id(walk_node(n), x),
    ensures
        keys_increasing(n.devices@),
        forall|i: int| 0 <= i < n.devices@.len() ==> key_of(#[trigger] n.devices@[i]) != x,
        0 <= insert_pos(n.devices@, x) <= n.devices@.len(),
        walk_node(n) == walk_before(n, x) + walk_at(n, x) + walk_after(n, x),
        forall|i: int|
            0 <= i < walk_before(n, x).len() ==> (#[trigger] walk_before(n, x)[i]).numerical_id < x,
        forall|i: int|
            0 <= i < walk_after(n, x).len() ==> (#[trigger] walk_after(n, x)[i]).numerical_id > x,
{
    let w = walk_node(n);
    let d = n.devices@;
    let c = n.children@;
    lemma_keys_increasing(n);
    assert forall|i: int| 0 <= i < d.len() implies key_of(#[trigger] d[i]) != x by {
        lemma_walk_node_at(n, i);
        let pi = (walk_opt(n.left_child).len() + walk_pairs(d.take(i), c.take(i)).len()) as int;
        assert(w[pi] == d[i].unwrap());
    }
    lemma_insert_pos_sorted(d, x);
    let q = insert_pos(d, x);
    let lw = walk_opt(n.left_child);
    if q == 0 {
        let rest = walk_pairs(d, c);
        assert(w == Seq::<IoTDevice>::empty() + lw + rest);
        if d.len() > 0 {
            lemma_walk_node_at(n, 0);
            let p0 = lw.len() as int;
            assert(w[p0] == d[0].unwrap());
            assert(walk_pairs(d.take(0), c.take(0)) =~= Seq::<IoTDevice>::empty());
            assert forall|i: int| 0 <= i < rest.len() implies (#[trigger] rest[i]).numerical_id > x by {
                assert(rest[i] == w[p0 + i]);
                if i > 0 {
                    assert(w[p0].numerical_id < w[p0 + i].numerical_id);
                }
            }
        }
    } else {
        let p = q - 1;
        lemma_walk_node_at(n, p);
        let a = lw + walk_pairs(d.take(p), c.take(p)) + dev_seq(d[p]);
        let b = walk_opt(c[p]);
        let rest = walk_pairs(d.skip(q), c.skip(q));
        assert(w =~= a + b + rest);
        let pp = a.len() - 1;
        assert(w[pp] == d[p].unwrap());
        assert forall|i: int| 0 <= i < a.len() implies (#[trigger] a[i]).numerical_id < x by {
            assert(a[i] == w[i]);
            if i < pp {
                assert(w[i].numerical_id < w[pp].numerical_id);
            }
        }
        if q < d.len() {
            lemma_walk_node_at(n, q);
            lemma_walk_pairs_take(d, c, p);
            let pq = (lw.len() + walk_pairs(d.take(q), c.take(q)).len()) as int;
            assert(w[pq] == d[q].unwrap());
            assert(pq == a.len() + b.len());
            assert forall|i: int| 0 <= i < rest.len() implies (#[trigger] rest[i]).numerical_id > x by {
                assert(rest[i] == w[pq + i]);
                if i > 0 {
                    assert(w[pq].numerical_id < w[pq + i].numerical_id);
                }
            }
        } else {
            assert(d.skip(q) =~= Seq::<Option<IoTDevice>>::empty());
            assert(rest =~= Seq::<IoTDevice>::empty());
        }
    }
}

/// A device of a new id added to a leaf whose walk has increasing ids goes
/// into the walk after the smaller ids.
pub(crate) proof fn lemma_leaf_insert_walk(old_node: Node, n: Node, dv: IoTDevice, order: int)
    requires
        old_node.node_type == NodeType::Leaf,
        node_wf(old_node, order),
        0 <= order,
        increasing_ids(walk_node(old_node)),
        !has_id(walk_node(old_node), dv.numerical_id),
        n.left_child == old_node.left_child,
        n.devices@ == old_node.devices@.insert(
            insert_pos(old_node.devices@, dv.numerical_id),
            Some(dv),
        ),
        n.children@ == old_node.children@.insert(insert_pos(old_node.devices@, dv.numerical_id), None),
    ensures
        walk_node(n) == walk_node(old_node).insert(
            count_less(walk_node(old_node), dv.numerical_id) as int,
            dv,
        ),
{
    assert(old_node.devices.len() == old_node.devices@.len());
    assert(n.devices.len() == n.devices@.len());
    let x = dv.numerical_id;
    let d = old_node.devices@;
    let c = old_node.children@;
    lemma_walk_around(old_node, x);
    let q = insert_pos(d, x);
    lemma_walk_pairs_insert_seq(d, c, q, Some(dv), None);
    assert(walk_opt(None) =~= Seq::<IoTDevice>::empty());
    assert(dev_seq(Some(dv)) =~= seq![dv]);
    assert(walk_at(old_node, x) =~= Seq::<IoTDevice>::empty()) by {
        if q > 0 {
            assert(c[q - 1] is None);
        }
    }
    if q == 0 {
        assert(d.take(0) =~= Seq::<Option<IoTDevice>>::empty());
        assert(c.take(0) =~= Seq::<Option<Tree>>::empty());
        assert(d.skip(0) =~= d);
        assert(c.skip(0) =~= c);
        assert(walk_pairs(d.take(0), c.take(0)) =~= Seq::<IoTDevice>::empty());
    } else {
        lemma_walk_pairs_take(d, c, q - 1);
        assert(c[q - 1] is None);
    }
    lemma_count_less_all(Seq::<IoTDevice>::empty(), x);
    assert(seq![dv] =~= Seq::<IoTDevice>::empty().insert(0, dv));
    lemma_insert_middle(
        walk_before(old_node, x),
        Seq::<IoTDevice>::empty(),
        seq![dv],
        walk_after(old_node, x),
        dv,
    );
    assert(walk_node(n) =~= walk_before(old_node, x) + seq![dv] + walk_after(old_node, x));
    assert(walk_node(old_node) =~= walk_before(old_node, x) + Seq::<IoTDevice>::empty()
        + walk_after(old_node, x));
}

/// The slot holds the subtree `n`.
pub open spec fn holds_subtree(t: Option<Tree>, n: Node) -> bool {
    t matches Some(b) && *b == n
}

/// `readded` is `old_node` with the subtree where `x` falls replaced by `new0`.
pub open spec fn child_replaced(old_node: Node, readded: Node, new0: Node, x: u64) -> bool {
    let q = insert_pos(old_node.devices@, x);
    &&& readded.devices@ == old_node.devices@
    &&& if q == 0 {
        &&& readded.children@ == old_node.children@
        &&& holds_subtree(readded.left_child, new0)
    } else {
        &&& readded.left_child == old_node.left_child
        &&& readded.children@ == old_node.children@.update(q - 1, readded.children@[q - 1])
        &&& holds_subtree(readded.children@[q - 1], new0)
    }
}

/// Taking out the pair at `p` and adding it back by its key puts it back at `p`.
pub(crate) proof fn lemma_readd_position(d: Seq<Option<IoTDevice>>, p: int)
    requires
        d.len() <= usize::MAX,
        0 <= p < d.len(),
        forall|i: int| 0 <= i < d.len() ==> (#[trigger] d[i]) is Some,
        keys_increasing(d),
    ensures
        insert_pos(d.remove(p), key_of(d[p])) == p,
        d.remove(p).insert(p, d[p]) == d,
{
    let r = d.remove(p);
    let k = key_of(d[p]);
    assert forall|i: int| 0 <= i < r.len() implies (#[trigger] r[i]) is Some by {
        if i < p {
            assert(r[i] == d[i]);
        } else {
            assert(r[i] == d[i + 1]);
        }
    }
    assert forall|i: int, j: int| 0 <= i < j < r.len() implies key_of(r[i]) < key_of(r[j]) by {
        let ii = if i < p { i } else { i + 1 };
        let jj = if j < p { j } else { j + 1 };
        assert(r[i] == d[ii] && r[j] == d[jj]);
    }
    assert forall|i: int| 0 <= i < r.len() implies key_of(#[trigger] r[i]) != k by {
        if i < p {
            assert(r[i] == d[i]);
        } else {
            assert(r[i] == d[i + 1]);
        }
    }
    lemma_insert_pos_sorted(r, k);
    let q = insert_pos(r, k);
    if q < p {
        assert(r[q] == d[q]);
    }
    if q > p {
        assert(r[p] == d[p + 1]);
    }
    assert(r.insert(p, d[p]) =~= d);
}

/// The walk of an inner node after the subtree where a new id falls was
/// replaced by `new0`.
pub(crate) proof fn lemma_readd_walk(old_node: Node, readded: Node, new0: Node, x: u64, order: int)
    requires
        old_node.node_type == NodeType::Regular,
        node_wf(old_node, order),
        0 <= order,
        increasing_ids(walk_node(old_node)),
        !has_id(walk_node(old_node), x),
        readded.devices@ == old_node.devices@,
        child_replaced(old_node, readded, new0, x),
    ensures
        walk_node(readded) == walk_before(old_node, x) + walk_node(new0) + walk_after(old_node, x),
{
    assert(old_node.devices.len() == old_node.devices@.len());
    assert(readded.devices.len() == readded.devices@.len());
    assert(new0.devices.len() == new0.devices@.len());
    lemma_walk_around(old_node, x);
    let d = old_node.devices@;
    let c = old_node.children@;
    let q = insert_pos(d, x);
    if q == 0 {
        assert(walk_node(readded) =~= Seq::<IoTDevice>::empty() + walk_node(new0) + walk_pairs(d, c));
    } else {
        let c2 = readded.children@;
        lemma_walk_node_at(readded, q - 1);
        assert(c2.take(q - 1) =~= c.take(q - 1));
        assert(c2.skip(q) =~= c.skip(q));
        assert(readded.devices@.skip(q - 1 + 1) =~= d.skip(q));
    }
}

/// The walk of an inner node after the middle device `m` and new sibling of
/// the subtree where `x` falls were added to it.
pub(crate) proof fn lemma_split_add_walk(
    old_node: Node,
    readded: Node,
    n: Node,
    new0: Node,
    m: IoTDevice,
    sib: Node,
    x: u64,
    order: int,
)
    requires
        old_node.node_type == NodeType::Regular,
        node_wf(old_node, order),
        0 <= order,
        increasing_ids(walk_node(old_node)),
        !has_id(walk_node(old_node), x),
        readded.devices@ == old_node.devices@,
        readded.devices@.len() == readded.children@.len(),
        child_replaced(old_node, readded, new0, x),
        increasing_ids(
            walk_before(old_node, x) + (walk_node(new0) + seq![m] + walk_node(sib)) + walk_after(
                old_node,
                x,
            ),
        ),
        n.left_child == readded.left_child,
        n.devices@ == readded.devices@.insert(insert_pos(readded.devices@, m.numerical_id), Some(m)),
        n.children@[insert_pos(readded.devices@, m.numerical_id)] matches Some(b) && *b == sib,
        n.children@ == readded.children@.insert(
            insert_pos(readded.devices@, m.numerical_id),
            n.children@[insert_pos(readded.devices@, m.numerical_id)],
        ),
    ensures
        insert_pos(readded.devices@, m.numerical_id) == insert_pos(old_node.devices@, x),
        walk_node(n) == walk_before(old_node, x) + (walk_node(new0) + seq![m] + walk_node(sib))
            + walk_after(old_node, x),
{
    assert(old_node.devices.len() == old_node.devices@.len());
    assert(readded.devices.len() == readded.devices@.len());
    assert(n.devices.len() == n.devices@.len());
    assert(new0.devices.len() == new0.devices@.len());
    assert(sib.devices.len() == sib.devices@.len());
    lemma_walk_around(old_node, x);
    let d = old_node.devices@;
    let c = old_node.children@;
    let c2 = readded.children@;
    let q = insert_pos(d, x);
    let bf = walk_before(old_node, x);
    let bn = walk_node(new0) + seq![m] + walk_node(sib);
    let af = walk_after(old_node, x);
    let t = bf + bn + af;
    let pm = (bf.len() + walk_node(new0).len()) as int;
    assert(t[pm] == m);
    // `m` falls between the keys around the place of `x`
    if q > 0 {
        assert(t[bf.len() - 1] == d[q - 1].unwrap());
        assert(key_of(d[q - 1]) < m.numerical_id);
    }
    if q < d.len() {
        if q == 0 {
            assert(d.take(0) =~= Seq::<Option<IoTDevice>>::empty());
            assert(c.take(0) =~= Seq::<Option<Tree>>::empty());
            assert(d.skip(0) =~= d);
            assert(c.skip(0) =~= c);
        }
        lemma_walk_pairs_at(d.skip(q), c.skip(q), 0);
        assert(d.skip(q)[0] == d[q]);
        assert(af[0] == d[q].unwrap());
        assert(t[(bf.len() + bn.len()) as int] == d[q].unwrap());
        assert(key_of(d[q]) > m.numerical_id);
    }
    assert forall|i: int| 0 <= i < d.len() implies key_of(#[trigger] d[i]) != m.numerical_id by {
        if i < q {
            assert(key_of(d[i]) <= key_of(d[q - 1]));
        } else {
            assert(key_of(d[i]) >= key_of(d[q]));
        }
    }
    lemma_insert_pos_sorted(d, m.numerical_id);
    let qm = insert_pos(d, m.numerical_id);
    if qm < q {
        assert(key_of(d[q - 1]) > m.numerical_id);
    }
    if qm > q {
        assert(key_of(d[q]) < m.numerical_id);
    }
    lemma_walk_pairs_insert_seq(d, c2, q, Some(m), n.children@[q]);
    assert(dev_seq(Some(m)) =~= seq![m]);
    if q == 0 {
        assert(d.take(0) =~= Seq::<Option<IoTDevice>>::empty());
        assert(c2.take(0) =~= Seq::<Option<Tree>>::empty());
        assert(walk_pairs(d.take(0), c2.take(0)) =~= Seq::<IoTDevice>::empty());
        assert(d.skip(0) =~= d);
        assert(c2.skip(0) =~= c2);
        assert(walk_node(n) =~= bf + bn + af);
    } else {
        lemma_walk_pairs_take(d, c2, q - 1);
        assert(c2.take(q - 1) =~= c.take(q - 1));
        assert(c2.skip(q) =~= c.skip(q));
        assert(walk_node(n) =~= bf + bn + af);
    }
}

/// The two halves of a node with increasing keys, with the middle device
/// between them, walk as the node did.
pub(crate) proof fn lemma_split_walk(pre: Node, kept: Node, sib: Node, med: IoTDevice, order: int)
    requires
        node_wf_at(pre, order, order + 2),
        0 <= order,
        1 <= pre.devices@.len(),
        increasing_ids(walk_node(pre)),
        ({
            let s = (pre.devices@.len() / 2) as int;
            let rest = reinserted(pre.devices@.skip(s + 1), pre.children@.skip(s + 1));
            &&& Some(med) == pre.devices@[s]
            &&& kept.devices@ == pre.devices@.take(s)
            &&& kept.children@ == pre.children@.take(s)
            &&& kept.left_child == pre.left_child
            &&& sib.left_child == pre.children@[s]
            &&& sib.devices@ == rest.0
            &&& sib.children@ == rest.1
        }),
    ensures
        walk_node(kept) + seq![med] + walk_node(sib) == walk_node(pre),
{
    assert(pre.devices.len() == pre.devices@.len());
    assert(kept.devices.len() == kept.devices@.len());
    assert(sib.devices.len() == sib.devices@.len());
    let sp = (pre.devices@.len() / 2) as int;
    let d = pre.devices@;
    let c = pre.children@;
    lemma_keys_increasing(pre);
    let sd = d.skip(sp + 1);
    let sc = c.skip(sp + 1);
    assert forall|i: int| 0 <= i < sd.len() implies (#[trigger] sd[i]) is Some by {
        assert(sd[i] == d[i + sp + 1]);
    }
    assert forall|i: int, j: int| 0 <= i < j < sd.len() implies key_of(sd[i]) < key_of(sd[j]) by {
        assert(sd[i] == d[i + sp + 1] && sd[j] == d[j + sp + 1]);
    }
    lemma_reinserted_sorted(sd, sc);
    lemma_walk_node_at(pre, sp);
    assert(dev_seq(d[sp]) =~= seq![med]);
    assert(walk_node(kept) + seq![med] + walk_node(sib) =~= walk_node(pre));
}

/// What an insertion into a subtree hands back, as a walk: the new subtree,
/// then the middle device and the new sibling if it split.
pub open spec fn out_walk(t: Node, split: Option<Data>) -> Seq<IoTDevice> {
    walk_node(t) + match split {
        Some(sp) => dev_seq(sp.0) + walk_opt(sp.1),
        None => Seq::empty(),
    }
}

/// `n` is `readded` with the middle device and sibling of `sp` added by key.
pub open spec fn split_added(readded: Node, n: Node, sp: Data) -> bool {
    &&& sp.0 is Some
    &&& sp.1 is Some
    &&& n.left_child == readded.left_child
    &&& n.devices@ == readded.devices@.insert(
        insert_pos(readded.devices@, sp.0.unwrap().numerical_id),
        sp.0,
    )
    &&& n.children@ == readded.children@.insert(
        insert_pos(readded.devices@, sp.0.unwrap().numerical_id),
        sp.1,
    )
}

/// The subtree where a new id falls in an inner node whose walk has
/// increasing ids also has increasing ids and lacks the new id.
pub(crate) proof fn lemma_child_fresh(old_node: Node, x: u64, order: int)
    requires
        old_node.node_type == NodeType::Regular,
        node_wf(old_node, order),
        0 <= order,
        increasing_ids(walk_node(old_node)),
        !has_id(walk_node(old_node), x),
    ensures
        child_for(old_node, x) is Some,
        walk_at(old_node, x) == walk_node(*child_for(old_node, x).unwrap()),
        increasing_ids(walk_at(old_node, x)),
        !has_id(walk_at(old_node, x), x),
        insert_pos(old_node.devices@, x) == match closest(old_node.devices@, x) {
            Direction::Left => 0,
            Direction::Right(p) => p + 1,
        },
        count_less(walk_at(old_node, x), x) <= walk_at(old_node, x).len(),
{
    assert(old_node.devices.len() == old_node.devices@.len());
    lemma_walk_around(old_node, x);
    lemma_closest(old_node.devices@, x);
    let w = walk_node(old_node);
    let a = walk_before(old_node, x);
    let b = walk_at(old_node, x);
    if let Direction::Right(p) = closest(old_node.devices@, x) {
        assert(kid_wf(old_node.children@[p as int], height(*old_node.left_child.unwrap()), order));
    }
    assert(w.subrange(a.len() as int, (a.len() + b.len()) as int) =~= b);
    lemma_increasing_sub(w, a.len() as int, (a.len() + b.len()) as int);
    if has_id(b, x) {
        let j = choose|j: int| 0 <= j < b.len() && b[j].numerical_id == x;
        assert(w[a.len() + j] == b[j]);
    }
    lemma_count_less_split(b, x);
}

/// Putting a subtree back where it came from, by its key.
pub(crate) proof fn lemma_readd_shape(old_node: Node, removed: Node, readded: Node, new0: Node, x: u64, order: int)
    requires
        old_node.node_type == NodeType::Regular,
        node_wf(old_node, order),
        0 <= order,
        increasing_ids(walk_node(old_node)),
        !has_id(walk_node(old_node), x),
        match closest(old_node.devices@, x) {
            Direction::Left => {
                &&& readded.devices@ == old_node.devices@
                &&& readded.children@ == old_node.children@
                &&& holds_subtree(readded.left_child, new0)
            },
            Direction::Right(p) => {
                &&& removed.devices@ == old_node.devices@.remove(p as int)
                &&& removed.children@ == old_node.children@.remove(p as int)
                &&& readded.left_child == old_node.left_child
                &&& readded.devices@ == removed.devices@.insert(
                    insert_pos(removed.devices@, key_of(old_node.devices@[p as int])),
                    old_node.devices@[p as int],
                )
                &&& readded.children@ == removed.children@.insert(
                    insert_pos(removed.devices@, key_of(old_node.devices@[p as int])),
                    readded.children@[insert_pos(
                        removed.devices@,
                        key_of(old_node.devices@[p as int]),
                    )],
                )
                &&& holds_subtree(
                    readded.children@[insert_pos(
                        removed.devices@,
                        key_of(old_node.devices@[p as int]),
                    )],
                    new0,
                )
            },
        },
    ensures
        child_replaced(old_node, readded, new0, x),
{
    assert(old_node.devices.len() == old_node.devices@.len());
    assert(removed.devices.len() == removed.devices@.len());
    assert(readded.devices.len() == readded.devices@.len());
    assert(new0.devices.len() == new0.devices@.len());
    lemma_child_fresh(old_node, x, order);
    lemma_walk_around(old_node, x);
    lemma_closest(old_node.devices@, x);
    if let Direction::Right(p) = closest(old_node.devices@, x) {
        let d = old_node.devices@;
        let c = old_node.children@;
        lemma_readd_position(d, p as int);
        assert(c.remove(p as int).insert(p as int, readded.children@[p as int]) =~= c.update(
            p as int,
            readded.children@[p as int],
        ));
    }
}

/// The walk of an inner node once the subtree where a new device falls took
/// it in and was put back, with its split halves if it split.
pub(crate) proof fn lemma_regular_walk_done(
    old_node: Node,
    readded: Node,
    n: Node,
    new0: Node,
    split: Option<Data>,
    dv: IoTDevice,
    order: int,
)
    requires
        old_node.node_type == NodeType::Regular,
        node_wf(old_node, order),
        0 <= order,
        increasing_ids(walk_node(old_node)),
        !has_id(walk_node(old_node), dv.numerical_id),
        child_replaced(old_node, readded, new0, dv.numerical_id),
        readded.devices@.len() == readded.children@.len(),
        out_walk(new0, split) == walk_at(old_node, dv.numerical_id).insert(
            count_less(walk_at(old_node, dv.numerical_id), dv.numerical_id) as int,
            dv,
        ),
        count_less(walk_at(old_node, dv.numerical_id), dv.numerical_id) <= walk_at(
            old_node,
            dv.numerical_id,
        ).len(),
        match split {
            None => n == readded,
            Some(sp) => split_added(readded, n, sp),
        },
    ensures
        walk_node(n) == walk_node(old_node).insert(
            count_less(walk_node(old_node), dv.numerical_id) as int,
            dv,
        ),
        increasing_ids(walk_node(n)),
{
    assert(old_node.devices.len() == old_node.devices@.len());
    assert(readded.devices.len() == readded.devices@.len());
    assert(n.devices.len() == n.devices@.len());
    assert(new0.devices.len() == new0.devices@.len());
    let x = dv.numerical_id;
    let ow = walk_node(old_node);
    lemma_walk_around(old_node, x);
    let a = walk_before(old_node, x);
    let b = walk_at(old_node, x);
    let c = walk_after(old_node, x);
    let bnew = out_walk(new0, split);
    lemma_insert_middle(a, b, bnew, c, dv);
    lemma_insert_increasing(ow, dv);
    lemma_readd_walk(old_node, readded, new0, x, order);
    match split {
        None => {
            assert(bnew =~= walk_node(new0));
        },
        Some(sp) => {
            let m = sp.0.unwrap();
            let sb = sp.1.unwrap();
            assert(walk_opt(sp.1) == walk_node(*sb));
            assert(dev_seq(sp.0) =~= seq![m]);
            assert(bnew =~= walk_node(new0) + seq![m] + walk_node(*sb));
            lemma_closest(readded.devices@, m.numerical_id);
            assert(n.children@[insert_pos(readded.devices@, m.numerical_id)] == sp.1);
            lemma_split_add_walk(old_node, readded, n, new0, m, *sb, x, order);
        },
    }
}

/// A count of two or more is two positions holding the element.
pub proof fn lemma_count_two<A>(s: Seq<A>, a: A)
    ensures
        s.to_multiset().count(a) >= 2 <==> exists|i: int, j: int|
            0 <= i < j < s.len() && s[i] == a && s[j] == a,
    decreases s.len(),
{
    broadcast use vstd::seq_lib::group_to_multiset_ensures;

    if s.len() > 0 {
        let r = s.drop_last();
        lemma_count_two(r, a);
        assert(s =~= r.push(s.last()));
        assert(s.to_multiset() =~= r.to_multiset().insert(s.last()));
        if s.to_multiset().count(a) >= 2 {
            if s.last() == a {
                assert(r.to_multiset().count(a) >= 1);
                assert(r.contains(a));
                let i = choose|i: int| 0 <= i < r.len() && r[i] == a;
                assert(s[i] == a && s[s.len() - 1] == a);
            } else {
                let (i, j) = choose|i: int, j: int| 0 <= i < j < r.len() && r[i] == a && r[j] == a;
                assert(s[i] == a && s[j] == a);
            }
        }
        if exists|i: int, j: int| 0 <= i < j < s.len() && s[i] == a && s[j] == a {
            let (i, j) = choose|i: int, j: int| 0 <= i < j < s.len() && s[i] == a && s[j] == a;
            if j == s.len() - 1 {
                assert(r[i] == a);
                assert(r.contains(a));
            } else {
                assert(r[i] == a && r[j] == a);
            }
        }
    }
}

/// If a sequence with one more device than another has distinct ids, so has
/// the other, and it lacks the new device's id.
pub proof fn lemma_distinct_after_insert(before: Seq<IoTDevice>, after: Seq<IoTDevice>, d: IoTDevice)
    requires
        after.to_multiset() == before.to_multiset().insert(d),
    ensures
        distinct_ids(after) ==> distinct_ids(before) && !has_id(before, d.numerical_id),
{
    broadcast use vstd::seq_lib::group_to_multiset_ensures;

    if distinct_ids(after) {
        // two positions of `after` that hold given elements
        assert forall|e: IoTDevice, f: IoTDevice|
            e != f && after.contains(e) && after.contains(f) implies e.numerical_id
            != f.numerical_id by {
            let i = choose|i: int| 0 <= i < after.len() && after[i] == e;
            let j = choose|j: int| 0 <= j < after.len() && after[j] == f;
            assert(i != j);
        }
        assert forall|e: IoTDevice| after.to_multiset().count(e) < 2 by {
            lemma_count_two(after, e);
            if after.to_multiset().count(e) >= 2 {
                let (i, j) = choose|i: int, j: int|
                    0 <= i < j < after.len() && after[i] == e && after[j] == e;
            }
        }
        assert forall|i: int, j: int| 0 <= i < j < before.len() implies before[i].numerical_id
            != before[j].numerical_id by {
            let e = before[i];
            let f = before[j];
            assert(before.contains(e) && before.contains(f));
            assert(after.to_multiset().count(e) >= before.to_multiset().count(e));
            assert(after.to_multiset().count(f) >= before.to_multiset().count(f));
            if e == f {
                lemma_count_two(before, e);
            } else {
                assert(after.contains(e) && after.contains(f));
            }
        }
        if has_id(before, d.numerical_id) {
            let j = choose|j: int| 0 <= j < before.len() && before[j].numerical_id == d.numerical_id;
            let e = before[j];
            assert(before.contains(e));
            assert(after.to_multiset().count(d) >= 1);
            if e == d {
                assert(after.to_multiset().count(d) >= 2);
            } else {
                assert(after.to_multiset().count(e) >= 1);
                assert(after.contains(e) && after.contains(d));
            }
        }
    }
}

} // verus!
