//! The size rule and leaf levels that `validate` checks.
use vstd::prelude::*;
use super::{Node, NodeType, Tree};
use super::walk::{height, kid_wf, node_wf, node_wf_at};

verus! {

/// The node-size rule: at most `order` subtree slots in every node, and in an
/// inner node at least two when it is the root, else at least `order / 2`.
pub open spec fn keys_ok(n: Node, is_root: bool, order: int) -> bool {
    size_ok(n, is_root, order, true)
}

/// At most `order` subtree slots in every node and, when `fill` holds, the
/// lower bounds of `keys_ok` too.
pub open spec fn size_ok(n: Node, is_root: bool, order: int, fill: bool) -> bool {
    keys_ok_cap(n, is_root, order, order, fill)
}

/// The rule of `size_ok`, with at most `cap` subtree slots in this node itself.
pub open spec fn keys_ok_cap(n: Node, is_root: bool, order: int, cap: int, fill: bool) -> bool
    decreases n,
{
    let len = n.children@.len() + 1;
    match n.node_type {
        NodeType::Leaf => len <= cap,
        NodeType::Regular => {
            &&& len <= cap
            &&& fill ==> len >= if is_root {
                2
            } else {
                order / 2
            }
            &&& match n.left_child {
                Some(c) => keys_ok_cap(*c, false, order, order, fill),
                None => true,
            }
            &&& forall|i: int|
                0 <= i < n.children@.len() ==> opt_keys_ok(#[trigger] n.children@[i], order, fill)
        },
    }
}

/// A subtree slot that is empty or holds a subtree meeting the rule as a non-root.
pub open spec fn opt_keys_ok(t: Option<Tree>, order: int, fill: bool) -> bool
    decreases t,
{
    match t {
        Some(c) => keys_ok_cap(*c, false, order, order, fill),
        None => true,
    }
}

/// The levels below `n`, standing at `level`, can be counted in a `usize`:
/// every node below it has fewer than `usize::MAX` subtree slots, and every
/// inner node stands at a level below `usize::MAX`.
pub open spec fn levels_fit(n: Node, level: int) -> bool
    decreases n,
{
    &&& n.children@.len() < usize::MAX
    &&& n.node_type == NodeType::Regular ==> {
        &&& level < usize::MAX
        &&& match n.left_child {
            Some(c) => levels_fit(*c, level + 1),
            None => true,
        }
        &&& forall|i: int|
            0 <= i < n.children@.len() ==> opt_levels_fit(#[trigger] n.children@[i], level + 1)
    }
}

/// An empty subtree slot, or one whose levels fit when it stands at `level`.
pub open spec fn opt_levels_fit(t: Option<Tree>, level: int) -> bool
    decreases t,
{
    match t {
        Some(c) => levels_fit(*c, level),
        None => true,
    }
}

/// The levels of a well-formed subtree fit when its height, counted from
/// `level`, fits and its nodes hold fewer than `usize::MAX - 1` devices.
pub proof fn lemma_levels_fit(n: Node, order: int, cap: int, level: int)
    requires
        node_wf_at(n, order, cap),
        cap < usize::MAX,
        order + 1 < usize::MAX,
        0 <= level,
        level + height(n) <= usize::MAX,
    ensures
        levels_fit(n, level),
    decreases n,
{
    if n.node_type == NodeType::Regular {
        let l = n.left_child.unwrap();
        lemma_levels_fit(*l, order, order + 1, level + 1);
        assert forall|i: int| 0 <= i < n.children@.len() implies opt_levels_fit(
            #[trigger] n.children@[i],
            level + 1,
        ) by {
            assert(kid_wf(n.children@[i], height(*l), order));
            let c = n.children@[i].unwrap();
            lemma_levels_fit(*c, order, order + 1, level + 1);
        }
    }
}

/// The smaller of two integers.
pub open spec fn min_int(a: int, b: int) -> int {
    if a <= b {
        a
    } else {
        b
    }
}

/// The greater of two integers.
pub open spec fn max_int(a: int, b: int) -> int {
    if a >= b {
        a
    } else {
        b
    }
}

/// The smallest level of a leaf below `n`, when `n` stands at `level`
/// (`usize::MAX` for an inner node with no subtree).
pub open spec fn leaf_min(n: Node, level: int) -> int
    decreases n,
{
    match n.node_type {
        NodeType::Leaf => level,
        NodeType::Regular => {
            let k = kids_min(n.children@, level + 1);
            match n.left_child {
                Some(c) => min_int(k, leaf_min(*c, level + 1)),
                None => k,
            }
        },
    }
}

/// The smallest leaf level below the filled slots of `kids`, standing at `level`.
pub open spec fn kids_min(kids: Seq<Option<Tree>>, level: int) -> int
    decreases kids,
{
    if kids.len() == 0 {
        usize::MAX as int
    } else {
        let k = kids_min(kids.drop_last(), level);
        match kids.last() {
            Some(c) => min_int(k, leaf_min(*c, level)),
            None => k,
        }
    }
}

/// The greatest level of a leaf below `n`, or `level` itself, when `n` stands at `level`.
pub open spec fn leaf_max(n: Node, level: int) -> int
    decreases n,
{
    match n.node_type {
        NodeType::Leaf => level,
        NodeType::Regular => {
            let k = max_int(level, kids_max(n.children@, level + 1));
            match n.left_child {
                Some(c) => max_int(k, leaf_max(*c, level + 1)),
                None => k,
            }
        },
    }
}

/// The greatest leaf level below the filled slots of `kids` (0 if none).
pub open spec fn kids_max(kids: Seq<Option<Tree>>, level: int) -> int
    decreases kids,
{
    if kids.len() == 0 {
        0
    } else {
        let k = kids_max(kids.drop_last(), level);
        match kids.last() {
            Some(c) => max_int(k, leaf_max(*c, level)),
            None => k,
        }
    }
}

/// In a well-formed tree that meets the size rule, every leaf stands at the
/// same level: `level` plus the height.
pub proof fn lemma_leaf_levels(n: Node, is_root: bool, order: int, level: int)
    requires
        node_wf(n, order),
        0 <= level,
        level + height(n) <= usize::MAX,
    ensures
        leaf_min(n, level) == level + height(n),
        leaf_max(n, level) == level + height(n),
    decreases n,
{
    if n.node_type == NodeType::Regular {
        let l = n.left_child.unwrap();
        lemma_leaf_levels(*l, false, order, level + 1);
        lemma_kids_levels(n.children@, height(*l), order, level + 1);
    }
}

/// All filled slots of a node whose subtrees have height `h` put their leaves
/// at `level + h`.
pub(crate) proof fn lemma_kids_levels(kids: Seq<Option<Tree>>, h: nat, order: int, level: int)
    requires
        forall|i: int| 0 <= i < kids.len() ==> kid_wf(#[trigger] kids[i], h, order),
        0 <= level,
        level + h <= usize::MAX,
    ensures
        kids.len() == 0 ==> kids_min(kids, level) == usize::MAX && kids_max(kids, level) == 0,
        kids.len() > 0 ==> kids_min(kids, level) == level + h && kids_max(kids, level) == level + h,
    decreases kids,
{
    if kids.len() > 0 {
        let rest = kids.drop_last();
        assert forall|i: int| 0 <= i < rest.len() implies kid_wf(#[trigger] rest[i], h, order) by {
            assert(rest[i] == kids[i]);
        }
        lemma_kids_levels(rest, h, order, level);
        assert(kid_wf(kids[kids.len() - 1], h, order));
        let c = kids.last().unwrap();
        lemma_leaf_levels(*c, false, order, level);
    }
}

/// `n`, standing at `level`, has a leaf at level `d` below it (or is one):
/// reached through its left subtree or through any filled subtree slot.
pub open spec fn has_leaf_at(n: Node, level: int, d: int) -> bool
    decreases n,
{
    match n.node_type {
        NodeType::Leaf => d == level,
        NodeType::Regular => {
            ||| match n.left_child {
                Some(c) => has_leaf_at(*c, level + 1, d),
                None => false,
            }
            ||| exists|i: int|
                0 <= i < n.children@.len() && opt_has_leaf_at(#[trigger] n.children@[i], level + 1, d)
        },
    }
}

/// A filled subtree slot with a leaf at level `d` below it.
pub open spec fn opt_has_leaf_at(t: Option<Tree>, level: int, d: int) -> bool
    decreases t,
{
    match t {
        Some(c) => has_leaf_at(*c, level, d),
        None => false,
    }
}

/// The levels `validate` reports bound every leaf: no leaf below `n` stands
/// above the smallest leaf level or below the greatest one, whichever
/// subtree slot it hangs from.
pub proof fn lemma_leaf_bounds(n: Node, level: int, d: int)
    requires
        has_leaf_at(n, level, d),
    ensures
        leaf_min(n, level) <= d <= leaf_max(n, level),
    decreases n,
{
    if n.node_type == NodeType::Regular {
        let in_left = match n.left_child {
            Some(c) => has_leaf_at(*c, level + 1, d),
            None => false,
        };
        if in_left {
            let c = n.left_child.unwrap();
            lemma_leaf_bounds(*c, level + 1, d);
        } else {
            let i = choose|i: int|
                0 <= i < n.children@.len() && opt_has_leaf_at(#[trigger] n.children@[i], level + 1, d);
            let c = n.children@[i].unwrap();
            lemma_leaf_bounds(*c, level + 1, d);
            lemma_kids_bounds(n.children@, level + 1, i);
        }
    }
}

/// The smallest and greatest leaf levels over subtree slots bound those of
/// each filled slot.
pub proof fn lemma_kids_bounds(kids: Seq<Option<Tree>>, level: int, i: int)
    requires
        0 <= i < kids.len(),
        kids[i] is Some,
    ensures
        kids_min(kids, level) <= leaf_min(*kids[i].unwrap(), level),
        kids_max(kids, level) >= leaf_max(*kids[i].unwrap(), level),
    decreases kids.len(),
{
    if i < kids.len() - 1 {
        lemma_kids_bounds(kids.drop_last(), level, i);
        assert(kids.drop_last()[i] == kids[i]);
    }
}

/// In a tree that meets the size rule as a root, an inner root has, besides
/// its left subtree slot, at least one more, and no node has more than
/// `order` slots; an inner node below the root has at least `order / 2`.
pub proof fn lemma_size_bounds(n: Node, is_root: bool, order: int)
    requires
        keys_ok(n, is_root, order),
    ensures
        n.children@.len() + 1 <= order,
        n.node_type == NodeType::Regular && is_root ==> n.children@.len() >= 1,
        n.node_type == NodeType::Regular && !is_root ==> n.children@.len() + 1 >= order / 2,
        n.node_type == NodeType::Regular ==> match n.left_child {
            Some(c) => keys_ok(*c, false, order),
            None => true,
        },
        n.node_type == NodeType::Regular ==> forall|i: int|
            0 <= i < n.children@.len() && #[trigger] n.children@[i] is Some ==> keys_ok(
                *n.children@[i].unwrap(),
                false,
                order,
            ),
{
    if n.node_type == NodeType::Regular {
        assert forall|i: int|
            0 <= i < n.children@.len() && #[trigger] n.children@[i] is Some implies keys_ok(
                *n.children@[i].unwrap(),
                false,
                order,
            ) by {
            assert(opt_keys_ok(n.children@[i], order, true));
        }
    }
}

} // verus!
