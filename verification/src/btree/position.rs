//! Where a key falls among the devices of a node.
use vstd::prelude::*;
use crate::IoTDevice;
use super::{Direction, Node, Tree};
use super::walk::{search};

verus! {

/// The slot holds a device whose id is greater than `key`.
pub open spec fn is_greater(d: Option<IoTDevice>, key: u64) -> bool {
    d matches Some(x) && x.numerical_id > key
}

/// The index of the first device whose id is greater than `key`, or the length.
pub open spec fn stop_index(devs: Seq<Option<IoTDevice>>, key: u64) -> int
    decreases devs.len(),
{
    if devs.len() == 0 {
        0
    } else if is_greater(devs[0], key) {
        0
    } else {
        1 + stop_index(devs.drop_first(), key)
    }
}

/// The last slot before `j` that holds a device, or `Left` if there is none.
pub open spec fn last_some_before(devs: Seq<Option<IoTDevice>>, j: int) -> Direction
    decreases j,
{
    if j <= 0 {
        Direction::Left
    } else if devs[j - 1] is Some {
        Direction::Right((j - 1) as usize)
    } else {
        last_some_before(devs, j - 1)
    }
}

/// The last device before the first one with an id greater than `key`.
pub open spec fn closest(devs: Seq<Option<IoTDevice>>, key: u64) -> Direction {
    last_some_before(devs, stop_index(devs, key))
}

/// The index at which a device keyed `key` is inserted: right after `closest`.
pub open spec fn insert_pos(devs: Seq<Option<IoTDevice>>, key: u64) -> int {
    match closest(devs, key) {
        Direction::Left => 0,
        Direction::Right(p) => p + 1,
    }
}

/// The first device of the node with id `key`.
pub open spec fn first_with_id(devs: Seq<Option<IoTDevice>>, key: u64) -> Option<IoTDevice>
    decreases devs.len(),
{
    if devs.len() == 0 {
        None
    } else {
        match devs[0] {
            Some(d) if d.numerical_id == key => Some(d),
            _ => first_with_id(devs.drop_first(), key),
        }
    }
}

/// The subtree in which a search for `key` goes on.
pub open spec fn child_for(n: Node, key: u64) -> Option<Tree> {
    match closest(n.devices@, key) {
        Direction::Left => n.left_child,
        Direction::Right(i) => n.children@[i as int],
    }
}

/// `stop_index` is the first slot holding a greater id, or the length.
pub proof fn lemma_stop_index(devs: Seq<Option<IoTDevice>>, key: u64)
    ensures
        0 <= stop_index(devs, key) <= devs.len(),
        forall|k: int| 0 <= k < stop_index(devs, key) ==> !is_greater(#[trigger] devs[k], key),
        stop_index(devs, key) < devs.len() ==> is_greater(devs[stop_index(devs, key)], key),
    decreases devs.len(),
{
    if devs.len() > 0 && !is_greater(devs[0], key) {
        let rest = devs.drop_first();
        lemma_stop_index(rest, key);
        assert forall|k: int| 0 <= k < stop_index(devs, key) implies !is_greater(
            #[trigger] devs[k],
            key,
        ) by {
            if k > 0 {
                assert(devs[k] == rest[k - 1]);
            }
        }
        if stop_index(devs, key) < devs.len() {
            assert(devs[stop_index(devs, key)] == rest[stop_index(rest, key)]);
        }
    }
}

/// `last_some_before` is a filled slot before `j` with only empty slots after
/// it, or `Left` when every slot before `j` is empty.
pub proof fn lemma_last_some_before(devs: Seq<Option<IoTDevice>>, j: int)
    requires
        0 <= j <= devs.len() <= usize::MAX,
    ensures
        match last_some_before(devs, j) {
            Direction::Left => forall|k: int| 0 <= k < j ==> (#[trigger] devs[k]) is None,
            Direction::Right(p) => {
                &&& 0 <= p < j
                &&& devs[p as int] is Some
                &&& forall|k: int| p < k < j ==> (#[trigger] devs[k]) is None
            },
        },
    decreases j,
{
    if j > 0 && devs[j - 1] is None {
        lemma_last_some_before(devs, j - 1);
        match last_some_before(devs, j - 1) {
            Direction::Left => {
                assert forall|k: int| 0 <= k < j implies (#[trigger] devs[k]) is None by {
                    if k < j - 1 {
                        assert(devs[k] is None);
                    }
                }
            },
            Direction::Right(p) => {
                assert forall|k: int| p < k < j implies (#[trigger] devs[k]) is None by {
                    if k < j - 1 {
                        assert(devs[k] is None);
                    }
                }
            },
        }
    }
}

/// `closest` points at a device of the node, and no later device up to the
/// first greater one.
pub proof fn lemma_closest(devs: Seq<Option<IoTDevice>>, key: u64)
    requires
        devs.len() <= usize::MAX,
    ensures
        0 <= insert_pos(devs, key) <= stop_index(devs, key) <= devs.len(),
        match closest(devs, key) {
            Direction::Left => forall|k: int|
                0 <= k < stop_index(devs, key) ==> (#[trigger] devs[k]) is None,
            Direction::Right(p) => {
                &&& 0 <= p < stop_index(devs, key)
                &&& devs[p as int] matches Some(d) && d.numerical_id <= key
                &&& forall|k: int| p < k < stop_index(devs, key) ==> (#[trigger] devs[k]) is None
            },
        },
{
    lemma_stop_index(devs, key);
    lemma_last_some_before(devs, stop_index(devs, key));
    if let Direction::Right(p) = closest(devs, key) {
        assert(!is_greater(devs[p as int], key));
    }
}

/// When no slot before `i` holds id `key`, `first_with_id` is the device in
/// slot `i` if it has that id, and none if `i` is the length.
pub proof fn lemma_first_with_id(devs: Seq<Option<IoTDevice>>, key: u64, i: int)
    requires
        0 <= i <= devs.len(),
        forall|k: int|
            0 <= k < i ==> !(#[trigger] devs[k] matches Some(d) && d.numerical_id == key),
    ensures
        i == devs.len() ==> first_with_id(devs, key) is None,
        i < devs.len() && (devs[i] matches Some(d) && d.numerical_id == key) ==> first_with_id(
            devs,
            key,
        ) == devs[i],
    decreases i,
{
    if i > 0 {
        let rest = devs.drop_first();
        assert forall|k: int|
            0 <= k < i - 1 implies !(#[trigger] rest[k] matches Some(d) && d.numerical_id
            == key) by {
            assert(rest[k] == devs[k + 1]);
        }
        lemma_first_with_id(rest, key, i - 1);
        if i < devs.len() {
            assert(rest[i - 1] == devs[i]);
        }
    } else if devs.len() == 0 {
    }
}

/// The device named by `first_with_id` is one of the node's devices.
pub proof fn lemma_first_with_id_in(devs: Seq<Option<IoTDevice>>, key: u64)
    ensures
        first_with_id(devs, key) matches Some(d) ==> d.numerical_id == key && exists|i: int|
            0 <= i < devs.len() && devs[i] == Some(d),
    decreases devs.len(),
{
    if devs.len() > 0 {
        lemma_first_with_id_in(devs.drop_first(), key);
        if let Some(d) = first_with_id(devs, key) {
            if devs[0] == Some(d) && d.numerical_id == key {
            } else {
                let i = choose|i: int| 0 <= i < devs.drop_first().len() && devs.drop_first()[i] == Some(d);
                assert(devs[i + 1] == Some(d));
            }
        }
    }
}

} // verus!
