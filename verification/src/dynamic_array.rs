//! A timestamp store: a growable array of `u64` values, appended at the back
//! and read by index.
//!
//! The values live in a buffer of slots that grows by half its size (or to
//! what is needed, if that is more) when it is full.
use vstd::prelude::*;

verus! {

/// A growable array of timestamps.
pub struct TimestampSaver {
    pub buf: Vec<Option<u64>>,
    pub cap: usize,
    pub length: usize,
}

/// The buffer size after growing a buffer of `cap` slots to hold at least
/// `min_cap`: half as large again, or `min_cap` if that is more (or if half as
/// large again does not fit in a `usize`).
pub open spec fn grown_capacity(cap: int, min_cap: int) -> int {
    if cap + cap / 2 > min_cap && cap + cap / 2 <= usize::MAX {
        cap + cap / 2
    } else {
        min_cap
    }
}

impl View for TimestampSaver {
    type V = Seq<u64>;

    /// The stored values, in the order they were appended.
    closed spec fn view(&self) -> Seq<u64> {
        Seq::new(self.length as nat, |i: int| self.buf@[i].unwrap())
    }
}

impl TimestampSaver {
    /// The first `length` slots of the buffer hold the values; `cap` is the
    /// buffer's size.
    pub closed spec fn wf(&self) -> bool {
        &&& self.length <= self.buf@.len()
        &&& self.cap == self.buf@.len()
        &&& forall|i: int| 0 <= i < self.length ==> (#[trigger] self.buf@[i]) is Some
    }

    /// After appending `v`, the value at an index is the one there before,
    /// `v` at the old length, and nothing past it.
    pub proof fn lemma_append_at(before: Seq<u64>, v: u64, i: int)
        ensures
            (if 0 <= i < before.push(v).len() {
                Some(before.push(v)[i])
            } else {
                None
            }) == if 0 <= i < before.len() {
                Some(before[i])
            } else if i == before.len() {
                Some(v)
            } else {
                None::<u64>
            },
    {
    }

    /// The number of values of a well-formed store is its `length`.
    pub proof fn lemma_length(&self)
        requires
            self.wf(),
        ensures
            self.length == self@.len(),
    {
    }

    /// An empty store with no buffer.
    pub fn new_empty() -> (s: TimestampSaver)
        ensures
            s.wf(),
            s@ == Seq::<u64>::empty(),
            s.length == 0,
            s.cap == 0,
    {
        let s = TimestampSaver { buf: Vec::new(), cap: 0, length: 0 };
        assert(s@ =~= Seq::<u64>::empty());
        s
    }

    /// Replaces the buffer by one of at least `min_cap` slots, half as large
    /// again as the old one if that is more, keeping the values.
    fn grow(&mut self, min_cap: usize)
        requires
            old(self).wf(),
            min_cap > old(self).buf@.len(),
        ensures
            final(self).wf(),
            final(self)@ == old(self)@,
            final(self).length == old(self).length,
            final(self).buf@.len() == grown_capacity(old(self).buf@.len() as int, min_cap as int),
    {
        let old_cap = self.buf.len();
        let mut new_cap = min_cap;
        if old_cap <= usize::MAX - old_cap / 2 && old_cap + old_cap / 2 > min_cap {
            new_cap = old_cap + old_cap / 2;
        }
        let mut new_buf: Vec<Option<u64>> = Vec::new();
        let mut i: usize = 0;
        while i < new_cap
            invariant
                old_cap == self.buf@.len(),
                old_cap < new_cap,
                0 <= i <= new_cap,
                new_buf@.len() == i,
                forall|j: int| 0 <= j < i && j < old_cap ==> new_buf@[j] == self.buf@[j],
                forall|j: int| old_cap <= j < i ==> new_buf@[j] is None,
            decreases new_cap - i,
        {
            if i < old_cap {
                new_buf.push(self.buf[i]);
            } else {
                new_buf.push(None);
            }
            i += 1;
        }
        let ghost before = *self;
        self.buf = new_buf;
        self.cap = new_cap;
        proof {
            assert forall|j: int| 0 <= j < self.length implies (#[trigger] self.buf@[j]) is Some by {
                assert(self.buf@[j] == before.buf@[j]);
            }
            assert(self@ =~= before@);
        }
    }

    /// Appends a value, growing the buffer when it is full.
    pub fn append(&mut self, value: u64)
        requires
            old(self).wf(),
            old(self).length < usize::MAX,
        ensures
            final(self).wf(),
            final(self)@ == old(self)@.push(value),
            final(self).length == old(self).length + 1,
            final(self).cap == if old(self).length < old(self).cap {
                old(self).cap as int
            } else {
                grown_capacity(old(self).cap as int, old(self).length + 1)
            },
    {
        if self.buf.len() < self.length + 1 {
            self.grow(self.length + 1);
        }
        let ghost before = *self;
        self.buf.set(self.length, Some(value));
        self.length += 1;
        proof {
            assert forall|j: int| 0 <= j < self.length implies (#[trigger] self.buf@[j]) is Some by {
                if j < before.length {
                    assert(self.buf@[j] == before.buf@[j]);
                }
            }
            assert(self@ =~= old(self)@.push(value));
        }
    }

    /// The value at `index`, or `None` past the end.
    pub fn at(&self, index: usize) -> (r: Option<u64>)
        requires
            self.wf(),
        ensures
            r == if index < self@.len() {
                Some(self@[index as int])
            } else {
                None
            },
    {
        if self.length > index {
            self.buf[index]
        } else {
            None
        }
    }

    /// A cursor at the last value, which takes the store over.
    pub fn back_iter(self) -> (it: ListIterator)
        requires
            self.wf(),
        ensures
            it.wf(),
            it.items() == self@,
            it.position() == self@.len() - 1,
    {
        let mut data: Vec<u64> = Vec::new();
        let mut i: usize = 0;
        while i < self.length
            invariant
                self.wf(),
                0 <= i <= self.length,
                data@ == self@.take(i as int),
            decreases self.length - i,
        {
            data.push(self.buf[i].unwrap());
            i += 1;
            proof {
                assert(data@ =~= self@.take(i as int));
            }
        }
        proof {
            assert(data@ =~= self@);
        }
        let current = if self.length > 0 {
            Some(self.length - 1)
        } else {
            None
        };
        ListIterator { data: data, current: current, pos: Ghost(self@.len() - 1) }
    }
}

/// A cursor over the values of a store. `next` hands out the value under the
/// cursor and moves it towards the back, `next_back` towards the front; once
/// it has left the values both return `None`.
pub struct ListIterator {
    data: Vec<u64>,
    current: Option<usize>,
    pos: Ghost<int>,
}

impl ListIterator {
    /// The cursor points at `position` while that is an index of the values,
    /// and at nothing otherwise.
    pub closed spec fn wf(&self) -> bool {
        &&& self.data@.len() <= usize::MAX
        &&& if 0 <= self.pos@ < self.data@.len() {
            self.current == Some(self.pos@ as usize)
        } else {
            self.current is None
        }
    }

    /// The values the cursor runs over.
    pub closed spec fn items(&self) -> Seq<u64> {
        self.data@
    }

    /// The index of the value under the cursor (outside the values once it has left them).
    pub closed spec fn position(&self) -> int {
        self.pos@
    }

    /// The value under the cursor, moving the cursor one value towards the back.
    pub fn next(&mut self) -> (r: Option<u64>)
        requires
            old(self).wf(),
        ensures
            final(self).wf(),
            final(self).items() == old(self).items(),
            0 <= old(self).position() < old(self).items().len() ==> r == Some(
                old(self).items()[old(self).position()],
            ) && final(self).position() == old(self).position() + 1,
            !(0 <= old(self).position() < old(self).items().len()) ==> r is None
                && final(self).position() == old(self).position(),
    {
        match self.current {
            Some(c) => {
                let item = self.data[c];
                let n = self.data.len();
                self.current = if c < n - 1 {
                    Some(c + 1)
                } else {
                    None
                };
                self.pos = Ghost(self.pos@ + 1);
                Some(item)
            },
            None => None,
        }
    }

    /// The value under the cursor, moving the cursor one value towards the front.
    pub fn next_back(&mut self) -> (r: Option<u64>)
        requires
            old(self).wf(),
        ensures
            final(self).wf(),
            final(self).items() == old(self).items(),
            0 <= old(self).position() < old(self).items().len() ==> r == Some(
                old(self).items()[old(self).position()],
            ) && final(self).position() == old(self).position() - 1,
            !(0 <= old(self).position() < old(self).items().len()) ==> r is None
                && final(self).position() == old(self).position(),
    {
        match self.current {
            Some(c) => {
                let ghost p = self.pos@;
                assert(p == c as int);
                let item = self.data[c];
                self.current = if c > 0 {
                    Some(c - 1)
                } else {
                    None
                };
                self.pos = Ghost(p - 1);
                Some(item)
            },
            None => None,
        }
    }
}

} // verus!
