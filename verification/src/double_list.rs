//! A transaction log: a doubly linked list of strings, appended at the back
//! and popped from the front, that can be walked in both directions.
//!
//! The nodes live in a vector and link to each other by their index in it;
//! the slots of popped nodes are kept on a free list and reused.
use vstd::prelude::*;

verus! {

/// A node of the list: its value and the slots of its neighbours.
pub struct Node {
    value: String,
    next: Option<usize>,
    prev: Option<usize>,
}

impl Node {
    fn new(value: String) -> (n: Node)
        ensures
            n.value == value,
            n.next is None,
            n.prev is None,
    {
        Node { value: value, next: None, prev: None }
    }
}

/// A transaction log holding its entries in a doubly linked list.
pub struct TransactionLog {
    pub nodes: Vec<Node>,
    pub free: Vec<usize>,
    pub head: Option<usize>,
    pub tail: Option<usize>,
    pub length: u64,
    /// The slots of the list's nodes, from head to tail.
    pub order: Ghost<Seq<usize>>,
}

/// The slot that follows position `i` of the list, if any.
pub open spec fn next_slot(o: Seq<usize>, i: int) -> Option<usize> {
    if i + 1 < o.len() {
        Some(o[i + 1])
    } else {
        None
    }
}

/// The slot that precedes position `i` of the list, if any.
pub open spec fn prev_slot(o: Seq<usize>, i: int) -> Option<usize> {
    if i > 0 {
        Some(o[i - 1])
    } else {
        None
    }
}

impl View for TransactionLog {
    type V = Seq<String>;

    /// The entries from head to tail.
    closed spec fn view(&self) -> Seq<String> {
        Seq::new(self.order@.len(), |i: int| self.nodes@[self.order@[i] as int].value)
    }
}

impl TransactionLog {
    /// The list's slots are distinct slots of `nodes`, linked forwards and
    /// backwards in order, with `head` and `tail` at its ends; free slots are
    /// distinct and not in the list; `length` counts the entries.
    pub closed spec fn wf(&self) -> bool {
        let o = self.order@;
        let f = self.free@;
        &&& self.length == o.len()
        &&& forall|i: int| 0 <= i < o.len() ==> (#[trigger] o[i]) < self.nodes@.len()
        &&& forall|i: int, j: int| 0 <= i < j < o.len() ==> o[i] != o[j]
        &&& self.head == if o.len() == 0 {
            None
        } else {
            Some(o[0])
        }
        &&& self.tail == if o.len() == 0 {
            None
        } else {
            Some(o.last())
        }
        &&& forall|i: int|
            0 <= i < o.len() ==> (#[trigger] self.nodes@[o[i] as int]).next == next_slot(o, i)
        &&& forall|i: int|
            0 <= i < o.len() ==> (#[trigger] self.nodes@[o[i] as int]).prev == prev_slot(o, i)
        &&& forall|k: int| 0 <= k < f.len() ==> (#[trigger] f[k]) < self.nodes@.len() && !o.contains(f[k])
        &&& forall|k: int, l: int| 0 <= k < l < f.len() ==> f[k] != f[l]
    }

    /// Appending and popping commute on a log that holds entries: the entry
    /// popped is the oldest one, and an entry appended to an empty log is the
    /// next one popped.
    pub proof fn lemma_append_pop(before: Seq<String>, v: String)
        ensures
            before.len() > 0 ==> before.push(v)[0] == before[0] && before.push(v).drop_first()
                == before.drop_first().push(v),
            before.len() == 0 ==> before.push(v)[0] == v && before.push(v).drop_first()
                == Seq::<String>::empty(),
    {
        assert(before.len() > 0 ==> before.push(v).drop_first() =~= before.drop_first().push(v));
        assert(before.len() == 0 ==> before.push(v).drop_first() =~= Seq::<String>::empty());
    }

    /// The number of entries of a well-formed log is its `length`.
    pub proof fn lemma_length(&self)
        requires
            self.wf(),
        ensures
            self.length == self@.len(),
    {
    }

    /// An empty log.
    pub fn new_empty() -> (log: TransactionLog)
        ensures
            log.wf(),
            log@ == Seq::<String>::empty(),
            log.length == 0,
            log.head is None,
            log.tail is None,
            log.nodes@.len() == 0,
            log.free@.len() == 0,
    {
        let log = TransactionLog {
            nodes: Vec::new(),
            free: Vec::new(),
            head: None,
            tail: None,
            length: 0,
            order: Ghost(Seq::empty()),
        };
        assert(log@ =~= Seq::<String>::empty());
        log
    }

    /// Appends an entry at the back.
    pub fn append(&mut self, value: String)
        requires
            old(self).wf(),
            old(self).length < u64::MAX,
        ensures
            final(self).wf(),
            final(self)@ == old(self)@.push(value),
            final(self).length == old(self).length + 1,
            final(self).head is Some,
            final(self).tail is Some,
            old(self)@.len() > 0 ==> final(self).head == old(self).head,
            old(self).free@.len() > 0 ==> final(self).free@ == old(self).free@.drop_last()
                && final(self).nodes@.len() == old(self).nodes@.len(),
            old(self).free@.len() == 0 ==> final(self).free@ == old(self).free@
                && final(self).nodes@.len() == old(self).nodes@.len() + 1,
    {
        let ghost o = self.order@;
        let ghost old_nodes = self.nodes@;
        let ghost v = value;
        let mut new = Node::new(value);
        new.prev = self.tail;
        let slot: usize;
        match self.free.pop() {
            Some(s) => {
                proof {
                    let f = old(self).free@;
                    assert(f[f.len() - 1] == s);
                }
                self.nodes.set(s, new);
                slot = s;
            },
            None => {
                slot = self.nodes.len();
                self.nodes.push(new);
            },
        }
        proof {
            assert(!o.contains(slot));
            assert forall|i: int| 0 <= i < o.len() implies o[i] != slot by {
                assert(o.contains(o[i]));
            }
        }
        match self.tail {
            Some(t) => {
                self.nodes[t].next = Some(slot);
            },
            None => {
                self.head = Some(slot);
            },
        }
        self.length += 1;
        self.tail = Some(slot);
        proof {
            self.order@ = o.push(slot);
            let n = o.push(slot);
            assert forall|i: int| 0 <= i < n.len() implies (#[trigger] self.nodes@[n[i] as int]).next
                == next_slot(n, i) by {
                if i < o.len() {
                    assert(n[i] == o[i]);
                    if i + 1 < o.len() {
                        assert(n[i + 1] == o[i + 1]);
                    }
                }
            }
            assert forall|i: int| 0 <= i < n.len() implies (#[trigger] self.nodes@[n[i] as int]).prev
                == prev_slot(n, i) by {
                if i < o.len() {
                    assert(n[i] == o[i]);
                    if i > 0 {
                        assert(n[i - 1] == o[i - 1]);
                    }
                }
            }
            let f = self.free@;
            assert forall|k: int| 0 <= k < f.len() implies (#[trigger] f[k]) < self.nodes@.len()
                && !n.contains(f[k]) by {
                assert(f[k] == old(self).free@[k]);
                if n.contains(f[k]) {
                    let j = choose|j: int| 0 <= j < n.len() && n[j] == f[k];
                    if j < o.len() {
                        assert(o.contains(o[j]));
                    }
                }
            }
            assert(self@ =~= old(self)@.push(v));
        }
    }

    /// Takes the entry at the front, or `None` when the log is empty.
    pub fn pop(&mut self) -> (r: Option<String>)
        requires
            old(self).wf(),
        ensures
            final(self).wf(),
            old(self)@.len() == 0 ==> r is None && *final(self) == *old(self),
            final(self).head is None <==> final(self)@.len() == 0,
            final(self).tail is None <==> final(self)@.len() == 0,
            old(self)@.len() > 0 ==> final(self).tail == if final(self)@.len() == 0 {
                None
            } else {
                old(self).tail
            },
            old(self)@.len() > 0 ==> r == Some(old(self)@[0]) && final(self)@ == old(self)@.drop_first()
                && final(self).length == old(self).length - 1,
            old(self)@.len() > 0 ==> final(self).free@ == old(self).free@.push(
                old(self).head.unwrap(),
            ),
            final(self).nodes@.len() == old(self).nodes@.len(),
            old(self)@.len() == 0 ==> final(self).free@ == old(self).free@,
    {
        let ghost o = self.order@;
        match self.head {
            None => None,
            Some(h) => {
                let next = self.nodes[h].next;
                self.nodes[h].next = None;
                match next {
                    Some(n) => {
                        proof {
                            assert(o.len() > 1);
                            assert(n == o[1]);
                        }
                        self.nodes[n].prev = None;
                        self.head = Some(n);
                    },
                    None => {
                        self.tail = None;
                        self.head = None;
                    },
                }
                self.length -= 1;
                let mut value = String::new();
                std::mem::swap(&mut value, &mut self.nodes[h].value);
                self.free.push(h);
                proof {
                    let n = o.drop_first();
                    self.order@ = n;
                    assert(o[0] == h);
                    assert forall|i: int| 0 <= i < n.len() implies n[i] != h by {
                        assert(n[i] == o[i + 1]);
                    }
                    assert forall|i: int| 0 <= i < n.len() implies (#[trigger] self.nodes@[n[i] as int]).next
                        == next_slot(n, i) by {
                        assert(n[i] == o[i + 1]);
                        assert(old(self).nodes@[o[i + 1] as int].next == next_slot(o, i + 1));
                        if i + 1 < n.len() {
                            assert(n[i + 1] == o[i + 2]);
                        }
                    }
                    assert forall|i: int| 0 <= i < n.len() implies (#[trigger] self.nodes@[n[i] as int]).prev
                        == prev_slot(n, i) by {
                        assert(n[i] == o[i + 1]);
                        assert(old(self).nodes@[o[i + 1] as int].prev == prev_slot(o, i + 1));
                        if i > 0 {
                            assert(n[i - 1] == o[i]);
                            assert(o[i + 1] != o[1]);
                        }
                    }
                    let f = self.free@;
                    let of = old(self).free@;
                    assert forall|k: int| 0 <= k < f.len() implies (#[trigger] f[k]) < self.nodes@.len()
                        && !n.contains(f[k]) by {
                        if k < of.len() {
                            assert(f[k] == of[k]);
                            if n.contains(f[k]) {
                                let j = choose|j: int| 0 <= j < n.len() && n[j] == f[k];
                                assert(o[j + 1] == f[k]);
                                assert(o.contains(o[j + 1]));
                            }
                        }
                    }
                    assert forall|k: int, l: int| 0 <= k < l < f.len() implies f[k] != f[l] by {
                        if l == of.len() {
                            assert(f[k] == of[k]);
                            assert(!o.contains(of[k]));
                            assert(o.contains(o[0]));
                        }
                    }
                    assert(self@ =~= old(self)@.drop_first());
                }
                Some(value)
            },
        }
    }

    /// A cursor at the front of the log, reading the log's own nodes; the
    /// log cannot change while the cursor is in use.
    pub fn iter<'a>(&'a self) -> (it: ListIterator<'a>)
        requires
            self.wf(),
        ensures
            it.wf(),
            it.the_log() == *self,
            it.items() == self@,
            it.position() == 0,
    {
        let head = self.head;
        ListIterator::new(LogSource::Borrowed(self), head, Ghost(0))
    }

    /// A cursor at the back of the log, which it takes over.
    pub fn back_iter(self) -> (it: ListIterator<'static>)
        requires
            self.wf(),
        ensures
            it.wf(),
            it.the_log() == self,
            it.items() == self@,
            it.position() == self@.len() - 1,
    {
        let tail = self.tail;
        let ghost last = self@.len() - 1;
        ListIterator::new(LogSource::Owned(self), tail, Ghost(last))
    }

    /// A cursor at the front of the log, which it takes over.
    pub fn into_iter(self) -> (it: ListIterator<'static>)
        requires
            self.wf(),
        ensures
            it.wf(),
            it.the_log() == self,
            it.items() == self@,
            it.position() == 0,
    {
        let head = self.head;
        ListIterator::new(LogSource::Owned(self), head, Ghost(0))
    }
}

/// A cursor over the entries of a log. `next` hands out the entry under the
/// cursor and moves it towards the back, `next_back` towards the front; once
/// it has left the log both return `None`.
pub struct ListIterator<'a> {
    log: LogSource<'a>,
    current: Option<usize>,
    pos: Ghost<int>,
}

/// The log a cursor reads: one it has taken over, or one it borrows.
pub enum LogSource<'a> {
    Owned(TransactionLog),
    Borrowed(&'a TransactionLog),
}

impl<'a> ListIterator<'a> {
    /// The log the cursor reads.
    pub closed spec fn the_log(&self) -> TransactionLog {
        match self.log {
            LogSource::Owned(l) => l,
            LogSource::Borrowed(l) => *l,
        }
    }

    fn log(&self) -> (l: &TransactionLog)
        ensures
            *l == self.the_log(),
    {
        match &self.log {
            LogSource::Owned(l) => l,
            LogSource::Borrowed(l) => l,
        }
    }

    /// The cursor points at the slot of the entry at `position` while that is
    /// an index of the entries, and at nothing otherwise.
    pub closed spec fn wf(&self) -> bool {
        let o = self.the_log().order@;
        &&& self.the_log().wf()
        &&& if 0 <= self.pos@ < o.len() {
            self.current == Some(o[self.pos@])
        } else {
            self.current is None
        }
    }

    /// The entries the cursor runs over.
    pub closed spec fn items(&self) -> Seq<String> {
        self.the_log()@
    }

    /// The index of the entry under the cursor (outside the entries once it has left them).
    pub closed spec fn position(&self) -> int {
        self.pos@
    }

    fn new(log: LogSource<'a>, start_at: Option<usize>, pos: Ghost<int>) -> (it: ListIterator<'a>)
        requires
            ({
                let l = match log {
                    LogSource::Owned(l) => l,
                    LogSource::Borrowed(l) => *l,
                };
                &&& l.wf()
                &&& if 0 <= pos@ < l.order@.len() {
                    start_at == Some(l.order@[pos@])
                } else {
                    start_at is None
                }
            }),
        ensures
            it.wf(),
            it.the_log() == match log {
                LogSource::Owned(l) => l,
                LogSource::Borrowed(l) => *l,
            },
            it.position() == pos@,
    {
        ListIterator { log: log, current: start_at, pos: pos }
    }

    /// The entry under the cursor, moving the cursor one entry towards the back.
    pub fn next(&mut self) -> (r: Option<String>)
        requires
            old(self).wf(),
        ensures
            final(self).wf(),
            final(self).the_log() == old(self).the_log(),
            final(self).items() == old(self).items(),
            0 <= old(self).position() < old(self).items().len() ==> r == Some(
                old(self).items()[old(self).position()],
            ) && final(self).position() == old(self).position() + 1,
            !(0 <= old(self).position() < old(self).items().len()) ==> r is None
                && final(self).position() == old(self).position(),
    {
        match self.current {
            Some(c) => {
                let ghost o = self.the_log().order@;
                let ghost p = self.pos@;
                proof {
                    assert(self.the_log().nodes@[o[p] as int].next == next_slot(o, p));
                }
                let l = self.log();
                let value = l.nodes[c].value.clone();
                let step = l.nodes[c].next;
                self.current = step;
                self.pos = Ghost(p + 1);
                Some(value)
            },
            None => None,
        }
    }

    /// The entry under the cursor, moving the cursor one entry towards the front.
    pub fn next_back(&mut self) -> (r: Option<String>)
        requires
            old(self).wf(),
        ensures
            final(self).wf(),
            final(self).the_log() == old(self).the_log(),
            final(self).items() == old(self).items(),
            0 <= old(self).position() < old(self).items().len() ==> r == Some(
                old(self).items()[old(self).position()],
            ) && final(self).position() == old(self).position() - 1,
            !(0 <= old(self).position() < old(self).items().len()) ==> r is None
                && final(self).position() == old(self).position(),
    {
        match self.current {
            Some(c) => {
                let ghost o = self.the_log().order@;
                let ghost p = self.pos@;
                proof {
                    assert(self.the_log().nodes@[o[p] as int].prev == prev_slot(o, p));
                }
                let l = self.log();
                let value = l.nodes[c].value.clone();
                let step = l.nodes[c].prev;
                self.current = step;
                self.pos = Ghost(p - 1);
                Some(value)
            },
            None => None,
        }
    }
}

} // verus!
