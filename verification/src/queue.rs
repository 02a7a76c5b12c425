//! Doubly linked FIFO queue whose nodes live in an index-addressed arena.
//!
//! A node is named by the index of its arena slot. The index stays valid
//! from the `enqueue` that returned it until the node is removed; after
//! that the slot may be handed out again.

use crate::arena::Arena;
use vstd::prelude::*;

verus! {

/// One link of a queue: the payload token and the handles of its neighbours.
#[derive(Clone, Copy, Debug)]
pub struct Qnode {
    pub value: usize,
    pub prev: Option<usize>,
    pub next: Option<usize>,
}

/// A FIFO queue of payload tokens.
///
/// `count`, `head` and `tail` mirror the linked structure; `flags` is
/// carried for the owner and never interpreted. `nodes` is the arena that
/// owns the links and `order` records the chain from head to tail for the
/// proofs; both are maintained by the operations of this module only.
pub struct Queue {
    pub count: usize,
    pub head: Option<usize>,
    pub tail: Option<usize>,
    pub flags: usize,
    pub nodes: Arena<Qnode>,
    pub order: Ghost<Seq<usize>>,
}

/// Read-only walk over the nodes of a queue, head first.
///
/// The walk borrows the queue, so the queue cannot change while the
/// iterator lives. `pos` counts the nodes already handed out.
pub struct QueueIterator<'a> {
    pub queue: &'a Queue,
    pub cur: Option<usize>,
    pub pos: Ghost<int>,
}

/// Position of the first occurrence of `value` in `s`; `s.len()` if there
/// is none.
pub open spec fn first_index_of(s: Seq<usize>, value: usize) -> int
    decreases s.len(),
{
    if s.len() == 0 {
        0
    } else if s[0] == value {
        0
    } else {
        1 + first_index_of(s.drop_first(), value)
    }
}

/// `first_index_of` is the least position holding `value`.
pub proof fn lemma_first_index_of(s: Seq<usize>, value: usize)
    ensures
        0 <= first_index_of(s, value) <= s.len(),
        first_index_of(s, value) < s.len() ==> s[first_index_of(s, value)] == value,
        forall|j: int| 0 <= j < first_index_of(s, value) ==> s[j] != value,
        first_index_of(s, value) == s.len() <==> !s.contains(value),
    decreases s.len(),
{
    if s.len() != 0 && s[0] != value {
        let rest = s.drop_first();
        lemma_first_index_of(rest, value);
        let k = first_index_of(rest, value);
        assert forall|j: int| 0 <= j < 1 + k implies s[j] != value by {
            if j > 0 {
                assert(rest[j - 1] == s[j]);
            }
        }
        if k < rest.len() {
            assert(rest[k] == s[k + 1]);
        }
        if s.contains(value) {
            let w = choose|w: int| 0 <= w < s.len() && s[w] == value;
            assert(rest[w - 1] == value);
        }
    } else if s.len() != 0 {
        assert(s.contains(value));
    }
}

/// Handle of the node before position `i` of `order`, if there is one.
spec fn prev_of(order: Seq<usize>, i: int) -> Option<usize> {
    if i == 0 {
        None
    } else {
        Some(order[i - 1])
    }
}

/// Handle of the node after position `i` of `order`, if there is one.
spec fn next_of(order: Seq<usize>, i: int) -> Option<usize> {
    if i + 1 == order.len() {
        None
    } else {
        Some(order[i + 1])
    }
}

/// The payloads of the nodes that `order` names, in that order.
spec fn chain_values(nodes: Map<usize, Qnode>, order: Seq<usize>) -> Seq<usize> {
    Seq::new(order.len(), |i: int| nodes[order[i]].value)
}

/// `nodes` holds exactly the nodes that `order` names, none twice, each
/// linked to the one before and the one after it.
spec fn chain_ok(nodes: Map<usize, Qnode>, order: Seq<usize>) -> bool {
    &&& order.no_duplicates()
    &&& forall|i: int|
        0 <= i < order.len() ==> {
            &&& nodes.dom().contains(#[trigger] order[i])
            &&& nodes[order[i]].prev == prev_of(order, i)
            &&& nodes[order[i]].next == next_of(order, i)
        }
    &&& forall|h: usize| nodes.dom().contains(h) ==> #[trigger] order.contains(h)
}

/// The node map after a node carrying `value` has been stored in the
/// vacant slot `slot` and linked behind the last node of `order`.
spec fn linked_behind(nodes: Map<usize, Qnode>, order: Seq<usize>, slot: usize, value: usize) -> Map<
    usize,
    Qnode,
> {
    if order.len() == 0 {
        nodes.insert(slot, Qnode { value, prev: None, next: None })
    } else {
        let last = order[order.len() - 1];
        nodes.insert(slot, Qnode { value, prev: Some(last), next: None }).insert(
            last,
            Qnode { value: nodes[last].value, prev: nodes[last].prev, next: Some(slot) },
        )
    }
}

/// Linking a node behind the tail keeps the chain intact and appends its
/// payload.
proof fn lemma_chain_push(nodes: Map<usize, Qnode>, order: Seq<usize>, slot: usize, value: usize)
    requires
        chain_ok(nodes, order),
        !nodes.dom().contains(slot),
    ensures
        !order.contains(slot),
        chain_ok(linked_behind(nodes, order, slot, value), order.push(slot)),
        chain_values(linked_behind(nodes, order, slot, value), order.push(slot)) == chain_values(
            nodes,
            order,
        ).push(value),
{
    let after = order.push(slot);
    let linked = linked_behind(nodes, order, slot, value);
    let n = order.len() as int;
    assert forall|i: int| 0 <= i < n implies order[i] != slot by {
        assert(nodes.dom().contains(order[i]));
    }
    assert forall|i: int| 0 <= i < after.len() implies {
        &&& linked.dom().contains(#[trigger] after[i])
        &&& linked[after[i]].prev == prev_of(after, i)
        &&& linked[after[i]].next == next_of(after, i)
    } by {
        if i < n {
            assert(after[i] == order[i]);
            assert(nodes[order[i]].next == next_of(order, i));
            assert(nodes[order[i]].prev == prev_of(order, i));
            if i + 1 < n {
                assert(order[i] != order[n - 1]);
            }
        }
    }
    assert forall|h: usize| linked.dom().contains(h) implies #[trigger] after.contains(h) by {
        if h == slot {
            assert(after[n] == slot);
        } else {
            assert(order.contains(h));
            let i = choose|i: int| 0 <= i < order.len() && order[i] == h;
            assert(after[i] == h);
        }
    }
    assert(chain_values(linked, after) =~= chain_values(nodes, order).push(value)) by {
        assert forall|i: int| 0 <= i < n implies chain_values(linked, after)[i] == chain_values(
            nodes,
            order,
        )[i] by {
            assert(after[i] == order[i]);
        }
    }
}

/// The node map after the node at position `at` of `order` has been
/// unlinked: its neighbours point past it and its slot is vacant.
spec fn unlinked(nodes: Map<usize, Qnode>, order: Seq<usize>, at: int) -> Map<usize, Qnode> {
    let gone = nodes[order[at]];
    let left = if at > 0 {
        let p = order[at - 1];
        nodes.insert(p, Qnode { value: nodes[p].value, prev: nodes[p].prev, next: gone.next })
    } else {
        nodes
    };
    let right = if at + 1 < order.len() {
        let x = order[at + 1];
        left.insert(x, Qnode { value: left[x].value, prev: gone.prev, next: left[x].next })
    } else {
        left
    };
    right.remove(order[at])
}

/// Unlinking a node keeps the chain intact and takes its payload out.
proof fn lemma_chain_remove(nodes: Map<usize, Qnode>, order: Seq<usize>, at: int)
    requires
        chain_ok(nodes, order),
        0 <= at < order.len(),
    ensures
        chain_ok(unlinked(nodes, order, at), order.remove(at)),
        chain_values(unlinked(nodes, order, at), order.remove(at)) == chain_values(
            nodes,
            order,
        ).remove(at),
{
    let after = order.remove(at);
    let rest = unlinked(nodes, order, at);
    let n = order.len() as int;
    assert forall|i: int| 0 <= i < after.len() implies {
        &&& rest.dom().contains(#[trigger] after[i])
        &&& rest[after[i]].prev == prev_of(after, i)
        &&& rest[after[i]].next == next_of(after, i)
        &&& rest[after[i]].value == nodes[after[i]].value
    } by {
        let j = if i < at {
            i
        } else {
            i + 1
        };
        assert(after[i] == order[j]);
        assert(nodes.dom().contains(order[j]));
        assert(nodes[order[j]].prev == prev_of(order, j));
        assert(nodes[order[j]].next == next_of(order, j));
        assert(nodes[order[at]].prev == prev_of(order, at));
        assert(nodes[order[at]].next == next_of(order, at));
        assert(order[j] != order[at]);
        if at > 0 {
            assert(nodes.dom().contains(order[at - 1]));
            if j != at - 1 {
                assert(order[j] != order[at - 1]);
            }
        }
        if at + 1 < n {
            assert(nodes.dom().contains(order[at + 1]));
            if j != at + 1 {
                assert(order[j] != order[at + 1]);
            }
        }
        if i > 0 {
            assert(after[i - 1] == order[if i - 1 < at {
                i - 1
            } else {
                i
            }]);
        }
        if i + 1 < after.len() {
            assert(after[i + 1] == order[if i + 1 < at {
                i + 1
            } else {
                i + 2
            }]);
        }
    }
    assert forall|h: usize| rest.dom().contains(h) implies #[trigger] after.contains(h) by {
        assert(nodes.dom().contains(h));
        assert(order.contains(h));
        let j = choose|j: int| 0 <= j < order.len() && order[j] == h;
        if j < at {
            assert(after[j] == h);
        } else {
            assert(after[j - 1] == h);
        }
    }
    assert(after.no_duplicates());
    assert(chain_values(rest, after) =~= chain_values(nodes, order).remove(at)) by {
        assert forall|i: int| 0 <= i < after.len() implies chain_values(rest, after)[i]
            == chain_values(nodes, order).remove(at)[i] by {
            assert(rest[after[i]].value == nodes[after[i]].value);
            assert(after[i] == order[if i < at {
                i
            } else {
                i + 1
            }]);
        }
    }
}

impl View for Queue {
    type V = Seq<usize>;

    /// Payload tokens of the linked nodes, head first.
    closed spec fn view(&self) -> Seq<usize> {
        chain_values(self.nodes@, self.order@)
    }
}

impl Queue {
    /// Handles of the linked nodes, head first.
    pub closed spec fn handles(&self) -> Seq<usize> {
        self.order@
    }

    /// The node that the linkage prescribes for position `i`: its payload
    /// and the handles of the positions before and after it.
    pub open spec fn node_at(&self, i: int) -> Qnode {
        Qnode {
            value: self@[i],
            prev: if i == 0 {
                None
            } else {
                Some(self.handles()[i - 1])
            },
            next: if i + 1 == self.handles().len() {
                None
            } else {
                Some(self.handles()[i + 1])
            },
        }
    }

    /// The queue invariant: the arena holds exactly the nodes of one chain
    /// from `head` to `tail`, `count` nodes long, each linked to its
    /// neighbours in both directions.
    pub closed spec fn wf(&self) -> bool {
        let order = self.order@;
        &&& self.nodes.wf()
        &&& self.count == order.len()
        &&& self.nodes.len() == order.len()
        &&& chain_ok(self.nodes@, order)
        &&& self.head == (if order.len() == 0 {
            None
        } else {
            Some(order[0])
        })
        &&& self.tail == (if order.len() == 0 {
            None
        } else {
            Some(order[order.len() - 1])
        })
    }

    /// What the invariant says about the public fields: `count` is the
    /// number of nodes, `head` and `tail` name the two ends of the chain,
    /// and no handle occurs twice.
    pub proof fn lemma_wf(&self)
        requires
            self.wf(),
        ensures
            self.count == self@.len(),
            self.handles().len() == self@.len(),
            self.handles().no_duplicates(),
            self.head == (if self@.len() == 0 {
                None
            } else {
                Some(self.handles()[0])
            }),
            self.tail == (if self@.len() == 0 {
                None
            } else {
                Some(self.handles()[self@.len() - 1])
            }),
    {
    }

    /// A queue without nodes.
    pub fn empty() -> (queue: Queue)
        ensures
            queue.wf(),
            queue@ == Seq::<usize>::empty(),
            queue.handles() == Seq::<usize>::empty(),
            queue.count == 0,
            queue.head is None,
            queue.tail is None,
            queue.flags == 0,
    {
        let queue = Queue {
            count: 0,
            head: None,
            tail: None,
            flags: 0,
            nodes: Arena::new(),
            order: Ghost(Seq::empty()),
        };
        assert(queue@ =~= Seq::<usize>::empty());
        queue
    }
}

impl Queue {
    /// Starts a walk at the head.
    pub fn iter<'a>(&'a self) -> (it: QueueIterator<'a>)
        requires
            self.wf(),
        ensures
            it.wf(),
            *it.queue == *self,
            it.position() == 0,
    {
        QueueIterator { queue: self, cur: self.head, pos: Ghost(0) }
    }
}

impl<'a> QueueIterator<'a> {
    /// Number of nodes that `next` has handed out so far.
    pub closed spec fn position(&self) -> int {
        self.pos@
    }

    /// The iterator stands at a position of a well-formed queue.
    pub closed spec fn wf(&self) -> bool {
        &&& self.queue.wf()
        &&& 0 <= self.pos@ <= self.queue.order@.len()
        &&& self.cur == (if self.pos@ == self.queue.order@.len() {
            None
        } else {
            Some(self.queue.order@[self.pos@])
        })
    }

    /// Hands out the node at the current position and steps to the one
    /// after it; `None` once the tail has been passed.
    pub fn next(&mut self) -> (node: Option<&'a Qnode>)
        requires
            old(self).wf(),
        ensures
            final(self).wf(),
            *final(self).queue == *old(self).queue,
            match node {
                Some(n) => {
                    &&& old(self).position() < old(self).queue@.len()
                    &&& *n == old(self).queue.node_at(old(self).position())
                    &&& final(self).position() == old(self).position() + 1
                },
                None => {
                    &&& old(self).position() == old(self).queue@.len()
                    &&& final(self).position() == old(self).position()
                },
            },
    {
        match self.cur {
            Some(h) => {
                let node = self.queue.nodes.get(h).unwrap();
                self.cur = node.next;
                self.pos = Ghost(self.pos@ + 1);
                Some(node)
            },
            None => None,
        }
    }
}

impl Default for Queue {
    /// The empty queue.
    fn default() -> (queue: Queue)
        ensures
            queue.wf(),
            queue@ == Seq::<usize>::empty(),
            queue.handles() == Seq::<usize>::empty(),
            queue.count == 0,
            queue.head is None,
            queue.tail is None,
            queue.flags == 0,
    {
        Queue::empty()
    }
}

/// A queue without nodes, as `Queue::empty` makes it.
pub fn queue_new() -> (queue: Queue)
    ensures
        queue.wf(),
        queue@ == Seq::<usize>::empty(),
        queue.handles() == Seq::<usize>::empty(),
        queue.count == 0,
        queue.head is None,
        queue.tail is None,
        queue.flags == 0,
{
    Queue::empty()
}

/// Appends a node carrying `value` at the tail and returns its handle.
///
/// Fails, changing nothing, only when the queue already holds `usize::MAX`
/// nodes, so that no further slot index exists.
pub fn enqueue(queue: &mut Queue, value: usize) -> (node: Option<usize>)
    requires
        old(queue).wf(),
    ensures
        final(queue).wf(),
        final(queue).flags == old(queue).flags,
        match node {
            Some(h) => {
                &&& old(queue)@.len() < usize::MAX
                &&& !old(queue).handles().contains(h)
                &&& final(queue).handles() == old(queue).handles().push(h)
                &&& final(queue)@ == old(queue)@.push(value)
                &&& final(queue)@ == queue_step(old(queue)@, QueueOp::Enqueue(value))
            },
            None => old(queue)@.len() == usize::MAX && *final(queue) == *old(queue),
        },
{
    let prev = queue.tail;
    let fresh = Qnode { value, prev, next: None };
    let slot: usize = match queue.nodes.insert(fresh) {
        Some(h) => h,
        None => {
            return None;
        },
    };
    let ghost before = old(queue).order@;
    match prev {
        Some(t) => {
            assert(old(queue).nodes@.dom().contains(before[before.len() - 1]));
            let last = *queue.nodes.get(t).unwrap();
            queue.nodes.set(t, Qnode { value: last.value, prev: last.prev, next: Some(slot) });
        },
        None => {
            queue.head = Some(slot);
        },
    }
    queue.tail = Some(slot);
    queue.count = queue.count + 1;
    queue.order = Ghost(before.push(slot));
    proof {
        lemma_chain_push(old(queue).nodes@, before, slot, value);
        assert(queue.nodes@ =~= linked_behind(old(queue).nodes@, before, slot, value));
    }
    Some(slot)
}

/// Unlinks the node behind `handle`, patches its neighbours and the two
/// ends of the chain, and gives the slot back to the arena.
fn detach(queue: &mut Queue, handle: usize) -> (value: usize)
    requires
        old(queue).wf(),
        old(queue).handles().contains(handle),
    ensures
        final(queue).wf(),
        final(queue).flags == old(queue).flags,
        value == old(queue)@[old(queue).handles().index_of(handle)],
        final(queue).handles() == old(queue).handles().remove(
            old(queue).handles().index_of(handle),
        ),
        final(queue)@ == old(queue)@.remove(old(queue).handles().index_of(handle)),
{
    let ghost before = old(queue).order@;
    let ghost at = before.index_of(handle);
    let ghost held = old(queue).nodes@;
    assert(0 <= at < before.len() && before[at] == handle);
    assert(held.dom().contains(before[at]));
    let node = *queue.nodes.get(handle).unwrap();
    match node.prev {
        Some(p) => {
            assert(held.dom().contains(before[at - 1]));
            let left = *queue.nodes.get(p).unwrap();
            queue.nodes.set(p, Qnode { value: left.value, prev: left.prev, next: node.next });
        },
        None => {
            queue.head = node.next;
        },
    }
    match node.next {
        Some(x) => {
            assert(held.dom().contains(before[at + 1]));
            let right = *queue.nodes.get(x).unwrap();
            queue.nodes.set(x, Qnode { value: right.value, prev: node.prev, next: right.next });
        },
        None => {
            queue.tail = node.prev;
        },
    }
    queue.nodes.remove(handle);
    queue.count = queue.count - 1;
    queue.order = Ghost(before.remove(at));
    proof {
        lemma_chain_remove(held, before, at);
        assert(queue.nodes@ =~= unlinked(held, before, at));
    }
    node.value
}

/// Removes the head node and returns its payload; `None` on an empty
/// queue, which stays as it is.
pub fn dequeue(queue: &mut Queue) -> (value: Option<usize>)
    requires
        old(queue).wf(),
    ensures
        final(queue).wf(),
        final(queue).flags == old(queue).flags,
        final(queue)@ == queue_step(old(queue)@, QueueOp::Dequeue),
        match value {
            Some(v) => {
                &&& old(queue)@.len() > 0
                &&& v == old(queue)@[0]
                &&& final(queue)@ == old(queue)@.drop_first()
                &&& final(queue).handles() == old(queue).handles().drop_first()
            },
            None => old(queue)@.len() == 0 && *final(queue) == *old(queue),
        },
{
    match queue.head {
        Some(h) => {
            proof {
                let ghost hs = queue.order@;
                assert(hs[0] == h);
                assert(hs.index_of(h) == 0);
                assert(hs.remove(0) =~= hs.drop_first());
                assert(queue@.remove(0) =~= queue@.drop_first());
            }
            let v = detach(queue, h);
            Some(v)
        },
        None => None,
    }
}

/// Removes the first node, counted from the head, whose payload equals
/// `value`. A queue that holds no such node stays as it is.
pub fn queue_remove(queue: &mut Queue, value: usize)
    requires
        old(queue).wf(),
    ensures
        final(queue).wf(),
        final(queue).flags == old(queue).flags,
        final(queue)@ == queue_step(old(queue)@, QueueOp::Remove(value)),
        old(queue)@.contains(value) ==> {
            &&& final(queue)@ == old(queue)@.remove(first_index_of(old(queue)@, value))
            &&& final(queue).handles() == old(queue).handles().remove(
                first_index_of(old(queue)@, value),
            )
        },
        !old(queue)@.contains(value) ==> *final(queue) == *old(queue),
{
    let mut cur = queue.head;
    let ghost at: int = 0;
    proof {
        lemma_first_index_of(queue@, value);
    }
    while cur.is_some()
        invariant
            queue.wf(),
            *queue == *old(queue),
            0 <= at <= queue@.len(),
            cur == (if at == queue@.len() {
                None
            } else {
                Some(queue.order@[at])
            }),
            forall|j: int| 0 <= j < at ==> queue@[j] != value,
        decreases queue@.len() - at,
    {
        let h = cur.unwrap();
        let node = *queue.nodes.get(h).unwrap();
        if node.value == value {
            proof {
                lemma_first_index_of(queue@, value);
                let ghost first = first_index_of(queue@, value);
                assert(queue@[at] == value);
                assert(first == at) by {
                    if first < at {
                        assert(queue@[first] == value);
                    }
                }
                assert(queue.order@.index_of(h) == at);
            }
            detach(queue, h);
            return ;
        }
        cur = node.next;
        proof {
            at = at + 1;
        }
    }
    assert(!queue@.contains(value));
}

/// Removes the node behind `qnode`, a handle that `enqueue` returned.
/// A handle that names no node of this queue changes nothing.
pub fn queue_node_remove(queue: &mut Queue, qnode: usize)
    requires
        old(queue).wf(),
    ensures
        final(queue).wf(),
        final(queue).flags == old(queue).flags,
        old(queue).handles().contains(qnode) ==> {
            &&& final(queue)@ == queue_step(
                old(queue)@,
                QueueOp::RemoveAt(old(queue).handles().index_of(qnode)),
            )
            &&& final(queue)@ == old(queue)@.remove(old(queue).handles().index_of(qnode))
            &&& final(queue).handles() == old(queue).handles().remove(
                old(queue).handles().index_of(qnode),
            )
        },
        !old(queue).handles().contains(qnode) ==> *final(queue) == *old(queue),
{
    if queue.count == 0 {
        return ;
    }
    if queue.nodes.get(qnode).is_none() {
        assert(!queue.order@.contains(qnode)) by {
            if queue.order@.contains(qnode) {
                let i = choose|i: int| 0 <= i < queue.order@.len() && queue.order@[i] == qnode;
                assert(queue.nodes@.dom().contains(queue.order@[i]));
            }
        }
        return ;
    }
    detach(queue, qnode);
}

/// One step in the history of a queue, as the contracts above describe
/// it on the payload sequence.
pub enum QueueOp {
    /// `enqueue` of a payload, which succeeded.
    Enqueue(usize),
    /// `dequeue`.
    Dequeue,
    /// `queue_remove` of a payload.
    Remove(usize),
    /// `queue_node_remove` of the node at a position, counted from the head.
    RemoveAt(int),
}

/// The payload sequence after one step.
pub open spec fn queue_step(contents: Seq<usize>, op: QueueOp) -> Seq<usize> {
    match op {
        QueueOp::Enqueue(value) => contents.push(value),
        QueueOp::Dequeue => if contents.len() == 0 {
            contents
        } else {
            contents.drop_first()
        },
        QueueOp::Remove(value) => if contents.contains(value) {
            contents.remove(first_index_of(contents, value))
        } else {
            contents
        },
        QueueOp::RemoveAt(i) => if 0 <= i < contents.len() {
            contents.remove(i)
        } else {
            contents
        },
    }
}

/// What one step hands back to the caller: the payload that `dequeue`
/// returns, nothing for the other steps.
pub open spec fn queue_step_output(contents: Seq<usize>, op: QueueOp) -> Seq<usize> {
    match op {
        QueueOp::Dequeue => if contents.len() == 0 {
            Seq::empty()
        } else {
            seq![contents[0]]
        },
        _ => Seq::empty(),
    }
}

/// The payload sequence after all of `ops`, starting from an empty queue.
pub open spec fn queue_run(ops: Seq<QueueOp>) -> Seq<usize>
    decreases ops.len(),
{
    if ops.len() == 0 {
        Seq::empty()
    } else {
        queue_step(queue_run(ops.drop_last()), ops.last())
    }
}

/// The payloads that the dequeues among `ops` returned, in that order.
pub open spec fn queue_dequeued(ops: Seq<QueueOp>) -> Seq<usize>
    decreases ops.len(),
{
    if ops.len() == 0 {
        Seq::empty()
    } else {
        queue_dequeued(ops.drop_last()) + queue_step_output(
            queue_run(ops.drop_last()),
            ops.last(),
        )
    }
}

/// The payloads that `ops` enqueued, in that order.
pub open spec fn queue_enqueued(ops: Seq<QueueOp>) -> Seq<usize>
    decreases ops.len(),
{
    if ops.len() == 0 {
        Seq::empty()
    } else {
        match ops.last() {
            QueueOp::Enqueue(value) => queue_enqueued(ops.drop_last()).push(value),
            _ => queue_enqueued(ops.drop_last()),
        }
    }
}

/// Number of steps among `ops` that took a node out of the queue.
pub open spec fn queue_taken(ops: Seq<QueueOp>) -> nat
    decreases ops.len(),
{
    if ops.len() == 0 {
        0
    } else {
        let before = queue_run(ops.drop_last());
        let after = queue_step(before, ops.last());
        if after.len() < before.len() {
            queue_taken(ops.drop_last()) + 1
        } else {
            queue_taken(ops.drop_last())
        }
    }
}

/// Only enqueues and dequeues occur in `ops`.
pub open spec fn queue_fifo_only(ops: Seq<QueueOp>) -> bool {
    forall|k: int|
        0 <= k < ops.len() ==> (#[trigger] ops[k]) is Enqueue || ops[k] is Dequeue
}

/// First in, first out: after any sequence of enqueues and dequeues on an
/// empty queue, the payloads dequeued so far followed by the payloads
/// still queued are exactly the payloads enqueued, in the order of
/// enqueuing.
pub proof fn lemma_queue_fifo(ops: Seq<QueueOp>)
    requires
        queue_fifo_only(ops),
    ensures
        queue_dequeued(ops) + queue_run(ops) == queue_enqueued(ops),
    decreases ops.len(),
{
    if ops.len() > 0 {
        let earlier = ops.drop_last();
        assert forall|k: int| 0 <= k < earlier.len() implies (#[trigger] earlier[k]) is Enqueue
            || earlier[k] is Dequeue by {
            assert(earlier[k] == ops[k]);
        }
        lemma_queue_fifo(earlier);
        let out = queue_dequeued(earlier);
        let held = queue_run(earlier);
        assert(ops[ops.len() - 1] == ops.last());
        match ops.last() {
            QueueOp::Enqueue(value) => {
                assert(out + held.push(value) =~= (out + held).push(value));
            },
            QueueOp::Dequeue => {
                if held.len() > 0 {
                    assert((out + seq![held[0]]) + held.drop_first() =~= out + held);
                } else {
                    assert(out + Seq::<usize>::empty() =~= out);
                }
            },
            _ => {},
        }
    } else {
        assert(Seq::<usize>::empty() + Seq::<usize>::empty() =~= Seq::<usize>::empty());
    }
}

/// After any sequence of steps on an empty queue, the number of queued
/// payloads is the number of enqueues less the number of steps that took
/// a node out.
pub proof fn lemma_queue_count(ops: Seq<QueueOp>)
    ensures
        queue_run(ops).len() + queue_taken(ops) == queue_enqueued(ops).len(),
    decreases ops.len(),
{
    if ops.len() > 0 {
        lemma_queue_count(ops.drop_last());
        let held = queue_run(ops.drop_last());
        match ops.last() {
            QueueOp::Remove(value) => {
                lemma_first_index_of(held, value);
            },
            _ => {},
        }
    }
}

} // verus!
