//! Circular byte buffer with a read cursor and a write cursor.
//!
//! Both cursors run from `0` to `size` inclusive; a cursor that stands at
//! `size` names slot `0` and is folded back when it is next used. One slot
//! always stays vacant, so a store of `size` bytes holds at most `size - 1`
//! unread bytes and "full" never looks like "empty".

use vstd::arithmetic::div_mod::{lemma_mod_self_0, lemma_small_mod};
use vstd::prelude::*;

verus! {

/// The buffer: backing store, its length, read cursor and write cursor.
///
/// A ring of size zero owns no store; every operation on it transfers
/// nothing.
pub struct RingBuf {
    pub buf: Vec<u8>,
    pub size: usize,
    pub head: usize,
    pub tail: usize,
}

/// The slot that lies `steps` places after cursor `from` in a store of
/// `size` slots, for `from <= size` and `steps < size`.
pub open spec fn slot_after(from: int, steps: int, size: int) -> int {
    if from + steps >= size {
        from + steps - size
    } else {
        from + steps
    }
}

/// The smaller of two integers.
pub open spec fn min_of(a: int, b: int) -> int {
    if a <= b {
        a
    } else {
        b
    }
}

/// The last `limit` bytes of `s`; all of `s` if it has no more than that.
pub open spec fn keep_last(s: Seq<u8>, limit: int) -> Seq<u8> {
    if s.len() > limit {
        s.subrange(s.len() - limit, s.len() as int)
    } else {
        s
    }
}

/// Appending one byte and trimming to `limit` is the same as trimming
/// first, appending, and dropping the oldest byte if that made one too many.
pub proof fn lemma_keep_last_push(s: Seq<u8>, byte: u8, limit: int)
    requires
        limit >= 0,
    ensures
        keep_last(s.push(byte), limit) == if keep_last(s, limit).len() + 1 > limit {
            keep_last(s, limit).push(byte).drop_first()
        } else {
            keep_last(s, limit).push(byte)
        },
{
    let kept = keep_last(s, limit);
    if kept.len() + 1 > limit {
        assert(keep_last(s.push(byte), limit) =~= kept.push(byte).drop_first());
    } else {
        assert(keep_last(s.push(byte), limit) =~= kept.push(byte));
    }
}

impl View for RingBuf {
    type V = Seq<u8>;

    /// The unread bytes, oldest first.
    open spec fn view(&self) -> Seq<u8> {
        Seq::new(
            self.spec_available() as nat,
            |i: int| self.buf@[slot_after(self.head as int, i, self.size as int)],
        )
    }
}

impl RingBuf {
    /// The cursors lie within the store and are in step with each other:
    /// the read cursor has not moved unless the write cursor has, and the
    /// vacant slot is in place.
    pub open spec fn wf(&self) -> bool {
        &&& self.buf@.len() == self.size
        &&& self.head <= self.size
        &&& self.tail <= self.size
        &&& (self.tail == 0 ==> self.head == 0)
        &&& (self.size > 0 ==> !(self.head == 0 && self.tail == self.size))
    }

    /// Number of unread bytes as the cursors give it.
    pub open spec fn spec_available(&self) -> int {
        if self.tail >= self.head {
            self.tail - self.head
        } else {
            self.tail + self.size - self.head
        }
    }

    /// The most unread bytes the ring can hold: one less than its size.
    pub open spec fn limit(&self) -> int {
        if self.size == 0 {
            0
        } else {
            self.size - 1
        }
    }

    /// A well-formed ring never holds more than `limit` unread bytes.
    pub proof fn lemma_bounded(&self)
        requires
            self.wf(),
        ensures
            0 <= self@.len() <= self.limit(),
            self@.len() == self.spec_available(),
    {
    }
}

/// Folds a cursor onto the slot it names: `i` modulo the ring's size.
fn ring_index(ring: &RingBuf, i: usize) -> (slot: usize)
    requires
        ring.size > 0,
        i <= ring.size,
    ensures
        slot == i as int % ring.size as int,
        slot == (if i == ring.size {
            0
        } else {
            i as int
        }),
{
    proof {
        if i == ring.size {
            lemma_mod_self_0(i as int);
        } else {
            lemma_small_mod(i as nat, ring.size as nat);
        }
    }
    i % ring.size
}

/// Whether the slot after the write cursor is the one under the read
/// cursor, which is when no further byte fits.
fn ring_full(ring: &RingBuf) -> (full: bool)
    requires
        ring.wf(),
        ring.size > 0,
    ensures
        full == (ring@.len() == ring.limit()),
{
    let next = ring_index(ring, ring.tail) + 1;
    ring_index(ring, ring.head) == ring_index(ring, next)
}

/// A ring over a zeroed store of `size` bytes, with nothing to read.
pub fn ringbuf_new(size: usize) -> (ring: RingBuf)
    ensures
        ring.wf(),
        ring.size == size,
        ring.head == 0,
        ring.tail == 0,
        ring@ == Seq::<u8>::empty(),
        forall|i: int| 0 <= i < size ==> ring.buf@[i] == 0,
{
    let mut buf: Vec<u8> = Vec::new();
    let mut i: usize = 0;
    while i < size
        invariant
            i <= size,
            buf@.len() == i,
            forall|j: int| 0 <= j < i ==> buf@[j] == 0,
        decreases size - i,
    {
        buf.push(0);
        i = i + 1;
    }
    let ring = RingBuf { buf, size, head: 0, tail: 0 };
    assert(ring@ =~= Seq::<u8>::empty());
    ring
}

/// Releases the store. The ring is left with size zero and nothing to
/// read; it can still be passed to every operation.
pub fn ringbuf_free(r: &mut RingBuf)
    ensures
        final(r).wf(),
        final(r).size == 0,
        final(r).head == 0,
        final(r).tail == 0,
        final(r).buf@ == Seq::<u8>::empty(),
        final(r)@ == Seq::<u8>::empty(),
{
    r.buf = Vec::new();
    r.size = 0;
    r.head = 0;
    r.tail = 0;
    assert(r@ =~= Seq::<u8>::empty());
}

/// Number of unread bytes.
pub fn ringbuf_available(ring: &RingBuf) -> (count: usize)
    requires
        ring.wf(),
    ensures
        count == ring@.len(),
        count == ring.spec_available(),
{
    if ring.tail >= ring.head {
        ring.tail - ring.head
    } else {
        ring.tail + (ring.size - ring.head)
    }
}

/// Moves up to `n` unread bytes, oldest first, to the front of `buf` and
/// drops them from the ring. Stops early when the ring runs empty. The
/// rest of `buf`, the store and the write cursor stay as they are.
pub fn ringbuf_read(ring: &mut RingBuf, n: usize, buf: &mut [u8]) -> (count: usize)
    requires
        old(ring).wf(),
        n <= old(buf)@.len(),
    ensures
        final(ring).wf(),
        final(ring).size == old(ring).size,
        final(ring).buf == old(ring).buf,
        final(ring).tail == old(ring).tail,
        count == min_of(n as int, old(ring)@.len() as int),
        final(ring)@ == old(ring)@.subrange(count as int, old(ring)@.len() as int),
        final(ring)@ == ring_step(old(ring)@, old(ring).limit(), RingOp::Read(n as nat)),
        final(buf)@ == old(ring)@.subrange(0, count as int) + old(buf)@.subrange(
            count as int,
            old(buf)@.len() as int,
        ),
{
    let mut left: usize = n;
    let mut at: usize = 0;
    assert(ring@ =~= old(ring)@.subrange(0, old(ring)@.len() as int));
    assert(buf@ =~= old(ring)@.subrange(0, 0) + old(buf)@.subrange(0, old(buf)@.len() as int));
    while left > 0
        invariant
            ring.wf(),
            old(ring).wf(),
            ring.size == old(ring).size,
            ring.buf == old(ring).buf,
            ring.tail == old(ring).tail,
            at + left == n,
            n <= old(buf)@.len(),
            buf@.len() == old(buf)@.len(),
            at <= old(ring)@.len(),
            ring@.len() + at == old(ring)@.len(),
            ring@ == old(ring)@.subrange(at as int, old(ring)@.len() as int),
            buf@ == old(ring)@.subrange(0, at as int) + old(buf)@.subrange(
                at as int,
                old(buf)@.len() as int,
            ),
        ensures
            left == 0 || ring@.len() == 0,
        decreases left,
    {
        if ring.head == ring.tail {
            break ;
        }
        if ring.head == ring.size {
            ring.head = 0;
        }
        let ghost before = ring@;
        let ghost out_before = buf@;
        buf[at] = ring.buf[ring.head];
        ring.head = ring.head + 1;
        at = at + 1;
        left = left - 1;
        proof {
            let total = old(ring)@.len() as int;
            assert(ring@ =~= before.subrange(1, before.len() as int));
            assert(ring@ =~= old(ring)@.subrange(at as int, total));
            assert(buf@ =~= old(ring)@.subrange(0, at as int) + old(buf)@.subrange(
                at as int,
                old(buf)@.len() as int,
            ));
        }
    }
    n - left
}

/// Copies up to `n` unread bytes to the front of `buf`, starting `off`
/// bytes after the oldest one, and leaves the ring as it is. Copies
/// nothing when `off` lies at or beyond the last unread byte.
pub fn ringbuf_read_noconsume(ring: &RingBuf, off: usize, n: usize, buf: &mut [u8]) -> (count:
    usize)
    requires
        ring.wf(),
        n <= old(buf)@.len(),
    ensures
        off >= ring@.len() ==> count == 0 && final(buf)@ == old(buf)@,
        off < ring@.len() ==> {
            &&& count == min_of(n as int, ring@.len() - off)
            &&& final(buf)@ == ring@.subrange(off as int, off + count) + old(buf)@.subrange(
                count as int,
                old(buf)@.len() as int,
            )
        },
{
    if ring.size == 0 {
        return 0;
    }
    let avail = ringbuf_available(ring);
    if off > avail {
        return 0;
    }
    assert(buf@ =~= ring@.subrange(off as int, off as int) + old(buf)@.subrange(
        0,
        old(buf)@.len() as int,
    ));
    let start = ring_index(ring, ring.head);
    let room = ring.size - start;
    let mut head: usize = if off >= room {
        off - room
    } else {
        start + off
    };
    let stop = ring_index(ring, ring.tail);
    let mut left: usize = n;
    let mut at: usize = 0;
    while left > 0
        invariant
            ring.wf(),
            ring.size > 0,
            avail == ring@.len(),
            stop == (if ring.tail == ring.size {
                0
            } else {
                ring.tail as int
            }),
            at + left == n,
            n <= old(buf)@.len(),
            buf@.len() == old(buf)@.len(),
            off + at <= avail,
            head <= ring.size,
            (if head == ring.size {
                0
            } else {
                head as int
            }) == slot_after(ring.head as int, off + at, ring.size as int),
            buf@ == ring@.subrange(off as int, off + at) + old(buf)@.subrange(
                at as int,
                old(buf)@.len() as int,
            ),
        ensures
            left == 0 || off + at == avail,
        decreases left,
    {
        if head == ring.size {
            head = 0;
        }
        if head == stop {
            break ;
        }
        buf[at] = ring.buf[head];
        head = head + 1;
        at = at + 1;
        left = left - 1;
        proof {
            assert(buf@ =~= ring@.subrange(off as int, off + at) + old(buf)@.subrange(
                at as int,
                old(buf)@.len() as int,
            ));
        }
    }
    n - left
}

/// Appends up to `n` bytes from the front of `buf` behind the unread
/// ones. Stops early when the ring is full, so unread bytes are never
/// overwritten. The read cursor stays as it is.
pub fn ringbuf_write(ring: &mut RingBuf, n: usize, buf: &[u8]) -> (count: usize)
    requires
        old(ring).wf(),
        n <= buf@.len(),
    ensures
        final(ring).wf(),
        final(ring).size == old(ring).size,
        final(ring).head == old(ring).head,
        count == min_of(n as int, old(ring).limit() - old(ring)@.len()),
        final(ring)@ == old(ring)@ + buf@.subrange(0, count as int),
        final(ring)@ == ring_step(
            old(ring)@,
            old(ring).limit(),
            RingOp::Write(buf@.subrange(0, n as int)),
        ),
{
    assert(ring@ =~= old(ring)@ + buf@.subrange(0, 0));
    if ring.size == 0 {
        return 0;
    }
    let mut left: usize = n;
    let mut at: usize = 0;
    while left > 0
        invariant
            ring.wf(),
            ring.size > 0,
            ring.size == old(ring).size,
            ring.head == old(ring).head,
            at + left == n,
            n <= buf@.len(),
            ring@.len() == old(ring)@.len() + at,
            ring@ == old(ring)@ + buf@.subrange(0, at as int),
        ensures
            left == 0 || ring@.len() == ring.limit(),
        decreases left,
    {
        if ring_full(ring) {
            break ;
        }
        if ring.tail == ring.size {
            ring.tail = 0;
        }
        let ghost before = ring@;
        let byte = buf[at];
        let slot = ring.tail;
        ring.buf[slot] = byte;
        ring.tail = ring.tail + 1;
        at = at + 1;
        left = left - 1;
        proof {
            assert(ring@ =~= before.push(byte));
            assert(ring@ =~= old(ring)@ + buf@.subrange(0, at as int));
        }
    }
    n - left
}

/// Appends `n` bytes from the front of `buf`, dropping the oldest unread
/// byte each time the ring is full. Afterwards the ring holds the most
/// recent `limit` bytes of what it held followed by what was written. A
/// ring of size zero takes nothing.
pub fn ringbuf_write_overwrite(ring: &mut RingBuf, n: usize, buf: &[u8]) -> (count: usize)
    requires
        old(ring).wf(),
        n <= buf@.len(),
    ensures
        final(ring).wf(),
        final(ring).size == old(ring).size,
        count == (if old(ring).size == 0 {
            0
        } else {
            n as int
        }),
        final(ring)@ == keep_last(
            old(ring)@ + buf@.subrange(0, count as int),
            old(ring).limit(),
        ),
        final(ring)@ == ring_step(
            old(ring)@,
            old(ring).limit(),
            RingOp::Overwrite(buf@.subrange(0, n as int)),
        ),
{
    assert(old(ring)@ + buf@.subrange(0, 0) =~= old(ring)@);
    if ring.size == 0 {
        return 0;
    }
    let mut left: usize = n;
    let mut at: usize = 0;
    while left > 0
        invariant
            ring.wf(),
            old(ring).wf(),
            ring.size > 0,
            ring.size == old(ring).size,
            at + left == n,
            n <= buf@.len(),
            ring@ == keep_last(old(ring)@ + buf@.subrange(0, at as int), ring.limit()),
        decreases left,
    {
        let ghost before = ring@;
        let ghost taken = old(ring)@ + buf@.subrange(0, at as int);
        let full = ring_full(ring);
        if full {
            ring.head = ring_index(ring, ring.head) + 1;
        }
        if ring.tail == ring.size {
            ring.tail = 0;
        }
        let byte = buf[at];
        let slot = ring.tail;
        ring.buf[slot] = byte;
        ring.tail = ring.tail + 1;
        at = at + 1;
        left = left - 1;
        proof {
            if full {
                assert(ring@ =~= before.push(byte).drop_first());
            } else {
                assert(ring@ =~= before.push(byte));
            }
            lemma_keep_last_push(taken, byte, ring.limit());
            assert(taken.push(byte) =~= old(ring)@ + buf@.subrange(0, at as int));
        }
    }
    n - left
}

/// One step in the history of a ring, as the contracts above describe it
/// on the unread bytes.
pub enum RingOp {
    /// `ringbuf_write` of these bytes.
    Write(Seq<u8>),
    /// `ringbuf_write_overwrite` of these bytes.
    Overwrite(Seq<u8>),
    /// `ringbuf_read` of up to this many bytes.
    Read(nat),
}

/// The unread bytes after one step on a ring that holds at most `limit`.
pub open spec fn ring_step(contents: Seq<u8>, limit: int, op: RingOp) -> Seq<u8> {
    match op {
        RingOp::Write(input) => contents + input.subrange(
            0,
            min_of(input.len() as int, limit - contents.len()),
        ),
        RingOp::Overwrite(input) => keep_last(contents + input, limit),
        RingOp::Read(n) => contents.subrange(
            min_of(n as int, contents.len() as int),
            contents.len() as int,
        ),
    }
}

/// The unread bytes after all of `ops` on an empty ring.
pub open spec fn ring_run(limit: int, ops: Seq<RingOp>) -> Seq<u8>
    decreases ops.len(),
{
    if ops.len() == 0 {
        Seq::empty()
    } else {
        ring_step(ring_run(limit, ops.drop_last()), limit, ops.last())
    }
}

/// Total of the byte counts that the writes among `ops` returned.
pub open spec fn ring_written(limit: int, ops: Seq<RingOp>) -> int
    decreases ops.len(),
{
    if ops.len() == 0 {
        0
    } else {
        let held = ring_run(limit, ops.drop_last());
        ring_written(limit, ops.drop_last()) + match ops.last() {
            RingOp::Write(input) => min_of(input.len() as int, limit - held.len()),
            _ => 0,
        }
    }
}

/// Total of the byte counts that the reads among `ops` returned.
pub open spec fn ring_consumed(limit: int, ops: Seq<RingOp>) -> int
    decreases ops.len(),
{
    if ops.len() == 0 {
        0
    } else {
        let held = ring_run(limit, ops.drop_last());
        ring_consumed(limit, ops.drop_last()) + match ops.last() {
            RingOp::Read(n) => min_of(n as int, held.len() as int),
            _ => 0,
        }
    }
}

/// No step is an overwriting write.
pub open spec fn ring_plain_only(ops: Seq<RingOp>) -> bool {
    forall|k: int| 0 <= k < ops.len() ==> !((#[trigger] ops[k]) is Overwrite)
}

/// After any interleaving of plain writes and reads on an empty ring, the
/// number of unread bytes is the number of bytes written less the number
/// of bytes read, and never more than the ring can hold.
pub proof fn lemma_ring_balance(limit: int, ops: Seq<RingOp>)
    requires
        limit >= 0,
        ring_plain_only(ops),
    ensures
        ring_run(limit, ops).len() == ring_written(limit, ops) - ring_consumed(limit, ops),
        ring_run(limit, ops).len() <= limit,
    decreases ops.len(),
{
    if ops.len() > 0 {
        let earlier = ops.drop_last();
        assert forall|k: int| 0 <= k < earlier.len() implies !((#[trigger] earlier[k])
            is Overwrite) by {
            assert(earlier[k] == ops[k]);
        }
        lemma_ring_balance(limit, earlier);
        assert(ops[ops.len() - 1] == ops.last());
    }
}

/// A plain write never overwrites: the bytes that were unread before it
/// are still there, in front, and a read that follows returns no more
/// than the ring can hold, however much was offered to the write.
pub proof fn lemma_write_keeps_unread(contents: Seq<u8>, limit: int, input: Seq<u8>, n: nat)
    requires
        0 <= contents.len() <= limit,
    ensures
        contents.is_prefix_of(ring_step(contents, limit, RingOp::Write(input))),
        ring_step(contents, limit, RingOp::Write(input)).len() <= limit,
        min_of(n as int, ring_step(contents, limit, RingOp::Write(input)).len() as int) <= limit,
{
    let after = ring_step(contents, limit, RingOp::Write(input));
    assert(after.subrange(0, contents.len() as int) =~= contents);
}

/// An overwriting write of at least as many bytes as the ring can hold
/// leaves exactly the most recent `limit` of them, and a read of that
/// many bytes returns them all.
pub proof fn lemma_overwrite_keeps_latest(contents: Seq<u8>, limit: int, input: Seq<u8>)
    requires
        0 <= limit <= input.len(),
    ensures
        ring_step(contents, limit, RingOp::Overwrite(input)) == input.subrange(
            input.len() - limit,
            input.len() as int,
        ),
        ring_step(
            ring_step(contents, limit, RingOp::Overwrite(input)),
            limit,
            RingOp::Read(limit as nat),
        ) == Seq::<u8>::empty(),
{
    let after = ring_step(contents, limit, RingOp::Overwrite(input));
    assert(after =~= input.subrange(input.len() - limit, input.len() as int));
    assert(ring_step(after, limit, RingOp::Read(limit as nat)) =~= Seq::<u8>::empty());
}

} // verus!
