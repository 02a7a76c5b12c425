//! Chained hash table with a fixed number of buckets.
//!
//! Every bucket is a `Queue` of node handles; the nodes themselves live in
//! an arena owned by the table. The caller supplies the hash of each entry
//! and a predicate that tells whether a stored entry answers a probe key.
//! Entries and keys are opaque tokens: the table never looks inside them.

use crate::arena::Arena;
use crate::queue::{enqueue, queue_node_remove, Queue};
use vstd::arithmetic::div_mod::{
    lemma_add_mod_noop_right, lemma_mod_bound, lemma_mod_sub_multiples_vanish, lemma_small_mod,
};
use vstd::prelude::*;

verus! {

/// Number of buckets given to a table that is created with a count of zero.
pub const HASHMAP_DEFAULT: usize = 20;

/// What the table keeps for one entry: its hash, the entry token and the
/// handle of the queue node that links it into its bucket.
#[derive(Clone, Copy, Debug)]
pub struct HashMapNode {
    pub hash: usize,
    pub entry: usize,
    pub qnode: usize,
}

/// The table. `count` is the number of entries, `buckets_nr` the number of
/// buckets; a table without buckets holds nothing and refuses insertion.
pub struct HashMap<F> {
    pub count: usize,
    pub buckets_nr: usize,
    pub buckets: Vec<Queue>,
    pub eq: F,
    pub nodes: Arena<HashMapNode>,
}

/// Sum of the bytes of `bytes`.
pub open spec fn byte_sum(bytes: Seq<u8>) -> nat
    decreases bytes.len(),
{
    if bytes.len() == 0 {
        0
    } else {
        byte_sum(bytes.drop_last()) + bytes.last() as nat
    }
}

/// The bucket that holds entries of hash `hash` in a table of `nr` buckets.
pub open spec fn bucket_of(hash: usize, nr: usize) -> int {
    hash as int % nr as int
}

/// Total number of node handles in all chains.
pub open spec fn total_len(chains: Seq<Seq<usize>>) -> nat
    decreases chains.len(),
{
    if chains.len() == 0 {
        0
    } else {
        total_len(chains.drop_last()) + chains.last().len()
    }
}

/// No chain is longer than all chains together.
pub proof fn lemma_total_len_bound(chains: Seq<Seq<usize>>, b: int)
    requires
        0 <= b < chains.len(),
    ensures
        chains[b].len() <= total_len(chains),
    decreases chains.len(),
{
    if b < chains.len() - 1 {
        lemma_total_len_bound(chains.drop_last(), b);
    }
}

/// Replacing one chain changes the total by the difference of the lengths.
pub proof fn lemma_total_len_update(chains: Seq<Seq<usize>>, b: int, chain: Seq<usize>)
    requires
        0 <= b < chains.len(),
    ensures
        total_len(chains.update(b, chain)) + chains[b].len() == total_len(chains) + chain.len(),
    decreases chains.len(),
{
    let after = chains.update(b, chain);
    if b < chains.len() - 1 {
        lemma_total_len_update(chains.drop_last(), b, chain);
        assert(after.drop_last() =~= chains.drop_last().update(b, chain));
    } else {
        assert(after.drop_last() =~= chains.drop_last());
    }
}

/// Chains that are all empty have total length zero.
pub proof fn lemma_total_len_empty(chains: Seq<Seq<usize>>)
    requires
        forall|b: int| 0 <= b < chains.len() ==> (#[trigger] chains[b]).len() == 0,
    ensures
        total_len(chains) == 0,
    decreases chains.len(),
{
    if chains.len() > 0 {
        lemma_total_len_empty(chains.drop_last());
    }
}

/// The predicate can answer "match" for this pair.
pub open spec fn accepts<F: Fn(usize, usize) -> isize>(eq: F, entry: usize, key: usize) -> bool {
    exists|r: isize| r != 0 && #[trigger] call_ensures(eq, (entry, key), r)
}

/// The predicate can answer "no match" for this pair.
pub open spec fn rejects<F: Fn(usize, usize) -> isize>(eq: F, entry: usize, key: usize) -> bool {
    call_ensures(eq, (entry, key), 0isize)
}

/// The node at position `i` of `chain` carries the probed hash and the
/// predicate took its entry for the key.
pub open spec fn hit<F: Fn(usize, usize) -> isize>(
    chain: Seq<usize>,
    items: Map<usize, (usize, usize)>,
    eq: F,
    hash: usize,
    key: usize,
    i: int,
) -> bool {
    items[chain[i]].0 == hash && accepts(eq, items[chain[i]].1, key)
}

/// The node at position `i` of `chain` carries another hash, or the
/// predicate turned its entry down.
pub open spec fn miss<F: Fn(usize, usize) -> isize>(
    chain: Seq<usize>,
    items: Map<usize, (usize, usize)>,
    eq: F,
    hash: usize,
    key: usize,
    i: int,
) -> bool {
    items[chain[i]].0 != hash || rejects(eq, items[chain[i]].1, key)
}

/// A scan of `chain` from its head passes over every position before `i`
/// and stops at `i`.
pub open spec fn scan_stops_at<F: Fn(usize, usize) -> isize>(
    chain: Seq<usize>,
    items: Map<usize, (usize, usize)>,
    eq: F,
    hash: usize,
    key: usize,
    i: int,
) -> bool {
    &&& 0 <= i < chain.len()
    &&& hit(chain, items, eq, hash, key, i)
    &&& forall|j: int| 0 <= j < i ==> #[trigger] miss(chain, items, eq, hash, key, j)
}

/// A scan of `chain` passes over every position.
pub open spec fn scan_misses<F: Fn(usize, usize) -> isize>(
    chain: Seq<usize>,
    items: Map<usize, (usize, usize)>,
    eq: F,
    hash: usize,
    key: usize,
) -> bool {
    forall|j: int| 0 <= j < chain.len() ==> #[trigger] miss(chain, items, eq, hash, key, j)
}

/// What a lookup may answer on a chain: the node at which the scan stops,
/// or nothing when the scan passes over the whole chain.
pub open spec fn lookup_outcome<F: Fn(usize, usize) -> isize>(
    chain: Seq<usize>,
    items: Map<usize, (usize, usize)>,
    eq: F,
    hash: usize,
    key: usize,
    found: Option<usize>,
) -> bool {
    match found {
        Some(node) => exists|i: int|
            #[trigger] scan_stops_at(chain, items, eq, hash, key, i) && chain[i] == node,
        None => scan_misses(chain, items, eq, hash, key),
    }
}

impl<F: Fn(usize, usize) -> isize> HashMap<F> {
    /// The node handles of every bucket, each chain head first.
    pub open spec fn chains(&self) -> Seq<Seq<usize>> {
        Seq::new(self.buckets@.len(), |b: int| self.buckets@[b]@)
    }

    /// Hash and entry of every node, by node handle.
    pub open spec fn items(&self) -> Map<usize, (usize, usize)> {
        Map::new(
            |h: usize| self.nodes@.dom().contains(h),
            |h: usize| (self.nodes@[h].hash, self.nodes@[h].entry),
        )
    }

    /// Position `i` of bucket `b` names a node of that bucket, and the
    /// node points back at the queue node that holds it.
    pub closed spec fn linked(&self, b: int, i: int) -> bool {
        let h = self.buckets@[b]@[i];
        &&& self.nodes@.dom().contains(h)
        &&& bucket_of(self.nodes@[h].hash, self.buckets_nr) == b
        &&& self.nodes@[h].qnode == self.buckets@[b].handles()[i]
    }

    /// Node `h` sits in the bucket of its hash, where its queue node
    /// carries `h`.
    pub closed spec fn homed(&self, h: usize) -> bool {
        let queue = self.buckets@[bucket_of(self.nodes@[h].hash, self.buckets_nr)];
        let q = self.nodes@[h].qnode;
        &&& self.buckets_nr > 0
        &&& queue.handles().contains(q)
        &&& queue@[queue.handles().index_of(q)] == h
    }

    /// The table invariant: every bucket is a well-formed queue, every
    /// node is linked into the bucket of its hash and nowhere else,
    /// `count` is the number of nodes and the sum of the chain lengths,
    /// and the predicate may be called on any pair.
    pub closed spec fn wf(&self) -> bool {
        &&& self.buckets@.len() == self.buckets_nr
        &&& self.nodes.wf()
        &&& self.count == self.nodes.len()
        &&& self.count == total_len(self.chains())
        &&& forall|entry: usize, key: usize| #[trigger] call_requires(self.eq, (entry, key))
        &&& forall|b: int| 0 <= b < self.buckets_nr ==> (#[trigger] self.buckets@[b]).wf()
        &&& forall|b: int, i: int|
            0 <= b < self.buckets_nr && 0 <= i < self.buckets@[b]@.len() ==> #[trigger] self.linked(
                b,
                i,
            )
        &&& forall|h: usize| self.nodes@.dom().contains(h) ==> #[trigger] self.homed(h)
    }

    /// What the invariant says in terms of chains and items: `count` is
    /// the sum of the chain lengths, every chain position names a node
    /// whose hash maps to that chain, and no node occurs twice.
    pub proof fn lemma_wf(&self)
        requires
            self.wf(),
        ensures
            self.chains().len() == self.buckets_nr,
            self.count == total_len(self.chains()),
            forall|b: int, i: int|
                0 <= b < self.buckets_nr && 0 <= i < self.chains()[b].len() ==> {
                    &&& self.items().dom().contains(#[trigger] self.chains()[b][i])
                    &&& bucket_of(self.items()[self.chains()[b][i]].0, self.buckets_nr) == b
                },
            forall|h: usize|
                self.items().dom().contains(h) ==> self.buckets_nr > 0 && self.chains()[bucket_of(
                    self.items()[h].0,
                    self.buckets_nr,
                )].contains(h),
            forall|b: int, i: int, j: int|
                0 <= b < self.buckets_nr && 0 <= i < j < self.chains()[b].len()
                    ==> self.chains()[b][i] != self.chains()[b][j],
    {
        assert forall|b: int, i: int|
            0 <= b < self.buckets_nr && 0 <= i < self.chains()[b].len() implies {
            &&& self.items().dom().contains(#[trigger] self.chains()[b][i])
            &&& bucket_of(self.items()[self.chains()[b][i]].0, self.buckets_nr) == b
        } by {
            assert(self.linked(b, i));
        }
        assert forall|h: usize| self.items().dom().contains(h) implies self.buckets_nr > 0
            && self.chains()[bucket_of(self.items()[h].0, self.buckets_nr)].contains(h) by {
            assert(self.homed(h));
            let b = bucket_of(self.nodes@[h].hash, self.buckets_nr);
            self.buckets@[b].lemma_wf();
        }
        assert forall|b: int, i: int, j: int|
            0 <= b < self.buckets_nr && 0 <= i < j < self.chains()[b].len()
                implies self.chains()[b][i] != self.chains()[b][j] by {
            assert(self.linked(b, i));
            assert(self.linked(b, j));
            self.buckets@[b].lemma_wf();
        }
    }

    /// The node behind handle `node`, if the table holds one there.
    pub fn get(&self, node: usize) -> (found: Option<&HashMapNode>)
        ensures
            match found {
                Some(n) => self.items().dom().contains(node) && self.items()[node] == (
                    n.hash,
                    n.entry,
                ),
                None => !self.items().dom().contains(node),
            },
    {
        self.nodes.get(node)
    }
}

/// What an insertion of `(hash, entry)` does to a table: on a table
/// without buckets, or one that holds `usize::MAX` entries, it reports
/// `-1` and changes nothing; otherwise it reports `0`, and a fresh node
/// carrying the pair stands at the tail of the chain that `hash` maps to.
pub open spec fn insert_outcome<F: Fn(usize, usize) -> isize>(
    before: HashMap<F>,
    after: HashMap<F>,
    hash: usize,
    entry: usize,
    status: isize,
) -> bool {
    if before.buckets_nr == 0 || before.count == usize::MAX {
        status == -1 && after == before
    } else {
        let b = bucket_of(hash, before.buckets_nr);
        let node = after.chains()[b].last();
        &&& status == 0
        &&& after.buckets_nr == before.buckets_nr
        &&& after.eq == before.eq
        &&& after.count == before.count + 1
        &&& !before.items().dom().contains(node)
        &&& after.chains() == before.chains().update(b, before.chains()[b].push(node))
        &&& after.items() == before.items().insert(node, (hash, entry))
    }
}

/// Node `node` carries `entry` instead of what it carried; nothing else
/// differs.
pub open spec fn overwritten<F: Fn(usize, usize) -> isize>(
    before: HashMap<F>,
    after: HashMap<F>,
    node: usize,
    entry: usize,
) -> bool {
    &&& after.buckets_nr == before.buckets_nr
    &&& after.eq == before.eq
    &&& after.count == before.count
    &&& after.chains() == before.chains()
    &&& after.items() == before.items().insert(node, (before.items()[node].0, entry))
}

/// What a replacement does to a table: without buckets it reports `-1`
/// and changes nothing; where the scan of the chain stops at a node, that
/// node takes the new entry and the report is `0`; where the scan passes
/// over the whole chain, the outcome is that of an insertion.
pub open spec fn replace_outcome<F: Fn(usize, usize) -> isize>(
    before: HashMap<F>,
    after: HashMap<F>,
    hash: usize,
    key: usize,
    entry: usize,
    status: isize,
) -> bool {
    if before.buckets_nr == 0 {
        status == -1 && after == before
    } else {
        let chain = before.chains()[bucket_of(hash, before.buckets_nr)];
        ||| exists|i: int|
            {
                &&& #[trigger] scan_stops_at(chain, before.items(), before.eq, hash, key, i)
                &&& overwritten(before, after, chain[i], entry)
                &&& status == 0
            }
        ||| {
            &&& scan_misses(chain, before.items(), before.eq, hash, key)
            &&& insert_outcome(before, after, hash, entry, status)
        }
    }
}

/// What the removal of `node` does to a table: a handle that names a node
/// takes that node out of its chain and out of the items, and `count`
/// drops by one; any other handle changes nothing.
pub open spec fn remove_outcome<F: Fn(usize, usize) -> isize>(
    before: HashMap<F>,
    after: HashMap<F>,
    node: usize,
) -> bool {
    if before.items().dom().contains(node) {
        let b = bucket_of(before.items()[node].0, before.buckets_nr);
        let chain = before.chains()[b];
        &&& after.buckets_nr == before.buckets_nr
        &&& after.eq == before.eq
        &&& after.count + 1 == before.count
        &&& after.chains() == before.chains().update(b, chain.remove(chain.index_of(node)))
        &&& after.items() == before.items().remove(node)
    } else {
        after == before
    }
}

/// In a sequence without duplicates, an element is found where it stands.
proof fn lemma_index_of_unique(s: Seq<usize>, i: int)
    requires
        s.no_duplicates(),
        0 <= i < s.len(),
    ensures
        s.index_of(s[i]) == i,
        s.contains(s[i]),
{
}

/// A table of `n` empty buckets, or of `HASHMAP_DEFAULT` where `n` is
/// zero, that matches entries to keys by `eq`.
pub fn hashmap_new<F: Fn(usize, usize) -> isize>(n: usize, eq: F) -> (hashmap: HashMap<F>)
    requires
        forall|entry: usize, key: usize| #[trigger] call_requires(eq, (entry, key)),
    ensures
        hashmap.wf(),
        hashmap.eq == eq,
        hashmap.count == 0,
        hashmap.buckets_nr == (if n == 0 {
            HASHMAP_DEFAULT
        } else {
            n
        }),
        hashmap.chains() == Seq::new(hashmap.buckets_nr as nat, |b: int| Seq::<usize>::empty()),
        hashmap.items() == Map::<usize, (usize, usize)>::empty(),
{
    let n: usize = if n == 0 {
        HASHMAP_DEFAULT
    } else {
        n
    };
    let mut buckets: Vec<Queue> = Vec::new();
    let mut i: usize = 0;
    while i < n
        invariant
            i <= n,
            buckets@.len() == i,
            forall|b: int|
                0 <= b < i ==> (#[trigger] buckets@[b]).wf() && buckets@[b]@ == Seq::<
                    usize,
                >::empty(),
        decreases n - i,
    {
        buckets.push(Queue::empty());
        i = i + 1;
    }
    let hashmap = HashMap { count: 0, buckets_nr: n, buckets, eq, nodes: Arena::new() };
    proof {
        assert(hashmap.chains() =~= Seq::new(n as nat, |b: int| Seq::<usize>::empty()));
        assert(hashmap.items() =~= Map::<usize, (usize, usize)>::empty());
        lemma_total_len_empty(hashmap.chains());
    }
    hashmap
}

/// The reference digest: the sum of the first `size` bytes of `id`,
/// reduced to the width of `usize`.
pub fn hashmap_digest(id: &[u8], size: usize) -> (hash: usize)
    requires
        size <= id@.len(),
    ensures
        hash == byte_sum(id@.subrange(0, size as int)) % (usize::MAX as nat + 1),
{
    let mut hash: usize = 0;
    let mut i: usize = 0;
    proof {
        lemma_small_mod(0, usize::MAX as nat + 1);
    }
    while i < size
        invariant
            i <= size <= id@.len(),
            hash == byte_sum(id@.subrange(0, i as int)) % (usize::MAX as nat + 1),
        decreases size - i,
    {
        let byte = id[i];
        proof {
            let taken = id@.subrange(0, i as int);
            let next = id@.subrange(0, i + 1);
            assert(next.drop_last() =~= taken);
            assert(next.last() == byte);
            lemma_add_mod_noop_right(byte as int, byte_sum(taken) as int, usize::MAX + 1);
            lemma_mod_bound(byte_sum(taken) as int, usize::MAX + 1);
            if hash + byte > usize::MAX {
                lemma_mod_sub_multiples_vanish(hash + byte, usize::MAX + 1);
                lemma_small_mod((hash + byte - usize::MAX - 1) as nat, usize::MAX as nat + 1);
            } else {
                lemma_small_mod((hash + byte) as nat, usize::MAX as nat + 1);
            }
        }
        hash = hash.wrapping_add(byte as usize);
        i = i + 1;
    }
    hash
}

/// Scans the chain that `hash` maps to and returns the first node that
/// carries `hash` and whose entry the predicate takes for `key`.
fn find<F: Fn(usize, usize) -> isize>(hashmap: &HashMap<F>, hash: usize, key: usize) -> (found:
    Option<usize>)
    requires
        hashmap.wf(),
        hashmap.buckets_nr > 0,
    ensures
        lookup_outcome(
            hashmap.chains()[bucket_of(hash, hashmap.buckets_nr)],
            hashmap.items(),
            hashmap.eq,
            hash,
            key,
            found,
        ),
{
    let idx = hash % hashmap.buckets_nr;
    let queue = &hashmap.buckets[idx];
    let ghost chain = hashmap.chains()[idx as int];
    let ghost items = hashmap.items();
    let mut it = queue.iter();
    loop
        invariant
            hashmap.wf(),
            0 <= idx < hashmap.buckets_nr,
            idx == bucket_of(hash, hashmap.buckets_nr),
            chain == hashmap.chains()[idx as int],
            items == hashmap.items(),
            it.wf(),
            *it.queue == hashmap.buckets@[idx as int],
            0 <= it.position() <= chain.len(),
            forall|j: int| 0 <= j < it.position() ==> #[trigger] miss(chain, items, hashmap.eq, hash, key, j),
        decreases chain.len() - it.position(),
    {
        let ghost at = it.position();
        match it.next() {
            None => {
                return None;
            },
            Some(qnode) => {
                let h = qnode.value;
                assert(hashmap.linked(idx as int, at));
                let node = hashmap.nodes.get(h).unwrap();
                if node.hash == hash {
                    let r = (hashmap.eq)(node.entry, key);
                    if r != 0 {
                        assert(scan_stops_at(chain, items, hashmap.eq, hash, key, at));
                        return Some(h);
                    }
                }
                assert(miss(chain, items, hashmap.eq, hash, key, at));
            },
        }
    }
}

/// Looks for an entry of hash `hash` that the predicate takes for `key`.
///
/// A node answers only if it carries the probed hash and the predicate
/// returns non-zero on its entry and `key`; of several such nodes the one
/// nearest the head of the chain is returned. A table without buckets or
/// without entries answers `None`.
pub fn hashmap_lookup<F: Fn(usize, usize) -> isize>(
    hashmap: &HashMap<F>,
    hash: usize,
    key: usize,
) -> (found: Option<usize>)
    requires
        hashmap.wf(),
    ensures
        hashmap.buckets_nr == 0 ==> found is None,
        hashmap.buckets_nr > 0 ==> lookup_outcome(
            hashmap.chains()[bucket_of(hash, hashmap.buckets_nr)],
            hashmap.items(),
            hashmap.eq,
            hash,
            key,
            found,
        ),
{
    if hashmap.buckets_nr == 0 {
        return None;
    }
    if hashmap.count == 0 {
        proof {
            lemma_total_len_bound(hashmap.chains(), bucket_of(hash, hashmap.buckets_nr));
        }
        return None;
    }
    find(hashmap, hash, key)
}

/// Appends `entry` under `hash` to the chain that `hash` maps to.
///
/// Returns `0` on success. Returns `-1`, leaving the table as it is, on a
/// table without buckets and on one that already holds `usize::MAX`
/// entries.
pub fn hashmap_insert<F: Fn(usize, usize) -> isize>(
    hashmap: &mut HashMap<F>,
    hash: usize,
    entry: usize,
) -> (status: isize)
    requires
        old(hashmap).wf(),
    ensures
        final(hashmap).wf(),
        insert_outcome(*old(hashmap), *final(hashmap), hash, entry, status),
{
    if hashmap.buckets_nr == 0 || hashmap.count == usize::MAX {
        return -1;
    }
    let idx = hash % hashmap.buckets_nr;
    let ghost b = idx as int;
    let node: usize = match hashmap.nodes.insert(HashMapNode { hash, entry, qnode: 0 }) {
        Some(h) => h,
        None => {
            return -1;
        },
    };
    proof {
        lemma_total_len_bound(old(hashmap).chains(), b);
    }
    let qnode: usize = match enqueue(&mut hashmap.buckets[idx], node) {
        Some(q) => q,
        None => {
            hashmap.nodes.remove(node);
            return -1;
        },
    };
    hashmap.nodes.set(node, HashMapNode { hash, entry, qnode });
    hashmap.count = hashmap.count + 1;
    proof {
        let before = *old(hashmap);
        let after = *hashmap;
        let n = before.buckets@[b]@.len() as int;
        after.buckets@[b].lemma_wf();
        before.buckets@[b].lemma_wf();
        assert(after.chains() =~= before.chains().update(b, before.chains()[b].push(node)));
        assert(after.chains()[b].last() == node);
        assert(after.items() =~= before.items().insert(node, (hash, entry)));
        lemma_total_len_update(before.chains(), b, before.chains()[b].push(node));
        assert forall|c: int| 0 <= c < after.buckets_nr implies (#[trigger] after.buckets@[c]).wf() by {
            if c != b {
                assert(after.buckets@[c] == before.buckets@[c]);
            }
        }
        assert forall|c: int, i: int|
            0 <= c < after.buckets_nr && 0 <= i < after.buckets@[c]@.len() implies #[trigger] after.linked(
            c,
            i,
        ) by {
            if c != b {
                assert(after.buckets@[c] == before.buckets@[c]);
                assert(before.linked(c, i));
            } else if i < n {
                assert(before.linked(c, i));
            }
        }
        assert forall|h: usize| after.nodes@.dom().contains(h) implies #[trigger] after.homed(h) by {
            if h == node {
                lemma_index_of_unique(after.buckets@[b].handles(), n);
            } else {
                assert(before.homed(h));
                let c = bucket_of(before.nodes@[h].hash, before.buckets_nr);
                if c != b {
                    assert(after.buckets@[c] == before.buckets@[c]);
                } else {
                    let q = before.nodes@[h].qnode;
                    let j = before.buckets@[b].handles().index_of(q);
                    lemma_index_of_unique(after.buckets@[b].handles(), j);
                }
            }
        }
    }
    0
}

/// Gives the first node that answers `(hash, key)`, as `hashmap_lookup`
/// finds it, the new `entry`; where no node answers, inserts `entry`
/// under `hash` as `hashmap_insert` does. Returns `0` on success and `-1`,
/// leaving the table as it is, where the table has no buckets or the
/// insertion fails.
pub fn hashmap_replace<F: Fn(usize, usize) -> isize>(
    hashmap: &mut HashMap<F>,
    hash: usize,
    key: usize,
    entry: usize,
) -> (status: isize)
    requires
        old(hashmap).wf(),
    ensures
        final(hashmap).wf(),
        replace_outcome(*old(hashmap), *final(hashmap), hash, key, entry, status),
{
    if hashmap.buckets_nr == 0 {
        return -1;
    }
    match find(hashmap, hash, key) {
        Some(node) => {
            let ghost b = bucket_of(hash, hashmap.buckets_nr);
            let ghost chain = hashmap.chains()[b];
            let ghost at = choose|i: int| #[trigger]
                scan_stops_at(chain, hashmap.items(), hashmap.eq, hash, key, i) && chain[i]
                    == node;
            assert(hashmap.linked(b, at));
            let held = *hashmap.nodes.get(node).unwrap();
            hashmap.nodes.set(node, HashMapNode { hash: held.hash, entry, qnode: held.qnode });
            proof {
                let before = *old(hashmap);
                let after = *hashmap;
                assert(after.chains() =~= before.chains());
                assert(after.items() =~= before.items().insert(
                    node,
                    (before.items()[node].0, entry),
                ));
                assert forall|c: int, i: int|
                    0 <= c < after.buckets_nr && 0 <= i < after.buckets@[c]@.len() implies #[trigger] after.linked(
                    c,
                    i,
                ) by {
                    assert(before.linked(c, i));
                }
                assert forall|h: usize| after.nodes@.dom().contains(h) implies #[trigger] after.homed(
                    h,
                ) by {
                    assert(before.homed(h));
                }
                assert(scan_stops_at(chain, before.items(), before.eq, hash, key, at));
                assert(overwritten(before, after, chain[at], entry));
            }
            0
        },
        None => hashmap_insert(hashmap, hash, entry),
    }
}

/// Takes the node behind `node` out of its bucket and out of the table.
/// The entry token it carried is the caller's and is not touched. A
/// handle that names no node changes nothing.
pub fn hashmap_node_remove<F: Fn(usize, usize) -> isize>(hashmap: &mut HashMap<F>, node: usize)
    requires
        old(hashmap).wf(),
    ensures
        final(hashmap).wf(),
        remove_outcome(*old(hashmap), *final(hashmap), node),
{
    if hashmap.buckets_nr == 0 {
        assert(!hashmap.nodes@.dom().contains(node)) by {
            if hashmap.nodes@.dom().contains(node) {
                assert(hashmap.homed(node));
            }
        }
        return ;
    }
    let held: HashMapNode = match hashmap.nodes.get(node) {
        Some(n) => *n,
        None => {
            return ;
        },
    };
    let idx = held.hash % hashmap.buckets_nr;
    let ghost b = idx as int;
    let ghost before = *old(hashmap);
    let ghost at = before.buckets@[b].handles().index_of(held.qnode);
    proof {
        assert(before.homed(node));
        before.buckets@[b].lemma_wf();
        lemma_total_len_bound(before.chains(), b);
        assert(before.linked(b, at));
        assert(before.chains()[b].index_of(node) == at) by {
            let chain = before.chains()[b];
            let w = chain.index_of(node);
            assert(chain[at] == node);
            assert(before.linked(b, w));
        }
    }
    queue_node_remove(&mut hashmap.buckets[idx], held.qnode);
    hashmap.nodes.remove(node);
    hashmap.count = hashmap.count - 1;
    proof {
        let after = *hashmap;
        let chain = before.chains()[b];
        after.buckets@[b].lemma_wf();
        assert(after.chains() =~= before.chains().update(b, chain.remove(at)));
        assert(after.items() =~= before.items().remove(node));
        lemma_total_len_update(before.chains(), b, chain.remove(at));
        assert forall|c: int| 0 <= c < after.buckets_nr implies (#[trigger] after.buckets@[c]).wf() by {
            if c != b {
                assert(after.buckets@[c] == before.buckets@[c]);
            }
        }
        assert forall|c: int, i: int|
            0 <= c < after.buckets_nr && 0 <= i < after.buckets@[c]@.len() implies #[trigger] after.linked(
            c,
            i,
        ) by {
            if c != b {
                assert(after.buckets@[c] == before.buckets@[c]);
                assert(before.linked(c, i));
            } else {
                let j = if i < at {
                    i
                } else {
                    i + 1
                };
                assert(before.linked(b, j));
            }
        }
        assert forall|h: usize| after.nodes@.dom().contains(h) implies #[trigger] after.homed(h) by {
            assert(before.homed(h));
            let c = bucket_of(before.nodes@[h].hash, before.buckets_nr);
            if c != b {
                assert(after.buckets@[c] == before.buckets@[c]);
            } else {
                let q = before.nodes@[h].qnode;
                let j = before.buckets@[b].handles().index_of(q);
                assert(j != at);
                let k = if j < at {
                    j
                } else {
                    j - 1
                };
                lemma_index_of_unique(after.buckets@[b].handles(), k);
            }
        }
    }
}

/// Releases every node and every bucket. The table is left without
/// buckets and without entries; the entry tokens are the caller's and
/// are not touched.
pub fn hashmap_free<F: Fn(usize, usize) -> isize>(hashmap: &mut HashMap<F>)
    requires
        old(hashmap).wf(),
    ensures
        final(hashmap).wf(),
        final(hashmap).eq == old(hashmap).eq,
        final(hashmap).count == 0,
        final(hashmap).buckets_nr == 0,
        final(hashmap).chains() == Seq::<Seq<usize>>::empty(),
        final(hashmap).items() == Map::<usize, (usize, usize)>::empty(),
{
    hashmap.buckets = Vec::new();
    hashmap.nodes = Arena::new();
    hashmap.buckets_nr = 0;
    hashmap.count = 0;
    proof {
        assert(hashmap.chains() =~= Seq::<Seq<usize>>::empty());
        assert(hashmap.items() =~= Map::<usize, (usize, usize)>::empty());
    }
}

/// An entry can be found once it is inserted: if the predicate always
/// takes `entry` for itself and no node that was already in the chain
/// answers `(hash, entry)`, then a lookup of `(hash, entry)` after a
/// successful insertion of `(hash, entry)` returns the inserted node.
pub proof fn lemma_insert_then_lookup<F: Fn(usize, usize) -> isize>(
    before: HashMap<F>,
    after: HashMap<F>,
    hash: usize,
    entry: usize,
    found: Option<usize>,
)
    requires
        before.wf(),
        insert_outcome(before, after, hash, entry, 0),
        forall|r: isize| call_ensures(before.eq, (entry, entry), r) ==> r != 0,
        forall|j: int|
            0 <= j < before.chains()[bucket_of(hash, before.buckets_nr)].len() ==> !hit(
                before.chains()[bucket_of(hash, before.buckets_nr)],
                before.items(),
                before.eq,
                hash,
                entry,
                j,
            ),
        lookup_outcome(
            after.chains()[bucket_of(hash, after.buckets_nr)],
            after.items(),
            after.eq,
            hash,
            entry,
            found,
        ),
    ensures
        found == Some(after.chains()[bucket_of(hash, after.buckets_nr)].last()),
{
    before.lemma_wf();
    let b = bucket_of(hash, before.buckets_nr);
    let chain = before.chains()[b];
    let grown = after.chains()[b];
    let node = grown.last();
    assert(grown == chain.push(node));
    match found {
        Some(other) => {
            let i = choose|i: int| #[trigger]
                scan_stops_at(grown, after.items(), after.eq, hash, entry, i) && grown[i]
                    == other;
            if i < chain.len() {
                assert(grown[i] == chain[i]);
                assert(before.items().dom().contains(before.chains()[b][i]));
                assert(hit(chain, before.items(), before.eq, hash, entry, i));
            }
        },
        None => {
            assert(miss(grown, after.items(), after.eq, hash, entry, chain.len() as int));
        },
    }
}

/// A removed node is no longer found: if no other node of the chain
/// answers `(hash, key)`, where `hash` is the hash of `node`, then after
/// the removal of `node` a lookup of `(hash, key)` returns nothing, and
/// `count` is one less than before.
pub proof fn lemma_remove_then_lookup<F: Fn(usize, usize) -> isize>(
    before: HashMap<F>,
    after: HashMap<F>,
    node: usize,
    key: usize,
    found: Option<usize>,
)
    requires
        before.wf(),
        before.items().dom().contains(node),
        remove_outcome(before, after, node),
        forall|j: int|
            0 <= j < before.chains()[bucket_of(before.items()[node].0, before.buckets_nr)].len()
                && before.chains()[bucket_of(before.items()[node].0, before.buckets_nr)][j]
                != node ==> !hit(
                before.chains()[bucket_of(before.items()[node].0, before.buckets_nr)],
                before.items(),
                before.eq,
                before.items()[node].0,
                key,
                j,
            ),
        lookup_outcome(
            after.chains()[bucket_of(before.items()[node].0, after.buckets_nr)],
            after.items(),
            after.eq,
            before.items()[node].0,
            key,
            found,
        ),
    ensures
        found is None,
        after.count == before.count - 1,
{
    before.lemma_wf();
    let hash = before.items()[node].0;
    let b = bucket_of(hash, before.buckets_nr);
    let chain = before.chains()[b];
    let at = chain.index_of(node);
    let rest = after.chains()[b];
    assert(chain.contains(node));
    assert(rest == chain.remove(at));
    if found is Some {
        let i = choose|i: int| #[trigger]
            scan_stops_at(rest, after.items(), after.eq, hash, key, i) && rest[i] == found->0;
        let j = if i < at {
            i
        } else {
            i + 1
        };
        assert(rest[i] == chain[j]);
        assert(before.chains()[b][j] != before.chains()[b][at]);
        assert(before.items().dom().contains(before.chains()[b][j]));
        assert(hit(chain, before.items(), before.eq, hash, key, j));
    }
}

/// Replacing under a key that no node answers is inserting: whatever
/// `hashmap_replace` may do then, `hashmap_insert` may do, report
/// included.
pub proof fn lemma_replace_missing_is_insert<F: Fn(usize, usize) -> isize>(
    before: HashMap<F>,
    after: HashMap<F>,
    hash: usize,
    key: usize,
    entry: usize,
    status: isize,
)
    requires
        replace_outcome(before, after, hash, key, entry, status),
        forall|j: int|
            0 <= j < before.chains()[bucket_of(hash, before.buckets_nr)].len() ==> !hit(
                before.chains()[bucket_of(hash, before.buckets_nr)],
                before.items(),
                before.eq,
                hash,
                key,
                j,
            ),
    ensures
        insert_outcome(before, after, hash, entry, status),
{
}

} // verus!
