//! Packed bit vector over 32-bit words.

use vstd::prelude::*;

verus! {

/// The bit vector: its words and the largest index that may be used.
///
/// The owner sizes `map`; `bitmap_size` gives the bytes needed for a
/// number of bits. Bit `i` lives in word `i / 32` at place `i % 32`.
#[derive(Clone, Debug)]
pub struct BitMap {
    pub map: Vec<u32>,
    pub max_idx: usize,
}

/// Number of bits held by one word of the map.
pub const BITMAP_BLOCK_SIZE: usize = 32;

/// Number of bytes occupied by one word of the map.
pub const BITMAP_BLOCK_BYTES: usize = 4;

/// Number of bytes of backing store needed for `n` bits: the bit count is
/// rounded up to whole words.
pub open spec fn spec_bitmap_size(n: int) -> int {
    (n + 31) / 32 * 4
}

/// Size in bytes of the word array that holds `n` bits.
pub fn bitmap_size(n: usize) -> (bytes: usize)
    ensures
        bytes == spec_bitmap_size(n as int),
{
    let whole: usize = n / BITMAP_BLOCK_SIZE;
    let words: usize = if n % BITMAP_BLOCK_SIZE != 0 {
        whole + 1
    } else {
        whole
    };
    words * BITMAP_BLOCK_BYTES
}

/// Whether place `k` of `word` is set.
pub open spec fn word_bit(word: u32, k: u32) -> bool {
    (word >> k) & 1u32 == 1u32
}

/// `bits` with every index from `first` to `last`, both included, set to
/// `value`.
pub open spec fn fill_range(bits: Seq<bool>, first: int, last: int, value: bool) -> Seq<bool> {
    Seq::new(
        bits.len(),
        |j: int|
            if first <= j <= last {
                value
            } else {
                bits[j]
            },
    )
}

/// What a test of bit `i` reports: `1` if it is set, `0` if it is clear.
pub open spec fn check_value(bits: Seq<bool>, i: int) -> int {
    if bits[i] {
        1
    } else {
        0
    }
}

impl BitMap {
    /// Every index up to `max_idx` has a word behind it.
    pub open spec fn wf(&self) -> bool {
        self.max_idx < self.map@.len() * 32
    }

    /// All bits of the map, by index: 32 for every word.
    pub open spec fn bits(&self) -> Seq<bool> {
        Seq::new(
            self.map@.len() * 32,
            |i: int| word_bit(self.map@[i / 32], (i % 32) as u32),
        )
    }
}

proof fn lemma_word_set(word: u32, k: u32, j: u32)
    requires
        k < 32,
        j < 32,
    ensures
        word_bit(word | (1u32 << k), j) == (j == k || word_bit(word, j)),
{
    assert(((word | (1u32 << k)) >> j) & 1u32 == 1u32 <==> (j == k || (word >> j) & 1u32 == 1u32))
        by (bit_vector)
        requires
            k < 32,
            j < 32,
    ;
}

proof fn lemma_word_clear(word: u32, k: u32, j: u32)
    requires
        k < 32,
        j < 32,
    ensures
        word_bit(word & !(1u32 << k), j) == (j != k && word_bit(word, j)),
{
    assert(((word & !(1u32 << k)) >> j) & 1u32 == 1u32 <==> (j != k && (word >> j) & 1u32 == 1u32))
        by (bit_vector)
        requires
            k < 32,
            j < 32,
    ;
}

proof fn lemma_word_test(word: u32, k: u32)
    requires
        k < 32,
    ensures
        (word & (1u32 << k) != 0) == word_bit(word, k),
{
    assert((word & (1u32 << k) != 0) <==> ((word >> k) & 1u32 == 1u32)) by (bit_vector)
        requires
            k < 32,
    ;
}

proof fn lemma_word_full(j: u32)
    requires
        j < 32,
    ensures
        word_bit(0xFFFF_FFFFu32, j),
        !word_bit(0u32, j),
{
    assert((0xFFFF_FFFFu32 >> j) & 1u32 == 1u32) by (bit_vector)
        requires
            j < 32,
    ;
    assert((0u32 >> j) & 1u32 != 1u32) by (bit_vector)
        requires
            j < 32,
    ;
}

/// Writes `value` to bit `index`.
fn put_bit(bitmap: &mut BitMap, index: usize, value: bool)
    requires
        old(bitmap).wf(),
        index <= old(bitmap).max_idx,
    ensures
        final(bitmap).wf(),
        final(bitmap).max_idx == old(bitmap).max_idx,
        final(bitmap).map@.len() == old(bitmap).map@.len(),
        final(bitmap).bits() == old(bitmap).bits().update(index as int, value),
{
    let block: usize = index / BITMAP_BLOCK_SIZE;
    let place: u32 = (index % BITMAP_BLOCK_SIZE) as u32;
    let word: u32 = bitmap.map[block];
    let mask: u32 = 1u32 << place;
    let fresh: u32 = if value {
        word | mask
    } else {
        word & !mask
    };
    bitmap.map[block] = fresh;
    proof {
        assert forall|i: int| 0 <= i < bitmap.bits().len() implies bitmap.bits()[i] == old(
            bitmap,
        ).bits().update(index as int, value)[i] by {
            if i / 32 == block as int {
                lemma_word_set(word, place, (i % 32) as u32);
                lemma_word_clear(word, place, (i % 32) as u32);
            }
        }
        assert(bitmap.bits() =~= old(bitmap).bits().update(index as int, value));
    }
}

/// Sets bit `index`.
pub fn bitmap_set(bitmap: &mut BitMap, index: usize)
    requires
        old(bitmap).wf(),
        index <= old(bitmap).max_idx,
    ensures
        final(bitmap).wf(),
        final(bitmap).max_idx == old(bitmap).max_idx,
        final(bitmap).bits() == old(bitmap).bits().update(index as int, true),
{
    put_bit(bitmap, index, true);
}

/// Clears bit `index`.
pub fn bitmap_clear(bitmap: &mut BitMap, index: usize)
    requires
        old(bitmap).wf(),
        index <= old(bitmap).max_idx,
    ensures
        final(bitmap).wf(),
        final(bitmap).max_idx == old(bitmap).max_idx,
        final(bitmap).bits() == old(bitmap).bits().update(index as int, false),
{
    put_bit(bitmap, index, false);
}

/// Tests bit `index`: `1` if it is set, `0` if it is clear.
pub fn bitmap_check(bitmap: &BitMap, index: usize) -> (set: isize)
    requires
        bitmap.wf(),
        index <= bitmap.max_idx,
    ensures
        set == check_value(bitmap.bits(), index as int),
{
    let block: usize = index / BITMAP_BLOCK_SIZE;
    let place: u32 = (index % BITMAP_BLOCK_SIZE) as u32;
    let word: u32 = bitmap.map[block];
    proof {
        lemma_word_test(word, place);
    }
    if word & (1u32 << place) != 0 {
        1
    } else {
        0
    }
}

/// Writes `value` to every bit from `findex` to `lindex`, both included:
/// bit by bit up to the first word boundary, then whole words at a time,
/// then bit by bit through the last, partial word.
fn put_range(bitmap: &mut BitMap, findex: usize, lindex: usize, value: bool)
    requires
        old(bitmap).wf(),
        lindex <= old(bitmap).max_idx,
    ensures
        final(bitmap).wf(),
        final(bitmap).max_idx == old(bitmap).max_idx,
        final(bitmap).bits() == fill_range(old(bitmap).bits(), findex as int, lindex as int, value),
{
    let mut i: usize = findex;
    assert(bitmap.bits() =~= fill_range(old(bitmap).bits(), findex as int, i - 1, value));
    while i % BITMAP_BLOCK_SIZE != 0 && i <= lindex
        invariant
            bitmap.wf(),
            bitmap.max_idx == old(bitmap).max_idx,
            bitmap.map@.len() == old(bitmap).map@.len(),
            lindex <= bitmap.max_idx,
            findex <= i,
            i == findex || i <= lindex,
            bitmap.bits() == fill_range(old(bitmap).bits(), findex as int, i - 1, value),
        decreases lindex - i + 1,
    {
        put_bit(bitmap, i, value);
        assert(bitmap.bits() =~= fill_range(old(bitmap).bits(), findex as int, i as int, value));
        if i == lindex {
            return ;
        }
        i = i + 1;
    }
    if i > lindex {
        assert(bitmap.bits() =~= fill_range(
            old(bitmap).bits(),
            findex as int,
            lindex as int,
            value,
        ));
        return ;
    }
    let words: usize = (lindex - i) / BITMAP_BLOCK_SIZE;
    let first: usize = i / BITMAP_BLOCK_SIZE;
    let pattern: u32 = if value {
        0xFFFF_FFFF
    } else {
        0
    };
    let ghost start = i;
    let mut w: usize = 0;
    while w < words
        invariant
            bitmap.wf(),
            bitmap.max_idx == old(bitmap).max_idx,
            bitmap.map@.len() == old(bitmap).map@.len(),
            lindex <= bitmap.max_idx,
            findex <= start <= lindex,
            start == first * 32,
            words == (lindex - start) / 32,
            w <= words,
            pattern == (if value {
                0xFFFF_FFFFu32
            } else {
                0u32
            }),
            bitmap.bits() == fill_range(
                old(bitmap).bits(),
                findex as int,
                start + w * 32 - 1,
                value,
            ),
        decreases words - w,
    {
        let ghost prior = bitmap.bits();
        bitmap.map[first + w] = pattern;
        proof {
            assert forall|j: int| 0 <= j < bitmap.bits().len() implies bitmap.bits()[j]
                == fill_range(old(bitmap).bits(), findex as int, start + (w + 1) * 32 - 1, value)[j] by {
                if j / 32 == first + w {
                    lemma_word_full((j % 32) as u32);
                } else {
                    assert(bitmap.bits()[j] == prior[j]);
                }
            }
            assert(bitmap.bits() =~= fill_range(
                old(bitmap).bits(),
                findex as int,
                start + (w + 1) * 32 - 1,
                value,
            ));
        }
        w = w + 1;
    }
    i = i + words * BITMAP_BLOCK_SIZE;
    loop
        invariant_except_break
            bitmap.bits() == fill_range(old(bitmap).bits(), findex as int, i - 1, value),
        invariant
            bitmap.wf(),
            bitmap.max_idx == old(bitmap).max_idx,
            bitmap.map@.len() == old(bitmap).map@.len(),
            lindex <= bitmap.max_idx,
            findex <= i <= lindex,
        ensures
            bitmap.wf(),
            bitmap.max_idx == old(bitmap).max_idx,
            bitmap.bits() == fill_range(
                old(bitmap).bits(),
                findex as int,
                lindex as int,
                value,
            ),
        decreases lindex - i,
    {
        put_bit(bitmap, i, value);
        assert(bitmap.bits() =~= fill_range(old(bitmap).bits(), findex as int, i as int, value));
        if i == lindex {
            break ;
        }
        i = i + 1;
    }
}

/// Sets every bit from `findex` to `lindex`, both included. Nothing
/// changes where `findex` lies above `lindex`.
pub fn bitmap_set_range(bitmap: &mut BitMap, findex: usize, lindex: usize)
    requires
        old(bitmap).wf(),
        lindex <= old(bitmap).max_idx,
    ensures
        final(bitmap).wf(),
        final(bitmap).max_idx == old(bitmap).max_idx,
        final(bitmap).bits() == fill_range(old(bitmap).bits(), findex as int, lindex as int, true),
{
    put_range(bitmap, findex, lindex, true);
}

/// Clears every bit from `findex` to `lindex`, both included. Nothing
/// changes where `findex` lies above `lindex`.
pub fn bitmap_clear_range(bitmap: &mut BitMap, findex: usize, lindex: usize)
    requires
        old(bitmap).wf(),
        lindex <= old(bitmap).max_idx,
    ensures
        final(bitmap).wf(),
        final(bitmap).max_idx == old(bitmap).max_idx,
        final(bitmap).bits() == fill_range(
            old(bitmap).bits(),
            findex as int,
            lindex as int,
            false,
        ),
{
    put_range(bitmap, findex, lindex, false);
}

/// A bit tests non-zero after it is set and zero after it is cleared,
/// and neither changes what any other bit tests as.
pub proof fn lemma_set_clear_then_check(bits: Seq<bool>, i: int, j: int)
    requires
        0 <= i < bits.len(),
        0 <= j < bits.len(),
    ensures
        check_value(bits.update(i, true), i) != 0,
        check_value(bits.update(i, false), i) == 0,
        j != i ==> check_value(bits.update(i, true), j) == check_value(bits, j),
        j != i ==> check_value(bits.update(i, false), j) == check_value(bits, j),
{
}

/// After a range is set, every bit inside it tests non-zero; after it is
/// cleared, every bit inside it tests zero; either way a bit outside the
/// range tests as it did before.
pub proof fn lemma_range_then_check(bits: Seq<bool>, first: int, last: int, i: int)
    requires
        0 <= i < bits.len(),
    ensures
        first <= i <= last ==> check_value(fill_range(bits, first, last, true), i) != 0,
        first <= i <= last ==> check_value(fill_range(bits, first, last, false), i) == 0,
        !(first <= i <= last) ==> check_value(fill_range(bits, first, last, true), i)
            == check_value(bits, i),
        !(first <= i <= last) ==> check_value(fill_range(bits, first, last, false), i)
            == check_value(bits, i),
{
}

} // verus!
