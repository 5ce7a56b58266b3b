//! Allocation bitmaps: one bit per inode slot or data block.
//!
//! A bitmap occupies a run of blocks. Bit `i` lives in block `i / 4096` of
//! the run, in byte `(i % 4096) / 8`, at position `i % 8`. A set bit means
//! that the unit is allocated.

use vstd::prelude::*;
use crate::block_cache::BlockCache;
use crate::block_dev::BlockDevice;
use crate::layout::{disk_wf, Disk, BLOCK_BITS, BLOCK_SZ};

verus! {

/// Bit `k` of `byte`.
pub open spec fn bit_of(byte: u8, k: u8) -> bool {
    (byte >> k) & 1u8 == 1u8
}

/// `byte` with bit `k` set.
pub open spec fn with_bit(byte: u8, k: u8) -> u8 {
    byte | (1u8 << k)
}

/// `byte` with bit `k` cleared.
pub open spec fn without_bit(byte: u8, k: u8) -> u8 {
    byte & !(1u8 << k)
}

proof fn lemma_with_bit(byte: u8, k: u8, j: u8)
    requires
        k < 8,
        j < 8,
    ensures
        bit_of(with_bit(byte, k), j) == (j == k || bit_of(byte, j)),
        bit_of(without_bit(byte, k), j) == (j != k && bit_of(byte, j)),
{
    assert(((byte | (1u8 << k)) >> j) & 1u8 == 1u8 <==> (j == k || (byte >> j) & 1u8 == 1u8))
        by (bit_vector)
        requires
            k < 8,
            j < 8,
    ;
    assert(((byte & !(1u8 << k)) >> j) & 1u8 == 1u8 <==> (j != k && (byte >> j) & 1u8 == 1u8))
        by (bit_vector)
        requires
            k < 8,
            j < 8,
    ;
}

/// Tests bit `k` of `byte`.
fn get_bit(byte: u8, k: u8) -> (r: bool)
    requires
        k < 8,
    ensures
        r == bit_of(byte, k),
{
    (byte >> k) & 1u8 == 1u8
}

/// The block of the disk that holds bit `i` of the bitmap starting at `start`.
pub open spec fn bit_block(start: int, i: int) -> int {
    start + i / (BLOCK_BITS as int)
}

/// The byte, within its block, that holds bit `i`.
pub open spec fn bit_byte(i: int) -> int {
    (i % (BLOCK_BITS as int)) / 8
}

/// Bit `i` of the bitmap that starts at block `start` of `disk`.
pub open spec fn bit_at(disk: Disk, start: int, i: int) -> bool {
    bit_of(disk[bit_block(start, i)][bit_byte(i)], (i % 8) as u8)
}

/// `disk` with bit `i` of the bitmap at `start` given the value `v`.
pub open spec fn disk_with_bit(disk: Disk, start: int, i: int, v: bool) -> Disk {
    let block = disk[bit_block(start, i)];
    let byte = block[bit_byte(i)];
    let new_byte = if v {
        with_bit(byte, (i % 8) as u8)
    } else {
        without_bit(byte, (i % 8) as u8)
    };
    disk.update(bit_block(start, i), block.update(bit_byte(i), new_byte))
}

/// The number of clear bits among the first `n` of the bitmap at `start`.
pub open spec fn free_count(disk: Disk, start: int, n: int) -> int
    decreases n,
{
    if n <= 0 {
        0
    } else {
        free_count(disk, start, n - 1) + if bit_at(disk, start, n - 1) {
            0int
        } else {
            1int
        }
    }
}

/// Changing one bit changes that bit and no other bit of the bitmap, and no
/// byte of the disk outside the block that holds it.
pub proof fn lemma_disk_with_bit(disk: Disk, start: int, blocks: int, i: int, v: bool)
    requires
        disk_wf(disk),
        0 <= start,
        start + blocks <= disk.len(),
        0 <= i < blocks * BLOCK_BITS,
    ensures
        disk_wf(disk_with_bit(disk, start, i, v)),
        disk_with_bit(disk, start, i, v).len() == disk.len(),
        start <= bit_block(start, i) < start + blocks,
        forall|j: int|
            0 <= j < blocks * BLOCK_BITS ==> #[trigger] bit_at(
                disk_with_bit(disk, start, i, v),
                start,
                j,
            ) == (if j == i {
                v
            } else {
                bit_at(disk, start, j)
            }),
        forall|b: int|
            0 <= b < disk.len() && b != bit_block(start, i) ==> #[trigger] disk_with_bit(
                disk,
                start,
                i,
                v,
            )[b] == disk[b],
{
    let d1 = disk_with_bit(disk, start, i, v);
    let blk = bit_block(start, i);
    let byte = disk[blk][bit_byte(i)];
    assert(disk[blk].len() == BLOCK_SZ);
    assert forall|j: int| 0 <= j < blocks * BLOCK_BITS implies #[trigger] bit_at(d1, start, j) == (
    if j == i {
        v
    } else {
        bit_at(disk, start, j)
    }) by {
        lemma_with_bit(byte, (i % 8) as u8, (j % 8) as u8);
        if bit_block(start, j) == blk && bit_byte(j) == bit_byte(i) {
            if j % 8 == i % 8 {
                assert(j == i);
            }
        }
    }
}

/// The number of clear bits is between zero and the number of bits counted.
pub proof fn lemma_free_count_bounds(disk: Disk, start: int, n: int)
    requires
        0 <= n,
    ensures
        0 <= free_count(disk, start, n) <= n,
    decreases n,
{
    if n > 0 {
        lemma_free_count_bounds(disk, start, n - 1);
    }
}

/// Two disks whose bitmaps agree bit by bit have the same number of clear bits.
pub proof fn lemma_free_count_same(d0: Disk, d1: Disk, start: int, n: int)
    requires
        0 <= n,
        forall|j: int| 0 <= j < n ==> bit_at(d1, start, j) == bit_at(d0, start, j),
    ensures
        free_count(d1, start, n) == free_count(d0, start, n),
    decreases n,
{
    if n > 0 {
        lemma_free_count_same(d0, d1, start, n - 1);
    }
}

/// Flipping one bit changes the number of clear bits by one.
pub proof fn lemma_free_count_flip(d0: Disk, d1: Disk, start: int, n: int, i: int)
    requires
        0 <= n,
        forall|j: int| 0 <= j < n && j != i ==> bit_at(d1, start, j) == bit_at(d0, start, j),
        0 <= i < n ==> bit_at(d1, start, i) != bit_at(d0, start, i),
    ensures
        free_count(d1, start, n) == free_count(d0, start, n) + (if 0 <= i < n {
            if bit_at(d0, start, i) {
                1int
            } else {
                -1int
            }
        } else {
            0int
        }),
    decreases n,
{
    if n > 0 {
        lemma_free_count_flip(d0, d1, start, n - 1, i);
    }
}

/// Where every bit is set, no bit is clear, and the other way round.
pub proof fn lemma_free_count_zero(disk: Disk, start: int, n: int)
    requires
        0 <= n,
    ensures
        free_count(disk, start, n) == 0 <==> (forall|j: int|
            0 <= j < n ==> bit_at(disk, start, j)),
    decreases n,
{
    if n > 0 {
        lemma_free_count_zero(disk, start, n - 1);
        lemma_free_count_bounds(disk, start, n - 1);
        if free_count(disk, start, n) == 0 {
            assert forall|j: int| 0 <= j < n implies bit_at(disk, start, j) by {
                if j < n - 1 {
                } else {
                    assert(j == n - 1);
                }
            }
        }
    }
}

/// A bitmap: a run of blocks on the disk, of which the first `bits` bits
/// are in use.
#[derive(Clone, Copy, Debug)]
pub struct Bitmap {
    pub start_block_id: usize,
    pub blocks: usize,
    pub bits: usize,
}

impl Bitmap {
    /// The number of bits of the bitmap.
    pub open spec fn capacity(&self) -> int {
        self.bits as int
    }

    /// The bitmap lies within a disk of `total` blocks and its bit numbers
    /// fit the `u32` ids that the format stores.
    pub open spec fn wf(&self, total: int) -> bool {
        &&& self.start_block_id + self.blocks <= total
        &&& self.bits <= self.blocks * BLOCK_BITS
        &&& self.bits <= u32::MAX
    }

    /// Bit `i` of this bitmap on `disk`.
    pub open spec fn bit(&self, disk: Disk, i: int) -> bool {
        bit_at(disk, self.start_block_id as int, i)
    }

    /// The number of clear bits of this bitmap on `disk`.
    pub open spec fn free(&self, disk: Disk) -> int {
        free_count(disk, self.start_block_id as int, self.capacity())
    }

    /// A bitmap of `bits` bits in `blocks` blocks from block
    /// `start_block_id` on.
    pub fn new(start_block_id: usize, blocks: usize, bits: usize) -> (bitmap: Bitmap)
        ensures
            bitmap.start_block_id == start_block_id,
            bitmap.blocks == blocks,
            bitmap.bits == bits,
    {
        Bitmap { start_block_id, blocks, bits }
    }

    /// The number of bits of the bitmap.
    pub fn maximum(&self) -> (n: usize)
        ensures
            n == self.capacity(),
    {
        self.bits
    }

    /// Tells whether bit `i` is set.
    pub fn is_set<D: BlockDevice>(&self, cache: &mut BlockCache<D>, i: usize) -> (r: bool)
        requires
            old(cache).wf(),
            self.wf(old(cache)@.len() as int),
            i < self.capacity(),
        ensures
            final(cache).wf(),
            final(cache)@ == old(cache)@,
            r == self.bit(old(cache)@, i as int),
    {
        let total = cache.num_blocks();
        let byte = cache.read_u8(self.start_block_id + i / BLOCK_BITS, (i % BLOCK_BITS) / 8);
        get_bit(byte, (i % 8) as u8)
    }

    /// Sets the lowest clear bit and returns its number, or returns `None`
    /// and changes nothing where every bit is set.
    pub fn alloc_bit<D: BlockDevice>(&self, cache: &mut BlockCache<D>) -> (r: Option<usize>)
        requires
            old(cache).wf(),
            self.wf(old(cache)@.len() as int),
        ensures
            final(cache).wf(),
            match r {
                Some(i) => {
                    &&& i < self.capacity()
                    &&& !self.bit(old(cache)@, i as int)
                    &&& forall|j: int| 0 <= j < i ==> self.bit(old(cache)@, j)
                    &&& final(cache)@ == disk_with_bit(
                        old(cache)@,
                        self.start_block_id as int,
                        i as int,
                        true,
                    )
                },
                None => {
                    &&& forall|j: int| 0 <= j < self.capacity() ==> self.bit(old(cache)@, j)
                    &&& final(cache)@ == old(cache)@
                },
            },
    {
        let n = self.maximum();
        let total = cache.num_blocks();
        let mut i: usize = 0;
        while i < n
            invariant
                i <= n,
                n == self.capacity(),
                cache.wf(),
                cache@ == old(cache)@,
                self.wf(cache@.len() as int),
                total == cache@.len(),
                forall|j: int| 0 <= j < i ==> self.bit(cache@, j),
            decreases n - i,
        {
            let block = self.start_block_id + i / BLOCK_BITS;
            let off = (i % BLOCK_BITS) / 8;
            let byte = cache.read_u8(block, off);
            if !get_bit(byte, (i % 8) as u8) {
                cache.write_u8(block, off, byte | (1u8 << ((i % 8) as u8)));
                return Some(i);
            }
            i += 1;
        }
        None
    }

    /// Clears bit `i`, which must be set.
    pub fn dealloc_bit<D: BlockDevice>(&self, cache: &mut BlockCache<D>, i: usize)
        requires
            old(cache).wf(),
            self.wf(old(cache)@.len() as int),
            i < self.capacity(),
            self.bit(old(cache)@, i as int),
        ensures
            final(cache).wf(),
            final(cache)@ == disk_with_bit(
                old(cache)@,
                self.start_block_id as int,
                i as int,
                false,
            ),
    {
        let total = cache.num_blocks();
        let block = self.start_block_id + i / BLOCK_BITS;
        let off = (i % BLOCK_BITS) / 8;
        let byte = cache.read_u8(block, off);
        cache.write_u8(block, off, byte & !(1u8 << ((i % 8) as u8)));
    }

    /// Counts the clear bits.
    pub fn count_free<D: BlockDevice>(&self, cache: &mut BlockCache<D>) -> (count: usize)
        requires
            old(cache).wf(),
            self.wf(old(cache)@.len() as int),
        ensures
            final(cache).wf(),
            final(cache)@ == old(cache)@,
            count == self.free(old(cache)@),
    {
        let n = self.maximum();
        let mut count: usize = 0;
        let mut i: usize = 0;
        while i < n
            invariant
                i <= n,
                n == self.capacity(),
                cache.wf(),
                cache@ == old(cache)@,
                self.wf(cache@.len() as int),
                count == free_count(cache@, self.start_block_id as int, i as int),
                count <= i,
            decreases n - i,
        {
            let set = self.is_set(cache, i);
            if !set {
                count += 1;
            }
            i += 1;
        }
        count
    }
}

} // verus!
