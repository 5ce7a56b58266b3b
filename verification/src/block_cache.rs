//! A bounded write-back cache of device blocks.
//!
//! The cache owns the device. Every access goes through it, so its view, the
//! device overlaid with the cached copies, is the one coherent content of the
//! disk that the rest of the filesystem reasons about.

use vstd::prelude::*;
use crate::block_dev::BlockDevice;
use crate::layout::{disk_wf, splice, word_at, word_bytes, zeros, Disk, BLOCK_SZ};

verus! {

/// The number of blocks that the cache holds at most.
pub const BLOCK_CACHE_SIZE: usize = 16;

/// One cached block.
pub struct CacheEntry {
    pub block_id: usize,
    pub data: Vec<u8>,
    pub modified: bool,
}

/// The cache together with the device behind it.
pub struct BlockCache<D: BlockDevice> {
    device: D,
    /// Cached blocks, least recently used first.
    entries: Vec<CacheEntry>,
}

/// Block `b` has a copy among `entries`.
pub open spec fn is_cached(entries: Seq<CacheEntry>, b: int) -> bool {
    exists|i: int| 0 <= i < entries.len() && (#[trigger] entries[i]).block_id == b
}

/// The position of the copy of block `b` among `entries`.
pub open spec fn slot_of(entries: Seq<CacheEntry>, b: int) -> int {
    choose|i: int| 0 <= i < entries.len() && (#[trigger] entries[i]).block_id == b
}

/// The content of block `b` as seen through the cache.
pub open spec fn block_through(dev: Disk, entries: Seq<CacheEntry>, b: int) -> Seq<u8> {
    if is_cached(entries, b) {
        entries[slot_of(entries, b)].data@
    } else {
        dev[b]
    }
}

/// The device content overlaid with the cached copies.
pub open spec fn overlay(dev: Disk, entries: Seq<CacheEntry>) -> Disk {
    Seq::new(dev.len(), |b: int| block_through(dev, entries, b))
}

/// What the device may hold after an access through the cache: of each
/// block, what it held before or what the cache showed of it.
pub open spec fn written_back(before: Disk, shown: Disk, after: Disk) -> bool {
    &&& after.len() == before.len()
    &&& forall|b: int|
        0 <= b < after.len() ==> #[trigger] after[b] == before[b] || after[b] == shown[b]
}

/// The cached copies are of distinct blocks of the device, are whole blocks,
/// and differ from the device only where they are marked modified.
pub open spec fn entries_wf(dev: Disk, entries: Seq<CacheEntry>) -> bool {
    &&& entries.len() <= BLOCK_CACHE_SIZE
    &&& forall|i: int|
        0 <= i < entries.len() ==> {
            &&& (#[trigger] entries[i]).block_id < dev.len()
            &&& entries[i].data@.len() == BLOCK_SZ
            &&& (!entries[i].modified ==> entries[i].data@ == dev[entries[i].block_id as int])
        }
    &&& forall|i: int, j: int|
        0 <= i < j < entries.len() ==> (#[trigger] entries[i]).block_id != (
        #[trigger] entries[j]).block_id
}

proof fn lemma_cached_at(dev: Disk, entries: Seq<CacheEntry>, i: int)
    requires
        entries_wf(dev, entries),
        0 <= i < entries.len(),
    ensures
        is_cached(entries, entries[i].block_id as int),
        block_through(dev, entries, entries[i].block_id as int) == entries[i].data@,
{
    let b = entries[i].block_id as int;
    let j = slot_of(entries, b);
    assert(entries[j].block_id == b);
    assert(i == j);
}

/// Replacing the data of one cached copy, marked modified, replaces that
/// block in the overlay and nothing else.
proof fn lemma_overlay_modify(
    dev: Disk,
    entries: Seq<CacheEntry>,
    entries1: Seq<CacheEntry>,
    slot: int,
)
    requires
        entries_wf(dev, entries),
        0 <= slot < entries.len(),
        entries1.len() == entries.len(),
        forall|i: int| 0 <= i < entries.len() && i != slot ==> #[trigger] entries1[i] == entries[i],
        entries1[slot].block_id == entries[slot].block_id,
        entries1[slot].modified,
        entries1[slot].data@.len() == BLOCK_SZ,
    ensures
        entries_wf(dev, entries1),
        overlay(dev, entries1) == overlay(dev, entries).update(
            entries[slot].block_id as int,
            entries1[slot].data@,
        ),
{
    assert(entries_wf(dev, entries1)) by {
        assert forall|a: int, c: int| 0 <= a < c < entries1.len() implies (
        #[trigger] entries1[a]).block_id != (#[trigger] entries1[c]).block_id by {
            assert(entries1[a].block_id == entries[a].block_id);
            assert(entries1[c].block_id == entries[c].block_id);
        }
    }
    let target = entries[slot].block_id as int;
    assert forall|b: int| 0 <= b < dev.len() implies block_through(dev, entries1, b) == (if b
        == target {
        entries1[slot].data@
    } else {
        block_through(dev, entries, b)
    }) by {
        if b == target {
            lemma_cached_at(dev, entries1, slot);
        } else if is_cached(entries, b) {
            let s0 = slot_of(entries, b);
            assert(entries1[s0] == entries[s0]);
            lemma_cached_at(dev, entries1, s0);
        } else if is_cached(entries1, b) {
            let s1 = slot_of(entries1, b);
            assert(entries[s1].block_id == b);
        }
    }
    assert(overlay(dev, entries1) =~= overlay(dev, entries).update(target, entries1[slot].data@));
}

impl<D: BlockDevice> BlockCache<D> {
    /// The cache's invariant.
    pub closed spec fn wf(&self) -> bool {
        &&& disk_wf(self.device.blocks())
        &&& entries_wf(self.device.blocks(), self.entries@)
    }

    /// The content of the disk as seen through the cache.
    pub closed spec fn view(&self) -> Disk {
        overlay(self.device.blocks(), self.entries@)
    }

    /// What the device itself holds, without the modified copies.
    pub closed spec fn durable(&self) -> Disk {
        self.device.blocks()
    }

    /// A well-formed cache shows whole blocks, as many as the device has.
    pub proof fn lemma_view_wf(&self)
        requires
            self.wf(),
        ensures
            disk_wf(self@),
            self@.len() == self.durable().len(),
    {
        let dev = self.device.blocks();
        let entries = self.entries@;
        assert forall|b: int| 0 <= b < self@.len() implies (#[trigger] self@[b]).len()
            == BLOCK_SZ by {
            if is_cached(entries, b) {
                let j = slot_of(entries, b);
                assert(entries[j].data@.len() == BLOCK_SZ);
            }
        }
    }

    /// Puts an empty cache in front of `device`.
    pub fn new(device: D) -> (cache: Self)
        requires
            disk_wf(device.blocks()),
        ensures
            cache.wf(),
            cache@ == device.blocks(),
            cache.durable() == device.blocks(),
    {
        let cache = BlockCache { device, entries: Vec::new() };
        assert(cache@ =~= cache.device.blocks());
        cache
    }

    /// The number of blocks of the device.
    pub fn num_blocks(&self) -> (n: usize)
        requires
            self.wf(),
        ensures
            n == self@.len(),
    {
        self.device.num_blocks()
    }

    /// Makes block `block_id` resident and most recently used, evicting the
    /// least recently used block where the cache is full, and returns its slot.
    fn load(&mut self, block_id: usize) -> (slot: usize)
        requires
            old(self).wf(),
            block_id < old(self)@.len(),
        ensures
            final(self).wf(),
            final(self)@ == old(self)@,
            written_back(old(self).durable(), old(self)@, final(self).durable()),
            slot + 1 == final(self).entries@.len(),
            final(self).entries@[slot as int].block_id == block_id,
    {
        let ghost dev0 = self.device.blocks();
        let ghost entries0 = self.entries@;
        let mut i: usize = 0;
        while i < self.entries.len()
            invariant
                i <= self.entries@.len(),
                self.entries@ == entries0,
                self.device.blocks() == dev0,
                disk_wf(dev0),
                entries_wf(dev0, entries0),
                block_id < dev0.len(),
                old(self)@ == overlay(dev0, entries0),
                old(self).durable() == dev0,
                forall|j: int| 0 <= j < i ==> (#[trigger] self.entries@[j]).block_id != block_id,
            decreases self.entries@.len() - i,
        {
            if self.entries[i].block_id == block_id {
                let entry = self.entries.remove(i);
                self.entries.push(entry);
                proof {
                    let entries1 = self.entries@;
                    assert(entries1 =~= entries0.remove(i as int).push(entries0[i as int]));
                    assert(entries_wf(dev0, entries1)) by {
                        assert forall|a: int| 0 <= a < entries1.len() implies {
                            &&& (#[trigger] entries1[a]).block_id < dev0.len()
                            &&& entries1[a].data@.len() == BLOCK_SZ
                            &&& (!entries1[a].modified ==> entries1[a].data@
                                == dev0[entries1[a].block_id as int])
                        } by {
                            if a < i {
                                assert(entries1[a] == entries0[a]);
                            } else if a < entries1.len() - 1 {
                                assert(entries1[a] == entries0[a + 1]);
                            } else {
                                assert(entries1[a] == entries0[i as int]);
                            }
                        }
                        assert forall|a: int, c: int| 0 <= a < c < entries1.len() implies (
                        #[trigger] entries1[a]).block_id != (#[trigger] entries1[c]).block_id by {
                            let a0 = if a < i { a } else { a + 1 };
                            let c0 = if c < i {
                                c
                            } else if c < entries1.len() - 1 {
                                c + 1
                            } else {
                                i as int
                            };
                            assert(entries1[a] == entries0[a0]);
                            assert(entries1[c] == entries0[c0]);
                        }
                    }
                    assert(overlay(dev0, entries1) =~= overlay(dev0, entries0)) by {
                        assert forall|b: int| 0 <= b < dev0.len() implies block_through(
                            dev0,
                            entries1,
                            b,
                        ) == block_through(dev0, entries0, b) by {
                            if is_cached(entries0, b) {
                                let s0 = slot_of(entries0, b);
                                let s1 = if s0 < i {
                                    s0
                                } else if s0 == i {
                                    entries1.len() - 1
                                } else {
                                    s0 - 1
                                };
                                assert(entries1[s1] == entries0[s0]);
                                lemma_cached_at(dev0, entries1, s1);
                            } else if is_cached(entries1, b) {
                                let s1 = slot_of(entries1, b);
                                let s0 = if s1 < i {
                                    s1
                                } else if s1 < entries1.len() - 1 {
                                    s1 + 1
                                } else {
                                    i as int
                                };
                                assert(entries0[s0] == entries1[s1]);
                            }
                        }
                    }
                }
                return self.entries.len() - 1;
            }
            i += 1;
        }
        assert(!is_cached(entries0, block_id as int));
        if self.entries.len() == BLOCK_CACHE_SIZE {
            let victim = self.entries.remove(0);
            if victim.modified {
                self.device.write_block(victim.block_id, &victim.data);
            }
            proof {
                let dev1 = self.device.blocks();
                let entries1 = self.entries@;
                lemma_cached_at(dev0, entries0, 0);
                assert(written_back(dev0, overlay(dev0, entries0), dev1));
                assert(entries1 =~= entries0.remove(0));
                assert forall|a: int| 0 <= a < entries1.len() implies (#[trigger] entries1[a])
                    == entries0[a + 1] by {}
                assert(disk_wf(dev1));
                assert(entries_wf(dev1, entries1)) by {
                    assert forall|a: int| 0 <= a < entries1.len() implies {
                        &&& (#[trigger] entries1[a]).block_id < dev1.len()
                        &&& entries1[a].data@.len() == BLOCK_SZ
                        &&& (!entries1[a].modified ==> entries1[a].data@
                            == dev1[entries1[a].block_id as int])
                    } by {
                        assert(entries1[a] == entries0[a + 1]);
                    }
                    assert forall|a: int, c: int| 0 <= a < c < entries1.len() implies (
                    #[trigger] entries1[a]).block_id != (#[trigger] entries1[c]).block_id by {
                        assert(entries1[a] == entries0[a + 1]);
                        assert(entries1[c] == entries0[c + 1]);
                    }
                }
                assert(overlay(dev1, entries1) =~= overlay(dev0, entries0)) by {
                    assert forall|b: int| 0 <= b < dev0.len() implies block_through(
                        dev1,
                        entries1,
                        b,
                    ) == block_through(dev0, entries0, b) by {
                        if is_cached(entries1, b) {
                            let s1 = slot_of(entries1, b);
                            assert(entries1[s1] == entries0[s1 + 1]);
                            lemma_cached_at(dev0, entries0, s1 + 1);
                        } else if is_cached(entries0, b) {
                            let s0 = slot_of(entries0, b);
                            if s0 > 0 {
                                assert(entries1[s0 - 1] == entries0[s0]);
                            }
                        }
                    }
                }
            }
        }
        let ghost dev1 = self.device.blocks();
        let ghost entries1 = self.entries@;
        assert(written_back(dev0, overlay(dev0, entries0), dev1));
        assert(!is_cached(entries1, block_id as int)) by {
            if is_cached(entries1, block_id as int) {
                let s1 = slot_of(entries1, block_id as int);
                if entries1.len() == entries0.len() {
                    assert(entries1[s1] == entries0[s1]);
                } else {
                    assert(entries1[s1] == entries0[s1 + 1]);
                }
            }
        }
        let data = self.device.read_block(block_id);
        self.entries.push(CacheEntry { block_id, data, modified: false });
        proof {
            let entries2 = self.entries@;
            assert forall|a: int| 0 <= a < entries1.len() implies (#[trigger] entries2[a])
                == entries1[a] by {}
            assert(entries_wf(dev1, entries2));
            assert(overlay(dev1, entries2) =~= overlay(dev1, entries1)) by {
                assert forall|b: int| 0 <= b < dev1.len() implies block_through(dev1, entries2, b)
                    == block_through(dev1, entries1, b) by {
                    if is_cached(entries1, b) {
                        let s1 = slot_of(entries1, b);
                        assert(entries2[s1] == entries1[s1]);
                        lemma_cached_at(dev1, entries2, s1);
                    } else if is_cached(entries2, b) {
                        let s2 = slot_of(entries2, b);
                        if s2 < entries1.len() {
                            assert(entries2[s2] == entries1[s2]);
                        }
                    }
                }
            }
        }
        self.entries.len() - 1
    }

    /// Reads the byte at `off` of block `block_id`.
    pub fn read_u8(&mut self, block_id: usize, off: usize) -> (v: u8)
        requires
            old(self).wf(),
            block_id < old(self)@.len(),
            off < BLOCK_SZ,
        ensures
            final(self).wf(),
            written_back(old(self).durable(), old(self)@, final(self).durable()),
            final(self)@ == old(self)@,
            v == old(self)@[block_id as int][off as int],
    {
        let slot = self.load(block_id);
        proof {
            lemma_cached_at(self.device.blocks(), self.entries@, slot as int);
        }
        self.entries[slot].data[off]
    }

    /// Reads the little-endian word at `off` of block `block_id`.
    pub fn read_u32(&mut self, block_id: usize, off: usize) -> (v: u32)
        requires
            old(self).wf(),
            block_id < old(self)@.len(),
            off + 4 <= BLOCK_SZ,
        ensures
            final(self).wf(),
            written_back(old(self).durable(), old(self)@, final(self).durable()),
            final(self)@ == old(self)@,
            v == word_at(old(self)@[block_id as int], off as int),
    {
        let slot = self.load(block_id);
        proof {
            lemma_cached_at(self.device.blocks(), self.entries@, slot as int);
        }
        let entry = &self.entries[slot];
        let b0: u32 = entry.data[off] as u32;
        let b1: u32 = entry.data[off + 1] as u32;
        let b2: u32 = entry.data[off + 2] as u32;
        let b3: u32 = entry.data[off + 3] as u32;
        b0 + 256 * b1 + 65536 * b2 + 16777216 * b3
    }

    /// Copies `len` bytes of block `block_id`, from `off` on, into `buf`
    /// from `dst` on.
    pub fn read_range(
        &mut self,
        block_id: usize,
        off: usize,
        buf: &mut Vec<u8>,
        dst: usize,
        len: usize,
    )
        requires
            old(self).wf(),
            block_id < old(self)@.len(),
            off + len <= BLOCK_SZ,
            dst + len <= old(buf)@.len(),
        ensures
            final(self).wf(),
            written_back(old(self).durable(), old(self)@, final(self).durable()),
            final(self)@ == old(self)@,
            final(buf)@ == splice(
                old(buf)@,
                dst as int,
                old(self)@[block_id as int].subrange(off as int, off + len),
            ),
    {
        let slot = self.load(block_id);
        proof {
            lemma_cached_at(self.device.blocks(), self.entries@, slot as int);
        }
        let ghost block = self@[block_id as int];
        let ghost buf0 = buf@;
        let buf_len = buf.len();
        let mut i: usize = 0;
        while i < len
            invariant
                i <= len,
                off + len <= BLOCK_SZ,
                dst + len <= buf0.len(),
                slot < self.entries@.len(),
                self.entries@[slot as int].data@ == block,
                block.len() == BLOCK_SZ,
                buf@.len() == buf_len,
                buf0.len() == buf_len,
                buf@ == splice(buf0, dst as int, block.subrange(off as int, off + i)),
            decreases len - i,
        {
            let v = self.entries[slot].data[off + i];
            buf[dst + i] = v;
            i += 1;
            assert(buf@ =~= splice(buf0, dst as int, block.subrange(off as int, off + i)));
        }
    }

    /// Stores `v` at `off` of block `block_id`.
    pub fn write_u8(&mut self, block_id: usize, off: usize, v: u8)
        requires
            old(self).wf(),
            block_id < old(self)@.len(),
            off < BLOCK_SZ,
        ensures
            final(self).wf(),
            written_back(old(self).durable(), old(self)@, final(self).durable()),
            final(self)@ == old(self)@.update(
                block_id as int,
                old(self)@[block_id as int].update(off as int, v),
            ),
    {
        let slot = self.load(block_id);
        let ghost entries0 = self.entries@;
        proof {
            lemma_cached_at(self.device.blocks(), entries0, slot as int);
        }
        let mut entry = self.entries.pop().unwrap();
        entry.data[off] = v;
        entry.modified = true;
        self.entries.push(entry);
        proof {
            lemma_overlay_modify(self.device.blocks(), entries0, self.entries@, slot as int);
        }
    }

    /// Stores `v` as a little-endian word at `off` of block `block_id`.
    pub fn write_u32(&mut self, block_id: usize, off: usize, v: u32)
        requires
            old(self).wf(),
            block_id < old(self)@.len(),
            off + 4 <= BLOCK_SZ,
        ensures
            final(self).wf(),
            written_back(old(self).durable(), old(self)@, final(self).durable()),
            final(self)@ == old(self)@.update(
                block_id as int,
                splice(old(self)@[block_id as int], off as int, word_bytes(v)),
            ),
    {
        let slot = self.load(block_id);
        let ghost entries0 = self.entries@;
        proof {
            lemma_cached_at(self.device.blocks(), entries0, slot as int);
        }
        let mut entry = self.entries.pop().unwrap();
        let ghost data0 = entry.data@;
        entry.data[off] = (v % 256) as u8;
        entry.data[off + 1] = ((v / 256) % 256) as u8;
        entry.data[off + 2] = ((v / 65536) % 256) as u8;
        entry.data[off + 3] = ((v / 16777216) % 256) as u8;
        entry.modified = true;
        assert(entry.data@ =~= splice(data0, off as int, word_bytes(v)));
        self.entries.push(entry);
        proof {
            lemma_overlay_modify(self.device.blocks(), entries0, self.entries@, slot as int);
        }
    }

    /// Copies `len` bytes of `src`, from `start` on, into block `block_id`
    /// from `off` on.
    pub fn write_range(&mut self, block_id: usize, off: usize, src: &[u8], start: usize, len: usize)
        requires
            old(self).wf(),
            block_id < old(self)@.len(),
            off + len <= BLOCK_SZ,
            start + len <= src@.len(),
        ensures
            final(self).wf(),
            written_back(old(self).durable(), old(self)@, final(self).durable()),
            final(self)@ == old(self)@.update(
                block_id as int,
                splice(
                    old(self)@[block_id as int],
                    off as int,
                    src@.subrange(start as int, start + len),
                ),
            ),
    {
        let slot = self.load(block_id);
        let ghost entries0 = self.entries@;
        proof {
            lemma_cached_at(self.device.blocks(), entries0, slot as int);
        }
        let mut entry = self.entries.pop().unwrap();
        let ghost data0 = entry.data@;
        let src_len = src.len();
        let mut i: usize = 0;
        while i < len
            invariant
                i <= len,
                off + len <= BLOCK_SZ,
                start + len <= src@.len(),
                src@.len() == src_len,
                data0.len() == BLOCK_SZ,
                slot < entries0.len(),
                entry.block_id == entries0[slot as int].block_id,
                entry.data@ == splice(data0, off as int, src@.subrange(start as int, start + i)),
            decreases len - i,
        {
            entry.data[off + i] = src[start + i];
            i += 1;
            assert(entry.data@ =~= splice(
                data0,
                off as int,
                src@.subrange(start as int, start + i),
            ));
        }
        entry.modified = true;
        self.entries.push(entry);
        proof {
            lemma_overlay_modify(self.device.blocks(), entries0, self.entries@, slot as int);
        }
    }

    /// Sets `len` bytes of block `block_id`, from `off` on, to zero.
    pub fn fill_zero(&mut self, block_id: usize, off: usize, len: usize)
        requires
            old(self).wf(),
            block_id < old(self)@.len(),
            off + len <= BLOCK_SZ,
        ensures
            final(self).wf(),
            written_back(old(self).durable(), old(self)@, final(self).durable()),
            final(self)@ == old(self)@.update(
                block_id as int,
                splice(old(self)@[block_id as int], off as int, zeros(len as int)),
            ),
    {
        let slot = self.load(block_id);
        let ghost entries0 = self.entries@;
        proof {
            lemma_cached_at(self.device.blocks(), entries0, slot as int);
        }
        let mut entry = self.entries.pop().unwrap();
        let ghost data0 = entry.data@;
        let mut i: usize = 0;
        while i < len
            invariant
                i <= len,
                off + len <= BLOCK_SZ,
                data0.len() == BLOCK_SZ,
                slot < entries0.len(),
                entry.block_id == entries0[slot as int].block_id,
                entry.data@ == splice(data0, off as int, zeros(i as int)),
            decreases len - i,
        {
            entry.data[off + i] = 0u8;
            i += 1;
            assert(entry.data@ =~= splice(data0, off as int, zeros(i as int)));
        }
        entry.modified = true;
        self.entries.push(entry);
        proof {
            lemma_overlay_modify(self.device.blocks(), entries0, self.entries@, slot as int);
        }
    }

    /// Writes the modified copy of block `block_id`, if there is one, to
    /// the device.
    pub fn flush_block(&mut self, block_id: usize)
        requires
            old(self).wf(),
            block_id < old(self)@.len(),
        ensures
            final(self).wf(),
            final(self)@ == old(self)@,
            final(self).durable() == old(self).durable().update(
                block_id as int,
                old(self)@[block_id as int],
            ),
    {
        let ghost dev0 = self.device.blocks();
        let ghost entries0 = self.entries@;
        let mut i: usize = 0;
        while i < self.entries.len()
            invariant
                i <= self.entries@.len(),
                self.entries@ == entries0,
                self.device.blocks() == dev0,
                disk_wf(dev0),
                entries_wf(dev0, entries0),
                block_id < dev0.len(),
                old(self)@ == overlay(dev0, entries0),
                old(self).durable() == dev0,
                forall|j: int| 0 <= j < i ==> (#[trigger] self.entries@[j]).block_id != block_id,
            decreases self.entries@.len() - i,
        {
            if self.entries[i].block_id == block_id {
                proof {
                    lemma_cached_at(dev0, entries0, i as int);
                }
                if self.entries[i].modified {
                    self.device.write_block(block_id, &self.entries[i].data);
                    self.entries[i].modified = false;
                }
                proof {
                    let dev1 = self.device.blocks();
                    let entries1 = self.entries@;
                    assert(dev1 =~= dev0.update(block_id as int, entries0[i as int].data@));
                    assert forall|a: int| 0 <= a < entries1.len() implies (
                    #[trigger] entries1[a]).block_id == entries0[a].block_id && entries1[a].data
                        == entries0[a].data && (a != i ==> entries1[a] == entries0[a]) by {}
                    assert(entries_wf(dev1, entries1));
                    assert(overlay(dev1, entries1) =~= overlay(dev0, entries0)) by {
                        assert forall|b: int| 0 <= b < dev0.len() implies block_through(
                            dev1,
                            entries1,
                            b,
                        ) == block_through(dev0, entries0, b) by {
                            if is_cached(entries0, b) {
                                let s0 = slot_of(entries0, b);
                                assert(entries1[s0].block_id == b);
                                lemma_cached_at(dev1, entries1, s0);
                            } else if is_cached(entries1, b) {
                                let s1 = slot_of(entries1, b);
                                assert(entries0[s1].block_id == b);
                            }
                        }
                    }
                }
                return ;
            }
            i += 1;
        }
        proof {
            assert(!is_cached(entries0, block_id as int));
            assert(dev0 =~= dev0.update(block_id as int, self@[block_id as int]));
        }
    }

    /// Writes every modified copy to the device.
    pub fn sync_all(&mut self)
        requires
            old(self).wf(),
        ensures
            final(self).wf(),
            final(self)@ == old(self)@,
            final(self).durable() == old(self)@,
    {
        let n = self.device.num_blocks();
        let ghost view0 = self@;
        proof {
            self.lemma_view_wf();
        }
        let mut b: usize = 0;
        while b < n
            invariant
                b <= n,
                n == view0.len(),
                self.wf(),
                self@ == view0,
                self.durable().len() == n,
                forall|c: int| 0 <= c < b ==> #[trigger] self.durable()[c] == view0[c],
                forall|c: int|
                    b <= c < n && !is_cached(self.entries@, c) ==> #[trigger] self.durable()[c]
                        == view0[c],
            decreases n - b,
        {
            self.flush_block(b);
            b += 1;
        }
        assert(self.durable() =~= view0);
    }

    /// Gives the device back, with every modified copy written to it.
    pub fn into_device(self) -> (device: D)
        requires
            self.wf(),
        ensures
            device.blocks() == self@,
    {
        let mut cache = self;
        cache.sync_all();
        cache.device
    }
}

} // verus!
