//! The filesystem: the layout of the disk, the two allocation bitmaps, and
//! what it means for the disk to hold a consistent filesystem.
//!
//! Block 0 is the superblock. It is followed by the inode bitmap, the data
//! bitmap, the inode region and the data region, in this order and without
//! gaps. The inode region holds four inode records per block.

use vstd::prelude::*;
use crate::bitmap::{
    bit_at, bit_of, disk_with_bit, free_count, lemma_disk_with_bit, lemma_free_count_bounds,
    lemma_free_count_flip, lemma_free_count_same, lemma_free_count_zero, Bitmap,
};
use crate::block_cache::BlockCache;
use crate::block_dev::BlockDevice;
use crate::dirent::{count_refs, dir_entries, unique_names, EntryView};
use crate::disk_inode::{
    added, among, disk_with_rec, dropped, grown, lemma_chain_frame, lemma_disk_with_rec, lemma_index_count_mono,
    rec_at, shrunk, spec_data_blocks, valid_slot, written, DiskInode, DiskInodeType, InodeRec,
};
use crate::journal::{Journal, TxState};
use crate::layout::{
    disk_wf, word_at, zeros, Disk, BLOCK_BITS, BLOCK_SZ, DIRENT_SZ, INODES_PER_BLOCK, INODE_SZ,
    MAX_FILE_SIZE,
};

verus! {

/// The number that marks a superblock.
pub const EFS_MAGIC: u32 = 0x3b800001;

/// The extents of the regions of the disk, in blocks.
#[derive(Clone, Copy, Debug)]
pub struct Layout {
    pub total_blocks: u32,
    pub inode_bitmap_blocks: u32,
    pub data_bitmap_blocks: u32,
    pub inode_area_blocks: u32,
    pub data_area_blocks: u32,
}

impl Layout {
    /// The first block of the inode bitmap.
    pub open spec fn inode_bitmap_start(&self) -> int {
        1
    }

    /// The first block of the data bitmap.
    pub open spec fn data_bitmap_start(&self) -> int {
        1 + self.inode_bitmap_blocks
    }

    /// The first block of the inode region.
    pub open spec fn inode_area_start(&self) -> int {
        1 + self.inode_bitmap_blocks + self.data_bitmap_blocks
    }

    /// The first block of the data region.
    pub open spec fn data_area_start(&self) -> int {
        1 + self.inode_bitmap_blocks + self.data_bitmap_blocks + self.inode_area_blocks
    }

    /// The number of inode slots.
    pub open spec fn inode_count(&self) -> int {
        self.inode_area_blocks * INODES_PER_BLOCK
    }

    /// The four regions and the superblock partition the disk, and each
    /// bitmap has a bit for every unit of its region.
    pub open spec fn valid(&self) -> bool {
        &&& self.inode_bitmap_blocks >= 1
        &&& self.inode_area_blocks >= 1
        &&& self.inode_count() <= self.inode_bitmap_blocks * BLOCK_BITS
        &&& self.inode_count() <= u32::MAX
        &&& self.data_area_blocks <= self.data_bitmap_blocks * BLOCK_BITS
        &&& self.data_area_start() + self.data_area_blocks == self.total_blocks
    }

    /// The block that holds the record of inode `id`.
    pub open spec fn inode_block(&self, id: int) -> int {
        self.inode_area_start() + id / (INODES_PER_BLOCK as int)
    }

    /// The byte, within its block, at which the record of inode `id` starts.
    pub open spec fn inode_offset(id: int) -> int {
        (id % (INODES_PER_BLOCK as int)) * INODE_SZ
    }

    /// Block `b` lies in the data region.
    pub open spec fn in_data_area(&self, b: int) -> bool {
        self.data_area_start() <= b < self.total_blocks
    }
}

/// The layout that the superblock `block` describes.
pub open spec fn superblock_layout(block: Seq<u8>) -> Layout {
    Layout {
        total_blocks: word_at(block, 4),
        inode_bitmap_blocks: word_at(block, 8),
        data_bitmap_blocks: word_at(block, 12),
        inode_area_blocks: word_at(block, 16),
        data_area_blocks: word_at(block, 20),
    }
}

/// Block 0 of `d` is a superblock that describes the layout `l`.
pub open spec fn superblock_ok(l: Layout, d: Disk) -> bool {
    &&& word_at(d[0], 0) == EFS_MAGIC
    &&& superblock_layout(d[0]) == l
}

/// Inode slot `id` is allocated.
pub open spec fn inode_used(l: Layout, d: Disk, id: int) -> bool {
    0 <= id < l.inode_count() && bit_at(d, l.inode_bitmap_start(), id)
}

/// Block `b` is a block of the data region and is allocated.
pub open spec fn data_used(l: Layout, d: Disk, b: int) -> bool {
    l.in_data_area(b) && bit_at(d, l.data_bitmap_start(), b - l.data_area_start())
}

/// The record of inode `id`.
pub open spec fn node(l: Layout, d: Disk, id: int) -> InodeRec {
    rec_at(d, l.inode_block(id), Layout::inode_offset(id))
}

/// The record of inode `id`, where the record of inode `i0` is taken to be
/// `r0` whatever the disk holds: the record that an operation under way has
/// in memory and has not stored yet.
pub open spec fn node_or(l: Layout, d: Disk, i0: int, r0: InodeRec, id: int) -> InodeRec {
    if id == i0 {
        r0
    } else {
        node(l, d, id)
    }
}

/// The block in slot `s` of the chain of inode `id`.
pub open spec fn islot(l: Layout, d: Disk, i0: int, r0: InodeRec, id: int, s: int) -> int {
    node_or(l, d, i0, r0, id).slot(d, s)
}

/// The number of data blocks of the file that `r` describes.
pub open spec fn nblocks(r: InodeRec) -> int {
    spec_data_blocks(r.size as int)
}

/// The number of free blocks of the data region.
pub open spec fn free_data(l: Layout, d: Disk) -> int {
    free_count(d, l.data_bitmap_start(), l.data_area_blocks as int)
}

/// The number of free inode slots.
pub open spec fn free_inodes(l: Layout, d: Disk) -> int {
    free_count(d, l.inode_bitmap_start(), l.inode_count())
}

/// The chain of the record `r` is sound and made of allocated blocks of
/// the data region, and the pointers that it does not use are zero.
pub open spec fn node_ok(l: Layout, d: Disk, r: InodeRec) -> bool {
    &&& r.size <= MAX_FILE_SIZE
    &&& r.chain_wf(d, nblocks(r))
    &&& r.tidy(nblocks(r))
    &&& forall|s: int| valid_slot(nblocks(r), s) ==> data_used(l, d, #[trigger] r.slot(d, s))
}

/// The chains of all allocated inodes are sound and share no block.
#[verifier::opaque]
pub open spec fn chains_ok(l: Layout, d: Disk, i0: int, r0: InodeRec) -> bool {
    &&& forall|i: int| inode_used(l, d, i) ==> node_ok(l, d, #[trigger] node_or(l, d, i0, r0, i))
    &&& forall|i: int, j: int, s: int, t: int|
        inode_used(l, d, i) && inode_used(l, d, j) && i != j && valid_slot(
            nblocks(node_or(l, d, i0, r0, i)),
            s,
        ) && valid_slot(nblocks(node_or(l, d, i0, r0, j)), t) ==> #[trigger] islot(
            l,
            d,
            i0,
            r0,
            i,
            s,
        ) != #[trigger] islot(l, d, i0, r0, j, t)
}

/// The entries of the root directory.
pub open spec fn root_entries(l: Layout, d: Disk) -> Seq<EntryView> {
    dir_entries(node(l, d, 0).content(d))
}

/// Inode 0 is the root directory, whose entries bind distinct names to
/// allocated files; every other allocated inode is a file whose link count
/// is the number of entries bound to it.
#[verifier::opaque]
pub open spec fn links_ok(l: Layout, d: Disk) -> bool {
    let entries = root_entries(l, d);
    &&& inode_used(l, d, 0)
    &&& node(l, d, 0).kind == DiskInodeType::Directory
    &&& node(l, d, 0).size as int % (DIRENT_SZ as int) == 0
    &&& unique_names(entries)
    &&& forall|e: int|
        0 <= e < entries.len() ==> (#[trigger] entries[e]).inode >= 1 && inode_used(
            l,
            d,
            entries[e].inode as int,
        )
    &&& forall|i: int|
        1 <= i && inode_used(l, d, i) ==> (#[trigger] node(l, d, i)).kind == DiskInodeType::File
            && node(l, d, i).link_count == count_refs(entries, i)
}

/// The disk holds a consistent filesystem of layout `l`.
pub open spec fn consistent(l: Layout, d: Disk) -> bool {
    &&& disk_wf(d)
    &&& l.valid()
    &&& d.len() == l.total_blocks
    &&& superblock_ok(l, d)
    &&& chains_ok(l, d, 0, node(l, d, 0))
    &&& links_ok(l, d)
}

/// What the filesystem holds for one allocated inode.
pub struct NodeView {
    pub kind: DiskInodeType,
    pub link_count: nat,
    pub content: Seq<u8>,
}

/// What inode `id` holds.
pub open spec fn node_view(l: Layout, d: Disk, id: int) -> NodeView {
    NodeView {
        kind: node(l, d, id).kind,
        link_count: node(l, d, id).link_count as nat,
        content: node(l, d, id).content(d),
    }
}

/// What the filesystem holds: for each allocated inode, its type, its link
/// count and its bytes.
pub open spec fn fs_view(l: Layout, d: Disk) -> Map<int, NodeView> {
    Map::new(|id: int| inode_used(l, d, id), |id: int| node_view(l, d, id))
}

/// Between `d0` and `d1` no inode but `i0` changed: the records, the
/// allocation of the inode slots and the bytes of the files are the same.
pub open spec fn others_same(l: Layout, d0: Disk, d1: Disk, i0: int) -> bool {
    &&& forall|id: int|
        0 <= id < l.inode_count() && id != i0 ==> #[trigger] node(l, d1, id) == node(l, d0, id)
    &&& forall|id: int| id != i0 ==> #[trigger] inode_used(l, d1, id) == inode_used(l, d0, id)
    &&& forall|id: int|
        inode_used(l, d0, id) && id != i0 ==> (#[trigger] node(l, d1, id)).content(d1) == node(
            l,
            d0,
            id,
        ).content(d0)
    &&& forall|id: int, s: int|
        inode_used(l, d0, id) && id != i0 && valid_slot(nblocks(node(l, d0, id)), s)
            ==> #[trigger] node(l, d1, id).slot(d1, s) == node(l, d0, id).slot(d0, s)
}

/// Between `d0`, where the file has the record `r0`, and `d1`, where it
/// has the record `r1`, the data bitmap followed the chain of the file: the
/// blocks in the slots that the chain has before and after are the same,
/// the blocks in the slots that it lost were released, the blocks in the
/// slots that it gained were free and were allocated, and no other block
/// was allocated or released.
#[verifier::opaque]
pub open spec fn blocks_follow(l: Layout, d0: Disk, r0: InodeRec, d1: Disk, r1: InodeRec) -> bool {
    let n0 = nblocks(r0);
    let n1 = nblocks(r1);
    &&& forall|s: int|
        valid_slot(n0, s) && valid_slot(n1, s) ==> #[trigger] r1.slot(d1, s) == r0.slot(d0, s)
    &&& forall|b: int|
        l.in_data_area(b) ==> (#[trigger] data_used(l, d1, b) <==> (data_used(l, d0, b) && !dropped(
            r0,
            d0,
            n0,
            n1,
            b,
        )) || added(r1, d1, n0, n1, b))
    &&& forall|b: int| added(r1, d1, n0, n1, b) ==> !#[trigger] data_used(l, d0, b)
}

/// Between `d0`, where the file has the record `r0`, and `d1`, where it
/// has the record `r1`, the chain of the file and the data bitmap are the
/// same.
#[verifier::opaque]
pub open spec fn blocks_same(l: Layout, d0: Disk, r0: InodeRec, d1: Disk, r1: InodeRec) -> bool {
    &&& nblocks(r1) == nblocks(r0)
    &&& forall|s: int|
        valid_slot(nblocks(r0), s) ==> #[trigger] r1.slot(d1, s) == r0.slot(d0, s)
    &&& forall|b: int| #[trigger] data_used(l, d1, b) == data_used(l, d0, b)
}

/// A chain and a bitmap that are the same have followed one another.
pub proof fn lemma_same_follows(l: Layout, d0: Disk, r0: InodeRec, d1: Disk, r1: InodeRec)
    requires
        blocks_same(l, d0, r0, d1, r1),
    ensures
        blocks_follow(l, d0, r0, d1, r1),
{
    reveal(blocks_follow);
    reveal(blocks_same);
}

/// Nothing changed is the chain and the bitmap the same.
pub proof fn lemma_same_refl(l: Layout, d: Disk, r: InodeRec)
    ensures
        blocks_same(l, d, r, d, r),
{
    reveal(blocks_same);
}

/// Steps that keep the chain and the bitmap do so one after the other.
pub proof fn lemma_same_trans(
    l: Layout,
    d0: Disk,
    r0: InodeRec,
    d1: Disk,
    r1: InodeRec,
    d2: Disk,
    r2: InodeRec,
)
    requires
        blocks_same(l, d0, r0, d1, r1),
        blocks_same(l, d1, r1, d2, r2),
    ensures
        blocks_same(l, d0, r0, d2, r2),
{
    reveal(blocks_same);
    assert forall|s: int| valid_slot(nblocks(r0), s) implies #[trigger] r2.slot(d2, s) == r0.slot(
        d0,
        s,
    ) by {
        assert(r1.slot(d1, s) == r0.slot(d0, s));
    }
    assert forall|b: int| #[trigger] data_used(l, d2, b) == data_used(l, d0, b) by {
        assert(data_used(l, d1, b) == data_used(l, d0, b));
    }
}

/// A step in which the bitmap followed the chain, and then a step that kept
/// both, is a step in which the bitmap followed the chain.
pub proof fn lemma_follow_then_same(
    l: Layout,
    d0: Disk,
    r0: InodeRec,
    d1: Disk,
    r1: InodeRec,
    d2: Disk,
    r2: InodeRec,
)
    requires
        blocks_follow(l, d0, r0, d1, r1),
        blocks_same(l, d1, r1, d2, r2),
    ensures
        blocks_follow(l, d0, r0, d2, r2),
{
    reveal(blocks_follow);
    reveal(blocks_same);
    let n0 = nblocks(r0);
    let n1 = nblocks(r1);
    assert forall|s: int| valid_slot(n0, s) && valid_slot(n1, s) implies #[trigger] r2.slot(d2, s)
        == r0.slot(d0, s) by {
        assert(r1.slot(d1, s) == r0.slot(d0, s));
    }
    assert forall|b: int| added(r2, d2, n0, n1, b) <==> added(r1, d1, n0, n1, b) by {
        if added(r2, d2, n0, n1, b) {
            let s = choose|s: int|
                valid_slot(n1, s) && !valid_slot(n0, s) && #[trigger] r2.slot(d2, s) == b;
            assert(r1.slot(d1, s) == b);
        }
        if added(r1, d1, n0, n1, b) {
            let s = choose|s: int|
                valid_slot(n1, s) && !valid_slot(n0, s) && #[trigger] r1.slot(d1, s) == b;
            assert(r2.slot(d2, s) == b);
        }
    }
    assert forall|b: int| l.in_data_area(b) implies (#[trigger] data_used(l, d2, b) <==> (data_used(
        l,
        d0,
        b,
    ) && !dropped(r0, d0, n0, n1, b)) || added(r2, d2, n0, n1, b)) by {
        assert(data_used(l, d2, b) == data_used(l, d1, b));
        assert(added(r2, d2, n0, n1, b) <==> added(r1, d1, n0, n1, b));
    }
    assert forall|b: int| added(r2, d2, n0, n1, b) implies !#[trigger] data_used(l, d0, b) by {
        assert(added(r2, d2, n0, n1, b) <==> added(r1, d1, n0, n1, b));
    }
}

/// A step that kept the chain and the bitmap, and then a step in which the
/// bitmap followed the chain, is a step in which the bitmap followed the
/// chain.
pub proof fn lemma_same_then_follow(
    l: Layout,
    d0: Disk,
    r0: InodeRec,
    d1: Disk,
    r1: InodeRec,
    d2: Disk,
    r2: InodeRec,
)
    requires
        blocks_same(l, d0, r0, d1, r1),
        blocks_follow(l, d1, r1, d2, r2),
    ensures
        blocks_follow(l, d0, r0, d2, r2),
{
    reveal(blocks_follow);
    reveal(blocks_same);
    let n0 = nblocks(r0);
    let n2 = nblocks(r2);
    assert forall|s: int| valid_slot(n0, s) && valid_slot(n2, s) implies #[trigger] r2.slot(d2, s)
        == r0.slot(d0, s) by {
        assert(r1.slot(d1, s) == r0.slot(d0, s));
    }
    assert forall|b: int| dropped(r0, d0, n0, n2, b) <==> dropped(r1, d1, n0, n2, b) by {
        if dropped(r0, d0, n0, n2, b) {
            let s = choose|s: int|
                valid_slot(n0, s) && !valid_slot(n2, s) && #[trigger] r0.slot(d0, s) == b;
            assert(r1.slot(d1, s) == b);
        }
        if dropped(r1, d1, n0, n2, b) {
            let s = choose|s: int|
                valid_slot(n0, s) && !valid_slot(n2, s) && #[trigger] r1.slot(d1, s) == b;
            assert(r0.slot(d0, s) == b);
        }
    }
    assert forall|b: int| l.in_data_area(b) implies (#[trigger] data_used(l, d2, b) <==> (data_used(
        l,
        d0,
        b,
    ) && !dropped(r0, d0, n0, n2, b)) || added(r2, d2, n0, n2, b)) by {
        assert(data_used(l, d1, b) == data_used(l, d0, b));
        assert(dropped(r0, d0, n0, n2, b) <==> dropped(r1, d1, n0, n2, b));
    }
    assert forall|b: int| added(r2, d2, n0, n2, b) implies !#[trigger] data_used(l, d0, b) by {
        assert(data_used(l, d1, b) == data_used(l, d0, b));
    }
}

/// An inode that a step left alone, in a step that left the data bitmap
/// alone, has the chain and the bitmap that it had.
pub proof fn lemma_other_blocks_same(l: Layout, d0: Disk, d1: Disk, i0: int, id: int)
    requires
        others_same(l, d0, d1, i0),
        id != i0,
        inode_used(l, d0, id),
        forall|b: int| #[trigger] data_used(l, d1, b) == data_used(l, d0, b),
    ensures
        blocks_same(l, d0, node(l, d0, id), d1, node(l, d1, id)),
{
    reveal(blocks_same);
    assert(node(l, d1, id) == node(l, d0, id));
}

/// Growing a file with blocks that were just allocated is a step in which
/// the data bitmap followed the chain of the file.
pub proof fn lemma_follow_grow(
    l: Layout,
    d0: Disk,
    da: Disk,
    d1: Disk,
    r0: InodeRec,
    r1: InodeRec,
    new_size: int,
    blocks: Seq<u32>,
)
    requires
        r0.size <= new_size <= MAX_FILE_SIZE,
        allocated(l, d0, da, blocks),
        grown(r0, da, r1, d1, new_size, blocks),
        forall|s: int| valid_slot(nblocks(r0), s) ==> #[trigger] r0.slot(da, s) == r0.slot(d0, s),
        forall|b: int| #[trigger] data_used(l, d1, b) == data_used(l, da, b),
    ensures
        blocks_follow(l, d0, r0, d1, r1),
{
    reveal(blocks_follow);
    let n0 = nblocks(r0);
    let n1 = nblocks(r1);
    lemma_index_count_mono(n0, n1);
    assert forall|s: int| valid_slot(n0, s) && valid_slot(n1, s) implies #[trigger] r1.slot(d1, s)
        == r0.slot(d0, s) by {
        assert(r1.slot(d1, s) == r0.slot(da, s));
    }
    assert forall|b: int| !dropped(r0, d0, n0, n1, b) by {}
    assert forall|b: int| added(r1, d1, n0, n1, b) <==> among_blocks(blocks, b) by {
        if added(r1, d1, n0, n1, b) {
            let s = choose|s: int|
                valid_slot(n1, s) && !valid_slot(n0, s) && #[trigger] r1.slot(d1, s) == b;
            let i = crate::disk_inode::taken_at(n0, s);
            assert(0 <= i < blocks.len());
            assert(r1.slot(d1, s) == blocks[i]);
        }
        if among_blocks(blocks, b) {
            let i = choose|i: int| 0 <= i < blocks.len() && #[trigger] blocks[i] == b;
            assert(added(r1, d1, n0, n1, blocks[i] as int));
        }
    }
    assert forall|b: int| l.in_data_area(b) implies (#[trigger] data_used(l, d1, b) <==> (data_used(
        l,
        d0,
        b,
    ) && !dropped(r0, d0, n0, n1, b)) || added(r1, d1, n0, n1, b)) by {
        assert(data_used(l, d1, b) == data_used(l, da, b));
        assert(data_used(l, da, b) <==> data_used(l, d0, b) || among_blocks(blocks, b));
        assert(added(r1, d1, n0, n1, b) <==> among_blocks(blocks, b));
    }
    assert forall|b: int| added(r1, d1, n0, n1, b) implies !#[trigger] data_used(l, d0, b) by {
        assert(added(r1, d1, n0, n1, b) <==> among_blocks(blocks, b));
        let i = choose|i: int| 0 <= i < blocks.len() && #[trigger] blocks[i] == b;
        assert(!data_used(l, d0, blocks[i] as int));
    }
}

/// Cutting a file and releasing the blocks that left its chain is a step
/// in which the data bitmap followed the chain of the file.
pub proof fn lemma_follow_shrink(
    l: Layout,
    d0: Disk,
    d1: Disk,
    r0: InodeRec,
    r1: InodeRec,
    new_size: int,
    freed: Seq<u32>,
)
    requires
        0 <= new_size <= r0.size,
        shrunk(r0, r1, d0, new_size, freed),
        released(l, d0, d1, freed),
        forall|s: int| valid_slot(nblocks(r1), s) ==> #[trigger] r1.slot(d1, s) == r1.slot(d0, s),
    ensures
        blocks_follow(l, d0, r0, d1, r1),
{
    reveal(blocks_follow);
    let n0 = nblocks(r0);
    let n1 = nblocks(r1);
    lemma_index_count_mono(n1, n0);
    assert forall|s: int| valid_slot(n0, s) && valid_slot(n1, s) implies #[trigger] r1.slot(d1, s)
        == r0.slot(d0, s) by {
        assert(r1.slot(d1, s) == r1.slot(d0, s));
    }
    assert forall|b: int| !added(r1, d1, n0, n1, b) by {}
    assert forall|b: int| dropped(r0, d0, n0, n1, b) <==> among_blocks(freed, b) by {
        if dropped(r0, d0, n0, n1, b) {
            let s = choose|s: int|
                valid_slot(n0, s) && !valid_slot(n1, s) && #[trigger] r0.slot(d0, s) == b;
            assert(among(freed, freed.len() as int, r0.slot(d0, s)));
            let i = choose|i: int|
                0 <= i < freed.len() && i < freed.len() && #[trigger] freed[i] == r0.slot(d0, s);
            assert(freed[i] == b);
        }
        if among_blocks(freed, b) {
            let i = choose|i: int| 0 <= i < freed.len() && #[trigger] freed[i] == b;
            assert(dropped(r0, d0, n0, n1, freed[i] as int));
        }
    }
    assert forall|b: int| l.in_data_area(b) implies (#[trigger] data_used(l, d1, b) <==> (data_used(
        l,
        d0,
        b,
    ) && !dropped(r0, d0, n0, n1, b)) || added(r1, d1, n0, n1, b)) by {
        assert(data_used(l, d1, b) <==> data_used(l, d0, b) && !among_blocks(freed, b));
        assert(dropped(r0, d0, n0, n1, b) <==> among_blocks(freed, b));
    }
}

/// A file whose chain and blocks are the same on two disks has the same
/// chain and the same bytes on both.
pub proof fn lemma_node_frame(l: Layout, d0: Disk, d1: Disk, r: InodeRec)
    requires
        d1.len() == d0.len(),
        node_ok(l, d0, r),
        forall|s: int|
            valid_slot(nblocks(r), s) ==> d1[#[trigger] r.slot(d0, s)] == d0[r.slot(d0, s)],
    ensures
        forall|s: int| valid_slot(nblocks(r), s) ==> #[trigger] r.slot(d1, s) == r.slot(d0, s),
        r.chain_wf(d1, nblocks(r)),
        r.content(d1) == r.content(d0),
{
    let n = nblocks(r);
    lemma_chain_frame(r, d0, d1, n);
    assert(r.content(d1) =~= r.content(d0)) by {
        assert forall|p: int| 0 <= p < r.size implies r.content(d1)[p] == r.content(d0)[p] by {
            let k = p / (BLOCK_SZ as int);
            assert(valid_slot(n, k));
            assert(r.slot(d1, k) == r.slot(d0, k));
            assert(d1[r.slot(d0, k)] == d0[r.slot(d0, k)]);
        }
    }
}

/// One step of an operation on inode `i0`, from the disk `d0` with the
/// record `r0` in memory to the disk `d1` with the record `r1` in memory,
/// keeps the chains of all inodes sound and leaves the other inodes alone,
/// where the step leaves alone the inode region, the inode bitmap and the
/// blocks of the other chains, keeps those blocks allocated, and leaves the
/// chain of `i0` sound and apart from the others.
pub proof fn lemma_chains_step(
    l: Layout,
    d0: Disk,
    d1: Disk,
    i0: int,
    r0: InodeRec,
    r1: InodeRec,
)
    requires
        disk_wf(d0),
        disk_wf(d1),
        l.valid(),
        d0.len() == l.total_blocks,
        d1.len() == d0.len(),
        chains_ok(l, d0, i0, r0),
        forall|id: int|
            0 <= id < l.inode_count() && id != i0 ==> #[trigger] node(l, d1, id) == node(l, d0, id),
        forall|id: int| id != i0 ==> #[trigger] inode_used(l, d1, id) == inode_used(l, d0, id),
        forall|id: int, s: int|
            inode_used(l, d0, id) && id != i0 && valid_slot(nblocks(node(l, d0, id)), s) ==> d1[
            #[trigger] islot(l, d0, i0, r0, id, s)] == d0[islot(l, d0, i0, r0, id, s)] && data_used(
                l,
                d1,
                islot(l, d0, i0, r0, id, s),
            ),
        inode_used(l, d1, i0) ==> node_ok(l, d1, r1),
        forall|id: int, s: int, t: int|
            inode_used(l, d1, i0) && inode_used(l, d0, id) && id != i0 && valid_slot(
                nblocks(r1),
                s,
            ) && valid_slot(nblocks(node(l, d0, id)), t) ==> #[trigger] r1.slot(d1, s)
                != #[trigger] islot(l, d0, i0, r0, id, t),
    ensures
        chains_ok(l, d1, i0, r1),
        others_same(l, d0, d1, i0),
        forall|id: int, s: int|
            inode_used(l, d0, id) && id != i0 && valid_slot(nblocks(node(l, d0, id)), s)
                ==> #[trigger] islot(l, d1, i0, r1, id, s) == islot(l, d0, i0, r0, id, s),
{
    reveal(chains_ok);
    assert forall|id: int| inode_used(l, d0, id) && id != i0 implies node_ok(
        l,
        d1,
        #[trigger] node(l, d1, id),
    ) && node(l, d1, id).content(d1) == node(l, d0, id).content(d0) && (forall|s: int|
        valid_slot(nblocks(node(l, d0, id)), s) ==> #[trigger] islot(l, d1, i0, r1, id, s) == islot(
            l,
            d0,
            i0,
            r0,
            id,
            s,
        )) by {
        let r = node(l, d0, id);
        assert(node_or(l, d0, i0, r0, id) == r);
        assert(node_ok(l, d0, r));
        assert forall|s: int| valid_slot(nblocks(r), s) implies d1[#[trigger] r.slot(d0, s)]
            == d0[r.slot(d0, s)] by {
            assert(islot(l, d0, i0, r0, id, s) == r.slot(d0, s));
        }
        lemma_node_frame(l, d0, d1, r);
        assert forall|s: int| valid_slot(nblocks(r), s) implies data_used(
            l,
            d1,
            #[trigger] r.slot(d1, s),
        ) by {
            assert(islot(l, d0, i0, r0, id, s) == r.slot(d0, s));
            assert(r.slot(d1, s) == r.slot(d0, s));
        }
        assert forall|s: int| valid_slot(nblocks(r), s) implies #[trigger] islot(
            l,
            d1,
            i0,
            r1,
            id,
            s,
        ) == islot(l, d0, i0, r0, id, s) by {
            assert(r.slot(d1, s) == r.slot(d0, s));
        }
    }
    assert forall|i: int| inode_used(l, d1, i) implies node_ok(
        l,
        d1,
        #[trigger] node_or(l, d1, i0, r1, i),
    ) by {
        if i != i0 {
            assert(inode_used(l, d0, i));
            assert(node_ok(l, d1, node(l, d1, i)));
        }
    }
    assert forall|i: int, j: int, s: int, t: int|
        inode_used(l, d1, i) && inode_used(l, d1, j) && i != j && valid_slot(
            nblocks(node_or(l, d1, i0, r1, i)),
            s,
        ) && valid_slot(nblocks(node_or(l, d1, i0, r1, j)), t) implies #[trigger] islot(
        l,
        d1,
        i0,
        r1,
        i,
        s,
    ) != #[trigger] islot(l, d1, i0, r1, j, t) by {
        if i == i0 {
            assert(node(l, d1, j) == node(l, d0, j));
            assert(islot(l, d1, i0, r1, j, t) == islot(l, d0, i0, r0, j, t));
            assert(r1.slot(d1, s) != islot(l, d0, i0, r0, j, t));
        } else if j == i0 {
            assert(node(l, d1, i) == node(l, d0, i));
            assert(islot(l, d1, i0, r1, i, s) == islot(l, d0, i0, r0, i, s));
            assert(r1.slot(d1, t) != islot(l, d0, i0, r0, i, s));
        } else {
            assert(node(l, d1, i) == node(l, d0, i));
            assert(node(l, d1, j) == node(l, d0, j));
            assert(islot(l, d1, i0, r1, i, s) == islot(l, d0, i0, r0, i, s));
            assert(islot(l, d1, i0, r1, j, t) == islot(l, d0, i0, r0, j, t));
        }
    }
    assert forall|id: int, s: int|
        inode_used(l, d0, id) && id != i0 && valid_slot(
            nblocks(node(l, d0, id)),
            s,
        ) implies #[trigger] node(l, d1, id).slot(d1, s) == node(l, d0, id).slot(d0, s) by {
        assert(islot(l, d1, i0, r1, id, s) == islot(l, d0, i0, r0, id, s));
        assert(node(l, d1, id) == node(l, d0, id));
    }
}

/// Between `d0` and `d1` the blocks of `blocks`, which were free, were
/// allocated, and nothing else happened: only the data bitmap changed.
pub open spec fn allocated(l: Layout, d0: Disk, d1: Disk, blocks: Seq<u32>) -> bool {
    &&& d1.len() == d0.len()
    &&& disk_wf(d1)
    &&& forall|b: int|
        0 <= b < d0.len() && !(l.data_bitmap_start() <= b < l.inode_area_start()) ==> #[trigger] d1[b]
            == d0[b]
    &&& forall|i: int|
        0 <= i < blocks.len() ==> l.in_data_area(#[trigger] blocks[i] as int) && !data_used(
            l,
            d0,
            blocks[i] as int,
        )
    &&& forall|i: int, j: int|
        0 <= i < j < blocks.len() ==> #[trigger] blocks[i] != #[trigger] blocks[j]
    &&& forall|b: int|
        l.in_data_area(b) ==> (#[trigger] data_used(l, d1, b) <==> data_used(l, d0, b) || among_blocks(
            blocks,
            b,
        ))
    &&& free_data(l, d1) == free_data(l, d0) - blocks.len()
}

/// Block `b` is one of `blocks`.
pub open spec fn among_blocks(blocks: Seq<u32>, b: int) -> bool {
    exists|i: int| 0 <= i < blocks.len() && #[trigger] blocks[i] == b
}

/// Between `d0` and `d1` the blocks of `blocks`, which were allocated, were
/// released, and nothing else happened: only the data bitmap changed.
pub open spec fn released(l: Layout, d0: Disk, d1: Disk, blocks: Seq<u32>) -> bool {
    &&& d1.len() == d0.len()
    &&& disk_wf(d1)
    &&& forall|b: int|
        0 <= b < d0.len() && !(l.data_bitmap_start() <= b < l.inode_area_start()) ==> #[trigger] d1[b]
            == d0[b]
    &&& forall|b: int|
        l.in_data_area(b) ==> (#[trigger] data_used(l, d1, b) <==> data_used(l, d0, b)
            && !among_blocks(blocks, b))
    &&& free_data(l, d1) == free_data(l, d0) + blocks.len()
}

/// A change of the data bitmap that keeps the blocks of all chains
/// allocated keeps the chains of all inodes sound and leaves every inode
/// alone.
pub proof fn lemma_bitmap_step(l: Layout, d0: Disk, d1: Disk, i0: int, r0: InodeRec)
    requires
        disk_wf(d0),
        disk_wf(d1),
        l.valid(),
        d0.len() == l.total_blocks,
        d1.len() == d0.len(),
        chains_ok(l, d0, i0, r0),
        forall|b: int|
            0 <= b < d0.len() && !(l.data_bitmap_start() <= b < l.inode_area_start()) ==> #[trigger] d1[b]
                == d0[b],
        forall|id: int, s: int|
            inode_used(l, d0, id) && valid_slot(nblocks(node_or(l, d0, i0, r0, id)), s) ==> data_used(
                l,
                d1,
                #[trigger] islot(l, d0, i0, r0, id, s),
            ),
    ensures
        chains_ok(l, d1, i0, r0),
        others_same(l, d0, d1, i0),
        forall|id: int| 0 <= id < l.inode_count() ==> #[trigger] node(l, d1, id) == node(l, d0, id),
        forall|id: int| #[trigger] inode_used(l, d1, id) == inode_used(l, d0, id),
        superblock_ok(l, d0) ==> superblock_ok(l, d1),
        free_inodes(l, d1) == free_inodes(l, d0),
        forall|id: int, s: int|
            inode_used(l, d0, id) && valid_slot(nblocks(node_or(l, d0, i0, r0, id)), s)
                ==> #[trigger] islot(l, d1, i0, r0, id, s) == islot(l, d0, i0, r0, id, s),
        inode_used(l, d0, i0) ==> r0.content(d1) == r0.content(d0),
{
    reveal(chains_ok);
    assert forall|id: int| 0 <= id < l.inode_count() implies bit_at(d1, l.inode_bitmap_start(), id)
        == bit_at(d0, l.inode_bitmap_start(), id) by {
        let b = crate::bitmap::bit_block(l.inode_bitmap_start(), id);
        assert(1 <= b < l.data_bitmap_start());
        assert(d1[b] == d0[b]);
    }
    lemma_free_count_same(d0, d1, l.inode_bitmap_start(), l.inode_count());
    assert forall|id: int| #[trigger] inode_used(l, d1, id) == inode_used(l, d0, id) by {
        if 0 <= id < l.inode_count() {
            assert(bit_at(d1, l.inode_bitmap_start(), id) == bit_at(d0, l.inode_bitmap_start(), id));
        }
    }
    assert forall|id: int, s: int|
        inode_used(l, d0, id) && id != i0 && valid_slot(
            nblocks(node(l, d0, id)),
            s,
        ) implies d1[#[trigger] islot(l, d0, i0, r0, id, s)] == d0[islot(l, d0, i0, r0, id, s)]
        && data_used(l, d1, islot(l, d0, i0, r0, id, s)) by {
        let r = node_or(l, d0, i0, r0, id);
        assert(node_ok(l, d0, r));
        assert(data_used(l, d0, r.slot(d0, s)));
    }
    if inode_used(l, d0, i0) {
        assert(node_ok(l, d0, node_or(l, d0, i0, r0, i0)));
        assert forall|s: int| valid_slot(nblocks(r0), s) implies d1[#[trigger] r0.slot(d0, s)]
            == d0[r0.slot(d0, s)] by {
            assert(data_used(l, d0, r0.slot(d0, s)));
        }
        lemma_node_frame(l, d0, d1, r0);
        assert forall|s: int| valid_slot(nblocks(r0), s) implies data_used(
            l,
            d1,
            #[trigger] r0.slot(d1, s),
        ) by {
            assert(r0.slot(d1, s) == r0.slot(d0, s));
            assert(islot(l, d0, i0, r0, i0, s) == r0.slot(d0, s));
        }
        assert forall|id: int, s: int, t: int|
            inode_used(l, d0, id) && id != i0 && valid_slot(nblocks(r0), s) && valid_slot(
                nblocks(node(l, d0, id)),
                t,
            ) implies #[trigger] r0.slot(d1, s) != #[trigger] islot(l, d0, i0, r0, id, t) by {
            assert(r0.slot(d1, s) == r0.slot(d0, s));
            assert(islot(l, d0, i0, r0, i0, s) == r0.slot(d0, s));
        }
    }
    assert forall|id: int| 0 <= id < l.inode_count() implies #[trigger] node(l, d1, id) == node(
        l,
        d0,
        id,
    ) by {
        let b = l.inode_block(id);
        assert(l.inode_area_start() <= b < l.data_area_start());
    }
    lemma_chains_step(l, d0, d1, i0, r0, r0);
    assert forall|id: int, s: int|
        inode_used(l, d0, id) && valid_slot(
            nblocks(node_or(l, d0, i0, r0, id)),
            s,
        ) implies #[trigger] islot(l, d1, i0, r0, id, s) == islot(l, d0, i0, r0, id, s) by {
        if id == i0 {
            assert(r0.slot(d1, s) == r0.slot(d0, s));
        }
    }
}

/// The blocks that were just allocated are not in the chain of the inode
/// operated on, nor in any other chain.
pub proof fn lemma_allocated_fresh(
    l: Layout,
    d0: Disk,
    d1: Disk,
    i0: int,
    r0: InodeRec,
    blocks: Seq<u32>,
)
    requires
        disk_wf(d0),
        l.valid(),
        d0.len() == l.total_blocks,
        chains_ok(l, d0, i0, r0),
        inode_used(l, d0, i0),
        allocated(l, d0, d1, blocks),
    ensures
        chains_ok(l, d1, i0, r0),
        others_same(l, d0, d1, i0),
        forall|id: int| 0 <= id < l.inode_count() ==> #[trigger] node(l, d1, id) == node(l, d0, id),
        forall|id: int| #[trigger] inode_used(l, d1, id) == inode_used(l, d0, id),
        superblock_ok(l, d0) ==> superblock_ok(l, d1),
        free_inodes(l, d1) == free_inodes(l, d0),
        r0.content(d1) == r0.content(d0),
        r0.chain_wf(d1, nblocks(r0)),
        r0.fresh_blocks(d1, nblocks(r0), blocks, 0),
        forall|s: int| valid_slot(nblocks(r0), s) ==> #[trigger] r0.slot(d1, s) == r0.slot(d0, s),
{
    reveal(chains_ok);
    assert forall|id: int, s: int|
        inode_used(l, d0, id) && valid_slot(nblocks(node_or(l, d0, i0, r0, id)), s) implies data_used(
        l,
        d1,
        #[trigger] islot(l, d0, i0, r0, id, s),
    ) by {
        let r = node_or(l, d0, i0, r0, id);
        assert(node_ok(l, d0, r));
        assert(data_used(l, d0, r.slot(d0, s)));
    }
    lemma_bitmap_step(l, d0, d1, i0, r0);
    assert(node_ok(l, d1, node_or(l, d1, i0, r0, i0)));
    assert(node_ok(l, d0, node_or(l, d0, i0, r0, i0)));
    assert forall|i: int, s: int|
        0 <= i < blocks.len() && valid_slot(nblocks(r0), s) implies #[trigger] r0.slot(d1, s)
        != #[trigger] blocks[i] by {
        assert(islot(l, d1, i0, r0, i0, s) == islot(l, d0, i0, r0, i0, s));
        assert(data_used(l, d0, r0.slot(d0, s)));
    }
    assert forall|s: int| valid_slot(nblocks(r0), s) implies #[trigger] r0.slot(d1, s) == r0.slot(
        d0,
        s,
    ) by {
        assert(islot(l, d1, i0, r0, i0, s) == islot(l, d0, i0, r0, i0, s));
    }
}

/// The chain of `r0` is sound on `da`, its blocks and the blocks of
/// `blocks` are allocated blocks of the data region, and no other chain
/// holds a block of `blocks`: the state in which a file is grown.
pub open spec fn ready_to_grow(
    l: Layout,
    da: Disk,
    i0: int,
    r0: InodeRec,
    blocks: Seq<u32>,
) -> bool {
    &&& disk_wf(da)
    &&& l.valid()
    &&& da.len() == l.total_blocks
    &&& chains_ok(l, da, i0, r0)
    &&& inode_used(l, da, i0)
    &&& forall|i: int| 0 <= i < blocks.len() ==> data_used(l, da, #[trigger] blocks[i] as int)
    &&& forall|id: int, t: int, i: int|
        inode_used(l, da, id) && id != i0 && valid_slot(nblocks(node(l, da, id)), t) && 0 <= i
            < blocks.len() ==> #[trigger] islot(l, da, i0, r0, id, t) != #[trigger] blocks[i]
}

/// The chain of an allocated inode is sound and made of allocated blocks.
pub proof fn lemma_node_ok(l: Layout, d: Disk, i0: int, r0: InodeRec, id: int)
    requires
        chains_ok(l, d, i0, r0),
        inode_used(l, d, id),
    ensures
        node_ok(l, d, node_or(l, d, i0, r0, id)),
{
    reveal(chains_ok);
}

/// Every block of the chain of an allocated inode is an allocated block
/// of the data region.
pub proof fn lemma_slot_used(l: Layout, d: Disk, i0: int, r0: InodeRec, id: int, s: int)
    requires
        chains_ok(l, d, i0, r0),
        inode_used(l, d, id),
        valid_slot(nblocks(node_or(l, d, i0, r0, id)), s),
    ensures
        data_used(l, d, islot(l, d, i0, r0, id, s)),
{
    reveal(chains_ok);
    let r = node_or(l, d, i0, r0, id);
    assert(node_ok(l, d, r));
    assert(data_used(l, d, r.slot(d, s)));
}

/// After an allocation the filesystem is ready to grow the file.
pub proof fn lemma_ready_to_grow(
    l: Layout,
    d0: Disk,
    da: Disk,
    i0: int,
    r0: InodeRec,
    blocks: Seq<u32>,
)
    requires
        disk_wf(d0),
        l.valid(),
        d0.len() == l.total_blocks,
        chains_ok(l, d0, i0, r0),
        inode_used(l, d0, i0),
        allocated(l, d0, da, blocks),
    ensures
        ready_to_grow(l, da, i0, r0, blocks),
{
    reveal(chains_ok);
    lemma_allocated_fresh(l, d0, da, i0, r0, blocks);
    assert forall|i: int| 0 <= i < blocks.len() implies data_used(
        l,
        da,
        #[trigger] blocks[i] as int,
    ) by {
        assert(among_blocks(blocks, blocks[i] as int));
    }
    assert forall|id: int, t: int, i: int|
        inode_used(l, da, id) && id != i0 && valid_slot(nblocks(node(l, da, id)), t) && 0 <= i
            < blocks.len() implies #[trigger] islot(l, da, i0, r0, id, t) != #[trigger] blocks[i] by {
        assert(inode_used(l, d0, id));
        assert(node(l, da, id) == node(l, d0, id));
        lemma_slot_used(l, da, i0, r0, id, t);
        lemma_slot_used(l, d0, i0, r0, id, t);
        let b = islot(l, da, i0, r0, id, t);
        if b == blocks[i] {
            // the block was free before the allocation, so no chain held
            // it then; the chains did not change since
            assert(!data_used(l, d0, blocks[i] as int));
            lemma_other_slot_same(l, d0, da, i0, r0, id, t);
        }
    }
}

/// A change of the data bitmap does not move the blocks of a chain.
proof fn lemma_other_slot_same(
    l: Layout,
    d0: Disk,
    d1: Disk,
    i0: int,
    r0: InodeRec,
    id: int,
    s: int,
)
    requires
        disk_wf(d0),
        l.valid(),
        d0.len() == l.total_blocks,
        d1.len() == d0.len(),
        chains_ok(l, d0, i0, r0),
        inode_used(l, d0, id),
        valid_slot(nblocks(node_or(l, d0, i0, r0, id)), s),
        forall|b: int| l.in_data_area(b) ==> #[trigger] d1[b] == d0[b],
        0 <= id < l.inode_count() ==> node(l, d1, id) == node(l, d0, id),
    ensures
        islot(l, d1, i0, r0, id, s) == islot(l, d0, i0, r0, id, s),
{
    reveal(chains_ok);
    let r = node_or(l, d0, i0, r0, id);
    assert(node_ok(l, d0, r));
    assert forall|t: int| valid_slot(nblocks(r), t) implies d1[#[trigger] r.slot(d0, t)] == d0[r.slot(
        d0,
        t,
    )] by {
        assert(data_used(l, d0, r.slot(d0, t)));
    }
    lemma_node_frame(l, d0, d1, r);
    assert(r.slot(d1, s) == r.slot(d0, s));
}

/// Growing a file changes nothing outside the data region.
proof fn lemma_grow_outside(
    l: Layout,
    da: Disk,
    d1: Disk,
    i0: int,
    r0: InodeRec,
    r1: InodeRec,
    new_size: int,
    blocks: Seq<u32>,
)
    requires
        ready_to_grow(l, da, i0, r0, blocks),
        grown(r0, da, r1, d1, new_size, blocks),
    ensures
        forall|b: int| 0 <= b < l.data_area_start() ==> #[trigger] d1[b] == da[b],
{
    reveal(chains_ok);
    let n0 = nblocks(r0);
    assert(node_ok(l, da, node_or(l, da, i0, r0, i0)));
    assert forall|b: int| 0 <= b < l.data_area_start() implies #[trigger] d1[b] == da[b] by {
        assert(!r0.owns(da, n0, b)) by {
            if r0.owns(da, n0, b) {
                let s = choose|s: int| valid_slot(n0, s) && #[trigger] r0.slot(da, s) == b;
                assert(data_used(l, da, r0.slot(da, s)));
            }
        }
        assert(!among(blocks, blocks.len() as int, b)) by {
            if among(blocks, blocks.len() as int, b) {
                let i = choose|i: int|
                    0 <= i < blocks.len() && i < blocks.len() && #[trigger] blocks[i] == b;
                assert(data_used(l, da, blocks[i] as int));
            }
        }
    }
}

/// Growing a file changes no block of another file.
proof fn lemma_grow_others(
    l: Layout,
    da: Disk,
    d1: Disk,
    i0: int,
    r0: InodeRec,
    r1: InodeRec,
    new_size: int,
    blocks: Seq<u32>,
)
    requires
        ready_to_grow(l, da, i0, r0, blocks),
        grown(r0, da, r1, d1, new_size, blocks),
    ensures
        forall|id: int, s: int|
            inode_used(l, da, id) && id != i0 && valid_slot(nblocks(node(l, da, id)), s) ==> d1[
            #[trigger] islot(l, da, i0, r0, id, s)] == da[islot(l, da, i0, r0, id, s)],
{
    reveal(chains_ok);
    let n0 = nblocks(r0);
    assert forall|id: int, s: int|
        inode_used(l, da, id) && id != i0 && valid_slot(nblocks(node(l, da, id)), s) implies d1[
    #[trigger] islot(l, da, i0, r0, id, s)] == da[islot(l, da, i0, r0, id, s)] by {
        let b = islot(l, da, i0, r0, id, s);
        let r = node_or(l, da, i0, r0, id);
        assert(node_ok(l, da, r));
        assert(data_used(l, da, r.slot(da, s)));
        assert(!r0.owns(da, n0, b)) by {
            if r0.owns(da, n0, b) {
                let t = choose|t: int| valid_slot(n0, t) && #[trigger] r0.slot(da, t) == b;
                assert(islot(l, da, i0, r0, i0, t) != islot(l, da, i0, r0, id, s));
            }
        }
        assert(!among(blocks, blocks.len() as int, b)) by {
            if among(blocks, blocks.len() as int, b) {
                let i = choose|i: int|
                    0 <= i < blocks.len() && i < blocks.len() && #[trigger] blocks[i] == b;
                assert(islot(l, da, i0, r0, id, s) != blocks[i]);
            }
        }
    }
}

/// The chain of a grown file is made of allocated blocks and shares no
/// block with another chain.
proof fn lemma_grow_self(
    l: Layout,
    da: Disk,
    d1: Disk,
    i0: int,
    r0: InodeRec,
    r1: InodeRec,
    new_size: int,
    blocks: Seq<u32>,
)
    requires
        ready_to_grow(l, da, i0, r0, blocks),
        grown(r0, da, r1, d1, new_size, blocks),
        r0.size <= new_size <= MAX_FILE_SIZE,
        forall|b: int| #[trigger] data_used(l, d1, b) == data_used(l, da, b),
    ensures
        node_ok(l, d1, r1),
        forall|id: int, s: int, t: int|
            inode_used(l, da, id) && id != i0 && valid_slot(nblocks(r1), s) && valid_slot(
                nblocks(node(l, da, id)),
                t,
            ) ==> #[trigger] r1.slot(d1, s) != #[trigger] islot(l, da, i0, r0, id, t),
{
    reveal(chains_ok);
    let n0 = nblocks(r0);
    let n1 = nblocks(r1);
    assert(node_ok(l, da, node_or(l, da, i0, r0, i0)));
    assert(r1.tidy(n1)) by {
        assert(r0.tidy(n0));
        assert(n0 <= n1);
        assert(r1.spare_same(r0, n1));
    }
    assert forall|s: int| valid_slot(n1, s) implies data_used(l, d1, #[trigger] r1.slot(d1, s)) by {
        if valid_slot(n0, s) {
            assert(r1.slot(d1, s) == r0.slot(da, s));
            assert(data_used(l, da, r0.slot(da, s)));
        } else {
            assert(among(blocks, blocks.len() as int, r1.slot(d1, s)));
            let i = choose|i: int|
                0 <= i < blocks.len() && i < blocks.len() && #[trigger] blocks[i] == r1.slot(d1, s);
            assert(data_used(l, da, blocks[i] as int));
        }
    }
    assert forall|id: int, s: int, t: int|
        inode_used(l, da, id) && id != i0 && valid_slot(nblocks(r1), s) && valid_slot(
            nblocks(node(l, da, id)),
            t,
        ) implies #[trigger] r1.slot(d1, s) != #[trigger] islot(l, da, i0, r0, id, t) by {
        if valid_slot(n0, s) {
            assert(r1.slot(d1, s) == r0.slot(da, s));
            assert(islot(l, da, i0, r0, i0, s) != islot(l, da, i0, r0, id, t));
        } else {
            assert(among(blocks, blocks.len() as int, r1.slot(d1, s)));
            let i = choose|i: int|
                0 <= i < blocks.len() && i < blocks.len() && #[trigger] blocks[i] == r1.slot(d1, s);
            assert(islot(l, da, i0, r0, id, t) != blocks[i]);
        }
    }
}

/// Growing the file of inode `i0` with blocks that no chain holds keeps
/// the chains of all inodes sound and leaves the other inodes alone.
pub proof fn lemma_grow_step(
    l: Layout,
    da: Disk,
    d1: Disk,
    i0: int,
    r0: InodeRec,
    r1: InodeRec,
    new_size: int,
    blocks: Seq<u32>,
)
    requires
        ready_to_grow(l, da, i0, r0, blocks),
        r0.size <= new_size <= MAX_FILE_SIZE,
        grown(r0, da, r1, d1, new_size, blocks),
    ensures
        chains_ok(l, d1, i0, r1),
        others_same(l, da, d1, i0),
        forall|id: int| 0 <= id < l.inode_count() ==> #[trigger] node(l, d1, id) == node(l, da, id),
        forall|id: int| #[trigger] inode_used(l, d1, id) == inode_used(l, da, id),
        superblock_ok(l, da) ==> superblock_ok(l, d1),
        free_inodes(l, d1) == free_inodes(l, da),
        free_data(l, d1) == free_data(l, da),
        forall|b: int| #[trigger] data_used(l, d1, b) == data_used(l, da, b),
{
    reveal(chains_ok);
    lemma_grow_outside(l, da, d1, i0, r0, r1, new_size, blocks);
    lemma_data_only(l, da, d1);
    lemma_grow_others(l, da, d1, i0, r0, r1, new_size, blocks);
    lemma_grow_self(l, da, d1, i0, r0, r1, new_size, blocks);
    assert forall|id: int, s: int|
        inode_used(l, da, id) && id != i0 && valid_slot(nblocks(node(l, da, id)), s) implies d1[
    #[trigger] islot(l, da, i0, r0, id, s)] == da[islot(l, da, i0, r0, id, s)] && data_used(
        l,
        d1,
        islot(l, da, i0, r0, id, s),
    ) by {
        let r = node_or(l, da, i0, r0, id);
        assert(node_ok(l, da, r));
        assert(data_used(l, da, r.slot(da, s)));
    }
    lemma_chains_step(l, da, d1, i0, r0, r1);
}

/// Two disks that differ in the data region only have the same
/// superblock, bitmaps and inode records.
pub proof fn lemma_data_only(l: Layout, d0: Disk, d1: Disk)
    requires
        l.valid(),
        d1.len() == d0.len(),
        d0.len() == l.total_blocks,
        forall|b: int| 0 <= b < l.data_area_start() ==> #[trigger] d1[b] == d0[b],
    ensures
        forall|id: int| 0 <= id < l.inode_count() ==> #[trigger] node(l, d1, id) == node(l, d0, id),
        forall|id: int| #[trigger] inode_used(l, d1, id) == inode_used(l, d0, id),
        forall|b: int| #[trigger] data_used(l, d1, b) == data_used(l, d0, b),
        superblock_ok(l, d0) ==> superblock_ok(l, d1),
        free_inodes(l, d1) == free_inodes(l, d0),
        free_data(l, d1) == free_data(l, d0),
{
    assert forall|id: int| 0 <= id < l.inode_count() implies #[trigger] node(l, d1, id) == node(
        l,
        d0,
        id,
    ) by {
        let b = l.inode_block(id);
        assert(l.inode_area_start() <= b < l.data_area_start());
    }
    assert forall|id: int| 0 <= id < l.inode_count() implies bit_at(d1, l.inode_bitmap_start(), id)
        == bit_at(d0, l.inode_bitmap_start(), id) by {
        let b = crate::bitmap::bit_block(l.inode_bitmap_start(), id);
        assert(1 <= b < l.data_bitmap_start());
    }
    assert forall|j: int| 0 <= j < l.data_area_blocks implies bit_at(d1, l.data_bitmap_start(), j)
        == bit_at(d0, l.data_bitmap_start(), j) by {
        let b = crate::bitmap::bit_block(l.data_bitmap_start(), j);
        assert(l.data_bitmap_start() <= b < l.inode_area_start());
    }
    assert forall|b: int| #[trigger] data_used(l, d1, b) == data_used(l, d0, b) by {
        if l.in_data_area(b) {
            let j = b - l.data_area_start();
            assert(bit_at(d1, l.data_bitmap_start(), j) == bit_at(d0, l.data_bitmap_start(), j));
        }
    }
    lemma_free_count_same(d0, d1, l.inode_bitmap_start(), l.inode_count());
    lemma_free_count_same(d0, d1, l.data_bitmap_start(), l.data_area_blocks as int);
}

/// Which record stands for an inode that is not allocated does not
/// matter, nor does it matter to say of an allocated inode the record that
/// the disk holds for it.
pub proof fn lemma_override(l: Layout, d: Disk, i0: int, r0: InodeRec, i1: int, r1: InodeRec)
    requires
        chains_ok(l, d, i0, r0),
        inode_used(l, d, i0) ==> r0 == node_or(l, d, i1, r1, i0),
        inode_used(l, d, i1) ==> r1 == node_or(l, d, i0, r0, i1),
    ensures
        chains_ok(l, d, i1, r1),
{
    reveal(chains_ok);
    assert forall|i: int| inode_used(l, d, i) implies node_or(l, d, i1, r1, i) == node_or(
        l,
        d,
        i0,
        r0,
        i,
    ) by {}
    assert forall|i: int| inode_used(l, d, i) implies node_ok(
        l,
        d,
        #[trigger] node_or(l, d, i1, r1, i),
    ) by {
        assert(node_ok(l, d, node_or(l, d, i0, r0, i)));
    }
    assert forall|i: int, j: int, s: int, t: int|
        inode_used(l, d, i) && inode_used(l, d, j) && i != j && valid_slot(
            nblocks(node_or(l, d, i1, r1, i)),
            s,
        ) && valid_slot(nblocks(node_or(l, d, i1, r1, j)), t) implies #[trigger] islot(
        l,
        d,
        i1,
        r1,
        i,
        s,
    ) != #[trigger] islot(l, d, i1, r1, j, t) by {
        assert(islot(l, d, i0, r0, i, s) != islot(l, d, i0, r0, j, t));
    }
}

/// A record that differs from the record `r0` of inode `i0` in nothing
/// that the chain is made of stands for the inode as well.
pub proof fn lemma_same_chain(l: Layout, d: Disk, i0: int, r0: InodeRec, r1: InodeRec)
    requires
        chains_ok(l, d, i0, r0),
        r1.size == r0.size,
        r1.direct == r0.direct,
        r1.indirect1 == r0.indirect1,
        r1.indirect2 == r0.indirect2,
    ensures
        chains_ok(l, d, i0, r1),
        r1.content(d) == r0.content(d),
        blocks_same(l, d, r0, d, r1),
{
    reveal(chains_ok);
    reveal(blocks_same);
    assert forall|s: int| #[trigger] r1.slot(d, s) == r0.slot(d, s) by {}
    assert(r1.content(d) =~= r0.content(d));
    assert forall|i: int| inode_used(l, d, i) implies node_ok(
        l,
        d,
        #[trigger] node_or(l, d, i0, r1, i),
    ) by {
        assert(node_ok(l, d, node_or(l, d, i0, r0, i)));
        if i == i0 {
            assert forall|s: int| valid_slot(nblocks(r1), s) implies data_used(
                l,
                d,
                #[trigger] r1.slot(d, s),
            ) by {
                assert(data_used(l, d, r0.slot(d, s)));
            }
            assert forall|s: int| valid_slot(nblocks(r1), s) implies 0 <= #[trigger] r1.slot(d, s)
                < d.len() by {
                assert(0 <= r0.slot(d, s) < d.len());
            }
            assert forall|s: int, t: int|
                valid_slot(nblocks(r1), s) && valid_slot(nblocks(r1), t) && s
                    != t implies #[trigger] r1.slot(d, s) != #[trigger] r1.slot(d, t) by {
                assert(r0.slot(d, s) != r0.slot(d, t));
            }
        }
    }
    assert forall|i: int, j: int, s: int, t: int|
        inode_used(l, d, i) && inode_used(l, d, j) && i != j && valid_slot(
            nblocks(node_or(l, d, i0, r1, i)),
            s,
        ) && valid_slot(nblocks(node_or(l, d, i0, r1, j)), t) implies #[trigger] islot(
        l,
        d,
        i0,
        r1,
        i,
        s,
    ) != #[trigger] islot(l, d, i0, r1, j, t) by {
        assert(islot(l, d, i0, r0, i, s) != islot(l, d, i0, r0, j, t));
    }
}

/// The lowest inode slot at or after `i` that is free; the number of
/// slots where there is none.
pub open spec fn lowest_free_from(l: Layout, d: Disk, i: int) -> int
    decreases l.inode_count() - i,
{
    if i < 0 || i >= l.inode_count() || !inode_used(l, d, i) {
        i
    } else {
        lowest_free_from(l, d, i + 1)
    }
}

/// The lowest inode slot that is free; the number of slots where there is
/// none.
pub open spec fn lowest_free_inode(l: Layout, d: Disk) -> int {
    lowest_free_from(l, d, 0)
}

/// The lowest free slot is the free slot below which every slot is
/// allocated.
pub proof fn lemma_lowest_free(l: Layout, d: Disk, from: int, x: int)
    requires
        0 <= from <= x <= l.inode_count(),
        forall|y: int| from <= y < x ==> inode_used(l, d, y),
        x < l.inode_count() ==> !inode_used(l, d, x),
    ensures
        lowest_free_from(l, d, from) == x,
    decreases x - from,
{
    if from < x {
        lemma_lowest_free(l, d, from + 1, x);
    }
}

/// Writing into the file of inode `i0` keeps the chains of all inodes
/// sound and leaves the other inodes alone.
pub proof fn lemma_write_step(
    l: Layout,
    d0: Disk,
    d1: Disk,
    i0: int,
    r: InodeRec,
    offset: int,
    data: Seq<u8>,
)
    requires
        disk_wf(d0),
        l.valid(),
        d0.len() == l.total_blocks,
        chains_ok(l, d0, i0, r),
        inode_used(l, d0, i0),
        written(r, d0, d1, offset, data),
    ensures
        chains_ok(l, d1, i0, r),
        others_same(l, d0, d1, i0),
        forall|id: int| 0 <= id < l.inode_count() ==> #[trigger] node(l, d1, id) == node(l, d0, id),
        forall|id: int| #[trigger] inode_used(l, d1, id) == inode_used(l, d0, id),
        superblock_ok(l, d0) ==> superblock_ok(l, d1),
        free_inodes(l, d1) == free_inodes(l, d0),
        free_data(l, d1) == free_data(l, d0),
        blocks_same(l, d0, r, d1, r),
{
    reveal(chains_ok);
    reveal(blocks_same);
    let n = nblocks(r);
    assert(node_ok(l, d0, node_or(l, d0, i0, r, i0)));
    assert forall|b: int| 0 <= b < l.data_area_start() implies #[trigger] d1[b] == d0[b] by {
        assert(!r.owns_data(d0, n, b)) by {
            if r.owns_data(d0, n, b) {
                let k = choose|k: int| 0 <= k < n && #[trigger] r.slot(d0, k) == b;
                assert(data_used(l, d0, r.slot(d0, k)));
            }
        }
    }
    lemma_data_only(l, d0, d1);
    assert forall|id: int, s: int|
        inode_used(l, d0, id) && id != i0 && valid_slot(nblocks(node(l, d0, id)), s) implies d1[
    #[trigger] islot(l, d0, i0, r, id, s)] == d0[islot(l, d0, i0, r, id, s)] && data_used(
        l,
        d1,
        islot(l, d0, i0, r, id, s),
    ) by {
        let b = islot(l, d0, i0, r, id, s);
        lemma_slot_used(l, d0, i0, r, id, s);
        assert(!r.owns_data(d0, n, b)) by {
            if r.owns_data(d0, n, b) {
                let k = choose|k: int| 0 <= k < n && #[trigger] r.slot(d0, k) == b;
                assert(islot(l, d0, i0, r, i0, k) != islot(l, d0, i0, r, id, s));
            }
        }
    }
    assert(node_ok(l, d1, r)) by {
        assert forall|s: int| valid_slot(n, s) implies data_used(l, d1, #[trigger] r.slot(d1, s)) by {
            assert(r.slot(d1, s) == r.slot(d0, s));
            assert(data_used(l, d0, r.slot(d0, s)));
        }
    }
    assert forall|id: int, s: int, t: int|
        inode_used(l, d1, i0) && inode_used(l, d0, id) && id != i0 && valid_slot(nblocks(r), s)
            && valid_slot(nblocks(node(l, d0, id)), t) implies #[trigger] r.slot(d1, s)
        != #[trigger] islot(l, d0, i0, r, id, t) by {
        assert(r.slot(d1, s) == r.slot(d0, s));
        assert(islot(l, d0, i0, r, i0, s) != islot(l, d0, i0, r, id, t));
    }
    lemma_chains_step(l, d0, d1, i0, r, r);
}

/// The blocks that left the chain of a file that was cut are allocated.
pub proof fn lemma_freed_used(
    l: Layout,
    d: Disk,
    i0: int,
    r0: InodeRec,
    r1: InodeRec,
    new_size: int,
    freed: Seq<u32>,
)
    requires
        chains_ok(l, d, i0, r0),
        inode_used(l, d, i0),
        shrunk(r0, r1, d, new_size, freed),
    ensures
        forall|i: int| 0 <= i < freed.len() ==> data_used(l, d, #[trigger] freed[i] as int),
{
    reveal(chains_ok);
    assert(node_ok(l, d, node_or(l, d, i0, r0, i0)));
    assert forall|i: int| 0 <= i < freed.len() implies data_used(l, d, #[trigger] freed[i] as int) by {
        let n0 = nblocks(r0);
        let n1 = spec_data_blocks(new_size);
        assert(crate::disk_inode::dropped(r0, d, n0, n1, freed[i] as int));
        let s = choose|s: int|
            valid_slot(n0, s) && !valid_slot(n1, s) && #[trigger] r0.slot(d, s) == freed[i] as int;
        assert(data_used(l, d, r0.slot(d, s)));
    }
}

/// A file that was cut has a sound chain that is part of the chain it had.
proof fn lemma_shrink_chain(
    l: Layout,
    d: Disk,
    i0: int,
    r0: InodeRec,
    r1: InodeRec,
    new_size: int,
    freed: Seq<u32>,
)
    requires
        chains_ok(l, d, i0, r0),
        inode_used(l, d, i0),
        0 <= new_size <= r0.size,
        shrunk(r0, r1, d, new_size, freed),
    ensures
        chains_ok(l, d, i0, r1),
        forall|s: int| valid_slot(nblocks(r1), s) ==> valid_slot(nblocks(r0), s) && #[trigger] r1.slot(
            d,
            s,
        ) == r0.slot(d, s),
{
    reveal(chains_ok);
    let n0 = nblocks(r0);
    let n1 = nblocks(r1);
    lemma_index_count_mono(n1, n0);
    assert(node_ok(l, d, node_or(l, d, i0, r0, i0)));
    assert forall|s: int| valid_slot(n1, s) implies valid_slot(n0, s) && #[trigger] r1.slot(d, s)
        == r0.slot(d, s) by {}
    assert(node_ok(l, d, r1)) by {
        assert forall|s: int| valid_slot(n1, s) implies data_used(l, d, #[trigger] r1.slot(d, s)) by {
            assert(data_used(l, d, r0.slot(d, s)));
        }
    }
    assert forall|i: int| inode_used(l, d, i) implies node_ok(
        l,
        d,
        #[trigger] node_or(l, d, i0, r1, i),
    ) by {
        if i != i0 {
            assert(node_ok(l, d, node_or(l, d, i0, r0, i)));
        }
    }
    assert forall|i: int, j: int, s: int, t: int|
        inode_used(l, d, i) && inode_used(l, d, j) && i != j && valid_slot(
            nblocks(node_or(l, d, i0, r1, i)),
            s,
        ) && valid_slot(nblocks(node_or(l, d, i0, r1, j)), t) implies #[trigger] islot(
        l,
        d,
        i0,
        r1,
        i,
        s,
    ) != #[trigger] islot(l, d, i0, r1, j, t) by {
        if i == i0 {
            assert(r1.slot(d, s) == r0.slot(d, s));
        }
        if j == i0 {
            assert(r1.slot(d, t) == r0.slot(d, t));
        }
        assert(islot(l, d, i0, r0, i, s) != islot(l, d, i0, r0, j, t));
    }
}

/// Cutting the file of inode `i0` and releasing the blocks that left its
/// chain keeps the chains of all inodes sound and leaves the other inodes
/// alone.
pub proof fn lemma_shrink_step(
    l: Layout,
    d0: Disk,
    d1: Disk,
    i0: int,
    r0: InodeRec,
    r1: InodeRec,
    new_size: int,
    freed: Seq<u32>,
)
    requires
        disk_wf(d0),
        l.valid(),
        d0.len() == l.total_blocks,
        chains_ok(l, d0, i0, r0),
        inode_used(l, d0, i0),
        0 <= new_size <= r0.size,
        shrunk(r0, r1, d0, new_size, freed),
        released(l, d0, d1, freed),
    ensures
        chains_ok(l, d1, i0, r1),
        others_same(l, d0, d1, i0),
        forall|id: int| 0 <= id < l.inode_count() ==> #[trigger] node(l, d1, id) == node(l, d0, id),
        forall|id: int| #[trigger] inode_used(l, d1, id) == inode_used(l, d0, id),
        superblock_ok(l, d0) ==> superblock_ok(l, d1),
        free_inodes(l, d1) == free_inodes(l, d0),
        free_data(l, d1) == free_data(l, d0) + freed.len(),
        r1.content(d1) == r0.content(d0).subrange(0, new_size),
        blocks_follow(l, d0, r0, d1, r1),
{
    reveal(chains_ok);
    let n0 = nblocks(r0);
    let n1 = nblocks(r1);
    lemma_shrink_chain(l, d0, i0, r0, r1, new_size, freed);
    assert(node_ok(l, d0, node_or(l, d0, i0, r0, i0)));
    assert forall|id: int, s: int|
        inode_used(l, d0, id) && valid_slot(nblocks(node_or(l, d0, i0, r1, id)), s) implies data_used(
        l,
        d1,
        #[trigger] islot(l, d0, i0, r1, id, s),
    ) by {
        let b = islot(l, d0, i0, r1, id, s);
        lemma_slot_used(l, d0, i0, r1, id, s);
        assert(!among_blocks(freed, b)) by {
            if among_blocks(freed, b) {
                let i = choose|i: int| 0 <= i < freed.len() && #[trigger] freed[i] == b;
                assert(crate::disk_inode::dropped(r0, d0, n0, n1, freed[i] as int));
                let t = choose|t: int|
                    valid_slot(n0, t) && !valid_slot(n1, t) && #[trigger] r0.slot(d0, t)
                        == freed[i] as int;
                if id == i0 {
                    assert(r1.slot(d0, s) == r0.slot(d0, s));
                    assert(r0.slot(d0, s) != r0.slot(d0, t));
                } else {
                    assert(islot(l, d0, i0, r0, id, s) != islot(l, d0, i0, r0, i0, t));
                }
            }
        }
    }
    lemma_bitmap_step(l, d0, d1, i0, r1);
    assert forall|s: int| valid_slot(nblocks(r1), s) implies #[trigger] r1.slot(d1, s) == r1.slot(
        d0,
        s,
    ) by {
        assert(islot(l, d1, i0, r1, i0, s) == islot(l, d0, i0, r1, i0, s));
    }
    lemma_follow_shrink(l, d0, d1, r0, r1, new_size, freed);
}

/// Storing the record that an operation on inode `i0` has in memory makes
/// it the record of the inode on the disk, and changes nothing else.
pub proof fn lemma_store_step(l: Layout, d0: Disk, d1: Disk, i0: int, r: InodeRec)
    requires
        disk_wf(d0),
        l.valid(),
        d0.len() == l.total_blocks,
        chains_ok(l, d0, i0, r),
        0 <= i0 < l.inode_count(),
        r.direct.len() == crate::layout::INODE_DIRECT_COUNT,
        d1 == disk_with_rec(d0, l.inode_block(i0), Layout::inode_offset(i0), r),
    ensures
        disk_wf(d1),
        d1.len() == d0.len(),
        node(l, d1, i0) == r,
        chains_ok(l, d1, i0, r),
        chains_ok(l, d1, 0, node(l, d1, 0)),
        others_same(l, d0, d1, i0),
        forall|id: int| #[trigger] inode_used(l, d1, id) == inode_used(l, d0, id),
        forall|b: int| #[trigger] data_used(l, d1, b) == data_used(l, d0, b),
        superblock_ok(l, d0) ==> superblock_ok(l, d1),
        free_inodes(l, d1) == free_inodes(l, d0),
        free_data(l, d1) == free_data(l, d0),
        inode_used(l, d0, i0) ==> r.content(d1) == r.content(d0),
        inode_used(l, d0, i0) ==> blocks_same(l, d0, r, d1, r),
{
    reveal(chains_ok);
    reveal(blocks_same);
    let blk = l.inode_block(i0);
    let off = Layout::inode_offset(i0);
    assert(l.inode_area_start() <= blk < l.data_area_start());
    lemma_disk_with_rec(d0, blk, off, r);
    assert forall|id: int| 0 <= id < l.inode_count() && id != i0 implies #[trigger] node(l, d1, id)
        == node(l, d0, id) by {
        let b = l.inode_block(id);
        let o = Layout::inode_offset(id);
        if b == blk {
            assert(o != off);
            assert(rec_at(d1, blk, o) == rec_at(d0, blk, o));
        } else {
            assert(d1[b] == d0[b]);
        }
    }
    assert forall|id: int| 0 <= id < l.inode_count() implies bit_at(d1, l.inode_bitmap_start(), id)
        == bit_at(d0, l.inode_bitmap_start(), id) by {
        let b = crate::bitmap::bit_block(l.inode_bitmap_start(), id);
        assert(1 <= b < l.data_bitmap_start());
    }
    assert forall|j: int| 0 <= j < l.data_area_blocks implies bit_at(d1, l.data_bitmap_start(), j)
        == bit_at(d0, l.data_bitmap_start(), j) by {
        let b = crate::bitmap::bit_block(l.data_bitmap_start(), j);
        assert(l.data_bitmap_start() <= b < l.inode_area_start());
    }
    assert forall|b: int| #[trigger] data_used(l, d1, b) == data_used(l, d0, b) by {
        if l.in_data_area(b) {
            let j = b - l.data_area_start();
            assert(bit_at(d1, l.data_bitmap_start(), j) == bit_at(d0, l.data_bitmap_start(), j));
        }
    }
    lemma_free_count_same(d0, d1, l.inode_bitmap_start(), l.inode_count());
    lemma_free_count_same(d0, d1, l.data_bitmap_start(), l.data_area_blocks as int);
    assert forall|id: int, s: int|
        inode_used(l, d0, id) && id != i0 && valid_slot(nblocks(node(l, d0, id)), s) implies d1[
    #[trigger] islot(l, d0, i0, r, id, s)] == d0[islot(l, d0, i0, r, id, s)] && data_used(
        l,
        d1,
        islot(l, d0, i0, r, id, s),
    ) by {
        lemma_slot_used(l, d0, i0, r, id, s);
    }
    if inode_used(l, d0, i0) {
        assert(node_ok(l, d0, node_or(l, d0, i0, r, i0)));
        assert forall|s: int| valid_slot(nblocks(r), s) implies d1[#[trigger] r.slot(d0, s)]
            == d0[r.slot(d0, s)] by {
            assert(data_used(l, d0, r.slot(d0, s)));
        }
        lemma_node_frame(l, d0, d1, r);
        assert(node_ok(l, d1, r)) by {
            assert forall|s: int| valid_slot(nblocks(r), s) implies data_used(
                l,
                d1,
                #[trigger] r.slot(d1, s),
            ) by {
                assert(r.slot(d1, s) == r.slot(d0, s));
                assert(data_used(l, d0, r.slot(d0, s)));
            }
        }
        assert forall|id: int, s: int, t: int|
            inode_used(l, d1, i0) && inode_used(l, d0, id) && id != i0 && valid_slot(nblocks(r), s)
                && valid_slot(nblocks(node(l, d0, id)), t) implies #[trigger] r.slot(d1, s)
            != #[trigger] islot(l, d0, i0, r, id, t) by {
            assert(r.slot(d1, s) == r.slot(d0, s));
            assert(islot(l, d0, i0, r, i0, s) != islot(l, d0, i0, r, id, t));
        }
    }
    lemma_chains_step(l, d0, d1, i0, r, r);
    lemma_override(l, d1, i0, r, 0, node(l, d1, 0));
}

/// Allocating the free inode slot `x`, for which the record `r` of an
/// empty file stands, keeps the chains of all inodes sound and leaves the
/// other inodes alone.
pub proof fn lemma_inode_bit_step(l: Layout, d0: Disk, d1: Disk, x: int, r: InodeRec)
    requires
        disk_wf(d0),
        l.valid(),
        d0.len() == l.total_blocks,
        chains_ok(l, d0, 0, node(l, d0, 0)),
        0 <= x < l.inode_count(),
        !inode_used(l, d0, x),
        r.size == 0,
        r.tidy(0),
        r.direct.len() == crate::layout::INODE_DIRECT_COUNT,
        d1 == disk_with_bit(d0, l.inode_bitmap_start(), x, true),
    ensures
        disk_wf(d1),
        d1.len() == d0.len(),
        chains_ok(l, d1, x, r),
        others_same(l, d0, d1, x),
        inode_used(l, d1, x),
        forall|id: int| 0 <= id < l.inode_count() ==> #[trigger] node(l, d1, id) == node(l, d0, id),
        forall|b: int| #[trigger] data_used(l, d1, b) == data_used(l, d0, b),
        superblock_ok(l, d0) ==> superblock_ok(l, d1),
        free_inodes(l, d1) == free_inodes(l, d0) - 1,
        free_data(l, d1) == free_data(l, d0),
{
    reveal(chains_ok);
    let start = l.inode_bitmap_start();
    lemma_disk_with_bit(d0, start, l.inode_bitmap_blocks as int, x, true);
    lemma_free_count_flip(d0, d1, start, l.inode_count(), x);
    lemma_override(l, d0, 0, node(l, d0, 0), x, r);
    assert forall|id: int| 0 <= id < l.inode_count() implies #[trigger] node(l, d1, id) == node(
        l,
        d0,
        id,
    ) by {
        let b = l.inode_block(id);
        assert(l.inode_area_start() <= b < l.data_area_start());
    }
    assert forall|j: int| 0 <= j < l.data_area_blocks implies bit_at(d1, l.data_bitmap_start(), j)
        == bit_at(d0, l.data_bitmap_start(), j) by {
        let b = crate::bitmap::bit_block(l.data_bitmap_start(), j);
        assert(l.data_bitmap_start() <= b < l.inode_area_start());
    }
    assert forall|b: int| #[trigger] data_used(l, d1, b) == data_used(l, d0, b) by {
        if l.in_data_area(b) {
            let j = b - l.data_area_start();
            assert(bit_at(d1, l.data_bitmap_start(), j) == bit_at(d0, l.data_bitmap_start(), j));
        }
    }
    lemma_free_count_same(d0, d1, l.data_bitmap_start(), l.data_area_blocks as int);
    assert forall|id: int, s: int|
        inode_used(l, d0, id) && id != x && valid_slot(nblocks(node(l, d0, id)), s) implies d1[
    #[trigger] islot(l, d0, x, r, id, s)] == d0[islot(l, d0, x, r, id, s)] && data_used(
        l,
        d1,
        islot(l, d0, x, r, id, s),
    ) by {
        lemma_slot_used(l, d0, x, r, id, s);
    }
    assert(node_ok(l, d1, r));
    lemma_chains_step(l, d0, d1, x, r, r);
}

/// The layout that formatting a disk of `total_blocks` blocks with
/// `inode_bitmap_blocks` blocks of inode bitmap gives: an inode slot for
/// every bit of the inode bitmap, and the rest of the disk divided between
/// the data bitmap and the data region. `None` where the disk is too small.
pub open spec fn format_layout(total_blocks: u32, inode_bitmap_blocks: u32) -> Option<Layout> {
    let inode_area = inode_bitmap_blocks * (BLOCK_BITS / INODES_PER_BLOCK);
    let rest = total_blocks - 1 - inode_bitmap_blocks - inode_area;
    let data_bitmap = (rest + BLOCK_BITS) / (BLOCK_BITS + 1);
    if inode_bitmap_blocks >= 1 && inode_bitmap_blocks * BLOCK_BITS <= u32::MAX && rest >= 2 {
        Some(
            Layout {
                total_blocks,
                inode_bitmap_blocks,
                data_bitmap_blocks: data_bitmap as u32,
                inode_area_blocks: inode_area as u32,
                data_area_blocks: (rest - data_bitmap) as u32,
            },
        )
    } else {
        None
    }
}

/// A bitmap whose blocks are zero has no bit set.
pub proof fn lemma_zero_bits(d: Disk, start: int, blocks: int, n: int)
    requires
        0 <= start,
        0 <= n <= blocks * BLOCK_BITS,
        forall|b: int| start <= b < start + blocks ==> #[trigger] d[b] == zeros(BLOCK_SZ as int),
    ensures
        forall|j: int| 0 <= j < n ==> !bit_at(d, start, j),
        free_count(d, start, n) == n,
    decreases n,
{
    assert forall|j: int| 0 <= j < n implies !bit_at(d, start, j) by {
        let b = crate::bitmap::bit_block(start, j);
        assert(d[b] == zeros(BLOCK_SZ as int));
        let k = (j % 8) as u8;
        assert(!bit_of(0u8, k)) by (bit_vector);
    }
    if n > 0 {
        lemma_zero_bits(d, start, blocks, n - 1);
    }
}

/// A filesystem on a block device.
pub struct EasyFileSystem<D: BlockDevice> {
    pub cache: BlockCache<D>,
    pub layout: Layout,
    pub inode_bitmap: Bitmap,
    pub data_bitmap: Bitmap,
    pub journal: Journal,
}

impl<D: BlockDevice> EasyFileSystem<D> {
    /// The layout of the disk.
    pub open spec fn layout(&self) -> Layout {
        self.layout
    }

    /// The content of the disk, as every operation sees it.
    pub open spec fn disk(&self) -> Disk {
        self.cache@
    }

    /// The content of the device itself, without what the cache has not
    /// written back yet.
    pub open spec fn durable(&self) -> Disk {
        self.cache.durable()
    }

    /// Whether journaling is enabled.
    pub open spec fn journaling(&self) -> bool {
        self.journal.enabled()
    }

    /// The state of the transaction protocol.
    pub open spec fn journal_state(&self) -> TxState {
        self.journal.state()
    }

    /// The journal of the filesystem.
    pub open spec fn journal(&self) -> Journal {
        self.journal
    }

    /// The parts of the filesystem fit together: the bitmaps lie where the
    /// layout says, and no transaction is in progress.
    pub open spec fn wf(&self) -> bool {
        &&& self.geometry_ok()
        &&& self.journal().wf()
        &&& self.journal().state() == TxState::Idle
    }

    /// The cache and the bitmaps fit the layout.
    pub open spec fn geometry_ok(&self) -> bool {
        &&& self.cache.wf()
        &&& self.layout.valid()
        &&& self.cache@.len() == self.layout.total_blocks
        &&& self.inode_bitmap.start_block_id == 1
        &&& self.inode_bitmap.blocks == self.layout.inode_bitmap_blocks
        &&& self.inode_bitmap.bits == self.layout.inode_count()
        &&& self.data_bitmap.start_block_id == self.layout.data_bitmap_start()
        &&& self.data_bitmap.blocks == self.layout.data_bitmap_blocks
        &&& self.data_bitmap.bits == self.layout.data_area_blocks
    }

    /// The filesystem's invariant: its parts fit together and the disk
    /// holds a consistent filesystem.
    pub open spec fn inv(&self) -> bool {
        &&& self.wf()
        &&& consistent(self.layout(), self.disk())
    }

    /// What the filesystem holds.
    pub open spec fn view(&self) -> Map<int, NodeView> {
        fs_view(self.layout(), self.disk())
    }

    /// The entries of the root directory.
    pub open spec fn entries(&self) -> Seq<EntryView> {
        root_entries(self.layout(), self.disk())
    }

    /// The number of free blocks of the data region.
    pub open spec fn free_data_blocks(&self) -> int {
        free_data(self.layout(), self.disk())
    }

    /// The number of free inode slots.
    pub open spec fn free_inode_slots(&self) -> int {
        free_inodes(self.layout(), self.disk())
    }

    /// The block and the byte within it at which the record of inode
    /// `inode_id` is stored.
    pub fn get_disk_inode_pos(&self, inode_id: u32) -> (pos: (u32, usize))
        requires
            self.geometry_ok(),
            inode_id < self.layout().inode_count(),
        ensures
            pos.0 == self.layout().inode_block(inode_id as int),
            pos.1 == Layout::inode_offset(inode_id as int),
            self.layout().inode_area_start() <= pos.0 < self.layout().data_area_start(),
            pos.1 + INODE_SZ <= BLOCK_SZ,
    {
        self.get_disk_inode_pos_raw(inode_id)
    }

    /// A filesystem whose parts fit has a disk of whole blocks, as many as
    /// the layout says.
    pub proof fn lemma_geometry(&self)
        requires
            self.geometry_ok(),
        ensures
            disk_wf(self.disk()),
            self.layout().valid(),
            self.disk().len() == self.layout().total_blocks,
    {
        self.cache.lemma_view_wf();
    }

    /// Allocates the lowest free block of the data region and returns its
    /// number, or returns `None` and changes nothing where no block is free.
    pub fn alloc_data(&mut self) -> (r: Option<u32>)
        requires
            old(self).geometry_ok(),
        ensures
            final(self).geometry_ok(),
            final(self).layout() == old(self).layout(),
            final(self).journal() == old(self).journal(),
            match r {
                Some(b) => {
                    &&& old(self).layout().in_data_area(b as int)
                    &&& forall|c: int|
                        old(self).layout().data_area_start() <= c < b ==> data_used(
                            old(self).layout(),
                            old(self).disk(),
                            c,
                        )
                    &&& allocated(old(self).layout(), old(self).disk(), final(self).disk(), seq![b])
                },
                None => {
                    &&& free_data(old(self).layout(), old(self).disk()) == 0
                    &&& final(self).disk() == old(self).disk()
                },
            },
    {
        let ghost l = self.layout;
        let ghost d0 = self.cache@;
        proof {
            self.cache.lemma_view_wf();
        }
        match self.data_bitmap.alloc_bit(&mut self.cache) {
            Some(bit) => {
                let b = (1 + self.layout.inode_bitmap_blocks + self.layout.data_bitmap_blocks
                    + self.layout.inode_area_blocks) + bit as u32;
                proof {
                    let d1 = self.cache@;
                    let start = l.data_bitmap_start();
                    lemma_disk_with_bit(d0, start, l.data_bitmap_blocks as int, bit as int, true);
                    lemma_free_count_flip(d0, d1, start, l.data_area_blocks as int, bit as int);
                    assert forall|c: int| l.data_area_start() <= c < b implies data_used(l, d0, c) by {
                        assert(self.data_bitmap.bit(d0, c - l.data_area_start()));
                    }
                    let blocks = seq![b];
                    assert(blocks[0] == b);
                    assert forall|c: int| l.in_data_area(c) implies (#[trigger] data_used(l, d1, c)
                        <==> data_used(l, d0, c) || among_blocks(blocks, c)) by {
                        let j = c - l.data_area_start();
                        assert(bit_at(d1, start, j) == (if j == bit {
                            true
                        } else {
                            bit_at(d0, start, j)
                        }));
                        if among_blocks(blocks, c) {
                            assert(c == b);
                        }
                        if j == bit {
                            assert(blocks[0] == c);
                        }
                    }
                }
                Some(b)
            },
            None => {
                proof {
                    assert forall|j: int| 0 <= j < l.data_area_blocks implies bit_at(
                        d0,
                        l.data_bitmap_start(),
                        j,
                    ) by {
                        assert(self.data_bitmap.bit(d0, j));
                    }
                    lemma_free_count_zero(d0, l.data_bitmap_start(), l.data_area_blocks as int);
                }
                None
            },
        }
    }

    /// Releases block `block_id` of the data region, which must be
    /// allocated.
    pub fn dealloc_data(&mut self, block_id: u32)
        requires
            old(self).geometry_ok(),
            data_used(old(self).layout(), old(self).disk(), block_id as int),
        ensures
            final(self).geometry_ok(),
            final(self).layout() == old(self).layout(),
            final(self).journal() == old(self).journal(),
            released(old(self).layout(), old(self).disk(), final(self).disk(), seq![block_id]),
    {
        let ghost l = self.layout;
        let ghost d0 = self.cache@;
        proof {
            self.cache.lemma_view_wf();
        }
        let bit = (block_id - (1 + self.layout.inode_bitmap_blocks + self.layout.data_bitmap_blocks
            + self.layout.inode_area_blocks)) as usize;
        self.data_bitmap.dealloc_bit(&mut self.cache, bit);
        proof {
            let d1 = self.cache@;
            let start = l.data_bitmap_start();
            lemma_disk_with_bit(d0, start, l.data_bitmap_blocks as int, bit as int, false);
            lemma_free_count_flip(d0, d1, start, l.data_area_blocks as int, bit as int);
            let blocks = seq![block_id];
            assert(blocks[0] == block_id);
            assert forall|c: int| l.in_data_area(c) implies (#[trigger] data_used(l, d1, c)
                <==> data_used(l, d0, c) && !among_blocks(blocks, c)) by {
                let j = c - l.data_area_start();
                assert(bit_at(d1, start, j) == (if j == bit {
                    false
                } else {
                    bit_at(d0, start, j)
                }));
                if among_blocks(blocks, c) {
                    assert(c == block_id);
                }
                if j == bit {
                    assert(blocks[0] == c);
                }
            }
        }
    }

    /// Counts the free blocks of the data region.
    pub fn count_free_data(&mut self) -> (n: usize)
        requires
            old(self).geometry_ok(),
        ensures
            final(self).geometry_ok(),
            final(self).layout() == old(self).layout(),
            final(self).journal() == old(self).journal(),
            final(self).disk() == old(self).disk(),
            n == free_data(old(self).layout(), old(self).disk()),
    {
        proof {
            self.cache.lemma_view_wf();
        }
        self.data_bitmap.count_free(&mut self.cache)
    }

    /// Allocates `count` blocks of the data region, lowest first. There
    /// must be that many free blocks.
    pub fn alloc_blocks(&mut self, count: usize) -> (blocks: Vec<u32>)
        requires
            old(self).geometry_ok(),
            count <= free_data(old(self).layout(), old(self).disk()),
        ensures
            final(self).geometry_ok(),
            final(self).layout() == old(self).layout(),
            final(self).journal() == old(self).journal(),
            blocks@.len() == count,
            allocated(old(self).layout(), old(self).disk(), final(self).disk(), blocks@),
    {
        let ghost l = self.layout;
        let ghost d0 = self.cache@;
        let mut blocks: Vec<u32> = Vec::new();
        proof {
            self.cache.lemma_view_wf();
            assert forall|b: int| !among_blocks(blocks@, b) by {}
        }
        let mut k: usize = 0;
        while k < count
            invariant
                k <= count,
                count <= free_data(l, d0),
                self.geometry_ok(),
                self.layout() == l,
                self.journal() == old(self).journal(),
                l.valid(),
                disk_wf(d0),
                d0.len() == l.total_blocks,
                blocks@.len() == k,
                allocated(l, d0, self.disk(), blocks@),
            decreases count - k,
        {
            let ghost d = self.disk();
            let ghost before = blocks@;
            match self.alloc_data() {
                Some(b) => {
                    blocks.push(b);
                    proof {
                        let d1 = self.disk();
                        let one = seq![b];
                        assert(one[0] == b);
                        assert(!data_used(l, d, b as int));
                        assert forall|i: int| 0 <= i < blocks@.len() implies l.in_data_area(
                            #[trigger] blocks@[i] as int,
                        ) && !data_used(l, d0, blocks@[i] as int) by {
                            if i < before.len() {
                                assert(blocks@[i] == before[i]);
                            } else {
                                assert(!among_blocks(before, b as int)) by {
                                    if among_blocks(before, b as int) {
                                        assert(data_used(l, d, b as int));
                                    }
                                }
                            }
                        }
                        assert forall|i: int, j: int| 0 <= i < j < blocks@.len() implies #[trigger] blocks@[i]
                            != #[trigger] blocks@[j] by {
                            if j < before.len() {
                                assert(blocks@[i] == before[i] && blocks@[j] == before[j]);
                            } else {
                                assert(blocks@[i] == before[i]);
                                assert(among_blocks(before, before[i] as int));
                                assert(data_used(l, d, before[i] as int));
                            }
                        }
                        assert forall|c: int| l.in_data_area(c) implies (#[trigger] data_used(l, d1, c)
                            <==> data_used(l, d0, c) || among_blocks(blocks@, c)) by {
                            assert(data_used(l, d1, c) <==> data_used(l, d, c) || among_blocks(one, c));
                            assert(data_used(l, d, c) <==> data_used(l, d0, c) || among_blocks(
                                before,
                                c,
                            ));
                            if among_blocks(before, c) {
                                let i = choose|i: int| 0 <= i < before.len() && #[trigger] before[i] == c;
                                assert(blocks@[i] == c);
                            }
                            if among_blocks(one, c) {
                                assert(blocks@[before.len() as int] == c);
                            }
                            if among_blocks(blocks@, c) {
                                let i = choose|i: int|
                                    0 <= i < blocks@.len() && #[trigger] blocks@[i] == c;
                                if i < before.len() {
                                    assert(before[i] == c);
                                } else {
                                    assert(one[0] == c);
                                }
                            }
                        }
                    }
                },
                None => {
                    assert(false);
                },
            }
            k += 1;
        }
        blocks
    }

    /// Releases the blocks of `blocks`, which must be allocated and differ
    /// from one another.
    pub fn dealloc_blocks(&mut self, blocks: &Vec<u32>)
        requires
            old(self).geometry_ok(),
            forall|i: int|
                0 <= i < blocks@.len() ==> data_used(
                    old(self).layout(),
                    old(self).disk(),
                    #[trigger] blocks@[i] as int,
                ),
            forall|i: int, j: int|
                0 <= i < j < blocks@.len() ==> #[trigger] blocks@[i] != #[trigger] blocks@[j],
        ensures
            final(self).geometry_ok(),
            final(self).layout() == old(self).layout(),
            final(self).journal() == old(self).journal(),
            released(old(self).layout(), old(self).disk(), final(self).disk(), blocks@),
    {
        let ghost l = self.layout;
        let ghost d0 = self.cache@;
        proof {
            self.cache.lemma_view_wf();
            assert forall|b: int| !among_blocks(blocks@.subrange(0, 0), b) by {}
        }
        let mut k: usize = 0;
        while k < blocks.len()
            invariant
                k <= blocks@.len(),
                self.geometry_ok(),
                self.layout() == l,
                self.journal() == old(self).journal(),
                l.valid(),
                disk_wf(d0),
                d0.len() == l.total_blocks,
                forall|i: int| 0 <= i < blocks@.len() ==> data_used(l, d0, #[trigger] blocks@[i] as int),
                forall|i: int, j: int|
                    0 <= i < j < blocks@.len() ==> #[trigger] blocks@[i] != #[trigger] blocks@[j],
                released(l, d0, self.disk(), blocks@.subrange(0, k as int)),
            decreases blocks@.len() - k,
        {
            let ghost d = self.disk();
            let ghost before = blocks@.subrange(0, k as int);
            let ghost after = blocks@.subrange(0, k + 1);
            let b = blocks[k];
            proof {
                assert(!among_blocks(before, b as int)) by {
                    if among_blocks(before, b as int) {
                        let i = choose|i: int| 0 <= i < before.len() && #[trigger] before[i] == b;
                        assert(blocks@[i] != blocks@[k as int]);
                    }
                }
                assert(l.in_data_area(b as int));
            }
            self.dealloc_data(b);
            proof {
                let d1 = self.disk();
                let one = seq![b];
                assert(one[0] == b);
                assert forall|c: int| l.in_data_area(c) implies (#[trigger] data_used(l, d1, c)
                    <==> data_used(l, d0, c) && !among_blocks(after, c)) by {
                    assert(data_used(l, d1, c) <==> data_used(l, d, c) && !among_blocks(one, c));
                    assert(data_used(l, d, c) <==> data_used(l, d0, c) && !among_blocks(before, c));
                    if among_blocks(before, c) {
                        let i = choose|i: int| 0 <= i < before.len() && #[trigger] before[i] == c;
                        assert(after[i] == c);
                    }
                    if among_blocks(one, c) {
                        assert(after[k as int] == c);
                    }
                    if among_blocks(after, c) {
                        let i = choose|i: int| 0 <= i < after.len() && #[trigger] after[i] == c;
                        if i < before.len() {
                            assert(before[i] == c);
                        } else {
                            assert(one[0] == c);
                        }
                    }
                }
            }
            k += 1;
        }
        assert(blocks@.subrange(0, k as int) =~= blocks@);
    }

    /// Reads the record of inode `inode_id`.
    pub fn load_inode(&mut self, inode_id: u32) -> (inode: DiskInode)
        requires
            old(self).geometry_ok(),
            inode_id < old(self).layout().inode_count(),
        ensures
            final(self).geometry_ok(),
            final(self).layout() == old(self).layout(),
            final(self).journal() == old(self).journal(),
            final(self).disk() == old(self).disk(),
            inode.wf(),
            inode@ == node(old(self).layout(), old(self).disk(), inode_id as int),
    {
        let (block, offset) = self.get_disk_inode_pos_raw(inode_id);
        DiskInode::load(&mut self.cache, block as usize, offset)
    }

    /// Writes `inode` as the record of inode `inode_id`.
    pub fn store_inode(&mut self, inode_id: u32, inode: &DiskInode)
        requires
            old(self).geometry_ok(),
            inode_id < old(self).layout().inode_count(),
            inode.wf(),
        ensures
            final(self).geometry_ok(),
            final(self).layout() == old(self).layout(),
            final(self).journal() == old(self).journal(),
            final(self).disk() == disk_with_rec(
                old(self).disk(),
                old(self).layout().inode_block(inode_id as int),
                Layout::inode_offset(inode_id as int),
                inode@,
            ),
    {
        let (block, offset) = self.get_disk_inode_pos_raw(inode_id);
        proof {
            self.cache.lemma_view_wf();
            lemma_disk_with_rec(self.cache@, block as int, offset as int, inode@);
        }
        inode.store(&mut self.cache, block as usize, offset);
    }

    /// The position of the record of inode `inode_id`.
    fn get_disk_inode_pos_raw(&self, inode_id: u32) -> (pos: (u32, usize))
        requires
            self.geometry_ok(),
            inode_id < self.layout().inode_count(),
        ensures
            pos.0 == self.layout().inode_block(inode_id as int),
            pos.1 == Layout::inode_offset(inode_id as int),
            self.layout().inode_area_start() <= pos.0 < self.layout().data_area_start(),
            pos.1 + INODE_SZ <= BLOCK_SZ,
    {
        let block = 1 + self.layout.inode_bitmap_blocks + self.layout.data_bitmap_blocks + inode_id
            / (INODES_PER_BLOCK as u32);
        let offset = (inode_id as usize % INODES_PER_BLOCK) * INODE_SZ;
        (block, offset)
    }

    /// Allocates the lowest free inode slot and returns its number, or
    /// returns `None` and changes nothing where no slot is free.
    pub fn alloc_inode(&mut self) -> (r: Option<u32>)
        requires
            old(self).geometry_ok(),
        ensures
            final(self).geometry_ok(),
            final(self).layout() == old(self).layout(),
            final(self).journal() == old(self).journal(),
            match r {
                Some(x) => {
                    &&& x < old(self).layout().inode_count()
                    &&& !inode_used(old(self).layout(), old(self).disk(), x as int)
                    &&& forall|y: int|
                        0 <= y < x ==> inode_used(old(self).layout(), old(self).disk(), y)
                    &&& final(self).disk() == disk_with_bit(
                        old(self).disk(),
                        old(self).layout().inode_bitmap_start(),
                        x as int,
                        true,
                    )
                },
                None => {
                    &&& free_inodes(old(self).layout(), old(self).disk()) == 0
                    &&& final(self).disk() == old(self).disk()
                },
            },
    {
        let ghost l = self.layout;
        let ghost d0 = self.cache@;
        proof {
            self.cache.lemma_view_wf();
        }
        match self.inode_bitmap.alloc_bit(&mut self.cache) {
            Some(bit) => {
                proof {
                    assert forall|y: int| 0 <= y < bit implies inode_used(l, d0, y) by {
                        assert(self.inode_bitmap.bit(d0, y));
                    }
                }
                Some(bit as u32)
            },
            None => {
                proof {
                    assert forall|j: int| 0 <= j < l.inode_count() implies bit_at(
                        d0,
                        l.inode_bitmap_start(),
                        j,
                    ) by {
                        assert(self.inode_bitmap.bit(d0, j));
                    }
                    lemma_free_count_zero(d0, l.inode_bitmap_start(), l.inode_count());
                }
                None
            },
        }
    }

    /// Computes the layout that formatting gives.
    fn compute_layout(total_blocks: u32, inode_bitmap_blocks: u32) -> (r: Option<Layout>)
        ensures
            r == format_layout(total_blocks, inode_bitmap_blocks),
            r matches Some(l) ==> l.valid(),
    {
        if inode_bitmap_blocks == 0 || inode_bitmap_blocks > 1048575 {
            return None;
        }
        let inode_area: u64 = inode_bitmap_blocks as u64 * 1024;
        let meta: u64 = 1 + inode_bitmap_blocks as u64 + inode_area;
        if meta + 2 > total_blocks as u64 {
            return None;
        }
        let rest: u64 = total_blocks as u64 - meta;
        let data_bitmap: u64 = (rest + 4096) / 4097;
        Some(
            Layout {
                total_blocks,
                inode_bitmap_blocks,
                data_bitmap_blocks: data_bitmap as u32,
                inode_area_blocks: inode_area as u32,
                data_area_blocks: (rest - data_bitmap) as u32,
            },
        )
    }

    /// Formats `device` as an empty filesystem: a root directory without
    /// entries and nothing else. Returns `None`, having changed nothing,
    /// where the device has not `total_blocks` blocks or is too small for
    /// the layout.
    pub fn create(device: D, total_blocks: u32, inode_bitmap_blocks: u32, journaling: bool) -> (r:
        Option<Self>)
        requires
            disk_wf(device.blocks()),
        ensures
            r is Some <==> device.blocks().len() == total_blocks && format_layout(
                total_blocks,
                inode_bitmap_blocks,
            ) is Some,
            r matches Some(fs) ==> {
                &&& fs.inv()
                &&& Some(fs.layout()) == format_layout(total_blocks, inode_bitmap_blocks)
                &&& fs.journaling() == journaling
                &&& fs@ == Map::<int, NodeView>::empty().insert(
                    0,
                    NodeView {
                        kind: DiskInodeType::Directory,
                        link_count: 1,
                        content: Seq::<u8>::empty(),
                    },
                )
                &&& fs.entries().len() == 0
                &&& fs.free_data_blocks() == fs.layout().data_area_blocks
                &&& fs.free_inode_slots() == fs.layout().inode_count() - 1
                &&& fs.durable() == fs.disk()
            },
    {
        if device.num_blocks() != total_blocks as usize {
            return None;
        }
        let layout = match Self::compute_layout(total_blocks, inode_bitmap_blocks) {
            Some(l) => l,
            None => {
                return None;
            },
        };
        let mut cache = BlockCache::new(device);
        let meta_blocks = (1 + layout.inode_bitmap_blocks + layout.data_bitmap_blocks) as usize;
        Self::zero_blocks(&mut cache, meta_blocks);
        Self::write_superblock(&mut cache, &layout);
        let ghost ds = cache@;
        proof {
            cache.lemma_view_wf();
            lemma_zero_bits(
                ds,
                layout.inode_bitmap_start(),
                layout.inode_bitmap_blocks as int,
                layout.inode_count(),
            );
            lemma_zero_bits(
                ds,
                layout.data_bitmap_start(),
                layout.data_bitmap_blocks as int,
                layout.data_area_blocks as int,
            );
        }
        let mut fs = EasyFileSystem {
            cache,
            layout,
            inode_bitmap: Bitmap::new(
                1,
                layout.inode_bitmap_blocks as usize,
                layout.inode_area_blocks as usize * INODES_PER_BLOCK,
            ),
            data_bitmap: Bitmap::new(
                (1 + layout.inode_bitmap_blocks) as usize,
                layout.data_bitmap_blocks as usize,
                layout.data_area_blocks as usize,
            ),
            journal: Journal::new(journaling),
        };
        let root = DiskInode::initialize(DiskInodeType::Directory);
        match fs.alloc_inode() {
            Some(id) => {
                assert(id == 0) by {
                    if id > 0 {
                        assert(inode_used(layout, ds, 0));
                    }
                }
                let ghost d1 = fs.disk();
                fs.store_inode(0, &root);
                fs.cache.sync_all();
                proof {
                    let d2 = fs.disk();
                    lemma_formatted(layout, ds, d1, d2, root@);
                }
                Some(fs)
            },
            None => {
                proof {
                    lemma_free_count_bounds(ds, layout.inode_bitmap_start(), layout.inode_count());
                    assert(false);
                }
                None
            },
        }
    }

    /// Takes `device` as the filesystem that its superblock describes.
    /// Returns `None` where block 0 is no superblock or describes a layout
    /// that does not fit the device.
    pub fn open(device: D, journaling: bool) -> (r: Option<Self>)
        requires
            disk_wf(device.blocks()),
        ensures
            r is Some <==> device.blocks().len() >= 1 && word_at(device.blocks()[0], 0) == EFS_MAGIC
                && superblock_layout(device.blocks()[0]).valid() && superblock_layout(
                device.blocks()[0],
            ).total_blocks == device.blocks().len(),
            r matches Some(fs) ==> {
                &&& fs.wf()
                &&& fs.layout() == superblock_layout(device.blocks()[0])
                &&& fs.disk() == device.blocks()
                &&& fs.durable() == device.blocks()
                &&& fs.journaling() == journaling
            },
    {
        let total = device.num_blocks();
        if total == 0 {
            return None;
        }
        let mut cache = BlockCache::new(device);
        let (magic, layout) = Self::read_superblock(&mut cache);
        if magic != EFS_MAGIC || !Self::check_layout(&layout, total) {
            return None;
        }
        Some(
            EasyFileSystem {
                cache,
                layout,
                inode_bitmap: Bitmap::new(
                    1,
                    layout.inode_bitmap_blocks as usize,
                    layout.inode_area_blocks as usize * INODES_PER_BLOCK,
                ),
                data_bitmap: Bitmap::new(
                    (1 + layout.inode_bitmap_blocks) as usize,
                    layout.data_bitmap_blocks as usize,
                    layout.data_area_blocks as usize,
                ),
                journal: Journal::new(journaling),
            },
        )
    }

    /// Reads the magic number and the layout from block 0.
    fn read_superblock(cache: &mut BlockCache<D>) -> (r: (u32, Layout))
        requires
            old(cache).wf(),
            old(cache)@.len() >= 1,
        ensures
            final(cache).wf(),
            final(cache)@ == old(cache)@,
            final(cache).durable() == old(cache)@,
            r.0 == word_at(old(cache)@[0], 0),
            r.1 == superblock_layout(old(cache)@[0]),
    {
        let magic = cache.read_u32(0, 0);
        let total_blocks = cache.read_u32(0, 4);
        let inode_bitmap_blocks = cache.read_u32(0, 8);
        let data_bitmap_blocks = cache.read_u32(0, 12);
        let inode_area_blocks = cache.read_u32(0, 16);
        let data_area_blocks = cache.read_u32(0, 20);
        cache.sync_all();
        (
            magic,
            Layout {
                total_blocks,
                inode_bitmap_blocks,
                data_bitmap_blocks,
                inode_area_blocks,
                data_area_blocks,
            },
        )
    }

    /// Tells whether `layout` is valid and describes a disk of `total`
    /// blocks.
    fn check_layout(layout: &Layout, total: usize) -> (r: bool)
        ensures
            r == (layout.valid() && layout.total_blocks == total),
    {
        let inode_count: u64 = layout.inode_area_blocks as u64 * 4;
        let start: u64 = 1 + layout.inode_bitmap_blocks as u64 + layout.data_bitmap_blocks as u64
            + layout.inode_area_blocks as u64;
        layout.total_blocks as usize == total && layout.inode_bitmap_blocks >= 1
            && layout.inode_area_blocks >= 1 && inode_count <= layout.inode_bitmap_blocks as u64
            * 4096 && inode_count <= 0xffff_ffff && layout.data_area_blocks as u64
            <= layout.data_bitmap_blocks as u64 * 4096 && start + layout.data_area_blocks as u64
            == layout.total_blocks as u64
    }

    /// Fills the first `count` blocks with zeros.
    fn zero_blocks(cache: &mut BlockCache<D>, count: usize)
        requires
            old(cache).wf(),
            count <= old(cache)@.len(),
        ensures
            final(cache).wf(),
            final(cache)@.len() == old(cache)@.len(),
            forall|c: int| 0 <= c < count ==> #[trigger] final(cache)@[c] == zeros(BLOCK_SZ as int),
    {
        let mut b: usize = 0;
        while b < count
            invariant
                b <= count,
                cache.wf(),
                cache@.len() == old(cache)@.len(),
                count <= cache@.len(),
                forall|c: int| 0 <= c < b ==> #[trigger] cache@[c] == zeros(BLOCK_SZ as int),
            decreases count - b,
        {
            proof {
                cache.lemma_view_wf();
                crate::disk_inode::lemma_zero_block(cache@, b as int);
            }
            cache.fill_zero(b, 0, BLOCK_SZ);
            b += 1;
        }
    }

    /// Writes the superblock of `layout` to block 0.
    fn write_superblock(cache: &mut BlockCache<D>, layout: &Layout)
        requires
            old(cache).wf(),
            old(cache)@.len() >= 1,
        ensures
            final(cache).wf(),
            final(cache)@.len() == old(cache)@.len(),
            superblock_ok(*layout, final(cache)@),
            forall|b: int| 1 <= b < old(cache)@.len() ==> #[trigger] final(cache)@[b] == old(cache)@[b],
    {
        let ghost dz = cache@;
        proof {
            cache.lemma_view_wf();
        }
        cache.write_u32(0, 0, EFS_MAGIC);
        cache.write_u32(0, 4, layout.total_blocks);
        cache.write_u32(0, 8, layout.inode_bitmap_blocks);
        cache.write_u32(0, 12, layout.data_bitmap_blocks);
        cache.write_u32(0, 16, layout.inode_area_blocks);
        cache.write_u32(0, 20, layout.data_area_blocks);
        proof {
            lemma_superblock_written(dz, cache@, *layout);
        }
    }

    /// Writes everything back and gives up the device.
    pub fn close(self) -> (device: D)
        requires
            self.geometry_ok(),
        ensures
            device.blocks() == self.disk(),
    {
        self.cache.into_device()
    }
}

/// Six words written at the start of a zero block make it the superblock
/// of the layout, and leave the other blocks as they were.
proof fn lemma_superblock_written(dz: Disk, ds: Disk, l: Layout)
    requires
        disk_wf(dz),
        dz.len() >= 1,
        ({
            let b0 = dz[0];
            let b1 = crate::layout::splice(b0, 0, crate::layout::word_bytes(EFS_MAGIC));
            let b2 = crate::layout::splice(b1, 4, crate::layout::word_bytes(l.total_blocks));
            let b3 = crate::layout::splice(b2, 8, crate::layout::word_bytes(l.inode_bitmap_blocks));
            let b4 = crate::layout::splice(b3, 12, crate::layout::word_bytes(l.data_bitmap_blocks));
            let b5 = crate::layout::splice(b4, 16, crate::layout::word_bytes(l.inode_area_blocks));
            let b6 = crate::layout::splice(b5, 20, crate::layout::word_bytes(l.data_area_blocks));
            ds == dz.update(0, b1).update(0, b2).update(0, b3).update(0, b4).update(0, b5).update(
                0,
                b6,
            )
        }),
    ensures
        disk_wf(ds),
        ds.len() == dz.len(),
        superblock_ok(l, ds),
        forall|b: int| 1 <= b < dz.len() ==> #[trigger] ds[b] == dz[b],
{
    let b0 = dz[0];
    let b1 = crate::layout::splice(b0, 0, crate::layout::word_bytes(EFS_MAGIC));
    let b2 = crate::layout::splice(b1, 4, crate::layout::word_bytes(l.total_blocks));
    let b3 = crate::layout::splice(b2, 8, crate::layout::word_bytes(l.inode_bitmap_blocks));
    let b4 = crate::layout::splice(b3, 12, crate::layout::word_bytes(l.data_bitmap_blocks));
    let b5 = crate::layout::splice(b4, 16, crate::layout::word_bytes(l.inode_area_blocks));
    let b6 = crate::layout::splice(b5, 20, crate::layout::word_bytes(l.data_area_blocks));
    assert(b0.len() == BLOCK_SZ);
    crate::layout::lemma_word_splice(b0, 0, EFS_MAGIC);
    crate::layout::lemma_word_splice(b1, 4, l.total_blocks);
    crate::layout::lemma_word_splice(b2, 8, l.inode_bitmap_blocks);
    crate::layout::lemma_word_splice(b3, 12, l.data_bitmap_blocks);
    crate::layout::lemma_word_splice(b4, 16, l.inode_area_blocks);
    crate::layout::lemma_word_splice(b5, 20, l.data_area_blocks);
    assert(word_at(b6, 0) == word_at(b5, 0));
    assert(word_at(b5, 0) == word_at(b4, 0));
    assert(word_at(b4, 0) == word_at(b3, 0));
    assert(word_at(b3, 0) == word_at(b2, 0));
    assert(word_at(b2, 0) == word_at(b1, 0));
    assert(word_at(b6, 4) == word_at(b5, 4));
    assert(word_at(b5, 4) == word_at(b4, 4));
    assert(word_at(b4, 4) == word_at(b3, 4));
    assert(word_at(b3, 4) == word_at(b2, 4));
    assert(word_at(b6, 8) == word_at(b5, 8));
    assert(word_at(b5, 8) == word_at(b4, 8));
    assert(word_at(b4, 8) == word_at(b3, 8));
    assert(word_at(b6, 12) == word_at(b5, 12));
    assert(word_at(b5, 12) == word_at(b4, 12));
    assert(word_at(b6, 16) == word_at(b5, 16));
    assert(ds[0] == b6);
}

/// A disk whose bitmaps are zero but for the bit of inode 0, and whose
/// record of inode 0 is an empty directory, holds an empty filesystem.
proof fn lemma_formatted(l: Layout, ds: Disk, d1: Disk, d2: Disk, root: InodeRec)
    requires
        disk_wf(ds),
        l.valid(),
        ds.len() == l.total_blocks,
        superblock_ok(l, ds),
        forall|j: int| 0 <= j < l.inode_count() ==> !bit_at(ds, l.inode_bitmap_start(), j),
        free_count(ds, l.inode_bitmap_start(), l.inode_count()) == l.inode_count(),
        free_count(ds, l.data_bitmap_start(), l.data_area_blocks as int) == l.data_area_blocks,
        d1 == disk_with_bit(ds, l.inode_bitmap_start(), 0, true),
        d2 == disk_with_rec(d1, l.inode_block(0), Layout::inode_offset(0), root),
        root.size == 0,
        root.tidy(0),
        root.link_count == 1,
        root.kind == DiskInodeType::Directory,
        root.direct.len() == crate::layout::INODE_DIRECT_COUNT,
    ensures
        consistent(l, d2),
        fs_view(l, d2) == Map::<int, NodeView>::empty().insert(
            0,
            NodeView { kind: DiskInodeType::Directory, link_count: 1, content: Seq::<u8>::empty() },
        ),
        root_entries(l, d2).len() == 0,
        free_data(l, d2) == l.data_area_blocks,
        free_inodes(l, d2) == l.inode_count() - 1,
{
    reveal(chains_ok);
    reveal(links_ok);
    assert forall|i: int| !inode_used(l, ds, i) by {}
    assert(chains_ok(l, ds, 0, node(l, ds, 0)));
    lemma_inode_bit_step(l, ds, d1, 0, root);
    lemma_store_step(l, d1, d2, 0, root);
    assert forall|i: int| inode_used(l, d2, i) <==> i == 0 by {
        assert(inode_used(l, d2, i) == inode_used(l, d1, i));
        if i != 0 {
            assert(inode_used(l, d1, i) == inode_used(l, ds, i));
        }
    }
    assert(node(l, d2, 0).content(d2) =~= Seq::<u8>::empty());
    assert(root_entries(l, d2) =~= Seq::<EntryView>::empty());
    assert(fs_view(l, d2) =~= Map::<int, NodeView>::empty().insert(
        0,
        NodeView { kind: DiskInodeType::Directory, link_count: 1, content: Seq::<u8>::empty() },
    ));
}

} // verus!
