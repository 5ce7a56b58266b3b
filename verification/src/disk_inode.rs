//! The on-disk inode: its record, and the chain of block pointers that maps
//! the bytes of a file to blocks of the disk.
//!
//! An inode record has 128 bytes, 32 little-endian words: the size in bytes,
//! the link count, the type tag, 27 direct block pointers, the
//! single-indirect pointer and the double-indirect pointer. A file's data
//! block `k` is found through a direct pointer for `k < 27`, through the
//! single-indirect index block for `k < 155`, and through the double-indirect
//! index block and one of its second-level index blocks beyond that.
//!
//! The pointers of a record that its chain does not use are zero: a cut
//! clears them. The entries of an index block beyond the end of the chain
//! are left as they are; nothing reads them, and growth overwrites them.

use vstd::prelude::*;
use crate::block_cache::BlockCache;
use crate::block_dev::BlockDevice;
use crate::layout::{
    disk_wf, lemma_word_at, splice, word_at, word_bytes, zeros, Disk, BLOCK_SZ, DIRECT_BOUND, INDIRECT1_BOUND,
    INDIRECT2_BOUND, INODE_DIRECT_COUNT, INODE_INDIRECT1_COUNT, INODE_SZ, MAX_FILE_SIZE,
};

verus! {

/// What an inode is.
#[derive(Clone, Copy, PartialEq, Eq, Debug, Structural)]
pub enum DiskInodeType {
    File,
    Directory,
}

/// The mathematical content of an inode record.
pub struct InodeRec {
    pub size: u32,
    pub link_count: u32,
    pub kind: DiskInodeType,
    pub direct: Seq<u32>,
    pub indirect1: u32,
    pub indirect2: u32,
}

/// An inode record held in memory.
pub struct DiskInode {
    pub size: u32,
    pub link_count: u32,
    pub direct: Vec<u32>,
    pub indirect1: u32,
    pub indirect2: u32,
    pub type_: DiskInodeType,
}

impl View for DiskInode {
    type V = InodeRec;

    open spec fn view(&self) -> InodeRec {
        InodeRec {
            size: self.size,
            link_count: self.link_count,
            kind: self.type_,
            direct: self.direct@,
            indirect1: self.indirect1,
            indirect2: self.indirect2,
        }
    }
}

/// Word `w` of the record that encodes `r`.
pub open spec fn rec_word(r: InodeRec, w: int) -> u32 {
    if w == 0 {
        r.size
    } else if w == 1 {
        r.link_count
    } else if w == 2 {
        match r.kind {
            DiskInodeType::File => 0u32,
            DiskInodeType::Directory => 1u32,
        }
    } else if w < 30 {
        r.direct[w - 3]
    } else if w == 30 {
        r.indirect1
    } else {
        r.indirect2
    }
}

/// The 128 bytes that encode `r`.
pub open spec fn rec_bytes(r: InodeRec) -> Seq<u8> {
    Seq::new(INODE_SZ as nat, |i: int| word_bytes(rec_word(r, i / 4))[i % 4])
}

/// The record that 128 bytes encode.
pub open spec fn rec_of(bytes: Seq<u8>) -> InodeRec {
    InodeRec {
        size: word_at(bytes, 0),
        link_count: word_at(bytes, 4),
        kind: if word_at(bytes, 8) == 0 {
            DiskInodeType::File
        } else {
            DiskInodeType::Directory
        },
        direct: Seq::new(INODE_DIRECT_COUNT as nat, |k: int| word_at(bytes, 12 + 4 * k)),
        indirect1: word_at(bytes, 120),
        indirect2: word_at(bytes, 124),
    }
}

/// The record stored in block `block` of `disk` at byte `off`.
pub open spec fn rec_at(disk: Disk, block: int, off: int) -> InodeRec {
    rec_of(disk[block].subrange(off, off + INODE_SZ))
}

/// `disk` with the record at byte `off` of block `block` replaced by `r`.
pub open spec fn disk_with_rec(disk: Disk, block: int, off: int, r: InodeRec) -> Disk {
    disk.update(block, splice(disk[block], off, rec_bytes(r)))
}

/// Word `w` of an encoded record decodes to word `w` of the record.
proof fn lemma_rec_word_at(r: InodeRec, w: int)
    requires
        0 <= w < 32,
    ensures
        word_at(rec_bytes(r), 4 * w) == rec_word(r, w),
{
    let bytes = rec_bytes(r);
    let v = rec_word(r, w);
    assert(bytes[4 * w] == word_bytes(v)[0]);
    assert(bytes[4 * w + 1] == word_bytes(v)[1]);
    assert(bytes[4 * w + 2] == word_bytes(v)[2]);
    assert(bytes[4 * w + 3] == word_bytes(v)[3]);
    lemma_word_at(bytes, 4 * w, v);
}

/// Decoding an encoded record gives the record back.
pub proof fn lemma_rec_roundtrip(r: InodeRec)
    requires
        r.direct.len() == INODE_DIRECT_COUNT,
    ensures
        rec_of(rec_bytes(r)) == r,
{
    let bytes = rec_bytes(r);
    lemma_rec_word_at(r, 0);
    lemma_rec_word_at(r, 1);
    lemma_rec_word_at(r, 2);
    lemma_rec_word_at(r, 30);
    lemma_rec_word_at(r, 31);
    assert forall|k: int| 0 <= k < 27 implies word_at(bytes, 12 + 4 * k) == r.direct[k] by {
        lemma_rec_word_at(r, k + 3);
    }
    assert(rec_of(bytes).direct =~= r.direct);
}

/// Storing a record makes it the record at its place, keeps the other
/// records of the block and every other block.
pub proof fn lemma_disk_with_rec(disk: Disk, block: int, off: int, r: InodeRec)
    requires
        disk_wf(disk),
        0 <= block < disk.len(),
        0 <= off,
        off + INODE_SZ <= BLOCK_SZ,
        r.direct.len() == INODE_DIRECT_COUNT,
    ensures
        disk_wf(disk_with_rec(disk, block, off, r)),
        disk_with_rec(disk, block, off, r).len() == disk.len(),
        rec_at(disk_with_rec(disk, block, off, r), block, off) == r,
        forall|o: int|
            0 <= o && o + INODE_SZ <= BLOCK_SZ && (o + INODE_SZ <= off || off + INODE_SZ <= o)
                ==> #[trigger] rec_at(disk_with_rec(disk, block, off, r), block, o) == rec_at(
                disk,
                block,
                o,
            ),
        forall|b: int|
            0 <= b < disk.len() && b != block ==> #[trigger] disk_with_rec(disk, block, off, r)[b]
                == disk[b],
{
    let d1 = disk_with_rec(disk, block, off, r);
    assert(disk[block].len() == BLOCK_SZ);
    assert(d1[block].subrange(off, off + INODE_SZ) =~= rec_bytes(r));
    lemma_rec_roundtrip(r);
    assert forall|o: int|
        0 <= o && o + INODE_SZ <= BLOCK_SZ && (o + INODE_SZ <= off || off + INODE_SZ
            <= o) implies #[trigger] rec_at(d1, block, o) == rec_at(disk, block, o) by {
        assert(d1[block].subrange(o, o + INODE_SZ) =~= disk[block].subrange(o, o + INODE_SZ));
    }
}

/// Appends the little-endian bytes of `v` to `bytes`.
fn push_word(bytes: &mut Vec<u8>, v: u32)
    ensures
        final(bytes)@ == old(bytes)@ + word_bytes(v),
{
    bytes.push((v % 256) as u8);
    bytes.push(((v / 256) % 256) as u8);
    bytes.push(((v / 65536) % 256) as u8);
    bytes.push(((v / 16777216) % 256) as u8);
    assert(bytes@ =~= old(bytes)@ + word_bytes(v));
}

/// Reads the little-endian word at `off` of `bytes`.
fn read_word(bytes: &Vec<u8>, off: usize) -> (v: u32)
    requires
        off + 4 <= bytes.len(),
    ensures
        v == word_at(bytes@, off as int),
{
    let b0: u32 = bytes[off] as u32;
    let b1: u32 = bytes[off + 1] as u32;
    let b2: u32 = bytes[off + 2] as u32;
    let b3: u32 = bytes[off + 3] as u32;
    b0 + 256 * b1 + 65536 * b2 + 16777216 * b3
}

impl DiskInode {
    /// The record has its 27 direct pointers.
    pub open spec fn wf(&self) -> bool {
        self.direct@.len() == INODE_DIRECT_COUNT
    }

    /// An empty inode of the given type, with one link.
    pub fn initialize(type_: DiskInodeType) -> (inode: DiskInode)
        ensures
            inode.wf(),
            inode@ == (InodeRec {
                size: 0,
                link_count: 1,
                kind: type_,
                direct: Seq::new(INODE_DIRECT_COUNT as nat, |k: int| 0u32),
                indirect1: 0,
                indirect2: 0,
            }),
    {
        let direct: Vec<u32> = vec![0u32; INODE_DIRECT_COUNT];
        assert(direct@ =~= Seq::new(INODE_DIRECT_COUNT as nat, |k: int| 0u32));
        DiskInode { size: 0, link_count: 1, direct, indirect1: 0, indirect2: 0, type_ }
    }

    /// Tells whether the inode is a directory.
    pub fn is_dir(&self) -> (r: bool)
        ensures
            r == (self@.kind == DiskInodeType::Directory),
    {
        self.type_ == DiskInodeType::Directory
    }

    /// Tells whether the inode is a file.
    pub fn is_file(&self) -> (r: bool)
        ensures
            r == (self@.kind == DiskInodeType::File),
    {
        self.type_ == DiskInodeType::File
    }

    /// The type of the inode.
    pub fn type_(&self) -> (t: DiskInodeType)
        ensures
            t == self@.kind,
    {
        self.type_
    }

    /// The 128 bytes that encode the record.
    pub fn encode(&self) -> (bytes: Vec<u8>)
        requires
            self.wf(),
        ensures
            bytes@ == rec_bytes(self@),
    {
        let ghost r = self@;
        let mut bytes: Vec<u8> = Vec::new();
        push_word(&mut bytes, self.size);
        push_word(&mut bytes, self.link_count);
        let tag: u32 = match self.type_ {
            DiskInodeType::File => 0,
            DiskInodeType::Directory => 1,
        };
        push_word(&mut bytes, tag);
        assert(bytes@ =~= rec_bytes(r).subrange(0, 12));
        let mut k: usize = 0;
        while k < INODE_DIRECT_COUNT
            invariant
                k <= INODE_DIRECT_COUNT,
                self.wf(),
                r == self@,
                bytes@ == rec_bytes(r).subrange(0, 12 + 4 * k),
            decreases INODE_DIRECT_COUNT - k,
        {
            push_word(&mut bytes, self.direct[k]);
            k += 1;
            assert(bytes@ =~= rec_bytes(r).subrange(0, 12 + 4 * k));
        }
        push_word(&mut bytes, self.indirect1);
        push_word(&mut bytes, self.indirect2);
        assert(bytes@ =~= rec_bytes(r));
        bytes
    }

    /// The record that the first 128 bytes of `bytes` encode.
    pub fn decode(bytes: &Vec<u8>) -> (inode: DiskInode)
        requires
            bytes@.len() >= INODE_SZ,
        ensures
            inode.wf(),
            inode@ == rec_of(bytes@.subrange(0, INODE_SZ as int)),
    {
        let ghost rec = bytes@.subrange(0, INODE_SZ as int);
        let size = read_word(bytes, 0);
        let link_count = read_word(bytes, 4);
        let tag = read_word(bytes, 8);
        let mut direct: Vec<u32> = Vec::new();
        let mut k: usize = 0;
        while k < INODE_DIRECT_COUNT
            invariant
                k <= INODE_DIRECT_COUNT,
                bytes@.len() >= INODE_SZ,
                direct@.len() == k,
                forall|j: int| 0 <= j < k ==> #[trigger] direct@[j] == word_at(bytes@, 12 + 4 * j),
            decreases INODE_DIRECT_COUNT - k,
        {
            let v = read_word(bytes, 12 + 4 * k);
            direct.push(v);
            k += 1;
        }
        let indirect1 = read_word(bytes, 120);
        let indirect2 = read_word(bytes, 124);
        let type_ = if tag == 0 {
            DiskInodeType::File
        } else {
            DiskInodeType::Directory
        };
        let inode = DiskInode { size, link_count, direct, indirect1, indirect2, type_ };
        proof {
            assert forall|o: int| 0 <= o && o + 4 <= INODE_SZ implies word_at(rec, o) == word_at(
                bytes@,
                o,
            ) by {}
            assert(inode@.direct =~= rec_of(rec).direct);
        }
        inode
    }

    /// Reads the record stored at byte `off` of block `block`.
    pub fn load<D: BlockDevice>(cache: &mut BlockCache<D>, block: usize, off: usize) -> (inode:
        DiskInode)
        requires
            old(cache).wf(),
            block < old(cache)@.len(),
            off + INODE_SZ <= BLOCK_SZ,
        ensures
            final(cache).wf(),
            final(cache)@ == old(cache)@,
            inode.wf(),
            inode@ == rec_at(old(cache)@, block as int, off as int),
    {
        let mut buf: Vec<u8> = vec![0u8; INODE_SZ];
        proof {
            cache.lemma_view_wf();
        }
        cache.read_range(block, off, &mut buf, 0, INODE_SZ);
        assert(buf@.subrange(0, INODE_SZ as int) =~= cache@[block as int].subrange(
            off as int,
            off + INODE_SZ,
        ));
        DiskInode::decode(&buf)
    }

    /// Writes the record to byte `off` of block `block`.
    pub fn store<D: BlockDevice>(&self, cache: &mut BlockCache<D>, block: usize, off: usize)
        requires
            old(cache).wf(),
            self.wf(),
            block < old(cache)@.len(),
            off + INODE_SZ <= BLOCK_SZ,
        ensures
            final(cache).wf(),
            final(cache)@ == disk_with_rec(old(cache)@, block as int, off as int, self@),
    {
        let bytes = self.encode();
        cache.write_range(block, off, bytes.as_slice(), 0, INODE_SZ);
        assert(bytes@.subrange(0, INODE_SZ as int) =~= rec_bytes(self@));
    }
}

/// The number of data blocks of a file of `size` bytes.
pub open spec fn spec_data_blocks(size: int) -> int {
    (size + BLOCK_SZ - 1) / (BLOCK_SZ as int)
}

/// The number of index blocks that a chain of `n` data blocks needs.
pub open spec fn index_count(n: int) -> int {
    if n <= DIRECT_BOUND {
        0
    } else if n <= INDIRECT1_BOUND {
        1
    } else {
        2 + (n - INDIRECT1_BOUND + INODE_INDIRECT1_COUNT - 1) / (INODE_INDIRECT1_COUNT as int)
    }
}

/// The number of blocks, data and index, of a file of `size` bytes.
pub open spec fn spec_total_blocks(size: int) -> int {
    spec_data_blocks(size) + index_count(spec_data_blocks(size))
}

/// Pointer `e` of the index block `b`.
pub open spec fn entry(disk: Disk, b: int, e: int) -> int {
    word_at(disk[b], 4 * e) as int
}

/// `s` numbers a block of a chain of `n` data blocks: data block `s` where
/// `s` is not negative, index block `-1 - s` where it is.
pub open spec fn valid_slot(n: int, s: int) -> bool {
    -index_count(n) <= s < n
}

/// Some block before position `upto` of `blocks` is `b`.
pub open spec fn among(blocks: Seq<u32>, upto: int, b: int) -> bool {
    exists|i: int| 0 <= i < upto && i < blocks.len() && #[trigger] blocks[i] == b
}

impl InodeRec {
    /// The block that holds data block `k` of the file.
    pub open spec fn block_id(self, disk: Disk, k: int) -> int {
        if k < DIRECT_BOUND {
            self.direct[k] as int
        } else if k < INDIRECT1_BOUND {
            entry(disk, self.indirect1 as int, k - DIRECT_BOUND)
        } else {
            entry(
                disk,
                entry(
                    disk,
                    self.indirect2 as int,
                    (k - INDIRECT1_BOUND) / (INODE_INDIRECT1_COUNT as int),
                ),
                (k - INDIRECT1_BOUND) % (INODE_INDIRECT1_COUNT as int),
            )
        }
    }

    /// Index block `m` of the chain: the single-indirect block, the
    /// double-indirect block, then the second-level blocks in order.
    pub open spec fn index_id(self, disk: Disk, m: int) -> int {
        if m == 0 {
            self.indirect1 as int
        } else if m == 1 {
            self.indirect2 as int
        } else {
            entry(disk, self.indirect2 as int, m - 2)
        }
    }

    /// The block in slot `s` of the chain.
    pub open spec fn slot(self, disk: Disk, s: int) -> int {
        if s >= 0 {
            self.block_id(disk, s)
        } else {
            self.index_id(disk, -1 - s)
        }
    }

    /// The chain of `n` data blocks is sound: its blocks, data and index,
    /// are blocks of the disk and no block occurs twice.
    pub open spec fn chain_wf(self, disk: Disk, n: int) -> bool {
        &&& self.direct.len() == INODE_DIRECT_COUNT
        &&& 0 <= n <= INDIRECT2_BOUND
        &&& forall|s: int| valid_slot(n, s) ==> 0 <= #[trigger] self.slot(disk, s) < disk.len()
        &&& forall|s: int, t: int|
            valid_slot(n, s) && valid_slot(n, t) && s != t ==> #[trigger] self.slot(disk, s)
                != #[trigger] self.slot(disk, t)
    }

    /// The pointers that a chain of `n` data blocks does not use are zero:
    /// the direct pointers from `n` on, the single-indirect pointer where
    /// the chain ends within the direct pointers, and the double-indirect
    /// pointer where it ends within the single-indirect block.
    pub open spec fn tidy(self, n: int) -> bool {
        &&& forall|k: int| 0 <= k < self.direct.len() && n <= k ==> #[trigger] self.direct[k] == 0
        &&& n <= DIRECT_BOUND ==> self.indirect1 == 0
        &&& n <= INDIRECT1_BOUND ==> self.indirect2 == 0
    }

    /// The pointers that a chain of `n` data blocks does not use are in
    /// `self` what they are in `before`.
    pub open spec fn spare_same(self, before: InodeRec, n: int) -> bool {
        &&& forall|k: int|
            0 <= k < self.direct.len() && n <= k ==> #[trigger] self.direct[k] == before.direct[k]
        &&& n <= DIRECT_BOUND ==> self.indirect1 == before.indirect1
        &&& n <= INDIRECT1_BOUND ==> self.indirect2 == before.indirect2
    }

    /// The record cut to `new_size` bytes: the size is the new one, and the
    /// pointers that the shorter chain does not use are zero.
    pub open spec fn cut(self, new_size: int) -> InodeRec {
        let n = spec_data_blocks(new_size);
        InodeRec {
            size: new_size as u32,
            direct: Seq::new(
                self.direct.len(),
                |k: int|
                    if k < n {
                        self.direct[k]
                    } else {
                        0u32
                    },
            ),
            indirect1: if n > DIRECT_BOUND {
                self.indirect1
            } else {
                0
            },
            indirect2: if n > INDIRECT1_BOUND {
                self.indirect2
            } else {
                0
            },
            ..self
        }
    }

    /// Block `b` belongs to the chain of `n` data blocks.
    pub open spec fn owns(self, disk: Disk, n: int, b: int) -> bool {
        exists|s: int| valid_slot(n, s) && #[trigger] self.slot(disk, s) == b
    }

    /// Block `b` is a data block of the chain of `n` data blocks.
    pub open spec fn owns_data(self, disk: Disk, n: int, b: int) -> bool {
        exists|k: int| 0 <= k < n && #[trigger] self.slot(disk, k) == b
    }

    /// Block `b` is an index block of the chain of `n` data blocks.
    pub open spec fn owns_index(self, disk: Disk, n: int, b: int) -> bool {
        exists|s: int| -index_count(n) <= s < 0 && #[trigger] self.slot(disk, s) == b
    }

    /// The bytes of the file.
    pub open spec fn content(self, disk: Disk) -> Seq<u8> {
        Seq::new(
            self.size as nat,
            |p: int| disk[self.block_id(disk, p / (BLOCK_SZ as int))][p % (BLOCK_SZ as int)],
        )
    }

    /// The blocks of `blocks` from position `from` on are blocks of the
    /// disk, differ from one another, and are not in the chain.
    pub open spec fn fresh_blocks(self, disk: Disk, n: int, blocks: Seq<u32>, from: int) -> bool {
        &&& forall|i: int| from <= i < blocks.len() ==> 0 <= #[trigger] blocks[i] < disk.len()
        &&& forall|i: int, j: int|
            from <= i < j < blocks.len() ==> #[trigger] blocks[i] != #[trigger] blocks[j]
        &&& forall|i: int, s: int|
            from <= i < blocks.len() && valid_slot(n, s) ==> #[trigger] self.slot(disk, s)
                != #[trigger] blocks[i]
    }
}

/// The chain `r1` on `d1` is the chain `r0` of `n` data blocks on `d0` with
/// one more data block, taken with the index blocks that it needs from
/// `blocks` at position `c`: index blocks first, the data block last. The
/// new data block is zero, and no block changed but index blocks of the
/// chain and the blocks taken.
pub open spec fn appended(
    r0: InodeRec,
    d0: Disk,
    r1: InodeRec,
    d1: Disk,
    n: int,
    blocks: Seq<u32>,
    c: int,
) -> bool {
    let used = 1 + index_count(n + 1) - index_count(n);
    &&& r1.size == r0.size
    &&& r1.link_count == r0.link_count
    &&& r1.kind == r0.kind
    &&& r1.direct.len() == INODE_DIRECT_COUNT
    &&& d1.len() == d0.len()
    &&& disk_wf(d1)
    &&& forall|s: int| valid_slot(n, s) ==> #[trigger] r1.slot(d1, s) == r0.slot(d0, s)
    &&& forall|m: int|
        index_count(n) <= m < index_count(n + 1) ==> #[trigger] r1.index_id(d1, m) == blocks[c + m
            - index_count(n)]
    &&& r1.block_id(d1, n) == blocks[c + used - 1]
    &&& d1[r1.block_id(d1, n)] == zeros(BLOCK_SZ as int)
    &&& r1.spare_same(r0, n + 1)
    &&& forall|b: int|
        0 <= b < d0.len() && !r0.owns_index(d0, n, b) && b != blocks[c] && (used >= 2 ==> b
            != blocks[c + 1]) && (used >= 3 ==> b != blocks[c + 2]) ==> #[trigger] d1[b] == d0[b]
}

/// Writing one pointer of an index block changes that pointer alone.
pub proof fn lemma_entry_update(disk: Disk, b: int, e: int, v: u32)
    requires
        disk_wf(disk),
        0 <= b < disk.len(),
        0 <= e < INODE_INDIRECT1_COUNT,
    ensures
        ({
            let d1 = disk.update(b, splice(disk[b], 4 * e, word_bytes(v)));
            &&& disk_wf(d1)
            &&& d1.len() == disk.len()
            &&& entry(d1, b, e) == v
            &&& forall|f: int|
                0 <= f < INODE_INDIRECT1_COUNT && f != e ==> #[trigger] entry(d1, b, f) == entry(
                    disk,
                    b,
                    f,
                )
        }),
{
    let d1 = disk.update(b, splice(disk[b], 4 * e, word_bytes(v)));
    assert(disk[b].len() == BLOCK_SZ);
    crate::layout::lemma_word_splice(disk[b], 4 * e, v);
    assert forall|f: int| 0 <= f < INODE_INDIRECT1_COUNT && f != e implies #[trigger] entry(
        d1,
        b,
        f,
    ) == entry(disk, b, f) by {
        assert(word_at(splice(disk[b], 4 * e, word_bytes(v)), 4 * f) == word_at(disk[b], 4 * f));
    }
}

/// Filling a block with zeros makes it the zero block.
pub proof fn lemma_zero_block(disk: Disk, b: int)
    requires
        disk_wf(disk),
        0 <= b < disk.len(),
    ensures
        ({
            let d1 = disk.update(b, splice(disk[b], 0, zeros(BLOCK_SZ as int)));
            &&& disk_wf(d1)
            &&& d1.len() == disk.len()
            &&& d1[b] == zeros(BLOCK_SZ as int)
        }),
{
    assert(disk[b].len() == BLOCK_SZ);
    assert(splice(disk[b], 0, zeros(BLOCK_SZ as int)) =~= zeros(BLOCK_SZ as int));
}

/// A sound chain stays sound when it is extended by blocks that are not
/// in it.
pub proof fn lemma_chain_append(
    r0: InodeRec,
    d0: Disk,
    r1: InodeRec,
    d1: Disk,
    n: int,
    blocks: Seq<u32>,
    c: int,
)
    requires
        r0.chain_wf(d0, n),
        n < INDIRECT2_BOUND,
        r1.direct.len() == INODE_DIRECT_COUNT,
        d1.len() == d0.len(),
        0 <= c,
        c + index_count(n + 1) - index_count(n) < blocks.len(),
        r0.fresh_blocks(d0, n, blocks, c),
        forall|s: int| valid_slot(n, s) ==> #[trigger] r1.slot(d1, s) == r0.slot(d0, s),
        forall|m: int|
            index_count(n) <= m < index_count(n + 1) ==> #[trigger] r1.index_id(d1, m) == blocks[c
                + m - index_count(n)],
        r1.block_id(d1, n) == blocks[c + index_count(n + 1) - index_count(n)],
    ensures
        r1.chain_wf(d1, n + 1),
        r1.fresh_blocks(d1, n + 1, blocks, c + 1 + index_count(n + 1) - index_count(n)),
{
    let next = c + 1 + index_count(n + 1) - index_count(n);
    // every slot of the longer chain is an old slot or one of the blocks used
    assert forall|s: int| valid_slot(n + 1, s) && !valid_slot(n, s) implies c <= (if s >= 0 {
        c + index_count(n + 1) - index_count(n)
    } else {
        c + (-1 - s) - index_count(n)
    }) < next && #[trigger] r1.slot(d1, s) == blocks[if s >= 0 {
        c + index_count(n + 1) - index_count(n)
    } else {
        c + (-1 - s) - index_count(n)
    }] by {
        if s >= 0 {
            assert(s == n);
        } else {
            assert(r1.slot(d1, s) == r1.index_id(d1, -1 - s));
        }
    }
    assert forall|s: int| valid_slot(n + 1, s) implies 0 <= #[trigger] r1.slot(d1, s)
        < d1.len() by {
        if valid_slot(n, s) {
            assert(r1.slot(d1, s) == r0.slot(d0, s));
        }
    }
    assert forall|s: int, t: int|
        valid_slot(n + 1, s) && valid_slot(n + 1, t) && s != t implies #[trigger] r1.slot(d1, s)
        != #[trigger] r1.slot(d1, t) by {
        if valid_slot(n, s) {
            assert(r1.slot(d1, s) == r0.slot(d0, s));
        }
        if valid_slot(n, t) {
            assert(r1.slot(d1, t) == r0.slot(d0, t));
        }
    }
    assert forall|i: int, s: int|
        next <= i < blocks.len() && valid_slot(n + 1, s) implies #[trigger] r1.slot(d1, s)
        != #[trigger] blocks[i] by {
        if valid_slot(n, s) {
            assert(r1.slot(d1, s) == r0.slot(d0, s));
        }
    }
}

impl DiskInode {
    /// The number of data blocks of a file of `size` bytes.
    pub fn data_blocks_of(size: u32) -> (n: u32)
        ensures
            n == spec_data_blocks(size as int),
    {
        let n = (size as u64 + BLOCK_SZ as u64 - 1) / (BLOCK_SZ as u64);
        n as u32
    }

    /// The number of data blocks of this inode.
    pub fn data_blocks(&self) -> (n: u32)
        ensures
            n == spec_data_blocks(self@.size as int),
    {
        Self::data_blocks_of(self.size)
    }

    /// The number of blocks, data and index, of a file of `size` bytes.
    pub fn total_blocks(size: u32) -> (n: u32)
        requires
            size <= MAX_FILE_SIZE,
        ensures
            n == spec_total_blocks(size as int),
    {
        let data_blocks = Self::data_blocks_of(size) as usize;
        let mut total = data_blocks;
        if data_blocks > INODE_DIRECT_COUNT {
            total += 1;
        }
        if data_blocks > INDIRECT1_BOUND {
            total += 1;
            total += (data_blocks - INDIRECT1_BOUND + INODE_INDIRECT1_COUNT - 1)
                / INODE_INDIRECT1_COUNT;
        }
        total as u32
    }

    /// The number of blocks that must be added to the chain for the file to
    /// reach `new_size` bytes. Index blocks count.
    pub fn blocks_num_needed(&self, new_size: u32) -> (n: u32)
        requires
            self@.size <= new_size <= MAX_FILE_SIZE,
        ensures
            n == spec_total_blocks(new_size as int) - spec_total_blocks(self@.size as int),
    {
        Self::total_blocks(new_size) - Self::total_blocks(self.size)
    }

    /// The block that holds data block `k` of the file.
    pub fn get_block_id<D: BlockDevice>(&self, cache: &mut BlockCache<D>, k: u32) -> (b: u32)
        requires
            old(cache).wf(),
            self.wf(),
            k < INDIRECT2_BOUND,
            k >= DIRECT_BOUND ==> self@.index_id(old(cache)@, 0) < old(cache)@.len(),
            k >= INDIRECT1_BOUND ==> self@.index_id(old(cache)@, 1) < old(cache)@.len()
                && self@.index_id(
                old(cache)@,
                2 + (k - INDIRECT1_BOUND) / (INODE_INDIRECT1_COUNT as int),
            ) < old(cache)@.len(),
        ensures
            final(cache).wf(),
            final(cache)@ == old(cache)@,
            b == self@.block_id(old(cache)@, k as int),
    {
        let k = k as usize;
        if k < DIRECT_BOUND {
            self.direct[k]
        } else if k < INDIRECT1_BOUND {
            cache.read_u32(self.indirect1 as usize, 4 * (k - DIRECT_BOUND))
        } else {
            let j = k - INDIRECT1_BOUND;
            let l2 = cache.read_u32(self.indirect2 as usize, 4 * (j / INODE_INDIRECT1_COUNT));
            cache.read_u32(l2 as usize, 4 * (j % INODE_INDIRECT1_COUNT))
        }
    }

    /// Appends data block `n` to a chain of `n` data blocks, within the
    /// direct pointers.
    fn append_direct<D: BlockDevice>(
        &mut self,
        cache: &mut BlockCache<D>,
        n: usize,
        blocks: &Vec<u32>,
        cursor: usize,
    )
        requires
            old(cache).wf(),
            old(self)@.chain_wf(old(cache)@, n as int),
            n < DIRECT_BOUND,
            cursor < blocks.len(),
            old(self)@.fresh_blocks(old(cache)@, n as int, blocks@, cursor as int),
        ensures
            final(cache).wf(),
            appended(
                old(self)@,
                old(cache)@,
                final(self)@,
                final(cache)@,
                n as int,
                blocks@,
                cursor as int,
            ),
    {
        let ghost r0 = self@;
        let ghost d0 = cache@;
        proof {
            cache.lemma_view_wf();
        }
        let total = cache.num_blocks();
        let data = blocks[cursor];
        self.direct[n] = data;
        cache.fill_zero(data as usize, 0, BLOCK_SZ);
        proof {
            lemma_zero_block(d0, data as int);
            let r1 = self@;
            let d1 = cache@;
            assert forall|s: int| valid_slot(n as int, s) implies #[trigger] r1.slot(d1, s)
                == r0.slot(d0, s) by {}
        }
    }

    /// Appends data block `n` to a chain of `n` data blocks, through the
    /// single-indirect index block.
    fn append_indirect1<D: BlockDevice>(
        &mut self,
        cache: &mut BlockCache<D>,
        n: usize,
        blocks: &Vec<u32>,
        cursor: usize,
    )
        requires
            old(cache).wf(),
            old(self)@.chain_wf(old(cache)@, n as int),
            DIRECT_BOUND <= n < INDIRECT1_BOUND,
            cursor + index_count(n + 1) - index_count(n as int) < blocks.len(),
            old(self)@.fresh_blocks(old(cache)@, n as int, blocks@, cursor as int),
        ensures
            final(cache).wf(),
            appended(
                old(self)@,
                old(cache)@,
                final(self)@,
                final(cache)@,
                n as int,
                blocks@,
                cursor as int,
            ),
    {
        let ghost r0 = self@;
        let ghost d0 = cache@;
        proof {
            cache.lemma_view_wf();
        }
        let total = cache.num_blocks();
        let mut c = cursor;
        if n == DIRECT_BOUND {
            self.indirect1 = blocks[c];
            c += 1;
        } else {
            assert(r0.slot(d0, -1) == r0.indirect1);
        }
        let data = blocks[c];
        let i1 = self.indirect1;
        assert(i1 != data) by {
            if n > DIRECT_BOUND {
                assert(r0.slot(d0, -1) != blocks@[c as int]);
            }
        }
        cache.write_u32(i1 as usize, 4 * (n - DIRECT_BOUND), data);
        let ghost da = cache@;
        cache.fill_zero(data as usize, 0, BLOCK_SZ);
        proof {
            lemma_entry_update(d0, i1 as int, n - DIRECT_BOUND, data);
            lemma_zero_block(da, data as int);
            let r1 = self@;
            let d1 = cache@;
            assert(d1[i1 as int] == da[i1 as int]);
            assert forall|s: int| valid_slot(n as int, s) implies #[trigger] r1.slot(d1, s)
                == r0.slot(d0, s) by {
                if s >= DIRECT_BOUND {
                    assert(entry(d1, i1 as int, s - DIRECT_BOUND) == entry(
                        da,
                        i1 as int,
                        s - DIRECT_BOUND,
                    ));
                }
            }
            assert(r1.block_id(d1, n as int) == entry(d1, i1 as int, n - DIRECT_BOUND));
            assert forall|b: int|
                0 <= b < d0.len() && !r0.owns_index(d0, n as int, b) && b != blocks@[cursor as int]
                    && (n == DIRECT_BOUND ==> b != blocks@[cursor + 1]) implies #[trigger] d1[b]
                == d0[b] by {
                if n > DIRECT_BOUND {
                    assert(r0.slot(d0, -1) == i1);
                    assert(b != i1);
                }
            }
        }
    }

    /// Appends data block `n` to a chain of `n` data blocks, through the
    /// double-indirect index block.
    #[verifier::rlimit(40)]
    fn append_indirect2<D: BlockDevice>(
        &mut self,
        cache: &mut BlockCache<D>,
        n: usize,
        blocks: &Vec<u32>,
        cursor: usize,
    )
        requires
            old(cache).wf(),
            old(self)@.chain_wf(old(cache)@, n as int),
            INDIRECT1_BOUND <= n < INDIRECT2_BOUND,
            cursor + index_count(n + 1) - index_count(n as int) < blocks.len(),
            old(self)@.fresh_blocks(old(cache)@, n as int, blocks@, cursor as int),
        ensures
            final(cache).wf(),
            appended(
                old(self)@,
                old(cache)@,
                final(self)@,
                final(cache)@,
                n as int,
                blocks@,
                cursor as int,
            ),
    {
        let ghost r0 = self@;
        let ghost d0 = cache@;
        proof {
            cache.lemma_view_wf();
            lemma_indirect2_blocks(r0, d0, n as int, blocks@, cursor as int);
        }
        let total = cache.num_blocks();
        let j = n - INDIRECT1_BOUND;
        let q = j / INODE_INDIRECT1_COUNT;
        let e = j % INODE_INDIRECT1_COUNT;
        let mut c = cursor;
        if j == 0 {
            self.indirect2 = blocks[c];
            c += 1;
        }
        let i2 = self.indirect2;
        let l2: u32;
        if e == 0 {
            l2 = blocks[c];
            c += 1;
            cache.write_u32(i2 as usize, 4 * q, l2);
            proof {
                lemma_entry_update(d0, i2 as int, q as int, l2);
            }
        } else {
            l2 = cache.read_u32(i2 as usize, 4 * q);
        }
        let ghost da = cache@;
        let data = blocks[c];
        cache.write_u32(l2 as usize, 4 * e, data);
        let ghost db = cache@;
        cache.fill_zero(data as usize, 0, BLOCK_SZ);
        proof {
            lemma_entry_update(da, l2 as int, e as int, data);
            lemma_zero_block(db, data as int);
            let d1 = cache@;
            assert(d1[i2 as int] == da[i2 as int]);
            assert(d1[l2 as int] == db[l2 as int]);
            assert forall|f: int| 0 <= f < INODE_INDIRECT1_COUNT && f != e implies #[trigger] entry(
                d1,
                l2 as int,
                f,
            ) == entry(d0, l2 as int, f) by {
                assert(entry(db, l2 as int, f) == entry(da, l2 as int, f));
            }
            lemma_append_indirect2(r0, d0, self@, d1, n as int, blocks@, cursor as int);
        }
    }
}

/// The blocks that an append through the double-indirect block works on:
/// the double-indirect block, the second-level block and the data block.
pub open spec fn indirect2_blocks(r0: InodeRec, d0: Disk, n: int, blocks: Seq<u32>, c: int) -> (
    int,
    int,
    int,
) {
    let j = n - INDIRECT1_BOUND;
    let q = j / (INODE_INDIRECT1_COUNT as int);
    let e = j % (INODE_INDIRECT1_COUNT as int);
    let i2 = if j == 0 {
        blocks[c] as int
    } else {
        r0.indirect2 as int
    };
    let l2 = if e == 0 {
        blocks[c + index_count(n + 1) - index_count(n) - 1] as int
    } else {
        entry(d0, i2, q)
    };
    let data = blocks[c + index_count(n + 1) - index_count(n)] as int;
    (i2, l2, data)
}

/// The three blocks of an append through the double-indirect block are
/// blocks of the disk and differ from one another.
proof fn lemma_indirect2_blocks(r0: InodeRec, d0: Disk, n: int, blocks: Seq<u32>, c: int)
    requires
        r0.chain_wf(d0, n),
        INDIRECT1_BOUND <= n < INDIRECT2_BOUND,
        0 <= c,
        c + index_count(n + 1) - index_count(n) < blocks.len(),
        r0.fresh_blocks(d0, n, blocks, c),
    ensures
        ({
            let (i2, l2, data) = indirect2_blocks(r0, d0, n, blocks, c);
            let j = n - INDIRECT1_BOUND;
            &&& 0 <= i2 < d0.len()
            &&& 0 <= l2 < d0.len()
            &&& 0 <= data < d0.len()
            &&& i2 != l2
            &&& i2 != data
            &&& l2 != data
            &&& r0.indirect1 != i2
            &&& r0.indirect1 != l2
            &&& r0.indirect1 != data
            &&& 0 <= r0.indirect1 < d0.len()
            &&& index_count(n + 1) - index_count(n) == (if j == 0 {
                2int
            } else if j % (INODE_INDIRECT1_COUNT as int) == 0 {
                1int
            } else {
                0int
            })
            &&& index_count(n) == (if j == 0 {
                1int
            } else if j % (INODE_INDIRECT1_COUNT as int) == 0 {
                2 + j / (INODE_INDIRECT1_COUNT as int)
            } else {
                3 + j / (INODE_INDIRECT1_COUNT as int)
            })
        }),
{
    let (i2, l2, data) = indirect2_blocks(r0, d0, n, blocks, c);
    let j = n - INDIRECT1_BOUND;
    let q = j / (INODE_INDIRECT1_COUNT as int);
    let e = j % (INODE_INDIRECT1_COUNT as int);
    let k = index_count(n + 1) - index_count(n);
    assert(r0.slot(d0, -1) == r0.indirect1);
    assert(r0.slot(d0, -1) != blocks[c + k]);
    assert(0 <= blocks[c + k] < d0.len());
    if j == 0 {
        assert(r0.slot(d0, -1) != blocks[c]);
        assert(r0.slot(d0, -1) != blocks[c + 1]);
        assert(blocks[c] != blocks[c + 1]);
        assert(blocks[c] != blocks[c + 2]);
        assert(blocks[c + 1] != blocks[c + 2]);
        assert(0 <= blocks[c] < d0.len());
        assert(0 <= blocks[c + 1] < d0.len());
    } else {
        assert(r0.slot(d0, -2) == r0.indirect2);
        assert(r0.slot(d0, -2) != r0.slot(d0, -1));
        assert(r0.slot(d0, -2) != blocks[c + k]);
        if e == 0 {
            assert(r0.slot(d0, -2) != blocks[c]);
            assert(r0.slot(d0, -1) != blocks[c]);
            assert(blocks[c] != blocks[c + 1]);
            assert(0 <= blocks[c] < d0.len());
        } else {
            assert(r0.slot(d0, -3 - q) == entry(d0, i2, q));
            assert(r0.slot(d0, -3 - q) != r0.slot(d0, -2));
            assert(r0.slot(d0, -3 - q) != r0.slot(d0, -1));
            assert(r0.slot(d0, -3 - q) != blocks[c + k]);
        }
    }
}

/// What an append through the double-indirect block does to the chain.
#[verifier::rlimit(60)]
proof fn lemma_append_indirect2(
    r0: InodeRec,
    d0: Disk,
    r1: InodeRec,
    d1: Disk,
    n: int,
    blocks: Seq<u32>,
    c: int,
)
    requires
        r0.chain_wf(d0, n),
        disk_wf(d0),
        INDIRECT1_BOUND <= n < INDIRECT2_BOUND,
        0 <= c,
        c + index_count(n + 1) - index_count(n) < blocks.len(),
        r0.fresh_blocks(d0, n, blocks, c),
        disk_wf(d1),
        d1.len() == d0.len(),
        ({
            let (i2, l2, data) = indirect2_blocks(r0, d0, n, blocks, c);
            let j = n - INDIRECT1_BOUND;
            let q = j / (INODE_INDIRECT1_COUNT as int);
            let e = j % (INODE_INDIRECT1_COUNT as int);
            &&& r1 == InodeRec { indirect2: i2 as u32, ..r0 }
            &&& d1[data] == zeros(BLOCK_SZ as int)
            &&& forall|b: int|
                0 <= b < d0.len() && b != data && b != l2 && (e == 0 ==> b != i2)
                    ==> #[trigger] d1[b] == d0[b]
            &&& e == 0 ==> entry(d1, i2, q) == l2 && forall|f: int|
                0 <= f < INODE_INDIRECT1_COUNT && f != q ==> #[trigger] entry(d1, i2, f) == entry(
                    d0,
                    i2,
                    f,
                )
            &&& entry(d1, l2, e) == data
            &&& forall|f: int|
                0 <= f < INODE_INDIRECT1_COUNT && f != e ==> #[trigger] entry(d1, l2, f) == entry(
                    d0,
                    l2,
                    f,
                )
        }),
    ensures
        appended(r0, d0, r1, d1, n, blocks, c),
{
    let (i2, l2, data) = indirect2_blocks(r0, d0, n, blocks, c);
    let j = n - INDIRECT1_BOUND;
    let q = j / (INODE_INDIRECT1_COUNT as int);
    let e = j % (INODE_INDIRECT1_COUNT as int);
    lemma_indirect2_blocks(r0, d0, n, blocks, c);
    assert(d1[r0.indirect1 as int] == d0[r0.indirect1 as int]);
    // second-level index blocks already in the chain keep their place
    assert forall|m: int| 0 <= m < index_count(n) - 2 implies entry(d1, i2, m) == #[trigger] entry(
        d0,
        i2,
        m,
    ) by {
        if e == 0 {
            assert(m != q);
        } else {
            assert(d1[i2] == d0[i2]);
        }
    }
    assert forall|s: int| valid_slot(n, s) implies #[trigger] r1.slot(d1, s) == r0.slot(d0, s) by {
        if s >= INDIRECT1_BOUND {
            let qs = (s - INDIRECT1_BOUND) / (INODE_INDIRECT1_COUNT as int);
            let es = (s - INDIRECT1_BOUND) % (INODE_INDIRECT1_COUNT as int);
            assert(0 <= qs < index_count(n) - 2);
            assert(entry(d1, i2, qs) == entry(d0, i2, qs));
            let blk = entry(d0, i2, qs);
            assert(r0.slot(d0, -3 - qs) == blk);
            if blk == l2 {
                if e == 0 {
                    assert(r0.slot(d0, -3 - qs) != blocks[c + index_count(n + 1) - index_count(n)
                        - 1]);
                }
                assert(r0.slot(d0, -3 - qs) == r0.slot(d0, -3 - q));
                assert(qs == q);
                assert(es != e);
                assert(entry(d1, blk, es) == entry(d0, blk, es));
            } else {
                assert(r0.slot(d0, -3 - qs) != blocks[c + index_count(n + 1) - index_count(n)]);
                assert(r0.slot(d0, -3 - qs) != r0.slot(d0, -2));
                assert(d1[blk] == d0[blk]);
            }
        } else if s >= DIRECT_BOUND {
        } else if s >= 0 {
        } else if s < -2 {
            assert(entry(d1, i2, -1 - s - 2) == entry(d0, i2, -1 - s - 2));
        }
    }
    assert forall|m: int|
        index_count(n) <= m < index_count(n + 1) implies #[trigger] r1.index_id(d1, m) == blocks[c
        + m - index_count(n)] by {}
    assert(entry(d1, i2, q) == l2) by {
        if e != 0 {
            assert(0 <= q < index_count(n) - 2);
        }
    }
    assert(r1.block_id(d1, n) == entry(d1, l2, e));
    assert forall|b: int|
        0 <= b < d0.len() && !r0.owns_index(d0, n, b) && b != blocks[c] && (index_count(n + 1)
            - index_count(n) >= 1 ==> b != blocks[c + 1]) && (index_count(n + 1) - index_count(n)
            >= 2 ==> b != blocks[c + 2]) implies #[trigger] d1[b] == d0[b] by {
        if j > 0 {
            assert(r0.slot(d0, -2) == i2);
            assert(b != i2);
        }
        if e != 0 {
            assert(r0.slot(d0, -3 - q) == l2);
            assert(b != l2);
        }
    }
}

/// A larger file has at least as many blocks.
pub proof fn lemma_total_blocks_mono(a: int, b: int)
    requires
        0 <= a <= b,
    ensures
        0 <= spec_total_blocks(a) <= spec_total_blocks(b),
{
    lemma_index_count_mono(spec_data_blocks(a), spec_data_blocks(b));
}

/// A longer chain needs at least as many index blocks.
pub proof fn lemma_index_count_mono(n: int, m: int)
    requires
        0 <= n <= m,
    ensures
        0 <= index_count(n) <= index_count(m),
        m <= INDIRECT2_BOUND ==> index_count(m) <= 130,
{
}

/// The chain reads the disk in its index blocks only: where those are the
/// same on two disks, the chain is the same.
pub proof fn lemma_chain_frame(r: InodeRec, d0: Disk, d1: Disk, n: int)
    requires
        0 <= n <= INDIRECT2_BOUND,
        forall|s: int|
            -index_count(n) <= s < 0 ==> d1[#[trigger] r.slot(d0, s)] == d0[r.slot(d0, s)],
    ensures
        forall|s: int| valid_slot(n, s) ==> #[trigger] r.slot(d1, s) == r.slot(d0, s),
{
    assert forall|s: int| valid_slot(n, s) implies #[trigger] r.slot(d1, s) == r.slot(d0, s) by {
        if s >= INDIRECT1_BOUND {
            let qs = (s - INDIRECT1_BOUND) / (INODE_INDIRECT1_COUNT as int);
            assert(r.slot(d0, -2) == r.indirect2);
            assert(r.slot(d0, -3 - qs) == entry(d0, r.indirect2 as int, qs));
        } else if s >= DIRECT_BOUND {
            assert(r.slot(d0, -1) == r.indirect1);
        } else if s >= 0 {
        } else if s < -2 {
            assert(r.slot(d0, -2) == r.indirect2);
        }
    }
}

/// The number of the data block for which index block `m` is taken: the
/// first data block that is reached through it.
pub open spec fn first_use(m: int) -> int {
    if m == 0 {
        DIRECT_BOUND as int
    } else if m <= 2 {
        INDIRECT1_BOUND as int
    } else {
        INDIRECT1_BOUND + INODE_INDIRECT1_COUNT * (m - 2)
    }
}

/// The position, in the list of blocks given to extend a chain of `n0`
/// data blocks, of the block that goes into slot `s`: the blocks are taken
/// in the order of the data blocks, the index blocks for a data block just
/// before it.
pub open spec fn taken_at(n0: int, s: int) -> int {
    if s >= 0 {
        (s - n0) + index_count(s + 1) - index_count(n0)
    } else {
        (first_use(-1 - s) - n0) + (-1 - s) - index_count(n0)
    }
}

/// Block `b` is in a slot that a chain of `n1` data blocks has and a chain
/// of `n0` data blocks has not.
pub open spec fn added(r: InodeRec, disk: Disk, n0: int, n1: int, b: int) -> bool {
    exists|s: int| valid_slot(n1, s) && !valid_slot(n0, s) && #[trigger] r.slot(disk, s) == b
}

/// The index blocks that appending data block `n` takes are those first
/// used for it.
proof fn lemma_first_use(n: int, m: int)
    requires
        0 <= n < INDIRECT2_BOUND,
        index_count(n) <= m < index_count(n + 1),
    ensures
        first_use(m) == n,
{
}

/// The chain `r1` on `d1` is the chain `r0` of `n0` data blocks on `d0`
/// extended to `n1` data blocks with the blocks of `blocks`: the old blocks
/// keep their slots and the old data blocks their content, the new data
/// blocks are zero, and no block outside the old chain and `blocks` changed.
pub open spec fn extended(
    r0: InodeRec,
    d0: Disk,
    r1: InodeRec,
    d1: Disk,
    n0: int,
    n1: int,
    blocks: Seq<u32>,
    c: int,
) -> bool {
    &&& r1.size == r0.size
    &&& r1.link_count == r0.link_count
    &&& r1.kind == r0.kind
    &&& d1.len() == d0.len()
    &&& disk_wf(d1)
    &&& r1.chain_wf(d1, n1)
    &&& r1.spare_same(r0, n1)
    &&& r1.fresh_blocks(d1, n1, blocks, c)
    &&& forall|s: int| valid_slot(n0, s) ==> #[trigger] r1.slot(d1, s) == r0.slot(d0, s)
    &&& forall|s: int|
        valid_slot(n1, s) && !valid_slot(n0, s) ==> among(blocks, c, #[trigger] r1.slot(d1, s))
    &&& forall|s: int|
        valid_slot(n1, s) && !valid_slot(n0, s) ==> 0 <= #[trigger] taken_at(n0, s) < c
    &&& forall|s: int|
        valid_slot(n1, s) && !valid_slot(n0, s) ==> #[trigger] r1.slot(d1, s) == blocks[taken_at(
            n0,
            s,
        )]
    &&& forall|i: int|
        0 <= i < c && i < blocks.len() ==> added(r1, d1, n0, n1, #[trigger] blocks[i] as int)
    &&& forall|k: int| 0 <= k < n0 ==> d1[#[trigger] r0.block_id(d0, k)] == d0[r0.block_id(d0, k)]
    &&& forall|k: int|
        n0 <= k < n1 ==> d1[#[trigger] r1.block_id(d1, k)] == zeros(BLOCK_SZ as int)
    &&& forall|b: int|
        0 <= b < d0.len() && !r0.owns(d0, n0, b) && !among(blocks, c, b) ==> #[trigger] d1[b]
            == d0[b]
}

/// One more appended block keeps a chain extended.
proof fn lemma_extended_step(
    r0: InodeRec,
    d0: Disk,
    r: InodeRec,
    d: Disk,
    r1: InodeRec,
    d1: Disk,
    n0: int,
    n: int,
    blocks: Seq<u32>,
    c: int,
)
    requires
        r0.chain_wf(d0, n0),
        n0 <= n < INDIRECT2_BOUND,
        0 <= c,
        c + index_count(n + 1) - index_count(n) < blocks.len(),
        c == (n - n0) + index_count(n) - index_count(n0),
        extended(r0, d0, r, d, n0, n, blocks, c),
        appended(r, d, r1, d1, n, blocks, c),
    ensures
        extended(r0, d0, r1, d1, n0, n + 1, blocks, c + 1 + index_count(n + 1) - index_count(n)),
{
    let used = 1 + index_count(n + 1) - index_count(n);
    let c1 = c + used;
    lemma_index_count_mono(n0, n);
    lemma_index_count_mono(n, n + 1);
    lemma_chain_append(r, d, r1, d1, n, blocks, c);
    assert forall|i: int| 0 <= i < c1 && i < blocks.len() implies added(
        r1,
        d1,
        n0,
        n + 1,
        #[trigger] blocks[i] as int,
    ) by {
        if i < c {
            assert(added(r, d, n0, n, blocks[i] as int));
            let s = choose|s: int|
                valid_slot(n, s) && !valid_slot(n0, s) && #[trigger] r.slot(d, s) == blocks[i] as int;
            assert(r1.slot(d1, s) == r.slot(d, s));
        } else if i == c + used - 1 {
            assert(r1.slot(d1, n) == blocks[i]);
        } else {
            let m = index_count(n) + (i - c);
            assert(r1.index_id(d1, m) == blocks[c + m - index_count(n)]);
            assert(r1.slot(d1, -1 - m) == blocks[i]);
        }
    }
    assert forall|s: int| valid_slot(n + 1, s) && !valid_slot(n0, s) implies 0
        <= #[trigger] taken_at(n0, s) < c1 by {
        if valid_slot(n, s) {
        } else if s >= 0 {
            assert(s == n);
        } else {
            lemma_first_use(n, -1 - s);
        }
    }
    assert forall|s: int| valid_slot(n + 1, s) && !valid_slot(n0, s) implies #[trigger] r1.slot(
        d1,
        s,
    ) == blocks[taken_at(n0, s)] by {
        if valid_slot(n, s) {
            assert(r1.slot(d1, s) == r.slot(d, s));
        } else if s >= 0 {
            assert(s == n);
        } else {
            let m = -1 - s;
            lemma_first_use(n, m);
            assert(r1.slot(d1, s) == r1.index_id(d1, m));
        }
    }
    assert forall|s: int| valid_slot(n0, s) implies #[trigger] r1.slot(d1, s) == r0.slot(d0, s) by {
        assert(valid_slot(n, s));
        assert(r1.slot(d1, s) == r.slot(d, s));
    }
    assert forall|s: int| valid_slot(n + 1, s) && !valid_slot(n0, s) implies among(
        blocks,
        c1,
        #[trigger] r1.slot(d1, s),
    ) by {
        if valid_slot(n, s) {
            assert(r1.slot(d1, s) == r.slot(d, s));
            assert(among(blocks, c, r.slot(d, s)));
            let i = choose|i: int| 0 <= i < c && i < blocks.len() && #[trigger] blocks[i] == r.slot(d, s);
            assert(blocks[i] == r1.slot(d1, s));
        } else if s >= 0 {
            assert(s == n);
            assert(blocks[c + used - 1] == r1.slot(d1, s));
        } else {
            let m = -1 - s;
            assert(r1.slot(d1, s) == r1.index_id(d1, m));
            assert(blocks[c + m - index_count(n)] == r1.slot(d1, s));
        }
    }
    // a block of the current chain that is no index block, and that is not
    // taken in this step, is not written
    assert forall|k: int| 0 <= k < n implies d1[#[trigger] r.slot(d, k)] == d[r.slot(d, k)] by {
        let b = r.slot(d, k);
        assert(!r.owns_index(d, n, b)) by {
            if r.owns_index(d, n, b) {
                let s = choose|s: int| -index_count(n) <= s < 0 && #[trigger] r.slot(d, s) == b;
                assert(r.slot(d, s) != r.slot(d, k));
            }
        }
        assert(r.slot(d, k) != blocks[c]);
        if used >= 2 {
            assert(r.slot(d, k) != blocks[c + 1]);
        }
        if used >= 3 {
            assert(r.slot(d, k) != blocks[c + 2]);
        }
    }
    assert forall|k: int| 0 <= k < n0 implies d1[#[trigger] r0.block_id(d0, k)] == d0[r0.block_id(
        d0,
        k,
    )] by {
        assert(r.slot(d, k) == r0.slot(d0, k));
        assert(d1[r.slot(d, k)] == d[r.slot(d, k)]);
    }
    assert forall|k: int| n0 <= k < n + 1 implies d1[#[trigger] r1.block_id(d1, k)] == zeros(
        BLOCK_SZ as int,
    ) by {
        if k < n {
            assert(r1.slot(d1, k) == r.slot(d, k));
            assert(d1[r.slot(d, k)] == d[r.slot(d, k)]);
            assert(d[r.block_id(d, k)] == zeros(BLOCK_SZ as int));
        }
    }
    assert forall|b: int|
        0 <= b < d0.len() && !r0.owns(d0, n0, b) && !among(blocks, c1, b) implies #[trigger] d1[b]
        == d0[b] by {
        assert(!among(blocks, c, b)) by {
            if among(blocks, c, b) {
                let i = choose|i: int| 0 <= i < c && i < blocks.len() && #[trigger] blocks[i] == b;
                assert(blocks[i] == b);
            }
        }
        assert(!r.owns_index(d, n, b)) by {
            if r.owns_index(d, n, b) {
                let s = choose|s: int| -index_count(n) <= s < 0 && #[trigger] r.slot(d, s) == b;
                if valid_slot(n0, s) {
                    assert(r0.slot(d0, s) == b);
                } else {
                    assert(among(blocks, c, r.slot(d, s)));
                }
            }
        }
        assert(blocks[c] != b);
        if used >= 2 {
            assert(blocks[c + 1] != b);
        }
        if used >= 3 {
            assert(blocks[c + 2] != b);
        }
    }
}

impl DiskInode {
    /// Appends data block `n` to a chain of `n` data blocks, taking the
    /// blocks that this needs from `blocks` at `cursor`. Returns the
    /// position after the blocks taken.
    fn append_block<D: BlockDevice>(
        &mut self,
        cache: &mut BlockCache<D>,
        n: usize,
        blocks: &Vec<u32>,
        cursor: usize,
    ) -> (next: usize)
        requires
            old(cache).wf(),
            old(self)@.chain_wf(old(cache)@, n as int),
            n < INDIRECT2_BOUND,
            cursor + index_count(n + 1) - index_count(n as int) < blocks.len(),
            old(self)@.fresh_blocks(old(cache)@, n as int, blocks@, cursor as int),
        ensures
            final(cache).wf(),
            next == cursor + 1 + index_count(n + 1) - index_count(n as int),
            appended(
                old(self)@,
                old(cache)@,
                final(self)@,
                final(cache)@,
                n as int,
                blocks@,
                cursor as int,
            ),
    {
        if n < DIRECT_BOUND {
            self.append_direct(cache, n, blocks, cursor);
            cursor + 1
        } else if n < INDIRECT1_BOUND {
            self.append_indirect1(cache, n, blocks, cursor);
            if n == DIRECT_BOUND {
                cursor + 2
            } else {
                cursor + 1
            }
        } else {
            self.append_indirect2(cache, n, blocks, cursor);
            let j = n - INDIRECT1_BOUND;
            if j == 0 {
                cursor + 3
            } else if j % INODE_INDIRECT1_COUNT == 0 {
                cursor + 2
            } else {
                cursor + 1
            }
        }
    }

    /// Extends the chain from `n0` to `n1` data blocks with the blocks of
    /// `blocks`.
    fn extend_chain<D: BlockDevice>(
        &mut self,
        cache: &mut BlockCache<D>,
        n0: usize,
        n1: usize,
        blocks: &Vec<u32>,
    )
        requires
            old(cache).wf(),
            old(self)@.chain_wf(old(cache)@, n0 as int),
            n0 <= n1 <= INDIRECT2_BOUND,
            blocks.len() == n1 + index_count(n1 as int) - n0 - index_count(n0 as int),
            old(self)@.fresh_blocks(old(cache)@, n0 as int, blocks@, 0),
        ensures
            final(cache).wf(),
            extended(
                old(self)@,
                old(cache)@,
                final(self)@,
                final(cache)@,
                n0 as int,
                n1 as int,
                blocks@,
                blocks@.len() as int,
            ),
    {
        let ghost r0 = self@;
        let ghost d0 = cache@;
        let mut n = n0;
        let mut c: usize = 0;
        proof {
            cache.lemma_view_wf();
            assert forall|b: int| !among(blocks@, 0, b) by {}
        }
        while n < n1
            invariant
                n0 <= n <= n1 <= INDIRECT2_BOUND,
                cache.wf(),
                r0.chain_wf(d0, n0 as int),
                c == n + index_count(n as int) - n0 - index_count(n0 as int),
                blocks.len() == n1 + index_count(n1 as int) - n0 - index_count(n0 as int),
                extended(r0, d0, self@, cache@, n0 as int, n as int, blocks@, c as int),
            decreases n1 - n,
        {
            proof {
                lemma_index_count_mono(n as int + 1, n1 as int);
                lemma_index_count_mono(n as int, n as int + 1);
            }
            let ghost r = self@;
            let ghost d = cache@;
            let next = self.append_block(cache, n, blocks, c);
            proof {
                lemma_extended_step(
                    r0,
                    d0,
                    r,
                    d,
                    self@,
                    cache@,
                    n0 as int,
                    n as int,
                    blocks@,
                    c as int,
                );
            }
            c = next;
            n += 1;
        }
    }
}

/// `disk` with the bytes of the last data block of the file that lie beyond
/// its size set to zero.
pub open spec fn tail_zeroed(r: InodeRec, disk: Disk) -> Disk {
    let tail = r.size as int % (BLOCK_SZ as int);
    let last = r.block_id(disk, spec_data_blocks(r.size as int) - 1);
    if tail == 0 {
        disk
    } else {
        disk.update(last, splice(disk[last], tail, zeros(BLOCK_SZ - tail)))
    }
}

/// The file `r1` on `d1` is the file `r0` on `d0` grown to `new_size` bytes
/// with the blocks of `blocks`: its content is the old content followed by
/// zeros, the old blocks keep their slots in the chain, the new slots hold
/// the blocks of `blocks` in the order in which they are needed, and no
/// block outside the old chain and `blocks` changed.
pub open spec fn grown(
    r0: InodeRec,
    d0: Disk,
    r1: InodeRec,
    d1: Disk,
    new_size: int,
    blocks: Seq<u32>,
) -> bool {
    let n0 = spec_data_blocks(r0.size as int);
    let n1 = spec_data_blocks(new_size);
    &&& r1.size == new_size
    &&& r1.link_count == r0.link_count
    &&& r1.kind == r0.kind
    &&& d1.len() == d0.len()
    &&& disk_wf(d1)
    &&& r1.chain_wf(d1, n1)
    &&& r1.spare_same(r0, n1)
    &&& forall|s: int| valid_slot(n0, s) ==> #[trigger] r1.slot(d1, s) == r0.slot(d0, s)
    &&& forall|s: int|
        valid_slot(n1, s) && !valid_slot(n0, s) ==> among(
            blocks,
            blocks.len() as int,
            #[trigger] r1.slot(d1, s),
        )
    &&& forall|s: int|
        valid_slot(n1, s) && !valid_slot(n0, s) ==> 0 <= #[trigger] taken_at(n0, s) < blocks.len()
    &&& forall|s: int|
        valid_slot(n1, s) && !valid_slot(n0, s) ==> #[trigger] r1.slot(d1, s) == blocks[taken_at(
            n0,
            s,
        )]
    &&& forall|i: int| 0 <= i < blocks.len() ==> added(r1, d1, n0, n1, #[trigger] blocks[i] as int)
    &&& r1.content(d1) == r0.content(d0) + zeros(new_size - r0.size)
    &&& forall|b: int|
        0 <= b < d0.len() && !r0.owns(d0, n0, b) && !among(blocks, blocks.len() as int, b)
            ==> #[trigger] d1[b] == d0[b]
}

/// Zeroing the tail of the last block and extending the chain grows the file.
proof fn lemma_grown(
    r0: InodeRec,
    d0: Disk,
    rx: InodeRec,
    r1: InodeRec,
    d1: Disk,
    new_size: int,
    blocks: Seq<u32>,
)
    requires
        disk_wf(d0),
        r0.chain_wf(d0, spec_data_blocks(r0.size as int)),
        r0.size <= new_size <= MAX_FILE_SIZE,
        extended(
            r0,
            tail_zeroed(r0, d0),
            rx,
            d1,
            spec_data_blocks(r0.size as int),
            spec_data_blocks(new_size),
            blocks,
            blocks.len() as int,
        ),
        r1 == (InodeRec { size: new_size as u32, ..rx }),
    ensures
        grown(r0, d0, r1, d1, new_size, blocks),
{
    let n0 = spec_data_blocks(r0.size as int);
    let n1 = spec_data_blocks(new_size);
    let dz = tail_zeroed(r0, d0);
    let tail = r0.size as int % (BLOCK_SZ as int);
    let last = r0.block_id(d0, n0 - 1);
    lemma_index_count_mono(n0, n1);
    if tail != 0 {
        assert(valid_slot(n0, n0 - 1));
        assert(r0.slot(d0, n0 - 1) == last);
        assert(d0[last].len() == BLOCK_SZ);
    }
    assert forall|s: int| -index_count(n0) <= s < 0 implies dz[#[trigger] r0.slot(d0, s)]
        == d0[r0.slot(d0, s)] by {
        if tail != 0 {
            assert(r0.slot(d0, s) != r0.slot(d0, n0 - 1));
        }
    }
    lemma_chain_frame(r0, d0, dz, n0);
    assert forall|s: int| valid_slot(n0, s) implies #[trigger] r1.slot(d1, s) == r0.slot(d0, s) by {
        assert(rx.slot(d1, s) == r0.slot(dz, s));
        assert(r1.slot(d1, s) == rx.slot(d1, s));
    }
    assert forall|s: int| valid_slot(n1, s) implies #[trigger] r1.slot(d1, s) == rx.slot(d1, s) by {}
    assert(r1.chain_wf(d1, n1));
    assert forall|s: int| valid_slot(n1, s) && !valid_slot(n0, s) implies among(
        blocks,
        blocks.len() as int,
        #[trigger] r1.slot(d1, s),
    ) by {
        assert(r1.slot(d1, s) == rx.slot(d1, s));
    }
    assert forall|s: int| valid_slot(n1, s) && !valid_slot(n0, s) implies #[trigger] r1.slot(
        d1,
        s,
    ) == blocks[taken_at(n0, s)] by {
        assert(r1.slot(d1, s) == rx.slot(d1, s));
    }
    assert forall|i: int| 0 <= i < blocks.len() implies added(
        r1,
        d1,
        n0,
        n1,
        #[trigger] blocks[i] as int,
    ) by {
        assert(added(rx, d1, n0, n1, blocks[i] as int));
        let s = choose|s: int|
            valid_slot(n1, s) && !valid_slot(n0, s) && #[trigger] rx.slot(d1, s) == blocks[i] as int;
        assert(r1.slot(d1, s) == rx.slot(d1, s));
    }
    assert forall|b: int|
        0 <= b < d0.len() && !r0.owns(d0, n0, b) && !among(
            blocks,
            blocks.len() as int,
            b,
        ) implies #[trigger] d1[b] == d0[b] by {
        assert(!r0.owns(dz, n0, b)) by {
            if r0.owns(dz, n0, b) {
                let s = choose|s: int| valid_slot(n0, s) && #[trigger] r0.slot(dz, s) == b;
                assert(r0.slot(d0, s) == b);
            }
        }
        if tail != 0 {
            assert(r0.slot(d0, n0 - 1) == last);
            assert(b != last);
        }
    }
    let c0 = r0.content(d0);
    let c1 = r1.content(d1);
    assert(c1 =~= c0 + zeros(new_size - r0.size)) by {
        assert forall|p: int| 0 <= p < new_size implies c1[p] == (c0 + zeros(new_size - r0.size))[p] by {
            let k = p / (BLOCK_SZ as int);
            let o = p % (BLOCK_SZ as int);
            assert(0 <= k < n1);
            assert(r1.block_id(d1, k) == r1.slot(d1, k));
            if k < n0 {
                assert(valid_slot(n0, k));
                assert(r1.slot(d1, k) == r0.slot(d0, k));
                let b = r0.block_id(d0, k);
                assert(r0.slot(dz, k) == r0.slot(d0, k));
                assert(r0.block_id(dz, k) == b);
                assert(d1[r0.block_id(dz, k)] == dz[r0.block_id(dz, k)]);
                if tail != 0 && k == n0 - 1 {
                    assert(dz[b] == splice(d0[b], tail, zeros(BLOCK_SZ - tail)));
                    if p >= r0.size {
                        assert(o >= tail);
                    } else {
                        assert(o < tail);
                    }
                } else {
                    if tail != 0 {
                        assert(r0.slot(d0, k) != r0.slot(d0, n0 - 1));
                    }
                    assert(dz[b] == d0[b]);
                    assert(p < r0.size);
                }
            } else {
                assert(rx.block_id(d1, k) == r1.block_id(d1, k));
                assert(d1[rx.block_id(d1, k)] == zeros(BLOCK_SZ as int));
                assert(p >= r0.size);
            }
        }
    }
}

impl DiskInode {
    /// Grows the file to `new_size` bytes. `new_blocks` holds the blocks to
    /// add to the chain, as many as `blocks_num_needed` says. The bytes
    /// between the old and the new size read as zero.
    pub fn increase_size<D: BlockDevice>(
        &mut self,
        new_size: u32,
        new_blocks: Vec<u32>,
        cache: &mut BlockCache<D>,
    )
        requires
            old(cache).wf(),
            old(self)@.chain_wf(old(cache)@, spec_data_blocks(old(self)@.size as int)),
            old(self)@.size <= new_size <= MAX_FILE_SIZE,
            new_blocks@.len() == spec_total_blocks(new_size as int) - spec_total_blocks(
                old(self)@.size as int,
            ),
            old(self)@.fresh_blocks(
                old(cache)@,
                spec_data_blocks(old(self)@.size as int),
                new_blocks@,
                0,
            ),
        ensures
            final(cache).wf(),
            final(self).wf(),
            grown(
                old(self)@,
                old(cache)@,
                final(self)@,
                final(cache)@,
                new_size as int,
                new_blocks@,
            ),
    {
        let ghost r0 = self@;
        let ghost d0 = cache@;
        let n0 = self.data_blocks() as usize;
        let n1 = Self::data_blocks_of(new_size) as usize;
        let tail = (self.size as usize) % BLOCK_SZ;
        proof {
            cache.lemma_view_wf();
            lemma_index_count_mono(n0 as int, n1 as int);
        }
        if tail != 0 {
            proof {
                assert(valid_slot(n0 as int, n0 - 1));
                assert(r0.slot(d0, n0 - 1) == r0.block_id(d0, n0 - 1));
                if n0 - 1 >= DIRECT_BOUND {
                    assert(valid_slot(n0 as int, -1));
                    assert(r0.slot(d0, -1) == r0.index_id(d0, 0));
                }
                if n0 - 1 >= INDIRECT1_BOUND {
                    let q = (n0 - 1 - INDIRECT1_BOUND) / (INODE_INDIRECT1_COUNT as int);
                    assert(valid_slot(n0 as int, -2));
                    assert(valid_slot(n0 as int, -3 - q));
                    assert(r0.slot(d0, -2) == r0.index_id(d0, 1));
                    assert(r0.slot(d0, -3 - q) == r0.index_id(d0, 2 + q));
                }
            }
            let last = self.get_block_id(cache, (n0 - 1) as u32);
            cache.fill_zero(last as usize, tail, BLOCK_SZ - tail);
        }
        let ghost dz = cache@;
        proof {
            assert(dz == tail_zeroed(r0, d0));
            if tail != 0 {
                let last = r0.block_id(d0, n0 - 1);
                assert(d0[last].len() == BLOCK_SZ);
                assert(disk_wf(dz));
            }
            assert forall|s: int| -index_count(n0 as int) <= s < 0 implies dz[#[trigger] r0.slot(
                d0,
                s,
            )] == d0[r0.slot(d0, s)] by {
                if tail != 0 {
                    assert(r0.slot(d0, s) != r0.slot(d0, n0 - 1));
                }
            }
            lemma_chain_frame(r0, d0, dz, n0 as int);
            assert(r0.chain_wf(dz, n0 as int));
            assert(r0.fresh_blocks(dz, n0 as int, new_blocks@, 0)) by {
                assert forall|i: int, s: int|
                    0 <= i < new_blocks@.len() && valid_slot(n0 as int, s) implies #[trigger] r0.slot(
                    dz,
                    s,
                ) != #[trigger] new_blocks@[i] by {
                    assert(r0.slot(d0, s) != new_blocks@[i]);
                }
            }
        }
        self.extend_chain(cache, n0, n1, &new_blocks);
        let ghost rx = self@;
        self.size = new_size;
        proof {
            lemma_grown(r0, d0, rx, self@, cache@, new_size as int, new_blocks@);
        }
    }
}

/// Block `b` is in a slot that a chain of `n0` data blocks has and a chain
/// of `n1` data blocks has not.
pub open spec fn dropped(r: InodeRec, disk: Disk, n0: int, n1: int, b: int) -> bool {
    exists|s: int| valid_slot(n0, s) && !valid_slot(n1, s) && #[trigger] r.slot(disk, s) == b
}

/// The file `r1` is the file `r0` cut to `new_size` bytes, with the
/// pointers zero that the shorter chain does not use, and `freed` holds,
/// each once, the blocks that left the chain.
pub open spec fn shrunk(r0: InodeRec, r1: InodeRec, disk: Disk, new_size: int, freed: Seq<u32>) -> bool {
    let n0 = spec_data_blocks(r0.size as int);
    let n1 = spec_data_blocks(new_size);
    &&& r1 == r0.cut(new_size)
    &&& r1.tidy(n1)
    &&& r1.chain_wf(disk, n1)
    &&& forall|s: int| valid_slot(n1, s) ==> #[trigger] r1.slot(disk, s) == r0.slot(disk, s)
    &&& r1.content(disk) == r0.content(disk).subrange(0, new_size)
    &&& freed.len() == spec_total_blocks(r0.size as int) - spec_total_blocks(new_size)
    &&& forall|i: int| 0 <= i < freed.len() ==> dropped(r0, disk, n0, n1, #[trigger] freed[i] as int)
    &&& forall|i: int, j: int|
        0 <= i < j < freed.len() ==> #[trigger] freed[i] != #[trigger] freed[j]
    &&& forall|s: int|
        valid_slot(n0, s) && !valid_slot(n1, s) ==> among(
            freed,
            freed.len() as int,
            #[trigger] r0.slot(disk, s),
        )
}

/// What has been collected while a chain is taken apart from `n0` data
/// blocks down to `n`.
pub open spec fn collected(r: InodeRec, disk: Disk, n0: int, n: int, freed: Seq<u32>) -> bool {
    &&& freed.len() == n0 + index_count(n0) - n - index_count(n)
    &&& forall|i: int| 0 <= i < freed.len() ==> dropped(r, disk, n0, n, #[trigger] freed[i] as int)
    &&& forall|i: int, j: int|
        0 <= i < j < freed.len() ==> #[trigger] freed[i] != #[trigger] freed[j]
    &&& forall|s: int|
        valid_slot(n0, s) && !valid_slot(n, s) ==> among(
            freed,
            freed.len() as int,
            #[trigger] r.slot(disk, s),
        )
}

/// Collecting the blocks of the slots that a chain of `n + 1` data blocks
/// has and a chain of `n` has not keeps the collection sound.
proof fn lemma_collected_step(
    r: InodeRec,
    disk: Disk,
    n0: int,
    n: int,
    freed0: Seq<u32>,
    freed1: Seq<u32>,
)
    requires
        r.chain_wf(disk, n0),
        0 <= n < n0,
        collected(r, disk, n0, n + 1, freed0),
        freed1.len() == freed0.len() + 1 + index_count(n + 1) - index_count(n),
        forall|i: int| 0 <= i < freed0.len() ==> freed1[i] == freed0[i],
        freed1[freed0.len() as int] == r.slot(disk, n),
        forall|m: int|
            index_count(n) <= m < index_count(n + 1) ==> #[trigger] freed1[freed0.len() + 1 + m
                - index_count(n)] == r.slot(disk, -1 - m),
    ensures
        collected(r, disk, n0, n, freed1),
{
    let base = freed0.len() as int;
    lemma_index_count_mono(n, n + 1);
    lemma_index_count_mono(n + 1, n0);
    // the slot that each collected block came from
    let slot_of = |i: int|
        if i < base {
            choose|s: int|
                valid_slot(n0, s) && !valid_slot(n + 1, s) && #[trigger] r.slot(disk, s)
                    == freed0[i]
        } else if i == base {
            n
        } else {
            -1 - (i - base - 1 + index_count(n))
        };
    assert forall|i: int| 0 <= i < freed1.len() implies valid_slot(n0, slot_of(i)) && !valid_slot(
        n,
        slot_of(i),
    ) && r.slot(disk, slot_of(i)) == #[trigger] freed1[i] && (i < base ==> !valid_slot(
        n + 1,
        slot_of(i),
    )) && (i >= base ==> valid_slot(n + 1, slot_of(i))) by {
        if i < base {
            assert(dropped(r, disk, n0, n + 1, freed0[i] as int));
        } else if i > base {
            let m = i - base - 1 + index_count(n);
            assert(freed1[base + 1 + m - index_count(n)] == r.slot(disk, -1 - m));
        }
    }
    assert forall|i: int| 0 <= i < freed1.len() implies dropped(
        r,
        disk,
        n0,
        n,
        #[trigger] freed1[i] as int,
    ) by {
        assert(r.slot(disk, slot_of(i)) == freed1[i]);
    }
    assert forall|i: int, j: int| 0 <= i < j < freed1.len() implies #[trigger] freed1[i]
        != #[trigger] freed1[j] by {
        assert(r.slot(disk, slot_of(i)) == freed1[i]);
        assert(r.slot(disk, slot_of(j)) == freed1[j]);
        if j < base {
            assert(freed0[i] != freed0[j]);
        } else {
            assert(slot_of(i) != slot_of(j));
        }
    }
    assert forall|s: int| valid_slot(n0, s) && !valid_slot(n, s) implies among(
        freed1,
        freed1.len() as int,
        #[trigger] r.slot(disk, s),
    ) by {
        if !valid_slot(n + 1, s) {
            assert(among(freed0, freed0.len() as int, r.slot(disk, s)));
            let i = choose|i: int|
                0 <= i < freed0.len() && i < freed0.len() && #[trigger] freed0[i] == r.slot(
                    disk,
                    s,
                );
            assert(freed1[i] == r.slot(disk, s));
        } else if s >= 0 {
            assert(freed1[base] == r.slot(disk, s));
        } else {
            let m = -1 - s;
            assert(freed1[base + 1 + m - index_count(n)] == r.slot(disk, s));
        }
    }
}

impl DiskInode {
    /// Pushes onto `freed` the blocks that a chain of `n + 1` data blocks
    /// has and a chain of `n` has not: data block `n`, then the index
    /// blocks that served it alone.
    fn collect_block<D: BlockDevice>(
        &self,
        cache: &mut BlockCache<D>,
        n: usize,
        freed: &mut Vec<u32>,
    )
        requires
            old(cache).wf(),
            self.wf(),
            n < INDIRECT2_BOUND,
            self@.chain_wf(old(cache)@, n + 1),
        ensures
            final(cache).wf(),
            final(cache)@ == old(cache)@,
            final(freed)@.len() == old(freed)@.len() + 1 + index_count(n + 1) - index_count(n as int),
            forall|i: int| 0 <= i < old(freed)@.len() ==> final(freed)@[i] == old(freed)@[i],
            final(freed)@[old(freed)@.len() as int] == self@.slot(old(cache)@, n as int),
            forall|m: int|
                index_count(n as int) <= m < index_count(n + 1) ==> #[trigger] final(freed)@[old(
                    freed,
                )@.len() + 1 + m - index_count(n as int)] == self@.slot(old(cache)@, -1 - m),
    {
        let ghost r = self@;
        let ghost d = cache@;
        proof {
            lemma_index_count_mono(n as int, n + 1);
            if n >= DIRECT_BOUND {
                assert(valid_slot(n + 1, -1));
                assert(r.slot(d, -1) == r.index_id(d, 0));
            }
            if n >= INDIRECT1_BOUND {
                let q = (n - INDIRECT1_BOUND) / (INODE_INDIRECT1_COUNT as int);
                assert(valid_slot(n + 1, -2));
                assert(valid_slot(n + 1, -3 - q));
                assert(r.slot(d, -2) == r.index_id(d, 1));
                assert(r.slot(d, -3 - q) == r.index_id(d, 2 + q));
            }
        }
        let total = cache.num_blocks();
        let data = self.get_block_id(cache, n as u32);
        freed.push(data);
        if n == DIRECT_BOUND {
            freed.push(self.indirect1);
        } else if n >= INDIRECT1_BOUND {
            let j = n - INDIRECT1_BOUND;
            if j % INODE_INDIRECT1_COUNT == 0 {
                let l2 = cache.read_u32(self.indirect2 as usize, 4 * (j / INODE_INDIRECT1_COUNT));
                if j == 0 {
                    freed.push(self.indirect2);
                }
                freed.push(l2);
            }
        }
    }

    /// Cuts the file to `new_size` bytes and returns the blocks that left
    /// the chain, index blocks included, for the caller to release.
    pub fn decrease_size<D: BlockDevice>(
        &mut self,
        new_size: u32,
        cache: &mut BlockCache<D>,
    ) -> (freed: Vec<u32>)
        requires
            old(cache).wf(),
            old(self)@.chain_wf(old(cache)@, spec_data_blocks(old(self)@.size as int)),
            new_size <= old(self)@.size <= MAX_FILE_SIZE,
        ensures
            final(cache).wf(),
            final(cache)@ == old(cache)@,
            final(self).wf(),
            shrunk(old(self)@, final(self)@, old(cache)@, new_size as int, freed@),
    {
        let ghost r0 = self@;
        let ghost d = cache@;
        let n0 = self.data_blocks() as usize;
        let n1 = Self::data_blocks_of(new_size) as usize;
        let mut freed: Vec<u32> = Vec::new();
        let mut n = n0;
        proof {
            lemma_index_count_mono(n1 as int, n0 as int);
        }
        while n > n1
            invariant
                n1 <= n <= n0 <= INDIRECT2_BOUND,
                cache.wf(),
                cache@ == d,
                self@ == r0,
                r0.chain_wf(d, n0 as int),
                collected(r0, d, n0 as int, n as int, freed@),
            decreases n,
        {
            n -= 1;
            let ghost freed0 = freed@;
            proof {
                lemma_index_count_mono(n as int + 1, n0 as int);
                assert(r0.chain_wf(d, n + 1)) by {
                    assert forall|s: int| valid_slot(n + 1, s) implies valid_slot(n0 as int, s) by {}
                }
            }
            self.collect_block(cache, n, &mut freed);
            proof {
                lemma_collected_step(r0, d, n0 as int, n as int, freed0, freed@);
            }
        }
        let mut k: usize = n1;
        while k < INODE_DIRECT_COUNT
            invariant
                n1 <= k,
                self.wf(),
                self@.size == r0.size,
                self@.link_count == r0.link_count,
                self@.kind == r0.kind,
                self@.indirect1 == r0.indirect1,
                self@.indirect2 == r0.indirect2,
                r0.direct.len() == INODE_DIRECT_COUNT,
                forall|j: int|
                    0 <= j < INODE_DIRECT_COUNT ==> #[trigger] self.direct@[j] == (if n1 <= j && j
                        < k {
                        0u32
                    } else {
                        r0.direct[j]
                    }),
            decreases INODE_DIRECT_COUNT - k,
        {
            let ghost before = self.direct@;
            self.direct[k] = 0;
            assert(self.direct@ == before.update(k as int, 0u32));
            assert forall|j: int| 0 <= j < INODE_DIRECT_COUNT implies #[trigger] self.direct@[j] == (
            if n1 <= j && j < k + 1 {
                0u32
            } else {
                r0.direct[j]
            }) by {
                if j != k {
                    assert(self.direct@[j] == before[j]);
                }
            }
            k += 1;
        }
        if n1 <= DIRECT_BOUND {
            self.indirect1 = 0;
        }
        if n1 <= INDIRECT1_BOUND {
            self.indirect2 = 0;
        }
        self.size = new_size;
        proof {
            let r1 = self@;
            assert(r1.direct =~= r0.cut(new_size as int).direct);
            assert(r1 == r0.cut(new_size as int));
            assert forall|s: int| valid_slot(n1 as int, s) implies valid_slot(n0 as int, s)
                && #[trigger] r1.slot(d, s) == r0.slot(d, s) by {}
            assert(r1.chain_wf(d, n1 as int));
            assert(r1.content(d) =~= r0.content(d).subrange(0, new_size as int));
        }
        freed
    }

    /// Cuts the file to nothing and returns all the blocks of the chain.
    pub fn clear_size<D: BlockDevice>(&mut self, cache: &mut BlockCache<D>) -> (freed: Vec<u32>)
        requires
            old(cache).wf(),
            old(self)@.chain_wf(old(cache)@, spec_data_blocks(old(self)@.size as int)),
            old(self)@.size <= MAX_FILE_SIZE,
        ensures
            final(cache).wf(),
            final(cache)@ == old(cache)@,
            final(self).wf(),
            shrunk(old(self)@, final(self)@, old(cache)@, 0, freed@),
            freed@.len() == spec_total_blocks(old(self)@.size as int),
    {
        self.decrease_size(0, cache)
    }
}

/// The number of bytes that a transfer of `len` bytes at `offset` moves in
/// a file of `size` bytes: the transfer is cut at the end of the file.
pub open spec fn clipped(size: int, offset: int, len: int) -> int {
    if offset >= size {
        0
    } else if len <= size - offset {
        len
    } else {
        size - offset
    }
}

/// The `count` bytes of `content` from `offset` on.
pub open spec fn window(content: Seq<u8>, offset: int, count: int) -> Seq<u8> {
    Seq::new(count as nat, |i: int| content[offset + i])
}

/// The file `r` on `d1` is the file on `d0` with `data` written at
/// `offset`: the chain is the same and only data blocks of the file changed.
pub open spec fn written(r: InodeRec, d0: Disk, d1: Disk, offset: int, data: Seq<u8>) -> bool {
    let n = spec_data_blocks(r.size as int);
    &&& d1.len() == d0.len()
    &&& disk_wf(d1)
    &&& r.chain_wf(d1, n)
    &&& forall|s: int| valid_slot(n, s) ==> #[trigger] r.slot(d1, s) == r.slot(d0, s)
    &&& r.content(d1) == splice(r.content(d0), offset, data)
    &&& forall|b: int|
        0 <= b < d0.len() && !r.owns_data(d0, n, b) ==> #[trigger] d1[b] == d0[b]
}

/// Writing a run of bytes that lies within data block `k` changes the
/// content of the file in that run alone.
proof fn lemma_write_chunk(r: InodeRec, d0: Disk, d1: Disk, k: int, off: int, data: Seq<u8>)
    requires
        disk_wf(d0),
        r.chain_wf(d0, spec_data_blocks(r.size as int)),
        r.size <= MAX_FILE_SIZE,
        0 <= k < spec_data_blocks(r.size as int),
        0 <= off,
        off + data.len() <= BLOCK_SZ,
        k * BLOCK_SZ + off + data.len() <= r.size,
        d1 == d0.update(r.block_id(d0, k), splice(d0[r.block_id(d0, k)], off, data)),
    ensures
        written(r, d0, d1, k * BLOCK_SZ + off, data),
{
    let n = spec_data_blocks(r.size as int);
    let blk = r.block_id(d0, k);
    assert(r.slot(d0, k) == blk);
    assert(d0[blk].len() == BLOCK_SZ);
    assert forall|s: int| -index_count(n) <= s < 0 implies d1[#[trigger] r.slot(d0, s)]
        == d0[r.slot(d0, s)] by {
        assert(r.slot(d0, s) != r.slot(d0, k));
    }
    lemma_chain_frame(r, d0, d1, n);
    assert(r.chain_wf(d1, n));
    assert forall|b: int| 0 <= b < d0.len() && !r.owns_data(d0, n, b) implies #[trigger] d1[b]
        == d0[b] by {
        assert(r.slot(d0, k) == blk);
    }
    let pos = k * BLOCK_SZ + off;
    assert(r.content(d1) =~= splice(r.content(d0), pos, data)) by {
        assert forall|p: int| 0 <= p < r.size implies r.content(d1)[p] == splice(
            r.content(d0),
            pos,
            data,
        )[p] by {
            let kp = p / (BLOCK_SZ as int);
            let op = p % (BLOCK_SZ as int);
            assert(0 <= kp < n);
            assert(r.slot(d1, kp) == r.slot(d0, kp));
            if kp == k {
            } else {
                assert(r.slot(d0, kp) != r.slot(d0, k));
            }
        }
    }
}

/// Two writes one after the other, the second right behind the first, are
/// one write of the two runs joined.
proof fn lemma_written_join(
    r: InodeRec,
    d0: Disk,
    d1: Disk,
    d2: Disk,
    offset: int,
    a: Seq<u8>,
    b: Seq<u8>,
)
    requires
        0 <= offset,
        offset + a.len() + b.len() <= r.size,
        written(r, d0, d1, offset, a),
        written(r, d1, d2, offset + a.len(), b),
    ensures
        written(r, d0, d2, offset, a + b),
{
    let n = spec_data_blocks(r.size as int);
    assert forall|s: int| valid_slot(n, s) implies #[trigger] r.slot(d2, s) == r.slot(d0, s) by {
        assert(r.slot(d2, s) == r.slot(d1, s));
    }
    assert(r.content(d2) =~= splice(r.content(d0), offset, a + b));
    assert forall|x: int| 0 <= x < d0.len() && !r.owns_data(d0, n, x) implies #[trigger] d2[x]
        == d0[x] by {
        assert(!r.owns_data(d1, n, x)) by {
            if r.owns_data(d1, n, x) {
                let k = choose|k: int| 0 <= k < n && #[trigger] r.slot(d1, k) == x;
                assert(r.slot(d0, k) == x);
            }
        }
    }
}

impl DiskInode {
    /// Makes known that the index blocks on the way to data block `k` are
    /// blocks of the disk.
    proof fn lemma_path(r: InodeRec, disk: Disk, n: int, k: int)
        requires
            r.chain_wf(disk, n),
            0 <= k < n,
        ensures
            0 <= r.block_id(disk, k) < disk.len(),
            k >= DIRECT_BOUND ==> 0 <= r.index_id(disk, 0) < disk.len(),
            k >= INDIRECT1_BOUND ==> 0 <= r.index_id(disk, 1) < disk.len() && 0 <= r.index_id(
                disk,
                2 + (k - INDIRECT1_BOUND) / (INODE_INDIRECT1_COUNT as int),
            ) < disk.len(),
    {
        assert(r.slot(disk, k) == r.block_id(disk, k));
        if k >= DIRECT_BOUND {
            assert(valid_slot(n, -1));
            assert(r.slot(disk, -1) == r.index_id(disk, 0));
        }
        if k >= INDIRECT1_BOUND {
            let q = (k - INDIRECT1_BOUND) / (INODE_INDIRECT1_COUNT as int);
            assert(valid_slot(n, -2));
            assert(valid_slot(n, -3 - q));
            assert(r.slot(disk, -2) == r.index_id(disk, 1));
            assert(r.slot(disk, -3 - q) == r.index_id(disk, 2 + q));
        }
    }

    /// Copies bytes of the file, from `offset` on, to the front of `buf`:
    /// as many as `buf` holds and the file has from there. Returns their
    /// number.
    pub fn read_at<D: BlockDevice>(
        &self,
        offset: usize,
        buf: &mut Vec<u8>,
        cache: &mut BlockCache<D>,
    ) -> (count: usize)
        requires
            old(cache).wf(),
            self@.chain_wf(old(cache)@, spec_data_blocks(self@.size as int)),
            self@.size <= MAX_FILE_SIZE,
        ensures
            final(cache).wf(),
            final(cache)@ == old(cache)@,
            count == clipped(self@.size as int, offset as int, old(buf)@.len() as int),
            final(buf)@ == splice(
                old(buf)@,
                0,
                window(self@.content(old(cache)@), offset as int, count as int),
            ),
    {
        let ghost r = self@;
        let ghost d = cache@;
        let ghost buf0 = buf@;
        let ghost content = r.content(d);
        let size = self.size as usize;
        let buf_len = buf.len();
        if offset >= size {
            assert(buf@ =~= splice(buf0, 0, window(content, offset as int, 0)));
            return 0;
        }
        let count = if buf_len <= size - offset {
            buf_len
        } else {
            size - offset
        };
        let end = offset + count;
        let mut pos = offset;
        proof {
            cache.lemma_view_wf();
            assert(buf@ =~= splice(buf0, 0, window(content, offset as int, 0)));
        }
        while pos < end
            invariant
                offset <= pos <= end <= size,
                end == offset + count,
                count <= buf_len,
                buf_len == buf0.len(),
                size == r.size,
                r == self@,
                self.wf(),
                cache.wf(),
                cache@ == d,
                disk_wf(d),
                r.chain_wf(d, spec_data_blocks(r.size as int)),
                r.size <= MAX_FILE_SIZE,
                content == r.content(d),
                buf@ == splice(buf0, 0, window(content, offset as int, pos - offset)),
            decreases end - pos,
        {
            let k = pos / BLOCK_SZ;
            let off = pos % BLOCK_SZ;
            let len = if BLOCK_SZ - off <= end - pos {
                BLOCK_SZ - off
            } else {
                end - pos
            };
            proof {
                Self::lemma_path(r, d, spec_data_blocks(r.size as int), k as int);
            }
            let blk = self.get_block_id(cache, k as u32);
            cache.read_range(blk as usize, off, buf, pos - offset, len);
            proof {
                assert(d[blk as int].len() == BLOCK_SZ);
                assert forall|i: int| 0 <= i < len implies #[trigger] d[blk as int][off + i]
                    == content[pos + i] by {
                    assert((pos + i) / (BLOCK_SZ as int) == k);
                    assert((pos + i) % (BLOCK_SZ as int) == off + i);
                }
                assert(buf@ =~= splice(
                    buf0,
                    0,
                    window(content, offset as int, pos + len - offset),
                ));
            }
            pos += len;
        }
        count
    }

    /// Copies bytes from the front of `buf` into the file, from `offset`
    /// on: as many as `buf` holds and the file has room for up to its size.
    /// Returns their number. The size does not change: to write beyond it,
    /// grow the file first.
    pub fn write_at<D: BlockDevice>(
        &self,
        offset: usize,
        buf: &[u8],
        cache: &mut BlockCache<D>,
    ) -> (count: usize)
        requires
            old(cache).wf(),
            self@.chain_wf(old(cache)@, spec_data_blocks(self@.size as int)),
            self@.size <= MAX_FILE_SIZE,
        ensures
            final(cache).wf(),
            count == clipped(self@.size as int, offset as int, buf@.len() as int),
            written(
                self@,
                old(cache)@,
                final(cache)@,
                offset as int,
                buf@.subrange(0, count as int),
            ),
    {
        let ghost r = self@;
        let ghost d0 = cache@;
        let size = self.size as usize;
        let buf_len = buf.len();
        proof {
            cache.lemma_view_wf();
        }
        if offset >= size {
            proof {
                assert(r.content(d0) =~= splice(r.content(d0), offset as int, buf@.subrange(0, 0)));
            }
            return 0;
        }
        let count = if buf_len <= size - offset {
            buf_len
        } else {
            size - offset
        };
        let end = offset + count;
        let mut pos = offset;
        proof {
            assert(r.content(d0) =~= splice(r.content(d0), offset as int, buf@.subrange(0, 0)));
        }
        while pos < end
            invariant
                offset <= pos <= end <= size,
                end == offset + count,
                count <= buf_len,
                buf_len == buf@.len(),
                size == r.size,
                r == self@,
                self.wf(),
                cache.wf(),
                r.size <= MAX_FILE_SIZE,
                written(r, d0, cache@, offset as int, buf@.subrange(0, pos - offset)),
            decreases end - pos,
        {
            let ghost d = cache@;
            let k = pos / BLOCK_SZ;
            let off = pos % BLOCK_SZ;
            let len = if BLOCK_SZ - off <= end - pos {
                BLOCK_SZ - off
            } else {
                end - pos
            };
            proof {
                Self::lemma_path(r, d, spec_data_blocks(r.size as int), k as int);
            }
            let blk = self.get_block_id(cache, k as u32);
            cache.write_range(blk as usize, off, buf, pos - offset, len);
            proof {
                let chunk = buf@.subrange(pos - offset, pos - offset + len);
                lemma_write_chunk(r, d, cache@, k as int, off as int, chunk);
                lemma_written_join(
                    r,
                    d0,
                    d,
                    cache@,
                    offset as int,
                    buf@.subrange(0, pos - offset),
                    chunk,
                );
                assert(buf@.subrange(0, pos - offset) + chunk =~= buf@.subrange(
                    0,
                    pos + len - offset,
                ));
            }
            pos += len;
        }
        count
    }
}

} // verus!
