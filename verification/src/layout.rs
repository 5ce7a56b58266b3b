//! Constants of the on-disk format and the byte-level encodings built on them.

use vstd::prelude::*;

verus! {

/// Bytes in one device block.
pub const BLOCK_SZ: usize = 512;

/// Allocation bits held by one bitmap block.
pub const BLOCK_BITS: usize = 4096;

/// Bytes of one inode record.
pub const INODE_SZ: usize = 128;

/// Inode records in one block of the inode region.
pub const INODES_PER_BLOCK: usize = 4;

/// Direct block pointers in an inode record.
pub const INODE_DIRECT_COUNT: usize = 27;

/// Block pointers held by one index block.
pub const INODE_INDIRECT1_COUNT: usize = 128;

/// Data blocks reachable through the double-indirect pointer.
pub const INODE_INDIRECT2_COUNT: usize = 16384;

/// First logical block index mapped through the single-indirect pointer.
pub const DIRECT_BOUND: usize = 27;

/// First logical block index mapped through the double-indirect pointer.
pub const INDIRECT1_BOUND: usize = 155;

/// Number of data blocks that one inode can map.
pub const INDIRECT2_BOUND: usize = 16539;

/// Largest byte size of a file.
pub const MAX_FILE_SIZE: u32 = 8467968;

/// Bytes of one directory record.
pub const DIRENT_SZ: usize = 32;

/// Longest name, in bytes, that a directory record can hold.
pub const NAME_LENGTH_LIMIT: usize = 27;

/// The logical content of a block device: its blocks, in order.
pub type Disk = Seq<Seq<u8>>;

/// Every block of `disk` has exactly `BLOCK_SZ` bytes.
pub open spec fn disk_wf(disk: Disk) -> bool {
    forall|b: int| 0 <= b < disk.len() ==> (#[trigger] disk[b]).len() == BLOCK_SZ
}

/// The little-endian 32-bit word stored in `bytes` at `off`.
pub open spec fn word_at(bytes: Seq<u8>, off: int) -> u32 {
    (bytes[off] as int + 256 * (bytes[off + 1] as int) + 65536 * (bytes[off + 2] as int) + 16777216
        * (bytes[off + 3] as int)) as u32
}

/// The four bytes that encode `v` in little-endian order.
pub open spec fn word_bytes(v: u32) -> Seq<u8> {
    seq![
        (v % 256) as u8,
        ((v / 256) % 256) as u8,
        ((v / 65536) % 256) as u8,
        ((v / 16777216) % 256) as u8,
    ]
}

/// `bytes` with the range starting at `off` replaced by `data`.
pub open spec fn splice(bytes: Seq<u8>, off: int, data: Seq<u8>) -> Seq<u8> {
    Seq::new(
        bytes.len(),
        |i: int|
            if off <= i < off + data.len() {
                data[i - off]
            } else {
                bytes[i]
            },
    )
}

/// A sequence of `n` zero bytes.
pub open spec fn zeros(n: int) -> Seq<u8> {
    Seq::new(n as nat, |i: int| 0u8)
}

/// Four bytes that are the encoding of `v` decode to `v`.
pub proof fn lemma_word_at(bytes: Seq<u8>, off: int, v: u32)
    requires
        0 <= off,
        off + 4 <= bytes.len(),
        bytes[off] == word_bytes(v)[0],
        bytes[off + 1] == word_bytes(v)[1],
        bytes[off + 2] == word_bytes(v)[2],
        bytes[off + 3] == word_bytes(v)[3],
    ensures
        word_at(bytes, off) == v,
{
}

/// Decoding what `word_bytes` wrote gives the value back, and leaves every
/// other aligned word of the block as it was.
pub proof fn lemma_word_splice(bytes: Seq<u8>, off: int, v: u32)
    requires
        0 <= off,
        off + 4 <= bytes.len(),
    ensures
        word_at(splice(bytes, off, word_bytes(v)), off) == v,
        splice(bytes, off, word_bytes(v)).len() == bytes.len(),
        forall|o: int|
            0 <= o && o + 4 <= bytes.len() && (o + 4 <= off || off + 4 <= o) ==> #[trigger] word_at(
                splice(bytes, off, word_bytes(v)),
                o,
            ) == word_at(bytes, o),
{
    let s = splice(bytes, off, word_bytes(v));
    assert(s[off] == word_bytes(v)[0]);
    assert(s[off + 1] == word_bytes(v)[1]);
    assert(s[off + 2] == word_bytes(v)[2]);
    assert(s[off + 3] == word_bytes(v)[3]);
}

} // verus!
