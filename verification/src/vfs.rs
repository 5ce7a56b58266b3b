//! The node handle: files and the root directory as the layer above uses
//! them.
//!
//! A handle names an inode and owns nothing; every operation takes the
//! filesystem by mutable reference, which stands for the filesystem-wide
//! lock, and fetches the inode record afresh. A mutating operation opens a
//! transaction of the journal, registers the block of each inode record
//! before it rewrites the record and marks it dirty afterwards, and stops,
//! commits and checkpoints the transaction before it returns; `unlink`
//! does so twice, once for the directory and once for the file. The blocks
//! of the bitmaps, of the index blocks and of the directory's data are
//! changed within the transaction without being registered. An operation
//! that fails changes nothing.

use vstd::prelude::*;
use crate::block_dev::BlockDevice;
use crate::dirent::{
    count_refs, dir_entries, entry_bytes, find_name, is_valid_name, lemma_find_from, lemma_find_is,
    records, valid_name, DirEntry, EntryView,
};
use crate::disk_inode::{
    clipped, spec_data_blocks, spec_total_blocks, window, DiskInode, DiskInodeType, InodeRec,
};
use crate::efs::{
    chains_ok, consistent, free_data, fs_view, inode_used, links_ok, node, node_ok, root_entries,
    EasyFileSystem, Layout, NodeView,
};
use crate::journal::TxState;
use crate::layout::{splice, zeros, Disk, DIRENT_SZ, INODE_SZ, MAX_FILE_SIZE};

verus! {

/// Why an operation on a node failed.
#[derive(Clone, Copy, PartialEq, Eq, Debug, Structural)]
pub enum FsError {
    /// No entry of the directory has the name.
    NotFound,
    /// An entry of the directory has the name already.
    AlreadyExists,
    /// The operation is for directories and the node is a file.
    NotADirectory,
    /// The operation is for files and the node is a directory.
    IsADirectory,
    /// The path has more than one segment, or a directory was to be created.
    Unsupported,
    /// No inode slot or not enough data blocks are free.
    StorageFull,
    /// The size is beyond what a file can have, or the name is one that a
    /// directory record cannot hold.
    InvalidInput,
}

/// The type of a node, as the layer above names it.
#[derive(Clone, Copy, PartialEq, Eq, Debug, Structural)]
pub enum NodeType {
    Fifo,
    CharDevice,
    Dir,
    BlockDevice,
    File,
    SymLink,
    Socket,
}

/// The permission bits that every node reports.
pub const NODE_PERM: u16 = 0o755;

/// The attributes of a node.
#[derive(Clone, Copy, PartialEq, Eq, Debug, Structural)]
pub struct NodeAttr {
    pub perm: u16,
    pub ty: NodeType,
    pub size: u64,
    pub blocks: u64,
}

/// The budget of blocks that an operation declares to its transaction.
pub const TX_BUDGET: usize = 128;

/// In the middle of an operation on inode `i0`, whose record `r0` is in
/// memory: the disk has the layout `l` and its superblock, the chains of
/// all inodes are sound, and the inode is allocated.
pub open spec fn mid_ok(l: Layout, d: Disk, i0: int, r0: InodeRec) -> bool {
    &&& crate::layout::disk_wf(d)
    &&& l.valid()
    &&& d.len() == l.total_blocks
    &&& crate::efs::superblock_ok(l, d)
    &&& chains_ok(l, d, i0, r0)
    &&& inode_used(l, d, i0)
    &&& 0 <= i0 < l.inode_count()
    &&& r0.direct.len() == crate::layout::INODE_DIRECT_COUNT
}

/// Between `d0` and `d1` an operation on inode `i0` left every other inode
/// alone and allocated or released no inode slot.
#[verifier::opaque]
pub open spec fn step_ok(l: Layout, d0: Disk, d1: Disk, i0: int) -> bool {
    &&& crate::efs::others_same(l, d0, d1, i0)
    &&& forall|id: int| #[trigger] inode_used(l, d1, id) == inode_used(l, d0, id)
    &&& crate::efs::free_inodes(l, d1) == crate::efs::free_inodes(l, d0)
}

/// Steps that leave the other inodes alone do so one after the other.
pub proof fn lemma_step_trans(l: Layout, d0: Disk, d1: Disk, d2: Disk, i0: int)
    requires
        step_ok(l, d0, d1, i0),
        step_ok(l, d1, d2, i0),
    ensures
        step_ok(l, d0, d2, i0),
{
    reveal(step_ok);
    assert forall|id: int| 0 <= id < l.inode_count() && id != i0 implies #[trigger] node(l, d2, id)
        == node(l, d0, id) by {
        assert(node(l, d1, id) == node(l, d0, id));
    }
    assert forall|id: int| inode_used(l, d0, id) && id != i0 implies (#[trigger] node(
        l,
        d2,
        id,
    )).content(d2) == node(l, d0, id).content(d0) by {
        assert(inode_used(l, d1, id));
        assert(node(l, d1, id).content(d1) == node(l, d0, id).content(d0));
        assert(node(l, d2, id).content(d2) == node(l, d1, id).content(d1));
    }
    assert forall|id: int, s: int|
        inode_used(l, d0, id) && id != i0 && crate::disk_inode::valid_slot(
            crate::efs::nblocks(node(l, d0, id)),
            s,
        ) implies #[trigger] node(l, d2, id).slot(d2, s) == node(l, d0, id).slot(d0, s) by {
        assert(inode_used(l, d1, id));
        assert(node(l, d1, id) == node(l, d0, id));
        assert(node(l, d1, id).slot(d1, s) == node(l, d0, id).slot(d0, s));
    }
}

/// An operation on inode `i0` that left every other inode alone changed, of
/// what the filesystem holds, the inode `i0` alone.
pub proof fn lemma_view_update(l: Layout, d0: Disk, d1: Disk, i0: int)
    requires
        step_ok(l, d0, d1, i0),
        inode_used(l, d0, i0),
    ensures
        fs_view(l, d1) == fs_view(l, d0).insert(i0, crate::efs::node_view(l, d1, i0)),
        crate::efs::free_inodes(l, d1) == crate::efs::free_inodes(l, d0),
        inode_used(l, d1, i0),
{
    reveal(step_ok);
    let v0 = fs_view(l, d0);
    let v1 = fs_view(l, d1);
    assert forall|id: int| v1.dom().contains(id) <==> v0.insert(
        i0,
        crate::efs::node_view(l, d1, i0),
    ).dom().contains(id) by {
        assert(inode_used(l, d1, id) == inode_used(l, d0, id));
    }
    assert forall|id: int| v1.dom().contains(id) implies v1[id] == v0.insert(
        i0,
        crate::efs::node_view(l, d1, i0),
    )[id] by {
        if id != i0 {
            assert(inode_used(l, d1, id) == inode_used(l, d0, id));
            assert(node(l, d1, id) == node(l, d0, id));
            assert(node(l, d1, id).content(d1) == node(l, d0, id).content(d0));
        }
    }
    assert(v1 =~= v0.insert(i0, crate::efs::node_view(l, d1, i0)));
}

/// An operation on a file that kept its type and its link count, and left
/// every other inode alone, keeps the directory and the link counts sound.
pub proof fn lemma_links_file_update(l: Layout, d0: Disk, d1: Disk, i0: int)
    requires
        links_ok(l, d0),
        i0 >= 1,
        inode_used(l, d0, i0),
        step_ok(l, d0, d1, i0),
        node(l, d1, i0).kind == node(l, d0, i0).kind,
        node(l, d1, i0).link_count == node(l, d0, i0).link_count,
    ensures
        links_ok(l, d1),
        root_entries(l, d1) == root_entries(l, d0),
{
    reveal(step_ok);
    reveal(links_ok);
    assert(inode_used(l, d1, 0) == inode_used(l, d0, 0));
    assert(node(l, d1, 0) == node(l, d0, 0));
    assert(node(l, d1, 0).content(d1) == node(l, d0, 0).content(d0));
    let entries = root_entries(l, d0);
    assert(root_entries(l, d1) == entries);
    assert forall|e: int| 0 <= e < entries.len() implies (#[trigger] entries[e]).inode >= 1
        && inode_used(l, d1, entries[e].inode as int) by {
        assert(inode_used(l, d1, entries[e].inode as int) == inode_used(
            l,
            d0,
            entries[e].inode as int,
        ));
    }
    assert forall|i: int| 1 <= i && inode_used(l, d1, i) implies (#[trigger] node(l, d1, i)).kind
        == DiskInodeType::File && node(l, d1, i).link_count == count_refs(entries, i) by {
        assert(inode_used(l, d1, i) == inode_used(l, d0, i));
        if i != i0 {
            assert(node(l, d1, i) == node(l, d0, i));
        }
        assert(node(l, d0, i).kind == DiskInodeType::File);
    }
}

/// Between `d0` and `d1` no inode but `a` and `b` changed: the records,
/// the allocation of the inode slots and the bytes of the files are the
/// same.
#[verifier::opaque]
pub open spec fn apart_same(l: Layout, d0: Disk, d1: Disk, a: int, b: int) -> bool {
    &&& forall|id: int|
        0 <= id < l.inode_count() && id != a && id != b ==> #[trigger] node(l, d1, id) == node(
            l,
            d0,
            id,
        )
    &&& forall|id: int|
        id != a && id != b ==> #[trigger] inode_used(l, d1, id) == inode_used(l, d0, id)
    &&& forall|id: int|
        inode_used(l, d0, id) && id != a && id != b ==> (#[trigger] node(l, d1, id)).content(d1)
            == node(l, d0, id).content(d0)
    &&& forall|id: int, s: int|
        inode_used(l, d0, id) && id != a && id != b && crate::disk_inode::valid_slot(
            crate::efs::nblocks(node(l, d0, id)),
            s,
        ) ==> #[trigger] node(l, d1, id).slot(d1, s) == node(l, d0, id).slot(d0, s)
}

/// Between `d0` and `d1` the chain of every allocated inode but `a` and
/// `b` is the same: every slot holds the block that it held.
pub open spec fn chains_kept(l: Layout, d0: Disk, d1: Disk, a: int, b: int) -> bool {
    forall|id: int, s: int|
        inode_used(l, d0, id) && id != a && id != b && crate::disk_inode::valid_slot(
            crate::efs::nblocks(node(l, d0, id)),
            s,
        ) ==> #[trigger] node(l, d1, id).slot(d1, s) == node(l, d0, id).slot(d0, s)
}

/// Between `d0` and `d1` the data bitmap followed the chain of the file
/// `id`, and every other chain is the same: the slots that the chain of the
/// file has before and after hold the blocks that they held, a block of
/// the data region is allocated afterwards exactly if it was allocated and
/// is not in a slot that the chain lost, or is in a slot that the chain
/// gained, and the blocks in the slots gained were free.
pub open spec fn file_blocks_follow(l: Layout, d0: Disk, d1: Disk, id: int) -> bool {
    let r0 = node(l, d0, id);
    let r1 = node(l, d1, id);
    let n0 = crate::efs::nblocks(r0);
    let n1 = crate::efs::nblocks(r1);
    &&& forall|s: int|
        crate::disk_inode::valid_slot(n0, s) && crate::disk_inode::valid_slot(n1, s)
            ==> #[trigger] r1.slot(d1, s) == r0.slot(d0, s)
    &&& forall|b: int|
        l.in_data_area(b) ==> (#[trigger] crate::efs::data_used(l, d1, b) <==> (
        crate::efs::data_used(l, d0, b) && !crate::disk_inode::dropped(r0, d0, n0, n1, b))
            || crate::disk_inode::added(r1, d1, n0, n1, b))
    &&& forall|b: int|
        crate::disk_inode::added(r1, d1, n0, n1, b) ==> !#[trigger] crate::efs::data_used(l, d0, b)
    &&& chains_kept(l, d0, d1, id, id)
}

/// What the steps of an operation on the file `id` established is what the
/// operation states of the blocks.
pub proof fn lemma_file_blocks_follow(l: Layout, d0: Disk, d1: Disk, id: int)
    requires
        crate::efs::blocks_follow(l, d0, node(l, d0, id), d1, node(l, d1, id)),
        chains_kept(l, d0, d1, id, id),
    ensures
        file_blocks_follow(l, d0, d1, id),
{
    reveal(crate::efs::blocks_follow);
}

/// What leaves every inode but one alone keeps the chains of the others.
pub proof fn lemma_chains_kept(l: Layout, d0: Disk, d1: Disk, i0: int)
    requires
        step_ok(l, d0, d1, i0),
    ensures
        chains_kept(l, d0, d1, i0, i0),
{
    reveal(step_ok);
}

/// What leaves every inode but two alone keeps the chains of the others.
pub proof fn lemma_chains_kept2(l: Layout, d0: Disk, d1: Disk, a: int, b: int)
    requires
        apart_same(l, d0, d1, a, b),
    ensures
        chains_kept(l, d0, d1, a, b),
{
    reveal(apart_same);
}

/// What leaves every inode but one alone leaves every inode but two alone.
pub proof fn lemma_apart_from_others(l: Layout, d0: Disk, d1: Disk, a: int, b: int)
    requires
        crate::efs::others_same(l, d0, d1, a) || crate::efs::others_same(l, d0, d1, b),
    ensures
        apart_same(l, d0, d1, a, b),
{
    reveal(apart_same);
}

/// What leaves every inode but one alone leaves every inode but two alone.
pub proof fn lemma_apart_from_step(l: Layout, d0: Disk, d1: Disk, a: int, b: int)
    requires
        step_ok(l, d0, d1, a) || step_ok(l, d0, d1, b),
    ensures
        apart_same(l, d0, d1, a, b),
{
    reveal(apart_same);
    reveal(step_ok);
}

/// Steps that leave every inode but two alone do so one after the other.
pub proof fn lemma_apart_trans(l: Layout, d0: Disk, d1: Disk, d2: Disk, a: int, b: int)
    requires
        apart_same(l, d0, d1, a, b),
        apart_same(l, d1, d2, a, b),
    ensures
        apart_same(l, d0, d2, a, b),
{
    reveal(apart_same);
    assert forall|id: int| 0 <= id < l.inode_count() && id != a && id != b implies #[trigger] node(
        l,
        d2,
        id,
    ) == node(l, d0, id) by {
        assert(node(l, d1, id) == node(l, d0, id));
    }
    assert forall|id: int| id != a && id != b implies #[trigger] inode_used(l, d2, id)
        == inode_used(l, d0, id) by {
        assert(inode_used(l, d1, id) == inode_used(l, d0, id));
    }
    assert forall|id: int| inode_used(l, d0, id) && id != a && id != b implies (#[trigger] node(
        l,
        d2,
        id,
    )).content(d2) == node(l, d0, id).content(d0) by {
        assert(inode_used(l, d1, id) == inode_used(l, d0, id));
        assert(node(l, d1, id).content(d1) == node(l, d0, id).content(d0));
        assert(node(l, d2, id).content(d2) == node(l, d1, id).content(d1));
    }
    assert forall|id: int, s: int|
        inode_used(l, d0, id) && id != a && id != b && crate::disk_inode::valid_slot(
            crate::efs::nblocks(node(l, d0, id)),
            s,
        ) implies #[trigger] node(l, d2, id).slot(d2, s) == node(l, d0, id).slot(d0, s) by {
        assert(inode_used(l, d1, id) == inode_used(l, d0, id));
        assert(node(l, d1, id) == node(l, d0, id));
        assert(node(l, d1, id).slot(d1, s) == node(l, d0, id).slot(d0, s));
    }
}

/// An operation that left every inode but `a` and `b` alone changed, of
/// what the filesystem holds, those two alone.
pub proof fn lemma_view_update2(l: Layout, d0: Disk, d1: Disk, a: int, b: int)
    requires
        apart_same(l, d0, d1, a, b),
        inode_used(l, d1, a),
        inode_used(l, d1, b),
    ensures
        fs_view(l, d1) == fs_view(l, d0).insert(a, crate::efs::node_view(l, d1, a)).insert(
            b,
            crate::efs::node_view(l, d1, b),
        ),
{
    reveal(apart_same);
    let v0 = fs_view(l, d0);
    let v1 = fs_view(l, d1);
    let v2 = v0.insert(a, crate::efs::node_view(l, d1, a)).insert(
        b,
        crate::efs::node_view(l, d1, b),
    );
    assert forall|id: int| v1.dom().contains(id) <==> v2.dom().contains(id) by {
        if id != a && id != b {
            assert(inode_used(l, d1, id) == inode_used(l, d0, id));
        }
    }
    assert forall|id: int| v1.dom().contains(id) implies v1[id] == v2[id] by {
        if id != a && id != b {
            assert(inode_used(l, d1, id) == inode_used(l, d0, id));
            assert(node(l, d1, id) == node(l, d0, id));
            assert(node(l, d1, id).content(d1) == node(l, d0, id).content(d0));
        }
    }
    assert(v1 =~= v2);
}

/// A record that binds `name` to the file `t`, appended to the root
/// directory where no entry had the name, with the link count of `t`
/// raised by one, or set to one where `t` was just allocated, keeps the
/// directory and the link counts sound.
pub proof fn lemma_links_push(l: Layout, d0: Disk, d1: Disk, t: int, name: Seq<u8>)
    requires
        links_ok(l, d0),
        apart_same(l, d0, d1, 0, t),
        1 <= t < 0x1_0000_0000,
        inode_used(l, d1, t),
        inode_used(l, d1, 0),
        node(l, d1, 0).kind == DiskInodeType::Directory,
        node(l, d1, 0).size == node(l, d0, 0).size + DIRENT_SZ,
        node(l, d1, 0).content(d1) == node(l, d0, 0).content(d0) + entry_bytes(name, t as u32),
        valid_name(name),
        find_name(root_entries(l, d0), name) == -1,
        node(l, d1, t).kind == DiskInodeType::File,
        node(l, d1, t).link_count == (if inode_used(l, d0, t) {
            node(l, d0, t).link_count + 1
        } else {
            1
        }),
    ensures
        links_ok(l, d1),
        root_entries(l, d1) == root_entries(l, d0).push(EntryView { name, inode: t as u32 }),
{
    reveal(links_ok);
    reveal(apart_same);
    let entries = root_entries(l, d0);
    let c0 = node(l, d0, 0).content(d0);
    let rec = entry_bytes(name, t as u32);
    let entry = EntryView { name, inode: t as u32 };
    crate::dirent::lemma_entry_roundtrip(name, t as u32);
    crate::dirent::lemma_records_push(c0, rec);
    let entries1 = root_entries(l, d1);
    assert(entries1 == entries.push(entry));
    lemma_find_from(entries, name, 0);
    assert forall|i: int, j: int| 0 <= i < j < entries1.len() implies (#[trigger] entries1[i]).name
        != (#[trigger] entries1[j]).name by {
        if j < entries.len() {
            assert(entries1[i] == entries[i] && entries1[j] == entries[j]);
        } else {
            assert(entries1[i] == entries[i]);
        }
    }
    assert forall|e: int| 0 <= e < entries1.len() implies (#[trigger] entries1[e]).inode >= 1
        && inode_used(l, d1, entries1[e].inode as int) by {
        if e < entries.len() {
            assert(entries1[e] == entries[e]);
            let id = entries[e].inode as int;
            assert(inode_used(l, d0, id));
            if id != t {
                assert(inode_used(l, d1, id) == inode_used(l, d0, id));
            }
        }
    }
    assert forall|i: int| 1 <= i && inode_used(l, d1, i) implies (#[trigger] node(l, d1, i)).kind
        == DiskInodeType::File && node(l, d1, i).link_count == count_refs(entries1, i) by {
        crate::dirent::lemma_count_refs_push(entries, entry, i);
        if i == t {
            if !inode_used(l, d0, t) {
                assert forall|e: int| 0 <= e < entries.len() implies (#[trigger] entries[e]).inode
                    != t by {
                    assert(inode_used(l, d0, entries[e].inode as int));
                }
                crate::dirent::lemma_count_refs_zero(entries, t);
            } else {
                assert(node(l, d0, t).link_count == count_refs(entries, t));
            }
        } else {
            assert(inode_used(l, d1, i) == inode_used(l, d0, i));
            assert(node(l, d1, i) == node(l, d0, i));
            assert(node(l, d0, i).link_count == count_refs(entries, i));
        }
    }
}

/// The record at position `at` removed from the root directory, with the
/// link count of the file that it was bound to lowered by one, keeps the
/// directory and the link counts sound.
pub proof fn lemma_links_remove(l: Layout, d0: Disk, d1: Disk, at: int)
    requires
        links_ok(l, d0),
        0 <= at < root_entries(l, d0).len(),
        apart_same(l, d0, d1, 0, root_entries(l, d0)[at].inode as int),
        inode_used(l, d1, 0),
        inode_used(l, d1, root_entries(l, d0)[at].inode as int),
        node(l, d1, 0).kind == DiskInodeType::Directory,
        node(l, d1, 0).size == node(l, d0, 0).size - DIRENT_SZ,
        records(node(l, d1, 0).content(d1)) == records(node(l, d0, 0).content(d0)).remove(at),
        node(l, d1, root_entries(l, d0)[at].inode as int).kind == DiskInodeType::File,
        node(l, d1, root_entries(l, d0)[at].inode as int).link_count == node(
            l,
            d0,
            root_entries(l, d0)[at].inode as int,
        ).link_count - 1,
    ensures
        links_ok(l, d1),
        root_entries(l, d1) == root_entries(l, d0).remove(at),
{
    reveal(links_ok);
    reveal(apart_same);
    let entries = root_entries(l, d0);
    let t = entries[at].inode as int;
    crate::dirent::lemma_entries_remove(records(node(l, d0, 0).content(d0)), at);
    let entries1 = root_entries(l, d1);
    assert(entries1 == entries.remove(at));
    assert forall|i: int, j: int| 0 <= i < j < entries1.len() implies (#[trigger] entries1[i]).name
        != (#[trigger] entries1[j]).name by {
        let i0 = if i < at {
            i
        } else {
            i + 1
        };
        let j0 = if j < at {
            j
        } else {
            j + 1
        };
        assert(entries1[i] == entries[i0] && entries1[j] == entries[j0]);
    }
    assert forall|e: int| 0 <= e < entries1.len() implies (#[trigger] entries1[e]).inode >= 1
        && inode_used(l, d1, entries1[e].inode as int) by {
        let e0 = if e < at {
            e
        } else {
            e + 1
        };
        assert(entries1[e] == entries[e0]);
        let id = entries[e0].inode as int;
        assert(inode_used(l, d0, id));
        if id != t {
            assert(inode_used(l, d1, id) == inode_used(l, d0, id));
        }
    }
    assert(inode_used(l, d0, t));
    assert forall|i: int| 1 <= i && inode_used(l, d1, i) implies (#[trigger] node(l, d1, i)).kind
        == DiskInodeType::File && node(l, d1, i).link_count == count_refs(entries1, i) by {
        crate::dirent::lemma_count_refs_remove(entries, at, i);
        if i == t {
            assert(node(l, d0, t).link_count == count_refs(entries, t));
        } else {
            assert(inode_used(l, d1, i) == inode_used(l, d0, i));
            assert(node(l, d1, i) == node(l, d0, i));
            assert(node(l, d0, i).link_count == count_refs(entries, i));
        }
    }
}

/// The bytes of a file after `data` was written at `offset`: the file is
/// first extended with zeros up to the end of what is written, where it
/// was shorter.
pub open spec fn write_result(content: Seq<u8>, offset: int, data: Seq<u8>) -> Seq<u8> {
    splice(resized(content, grown_size(content.len() as int, offset, data.len() as int)), offset, data)
}

/// The size of a file of `size` bytes after `len` bytes were written at
/// `offset`.
pub open spec fn grown_size(size: int, offset: int, len: int) -> int {
    if offset + len > size {
        offset + len
    } else {
        size
    }
}

/// The bytes of a file after it was set to `size` bytes: cut where it was
/// longer, extended with zeros where it was shorter.
pub open spec fn resized(content: Seq<u8>, size: int) -> Seq<u8> {
    if size <= content.len() {
        content.subrange(0, size)
    } else {
        content + zeros(size - content.len())
    }
}

/// The number of blocks that must be allocated for a file of `size` bytes to
/// reach `new_size` bytes; none where it is not to grow.
pub open spec fn blocks_needed(size: int, new_size: int) -> int {
    if new_size > size {
        spec_total_blocks(new_size) - spec_total_blocks(size)
    } else {
        0
    }
}

/// A handle on an inode.
#[derive(Clone, Copy, Debug)]
pub struct Inode {
    inode_id: u32,
    block_id: usize,
    block_offset: usize,
}

impl Inode {
    /// The number of the inode.
    pub closed spec fn id(&self) -> int {
        self.inode_id as int
    }

    /// The block that holds the record of the inode.
    pub closed spec fn block(&self) -> int {
        self.block_id as int
    }

    /// The byte within the block at which the record starts.
    pub closed spec fn offset(&self) -> int {
        self.block_offset as int
    }

    /// The handle names an allocated inode of `fs`, at its place.
    pub open spec fn valid<D: BlockDevice>(&self, fs: &EasyFileSystem<D>) -> bool {
        &&& inode_used(fs.layout(), fs.disk(), self.id())
        &&& self.block() == fs.layout().inode_block(self.id())
        &&& self.offset() == Layout::inode_offset(self.id())
    }

    /// The record of the inode in `fs`.
    pub open spec fn rec<D: BlockDevice>(&self, fs: &EasyFileSystem<D>) -> InodeRec {
        node(fs.layout(), fs.disk(), self.id())
    }

    /// The bytes of the node in `fs`.
    pub open spec fn content<D: BlockDevice>(&self, fs: &EasyFileSystem<D>) -> Seq<u8> {
        self.rec(fs).content(fs.disk())
    }

    /// A handle on inode `inode_id`, whose record is stored in block
    /// `block_id` at byte `block_offset`.
    pub fn new(inode_id: u32, block_id: u32, block_offset: usize) -> (inode: Inode)
        ensures
            inode.id() == inode_id,
            inode.block() == block_id,
            inode.offset() == block_offset,
    {
        Inode { inode_id, block_id: block_id as usize, block_offset }
    }

    /// The number of the inode.
    pub fn inode_id(&self) -> (id: u32)
        ensures
            id == self.id(),
    {
        self.inode_id
    }

    /// A handle on the root directory.
    pub fn root<D: BlockDevice>(fs: &EasyFileSystem<D>) -> (inode: Inode)
        requires
            fs.inv(),
        ensures
            inode.id() == 0,
            inode.valid(fs),
    {
        proof {
            reveal(links_ok);
        }
        let (block_id, block_offset) = fs.get_disk_inode_pos(0);
        Inode::new(0, block_id, block_offset)
    }

    /// A handle on inode `inode_id`.
    pub fn get_inode<D: BlockDevice>(fs: &EasyFileSystem<D>, inode_id: u32) -> (inode: Inode)
        requires
            fs.inv(),
            inode_used(fs.layout(), fs.disk(), inode_id as int),
        ensures
            inode.id() == inode_id,
            inode.valid(fs),
    {
        let (block_id, block_offset) = fs.get_disk_inode_pos(inode_id);
        Inode::new(inode_id, block_id, block_offset)
    }

    /// Makes known what the invariant of the filesystem says of the inode
    /// of a valid handle.
    pub proof fn lemma_valid<D: BlockDevice>(&self, fs: &EasyFileSystem<D>)
        requires
            fs.inv(),
            self.valid(fs),
        ensures
            0 <= self.id() < fs.layout().inode_count(),
            node_ok(fs.layout(), fs.disk(), self.rec(fs)),
            self.rec(fs).direct.len() == crate::layout::INODE_DIRECT_COUNT,
            (self.rec(fs).kind == DiskInodeType::Directory) == (self.id() == 0),
            chains_ok(fs.layout(), fs.disk(), self.id(), self.rec(fs)),
            fs@.dom().contains(self.id()),
            fs@[self.id()].content == self.content(fs),
            fs@[self.id()].content.len() == self.rec(fs).size,
            self.rec(fs).size <= MAX_FILE_SIZE,
            0 <= fs.free_data_blocks() <= fs.layout().data_area_blocks,
            0 <= fs.free_inode_slots() <= fs.layout().inode_count(),
    {
        reveal(links_ok);
        let l = fs.layout();
        let d = fs.disk();
        crate::bitmap::lemma_free_count_bounds(d, l.data_bitmap_start(), l.data_area_blocks as int);
        crate::bitmap::lemma_free_count_bounds(d, l.inode_bitmap_start(), l.inode_count());
        crate::efs::lemma_node_ok(l, d, 0, node(l, d, 0), self.id());
        crate::efs::lemma_override(l, d, 0, node(l, d, 0), self.id(), self.rec(fs));
    }

    /// The inode number, the link count and the type of the node.
    pub fn stat<D: BlockDevice>(&self, fs: &mut EasyFileSystem<D>) -> (r: (u32, u32, DiskInodeType))
        requires
            old(fs).inv(),
            self.valid(old(fs)),
        ensures
            final(fs).inv(),
            final(fs).disk() == old(fs).disk(),
            final(fs).layout() == old(fs).layout(),
            final(fs).journal() == old(fs).journal(),
            r.0 == self.id(),
            r.1 == old(fs)@[self.id()].link_count,
            r.2 == old(fs)@[self.id()].kind,
    {
        proof {
            self.lemma_valid(fs);
        }
        let disk_inode = fs.load_inode(self.inode_id);
        (self.inode_id, disk_inode.link_count, disk_inode.type_())
    }

    /// The attributes of the node: its type, its size in bytes, the number
    /// of its data blocks, and the fixed permission bits.
    pub fn get_attr<D: BlockDevice>(&self, fs: &mut EasyFileSystem<D>) -> (r: Result<
        NodeAttr,
        FsError,
    >)
        requires
            old(fs).inv(),
            self.valid(old(fs)),
        ensures
            final(fs).inv(),
            final(fs).disk() == old(fs).disk(),
            final(fs).layout() == old(fs).layout(),
            final(fs).journal() == old(fs).journal(),
            r == Ok::<NodeAttr, FsError>(
                NodeAttr {
                    perm: NODE_PERM,
                    ty: if old(fs)@[self.id()].kind == DiskInodeType::File {
                        NodeType::File
                    } else {
                        NodeType::Dir
                    },
                    size: old(fs)@[self.id()].content.len() as u64,
                    blocks: spec_data_blocks(old(fs)@[self.id()].content.len() as int) as u64,
                },
            ),
    {
        proof {
            self.lemma_valid(fs);
        }
        let disk_inode = fs.load_inode(self.inode_id);
        let ty = if disk_inode.is_file() {
            NodeType::File
        } else {
            NodeType::Dir
        };
        Ok(
            NodeAttr {
                perm: NODE_PERM,
                ty,
                size: disk_inode.size as u64,
                blocks: disk_inode.data_blocks() as u64,
            },
        )
    }

    /// Reads bytes of the file, from `offset` on, to the front of `buf`:
    /// as many as `buf` holds and the file has from there. Fails on a
    /// directory.
    pub fn read_at<D: BlockDevice>(
        &self,
        fs: &mut EasyFileSystem<D>,
        offset: u64,
        buf: &mut Vec<u8>,
    ) -> (r: Result<usize, FsError>)
        requires
            old(fs).inv(),
            self.valid(old(fs)),
        ensures
            final(fs).inv(),
            final(fs).disk() == old(fs).disk(),
            final(fs).layout() == old(fs).layout(),
            final(fs).journal() == old(fs).journal(),
            old(fs)@[self.id()].kind != DiskInodeType::File ==> r == Err::<usize, FsError>(
                FsError::IsADirectory,
            ) && final(buf)@ == old(buf)@,
            old(fs)@[self.id()].kind == DiskInodeType::File ==> {
                let content = old(fs)@[self.id()].content;
                let count = clipped(content.len() as int, offset as int, old(buf)@.len() as int);
                &&& r == Ok::<usize, FsError>(count as usize)
                &&& final(buf)@ == splice(old(buf)@, 0, window(content, offset as int, count))
            },
    {
        proof {
            self.lemma_valid(fs);
        }
        let disk_inode = fs.load_inode(self.inode_id);
        if !disk_inode.is_file() {
            return Err(FsError::IsADirectory);
        }
        if offset >= disk_inode.size as u64 {
            proof {
                let content = fs@[self.id()].content;
                assert(buf@ =~= splice(buf@, 0, window(content, offset as int, 0)));
            }
            return Ok(0);
        }
        let count = disk_inode.read_at(offset as usize, buf, &mut fs.cache);
        Ok(count)
    }
}

impl Inode {
    /// Grows the file to `new_size` bytes, allocating the blocks that this
    /// takes; does nothing where the file is not smaller.
    fn increase_size<D: BlockDevice>(
        &self,
        new_size: u32,
        disk_inode: &mut DiskInode,
        fs: &mut EasyFileSystem<D>,
    )
        requires
            old(fs).geometry_ok(),
            mid_ok(old(fs).layout(), old(fs).disk(), self.id(), old(disk_inode)@),
            new_size <= MAX_FILE_SIZE,
            blocks_needed(old(disk_inode)@.size as int, new_size as int) <= free_data(
                old(fs).layout(),
                old(fs).disk(),
            ),
        ensures
            final(fs).geometry_ok(),
            final(fs).layout() == old(fs).layout(),
            final(fs).journal() == old(fs).journal(),
            final(disk_inode).wf(),
            mid_ok(final(fs).layout(), final(fs).disk(), self.id(), final(disk_inode)@),
            step_ok(old(fs).layout(), old(fs).disk(), final(fs).disk(), self.id()),
            free_data(final(fs).layout(), final(fs).disk()) == free_data(
                old(fs).layout(),
                old(fs).disk(),
            ) - blocks_needed(old(disk_inode)@.size as int, new_size as int),
            final(disk_inode)@.kind == old(disk_inode)@.kind,
            final(disk_inode)@.link_count == old(disk_inode)@.link_count,
            final(disk_inode)@.size == grown_size(old(disk_inode)@.size as int, new_size as int, 0),
            final(disk_inode)@.content(final(fs).disk()) == resized(
                old(disk_inode)@.content(old(fs).disk()),
                grown_size(old(disk_inode)@.size as int, new_size as int, 0),
            ),
            crate::efs::blocks_follow(
                old(fs).layout(),
                old(fs).disk(),
                old(disk_inode)@,
                final(fs).disk(),
                final(disk_inode)@,
            ),
    {
        let ghost l = fs.layout();
        let ghost d0 = fs.disk();
        let ghost r0 = disk_inode@;
        let ghost id = self.id();
        if new_size <= disk_inode.size {
            proof {
                assert(r0.content(d0).subrange(0, r0.size as int) =~= r0.content(d0));
                assert(step_ok(l, d0, d0, id)) by {
                    reveal(step_ok);
                }
                crate::efs::lemma_same_refl(l, d0, r0);
                crate::efs::lemma_same_follows(l, d0, r0, d0, r0);
            }
            return ;
        }
        proof {
            crate::efs::lemma_node_ok(l, d0, id, r0, id);
        }
        let blocks_needed = disk_inode.blocks_num_needed(new_size);
        let blocks = fs.alloc_blocks(blocks_needed as usize);
        let ghost da = fs.disk();
        proof {
            crate::efs::lemma_allocated_fresh(l, d0, da, id, r0, blocks@);
            crate::efs::lemma_ready_to_grow(l, d0, da, id, r0, blocks@);
        }
        let ghost list = blocks@;
        disk_inode.increase_size(new_size, blocks, &mut fs.cache);
        proof {
            let d1 = fs.disk();
            crate::efs::lemma_grow_step(l, da, d1, id, r0, disk_inode@, new_size as int, list);
            assert(step_ok(l, d0, da, id) && step_ok(l, da, d1, id)) by {
                reveal(step_ok);
            }
            lemma_step_trans(l, d0, da, d1, id);
            crate::efs::lemma_follow_grow(l, d0, da, d1, r0, disk_inode@, new_size as int, list);
        }
    }

    /// Cuts the file to `new_size` bytes and releases the blocks that this
    /// frees; does nothing where the file is not larger.
    fn decrease_size<D: BlockDevice>(
        &self,
        new_size: u32,
        disk_inode: &mut DiskInode,
        fs: &mut EasyFileSystem<D>,
    )
        requires
            old(fs).geometry_ok(),
            mid_ok(old(fs).layout(), old(fs).disk(), self.id(), old(disk_inode)@),
        ensures
            final(fs).geometry_ok(),
            final(fs).layout() == old(fs).layout(),
            final(fs).journal() == old(fs).journal(),
            final(disk_inode).wf(),
            mid_ok(final(fs).layout(), final(fs).disk(), self.id(), final(disk_inode)@),
            step_ok(old(fs).layout(), old(fs).disk(), final(fs).disk(), self.id()),
            free_data(final(fs).layout(), final(fs).disk()) == free_data(
                old(fs).layout(),
                old(fs).disk(),
            ) + blocks_needed(new_size as int, old(disk_inode)@.size as int),
            final(disk_inode)@.kind == old(disk_inode)@.kind,
            final(disk_inode)@.link_count == old(disk_inode)@.link_count,
            final(disk_inode)@.size == (if new_size < old(disk_inode)@.size {
                new_size
            } else {
                old(disk_inode)@.size
            }),
            final(disk_inode)@.content(final(fs).disk()) == resized(
                old(disk_inode)@.content(old(fs).disk()),
                final(disk_inode)@.size as int,
            ),
            crate::efs::blocks_follow(
                old(fs).layout(),
                old(fs).disk(),
                old(disk_inode)@,
                final(fs).disk(),
                final(disk_inode)@,
            ),
    {
        let ghost l = fs.layout();
        let ghost d0 = fs.disk();
        let ghost r0 = disk_inode@;
        let ghost id = self.id();
        if new_size >= disk_inode.size {
            proof {
                assert(r0.content(d0).subrange(0, r0.size as int) =~= r0.content(d0));
                assert(step_ok(l, d0, d0, id)) by {
                    reveal(step_ok);
                }
                crate::efs::lemma_same_refl(l, d0, r0);
                crate::efs::lemma_same_follows(l, d0, r0, d0, r0);
            }
            return ;
        }
        proof {
            crate::efs::lemma_node_ok(l, d0, id, r0, id);
        }
        let blocks_to_free = disk_inode.decrease_size(new_size, &mut fs.cache);
        proof {
            crate::efs::lemma_freed_used(l, d0, id, r0, disk_inode@, new_size as int, blocks_to_free@);
        }
        fs.dealloc_blocks(&blocks_to_free);
        proof {
            let d1 = fs.disk();
            crate::efs::lemma_shrink_step(
                l,
                d0,
                d1,
                id,
                r0,
                disk_inode@,
                new_size as int,
                blocks_to_free@,
            );
            assert(step_ok(l, d0, d1, id)) by {
                reveal(step_ok);
            }
        }
    }

    /// Writes `buf` into the file at `offset`, growing the file where it
    /// ends before the end of what is written. Returns the number of bytes
    /// written, which is the length of `buf`. Fails, and changes nothing,
    /// on a directory, where the file would grow beyond the largest size,
    /// and where not enough blocks are free.
    pub fn write_at<D: BlockDevice>(
        &self,
        fs: &mut EasyFileSystem<D>,
        offset: u64,
        buf: &[u8],
    ) -> (r: Result<usize, FsError>)
        requires
            old(fs).inv(),
            self.valid(old(fs)),
        ensures
            final(fs).inv(),
            final(fs).layout() == old(fs).layout(),
            final(fs).journaling() == old(fs).journaling(),
            self.valid(final(fs)),
            r == write_outcome(old(fs)@[self.id()], old(fs).free_data_blocks(), offset as int, buf@),
            r is Err ==> final(fs).disk() == old(fs).disk(),
            r is Ok ==> {
                let before = old(fs)@[self.id()];
                &&& final(fs)@ == old(fs)@.insert(
                    self.id(),
                    NodeView { content: write_result(before.content, offset as int, buf@), ..before },
                )
                &&& final(fs).entries() == old(fs).entries()
                &&& final(fs).free_data_blocks() == old(fs).free_data_blocks() - blocks_needed(
                    before.content.len() as int,
                    offset + buf@.len(),
                )
                &&& final(fs).free_inode_slots() == old(fs).free_inode_slots()
                &&& file_blocks_follow(old(fs).layout(), old(fs).disk(), final(fs).disk(), self.id())
                &&& final(fs).journaling() ==> final(fs).durable() == final(fs).disk() && final(fs).journal().committed() == record_blocks(old(fs).layout(), self.id(), self.id())
            },
    {
        let ghost l = fs.layout();
        let ghost d0 = fs.disk();
        let ghost id = self.id();
        proof {
            self.lemma_valid(fs);
            fs.lemma_geometry();
        }
        let mut disk_inode = fs.load_inode(self.inode_id);
        let ghost r0 = disk_inode@;
        if !disk_inode.is_file() {
            return Err(FsError::IsADirectory);
        }
        let len = buf.len();
        if offset > MAX_FILE_SIZE as u64 || len as u64 > MAX_FILE_SIZE as u64 - offset {
            return Err(FsError::InvalidInput);
        }
        let end = (offset + len as u64) as u32;
        let needed = if end > disk_inode.size {
            disk_inode.blocks_num_needed(end)
        } else {
            0
        };
        let free = fs.count_free_data();
        if needed as usize > free {
            return Err(FsError::StorageFull);
        }
        tx_begin(fs, self.block_id);
        self.increase_size(end, &mut disk_inode, fs);
        let ghost d1 = fs.disk();
        let ghost r1 = disk_inode@;
        proof {
            crate::efs::lemma_node_ok(l, d1, id, r1, id);
        }
        let written = disk_inode.write_at(offset as usize, buf, &mut fs.cache);
        let ghost d2 = fs.disk();
        proof {
            assert(buf@.subrange(0, written as int) =~= buf@);
            crate::efs::lemma_write_step(l, d1, d2, id, r1, offset as int, buf@);
            assert(step_ok(l, d1, d2, id)) by {
                reveal(step_ok);
            }
            lemma_step_trans(l, d0, d1, d2, id);
        }
        tx_store(fs, self.inode_id, &disk_inode, Ghost(2int));
        proof {
            let d3 = fs.disk();
            crate::efs::lemma_store_step(l, d2, d3, id, r1);
            assert(step_ok(l, d2, d3, id)) by {
                reveal(step_ok);
            }
            lemma_step_trans(l, d0, d2, d3, id);
            lemma_links_file_update(l, d0, d3, id);
            lemma_view_update(l, d0, d3, id);
            crate::efs::lemma_follow_then_same(l, d0, r0, d1, r1, d2, r1);
            crate::efs::lemma_follow_then_same(l, d0, r0, d2, r1, d3, r1);
            lemma_chains_kept(l, d0, d3, id);
            lemma_file_blocks_follow(l, d0, d3, id);
        }
        tx_end(fs, Ghost(2int));
        Ok(written)
    }

    /// Sets the size of the file to `size` bytes: cuts it where it is
    /// longer, extends it with zeros where it is shorter. Fails, and changes
    /// nothing, on a directory, where `size` is beyond the largest size, and
    /// where not enough blocks are free.
    pub fn truncate<D: BlockDevice>(&self, fs: &mut EasyFileSystem<D>, size: u64) -> (r: Result<
        (),
        FsError,
    >)
        requires
            old(fs).inv(),
            self.valid(old(fs)),
        ensures
            final(fs).inv(),
            final(fs).layout() == old(fs).layout(),
            final(fs).journaling() == old(fs).journaling(),
            self.valid(final(fs)),
            r == truncate_outcome(old(fs)@[self.id()], old(fs).free_data_blocks(), size as int),
            r is Err ==> final(fs).disk() == old(fs).disk(),
            r is Ok ==> {
                let before = old(fs)@[self.id()];
                &&& final(fs)@ == old(fs)@.insert(
                    self.id(),
                    NodeView { content: resized(before.content, size as int), ..before },
                )
                &&& final(fs).entries() == old(fs).entries()
                &&& final(fs).free_data_blocks() == old(fs).free_data_blocks() - blocks_needed(
                    before.content.len() as int,
                    size as int,
                ) + blocks_needed(size as int, before.content.len() as int)
                &&& final(fs).free_inode_slots() == old(fs).free_inode_slots()
                &&& file_blocks_follow(old(fs).layout(), old(fs).disk(), final(fs).disk(), self.id())
                &&& final(fs).journaling() ==> final(fs).durable() == final(fs).disk() && final(fs).journal().committed() == record_blocks(old(fs).layout(), self.id(), self.id())
            },
    {
        let ghost l = fs.layout();
        let ghost d0 = fs.disk();
        let ghost id = self.id();
        proof {
            self.lemma_valid(fs);
            fs.lemma_geometry();
        }
        let mut disk_inode = fs.load_inode(self.inode_id);
        let ghost r0 = disk_inode@;
        if !disk_inode.is_file() {
            return Err(FsError::IsADirectory);
        }
        if size > MAX_FILE_SIZE as u64 {
            return Err(FsError::InvalidInput);
        }
        let new_size = size as u32;
        let needed = if new_size > disk_inode.size {
            disk_inode.blocks_num_needed(new_size)
        } else {
            0
        };
        let free = fs.count_free_data();
        if needed as usize > free {
            return Err(FsError::StorageFull);
        }
        tx_begin(fs, self.block_id);
        if new_size > disk_inode.size {
            self.increase_size(new_size, &mut disk_inode, fs);
        } else {
            self.decrease_size(new_size, &mut disk_inode, fs);
        }
        let ghost d2 = fs.disk();
        let ghost r2 = disk_inode@;
        tx_store(fs, self.inode_id, &disk_inode, Ghost(2int));
        proof {
            let d3 = fs.disk();
            crate::efs::lemma_store_step(l, d2, d3, id, r2);
            assert(step_ok(l, d2, d3, id)) by {
                reveal(step_ok);
            }
            lemma_step_trans(l, d0, d2, d3, id);
            lemma_links_file_update(l, d0, d3, id);
            lemma_view_update(l, d0, d3, id);
            crate::efs::lemma_follow_then_same(l, d0, r0, d2, r2, d3, r2);
            lemma_chains_kept(l, d0, d3, id);
            lemma_file_blocks_follow(l, d0, d3, id);
        }
        tx_end(fs, Ghost(2int));
        Ok(())
    }
}

/// What `write_at` returns for a node that holds `before`, with `free` free
/// data blocks: the length of the data where the write is done.
pub open spec fn write_outcome(before: NodeView, free: int, offset: int, data: Seq<u8>) -> Result<
    usize,
    FsError,
> {
    if before.kind != DiskInodeType::File {
        Err(FsError::IsADirectory)
    } else if offset + data.len() > MAX_FILE_SIZE {
        Err(FsError::InvalidInput)
    } else if blocks_needed(before.content.len() as int, offset + data.len()) > free {
        Err(FsError::StorageFull)
    } else {
        Ok(data.len() as usize)
    }
}

/// What `truncate` returns for a node that holds `before`, with `free` free
/// data blocks.
pub open spec fn truncate_outcome(before: NodeView, free: int, size: int) -> Result<(), FsError> {
    if before.kind != DiskInodeType::File {
        Err(FsError::IsADirectory)
    } else if size > MAX_FILE_SIZE {
        Err(FsError::InvalidInput)
    } else if blocks_needed(before.content.len() as int, size) > free {
        Err(FsError::StorageFull)
    } else {
        Ok(())
    }
}

/// The bytes of a name: its UTF-8 encoding.
pub open spec fn name_bytes(name: Seq<char>) -> Seq<u8> {
    vstd::utf8::encode_utf8(name)
}

/// What `lookup` finds in a node of type `kind` and number `id`, whose
/// entries are `entries` where it is the directory, for the path of
/// segments `segments`: the number of the inode found.
pub open spec fn lookup_outcome(
    kind: DiskInodeType,
    id: int,
    entries: Seq<EntryView>,
    segments: Seq<Seq<char>>,
) -> Result<int, FsError> {
    if kind != DiskInodeType::Directory {
        Err(FsError::NotADirectory)
    } else if segments.len() == 0 {
        Ok(id)
    } else if segments.len() > 1 {
        Err(FsError::Unsupported)
    } else if find_name(entries, name_bytes(segments[0])) == -1 {
        Err(FsError::NotFound)
    } else {
        Ok(entries[find_name(entries, name_bytes(segments[0]))].inode as int)
    }
}

/// One entry of a directory as `read_dir` reports it.
pub struct DirEntryInfo {
    pub name: Vec<u8>,
    pub ty: NodeType,
}

/// The number of entries that `read_dir` reports from position `start` of
/// a directory of `count` entries into a buffer of `capacity` places.
pub open spec fn listed(count: int, start: int, capacity: int) -> int {
    if start >= count {
        0
    } else if capacity <= count - start {
        capacity
    } else {
        count - start
    }
}

impl Inode {
    /// Reads record `at` of the directory `dir`.
    fn read_entry<D: BlockDevice>(
        &self,
        fs: &mut EasyFileSystem<D>,
        dir: &DiskInode,
        at: usize,
    ) -> (entry: DirEntry)
        requires
            old(fs).geometry_ok(),
            node_ok(old(fs).layout(), old(fs).disk(), dir@),
            at < records(dir@.content(old(fs).disk())).len(),
        ensures
            final(fs).geometry_ok(),
            final(fs).layout() == old(fs).layout(),
            final(fs).journal() == old(fs).journal(),
            final(fs).disk() == old(fs).disk(),
            entry.wf(),
            entry@ == records(dir@.content(old(fs).disk()))[at as int],
    {
        let ghost content = dir@.content(fs.disk());
        let mut buf: Vec<u8> = vec![0u8; DIRENT_SZ];
        let count = dir.read_at(DIRENT_SZ * at, &mut buf, &mut fs.cache);
        proof {
            assert(count == DIRENT_SZ);
            assert(buf@ =~= content.subrange(at * DIRENT_SZ, at * DIRENT_SZ + DIRENT_SZ));
            assert(buf@.subrange(0, DIRENT_SZ as int) =~= buf@);
        }
        DirEntry::from_bytes(&buf)
    }

    /// Looks for the first entry of the directory `dir` that has the name
    /// `name`, and returns its position and the inode that it is bound to.
    fn find_entry<D: BlockDevice>(
        &self,
        fs: &mut EasyFileSystem<D>,
        name: &[u8],
        dir: &DiskInode,
    ) -> (r: Option<(usize, u32)>)
        requires
            old(fs).geometry_ok(),
            node_ok(old(fs).layout(), old(fs).disk(), dir@),
        ensures
            final(fs).geometry_ok(),
            final(fs).layout() == old(fs).layout(),
            final(fs).journal() == old(fs).journal(),
            final(fs).disk() == old(fs).disk(),
            ({
                let entries = dir_entries(dir@.content(old(fs).disk()));
                let at = find_name(entries, name@);
                match r {
                    Some((i, inode)) => at == i && 0 <= at < entries.len() && inode
                        == entries[at].inode,
                    None => at == -1,
                }
            }),
    {
        let ghost d = fs.disk();
        let ghost content = dir@.content(d);
        let ghost entries = dir_entries(content);
        let file_count = (dir.size as usize) / DIRENT_SZ;
        let mut i: usize = 0;
        while i < file_count
            invariant
                i <= file_count,
                file_count == entries.len(),
                entries == dir_entries(content),
                content == dir@.content(d),
                fs.geometry_ok(),
                fs.layout() == old(fs).layout(),
                fs.journal() == old(fs).journal(),
                fs.disk() == d,
                d == old(fs).disk(),
                node_ok(fs.layout(), d, dir@),
                forall|e: int| 0 <= e < i ==> (#[trigger] entries[e]).name != name@,
            decreases file_count - i,
        {
            let dirent = self.read_entry(fs, dir, i);
            if dirent.name_is(name) {
                proof {
                    lemma_find_is(entries, name@, 0, i as int);
                }
                return Some((i, dirent.inode_id()));
            }
            i += 1;
        }
        proof {
            lemma_find_is(entries, name@, 0, file_count as int);
        }
        None
    }

    /// Looks for the first entry of the directory `disk_inode` that has the
    /// name `name`, and returns the inode that it is bound to. The record
    /// must be that of a directory.
    pub fn find_inode_id<D: BlockDevice>(
        &self,
        fs: &mut EasyFileSystem<D>,
        name: &[u8],
        disk_inode: &DiskInode,
    ) -> (r: Option<u32>)
        requires
            old(fs).geometry_ok(),
            node_ok(old(fs).layout(), old(fs).disk(), disk_inode@),
            disk_inode@.kind == DiskInodeType::Directory,
        ensures
            final(fs).geometry_ok(),
            final(fs).layout() == old(fs).layout(),
            final(fs).journal() == old(fs).journal(),
            final(fs).disk() == old(fs).disk(),
            ({
                let entries = dir_entries(disk_inode@.content(old(fs).disk()));
                let at = find_name(entries, name@);
                match r {
                    Some(inode) => 0 <= at < entries.len() && inode == entries[at].inode,
                    None => at == -1,
                }
            }),
    {
        match self.find_entry(fs, name, disk_inode) {
            Some((_, inode)) => Some(inode),
            None => None,
        }
    }

    /// Looks in this directory for the entry named `name` and returns a
    /// handle on the inode that it is bound to.
    pub fn find<D: BlockDevice>(&self, fs: &mut EasyFileSystem<D>, name: &str) -> (r: Option<Inode>)
        requires
            old(fs).inv(),
            self.valid(old(fs)),
            old(fs)@[self.id()].kind == DiskInodeType::Directory,
        ensures
            final(fs).inv(),
            final(fs).disk() == old(fs).disk(),
            final(fs).layout() == old(fs).layout(),
            final(fs).journal() == old(fs).journal(),
            ({
                let entries = old(fs).entries();
                let at = find_name(entries, name_bytes(name@));
                match r {
                    Some(inode) => 0 <= at < entries.len() && inode.id() == entries[at].inode
                        && inode.valid(final(fs)),
                    None => at == -1,
                }
            }),
    {
        proof {
            self.lemma_valid(fs);
        }
        let disk_inode = fs.load_inode(self.inode_id);
        match self.find_inode_id(fs, name.as_bytes(), &disk_inode) {
            Some(inode_id) => {
                proof {
                    reveal(links_ok);
                }
                Some(Inode::get_inode(fs, inode_id))
            },
            None => None,
        }
    }

    /// Resolves `path` at this directory: the directory itself for a path
    /// without segments, the node that the entry of that name is bound to
    /// for a path of one segment.
    pub fn lookup<D: BlockDevice>(&self, fs: &mut EasyFileSystem<D>, path: &str) -> (r: Result<
        Inode,
        FsError,
    >)
        requires
            old(fs).inv(),
            self.valid(old(fs)),
        ensures
            final(fs).inv(),
            final(fs).disk() == old(fs).disk(),
            final(fs).layout() == old(fs).layout(),
            final(fs).journal() == old(fs).journal(),
            ({
                let outcome = lookup_outcome(
                    old(fs)@[self.id()].kind,
                    self.id(),
                    old(fs).entries(),
                    crate::path::spec_path_components(path@),
                );
                match r {
                    Ok(inode) => outcome == Ok::<int, FsError>(inode.id()) && inode.valid(final(fs)),
                    Err(e) => outcome == Err::<int, FsError>(e),
                }
            }),
    {
        proof {
            self.lemma_valid(fs);
        }
        let disk_inode = fs.load_inode(self.inode_id);
        if !disk_inode.is_dir() {
            return Err(FsError::NotADirectory);
        }
        let components = crate::path::path_components(path);
        let ghost segments = crate::path::spec_path_components(path@);
        proof {
            assert(components@.len() == segments.len());
        }
        if components.len() == 0 {
            Ok(*self)
        } else if components.len() == 1 {
            proof {
                assert(crate::path::views(components@)[0] == components@[0]@);
            }
            match self.find(fs, components[0].as_str()) {
                Some(inode) => Ok(inode),
                None => Err(FsError::NotFound),
            }
        } else {
            Err(FsError::Unsupported)
        }
    }

    /// Reports the entries of this directory from position `start_idx` on
    /// into `dirents`, as many as `dirents` has places, and returns their
    /// number. Every entry is reported as a file.
    pub fn read_dir<D: BlockDevice>(
        &self,
        fs: &mut EasyFileSystem<D>,
        start_idx: usize,
        dirents: &mut Vec<DirEntryInfo>,
    ) -> (r: Result<usize, FsError>)
        requires
            old(fs).inv(),
            self.valid(old(fs)),
        ensures
            final(fs).inv(),
            final(fs).disk() == old(fs).disk(),
            final(fs).layout() == old(fs).layout(),
            final(fs).journal() == old(fs).journal(),
            final(dirents)@.len() == old(dirents)@.len(),
            old(fs)@[self.id()].kind != DiskInodeType::Directory ==> r == Err::<usize, FsError>(
                FsError::NotADirectory,
            ) && final(dirents)@ == old(dirents)@,
            old(fs)@[self.id()].kind == DiskInodeType::Directory ==> {
                let entries = old(fs).entries();
                let count = listed(
                    entries.len() as int,
                    start_idx as int,
                    old(dirents)@.len() as int,
                );
                &&& r == Ok::<usize, FsError>(count as usize)
                &&& forall|i: int|
                    0 <= i < count ==> (#[trigger] final(dirents)@[i]).name@ == entries[start_idx
                        + i].name && final(dirents)@[i].ty == NodeType::File
                &&& forall|i: int|
                    count <= i < old(dirents)@.len() ==> #[trigger] final(dirents)@[i] == old(
                        dirents,
                    )@[i]
            },
    {
        proof {
            self.lemma_valid(fs);
        }
        let ghost d = fs.disk();
        let disk_inode = fs.load_inode(self.inode_id);
        if !disk_inode.is_dir() {
            return Err(FsError::NotADirectory);
        }
        let ghost entries = fs.entries();
        let file_count = (disk_inode.size as usize) / DIRENT_SZ;
        let capacity = dirents.len();
        if start_idx >= file_count {
            return Ok(0);
        }
        let count = if capacity <= file_count - start_idx {
            capacity
        } else {
            file_count - start_idx
        };
        let mut i: usize = 0;
        while i < count
            invariant
                i <= count,
                count == listed(file_count as int, start_idx as int, capacity as int),
                start_idx < file_count,
                file_count == entries.len(),
                entries == dir_entries(disk_inode@.content(d)),
                capacity == old(dirents)@.len(),
                dirents@.len() == capacity,
                fs.geometry_ok(),
                fs.layout() == old(fs).layout(),
                fs.journal() == old(fs).journal(),
                fs.disk() == d,
                d == old(fs).disk(),
                node_ok(fs.layout(), d, disk_inode@),
                forall|k: int|
                    0 <= k < i ==> (#[trigger] dirents@[k]).name@ == entries[start_idx + k].name
                        && dirents@[k].ty == NodeType::File,
                forall|k: int| i <= k < capacity ==> #[trigger] dirents@[k] == old(dirents)@[k],
            decreases count - i,
        {
            let dirent = self.read_entry(fs, &disk_inode, start_idx + i);
            let info = DirEntryInfo { name: dirent.name(), ty: NodeType::File };
            dirents[i] = info;
            i += 1;
        }
        Ok(count)
    }
}

/// What a step that left the other inodes alone says of one of them.
pub proof fn lemma_step_node(l: Layout, d0: Disk, d1: Disk, i0: int, id: int)
    requires
        step_ok(l, d0, d1, i0),
    ensures
        inode_used(l, d1, id) == inode_used(l, d0, id),
        crate::efs::free_inodes(l, d1) == crate::efs::free_inodes(l, d0),
        id != i0 && 0 <= id < l.inode_count() ==> node(l, d1, id) == node(l, d0, id),
        id != i0 && inode_used(l, d0, id) ==> node(l, d1, id).content(d1) == node(l, d0, id).content(
            d0,
        ),
{
    reveal(step_ok);
}

/// The records `recs` with those from position `at` up to position `upto`
/// replaced each by the one that follows it.
pub open spec fn shifted(recs: Seq<Seq<u8>>, at: int, upto: int) -> Seq<Seq<u8>> {
    Seq::new(
        recs.len(),
        |e: int|
            if at <= e < upto {
                recs[e + 1]
            } else {
                recs[e]
            },
    )
}

/// What `create` returns for a path of segments `segments` and a type `ty`,
/// at a node of type `kind` whose bytes are `content`, with `free_blocks`
/// free data blocks and `free_slots` free inode slots.
pub open spec fn create_outcome(
    kind: DiskInodeType,
    content: Seq<u8>,
    free_blocks: int,
    free_slots: int,
    segments: Seq<Seq<char>>,
    ty: NodeType,
) -> Result<(), FsError> {
    if ty == NodeType::Dir {
        Err(FsError::Unsupported)
    } else if segments.len() == 0 {
        Err(FsError::AlreadyExists)
    } else if segments.len() > 1 {
        Err(FsError::Unsupported)
    } else {
        create_named_outcome(kind, content, free_blocks, free_slots, name_bytes(segments[0]))
    }
}

/// What creating a file named `name` returns at a node of type `kind`
/// whose bytes are `content`, with `free_blocks` free data blocks and
/// `free_slots` free inode slots.
pub open spec fn create_named_outcome(
    kind: DiskInodeType,
    content: Seq<u8>,
    free_blocks: int,
    free_slots: int,
    name: Seq<u8>,
) -> Result<(), FsError> {
    if kind != DiskInodeType::Directory {
        Err(FsError::NotADirectory)
    } else if find_name(dir_entries(content), name) != -1 {
        Err(FsError::AlreadyExists)
    } else if !valid_name(name) {
        Err(FsError::InvalidInput)
    } else if !has_room(content.len() as int, free_blocks) || free_slots == 0 {
        Err(FsError::StorageFull)
    } else {
        Ok(())
    }
}

/// A directory of `size` bytes can take one more record, with `free_blocks`
/// free data blocks.
pub open spec fn has_room(size: int, free_blocks: int) -> bool {
    size + DIRENT_SZ <= MAX_FILE_SIZE && blocks_needed(size, size + DIRENT_SZ) <= free_blocks
}

impl Inode {
    /// Appends to the directory `dir` a record that binds `name` to inode
    /// `inode_number`.
    fn append_entry<D: BlockDevice>(
        &self,
        fs: &mut EasyFileSystem<D>,
        dir: &mut DiskInode,
        name: &[u8],
        inode_number: u32,
    )
        requires
            old(fs).geometry_ok(),
            mid_ok(old(fs).layout(), old(fs).disk(), self.id(), old(dir)@),
            has_room(old(dir)@.size as int, free_data(old(fs).layout(), old(fs).disk())),
            name@.len() <= crate::layout::NAME_LENGTH_LIMIT,
        ensures
            final(fs).geometry_ok(),
            final(fs).layout() == old(fs).layout(),
            final(fs).journal() == old(fs).journal(),
            final(dir).wf(),
            mid_ok(final(fs).layout(), final(fs).disk(), self.id(), final(dir)@),
            step_ok(old(fs).layout(), old(fs).disk(), final(fs).disk(), self.id()),
            free_data(final(fs).layout(), final(fs).disk()) == free_data(
                old(fs).layout(),
                old(fs).disk(),
            ) - blocks_needed(old(dir)@.size as int, old(dir)@.size + DIRENT_SZ),
            final(dir)@.kind == old(dir)@.kind,
            final(dir)@.link_count == old(dir)@.link_count,
            final(dir)@.size == old(dir)@.size + DIRENT_SZ,
            final(dir)@.content(final(fs).disk()) == old(dir)@.content(old(fs).disk()) + entry_bytes(
                name@,
                inode_number,
            ),
            crate::efs::blocks_follow(
                old(fs).layout(),
                old(fs).disk(),
                old(dir)@,
                final(fs).disk(),
                final(dir)@,
            ),
    {
        let ghost l = fs.layout();
        let ghost d0 = fs.disk();
        let ghost id = self.id();
        let ghost c0 = dir@.content(d0);
        let ghost dir0 = dir@;
        let size = dir.size;
        let new_size = size + DIRENT_SZ as u32;
        self.increase_size(new_size, dir, fs);
        let ghost d1 = fs.disk();
        let ghost r1 = dir@;
        let dirent = DirEntry::new(name, inode_number);
        proof {
            crate::efs::lemma_node_ok(l, d1, id, r1, id);
        }
        let written = dir.write_at(size as usize, dirent.as_bytes().as_slice(), &mut fs.cache);
        proof {
            let d2 = fs.disk();
            let rec = dirent@;
            assert(rec.subrange(0, written as int) =~= rec);
            crate::efs::lemma_write_step(l, d1, d2, id, r1, size as int, rec);
            assert(step_ok(l, d1, d2, id)) by {
                reveal(step_ok);
            }
            lemma_step_trans(l, d0, d1, d2, id);
            crate::efs::lemma_follow_then_same(l, d0, dir0, d1, r1, d2, r1);
            assert(splice(c0 + zeros(DIRENT_SZ as int), size as int, rec) =~= c0 + rec);
        }
    }

    /// Removes record `at` from the directory `dir`: moves every later
    /// record one place to the front and cuts the directory by one record.
    fn remove_entry<D: BlockDevice>(
        &self,
        fs: &mut EasyFileSystem<D>,
        dir: &mut DiskInode,
        at: usize,
    )
        requires
            old(fs).geometry_ok(),
            mid_ok(old(fs).layout(), old(fs).disk(), self.id(), old(dir)@),
            old(dir)@.size as int % (DIRENT_SZ as int) == 0,
            at < old(dir)@.size as int / (DIRENT_SZ as int),
        ensures
            final(fs).geometry_ok(),
            final(fs).layout() == old(fs).layout(),
            final(fs).journal() == old(fs).journal(),
            final(dir).wf(),
            mid_ok(final(fs).layout(), final(fs).disk(), self.id(), final(dir)@),
            step_ok(old(fs).layout(), old(fs).disk(), final(fs).disk(), self.id()),
            free_data(final(fs).layout(), final(fs).disk()) == free_data(
                old(fs).layout(),
                old(fs).disk(),
            ) + blocks_needed(old(dir)@.size - DIRENT_SZ, old(dir)@.size as int),
            final(dir)@.kind == old(dir)@.kind,
            final(dir)@.link_count == old(dir)@.link_count,
            final(dir)@.size == old(dir)@.size - DIRENT_SZ,
            records(final(dir)@.content(final(fs).disk())) == records(
                old(dir)@.content(old(fs).disk()),
            ).remove(at as int),
            crate::efs::blocks_follow(
                old(fs).layout(),
                old(fs).disk(),
                old(dir)@,
                final(fs).disk(),
                final(dir)@,
            ),
    {
        let ghost l = fs.layout();
        let ghost d0 = fs.disk();
        let ghost id = self.id();
        let ghost r = dir@;
        let ghost recs0 = records(r.content(d0));
        let file_count = (dir.size as usize) / DIRENT_SZ;
        let mut j: usize = at;
        proof {
            assert(step_ok(l, d0, d0, id)) by {
                reveal(step_ok);
            }
            assert(recs0 =~= shifted(recs0, at as int, at as int));
            crate::efs::lemma_same_refl(l, d0, r);
        }
        while j + 1 < file_count
            invariant
                at <= j < file_count,
                file_count == recs0.len(),
                file_count * DIRENT_SZ == r.size,
                dir@ == r,
                dir.wf(),
                l == old(fs).layout(),
                d0 == old(fs).disk(),
                id == self.id(),
                fs.geometry_ok(),
                fs.layout() == l,
                fs.journal() == old(fs).journal(),
                mid_ok(l, fs.disk(), id, r),
                step_ok(l, d0, fs.disk(), id),
                free_data(l, fs.disk()) == free_data(l, d0),
                crate::efs::blocks_same(l, d0, r, fs.disk(), r),
                records(r.content(fs.disk())) == shifted(recs0, at as int, j as int),
            decreases file_count - j,
        {
            let ghost d = fs.disk();
            proof {
                crate::efs::lemma_node_ok(l, d, id, r, id);
            }
            let dirent = self.read_entry(fs, dir, j + 1);
            let written = dir.write_at(DIRENT_SZ * j, dirent.as_bytes().as_slice(), &mut fs.cache);
            proof {
                let d1 = fs.disk();
                let rec = dirent@;
                assert(rec.subrange(0, written as int) =~= rec);
                crate::efs::lemma_write_step(l, d, d1, id, r, DIRENT_SZ * j, rec);
                assert(step_ok(l, d, d1, id)) by {
                    reveal(step_ok);
                }
                lemma_step_trans(l, d0, d, d1, id);
                crate::efs::lemma_same_trans(l, d0, r, d, r, d1, r);
                crate::dirent::lemma_records_update(r.content(d), j as int, rec);
                assert(shifted(recs0, at as int, j as int).update(j as int, rec) =~= shifted(
                    recs0,
                    at as int,
                    j + 1,
                ));
            }
            j += 1;
        }
        let ghost d1 = fs.disk();
        let new_size = ((file_count - 1) * DIRENT_SZ) as u32;
        self.decrease_size(new_size, dir, fs);
        proof {
            let d2 = fs.disk();
            lemma_step_trans(l, d0, d1, d2, id);
            crate::efs::lemma_same_then_follow(l, d0, r, d1, r, d2, dir@);
            crate::dirent::lemma_records_drop_last(r.content(d1));
            assert(shifted(recs0, at as int, file_count - 1).drop_last() =~= recs0.remove(at as int));
        }
    }

    /// Creates an empty file named by `path` in this directory. The path
    /// must have one segment; the file takes the lowest free inode slot.
    /// Fails, and changes nothing, where a directory is asked for, the path
    /// has no segment or several, this node is a file, the name is taken
    /// or cannot be stored, or no room is left.
    pub fn create<D: BlockDevice>(
        &self,
        fs: &mut EasyFileSystem<D>,
        path: &str,
        ty: NodeType,
    ) -> (r: Result<(), FsError>)
        requires
            old(fs).inv(),
            self.valid(old(fs)),
        ensures
            final(fs).inv(),
            final(fs).layout() == old(fs).layout(),
            final(fs).journaling() == old(fs).journaling(),
            self.valid(final(fs)),
            r == create_outcome(
                old(fs)@[self.id()].kind,
                old(fs)@[self.id()].content,
                old(fs).free_data_blocks(),
                old(fs).free_inode_slots(),
                crate::path::spec_path_components(path@),
                ty,
            ),
            r is Err ==> final(fs).disk() == old(fs).disk(),
            r is Ok ==> self.id() == 0 && created(
                old(fs).layout(),
                old(fs).disk(),
                final(fs).disk(),
                crate::efs::lowest_free_inode(old(fs).layout(), old(fs).disk()),
                name_bytes(crate::path::spec_path_components(path@)[0]),
            ) && (final(fs).journaling() ==> final(fs).durable() == final(fs).disk() && final(fs).journal().committed() == record_blocks(old(fs).layout(), crate::efs::lowest_free_inode(old(fs).layout(), old(fs).disk()), 0)),
    {
        if ty == NodeType::Dir {
            return Err(FsError::Unsupported);
        }
        let components = crate::path::path_components(path);
        let ghost segments = crate::path::spec_path_components(path@);
        proof {
            assert(components@.len() == segments.len());
        }
        if components.len() == 0 {
            return Err(FsError::AlreadyExists);
        } else if components.len() > 1 {
            return Err(FsError::Unsupported);
        }
        proof {
            assert(crate::path::views(components@)[0] == components@[0]@);
        }
        self.create_named(fs, components[0].as_str().as_bytes())
    }

    /// Creates an empty file named `name` in this directory; the file
    /// takes the lowest free inode slot. Fails, and changes nothing, where
    /// this node is a file, the name is taken or cannot be stored, or no
    /// room is left.
    pub fn create_named<D: BlockDevice>(
        &self,
        fs: &mut EasyFileSystem<D>,
        name: &[u8],
    ) -> (r: Result<(), FsError>)
        requires
            old(fs).inv(),
            self.valid(old(fs)),
        ensures
            final(fs).inv(),
            final(fs).layout() == old(fs).layout(),
            final(fs).journaling() == old(fs).journaling(),
            self.valid(final(fs)),
            r == create_named_outcome(
                old(fs)@[self.id()].kind,
                old(fs)@[self.id()].content,
                old(fs).free_data_blocks(),
                old(fs).free_inode_slots(),
                name@,
            ),
            r is Err ==> final(fs).disk() == old(fs).disk(),
            r is Ok ==> self.id() == 0 && created(
                old(fs).layout(),
                old(fs).disk(),
                final(fs).disk(),
                crate::efs::lowest_free_inode(old(fs).layout(), old(fs).disk()),
                name@,
            ) && (final(fs).journaling() ==> final(fs).durable() == final(fs).disk() && final(fs).journal().committed() == record_blocks(old(fs).layout(), crate::efs::lowest_free_inode(old(fs).layout(), old(fs).disk()), 0)),
    {
        let ghost l = fs.layout();
        let ghost d0 = fs.disk();
        proof {
            self.lemma_valid(fs);
            fs.lemma_geometry();
        }
        let mut root = fs.load_inode(self.inode_id);
        let ghost r0 = root@;
        assert(fs@[self.id()].kind == r0.kind);
        assert(fs@[self.id()].content == r0.content(d0));
        assert(r0.content(d0).len() == r0.size);
        if !root.is_dir() {
            return Err(FsError::NotADirectory);
        }
        assert(fs.entries() == dir_entries(r0.content(d0)));
        if self.find_entry(fs, name, &root).is_some() {
            return Err(FsError::AlreadyExists);
        }
        if !is_valid_name(name) {
            return Err(FsError::InvalidInput);
        }
        if root.size > MAX_FILE_SIZE - DIRENT_SZ as u32 {
            return Err(FsError::StorageFull);
        }
        let needed = root.blocks_num_needed(root.size + DIRENT_SZ as u32);
        let free = fs.count_free_data();
        if needed as usize > free {
            return Err(FsError::StorageFull);
        }
        match self.create_file(fs, &mut root, name) {
            Ok(_) => Ok(()),
            Err(e) => Err(e),
        }
    }

    /// Creates an empty file named `name` in this directory, whose record
    /// is `root`: allocates the lowest free inode slot, stores the record
    /// of an empty file there, and appends the directory record.
    fn create_file<D: BlockDevice>(
        &self,
        fs: &mut EasyFileSystem<D>,
        root: &mut DiskInode,
        name: &[u8],
    ) -> (r: Result<(), FsError>)
        requires
            old(fs).inv(),
            self.valid(old(fs)),
            self.id() == 0,
            old(root).wf(),
            old(root)@ == node(old(fs).layout(), old(fs).disk(), 0),
            old(root)@.kind == DiskInodeType::Directory,
            valid_name(name@),
            find_name(old(fs).entries(), name@) == -1,
            has_room(old(root)@.size as int, old(fs).free_data_blocks()),
        ensures
            final(fs).inv(),
            final(fs).layout() == old(fs).layout(),
            final(fs).journaling() == old(fs).journaling(),
            self.valid(final(fs)),
            r is Ok <==> old(fs).free_inode_slots() != 0,
            r is Err ==> r == Err::<(), FsError>(FsError::StorageFull) && final(fs).disk() == old(fs).disk(),
            r is Ok ==> created(
                old(fs).layout(),
                old(fs).disk(),
                final(fs).disk(),
                crate::efs::lowest_free_inode(old(fs).layout(), old(fs).disk()),
                name@,
            ) && (final(fs).journaling() ==> final(fs).durable() == final(fs).disk() && final(fs).journal().committed() == record_blocks(old(fs).layout(), crate::efs::lowest_free_inode(old(fs).layout(), old(fs).disk()), 0)),
    {
        let ghost l = fs.layout();
        let ghost d0 = fs.disk();
        let ghost r0 = root@;
        proof {
            self.lemma_valid(fs);
            fs.lemma_geometry();
        }
        tx_begin(fs, self.block_id);
        match fs.alloc_inode() {
            None => {
                tx_end(fs, Ghost(2int));
                Err(FsError::StorageFull)
            },
            Some(new_inode_id) => {
                let ghost x = new_inode_id as int;
                let ghost da = fs.disk();
                let new_inode = DiskInode::initialize(DiskInodeType::File);
                proof {
                    crate::efs::lemma_inode_bit_step(l, d0, da, x, new_inode@);
                    crate::efs::lemma_lowest_free(l, d0, 0, x);
                    crate::bitmap::lemma_free_count_zero(
                        d0,
                        l.inode_bitmap_start(),
                        l.inode_count(),
                    );
                    assert(!crate::bitmap::bit_at(d0, l.inode_bitmap_start(), x));
                }
                let (new_block, _) = fs.get_disk_inode_pos(new_inode_id);
                tx_access(fs, new_block as usize, Ghost(1int));
                tx_store(fs, new_inode_id, &new_inode, Ghost(2int));
                let ghost db = fs.disk();
                proof {
                    crate::efs::lemma_store_step(l, da, db, x, new_inode@);
                    lemma_apart_from_others(l, d0, da, 0, x);
                    lemma_apart_from_others(l, da, db, 0, x);
                    lemma_apart_trans(l, d0, da, db, 0, x);
                    lemma_create_root(l, d0, da, db, x, r0);
                    crate::efs::lemma_other_blocks_same(l, d0, da, x, 0);
                    crate::efs::lemma_other_blocks_same(l, da, db, x, 0);
                    crate::efs::lemma_same_trans(l, d0, r0, da, r0, db, r0);
                }
                self.append_entry(fs, root, name, new_inode_id);
                let ghost dc = fs.disk();
                let ghost r1 = root@;
                tx_store(fs, self.inode_id, root, Ghost(2int));
                proof {
                    let dd = fs.disk();
                    crate::efs::lemma_store_step(l, dc, dd, 0, r1);
                    assert(step_ok(l, dc, dd, 0)) by {
                        reveal(step_ok);
                    }
                    lemma_step_trans(l, db, dc, dd, 0);
                    crate::efs::lemma_same_then_follow(l, d0, r0, db, r0, dc, r1);
                    crate::efs::lemma_follow_then_same(l, d0, r0, dc, r1, dd, r1);
                    lemma_created(l, d0, db, dd, x, name@);
                }
                tx_end(fs, Ghost(2int));
                Ok(())
            },
        }
    }
}

/// What creating a file named `name` in inode slot `x` does: the disk
/// holds a consistent filesystem again, in which the root directory has one
/// more entry, which binds the name to the new, empty file; one inode slot
/// and the blocks that the directory took are no longer free.
#[verifier::opaque]
pub open spec fn created(l: Layout, d0: Disk, d1: Disk, x: int, name: Seq<u8>) -> bool {
    let root = fs_view(l, d0)[0];
    &&& consistent(l, d1)
    &&& 1 <= x < l.inode_count()
    &&& !inode_used(l, d0, x)
    &&& fs_view(l, d1) == fs_view(l, d0).insert(
        0,
        NodeView { content: root.content + entry_bytes(name, x as u32), ..root },
    ).insert(
        x,
        NodeView { kind: DiskInodeType::File, link_count: 1, content: Seq::<u8>::empty() },
    )
    &&& root_entries(l, d1) == root_entries(l, d0).push(EntryView { name, inode: x as u32 })
    &&& free_data(l, d1) == free_data(l, d0) - blocks_needed(
        root.content.len() as int,
        root.content.len() + DIRENT_SZ,
    )
    &&& crate::efs::free_inodes(l, d1) == crate::efs::free_inodes(l, d0) - 1
    &&& file_blocks_follow(l, d0, d1, 0)
}

/// The state after the record of the new file was stored and the
/// directory record was appended and the root stored: a file was created.
proof fn lemma_created(l: Layout, d0: Disk, db: Disk, dd: Disk, x: int, name: Seq<u8>)
    requires
        consistent(l, d0),
        1 <= x < l.inode_count(),
        !inode_used(l, d0, x),
        inode_used(l, db, x),
        inode_used(l, db, 0),
        apart_same(l, d0, db, 0, x),
        step_ok(l, db, dd, 0),
        node(l, db, 0) == node(l, d0, 0),
        node(l, db, 0).content(db) == node(l, d0, 0).content(d0),
        node(l, db, x).kind == DiskInodeType::File,
        node(l, db, x).link_count == 1,
        node(l, db, x).size == 0,
        free_data(l, db) == free_data(l, d0),
        crate::efs::free_inodes(l, db) == crate::efs::free_inodes(l, d0) - 1,
        crate::layout::disk_wf(dd),
        dd.len() == l.total_blocks,
        crate::efs::superblock_ok(l, dd),
        chains_ok(l, dd, 0, node(l, dd, 0)),
        node(l, dd, 0).kind == DiskInodeType::Directory,
        node(l, dd, 0).link_count == node(l, d0, 0).link_count,
        node(l, dd, 0).size == node(l, d0, 0).size + DIRENT_SZ,
        node(l, dd, 0).content(dd) == node(l, d0, 0).content(d0) + entry_bytes(name, x as u32),
        free_data(l, dd) == free_data(l, db) - blocks_needed(
            node(l, d0, 0).size as int,
            node(l, d0, 0).size + DIRENT_SZ,
        ),
        valid_name(name),
        find_name(root_entries(l, d0), name) == -1,
        crate::efs::blocks_follow(l, d0, node(l, d0, 0), dd, node(l, dd, 0)),
    ensures
        created(l, d0, dd, x, name),
        consistent(l, dd),
        inode_used(l, dd, 0),
{
    reveal(created);
    assert(chains_kept(l, d0, dd, 0, 0)) by {
        lemma_apart_from_step(l, db, dd, 0, x);
        lemma_apart_trans(l, d0, db, dd, 0, x);
        lemma_chains_kept2(l, d0, dd, 0, x);
    }
    lemma_file_blocks_follow(l, d0, dd, 0);
    assert(inode_used(l, d0, 0) && node(l, d0, 0).kind == DiskInodeType::Directory) by {
        reveal(links_ok);
    }
    lemma_apart_from_step(l, db, dd, 0, x);
    lemma_apart_trans(l, d0, db, dd, 0, x);
    lemma_step_node(l, db, dd, 0, x);
    lemma_step_node(l, db, dd, 0, 0);
    lemma_links_push(l, d0, dd, x, name);
    lemma_view_update2(l, d0, dd, 0, x);
    assert(node(l, dd, x).content(dd) =~= Seq::<u8>::empty());
    let root = fs_view(l, d0)[0];
    assert(root == crate::efs::node_view(l, d0, 0));
    assert(crate::efs::node_view(l, dd, 0) == (NodeView {
        content: root.content + entry_bytes(name, x as u32),
        ..root
    }));
    assert(crate::efs::node_view(l, dd, x) == (NodeView {
        kind: DiskInodeType::File,
        link_count: 1,
        content: Seq::<u8>::empty(),
    }));
}

/// After a free inode slot `x` was allocated and given the record of an
/// empty file, the record `r0` of the root directory stands for the root
/// as before.
proof fn lemma_create_root(l: Layout, d0: Disk, da: Disk, db: Disk, x: int, r0: InodeRec)
    requires
        r0 == node(l, d0, 0),
        inode_used(l, d0, 0),
        x != 0,
        0 < l.inode_count(),
        crate::efs::others_same(l, d0, da, x),
        crate::efs::others_same(l, da, db, x),
        chains_ok(l, db, 0, node(l, db, 0)),
    ensures
        node(l, db, 0) == r0,
        r0.content(db) == r0.content(d0),
        chains_ok(l, db, 0, r0),
        inode_used(l, db, 0),
{
    assert(node(l, da, 0) == node(l, d0, 0));
    assert(node(l, db, 0) == node(l, da, 0));
    assert(inode_used(l, da, 0) == inode_used(l, d0, 0));
    assert(inode_used(l, db, 0) == inode_used(l, da, 0));
    assert(node(l, da, 0).content(da) == node(l, d0, 0).content(d0));
    assert(node(l, db, 0).content(db) == node(l, da, 0).content(da));
}

/// Whether `link` can bind `name` to the file that `target` is bound to,
/// in a node of type `kind` whose bytes are `content`, with `free_blocks`
/// free data blocks.
pub open spec fn link_possible(
    kind: DiskInodeType,
    content: Seq<u8>,
    free_blocks: int,
    name: Seq<u8>,
    target: Seq<u8>,
) -> bool {
    &&& kind == DiskInodeType::Directory
    &&& find_name(dir_entries(content), target) != -1
    &&& find_name(dir_entries(content), name) == -1
    &&& valid_name(name)
    &&& has_room(content.len() as int, free_blocks)
}

/// What linking `name` to the file `t` does: the disk holds a consistent
/// filesystem again, in which the root directory has one more entry, which
/// binds the name to the file, and the file has one more link; the blocks
/// that the directory took are no longer free.
#[verifier::opaque]
pub open spec fn linked(l: Layout, d0: Disk, d1: Disk, t: int, name: Seq<u8>) -> bool {
    let root = fs_view(l, d0)[0];
    let file = fs_view(l, d0)[t];
    &&& consistent(l, d1)
    &&& fs_view(l, d1) == fs_view(l, d0).insert(
        0,
        NodeView { content: root.content + entry_bytes(name, t as u32), ..root },
    ).insert(t, NodeView { link_count: file.link_count + 1, ..file })
    &&& root_entries(l, d1) == root_entries(l, d0).push(EntryView { name, inode: t as u32 })
    &&& free_data(l, d1) == free_data(l, d0) - blocks_needed(
        root.content.len() as int,
        root.content.len() + DIRENT_SZ,
    )
    &&& crate::efs::free_inodes(l, d1) == crate::efs::free_inodes(l, d0)
    &&& file_blocks_follow(l, d0, d1, 0)
}

/// A file has at most as many links as the root directory has entries.
pub proof fn lemma_link_count_bound(l: Layout, d: Disk, t: int)
    requires
        links_ok(l, d),
        1 <= t,
        inode_used(l, d, t),
    ensures
        node(l, d, t).link_count <= root_entries(l, d).len(),
        node(l, d, t).kind == DiskInodeType::File,
        node(l, d, 0).kind == DiskInodeType::Directory,
        inode_used(l, d, 0),
        forall|e: int|
            0 <= e < root_entries(l, d).len() ==> (#[trigger] root_entries(l, d)[e]).inode >= 1
                && inode_used(l, d, root_entries(l, d)[e].inode as int),
{
    reveal(links_ok);
    crate::dirent::lemma_count_refs_bounds(root_entries(l, d), t);
}

/// An entry of the root directory is bound to an allocated inode that is
/// not the root.
pub proof fn lemma_entry_target(l: Layout, d: Disk, at: int)
    requires
        links_ok(l, d),
        0 <= at < root_entries(l, d).len(),
    ensures
        root_entries(l, d)[at].inode >= 1,
        inode_used(l, d, root_entries(l, d)[at].inode as int),
{
    reveal(links_ok);
}

/// A file to which an entry is bound has at least one link.
pub proof fn lemma_link_count_positive(l: Layout, d: Disk, at: int)
    requires
        links_ok(l, d),
        0 <= at < root_entries(l, d).len(),
    ensures
        node(l, d, root_entries(l, d)[at].inode as int).link_count >= 1,
{
    reveal(links_ok);
    crate::dirent::lemma_count_refs_positive(root_entries(l, d), at);
}

/// After the record of a file other than the root was stored, the record
/// `r0` of the root directory stands for the root as before.
proof fn lemma_root_after(l: Layout, d0: Disk, da: Disk, t: int, r0: InodeRec)
    requires
        r0 == node(l, d0, 0),
        inode_used(l, d0, 0),
        t != 0,
        0 < l.inode_count(),
        crate::efs::others_same(l, d0, da, t),
        chains_ok(l, da, 0, node(l, da, 0)),
    ensures
        node(l, da, 0) == r0,
        r0.content(da) == r0.content(d0),
        chains_ok(l, da, 0, r0),
        inode_used(l, da, 0),
{
    assert(node(l, da, 0) == node(l, d0, 0));
    assert(inode_used(l, da, 0) == inode_used(l, d0, 0));
    assert(node(l, da, 0).content(da) == node(l, d0, 0).content(d0));
}

/// The state after the link count of the file was raised and stored, the
/// directory record appended and the root stored: the name was linked.
proof fn lemma_linked(l: Layout, d0: Disk, da: Disk, dc: Disk, t: int, name: Seq<u8>)
    requires
        consistent(l, d0),
        1 <= t < l.inode_count(),
        inode_used(l, d0, t),
        inode_used(l, da, t),
        inode_used(l, da, 0),
        apart_same(l, d0, da, 0, t),
        step_ok(l, da, dc, 0),
        node(l, da, 0) == node(l, d0, 0),
        node(l, da, 0).content(da) == node(l, d0, 0).content(d0),
        node(l, da, t).kind == node(l, d0, t).kind,
        node(l, da, t).link_count == node(l, d0, t).link_count + 1,
        node(l, da, t).content(da) == node(l, d0, t).content(d0),
        free_data(l, da) == free_data(l, d0),
        crate::efs::free_inodes(l, da) == crate::efs::free_inodes(l, d0),
        crate::layout::disk_wf(dc),
        dc.len() == l.total_blocks,
        crate::efs::superblock_ok(l, dc),
        chains_ok(l, dc, 0, node(l, dc, 0)),
        node(l, dc, 0).kind == DiskInodeType::Directory,
        node(l, dc, 0).link_count == node(l, d0, 0).link_count,
        node(l, dc, 0).size == node(l, d0, 0).size + DIRENT_SZ,
        node(l, dc, 0).content(dc) == node(l, d0, 0).content(d0) + entry_bytes(name, t as u32),
        free_data(l, dc) == free_data(l, da) - blocks_needed(
            node(l, d0, 0).size as int,
            node(l, d0, 0).size + DIRENT_SZ,
        ),
        valid_name(name),
        find_name(root_entries(l, d0), name) == -1,
        crate::efs::blocks_follow(l, d0, node(l, d0, 0), dc, node(l, dc, 0)),
        crate::efs::blocks_same(l, d0, node(l, d0, t), da, node(l, da, t)),
    ensures
        linked(l, d0, dc, t, name),
        consistent(l, dc),
        inode_used(l, dc, 0),
{
    reveal(linked);
    lemma_link_chains_kept(l, d0, da, dc, t);
    lemma_file_blocks_follow(l, d0, dc, 0);
    lemma_link_count_bound(l, d0, t);
    lemma_apart_from_step(l, da, dc, 0, t);
    lemma_apart_trans(l, d0, da, dc, 0, t);
    lemma_step_node(l, da, dc, 0, t);
    lemma_step_node(l, da, dc, 0, 0);
    lemma_links_push(l, d0, dc, t, name);
    lemma_view_update2(l, d0, dc, 0, t);
    let root = fs_view(l, d0)[0];
    let file = fs_view(l, d0)[t];
    assert(root == crate::efs::node_view(l, d0, 0));
    assert(file == crate::efs::node_view(l, d0, t));
    assert(crate::efs::node_view(l, dc, 0) == (NodeView {
        content: root.content + entry_bytes(name, t as u32),
        ..root
    }));
    assert(crate::efs::node_view(l, dc, t) == (NodeView {
        link_count: file.link_count + 1,
        ..file
    }));
}

/// Linking a name to the file `t` keeps the chain of every file.
proof fn lemma_link_chains_kept(l: Layout, d0: Disk, da: Disk, dc: Disk, t: int)
    requires
        t != 0,
        inode_used(l, d0, t),
        inode_used(l, da, t),
        0 <= t < l.inode_count(),
        apart_same(l, d0, da, 0, t),
        step_ok(l, da, dc, 0),
        crate::efs::blocks_same(l, d0, node(l, d0, t), da, node(l, da, t)),
    ensures
        chains_kept(l, d0, dc, 0, 0),
{
    reveal(crate::efs::blocks_same);
    lemma_apart_from_step(l, da, dc, 0, t);
    lemma_apart_trans(l, d0, da, dc, 0, t);
    lemma_chains_kept2(l, d0, dc, 0, t);
    lemma_chains_kept(l, da, dc, 0);
    assert forall|s: int|
        crate::disk_inode::valid_slot(
            crate::efs::nblocks(node(l, d0, t)),
            s,
        ) implies #[trigger] node(l, dc, t).slot(dc, s) == node(l, d0, t).slot(d0, s) by {
        assert(node(l, da, t).slot(da, s) == node(l, d0, t).slot(d0, s));
        assert(node(l, dc, t).slot(dc, s) == node(l, da, t).slot(da, s));
    }
}

impl Inode {
    /// Binds `name`, in this directory, to the file that `target` is bound
    /// to, and raises the link count of the file. Returns `None`, having
    /// changed nothing, where this node is a file, no entry is named
    /// `target`, an entry is named `name` already, the name cannot be
    /// stored, or no room is left.
    pub fn link<D: BlockDevice>(&self, fs: &mut EasyFileSystem<D>, name: &str, target: &str) -> (r:
        Option<()>)
        requires
            old(fs).inv(),
            self.valid(old(fs)),
        ensures
            final(fs).inv(),
            final(fs).layout() == old(fs).layout(),
            final(fs).journaling() == old(fs).journaling(),
            self.valid(final(fs)),
            r is Some <==> link_possible(
                old(fs)@[self.id()].kind,
                old(fs)@[self.id()].content,
                old(fs).free_data_blocks(),
                name_bytes(name@),
                name_bytes(target@),
            ),
            r is None ==> final(fs).disk() == old(fs).disk(),
            r is Some ==> self.id() == 0 && linked(
                old(fs).layout(),
                old(fs).disk(),
                final(fs).disk(),
                old(fs).entries()[find_name(old(fs).entries(), name_bytes(target@))].inode as int,
                name_bytes(name@),
            ) && (final(fs).journaling() ==> final(fs).durable() == final(fs).disk() && final(fs).journal().committed() == record_blocks(old(fs).layout(), old(fs).entries()[find_name(old(fs).entries(), name_bytes(target@))].inode as int, 0)),
    {
        self.link_named(fs, name.as_bytes(), target.as_bytes())
    }

    /// Binds `name` to the file that `target` is bound to; the names are
    /// given as bytes.
    pub fn link_named<D: BlockDevice>(
        &self,
        fs: &mut EasyFileSystem<D>,
        name: &[u8],
        target: &[u8],
    ) -> (r: Option<()>)
        requires
            old(fs).inv(),
            self.valid(old(fs)),
        ensures
            final(fs).inv(),
            final(fs).layout() == old(fs).layout(),
            final(fs).journaling() == old(fs).journaling(),
            self.valid(final(fs)),
            r is Some <==> link_possible(
                old(fs)@[self.id()].kind,
                old(fs)@[self.id()].content,
                old(fs).free_data_blocks(),
                name@,
                target@,
            ),
            r is None ==> final(fs).disk() == old(fs).disk(),
            r is Some ==> self.id() == 0 && linked(
                old(fs).layout(),
                old(fs).disk(),
                final(fs).disk(),
                old(fs).entries()[find_name(old(fs).entries(), target@)].inode as int,
                name@,
            ) && (final(fs).journaling() ==> final(fs).durable() == final(fs).disk() && final(fs).journal().committed() == record_blocks(old(fs).layout(), old(fs).entries()[find_name(old(fs).entries(), target@)].inode as int, 0)),
    {
        let ghost l = fs.layout();
        let ghost d0 = fs.disk();
        proof {
            self.lemma_valid(fs);
            fs.lemma_geometry();
        }
        let mut root = fs.load_inode(self.inode_id);
        let ghost r0 = root@;
        assert(fs@[self.id()].kind == r0.kind);
        assert(fs@[self.id()].content == r0.content(d0));
        assert(r0.content(d0).len() == r0.size);
        if !root.is_dir() {
            return None;
        }
        assert(fs.entries() == dir_entries(r0.content(d0)));
        let inode_id = self.find_inode_id(fs, name, &root);
        let target_inode_id = self.find_inode_id(fs, target, &root);
        if target_inode_id.is_none() || inode_id.is_some() {
            return None;
        }
        if !is_valid_name(name) {
            return None;
        }
        if root.size > MAX_FILE_SIZE - DIRENT_SZ as u32 {
            return None;
        }
        let needed = root.blocks_num_needed(root.size + DIRENT_SZ as u32);
        let free = fs.count_free_data();
        if needed as usize > free {
            return None;
        }
        let target_inode_id = target_inode_id.unwrap();
        proof {
            lemma_entry_target(l, d0, find_name(fs.entries(), target@));
        }
        self.add_link(fs, &mut root, name, target_inode_id);
        Some(())
    }

    /// Raises the link count of file `target_inode_id` and appends to this
    /// directory, whose record is `root`, a record that binds `name` to it.
    fn add_link<D: BlockDevice>(
        &self,
        fs: &mut EasyFileSystem<D>,
        root: &mut DiskInode,
        name: &[u8],
        target_inode_id: u32,
    )
        requires
            old(fs).inv(),
            self.valid(old(fs)),
            self.id() == 0,
            old(root).wf(),
            old(root)@ == node(old(fs).layout(), old(fs).disk(), 0),
            old(root)@.kind == DiskInodeType::Directory,
            valid_name(name@),
            find_name(old(fs).entries(), name@) == -1,
            has_room(old(root)@.size as int, old(fs).free_data_blocks()),
            target_inode_id >= 1,
            inode_used(old(fs).layout(), old(fs).disk(), target_inode_id as int),
        ensures
            final(fs).inv(),
            final(fs).layout() == old(fs).layout(),
            final(fs).journaling() == old(fs).journaling(),
            self.valid(final(fs)),
            linked(
                old(fs).layout(),
                old(fs).disk(),
                final(fs).disk(),
                target_inode_id as int,
                name@,
            ),
            final(fs).journaling() ==> final(fs).durable() == final(fs).disk() && final(fs).journal().committed() == record_blocks(old(fs).layout(), target_inode_id as int, 0),
    {
        let ghost l = fs.layout();
        let ghost d0 = fs.disk();
        let ghost r0 = root@;
        let ghost t = target_inode_id as int;
        proof {
            self.lemma_valid(fs);
            fs.lemma_geometry();
            crate::dirent::lemma_valid_name_len(name@);
            lemma_link_count_bound(l, d0, t);
            crate::efs::lemma_node_ok(l, d0, 0, node(l, d0, 0), t);
            crate::efs::lemma_override(l, d0, 0, node(l, d0, 0), t, node(l, d0, t));
        }
        tx_begin(fs, self.block_id);
        let mut target_inode = fs.load_inode(target_inode_id);
        let ghost rt = target_inode@;
        target_inode.link_count = target_inode.link_count + 1;
        proof {
            crate::efs::lemma_same_chain(l, d0, t, rt, target_inode@);
        }
        let ghost rt1 = target_inode@;
        let (target_block, _) = fs.get_disk_inode_pos(target_inode_id);
        tx_access(fs, target_block as usize, Ghost(1int));
        tx_store(fs, target_inode_id, &target_inode, Ghost(2int));
        let ghost da = fs.disk();
        proof {
            crate::efs::lemma_store_step(l, d0, da, t, target_inode@);
            lemma_apart_from_others(l, d0, da, 0, t);
            lemma_root_after(l, d0, da, t, r0);
            crate::efs::lemma_same_trans(l, d0, rt, d0, rt1, da, rt1);
            crate::efs::lemma_other_blocks_same(l, d0, da, t, 0);
        }
        self.append_entry(fs, root, name, target_inode_id);
        let ghost db = fs.disk();
        let ghost r1 = root@;
        tx_store(fs, self.inode_id, root, Ghost(2int));
        proof {
            let dc = fs.disk();
            crate::efs::lemma_store_step(l, db, dc, 0, r1);
            assert(step_ok(l, db, dc, 0)) by {
                reveal(step_ok);
            }
            lemma_step_trans(l, da, db, dc, 0);
            crate::efs::lemma_same_then_follow(l, d0, r0, da, r0, db, r1);
            crate::efs::lemma_follow_then_same(l, d0, r0, db, r1, dc, r1);
            lemma_linked(l, d0, da, dc, t, name@);
        }
        tx_end(fs, Ghost(2int));
    }
}

/// The bytes that the records `recs` make up, one after the other.
pub open spec fn join(recs: Seq<Seq<u8>>) -> Seq<u8> {
    Seq::new(
        (recs.len() * DIRENT_SZ) as nat,
        |p: int| recs[p / (DIRENT_SZ as int)][p % (DIRENT_SZ as int)],
    )
}

/// The bytes of a directory are its records one after the other.
pub proof fn lemma_join_records(content: Seq<u8>)
    requires
        content.len() % DIRENT_SZ as nat == 0,
    ensures
        join(records(content)) == content,
{
    assert(join(records(content)) =~= content);
}

/// What clearing the file `id` does: the disk holds a consistent
/// filesystem again, in which the file is empty and everything else is as
/// it was; the blocks of the file are free.
#[verifier::opaque]
pub open spec fn cleared(l: Layout, d0: Disk, d1: Disk, id: int) -> bool {
    let file = fs_view(l, d0)[id];
    &&& consistent(l, d1)
    &&& fs_view(l, d1) == fs_view(l, d0).insert(
        id,
        NodeView { content: Seq::<u8>::empty(), ..file },
    )
    &&& root_entries(l, d1) == root_entries(l, d0)
    &&& free_data(l, d1) == free_data(l, d0) + spec_total_blocks(file.content.len() as int)
    &&& crate::efs::free_inodes(l, d1) == crate::efs::free_inodes(l, d0)
}

/// Between `d0` and `d1` the inodes `a` and `b` lost blocks and gained
/// none: the slots that their chains have afterwards hold the blocks which
/// they held, the blocks in the slots that the chains lost were released,
/// and no other block was allocated or released.
pub open spec fn blocks_given_up(l: Layout, d0: Disk, d1: Disk, a: int, b: int) -> bool {
    &&& forall|s: int|
        crate::disk_inode::valid_slot(crate::efs::nblocks(node(l, d1, a)), s) ==> #[trigger] node(
            l,
            d1,
            a,
        ).slot(d1, s) == node(l, d0, a).slot(d0, s)
    &&& forall|s: int|
        crate::disk_inode::valid_slot(crate::efs::nblocks(node(l, d1, b)), s) ==> #[trigger] node(
            l,
            d1,
            b,
        ).slot(d1, s) == node(l, d0, b).slot(d0, s)
    &&& forall|blk: int|
        l.in_data_area(blk) ==> (#[trigger] crate::efs::data_used(l, d1, blk) <==> crate::efs::data_used(
            l,
            d0,
            blk,
        ) && !crate::disk_inode::dropped(
            node(l, d0, a),
            d0,
            crate::efs::nblocks(node(l, d0, a)),
            crate::efs::nblocks(node(l, d1, a)),
            blk,
        ) && !crate::disk_inode::dropped(
            node(l, d0, b),
            d0,
            crate::efs::nblocks(node(l, d0, b)),
            crate::efs::nblocks(node(l, d1, b)),
            blk,
        ))
}

/// Two steps one after the other, the first on the root directory and the
/// second on the file `t`, in each of which the data bitmap followed a chain
/// that did not grow, are a step in which the two gave up blocks.
proof fn lemma_given_up(l: Layout, d0: Disk, db: Disk, dd: Disk, t: int)
    requires
        t != 0,
        inode_used(l, d0, 0),
        inode_used(l, d0, t),
        0 <= t < l.inode_count(),
        0 < l.inode_count(),
        step_ok(l, d0, db, 0),
        step_ok(l, db, dd, t),
        node(l, db, 0).size <= node(l, d0, 0).size,
        node(l, dd, t).size <= node(l, d0, t).size,
        crate::efs::blocks_follow(l, d0, node(l, d0, 0), db, node(l, db, 0)),
        crate::efs::blocks_follow(l, db, node(l, db, t), dd, node(l, dd, t)),
    ensures
        blocks_given_up(l, d0, dd, 0, t),
{
    reveal(step_ok);
    reveal(crate::efs::blocks_follow);
    let root0 = node(l, d0, 0);
    let rootb = node(l, db, 0);
    let file0 = node(l, d0, t);
    let filed = node(l, dd, t);
    let nr0 = crate::efs::nblocks(root0);
    let nr1 = crate::efs::nblocks(rootb);
    let nf0 = crate::efs::nblocks(file0);
    let nf1 = crate::efs::nblocks(filed);
    crate::disk_inode::lemma_index_count_mono(nr1, nr0);
    crate::disk_inode::lemma_index_count_mono(nf1, nf0);
    assert(inode_used(l, db, 0) && inode_used(l, db, t));
    assert(node(l, db, t) == file0);
    assert(node(l, dd, 0) == rootb);
    assert forall|s: int| crate::disk_inode::valid_slot(nr1, s) implies #[trigger] node(
        l,
        dd,
        0,
    ).slot(dd, s) == root0.slot(d0, s) by {
        assert(node(l, dd, 0).slot(dd, s) == node(l, db, 0).slot(db, s));
        assert(rootb.slot(db, s) == root0.slot(d0, s));
    }
    assert forall|s: int| crate::disk_inode::valid_slot(nf0, s) implies file0.slot(db, s)
        == #[trigger] file0.slot(d0, s) by {
        assert(node(l, db, t).slot(db, s) == node(l, d0, t).slot(d0, s));
    }
    assert forall|s: int| crate::disk_inode::valid_slot(nf1, s) implies #[trigger] node(
        l,
        dd,
        t,
    ).slot(dd, s) == file0.slot(d0, s) by {
        assert(filed.slot(dd, s) == file0.slot(db, s));
        assert(file0.slot(db, s) == file0.slot(d0, s));
    }
    assert forall|blk: int|
        crate::disk_inode::dropped(file0, db, nf0, nf1, blk) <==> crate::disk_inode::dropped(
            file0,
            d0,
            nf0,
            nf1,
            blk,
        ) by {
        if crate::disk_inode::dropped(file0, db, nf0, nf1, blk) {
            let s = choose|s: int|
                crate::disk_inode::valid_slot(nf0, s) && !crate::disk_inode::valid_slot(nf1, s)
                    && #[trigger] file0.slot(db, s) == blk;
            assert(file0.slot(d0, s) == blk);
        }
        if crate::disk_inode::dropped(file0, d0, nf0, nf1, blk) {
            let s = choose|s: int|
                crate::disk_inode::valid_slot(nf0, s) && !crate::disk_inode::valid_slot(nf1, s)
                    && #[trigger] file0.slot(d0, s) == blk;
            assert(file0.slot(db, s) == blk);
        }
    }
    assert forall|blk: int| !crate::disk_inode::added(rootb, db, nr0, nr1, blk) by {}
    assert forall|blk: int| !crate::disk_inode::added(filed, dd, nf0, nf1, blk) by {}
    assert forall|blk: int| l.in_data_area(blk) implies (#[trigger] crate::efs::data_used(
        l,
        dd,
        blk,
    ) <==> crate::efs::data_used(l, d0, blk) && !crate::disk_inode::dropped(
        root0,
        d0,
        nr0,
        nr1,
        blk,
    ) && !crate::disk_inode::dropped(file0, d0, nf0, nf1, blk)) by {
        assert(crate::efs::data_used(l, db, blk) <==> (crate::efs::data_used(l, d0, blk)
            && !crate::disk_inode::dropped(root0, d0, nr0, nr1, blk)) || crate::disk_inode::added(
            rootb,
            db,
            nr0,
            nr1,
            blk,
        ));
        assert(crate::efs::data_used(l, dd, blk) <==> (crate::efs::data_used(l, db, blk)
            && !crate::disk_inode::dropped(file0, db, nf0, nf1, blk)) || crate::disk_inode::added(
            filed,
            dd,
            nf0,
            nf1,
            blk,
        ));
        assert(crate::disk_inode::dropped(file0, db, nf0, nf1, blk) <==> crate::disk_inode::dropped(
            file0,
            d0,
            nf0,
            nf1,
            blk,
        ));
    }
}

/// What unlinking the entry at position `at` of the root directory does:
/// the disk holds a consistent filesystem again, in which the root
/// directory has lost that entry and the later entries have moved up in
/// their order, and the file that the entry was bound to has one link
/// less, and is empty where that was its last link; the blocks that the
/// directory and the file gave up are free.
#[verifier::opaque]
pub open spec fn unlinked(l: Layout, d0: Disk, d1: Disk, at: int) -> bool {
    let t = root_entries(l, d0)[at].inode as int;
    let root = fs_view(l, d0)[0];
    let file = fs_view(l, d0)[t];
    &&& consistent(l, d1)
    &&& fs_view(l, d1) == fs_view(l, d0).insert(
        0,
        NodeView { content: join(records(root.content).remove(at)), ..root },
    ).insert(
        t,
        NodeView {
            link_count: (file.link_count - 1) as nat,
            content: if file.link_count == 1 {
                Seq::<u8>::empty()
            } else {
                file.content
            },
            ..file
        },
    )
    &&& root_entries(l, d1) == root_entries(l, d0).remove(at)
    &&& free_data(l, d1) == free_data(l, d0) + blocks_needed(
        root.content.len() - DIRENT_SZ,
        root.content.len() as int,
    ) + (if file.link_count == 1 {
        spec_total_blocks(file.content.len() as int)
    } else {
        0
    })
    &&& crate::efs::free_inodes(l, d1) == crate::efs::free_inodes(l, d0)
    &&& blocks_given_up(l, d0, d1, 0, t)
    &&& chains_kept(l, d0, d1, 0, t)
}

/// The state between the two transactions of an unlink: the record at
/// position `at` has left the root directory, and nothing else happened.
#[verifier::opaque]
pub open spec fn record_removed(l: Layout, d0: Disk, db: Disk, at: int) -> bool {
    &&& crate::layout::disk_wf(db)
    &&& db.len() == l.total_blocks
    &&& crate::efs::superblock_ok(l, db)
    &&& chains_ok(l, db, 0, node(l, db, 0))
    &&& step_ok(l, d0, db, 0)
    &&& inode_used(l, db, 0)
    &&& node(l, db, 0).kind == node(l, d0, 0).kind
    &&& node(l, db, 0).link_count == node(l, d0, 0).link_count
    &&& node(l, db, 0).size == node(l, d0, 0).size - DIRENT_SZ
    &&& records(node(l, db, 0).content(db)) == records(node(l, d0, 0).content(d0)).remove(at)
    &&& free_data(l, db) == free_data(l, d0) + blocks_needed(
        node(l, d0, 0).size - DIRENT_SZ,
        node(l, d0, 0).size as int,
    )
    &&& crate::efs::blocks_follow(l, d0, node(l, d0, 0), db, node(l, db, 0))
}

/// The state after the second transaction of an unlink: the entry was
/// unlinked.
proof fn lemma_unlinked(l: Layout, d0: Disk, db: Disk, dd: Disk, at: int, last: bool)
    requires
        consistent(l, d0),
        0 <= at < root_entries(l, d0).len(),
        record_removed(l, d0, db, at),
        crate::layout::disk_wf(dd),
        dd.len() == l.total_blocks,
        crate::efs::superblock_ok(l, dd),
        chains_ok(l, dd, 0, node(l, dd, 0)),
        step_ok(l, db, dd, root_entries(l, d0)[at].inode as int),
        last == (node(l, d0, root_entries(l, d0)[at].inode as int).link_count == 1),
        ({
            let t = root_entries(l, d0)[at].inode as int;
            &&& node(l, dd, t).kind == node(l, d0, t).kind
            &&& node(l, dd, t).link_count == node(l, d0, t).link_count - 1
            &&& node(l, dd, t).content(dd) == (if last {
                Seq::<u8>::empty()
            } else {
                node(l, d0, t).content(d0)
            })
            &&& free_data(l, dd) == free_data(l, db) + (if last {
                spec_total_blocks(node(l, d0, t).size as int)
            } else {
                0
            })
            &&& crate::efs::blocks_follow(l, db, node(l, db, t), dd, node(l, dd, t))
        }),
    ensures
        unlinked(l, d0, dd, at),
        consistent(l, dd),
        inode_used(l, dd, 0),
{
    reveal(unlinked);
    reveal(record_removed);
    let t = root_entries(l, d0)[at].inode as int;
    lemma_entry_target(l, d0, at);
    lemma_root_is_directory(l, d0);
    assert(node(l, dd, t).content(dd).len() == node(l, dd, t).size);
    assert(node(l, d0, t).content(d0).len() == node(l, d0, t).size);
    lemma_given_up(l, d0, db, dd, t);
    lemma_link_count_bound(l, d0, t);
    lemma_step_node(l, d0, db, 0, t);
    lemma_step_node(l, d0, db, 0, 0);
    lemma_step_node(l, db, dd, t, 0);
    lemma_step_node(l, db, dd, t, t);
    lemma_apart_from_step(l, d0, db, 0, t);
    lemma_apart_from_step(l, db, dd, 0, t);
    lemma_apart_trans(l, d0, db, dd, 0, t);
    lemma_chains_kept2(l, d0, dd, 0, t);
    lemma_links_remove(l, d0, dd, at);
    lemma_view_update2(l, d0, dd, 0, t);
    let root = fs_view(l, d0)[0];
    let file = fs_view(l, d0)[t];
    assert(root == crate::efs::node_view(l, d0, 0));
    assert(file == crate::efs::node_view(l, d0, t));
    let c1 = node(l, dd, 0).content(dd);
    assert(c1.len() == node(l, dd, 0).size);
    assert(node(l, d0, 0).size as int % (DIRENT_SZ as int) == 0) by {
        reveal(links_ok);
    }
    lemma_join_records(c1);
    assert(crate::efs::node_view(l, dd, 0) == (NodeView {
        content: join(records(root.content).remove(at)),
        ..root
    }));
    assert(node(l, d0, t).content(d0).len() == node(l, d0, t).size);
    assert(crate::efs::node_view(l, dd, t) == (NodeView {
        link_count: (file.link_count - 1) as nat,
        content: if file.link_count == 1 {
            Seq::<u8>::empty()
        } else {
            file.content
        },
        ..file
    }));
}

/// The state after the blocks of the file `id` were released and its
/// record stored: the file was cleared.
proof fn lemma_cleared(l: Layout, d0: Disk, d1: Disk, id: int)
    requires
        consistent(l, d0),
        1 <= id,
        inode_used(l, d0, id),
        crate::layout::disk_wf(d1),
        d1.len() == l.total_blocks,
        crate::efs::superblock_ok(l, d1),
        chains_ok(l, d1, 0, node(l, d1, 0)),
        step_ok(l, d0, d1, id),
        node(l, d1, id).kind == node(l, d0, id).kind,
        node(l, d1, id).link_count == node(l, d0, id).link_count,
        node(l, d1, id).content(d1) == Seq::<u8>::empty(),
        free_data(l, d1) == free_data(l, d0) + spec_total_blocks(node(l, d0, id).size as int),
    ensures
        cleared(l, d0, d1, id),
        consistent(l, d1),
        inode_used(l, d1, id),
{
    reveal(cleared);
    lemma_links_file_update(l, d0, d1, id);
    lemma_view_update(l, d0, d1, id);
    let file = fs_view(l, d0)[id];
    assert(file == crate::efs::node_view(l, d0, id));
    assert(node(l, d0, id).content(d0).len() == node(l, d0, id).size);
    assert(crate::efs::node_view(l, d1, id) == (NodeView { content: Seq::<u8>::empty(), ..file }));
}

impl Inode {
    /// Releases all the blocks of the file, whose record is `disk_inode`,
    /// and sets its size to zero.
    fn release_blocks<D: BlockDevice>(&self, fs: &mut EasyFileSystem<D>, disk_inode: &mut DiskInode)
        requires
            old(fs).geometry_ok(),
            mid_ok(old(fs).layout(), old(fs).disk(), self.id(), old(disk_inode)@),
        ensures
            final(fs).geometry_ok(),
            final(fs).layout() == old(fs).layout(),
            final(fs).journal() == old(fs).journal(),
            final(disk_inode).wf(),
            mid_ok(final(fs).layout(), final(fs).disk(), self.id(), final(disk_inode)@),
            step_ok(old(fs).layout(), old(fs).disk(), final(fs).disk(), self.id()),
            free_data(final(fs).layout(), final(fs).disk()) == free_data(
                old(fs).layout(),
                old(fs).disk(),
            ) + spec_total_blocks(old(disk_inode)@.size as int),
            final(disk_inode)@.kind == old(disk_inode)@.kind,
            final(disk_inode)@.link_count == old(disk_inode)@.link_count,
            final(disk_inode)@.size == 0,
            final(disk_inode)@.content(final(fs).disk()) == Seq::<u8>::empty(),
            crate::efs::blocks_follow(
                old(fs).layout(),
                old(fs).disk(),
                old(disk_inode)@,
                final(fs).disk(),
                final(disk_inode)@,
            ),
    {
        let ghost l = fs.layout();
        let ghost d0 = fs.disk();
        let ghost r0 = disk_inode@;
        let ghost id = self.id();
        proof {
            crate::efs::lemma_node_ok(l, d0, id, r0, id);
        }
        let data_blocks_dealloc = disk_inode.clear_size(&mut fs.cache);
        proof {
            crate::efs::lemma_freed_used(l, d0, id, r0, disk_inode@, 0, data_blocks_dealloc@);
        }
        fs.dealloc_blocks(&data_blocks_dealloc);
        proof {
            let d1 = fs.disk();
            crate::efs::lemma_shrink_step(l, d0, d1, id, r0, disk_inode@, 0, data_blocks_dealloc@);
            assert(step_ok(l, d0, d1, id)) by {
                reveal(step_ok);
            }
            assert(disk_inode@.content(d1) =~= Seq::<u8>::empty());
        }
    }

    /// Clears the data of the file: releases its blocks and sets its size to
    /// zero. Does nothing on a directory.
    pub fn clear<D: BlockDevice>(&self, fs: &mut EasyFileSystem<D>)
        requires
            old(fs).inv(),
            self.valid(old(fs)),
        ensures
            final(fs).inv(),
            final(fs).layout() == old(fs).layout(),
            final(fs).journaling() == old(fs).journaling(),
            self.valid(final(fs)),
            old(fs)@[self.id()].kind != DiskInodeType::File ==> final(fs).disk() == old(fs).disk(),
            old(fs)@[self.id()].kind == DiskInodeType::File ==> cleared(
                old(fs).layout(),
                old(fs).disk(),
                final(fs).disk(),
                self.id(),
            ) && file_blocks_follow(old(fs).layout(), old(fs).disk(), final(fs).disk(), self.id())
                && (final(fs).journaling() ==> final(fs).durable() == final(fs).disk() && final(fs).journal().committed() == record_blocks(old(fs).layout(), self.id(), self.id())),
    {
        let ghost l = fs.layout();
        let ghost d0 = fs.disk();
        let ghost id = self.id();
        proof {
            self.lemma_valid(fs);
            fs.lemma_geometry();
        }
        let mut disk_inode = fs.load_inode(self.inode_id);
        let ghost r0 = disk_inode@;
        if !disk_inode.is_file() {
            return ;
        }
        tx_begin(fs, self.block_id);
        self.release_blocks(fs, &mut disk_inode);
        let ghost d1 = fs.disk();
        let ghost r1 = disk_inode@;
        tx_store(fs, self.inode_id, &disk_inode, Ghost(2int));
        proof {
            let d2 = fs.disk();
            crate::efs::lemma_store_step(l, d1, d2, id, r1);
            assert(step_ok(l, d1, d2, id)) by {
                reveal(step_ok);
            }
            lemma_step_trans(l, d0, d1, d2, id);
            lemma_cleared(l, d0, d2, id);
            crate::efs::lemma_follow_then_same(l, d0, r0, d1, r1, d2, r1);
            lemma_chains_kept(l, d0, d2, id);
            lemma_file_blocks_follow(l, d0, d2, id);
        }
        tx_end(fs, Ghost(2int));
    }

    /// Removes the entry named `name` from this directory and lowers the
    /// link count of the file that it was bound to; where that was the
    /// last link, releases the blocks of the file. Returns `None`, having
    /// changed nothing, where this node is a file or no entry has the name.
    ///
    /// The directory record and the link count are changed in two
    /// transactions, one after the other: between them the file has a link
    /// that no entry accounts for.
    pub fn unlink<D: BlockDevice>(&self, fs: &mut EasyFileSystem<D>, name: &str) -> (r: Option<()>)
        requires
            old(fs).inv(),
            self.valid(old(fs)),
        ensures
            final(fs).inv(),
            final(fs).layout() == old(fs).layout(),
            final(fs).journaling() == old(fs).journaling(),
            self.valid(final(fs)),
            r is Some <==> old(fs)@[self.id()].kind == DiskInodeType::Directory && find_name(
                dir_entries(old(fs)@[self.id()].content),
                name_bytes(name@),
            ) != -1,
            r is None ==> final(fs).disk() == old(fs).disk(),
            r is Some ==> self.id() == 0 && unlinked(
                old(fs).layout(),
                old(fs).disk(),
                final(fs).disk(),
                find_name(old(fs).entries(), name_bytes(name@)),
            ) && (final(fs).journaling() ==> final(fs).durable() == final(fs).disk() && final(fs).journal().committed() == record_blocks(old(fs).layout(), old(fs).entries()[find_name(old(fs).entries(), name_bytes(name@))].inode as int, old(fs).entries()[find_name(old(fs).entries(), name_bytes(name@))].inode as int)),
    {
        self.unlink_named(fs, name.as_bytes())
    }

    /// Removes the entry named `name`; the name is given as bytes.
    pub fn unlink_named<D: BlockDevice>(
        &self,
        fs: &mut EasyFileSystem<D>,
        name: &[u8],
    ) -> (r: Option<()>)
        requires
            old(fs).inv(),
            self.valid(old(fs)),
        ensures
            final(fs).inv(),
            final(fs).layout() == old(fs).layout(),
            final(fs).journaling() == old(fs).journaling(),
            self.valid(final(fs)),
            r is Some <==> old(fs)@[self.id()].kind == DiskInodeType::Directory && find_name(
                dir_entries(old(fs)@[self.id()].content),
                name@,
            ) != -1,
            r is None ==> final(fs).disk() == old(fs).disk(),
            r is Some ==> self.id() == 0 && unlinked(
                old(fs).layout(),
                old(fs).disk(),
                final(fs).disk(),
                find_name(old(fs).entries(), name@),
            ) && (final(fs).journaling() ==> final(fs).durable() == final(fs).disk() && final(fs).journal().committed() == record_blocks(old(fs).layout(), old(fs).entries()[find_name(old(fs).entries(), name@)].inode as int, old(fs).entries()[find_name(old(fs).entries(), name@)].inode as int)),
    {
        let ghost l = fs.layout();
        let ghost d0 = fs.disk();
        proof {
            self.lemma_valid(fs);
            fs.lemma_geometry();
        }
        let mut root = fs.load_inode(self.inode_id);
        let ghost r0 = root@;
        assert(fs@[self.id()].kind == r0.kind);
        assert(fs@[self.id()].content == r0.content(d0));
        if !root.is_dir() {
            return None;
        }
        assert(fs.entries() == dir_entries(r0.content(d0)));
        match self.find_entry(fs, name, &root) {
            None => None,
            Some((at, file_disk_inode_id)) => {
                proof {
                    lemma_entry_target(l, d0, at as int);
                }
                self.remove_record(fs, &mut root, at);
                let ghost db = fs.disk();
                Self::drop_link(fs, file_disk_inode_id, Ghost(d0), Ghost(at as int));
                Some(())
            },
        }
    }

    /// The first transaction of an unlink: removes record `at` from this
    /// directory, whose record is `root`.
    fn remove_record<D: BlockDevice>(
        &self,
        fs: &mut EasyFileSystem<D>,
        root: &mut DiskInode,
        at: usize,
    )
        requires
            old(fs).inv(),
            self.valid(old(fs)),
            self.id() == 0,
            old(root).wf(),
            old(root)@ == node(old(fs).layout(), old(fs).disk(), 0),
            at < old(fs).entries().len(),
        ensures
            final(fs).wf(),
            final(fs).layout() == old(fs).layout(),
            final(fs).journaling() == old(fs).journaling(),
            record_removed(old(fs).layout(), old(fs).disk(), final(fs).disk(), at as int),
            final(fs).journaling() ==> final(fs).durable() == final(fs).disk(),
    {
        let ghost l = fs.layout();
        let ghost d0 = fs.disk();
        let ghost r0 = root@;
        proof {
            self.lemma_valid(fs);
            fs.lemma_geometry();
            lemma_root_is_directory(l, d0);
            assert(r0.content(d0).len() == r0.size);
        }
        tx_begin(fs, self.block_id);
        self.remove_entry(fs, root, at);
        let ghost da = fs.disk();
        let ghost r1 = root@;
        tx_store(fs, self.inode_id, root, Ghost(2int));
        proof {
            let db = fs.disk();
            crate::efs::lemma_store_step(l, da, db, 0, r1);
            assert(step_ok(l, da, db, 0)) by {
                reveal(step_ok);
            }
            lemma_step_trans(l, d0, da, db, 0);
            crate::efs::lemma_follow_then_same(l, d0, r0, da, r1, db, r1);
            reveal(record_removed);
        }
        tx_end(fs, Ghost(2int));
    }

    /// The second transaction of an unlink: lowers the link count of file
    /// `file_id`, and releases its blocks where no link is left.
    fn drop_link<D: BlockDevice>(
        fs: &mut EasyFileSystem<D>,
        file_id: u32,
        Ghost(d0): Ghost<Disk>,
        Ghost(at): Ghost<int>,
    )
        requires
            old(fs).wf(),
            consistent(old(fs).layout(), d0),
            0 <= at < root_entries(old(fs).layout(), d0).len(),
            root_entries(old(fs).layout(), d0)[at].inode == file_id,
            record_removed(old(fs).layout(), d0, old(fs).disk(), at),
        ensures
            final(fs).inv(),
            final(fs).layout() == old(fs).layout(),
            final(fs).journaling() == old(fs).journaling(),
            inode_used(final(fs).layout(), final(fs).disk(), 0),
            unlinked(old(fs).layout(), d0, final(fs).disk(), at),
            final(fs).journaling() ==> final(fs).durable() == final(fs).disk() && final(fs).journal().committed() == record_blocks(old(fs).layout(), file_id as int, file_id as int),
    {
        let ghost l = fs.layout();
        let ghost db = fs.disk();
        let ghost t = file_id as int;
        proof {
            reveal(record_removed);
            lemma_entry_target(l, d0, at);
            lemma_link_count_positive(l, d0, at);
            lemma_link_count_bound(l, d0, t);
            lemma_step_node(l, d0, db, 0, t);
            crate::efs::lemma_override(l, db, 0, node(l, db, 0), t, node(l, db, t));
        }
        let (block_id, block_offset) = fs.get_disk_inode_pos(file_id);
        let file_inode = Inode::new(file_id, block_id, block_offset);
        tx_begin(fs, file_inode.block_id);
        let mut disk_inode = fs.load_inode(file_id);
        let ghost rt = disk_inode@;
        disk_inode.link_count = disk_inode.link_count - 1;
        let new_link_count = disk_inode.link_count;
        let ghost rt1 = disk_inode@;
        proof {
            crate::efs::lemma_same_chain(l, db, t, rt, rt1);
            crate::efs::lemma_same_follows(l, db, rt, db, rt1);
            assert(step_ok(l, db, db, t)) by {
                reveal(step_ok);
            }
        }
        if new_link_count == 0 {
            file_inode.release_blocks(fs, &mut disk_inode);
            proof {
                crate::efs::lemma_same_then_follow(l, db, rt, db, rt1, fs.disk(), disk_inode@);
            }
        }
        let ghost dc = fs.disk();
        let ghost r2 = disk_inode@;
        tx_store(fs, file_id, &disk_inode, Ghost(2int));
        proof {
            let dd = fs.disk();
            crate::efs::lemma_store_step(l, dc, dd, t, r2);
            assert(step_ok(l, dc, dd, t)) by {
                reveal(step_ok);
            }
            lemma_step_trans(l, db, dc, dd, t);
            crate::efs::lemma_follow_then_same(l, db, rt, dc, r2, dd, r2);
            lemma_unlinked(l, d0, db, dd, at, new_link_count == 0);
        }
        tx_end(fs, Ghost(2int));
    }

    /// Removes the entry that the one segment of `path` names, as `unlink`
    /// does; a name that no entry has is no error. Fails on a path that has
    /// not one segment.
    pub fn remove<D: BlockDevice>(
        &self,
        fs: &mut EasyFileSystem<D>,
        path: &str,
        recursive: bool,
    ) -> (r: Result<(), FsError>)
        requires
            old(fs).inv(),
            self.valid(old(fs)),
        ensures
            final(fs).inv(),
            final(fs).layout() == old(fs).layout(),
            final(fs).journaling() == old(fs).journaling(),
            self.valid(final(fs)),
            ({
                let segments = crate::path::spec_path_components(path@);
                let found = segments.len() == 1 && old(fs)@[self.id()].kind
                    == DiskInodeType::Directory && find_name(
                    dir_entries(old(fs)@[self.id()].content),
                    name_bytes(segments[0]),
                ) != -1;
                &&& r == (if segments.len() == 1 {
                    Ok::<(), FsError>(())
                } else {
                    Err::<(), FsError>(FsError::Unsupported)
                })
                &&& !found ==> final(fs).disk() == old(fs).disk()
                &&& found ==> self.id() == 0 && unlinked(
                    old(fs).layout(),
                    old(fs).disk(),
                    final(fs).disk(),
                    find_name(old(fs).entries(), name_bytes(segments[0])),
                ) && (final(fs).journaling() ==> final(fs).durable() == final(fs).disk() && final(fs).journal().committed() == record_blocks(old(fs).layout(), old(fs).entries()[find_name(old(fs).entries(), name_bytes(segments[0]))].inode as int, old(fs).entries()[find_name(old(fs).entries(), name_bytes(segments[0]))].inode as int))
            }),
    {
        let components = crate::path::path_components(path);
        let ghost segments = crate::path::spec_path_components(path@);
        proof {
            assert(components@.len() == segments.len());
        }
        if components.len() == 1 {
            proof {
                assert(crate::path::views(components@)[0] == components@[0]@);
            }
            let _ = self.unlink(fs, components[0].as_str());
            Ok(())
        } else {
            Err(FsError::Unsupported)
        }
    }
}

/// Inode 0 is allocated and is a directory whose size is a whole number of
/// records.
pub proof fn lemma_root_is_directory(l: Layout, d: Disk)
    requires
        links_ok(l, d),
    ensures
        node(l, d, 0).size as int % (DIRENT_SZ as int) == 0,
        node(l, d, 0).kind == DiskInodeType::Directory,
        inode_used(l, d, 0),
{
    reveal(links_ok);
}

/// Opens the transaction of an operation and registers the block of the
/// inode that the operation works on.
fn tx_begin<D: BlockDevice>(fs: &mut EasyFileSystem<D>, block: usize)
    requires
        old(fs).wf(),
    ensures
        final(fs).geometry_ok(),
        final(fs).layout() == old(fs).layout(),
        final(fs).disk() == old(fs).disk(),
        final(fs).journaling() == old(fs).journaling(),
        tx_open(final(fs), 1),
        final(fs).journaling() ==> final(fs).journal().registered() == Set::<int>::empty().insert(
            block as int,
        ) && final(fs).journal().dirtied() == Set::<int>::empty(),
{
    let started = fs.journal.start(TX_BUDGET);
    assert(started is Ok);
    let access = fs.journal.get_write_access(block);
    assert(access is Ok);
}

/// Registers one more block with the transaction of the operation.
fn tx_access<D: BlockDevice>(fs: &mut EasyFileSystem<D>, block: usize, Ghost(n): Ghost<int>)
    requires
        old(fs).geometry_ok(),
        tx_open(old(fs), n),
        n < TX_BUDGET,
    ensures
        final(fs).geometry_ok(),
        final(fs).layout() == old(fs).layout(),
        final(fs).disk() == old(fs).disk(),
        final(fs).journaling() == old(fs).journaling(),
        tx_open(final(fs), n + 1),
        final(fs).journaling() ==> final(fs).journal().registered() == old(fs).journal().registered().insert(block as int) && final(fs).journal().dirtied() == old(fs).journal().dirtied(),
{
    let access = fs.journal.get_write_access(block);
    assert(access is Ok);
}

/// Writes `inode` as the record of inode `inode_id`, whose block the
/// transaction of the operation has registered, and marks the block dirty.
fn tx_store<D: BlockDevice>(
    fs: &mut EasyFileSystem<D>,
    inode_id: u32,
    inode: &DiskInode,
    Ghost(n): Ghost<int>,
)
    requires
        old(fs).geometry_ok(),
        tx_open(old(fs), n),
        inode_id < old(fs).layout().inode_count(),
        inode.wf(),
        old(fs).journaling() ==> old(fs).journal().registered().contains(
            old(fs).layout().inode_block(inode_id as int),
        ),
    ensures
        final(fs).geometry_ok(),
        final(fs).layout() == old(fs).layout(),
        final(fs).journaling() == old(fs).journaling(),
        final(fs).disk() == crate::disk_inode::disk_with_rec(
            old(fs).disk(),
            old(fs).layout().inode_block(inode_id as int),
            Layout::inode_offset(inode_id as int),
            inode@,
        ),
        tx_open(final(fs), n),
        final(fs).journaling() ==> final(fs).journal().registered() == old(fs).journal().registered() && final(fs).journal().dirtied() == old(fs).journal().dirtied().insert(old(fs).layout().inode_block(inode_id as int)),
{
    let (block, _) = fs.get_disk_inode_pos(inode_id);
    fs.store_inode(inode_id, inode);
    let dirty = fs.journal.dirty_metadata(block as usize);
    assert(dirty is Ok);
}

/// Stops, commits and checkpoints the transaction of the operation.
fn tx_end<D: BlockDevice>(fs: &mut EasyFileSystem<D>, Ghost(n): Ghost<int>)
    requires
        old(fs).geometry_ok(),
        tx_open(old(fs), n),
    ensures
        final(fs).wf(),
        final(fs).layout() == old(fs).layout(),
        final(fs).disk() == old(fs).disk(),
        final(fs).journaling() == old(fs).journaling(),
        final(fs).journaling() ==> final(fs).durable() == final(fs).disk()
            && final(fs).journal().committed() == old(fs).journal().dirtied(),
{
    let stopped = fs.journal.stop();
    assert(stopped is Ok);
    let committed = fs.journal.commit();
    assert(committed is Ok);
    let done = fs.journal.checkpoint(&mut fs.cache);
    assert(done is Ok);
}

/// The transaction of an operation is open and has registered at most `n`
/// blocks; or journaling is disabled.
pub open spec fn tx_open<D: BlockDevice>(fs: &EasyFileSystem<D>, n: int) -> bool {
    &&& fs.journal().wf()
    &&& fs.journaling() ==> {
        &&& fs.journal().state() == TxState::Open
        &&& fs.journal().budget() == TX_BUDGET
        &&& fs.journal().count() <= n
    }
    &&& !fs.journaling() ==> fs.journal().state() == TxState::Idle
}

/// The blocks that hold the records of the inodes `a` and `b`.
pub open spec fn record_blocks(l: Layout, a: int, b: int) -> Set<int> {
    Set::<int>::empty().insert(l.inode_block(a)).insert(l.inode_block(b))
}

} // verus!
