//! What holds of the filesystem across operations, stated over what the
//! contracts of the operations say and proved from it.

use vstd::prelude::*;
use crate::dirent::{find_name, lemma_find_from, lemma_find_is, valid_name};
use crate::disk_inode::{added, clipped, dropped, spec_total_blocks, valid_slot, window};
use crate::efs::{
    allocated, among_blocks, consistent, data_used, free_data, fs_view, inode_used, links_ok,
    nblocks, node, released, root_entries, superblock_layout, Layout, NodeView, EFS_MAGIC,
};
use crate::layout::Disk;
use crate::vfs::{
    create_named_outcome, created, file_blocks_follow, has_room, linked, unlinked, write_result,
    FsError,
};

verus! {

/// What was written is what is read: the bytes of a file from `offset` on,
/// after `data` was written there, are `data`, and a read of that many
/// bytes at `offset` is not cut short.
pub proof fn law_write_then_read(content: Seq<u8>, offset: int, data: Seq<u8>)
    requires
        0 <= offset,
    ensures
        window(write_result(content, offset, data), offset, data.len() as int) == data,
        data.len() > 0 ==> clipped(
            write_result(content, offset, data).len() as int,
            offset,
            data.len() as int,
        ) == data.len(),
{
    assert(window(write_result(content, offset, data), offset, data.len() as int) =~= data);
}

/// A write beyond the end of a file extends the file; the bytes between
/// the old end and the place of the write are zero, and the bytes before
/// the place of the write are as they were.
pub proof fn law_growth_zero_fill(content: Seq<u8>, offset: int, data: Seq<u8>)
    requires
        content.len() <= offset,
    ensures
        write_result(content, offset, data).len() == offset + data.len(),
        forall|p: int| content.len() <= p < offset ==> write_result(content, offset, data)[p] == 0,
        forall|p: int| 0 <= p < content.len() ==> write_result(content, offset, data)[p] == content[p],
{
}

/// A write within a file leaves the bytes outside of what is written as
/// they were, and the size too.
pub proof fn law_write_in_place(content: Seq<u8>, offset: int, data: Seq<u8>)
    requires
        0 <= offset,
        offset + data.len() <= content.len(),
    ensures
        write_result(content, offset, data).len() == content.len(),
        forall|p: int|
            0 <= p < content.len() && !(offset <= p < offset + data.len()) ==> write_result(
                content,
                offset,
                data,
            )[p] == content[p],
{
    assert(content.subrange(0, content.len() as int) =~= content);
}

/// No block is handed out twice: a block that an allocation returned is
/// not returned by the next allocation.
pub proof fn law_alloc_data_exclusive(l: Layout, d0: Disk, d1: Disk, d2: Disk, a: u32, b: u32)
    requires
        allocated(l, d0, d1, seq![a]),
        allocated(l, d1, d2, seq![b]),
    ensures
        a != b,
        data_used(l, d2, a as int),
        data_used(l, d2, b as int),
{
    let one = seq![a];
    let two = seq![b];
    assert(one[0] == a);
    assert(two[0] == b);
    assert(among_blocks(one, a as int));
    assert(among_blocks(two, b as int));
    assert(data_used(l, d1, a as int));
    assert(!data_used(l, d1, b as int));
}

/// The blocks that one allocation returns differ from one another, were
/// free before and are allocated after.
pub proof fn law_alloc_blocks_exclusive(
    l: Layout,
    d0: Disk,
    d1: Disk,
    blocks: Seq<u32>,
    i: int,
    j: int,
)
    requires
        allocated(l, d0, d1, blocks),
        0 <= i < blocks.len(),
        0 <= j < blocks.len(),
        i != j,
    ensures
        blocks[i] != blocks[j],
        !data_used(l, d0, blocks[i] as int),
        data_used(l, d1, blocks[i] as int),
{
    assert(among_blocks(blocks, blocks[i] as int));
    if i < j {
        assert(blocks[i] != blocks[j]);
    } else {
        assert(blocks[j] != blocks[i]);
    }
}

/// A block that was released is free, and so can be handed out again.
pub proof fn law_release_makes_free(l: Layout, d0: Disk, d1: Disk, blocks: Seq<u32>, i: int)
    requires
        released(l, d0, d1, blocks),
        0 <= i < blocks.len(),
        l.in_data_area(blocks[i] as int),
    ensures
        !data_used(l, d1, blocks[i] as int),
{
    assert(among_blocks(blocks, blocks[i] as int));
}

/// A resize to the size that a file has changes no block: every slot of
/// the chain holds the block that it held, and the data bitmap is the same.
pub proof fn law_same_size_keeps_blocks(l: Layout, d0: Disk, d1: Disk, id: int)
    requires
        file_blocks_follow(l, d0, d1, id),
        nblocks(node(l, d1, id)) == nblocks(node(l, d0, id)),
    ensures
        forall|s: int|
            valid_slot(nblocks(node(l, d0, id)), s) ==> #[trigger] node(l, d1, id).slot(d1, s)
                == node(l, d0, id).slot(d0, s),
        forall|b: int| l.in_data_area(b) ==> #[trigger] data_used(l, d1, b) == data_used(l, d0, b),
{
}

/// A cut releases the blocks beyond the new size and no others: the slots
/// that the chain keeps hold the blocks that they held, the blocks in the
/// slots that it lost are free afterwards, and every other block of the
/// data region is allocated exactly if it was.
pub proof fn law_cut_releases_blocks(l: Layout, d0: Disk, d1: Disk, id: int)
    requires
        file_blocks_follow(l, d0, d1, id),
        nblocks(node(l, d1, id)) <= nblocks(node(l, d0, id)),
    ensures
        forall|s: int|
            valid_slot(nblocks(node(l, d1, id)), s) ==> #[trigger] node(l, d1, id).slot(d1, s)
                == node(l, d0, id).slot(d0, s),
        forall|s: int|
            valid_slot(nblocks(node(l, d0, id)), s) && !valid_slot(nblocks(node(l, d1, id)), s)
                && l.in_data_area(node(l, d0, id).slot(d0, s)) ==> !data_used(
                l,
                d1,
                #[trigger] node(l, d0, id).slot(d0, s),
            ),
        forall|b: int|
            l.in_data_area(b) && !dropped(
                node(l, d0, id),
                d0,
                nblocks(node(l, d0, id)),
                nblocks(node(l, d1, id)),
                b,
            ) ==> #[trigger] data_used(l, d1, b) == data_used(l, d0, b),
{
    let r0 = node(l, d0, id);
    let r1 = node(l, d1, id);
    let n0 = nblocks(r0);
    let n1 = nblocks(r1);
    crate::disk_inode::lemma_index_count_mono(n1, n0);
    assert forall|b: int| !added(r1, d1, n0, n1, b) by {}
    assert forall|s: int|
        valid_slot(n0, s) && !valid_slot(n1, s) && l.in_data_area(
            r0.slot(d0, s),
        ) implies !data_used(l, d1, #[trigger] r0.slot(d0, s)) by {
        assert(dropped(r0, d0, n0, n1, r0.slot(d0, s)));
    }
}

/// A record points at nothing beyond its chain: in a consistent filesystem
/// the direct pointers from the block count on are zero, and so is the
/// pointer to an index block that the chain does not reach. After a cut
/// this holds of the pointers beyond the new count.
pub proof fn law_spare_pointers_zero(l: Layout, d: Disk, id: int)
    requires
        consistent(l, d),
        inode_used(l, d, id),
    ensures
        node(l, d, id).tidy(nblocks(node(l, d, id))),
{
    crate::efs::lemma_node_ok(l, d, 0, node(l, d, 0), id);
}

/// Growth allocates the blocks that the chain gains and no others: the
/// slots that the chain had hold the blocks that they held, the blocks in
/// the new slots were free and are allocated afterwards, and every other
/// block of the data region is allocated exactly if it was.
pub proof fn law_growth_allocates_blocks(l: Layout, d0: Disk, d1: Disk, id: int)
    requires
        file_blocks_follow(l, d0, d1, id),
        nblocks(node(l, d0, id)) <= nblocks(node(l, d1, id)),
    ensures
        forall|s: int|
            valid_slot(nblocks(node(l, d0, id)), s) ==> #[trigger] node(l, d1, id).slot(d1, s)
                == node(l, d0, id).slot(d0, s),
        forall|s: int|
            valid_slot(nblocks(node(l, d1, id)), s) && !valid_slot(nblocks(node(l, d0, id)), s)
                ==> !data_used(l, d0, #[trigger] node(l, d1, id).slot(d1, s)) && (l.in_data_area(
                node(l, d1, id).slot(d1, s),
            ) ==> data_used(l, d1, node(l, d1, id).slot(d1, s))),
        forall|b: int|
            l.in_data_area(b) && !added(
                node(l, d1, id),
                d1,
                nblocks(node(l, d0, id)),
                nblocks(node(l, d1, id)),
                b,
            ) ==> #[trigger] data_used(l, d1, b) == data_used(l, d0, b),
{
    let r0 = node(l, d0, id);
    let r1 = node(l, d1, id);
    let n0 = nblocks(r0);
    let n1 = nblocks(r1);
    crate::disk_inode::lemma_index_count_mono(n0, n1);
    assert forall|b: int| !dropped(r0, d0, n0, n1, b) by {}
    assert forall|s: int| valid_slot(n1, s) && !valid_slot(n0, s) implies !data_used(
        l,
        d0,
        #[trigger] r1.slot(d1, s),
    ) && (l.in_data_area(r1.slot(d1, s)) ==> data_used(l, d1, r1.slot(d1, s))) by {
        assert(added(r1, d1, n0, n1, r1.slot(d1, s)));
    }
}

/// No inode slot is handed out twice: a slot that was allocated is
/// allocated, every other slot is as it was, and so a slot that is free
/// afterwards is another one.
pub proof fn law_alloc_inode_exclusive(l: Layout, d0: Disk, x: int, y: int)
    requires
        crate::layout::disk_wf(d0),
        l.valid(),
        d0.len() == l.total_blocks,
        0 <= x < l.inode_count(),
        !inode_used(l, d0, x),
        0 <= y < l.inode_count(),
        !inode_used(
            l,
            crate::bitmap::disk_with_bit(d0, l.inode_bitmap_start(), x, true),
            y,
        ),
    ensures
        inode_used(l, crate::bitmap::disk_with_bit(d0, l.inode_bitmap_start(), x, true), x),
        y != x,
        !inode_used(l, d0, y),
{
    crate::bitmap::lemma_disk_with_bit(
        d0,
        l.inode_bitmap_start(),
        l.inode_bitmap_blocks as int,
        x,
        true,
    );
}

/// A filesystem that was closed can be opened again: a disk that holds a
/// consistent filesystem has the superblock that `open` accepts, and holds
/// a consistent filesystem of the layout that `open` reads.
pub proof fn law_reopen(l: Layout, d: Disk)
    requires
        consistent(l, d),
    ensures
        d.len() >= 1,
        crate::layout::word_at(d[0], 0) == EFS_MAGIC,
        superblock_layout(d[0]) == l,
        superblock_layout(d[0]).valid(),
        superblock_layout(d[0]).total_blocks == d.len(),
        consistent(superblock_layout(d[0]), d),
{
}

/// A name that was just created is taken: creating it again fails with
/// `AlreadyExists`.
pub proof fn law_name_taken_after_create(
    l: Layout,
    d0: Disk,
    d1: Disk,
    x: int,
    name: Seq<u8>,
    free_blocks: int,
    free_slots: int,
)
    requires
        consistent(l, d0),
        created(l, d0, d1, x, name),
    ensures
        create_named_outcome(
            fs_view(l, d1)[0].kind,
            fs_view(l, d1)[0].content,
            free_blocks,
            free_slots,
            name,
        ) == Err::<(), FsError>(FsError::AlreadyExists),
{
    reveal(created);
    reveal(links_ok);
    let entries0 = root_entries(l, d0);
    let entries1 = root_entries(l, d1);
    assert(fs_view(l, d1)[0] == crate::efs::node_view(l, d1, 0));
    assert(entries1[entries0.len() as int].name == name);
    lemma_find_from(entries1, name, 0);
}

/// A name that was just unlinked is free: no entry has it, and creating it
/// again does not fail with `AlreadyExists`.
pub proof fn law_name_free_after_unlink(
    l: Layout,
    d0: Disk,
    d1: Disk,
    name: Seq<u8>,
    free_blocks: int,
    free_slots: int,
)
    requires
        consistent(l, d0),
        find_name(root_entries(l, d0), name) != -1,
        unlinked(l, d0, d1, find_name(root_entries(l, d0), name)),
    ensures
        find_name(root_entries(l, d1), name) == -1,
        create_named_outcome(
            fs_view(l, d1)[0].kind,
            fs_view(l, d1)[0].content,
            free_blocks,
            free_slots,
            name,
        ) != Err::<(), FsError>(FsError::AlreadyExists),
        valid_name(name) && has_room(fs_view(l, d1)[0].content.len() as int, free_blocks)
            && free_slots != 0 ==> create_named_outcome(
            fs_view(l, d1)[0].kind,
            fs_view(l, d1)[0].content,
            free_blocks,
            free_slots,
            name,
        ) == Ok::<(), FsError>(()),
{
    reveal(unlinked);
    reveal(links_ok);
    let entries0 = root_entries(l, d0);
    let at = find_name(entries0, name);
    lemma_find_from(entries0, name, 0);
    let entries1 = root_entries(l, d1);
    assert(entries1 == entries0.remove(at));
    assert forall|e: int| 0 <= e < entries1.len() implies (#[trigger] entries1[e]).name != name by {
        if e < at {
            assert(entries1[e] == entries0[e]);
        } else {
            assert(entries1[e] == entries0[e + 1]);
            assert(entries0[at].name != entries0[e + 1].name);
        }
    }
    lemma_find_is(entries1, name, 0, entries1.len() as int);
    assert(fs_view(l, d1)[0] == crate::efs::node_view(l, d1, 0));
}

/// A link made and removed again leaves the file and the directory as they
/// were: linking a new name to a file and unlinking that name gives back
/// the entries of the directory, and the type, the link count and the bytes
/// of the file.
pub proof fn law_link_then_unlink(
    l: Layout,
    d0: Disk,
    d1: Disk,
    d2: Disk,
    t: int,
    name: Seq<u8>,
)
    requires
        consistent(l, d0),
        inode_used(l, d0, t),
        1 <= t < 0x1_0000_0000,
        fs_view(l, d0)[t].link_count >= 1,
        find_name(root_entries(l, d0), name) == -1,
        linked(l, d0, d1, t, name),
        unlinked(l, d1, d2, find_name(root_entries(l, d1), name)),
    ensures
        find_name(root_entries(l, d1), name) == root_entries(l, d0).len(),
        root_entries(l, d2) == root_entries(l, d0),
        fs_view(l, d2).dom().contains(t),
        fs_view(l, d2)[t] == fs_view(l, d0)[t],
{
    reveal(linked);
    reveal(unlinked);
    reveal(links_ok);
    let entries0 = root_entries(l, d0);
    let entries1 = root_entries(l, d1);
    let n = entries0.len() as int;
    lemma_find_from(entries0, name, 0);
    assert forall|e: int| 0 <= e < n implies (#[trigger] entries1[e]).name != name by {
        assert(entries1[e] == entries0[e]);
    }
    assert(entries1[n].name == name);
    lemma_find_is(entries1, name, 0, n);
    assert(entries1.remove(n) =~= entries0);
    assert(entries1[n].inode == t);
    let file0 = fs_view(l, d0)[t];
    let file1 = fs_view(l, d1)[t];
    assert(file1 == (NodeView { link_count: file0.link_count + 1, ..file0 }));
    let file2 = NodeView {
        link_count: (file1.link_count - 1) as nat,
        content: if file1.link_count == 1 {
            Seq::<u8>::empty()
        } else {
            file1.content
        },
        ..file1
    };
    assert(fs_view(l, d2)[t] == file2);
    assert(file2 == file0);
}

/// The last unlink frees the file: where the entry removed was the only
/// one bound to the file, the file is empty afterwards and its blocks are
/// free again.
pub proof fn law_last_unlink_frees(l: Layout, d0: Disk, d1: Disk, at: int)
    requires
        consistent(l, d0),
        0 <= at < root_entries(l, d0).len(),
        unlinked(l, d0, d1, at),
        fs_view(l, d0)[root_entries(l, d0)[at].inode as int].link_count == 1,
    ensures
        fs_view(l, d1)[root_entries(l, d0)[at].inode as int].content == Seq::<u8>::empty(),
        fs_view(l, d1)[root_entries(l, d0)[at].inode as int].link_count == 0,
        free_data(l, d1) >= free_data(l, d0) + spec_total_blocks(
            fs_view(l, d0)[root_entries(l, d0)[at].inode as int].content.len() as int,
        ),
{
    reveal(unlinked);
    let t = root_entries(l, d0)[at].inode as int;
    let root = fs_view(l, d0)[0];
    let file = fs_view(l, d0)[t];
    let after = NodeView {
        link_count: (file.link_count - 1) as nat,
        content: if file.link_count == 1 {
            Seq::<u8>::empty()
        } else {
            file.content
        },
        ..file
    };
    assert(fs_view(l, d1)[t] == after);
    if root.content.len() >= crate::layout::DIRENT_SZ {
        crate::disk_inode::lemma_total_blocks_mono(
            root.content.len() - crate::layout::DIRENT_SZ,
            root.content.len() as int,
        );
    }
}

/// An unlink releases the blocks that the directory and the file gave up
/// and no others: the blocks in the slots that the chain of the file lost
/// are free afterwards, the chains of all other files are the same, and a
/// block of the data region that neither the directory nor the file gave up
/// is allocated exactly if it was.
pub proof fn law_unlink_releases_blocks(l: Layout, d0: Disk, d1: Disk, at: int)
    requires
        0 <= at < root_entries(l, d0).len(),
        unlinked(l, d0, d1, at),
    ensures
        ({
            let t = root_entries(l, d0)[at].inode as int;
            let file0 = node(l, d0, t);
            let file1 = node(l, d1, t);
            let root0 = node(l, d0, 0);
            let root1 = node(l, d1, 0);
            &&& forall|s: int|
                valid_slot(nblocks(file1), s) ==> #[trigger] file1.slot(d1, s) == file0.slot(d0, s)
            &&& forall|s: int|
                valid_slot(nblocks(file0), s) && !valid_slot(nblocks(file1), s) && l.in_data_area(
                    file0.slot(d0, s),
                ) ==> !data_used(l, d1, #[trigger] file0.slot(d0, s))
            &&& forall|b: int|
                l.in_data_area(b) && !dropped(file0, d0, nblocks(file0), nblocks(file1), b)
                    && !dropped(root0, d0, nblocks(root0), nblocks(root1), b)
                    ==> #[trigger] data_used(l, d1, b) == data_used(l, d0, b)
            &&& crate::vfs::chains_kept(l, d0, d1, 0, t)
        }),
{
    reveal(unlinked);
    let t = root_entries(l, d0)[at].inode as int;
    let file0 = node(l, d0, t);
    let file1 = node(l, d1, t);
    assert forall|s: int|
        valid_slot(nblocks(file0), s) && !valid_slot(nblocks(file1), s) && l.in_data_area(
            file0.slot(d0, s),
        ) implies !data_used(l, d1, #[trigger] file0.slot(d0, s)) by {
        assert(dropped(file0, d0, nblocks(file0), nblocks(file1), file0.slot(d0, s)));
    }
}

/// Removing an entry keeps the order of the others: the entries before it
/// stay where they are, and every entry after it moves up by one place.
pub proof fn law_unlink_keeps_order(l: Layout, d0: Disk, d1: Disk, at: int)
    requires
        0 <= at < root_entries(l, d0).len(),
        unlinked(l, d0, d1, at),
    ensures
        root_entries(l, d1).len() == root_entries(l, d0).len() - 1,
        forall|j: int| 0 <= j < at ==> root_entries(l, d1)[j] == root_entries(l, d0)[j],
        forall|j: int|
            at <= j < root_entries(l, d1).len() ==> root_entries(l, d1)[j] == root_entries(l, d0)[j
                + 1],
{
    reveal(unlinked);
}

} // verus!
