//! Directory records.
//!
//! The bytes of a directory are a dense array of 32-byte records. A record
//! holds a name of at most 27 bytes, padded with zero bytes to 28, and the
//! little-endian number of the inode that the name is bound to.

use vstd::prelude::*;
use crate::layout::{lemma_word_at, splice, word_at, word_bytes, DIRENT_SZ, NAME_LENGTH_LIMIT};

verus! {

/// What a directory record says.
pub struct EntryView {
    pub name: Seq<u8>,
    pub inode: u32,
}

/// The position of the first zero byte of `rec` at or after `from`, within
/// the name field; 28 where there is none.
pub open spec fn nul_from(rec: Seq<u8>, from: int) -> int
    decreases NAME_LENGTH_LIMIT + 1 - from,
{
    if from >= NAME_LENGTH_LIMIT + 1 || from < 0 {
        NAME_LENGTH_LIMIT + 1
    } else if rec[from] == 0 {
        from
    } else {
        nul_from(rec, from + 1)
    }
}

/// The name stored in the record `rec`: the bytes before the first zero.
pub open spec fn entry_name(rec: Seq<u8>) -> Seq<u8> {
    rec.subrange(0, nul_from(rec, 0))
}

/// The inode number stored in the record `rec`.
pub open spec fn entry_inode(rec: Seq<u8>) -> u32 {
    word_at(rec, NAME_LENGTH_LIMIT + 1)
}

/// What the record `rec` says.
pub open spec fn parse_entry(rec: Seq<u8>) -> EntryView {
    EntryView { name: entry_name(rec), inode: entry_inode(rec) }
}

/// The record that binds `name` to `inode`.
pub open spec fn entry_bytes(name: Seq<u8>, inode: u32) -> Seq<u8> {
    Seq::new(
        DIRENT_SZ as nat,
        |i: int|
            if i < name.len() {
                name[i]
            } else if i < NAME_LENGTH_LIMIT + 1 {
                0u8
            } else {
                word_bytes(inode)[i - (NAME_LENGTH_LIMIT + 1)]
            },
    )
}

/// A name that a record can hold and give back: at most 27 bytes, none of
/// them zero.
pub open spec fn valid_name(name: Seq<u8>) -> bool {
    &&& name.len() <= NAME_LENGTH_LIMIT
    &&& forall|i: int| 0 <= i < name.len() ==> name[i] != 0
}

/// The first zero byte is at or after `from`, and at `to` where the bytes
/// between are not zero and the byte at `to` is.
proof fn lemma_nul_from(rec: Seq<u8>, from: int, to: int)
    requires
        0 <= from <= to <= NAME_LENGTH_LIMIT + 1,
        forall|i: int| from <= i < to ==> rec[i] != 0,
        to < NAME_LENGTH_LIMIT + 1 ==> rec[to] == 0,
    ensures
        nul_from(rec, from) == to,
    decreases to - from,
{
    if from < to {
        lemma_nul_from(rec, from + 1, to);
    }
}

/// A valid name has at most 27 bytes.
pub proof fn lemma_valid_name_len(name: Seq<u8>)
    requires
        valid_name(name),
    ensures
        name.len() <= NAME_LENGTH_LIMIT,
{
}

/// A record made from a valid name and an inode number says just that.
pub proof fn lemma_entry_roundtrip(name: Seq<u8>, inode: u32)
    requires
        valid_name(name),
    ensures
        entry_bytes(name, inode).len() == DIRENT_SZ,
        parse_entry(entry_bytes(name, inode)) == (EntryView { name, inode }),
{
    let rec = entry_bytes(name, inode);
    lemma_nul_from(rec, 0, name.len() as int);
    assert(entry_name(rec) =~= name);
    lemma_word_at(rec, NAME_LENGTH_LIMIT + 1, inode);
}

/// The records that the bytes of a directory hold, in order.
pub open spec fn records(content: Seq<u8>) -> Seq<Seq<u8>> {
    Seq::new(
        (content.len() / DIRENT_SZ as nat) as nat,
        |e: int| content.subrange(e * DIRENT_SZ, e * DIRENT_SZ + DIRENT_SZ),
    )
}

/// What the records `recs` say, in order.
pub open spec fn entries_of(recs: Seq<Seq<u8>>) -> Seq<EntryView> {
    Seq::new(recs.len(), |e: int| parse_entry(recs[e]))
}

/// What the records of a directory say, in order.
pub open spec fn dir_entries(content: Seq<u8>) -> Seq<EntryView> {
    entries_of(records(content))
}

/// The position of the first entry at or after `from` that has the name
/// `name`; -1 where there is none.
pub open spec fn find_from(entries: Seq<EntryView>, name: Seq<u8>, from: int) -> int
    decreases entries.len() - from,
{
    if from >= entries.len() || from < 0 {
        -1
    } else if entries[from].name == name {
        from
    } else {
        find_from(entries, name, from + 1)
    }
}

/// The position of the first entry that has the name `name`; -1 where
/// there is none.
pub open spec fn find_name(entries: Seq<EntryView>, name: Seq<u8>) -> int {
    find_from(entries, name, 0)
}

/// The number of entries that are bound to inode `inode`.
pub open spec fn count_refs(entries: Seq<EntryView>, inode: int) -> int
    decreases entries.len(),
{
    if entries.len() == 0 {
        0
    } else {
        count_refs(entries.drop_last(), inode) + if entries.last().inode == inode {
            1int
        } else {
            0int
        }
    }
}

/// No two entries have the same name.
pub open spec fn unique_names(entries: Seq<EntryView>) -> bool {
    forall|i: int, j: int|
        0 <= i < j < entries.len() ==> (#[trigger] entries[i]).name != (#[trigger] entries[j]).name
}

/// What `find_from` returns: the first match at or after `from`.
pub proof fn lemma_find_from(entries: Seq<EntryView>, name: Seq<u8>, from: int)
    requires
        0 <= from <= entries.len(),
    ensures
        ({
            let r = find_from(entries, name, from);
            &&& r == -1 || from <= r < entries.len()
            &&& r >= 0 ==> entries[r].name == name
            &&& forall|e: int|
                from <= e < (if r >= 0 {
                    r
                } else {
                    entries.len() as int
                }) ==> (#[trigger] entries[e]).name != name
        }),
    decreases entries.len() - from,
{
    if from < entries.len() && entries[from].name != name {
        lemma_find_from(entries, name, from + 1);
    }
}

/// The first match is the position `at` where the entry at `at` has the
/// name and no entry before it has.
pub proof fn lemma_find_is(entries: Seq<EntryView>, name: Seq<u8>, from: int, at: int)
    requires
        0 <= from <= at,
        at <= entries.len(),
        forall|e: int| from <= e < at ==> (#[trigger] entries[e]).name != name,
        at < entries.len() ==> entries[at].name == name,
    ensures
        find_from(entries, name, from) == (if at < entries.len() {
            at
        } else {
            -1
        }),
    decreases at - from,
{
    if from < at {
        lemma_find_is(entries, name, from + 1, at);
    }
}

/// An inode is bound at most as often as there are entries.
pub proof fn lemma_count_refs_bounds(entries: Seq<EntryView>, inode: int)
    ensures
        0 <= count_refs(entries, inode) <= entries.len(),
    decreases entries.len(),
{
    if entries.len() > 0 {
        lemma_count_refs_bounds(entries.drop_last(), inode);
    }
}

/// An inode that an entry is bound to is bound at least once.
pub proof fn lemma_count_refs_positive(entries: Seq<EntryView>, at: int)
    requires
        0 <= at < entries.len(),
    ensures
        count_refs(entries, entries[at].inode as int) >= 1,
    decreases entries.len(),
{
    lemma_count_refs_bounds(entries.drop_last(), entries[at].inode as int);
    if at < entries.len() - 1 {
        lemma_count_refs_positive(entries.drop_last(), at);
    }
}

/// An inode that no entry is bound to is bound zero times.
pub proof fn lemma_count_refs_zero(entries: Seq<EntryView>, inode: int)
    requires
        forall|e: int| 0 <= e < entries.len() ==> (#[trigger] entries[e]).inode != inode,
    ensures
        count_refs(entries, inode) == 0,
    decreases entries.len(),
{
    if entries.len() > 0 {
        lemma_count_refs_zero(entries.drop_last(), inode);
    }
}

/// One more entry binds its inode once more, and no other inode.
pub proof fn lemma_count_refs_push(entries: Seq<EntryView>, entry: EntryView, inode: int)
    ensures
        count_refs(entries.push(entry), inode) == count_refs(entries, inode) + (if entry.inode
            == inode {
            1int
        } else {
            0int
        }),
{
    assert(entries.push(entry).drop_last() =~= entries);
}

/// One entry less binds its inode once less, and no other inode.
pub proof fn lemma_count_refs_remove(entries: Seq<EntryView>, at: int, inode: int)
    requires
        0 <= at < entries.len(),
    ensures
        count_refs(entries.remove(at), inode) == count_refs(entries, inode) - (if entries[at].inode
            == inode {
            1int
        } else {
            0int
        }),
    decreases entries.len(),
{
    if at == entries.len() - 1 {
        assert(entries.remove(at) =~= entries.drop_last());
    } else {
        lemma_count_refs_remove(entries.drop_last(), at, inode);
        assert(entries.remove(at).drop_last() =~= entries.drop_last().remove(at));
        assert(entries.remove(at).last() == entries.last());
    }
}

/// One record more says one entry more.
pub proof fn lemma_entries_push(recs: Seq<Seq<u8>>, rec: Seq<u8>)
    ensures
        entries_of(recs.push(rec)) == entries_of(recs).push(parse_entry(rec)),
{
    assert(entries_of(recs.push(rec)) =~= entries_of(recs).push(parse_entry(rec)));
}

/// One record less says one entry less.
pub proof fn lemma_entries_remove(recs: Seq<Seq<u8>>, at: int)
    requires
        0 <= at < recs.len(),
    ensures
        entries_of(recs.remove(at)) == entries_of(recs).remove(at),
{
    assert(entries_of(recs.remove(at)) =~= entries_of(recs).remove(at));
}

/// A record appended to a directory is one more record at the end.
pub proof fn lemma_records_push(content: Seq<u8>, rec: Seq<u8>)
    requires
        content.len() % DIRENT_SZ as nat == 0,
        rec.len() == DIRENT_SZ,
    ensures
        records(content + rec) == records(content).push(rec),
        dir_entries(content + rec) == dir_entries(content).push(parse_entry(rec)),
{
    let c1 = content + rec;
    let n = (content.len() / DIRENT_SZ as nat) as int;
    assert(c1.len() == content.len() + DIRENT_SZ);
    assert(c1.len() / DIRENT_SZ as nat == n + 1);
    assert forall|e: int| 0 <= e < n + 1 implies records(c1)[e] == records(content).push(rec)[e] by {
        if e < n {
            assert(c1.subrange(e * DIRENT_SZ, e * DIRENT_SZ + DIRENT_SZ) =~= content.subrange(
                e * DIRENT_SZ,
                e * DIRENT_SZ + DIRENT_SZ,
            ));
        } else {
            assert(c1.subrange(e * DIRENT_SZ, e * DIRENT_SZ + DIRENT_SZ) =~= rec);
        }
    }
    assert(records(c1) =~= records(content).push(rec));
    lemma_entries_push(records(content), rec);
}

/// A record written over record `at` of a directory replaces that record.
pub proof fn lemma_records_update(content: Seq<u8>, at: int, rec: Seq<u8>)
    requires
        0 <= at,
        at * DIRENT_SZ + DIRENT_SZ <= content.len(),
        rec.len() == DIRENT_SZ,
    ensures
        records(splice(content, at * DIRENT_SZ, rec)) == records(content).update(at, rec),
{
    let c1 = splice(content, at * DIRENT_SZ, rec);
    assert forall|e: int| 0 <= e < records(content).len() implies records(c1)[e] == records(
        content,
    ).update(at, rec)[e] by {
        if e == at {
            assert(c1.subrange(e * DIRENT_SZ, e * DIRENT_SZ + DIRENT_SZ) =~= rec);
        } else {
            assert(c1.subrange(e * DIRENT_SZ, e * DIRENT_SZ + DIRENT_SZ) =~= content.subrange(
                e * DIRENT_SZ,
                e * DIRENT_SZ + DIRENT_SZ,
            ));
        }
    }
    assert(records(c1) =~= records(content).update(at, rec));
}

/// A directory cut by one record has lost its last record.
pub proof fn lemma_records_drop_last(content: Seq<u8>)
    requires
        content.len() % DIRENT_SZ as nat == 0,
        content.len() >= DIRENT_SZ,
    ensures
        records(content.subrange(0, content.len() - DIRENT_SZ)) == records(content).drop_last(),
{
    let c1 = content.subrange(0, content.len() - DIRENT_SZ);
    let n = (content.len() / DIRENT_SZ as nat) as int;
    assert(c1.len() / DIRENT_SZ as nat == n - 1);
    assert forall|e: int| 0 <= e < n - 1 implies records(c1)[e] == records(content).drop_last()[e] by {
        assert(c1.subrange(e * DIRENT_SZ, e * DIRENT_SZ + DIRENT_SZ) =~= content.subrange(
            e * DIRENT_SZ,
            e * DIRENT_SZ + DIRENT_SZ,
        ));
    }
    assert(records(c1) =~= records(content).drop_last());
}

/// A directory record held in memory.
pub struct DirEntry {
    bytes: Vec<u8>,
}

impl View for DirEntry {
    type V = Seq<u8>;

    closed spec fn view(&self) -> Seq<u8> {
        self.bytes@
    }
}

impl DirEntry {
    /// The record has its 32 bytes.
    pub open spec fn wf(&self) -> bool {
        self@.len() == DIRENT_SZ
    }

    /// A record of zero bytes.
    pub fn empty() -> (entry: DirEntry)
        ensures
            entry.wf(),
            entry@ == Seq::new(DIRENT_SZ as nat, |i: int| 0u8),
    {
        let bytes: Vec<u8> = vec![0u8; DIRENT_SZ];
        assert(bytes@ =~= Seq::new(DIRENT_SZ as nat, |i: int| 0u8));
        DirEntry { bytes }
    }

    /// The record that binds `name` to `inode_number`.
    pub fn new(name: &[u8], inode_number: u32) -> (entry: DirEntry)
        requires
            name@.len() <= NAME_LENGTH_LIMIT,
        ensures
            entry.wf(),
            entry@ == entry_bytes(name@, inode_number),
    {
        let mut bytes: Vec<u8> = Vec::new();
        let n = name.len();
        let mut i: usize = 0;
        while i < NAME_LENGTH_LIMIT + 1
            invariant
                i <= NAME_LENGTH_LIMIT + 1,
                n == name@.len(),
                n <= NAME_LENGTH_LIMIT,
                bytes@.len() == i,
                forall|j: int| 0 <= j < i ==> bytes@[j] == entry_bytes(name@, inode_number)[j],
            decreases NAME_LENGTH_LIMIT + 1 - i,
        {
            if i < n {
                bytes.push(name[i]);
            } else {
                bytes.push(0u8);
            }
            i += 1;
        }
        bytes.push((inode_number % 256) as u8);
        bytes.push(((inode_number / 256) % 256) as u8);
        bytes.push(((inode_number / 65536) % 256) as u8);
        bytes.push(((inode_number / 16777216) % 256) as u8);
        assert(bytes@ =~= entry_bytes(name@, inode_number));
        DirEntry { bytes }
    }

    /// The record made of the first 32 bytes of `bytes`.
    pub fn from_bytes(bytes: &Vec<u8>) -> (entry: DirEntry)
        requires
            bytes@.len() >= DIRENT_SZ,
        ensures
            entry.wf(),
            entry@ == bytes@.subrange(0, DIRENT_SZ as int),
    {
        let mut copy: Vec<u8> = Vec::new();
        let mut i: usize = 0;
        while i < DIRENT_SZ
            invariant
                i <= DIRENT_SZ,
                bytes@.len() >= DIRENT_SZ,
                copy@ == bytes@.subrange(0, i as int),
            decreases DIRENT_SZ - i,
        {
            copy.push(bytes[i]);
            i += 1;
            assert(copy@ =~= bytes@.subrange(0, i as int));
        }
        DirEntry { bytes: copy }
    }

    /// The 32 bytes of the record.
    pub fn as_bytes(&self) -> (bytes: &Vec<u8>)
        ensures
            bytes@ == self@,
    {
        &self.bytes
    }

    /// The length of the name stored in the record.
    pub fn name_len(&self) -> (n: usize)
        requires
            self.wf(),
        ensures
            n == nul_from(self@, 0),
            n <= NAME_LENGTH_LIMIT + 1,
    {
        let mut i: usize = 0;
        while i < NAME_LENGTH_LIMIT + 1 && self.bytes[i] != 0
            invariant
                i <= NAME_LENGTH_LIMIT + 1,
                self.wf(),
                forall|j: int| 0 <= j < i ==> self@[j] != 0,
            decreases NAME_LENGTH_LIMIT + 1 - i,
        {
            i += 1;
        }
        proof {
            lemma_nul_from(self@, 0, i as int);
        }
        i
    }

    /// The name stored in the record.
    pub fn name(&self) -> (name: Vec<u8>)
        requires
            self.wf(),
        ensures
            name@ == entry_name(self@),
    {
        let n = self.name_len();
        let mut name: Vec<u8> = Vec::new();
        let mut i: usize = 0;
        while i < n
            invariant
                i <= n <= NAME_LENGTH_LIMIT + 1,
                self.wf(),
                name@ == self@.subrange(0, i as int),
            decreases n - i,
        {
            name.push(self.bytes[i]);
            i += 1;
            assert(name@ =~= self@.subrange(0, i as int));
        }
        name
    }

    /// Tells whether the name stored in the record is `name`.
    pub fn name_is(&self, name: &[u8]) -> (r: bool)
        requires
            self.wf(),
        ensures
            r == (entry_name(self@) == name@),
    {
        let n = self.name_len();
        if name.len() != n {
            return false;
        }
        let mut i: usize = 0;
        while i < n
            invariant
                i <= n <= NAME_LENGTH_LIMIT + 1,
                n == name@.len(),
                n == nul_from(self@, 0),
                self.wf(),
                forall|j: int| 0 <= j < i ==> self@[j] == name@[j],
            decreases n - i,
        {
            if self.bytes[i] != name[i] {
                assert(entry_name(self@)[i as int] != name@[i as int]);
                return false;
            }
            i += 1;
        }
        assert(entry_name(self@) =~= name@);
        true
    }

    /// The inode number stored in the record.
    pub fn inode_id(&self) -> (inode: u32)
        requires
            self.wf(),
        ensures
            inode == entry_inode(self@),
    {
        let b0: u32 = self.bytes[28] as u32;
        let b1: u32 = self.bytes[29] as u32;
        let b2: u32 = self.bytes[30] as u32;
        let b3: u32 = self.bytes[31] as u32;
        b0 + 256 * b1 + 65536 * b2 + 16777216 * b3
    }
}

/// Tells whether a record can hold `name` and give it back.
pub fn is_valid_name(name: &[u8]) -> (r: bool)
    ensures
        r == valid_name(name@),
{
    let n = name.len();
    if n > NAME_LENGTH_LIMIT {
        return false;
    }
    let mut i: usize = 0;
    while i < n
        invariant
            i <= n,
            n == name@.len(),
            n <= NAME_LENGTH_LIMIT,
            forall|j: int| 0 <= j < i ==> name@[j] != 0,
        decreases n - i,
    {
        if name[i] == 0 {
            return false;
        }
        i += 1;
    }
    true
}

} // verus!
