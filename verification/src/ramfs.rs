//! The RAM-backed filesystem.
//!
//! A superblock hands out inode numbers from a monotonic counter and
//! stores the inodes densely, the number doubling as the index.
//! Directories keep their entries in blocks of sixteen 256-byte slots; a
//! slot with inode number zero is free.  A symbolic link stores its
//! target's bytes with the inode.

use vstd::prelude::*;
use crate::vfs::{FSError, MODE_DIRECTORY, MODE_REGULAR_FILE, MODE_SYMBOLIC_LINK};

verus! {

pub const BLOCK_SIZE: usize = 4096;

pub const DIR_ENTRY_SIZE: usize = 256;

pub const ENTRIES_PER_BLOCK: usize = 16;

pub const NAME_CAP: usize = 247;

/// One 256-byte directory slot: the target inode's number, the name's
/// length, and the name bytes, zero-padded.  Number zero marks the slot
/// free.
pub struct DirEntry {
    pub inode: u64,
    pub length: u8,
    pub name: Vec<u8>,
}

impl DirEntry {
    pub open spec fn wf(self) -> bool {
        &&& self.name@.len() == NAME_CAP
        &&& self.length as int <= NAME_CAP
    }

    /// The bytes of the name actually in use.
    pub open spec fn name_bytes(self) -> Seq<u8> {
        self.name@.take(self.length as int)
    }

    /// A free slot.
    pub fn empty() -> (r: DirEntry)
        ensures
            r.wf(),
            r.inode == 0,
            r.length == 0,
    {
        let mut name: Vec<u8> = Vec::new();
        let mut i: usize = 0;
        while i < NAME_CAP
            invariant
                name@.len() == i,
                i <= NAME_CAP,
                forall|j: int| 0 <= j < i ==> name@[j] == 0u8,
            decreases NAME_CAP - i,
        {
            name.push(0);
            i = i + 1;
        }
        DirEntry { inode: 0, length: 0, name }
    }

    /// A live slot naming `inode`.
    pub fn new(inode: u64, name: &Vec<u8>) -> (r: DirEntry)
        requires
            name@.len() <= NAME_CAP,
        ensures
            r.wf(),
            r.inode == inode,
            r.length as int == name@.len(),
            r.name_bytes() == name@,
    {
        let mut padded: Vec<u8> = Vec::new();
        let mut i: usize = 0;
        while i < name.len()
            invariant
                i <= name@.len(),
                padded@ == name@.take(i as int),
            decreases name@.len() - i,
        {
            padded.push(name[i]);
            proof {
                assert(padded@ =~= name@.take(i as int + 1));
            }
            i = i + 1;
        }
        let n = name.len();
        let mut j: usize = n;
        while j < NAME_CAP
            invariant
                n == name@.len() <= NAME_CAP,
                n <= j <= NAME_CAP,
                padded@.len() == j,
                padded@.take(n as int) == name@,
            decreases NAME_CAP - j,
        {
            padded.push(0);
            proof {
                assert(padded@.take(n as int) =~= name@);
            }
            j = j + 1;
        }
        proof {
            assert(name@.take(name@.len() as int) =~= name@);
        }
        let r = DirEntry { inode, length: n as u8, name: padded };
        proof {
            assert(r.name_bytes() =~= name@);
        }
        r
    }

    /// A copy of this slot.
    pub fn duplicate(&self) -> (r: DirEntry)
        ensures
            r.inode == self.inode,
            r.length == self.length,
            r.name@ == self.name@,
    {
        let mut name: Vec<u8> = Vec::new();
        let mut i: usize = 0;
        while i < self.name.len()
            invariant
                i <= self.name@.len(),
                name@ == self.name@.take(i as int),
            decreases self.name@.len() - i,
        {
            name.push(self.name[i]);
            proof {
                assert(name@ =~= self.name@.take(i as int + 1));
            }
            i = i + 1;
        }
        proof {
            assert(self.name@.take(self.name@.len() as int) =~= self.name@);
        }
        DirEntry { inode: self.inode, length: self.length, name }
    }
}

/// One inode of the RAM filesystem.  Directory contents live in blocks
/// of slots; a symbolic link's target rides along as bytes.
pub struct Inode {
    pub mode: u8,
    pub permission: u16,
    pub user_id: u16,
    pub group_id: u16,
    pub num: u64,
    pub size: u64,
    pub nlink: u16,
    pub blocks: Vec<Vec<DirEntry>>,
    pub link_target: Vec<u8>,
    pub last_access: u64,
    pub creation_time: u64,
    pub last_modification: u64,
}

impl Inode {
    pub open spec fn wf(self) -> bool {
        &&& forall|b: int|
            0 <= b < self.blocks@.len() ==> (#[trigger] self.blocks@[b]).len()
                == ENTRIES_PER_BLOCK
        &&& forall|b: int, j: int|
            0 <= b < self.blocks@.len() && 0 <= j < ENTRIES_PER_BLOCK ==> (
            #[trigger] self.blocks@[b]@[j]).wf()
    }

    pub open spec fn is_dir(self) -> bool {
        self.mode == MODE_DIRECTORY
    }

    /// The number of live entries across all directory blocks.
    pub open spec fn live_entries(self) -> Set<(Seq<u8>, u64)> {
        Set::new(
            |p: (Seq<u8>, u64)|
                exists|b: int, j: int|
                    0 <= b < self.blocks@.len() && 0 <= j < ENTRIES_PER_BLOCK && (
                    #[trigger] self.blocks@[b]@[j]).inode != 0 && self.blocks@[b]@[j].length != 0
                        && self.blocks@[b]@[j].name_bytes() == p.0 && self.blocks@[b]@[j].inode
                        == p.1,
        )
    }
}

/// The RAM filesystem's superblock: a monotonic inode counter and the
/// dense inode table, the number doubling as the index.
pub struct SuperBlock {
    pub root: u64,
    pub count: u64,
    pub inodes: Vec<Inode>,
}

impl SuperBlock {
    pub open spec fn wf(self) -> bool {
        &&& self.count == self.inodes@.len()
        &&& forall|i: int| 0 <= i < self.inodes@.len() ==> (#[trigger] self.inodes@[i]).num == i
        &&& forall|i: int| 0 <= i < self.inodes@.len() ==> (#[trigger] self.inodes@[i]).wf()
    }

    /// A fresh, empty filesystem.
    pub fn new() -> (r: SuperBlock)
        ensures
            r.wf(),
            r.count == 0,
            r.root == 0,
            r.inodes@.len() == 0,
    {
        SuperBlock { root: 0, count: 0, inodes: Vec::new() }
    }

    /// Mint a fresh inode, numbered by the counter, stamped `now`.
    pub fn create_inode(&mut self, now: u64) -> (r: u64)
        requires
            old(self).wf(),
            old(self).count < u64::MAX,
        ensures
            final(self).wf(),
            r == old(self).count,
            final(self).count == old(self).count + 1,
            final(self).inodes@.len() == old(self).inodes@.len() + 1,
            final(self).root == old(self).root,
            forall|i: int|
                0 <= i < old(self).inodes@.len() ==> final(self).inodes@[i] == old(
                    self,
                ).inodes@[i],
            final(self).inodes@.last().num == old(self).count,
            final(self).inodes@.last().creation_time == now,
            final(self).inodes@.last().last_access == now,
            final(self).inodes@.last().last_modification == now,
            final(self).inodes@.last().mode == 0,
            final(self).inodes@.last().blocks@.len() == 0,
    {
        let num = self.count;
        let inode = Inode {
            mode: 0,
            permission: 0,
            user_id: 0,
            group_id: 0,
            num,
            size: 0,
            nlink: 0,
            blocks: Vec::new(),
            link_target: Vec::new(),
            last_access: now,
            creation_time: now,
            last_modification: now,
        };
        self.inodes.push(inode);
        self.count = self.count + 1;
        num
    }

    /// Whether an inode with this number exists.
    pub fn get_inode(&self, inode_n: u64) -> (r: Option<&Inode>)
        requires
            self.wf(),
        ensures
            ({
                if (inode_n as int) < self.inodes@.len() {
                    r matches Some(i) && *i == self.inodes@[inode_n as int]
                } else {
                    r is None
                }
            }),
    {
        let n = self.inodes.len();
        if inode_n < n as u64 {
            Some(&self.inodes[inode_n as usize])
        } else {
            None
        }
    }

    /// Destroying inodes is not supported yet.
    pub fn destroy_inode(&mut self, inode_n: u64) -> (r: Result<(), FSError>)
        ensures
            r == Result::<(), FSError>::Err(FSError::NotSupported),
            *final(self) == *old(self),
    {
        let _ = inode_n;
        Err(FSError::NotSupported)
    }
}

impl SuperBlock {
    /// Commit a changed inode back to the table.
    pub fn write_inode(&mut self, inode: Inode) -> (r: Result<(), FSError>)
        requires
            old(self).wf(),
            inode.wf(),
        ensures
            final(self).wf(),
            ({
                if (inode.num as int) < old(self).inodes@.len() {
                    &&& r is Ok
                    &&& final(self).inodes@ == old(self).inodes@.update(inode.num as int, inode)
                    &&& final(self).count == old(self).count
                    &&& final(self).root == old(self).root
                } else {
                    r == Result::<(), FSError>::Err(FSError::MissingInode) && *final(self) == *old(
                        self,
                    )
                }
            }),
    {
        let n = self.inodes.len();
        if inode.num < n as u64 {
            let idx = inode.num as usize;
            self.inodes.set(idx, inode);
            Ok(())
        } else {
            Err(FSError::MissingInode)
        }
    }
}

/// How many of the first `j` slots of a block are live.
pub open spec fn live_in_block_upto(blk: Seq<DirEntry>, j: int) -> int
    decreases j when 0 <= j
{
    if j <= 0 {
        0
    } else {
        live_in_block_upto(blk, j - 1) + (if blk[j - 1].inode != 0 && blk[j - 1].length != 0 {
            1int
        } else {
            0
        })
    }
}

/// How many live slots the first `b` blocks hold.
pub open spec fn live_upto(blocks: Seq<Vec<DirEntry>>, b: int) -> int
    decreases b when 0 <= b
{
    if b <= 0 {
        0
    } else {
        live_upto(blocks, b - 1) + live_in_block_upto(blocks[b - 1]@, ENTRIES_PER_BLOCK as int)
    }
}

/// The number of live slots of a directory: one listing row each.
pub open spec fn live_slot_count(inode: Inode) -> int {
    live_upto(inode.blocks@, inode.blocks@.len() as int)
}

/// Does a listing report exactly the live entries of the directory?
pub open spec fn list_matches(inode: Inode, v: Seq<(Vec<u8>, u64)>) -> bool {
    &&& forall|k: int|
        0 <= k < v.len() ==> inode.live_entries().contains(((#[trigger] v[k]).0@, v[k].1))
    &&& forall|b: int, j: int|
        0 <= b < inode.blocks@.len() && 0 <= j < ENTRIES_PER_BLOCK && (
        #[trigger] inode.blocks@[b]@[j]).inode != 0 && inode.blocks@[b]@[j].length != 0
            ==> exists|k: int|
            0 <= k < v.len() && (#[trigger] v[k]).0@ == inode.blocks@[b]@[j].name_bytes()
                && v[k].1 == inode.blocks@[b]@[j].inode
}

/// The operations a directory inode supports.
pub struct InodeOps;

impl InodeOps {
    /// All live entries of a directory, block by block, slot by slot.
    pub fn list(inode: &Inode) -> (r: Result<Vec<(Vec<u8>, u64)>, FSError>)
        requires
            inode.wf(),
        ensures
            ({
                match r {
                    Ok(v) => inode.is_dir() && list_matches(*inode, v@) && v@.len()
                        == live_slot_count(*inode),
                    Err(e) => e == FSError::NotDirectory && !inode.is_dir(),
                }
            }),
    {
        if inode.mode != MODE_DIRECTORY {
            return Err(FSError::NotDirectory);
        }
        let mut v: Vec<(Vec<u8>, u64)> = Vec::new();
        let mut b: usize = 0;
        while b < inode.blocks.len()
            invariant
                inode.wf(),
                0 <= b <= inode.blocks@.len(),
                v@.len() == live_upto(inode.blocks@, b as int),
                forall|k: int|
                    0 <= k < v@.len() ==> inode.live_entries().contains(
                        ((#[trigger] v@[k]).0@, v@[k].1),
                    ),
                forall|b2: int, j2: int|
                    0 <= b2 < b && 0 <= j2 < ENTRIES_PER_BLOCK && (
                    #[trigger] inode.blocks@[b2]@[j2]).inode != 0 && inode.blocks@[b2]@[j2].length != 0
                            ==> exists|k: int|
                        0 <= k < v@.len() && (#[trigger] v@[k]).0@
                            == inode.blocks@[b2]@[j2].name_bytes() && v@[k].1
                            == inode.blocks@[b2]@[j2].inode,
            decreases inode.blocks@.len() - b,
        {
            let blk = &inode.blocks[b];
            let mut j: usize = 0;
            while j < ENTRIES_PER_BLOCK
                invariant
                    inode.wf(),
                    0 <= b < inode.blocks@.len(),
                    blk == &inode.blocks@[b as int],
                    blk@.len() == ENTRIES_PER_BLOCK,
                    0 <= j <= ENTRIES_PER_BLOCK,
                    v@.len() == live_upto(inode.blocks@, b as int) + live_in_block_upto(
                        inode.blocks@[b as int]@,
                        j as int,
                    ),
                    forall|k: int|
                        0 <= k < v@.len() ==> inode.live_entries().contains(
                            ((#[trigger] v@[k]).0@, v@[k].1),
                        ),
                    forall|b2: int, j2: int|
                        0 <= b2 < b && 0 <= j2 < ENTRIES_PER_BLOCK && (
                        #[trigger] inode.blocks@[b2]@[j2]).inode != 0 && inode.blocks@[b2]@[j2].length != 0
                            ==> exists|k: int|
                            0 <= k < v@.len() && (#[trigger] v@[k]).0@
                                == inode.blocks@[b2]@[j2].name_bytes() && v@[k].1
                                == inode.blocks@[b2]@[j2].inode,
                    forall|j2: int|
                        0 <= j2 < j && (#[trigger] inode.blocks@[b as int]@[j2]).inode != 0 && inode.blocks@[
                            b as int]@[j2].length != 0 ==> exists|k: int|
                            0 <= k < v@.len() && (#[trigger] v@[k]).0@
                                == inode.blocks@[b as int]@[j2].name_bytes() && v@[k].1
                                == inode.blocks@[b as int]@[j2].inode,
                decreases ENTRIES_PER_BLOCK - j,
            {
                let ghost vpre = v@;
                let e = &blk[j];
                if e.inode != 0 && e.length != 0 {
                    let name_len = e.length as usize;
                    let mut name: Vec<u8> = Vec::new();
                    let mut t: usize = 0;
                    proof {
                        assert(inode.blocks@[b as int]@[j as int].wf());
                    }
                    while t < name_len
                        invariant
                            e == &inode.blocks@[b as int]@[j as int],
                            e.wf(),
                            name_len == e.length as int,
                            t <= name_len,
                            name@ == e.name@.take(t as int),
                        decreases name_len - t,
                    {
                        name.push(e.name[t]);
                        proof {
                            assert(name@ =~= e.name@.take(t as int + 1));
                        }
                        t = t + 1;
                    }
                    let num = e.inode;
                    v.push((name, num));
                    proof {
                        let pair = (inode.blocks@[b as int]@[j as int].name_bytes(),
                            inode.blocks@[b as int]@[j as int].inode);
                        assert(v@.last().0@ == pair.0);
                        assert(inode.live_entries().contains(pair));
                        assert(forall|k: int| 0 <= k < vpre.len() ==> v@[k] == vpre[k]);
                        assert forall|b2: int, j2: int|
                            0 <= b2 < b && 0 <= j2 < ENTRIES_PER_BLOCK && (
                            #[trigger] inode.blocks@[b2]@[j2]).inode != 0 && inode.blocks@[
                            b2]@[j2].length != 0 implies exists|k: int|
                            0 <= k < v@.len() && (#[trigger] v@[k]).0@
                                == inode.blocks@[b2]@[j2].name_bytes() && v@[k].1
                                == inode.blocks@[b2]@[j2].inode by {
                            let k0 = choose|k: int|
                                0 <= k < vpre.len() && (#[trigger] vpre[k]).0@
                                    == inode.blocks@[b2]@[j2].name_bytes() && vpre[k].1
                                    == inode.blocks@[b2]@[j2].inode;
                            assert(v@[k0] == vpre[k0]);
                        }
                        assert forall|j2: int|
                            0 <= j2 < j + 1 && (#[trigger] inode.blocks@[b as int]@[j2]).inode
                                != 0 && inode.blocks@[b as int]@[j2].length != 0 implies exists|
                        k: int|
                            0 <= k < v@.len() && (#[trigger] v@[k]).0@
                                == inode.blocks@[b as int]@[j2].name_bytes() && v@[k].1
                                == inode.blocks@[b as int]@[j2].inode by {
                            if j2 < j {
                                let k0 = choose|k: int|
                                    0 <= k < vpre.len() && (#[trigger] vpre[k]).0@
                                        == inode.blocks@[b as int]@[j2].name_bytes() && vpre[k].1
                                        == inode.blocks@[b as int]@[j2].inode;
                                assert(v@[k0] == vpre[k0]);
                            } else {
                                assert(v@[v@.len() - 1].0@ == inode.blocks@[b as int]@[
                                    j2].name_bytes());
                            }
                        }
                    }
                }
                j = j + 1;
            }
            b = b + 1;
        }
        proof {
            assert forall|b2: int, j2: int|
                0 <= b2 < inode.blocks@.len() && 0 <= j2 < ENTRIES_PER_BLOCK && (
                #[trigger] inode.blocks@[b2]@[j2]).inode != 0 && inode.blocks@[b2]@[j2].length
                    != 0 implies exists|k: int|
                0 <= k < v@.len() && (#[trigger] v@[k]).0@ == inode.blocks@[b2]@[j2].name_bytes()
                    && v@[k].1 == inode.blocks@[b2]@[j2].inode by {
                assert(b2 < b);
            }
            assert(list_matches(*inode, v@));
        }
        Ok(v)
    }
}


impl InodeOps {
    /// Put a fresh entry into the first free slot, or into a fresh block
    /// appended to the directory.
    pub fn append_dir_entry(parent: &mut Inode, entry: DirEntry)
        requires
            old(parent).wf(),
            entry.wf(),
            entry.inode != 0,
            entry.length != 0,
        ensures
            final(parent).wf(),
            final(parent).mode == old(parent).mode,
            final(parent).num == old(parent).num,
            final(parent).permission == old(parent).permission,
            final(parent).last_access == old(parent).last_access,
            final(parent).last_modification == old(parent).last_modification,
            forall|p: (Seq<u8>, u64)|
                final(parent).live_entries().contains(p) == (old(parent).live_entries().contains(
                    p,
                ) || p == (entry.name_bytes(), entry.inode)),
    {
        let ghost pair = (entry.name_bytes(), entry.inode);
        let nb = parent.blocks.len();
        let mut b: usize = 0;
        while b < nb
            invariant
                entry.wf(),
                entry.inode != 0,
                entry.length != 0,
                parent.wf(),
                *parent == *old(parent),
                nb == parent.blocks@.len(),
                0 <= b <= nb,
                forall|b2: int, j2: int|
                    0 <= b2 < b && 0 <= j2 < ENTRIES_PER_BLOCK ==> (
                    #[trigger] parent.blocks@[b2]@[j2]).inode != 0,
            decreases nb - b,
        {
            let blk = &parent.blocks[b];
            let mut j: usize = 0;
            while j < ENTRIES_PER_BLOCK
                invariant
                    entry.wf(),
                    entry.inode != 0,
                    entry.length != 0,
                    parent.wf(),
                    *parent == *old(parent),
                    0 <= b < parent.blocks@.len(),
                    blk == &parent.blocks@[b as int],
                    blk@.len() == ENTRIES_PER_BLOCK,
                    0 <= j <= ENTRIES_PER_BLOCK,
                    forall|j2: int|
                        0 <= j2 < j ==> (#[trigger] parent.blocks@[b as int]@[j2]).inode != 0,
                decreases ENTRIES_PER_BLOCK - j,
            {
                if blk[j].inode == 0 {
                    // a free slot takes the new entry
                    let ghost blocks0 = parent.blocks@;
                    let row = &parent.blocks[b];
                    let mut newrow: Vec<DirEntry> = Vec::new();
                    let mut t: usize = 0;
                    while t < ENTRIES_PER_BLOCK
                        invariant
                            parent.wf(),
                            *parent == *old(parent),
                            parent.blocks@ == blocks0,
                            0 <= b < parent.blocks@.len(),
                            row == &parent.blocks@[b as int],
                            row@.len() == ENTRIES_PER_BLOCK,
                            0 <= j < ENTRIES_PER_BLOCK,
                            entry.wf(),
                            entry.inode != 0,
                            entry.length != 0,
                            newrow@.len() == t,
                            t <= ENTRIES_PER_BLOCK,
                            forall|q: int|
                                0 <= q < t && q != j ==> (#[trigger] newrow@[q]).inode == row@[
                                    q].inode && newrow@[q].length == row@[q].length
                                    && newrow@[q].name@ == row@[q].name@,
                            t as int > j ==> newrow@[j as int].inode == entry.inode && newrow@[
                                j as int].length == entry.length && newrow@[j as int].name@
                                == entry.name@,
                            forall|q: int| 0 <= q < t ==> (#[trigger] newrow@[q]).wf(),
                        decreases ENTRIES_PER_BLOCK - t,
                    {
                        if t == j {
                            newrow.push(entry.duplicate());
                        } else {
                            newrow.push(row[t].duplicate());
                        }
                        t = t + 1;
                    }
                    let ghost old_live = parent.live_entries();
                    parent.blocks.set(b, newrow);
                    proof {
                        lemma_slot_update_live(*old(parent), *parent, b as int, j as int, entry);
                    }
                    return ;
                }
                j = j + 1;
            }
            b = b + 1;
        }
        // no free slot anywhere: open a fresh block
        let ghost before = *parent;
        let mut newrow: Vec<DirEntry> = Vec::new();
        newrow.push(entry.duplicate());
        let mut t: usize = 1;
        while t < ENTRIES_PER_BLOCK
            invariant
                *parent == before,
                before == *old(parent),
                parent.wf(),
                entry.inode != 0,
                entry.length != 0,
                entry.wf(),
                1 <= t <= ENTRIES_PER_BLOCK,
                newrow@.len() == t,
                newrow@[0].inode == entry.inode && newrow@[0].length == entry.length && newrow@[
                    0].name@ == entry.name@,
                forall|q: int| 1 <= q < t ==> (#[trigger] newrow@[q]).inode == 0,
                forall|q: int| 0 <= q < t ==> (#[trigger] newrow@[q]).wf(),
            decreases ENTRIES_PER_BLOCK - t,
        {
            newrow.push(DirEntry::empty());
            t = t + 1;
        }
        parent.blocks.push(newrow);
        proof {
            lemma_block_append_live(before, *parent, entry);
        }
    }
}

/// Replacing the free slot `(b, j)` with a live entry adds exactly that
/// entry's pair to the directory's contents.
proof fn lemma_slot_update_live(p0: Inode, p1: Inode, b: int, j: int, entry: DirEntry)
    requires
        p0.wf(),
        p1.wf(),
        entry.wf(),
        entry.inode != 0,
        entry.length != 0,
        0 <= b < p0.blocks@.len(),
        0 <= j < ENTRIES_PER_BLOCK,
        p0.blocks@[b]@[j].inode == 0,
        p1.blocks@.len() == p0.blocks@.len(),
        forall|b2: int| 0 <= b2 < p0.blocks@.len() && b2 != b ==> p1.blocks@[b2] == p0.blocks@[b2],
        forall|j2: int|
            0 <= j2 < ENTRIES_PER_BLOCK && j2 != j ==> (#[trigger] p1.blocks@[b]@[j2]).inode
                == p0.blocks@[b]@[j2].inode && p1.blocks@[b]@[j2].length == p0.blocks@[b]@[
                j2].length && p1.blocks@[b]@[j2].name@ == p0.blocks@[b]@[j2].name@,
        p1.blocks@[b]@[j].inode == entry.inode,
        p1.blocks@[b]@[j].length == entry.length,
        p1.blocks@[b]@[j].name@ == entry.name@,
    ensures
        forall|p: (Seq<u8>, u64)|
            p1.live_entries().contains(p) == (p0.live_entries().contains(p) || p == (
                entry.name_bytes(),
                entry.inode,
            )),
{
    assert forall|p: (Seq<u8>, u64)|
        p1.live_entries().contains(p) == (p0.live_entries().contains(p) || p == (
            entry.name_bytes(),
            entry.inode,
        )) by {
        if p1.live_entries().contains(p) {
            let (b2, j2) = choose|b2: int, j2: int|
                0 <= b2 < p1.blocks@.len() && 0 <= j2 < ENTRIES_PER_BLOCK && (
                #[trigger] p1.blocks@[b2]@[j2]).inode != 0 && p1.blocks@[b2]@[j2].length != 0
                    && p1.blocks@[b2]@[j2].name_bytes() == p.0 && p1.blocks@[b2]@[j2].inode == p.1;
            if b2 == b && j2 == j {
                assert(p1.blocks@[b]@[j].name_bytes() =~= entry.name_bytes());
                assert(p == (entry.name_bytes(), entry.inode));
            } else {
                assert(p0.blocks@[b2]@[j2].name_bytes() =~= p1.blocks@[b2]@[j2].name_bytes());
                assert(p0.live_entries().contains(p));
            }
        }
        if p0.live_entries().contains(p) {
            let (b2, j2) = choose|b2: int, j2: int|
                0 <= b2 < p0.blocks@.len() && 0 <= j2 < ENTRIES_PER_BLOCK && (
                #[trigger] p0.blocks@[b2]@[j2]).inode != 0 && p0.blocks@[b2]@[j2].length != 0
                    && p0.blocks@[b2]@[j2].name_bytes() == p.0 && p0.blocks@[b2]@[j2].inode == p.1;
            assert(!(b2 == b && j2 == j));
            assert(p1.blocks@[b2]@[j2].name_bytes() =~= p0.blocks@[b2]@[j2].name_bytes());
            assert(p1.live_entries().contains(p));
        }
        if p == (entry.name_bytes(), entry.inode) {
            assert(p1.blocks@[b]@[j].name_bytes() =~= entry.name_bytes());
            assert(p1.live_entries().contains(p));
        }
    }
}

/// Appending a block whose head is a live entry and whose other slots are
/// free adds exactly that entry's pair.
proof fn lemma_block_append_live(p0: Inode, p1: Inode, entry: DirEntry)
    requires
        p0.wf(),
        p1.wf(),
        entry.wf(),
        entry.inode != 0,
        entry.length != 0,
        p1.blocks@.len() == p0.blocks@.len() + 1,
        forall|b2: int| 0 <= b2 < p0.blocks@.len() ==> p1.blocks@[b2] == p0.blocks@[b2],
        p1.blocks@.last()@[0].inode == entry.inode,
        p1.blocks@.last()@[0].length == entry.length,
        p1.blocks@.last()@[0].name@ == entry.name@,
        forall|q: int|
            1 <= q < ENTRIES_PER_BLOCK ==> (#[trigger] p1.blocks@.last()@[q]).inode == 0,
    ensures
        forall|p: (Seq<u8>, u64)|
            p1.live_entries().contains(p) == (p0.live_entries().contains(p) || p == (
                entry.name_bytes(),
                entry.inode,
            )),
{
    let nb = p0.blocks@.len() as int;
    assert forall|p: (Seq<u8>, u64)|
        p1.live_entries().contains(p) == (p0.live_entries().contains(p) || p == (
            entry.name_bytes(),
            entry.inode,
        )) by {
        if p1.live_entries().contains(p) {
            let (b2, j2) = choose|b2: int, j2: int|
                0 <= b2 < p1.blocks@.len() && 0 <= j2 < ENTRIES_PER_BLOCK && (
                #[trigger] p1.blocks@[b2]@[j2]).inode != 0 && p1.blocks@[b2]@[j2].length != 0
                    && p1.blocks@[b2]@[j2].name_bytes() == p.0 && p1.blocks@[b2]@[j2].inode == p.1;
            if b2 == nb {
                assert(j2 == 0);
                assert(p1.blocks@[nb]@[0].name_bytes() =~= entry.name_bytes());
                assert(p == (entry.name_bytes(), entry.inode));
            } else {
                assert(p0.live_entries().contains(p));
            }
        }
        if p0.live_entries().contains(p) {
            let (b2, j2) = choose|b2: int, j2: int|
                0 <= b2 < p0.blocks@.len() && 0 <= j2 < ENTRIES_PER_BLOCK && (
                #[trigger] p0.blocks@[b2]@[j2]).inode != 0 && p0.blocks@[b2]@[j2].length != 0
                    && p0.blocks@[b2]@[j2].name_bytes() == p.0 && p0.blocks@[b2]@[j2].inode == p.1;
            assert(p1.blocks@[b2] == p0.blocks@[b2]);
            assert(p1.live_entries().contains(p));
        }
        if p == (entry.name_bytes(), entry.inode) {
            assert(p1.blocks@[nb]@[0].name_bytes() =~= entry.name_bytes());
            assert(p1.live_entries().contains(p));
        }
    }
}


/// Does the directory hold a live entry with this name?
pub open spec fn has_name(inode: Inode, name: Seq<u8>) -> bool {
    exists|n: u64| inode.live_entries().contains((name, n))
}

impl DirEntry {
    /// Does this slot's name read exactly `name`?
    pub fn name_is(&self, name: &Vec<u8>) -> (r: bool)
        requires
            self.wf(),
        ensures
            r == (self.name_bytes() == name@),
    {
        let n = self.length as usize;
        if n != name.len() {
            proof {
                assert(self.name_bytes().len() == n);
            }
            return false;
        }
        let mut i: usize = 0;
        while i < n
            invariant
                self.wf(),
                n == self.length as int,
                n == name@.len(),
                0 <= i <= n,
                forall|k: int| 0 <= k < i ==> self.name@[k] == name@[k],
            decreases n - i,
        {
            if self.name[i] != name[i] {
                proof {
                    assert(self.name_bytes()[i as int] == self.name@[i as int]);
                }
                return false;
            }
            i = i + 1;
        }
        proof {
            assert(self.name_bytes() =~= name@);
        }
        true
    }
}

impl InodeOps {
    /// Does the directory already hold an entry with this name?
    pub fn dir_contains(parent: &Inode, name: &Vec<u8>) -> (r: bool)
        requires
            parent.wf(),
        ensures
            r == has_name(*parent, name@),
    {
        let mut b: usize = 0;
        while b < parent.blocks.len()
            invariant
                parent.wf(),
                0 <= b <= parent.blocks@.len(),
                forall|b2: int, j2: int|
                    0 <= b2 < b && 0 <= j2 < ENTRIES_PER_BLOCK ==> !((
                    #[trigger] parent.blocks@[b2]@[j2]).inode != 0 && parent.blocks@[b2]@[
                    j2].length != 0 && parent.blocks@[b2]@[j2].name_bytes() == name@),
            decreases parent.blocks@.len() - b,
        {
            let blk = &parent.blocks[b];
            let mut j: usize = 0;
            while j < ENTRIES_PER_BLOCK
                invariant
                    parent.wf(),
                    0 <= b < parent.blocks@.len(),
                    blk == &parent.blocks@[b as int],
                    blk@.len() == ENTRIES_PER_BLOCK,
                    0 <= j <= ENTRIES_PER_BLOCK,
                    forall|b2: int, j2: int|
                        0 <= b2 < b && 0 <= j2 < ENTRIES_PER_BLOCK ==> !((
                        #[trigger] parent.blocks@[b2]@[j2]).inode != 0 && parent.blocks@[b2]@[
                        j2].length != 0 && parent.blocks@[b2]@[j2].name_bytes() == name@),
                    forall|j2: int|
                        0 <= j2 < j ==> !((#[trigger] parent.blocks@[b as int]@[j2]).inode != 0
                            && parent.blocks@[b as int]@[j2].length != 0 && parent.blocks@[
                            b as int]@[j2].name_bytes() == name@),
                decreases ENTRIES_PER_BLOCK - j,
            {
                let e = &blk[j];
                if e.inode != 0 && e.length != 0 && e.name_is(name) {
                    proof {
                        let pair = (name@, parent.blocks@[b as int]@[j as int].inode);
                        assert(parent.live_entries().contains(pair));
                    }
                    return true;
                }
                j = j + 1;
            }
            b = b + 1;
        }
        proof {
            if has_name(*parent, name@) {
                let n = choose|n: u64| parent.live_entries().contains((name@, n));
                let (b2, j2) = choose|b2: int, j2: int|
                    0 <= b2 < parent.blocks@.len() && 0 <= j2 < ENTRIES_PER_BLOCK && (
                    #[trigger] parent.blocks@[b2]@[j2]).inode != 0 && parent.blocks@[b2]@[
                    j2].length != 0 && parent.blocks@[b2]@[j2].name_bytes() == name@
                        && parent.blocks@[b2]@[j2].inode == n;
                assert(false);
            }
        }
        false
    }

    /// Add `dst` to a directory under `name`: refused when the parent is
    /// no directory or already holds the name; otherwise the entry is
    /// appended, the timestamps move to `now`, and the child may inherit
    /// the parent's permissions.
    pub fn add_dir_entry(
        dst: &mut Inode,
        parent: &mut Inode,
        name: &Vec<u8>,
        inherit_permissions: bool,
        now: u64,
    ) -> (r: Result<(), FSError>)
        requires
            old(dst).wf(),
            old(parent).wf(),
            1 <= name@.len() <= NAME_CAP,
            old(dst).num != 0,
        ensures
            final(dst).wf(),
            final(parent).wf(),
            final(dst).num == old(dst).num,
            final(parent).num == old(parent).num,
            final(parent).mode == old(parent).mode,
            final(dst).mode == old(dst).mode,
            ({
                if !old(parent).is_dir() {
                    r == Result::<(), FSError>::Err(FSError::NotDirectory) && *final(dst) == *old(
                        dst,
                    ) && *final(parent) == *old(parent)
                } else if has_name(*old(parent), name@) {
                    r == Result::<(), FSError>::Err(FSError::Exists) && *final(dst) == *old(dst)
                        && *final(parent) == *old(parent)
                } else {
                    &&& r is Ok
                    &&& (forall|p: (Seq<u8>, u64)|
                        final(parent).live_entries().contains(p) == (old(
                            parent,
                        ).live_entries().contains(p) || p == (name@, old(dst).num)))
                    &&& final(dst).last_modification == now
                    &&& final(dst).last_access == now
                    &&& final(parent).last_modification == now
                    &&& final(parent).last_access == now
                    &&& final(dst).permission == (if inherit_permissions {
                        old(parent).permission
                    } else {
                        old(dst).permission
                    })
                    &&& final(dst).blocks@ == old(dst).blocks@
                    &&& final(dst).link_target@ == old(dst).link_target@
                    &&& final(dst).size == old(dst).size
                }
            }),
    {
        if parent.mode != MODE_DIRECTORY {
            return Err(FSError::NotDirectory);
        }
        if Self::dir_contains(parent, name) {
            return Err(FSError::Exists);
        }
        let entry = DirEntry::new(dst.num, name);
        Self::append_dir_entry(parent, entry);
        if inherit_permissions {
            dst.permission = parent.permission;
        }
        dst.last_modification = now;
        dst.last_access = now;
        parent.last_modification = now;
        parent.last_access = now;
        Ok(())
    }

    /// Create a regular file named `name` in the directory.
    pub fn create(dst: &mut Inode, parent: &mut Inode, name: &Vec<u8>, now: u64) -> (r: Result<
        (),
        FSError,
    >)
        requires
            old(dst).wf(),
            old(parent).wf(),
            1 <= name@.len() <= NAME_CAP,
            old(dst).num != 0,
        ensures
            final(dst).wf(),
            final(parent).wf(),
            final(dst).num == old(dst).num,
            final(parent).num == old(parent).num,
            r is Ok <==> old(parent).is_dir() && !has_name(*old(parent), name@),
            r is Ok ==> final(dst).last_access == now && final(dst).last_modification == now
                && final(parent).last_access == now && final(parent).last_modification == now,
            r is Ok ==> final(dst).mode == MODE_REGULAR_FILE && (forall|p: (Seq<u8>, u64)|
                final(parent).live_entries().contains(p) == (old(parent).live_entries().contains(
                    p,
                ) || p == (name@, old(dst).num))),
            !old(parent).is_dir() ==> r == Result::<(), FSError>::Err(FSError::NotDirectory),
            old(parent).is_dir() && has_name(*old(parent), name@) ==> r == Result::<
                (),
                FSError,
            >::Err(FSError::Exists),
    {
        let r = Self::add_dir_entry(dst, parent, name, true, now);
        if r.is_ok() {
            dst.mode = MODE_REGULAR_FILE;
        }
        r
    }

    /// Create a directory named `name` in the directory.
    pub fn mkdir(dst: &mut Inode, parent: &mut Inode, name: &Vec<u8>, now: u64) -> (r: Result<
        (),
        FSError,
    >)
        requires
            old(dst).wf(),
            old(parent).wf(),
            1 <= name@.len() <= NAME_CAP,
            old(dst).num != 0,
        ensures
            final(dst).wf(),
            final(parent).wf(),
            final(dst).num == old(dst).num,
            final(parent).num == old(parent).num,
            r is Ok <==> old(parent).is_dir() && !has_name(*old(parent), name@),
            r is Ok ==> final(dst).last_access == now && final(dst).last_modification == now
                && final(parent).last_access == now && final(parent).last_modification == now,
            r is Ok ==> final(dst).mode == MODE_DIRECTORY && (forall|p: (Seq<u8>, u64)|
                final(parent).live_entries().contains(p) == (old(parent).live_entries().contains(
                    p,
                ) || p == (name@, old(dst).num))),
    {
        let r = Self::add_dir_entry(dst, parent, name, true, now);
        if r.is_ok() {
            dst.mode = MODE_DIRECTORY;
        }
        r
    }

    /// Create a hard link to `src` under `name`; permissions are not
    /// inherited.
    pub fn link(src: &mut Inode, parent: &mut Inode, name: &Vec<u8>, now: u64) -> (r: Result<
        (),
        FSError,
    >)
        requires
            old(src).wf(),
            old(parent).wf(),
            1 <= name@.len() <= NAME_CAP,
            old(src).num != 0,
        ensures
            final(src).wf(),
            final(parent).wf(),
            final(src).num == old(src).num,
            final(parent).num == old(parent).num,
            r is Ok <==> old(parent).is_dir() && !has_name(*old(parent), name@),
            r is Ok ==> final(src).last_access == now && final(src).last_modification == now
                && final(parent).last_access == now && final(parent).last_modification == now,
            r is Ok ==> final(src).mode == old(src).mode && (forall|p: (Seq<u8>, u64)|
                final(parent).live_entries().contains(p) == (old(parent).live_entries().contains(
                    p,
                ) || p == (name@, old(src).num))),
    {
        Self::add_dir_entry(src, parent, name, false, now)
    }

    /// Create a symbolic link to `target` under `name`: the target's
    /// bytes are stored with the inode, and a target longer than a block
    /// is refused.
    pub fn symlink(
        dst: &mut Inode,
        parent: &mut Inode,
        target: &Vec<u8>,
        name: &Vec<u8>,
        now: u64,
    ) -> (r: Result<(), FSError>)
        requires
            old(dst).wf(),
            old(parent).wf(),
            1 <= name@.len() <= NAME_CAP,
            old(dst).num != 0,
        ensures
            final(dst).wf(),
            final(parent).wf(),
            final(dst).num == old(dst).num,
            final(parent).num == old(parent).num,
            r is Ok ==> final(dst).last_access == now && final(dst).last_modification == now
                && final(parent).last_access == now && final(parent).last_modification == now,
            target@.len() > BLOCK_SIZE && old(parent).is_dir() && !has_name(*old(parent), name@)
                ==> r == Result::<(), FSError>::Err(FSError::BadPath),
            r is Ok <==> old(parent).is_dir() && !has_name(*old(parent), name@) && target@.len()
                <= BLOCK_SIZE,
            r is Ok ==> final(dst).mode == MODE_SYMBOLIC_LINK && final(dst).link_target@
                == target@ && final(dst).size == target@.len() && (forall|p: (Seq<u8>, u64)|
                final(parent).live_entries().contains(p) == (old(parent).live_entries().contains(
                    p,
                ) || p == (name@, old(dst).num))),
    {
        let r = Self::add_dir_entry(dst, parent, name, true, now);
        match r {
            Err(e) => Err(e),
            Ok(_) => {
                if target.len() > BLOCK_SIZE {
                    return Err(FSError::BadPath);
                }
                dst.mode = MODE_SYMBOLIC_LINK;
                dst.size = target.len() as u64;
                let mut copy: Vec<u8> = Vec::new();
                let mut i: usize = 0;
                while i < target.len()
                    invariant
                        i <= target@.len(),
                        copy@ == target@.take(i as int),
                    decreases target@.len() - i,
                {
                    copy.push(target[i]);
                    proof {
                        assert(copy@ =~= target@.take(i as int + 1));
                    }
                    i = i + 1;
                }
                proof {
                    assert(target@.take(target@.len() as int) =~= target@);
                }
                dst.link_target = copy;
                Ok(())
            },
        }
    }

    /// Unlinking is not supported until its design settles.
    pub fn unlink(dst: &mut Inode, parent: &mut Inode) -> (r: Result<(), FSError>)
        ensures
            r == Result::<(), FSError>::Err(FSError::NotSupported),
            *final(dst) == *old(dst),
            *final(parent) == *old(parent),
    {
        let _ = dst;
        let _ = parent;
        Err(FSError::NotSupported)
    }

    /// Renaming is not supported until its design settles.
    pub fn rename(src: &mut Inode, dst_parent: &mut Inode) -> (r: Result<(), FSError>)
        ensures
            r == Result::<(), FSError>::Err(FSError::NotSupported),
            *final(src) == *old(src),
            *final(dst_parent) == *old(dst_parent),
    {
        let _ = src;
        let _ = dst_parent;
        Err(FSError::NotSupported)
    }
}


impl InodeOps {
    /// The inode number a name maps to in this directory, if any.
    pub fn dir_lookup(parent: &Inode, name: &Vec<u8>) -> (r: Option<u64>)
        requires
            parent.wf(),
        ensures
            ({
                match r {
                    Some(n) => parent.live_entries().contains((name@, n)),
                    None => !has_name(*parent, name@),
                }
            }),
    {
        let mut b: usize = 0;
        while b < parent.blocks.len()
            invariant
                parent.wf(),
                0 <= b <= parent.blocks@.len(),
                forall|b2: int, j2: int|
                    0 <= b2 < b && 0 <= j2 < ENTRIES_PER_BLOCK ==> !((
                    #[trigger] parent.blocks@[b2]@[j2]).inode != 0 && parent.blocks@[b2]@[
                    j2].length != 0 && parent.blocks@[b2]@[j2].name_bytes() == name@),
            decreases parent.blocks@.len() - b,
        {
            let blk = &parent.blocks[b];
            let mut j: usize = 0;
            while j < ENTRIES_PER_BLOCK
                invariant
                    parent.wf(),
                    0 <= b < parent.blocks@.len(),
                    blk == &parent.blocks@[b as int],
                    blk@.len() == ENTRIES_PER_BLOCK,
                    0 <= j <= ENTRIES_PER_BLOCK,
                    forall|b2: int, j2: int|
                        0 <= b2 < b && 0 <= j2 < ENTRIES_PER_BLOCK ==> !((
                        #[trigger] parent.blocks@[b2]@[j2]).inode != 0 && parent.blocks@[b2]@[
                        j2].length != 0 && parent.blocks@[b2]@[j2].name_bytes() == name@),
                    forall|j2: int|
                        0 <= j2 < j ==> !((#[trigger] parent.blocks@[b as int]@[j2]).inode != 0
                            && parent.blocks@[b as int]@[j2].length != 0 && parent.blocks@[
                            b as int]@[j2].name_bytes() == name@),
                decreases ENTRIES_PER_BLOCK - j,
            {
                let e = &blk[j];
                if e.inode != 0 && e.length != 0 && e.name_is(name) {
                    proof {
                        let pair = (name@, parent.blocks@[b as int]@[j as int].inode);
                        assert(parent.live_entries().contains(pair));
                    }
                    return Some(e.inode);
                }
                j = j + 1;
            }
            b = b + 1;
        }
        proof {
            if has_name(*parent, name@) {
                let n = choose|n: u64| parent.live_entries().contains((name@, n));
                let (b2, j2) = choose|b2: int, j2: int|
                    0 <= b2 < parent.blocks@.len() && 0 <= j2 < ENTRIES_PER_BLOCK && (
                    #[trigger] parent.blocks@[b2]@[j2]).inode != 0 && parent.blocks@[b2]@[
                    j2].length != 0 && parent.blocks@[b2]@[j2].name_bytes() == name@
                        && parent.blocks@[b2]@[j2].inode == n;
                assert(false);
            }
        }
        None
    }
}


impl Inode {
    /// A deep copy of this inode.
    pub fn duplicate_inode(&self) -> (r: Inode)
        requires
            self.wf(),
        ensures
            r.wf(),
            r.mode == self.mode,
            r.permission == self.permission,
            r.num == self.num,
            r.size == self.size,
            r.nlink == self.nlink,
            r.link_target@ == self.link_target@,
            r.last_access == self.last_access,
            r.creation_time == self.creation_time,
            r.last_modification == self.last_modification,
            r.blocks@.len() == self.blocks@.len(),
            forall|b: int, j: int|
                0 <= b < self.blocks@.len() && 0 <= j < ENTRIES_PER_BLOCK ==> (
                #[trigger] r.blocks@[b]@[j]).inode == self.blocks@[b]@[j].inode && r.blocks@[b]@[
                j].length == self.blocks@[b]@[j].length && r.blocks@[b]@[j].name@
                == self.blocks@[b]@[j].name@,
            forall|p: (Seq<u8>, u64)| r.live_entries().contains(p) == self.live_entries().contains(
                p,
            ),
    {
        let mut blocks: Vec<Vec<DirEntry>> = Vec::new();
        let mut b: usize = 0;
        while b < self.blocks.len()
            invariant
                self.wf(),
                0 <= b <= self.blocks@.len(),
                blocks@.len() == b,
                forall|b2: int, j: int|
                    0 <= b2 < b && 0 <= j < ENTRIES_PER_BLOCK ==> (
                    #[trigger] blocks@[b2]@[j]).inode == self.blocks@[b2]@[j].inode && blocks@[
                    b2]@[j].length == self.blocks@[b2]@[j].length && blocks@[b2]@[j].name@
                    == self.blocks@[b2]@[j].name@,
                forall|b2: int|
                    0 <= b2 < b ==> (#[trigger] blocks@[b2]).len() == ENTRIES_PER_BLOCK,
                forall|b2: int, j: int|
                    0 <= b2 < b && 0 <= j < ENTRIES_PER_BLOCK ==> (
                    #[trigger] blocks@[b2]@[j]).wf(),
            decreases self.blocks@.len() - b,
        {
            let row = &self.blocks[b];
            let mut newrow: Vec<DirEntry> = Vec::new();
            let mut j: usize = 0;
            while j < ENTRIES_PER_BLOCK
                invariant
                    self.wf(),
                    0 <= b < self.blocks@.len(),
                    row == &self.blocks@[b as int],
                    row@.len() == ENTRIES_PER_BLOCK,
                    newrow@.len() == j,
                    j <= ENTRIES_PER_BLOCK,
                    forall|q: int|
                        0 <= q < j ==> (#[trigger] newrow@[q]).inode == row@[q].inode && newrow@[
                            q].length == row@[q].length && newrow@[q].name@ == row@[q].name@,
                    forall|q: int| 0 <= q < j ==> (#[trigger] newrow@[q]).wf(),
                decreases ENTRIES_PER_BLOCK - j,
            {
                newrow.push(row[j].duplicate());
                j = j + 1;
            }
            blocks.push(newrow);
            b = b + 1;
        }
        let mut link_target: Vec<u8> = Vec::new();
        let mut t: usize = 0;
        while t < self.link_target.len()
            invariant
                t <= self.link_target@.len(),
                link_target@ == self.link_target@.take(t as int),
            decreases self.link_target@.len() - t,
        {
            link_target.push(self.link_target[t]);
            proof {
                assert(link_target@ =~= self.link_target@.take(t as int + 1));
            }
            t = t + 1;
        }
        proof {
            assert(self.link_target@.take(self.link_target@.len() as int) =~= self.link_target@);
        }
        let r = Inode {
            mode: self.mode,
            permission: self.permission,
            user_id: self.user_id,
            group_id: self.group_id,
            num: self.num,
            size: self.size,
            nlink: self.nlink,
            blocks,
            link_target,
            last_access: self.last_access,
            creation_time: self.creation_time,
            last_modification: self.last_modification,
        };
        proof {
            assert forall|p: (Seq<u8>, u64)| r.live_entries().contains(p)
                == self.live_entries().contains(p) by {
                if r.live_entries().contains(p) {
                    let (b2, j2) = choose|b2: int, j2: int|
                        0 <= b2 < r.blocks@.len() && 0 <= j2 < ENTRIES_PER_BLOCK && (
                        #[trigger] r.blocks@[b2]@[j2]).inode != 0 && r.blocks@[b2]@[j2].length
                            != 0 && r.blocks@[b2]@[j2].name_bytes() == p.0 && r.blocks@[b2]@[
                        j2].inode == p.1;
                    assert(self.blocks@[b2]@[j2].name_bytes() =~= r.blocks@[b2]@[j2].name_bytes());
                    assert(self.live_entries().contains(p));
                }
                if self.live_entries().contains(p) {
                    let (b2, j2) = choose|b2: int, j2: int|
                        0 <= b2 < self.blocks@.len() && 0 <= j2 < ENTRIES_PER_BLOCK && (
                        #[trigger] self.blocks@[b2]@[j2]).inode != 0 && self.blocks@[b2]@[
                        j2].length != 0 && self.blocks@[b2]@[j2].name_bytes() == p.0
                            && self.blocks@[b2]@[j2].inode == p.1;
                    assert(r.blocks@[b2]@[j2].name_bytes() =~= self.blocks@[b2]@[j2].name_bytes());
                    assert(r.live_entries().contains(p));
                }
            }
        }
        r
    }
}

} // verus!

