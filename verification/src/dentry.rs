//! The directory-entry cache.
//!
//! Lookups by canonical path hit a flat table of entries, each stamped
//! with the tick of its last access.  A lookup that misses walks the
//! path's ancestors to the nearest cached entry and fills the gap by
//! listing each intermediate directory.  When the cache is full, the
//! entry touched longest ago is evicted, except for the mount roots,
//! which are pinned; ties go to the oldest position.

use vstd::prelude::*;
use crate::path::{Path, str_eq};
use crate::pathbuf::PathBuf;
use crate::components::{Component, State};
use crate::vfs::FSError;
use crate::ramfs::{SuperBlock, InodeOps};

verus! {

/// A cached association of a canonical path with an inode of a mounted
/// filesystem.
pub struct DEntry {
    pub name: String,
    pub inode_num: u64,
    pub fs: u64,
}

impl DEntry {
    pub fn new(name: String, inode_num: u64, fs: u64) -> (r: DEntry)
        ensures
            r.name@ == name@,
            r.inode_num == inode_num,
            r.fs == fs,
    {
        DEntry { name, inode_num, fs }
    }

    /// A copy of this entry.
    pub fn duplicate(&self) -> (r: DEntry)
        ensures
            r.name@ == self.name@,
            r.inode_num == self.inode_num,
            r.fs == self.fs,
    {
        DEntry { name: self.name.clone(), inode_num: self.inode_num, fs: self.fs }
    }
}

/// The mount table: the canonical paths the mounted filesystems' roots
/// live at, by filesystem id.
pub struct Mounts {
    pub roots: Vec<DEntry>,
}

/// Is this path the root of some mount?
pub open spec fn is_mount_path(ms: Mounts, name: Seq<char>) -> bool {
    exists|i: int| 0 <= i < ms.roots@.len() && (#[trigger] ms.roots@[i]).name@ == name
}

impl Mounts {
    pub fn new() -> (r: Mounts)
        ensures
            r.roots@.len() == 0,
    {
        Mounts { roots: Vec::new() }
    }

    /// Record a mounted filesystem's root.
    pub fn mount_fs(&mut self, root: DEntry)
        ensures
            final(self).roots@.len() == old(self).roots@.len() + 1,
            final(self).roots@.last() == root,
            forall|i: int|
                0 <= i < old(self).roots@.len() ==> final(self).roots@[i] == old(self).roots@[i],
    {
        self.roots.push(root);
    }

    /// Is this path the root of some mount?
    pub fn is_mount_path(&self, path: &str) -> (r: bool)
        ensures
            r == is_mount_path(*self, path@),
    {
        let mut i: usize = 0;
        while i < self.roots.len()
            invariant
                0 <= i <= self.roots@.len(),
                forall|j: int| 0 <= j < i ==> (#[trigger] self.roots@[j]).name@ != path@,
            decreases self.roots@.len() - i,
        {
            if str_eq(self.roots[i].name.as_str(), path) {
                return true;
            }
            i = i + 1;
        }
        false
    }
}

/// One cache slot: the entry and the tick it was last touched.
pub struct CEntry {
    pub dentry: DEntry,
    pub last_access: u64,
}

/// The first cache slot holding a path, if any.
pub open spec fn find_path(es: Seq<CEntry>, name: Seq<char>) -> Option<int>
    decreases es.len(),
{
    if es.len() == 0 {
        None
    } else if es[0].dentry.name@ == name {
        Some(0)
    } else {
        match find_path(es.drop_first(), name) {
            None => None,
            Some(i) => Some(i + 1),
        }
    }
}

proof fn lemma_find_path(es: Seq<CEntry>, name: Seq<char>)
    ensures
        ({
            match find_path(es, name) {
                Some(i) => 0 <= i < es.len() && es[i].dentry.name@ == name && forall|j: int|
                    0 <= j < i ==> (#[trigger] es[j]).dentry.name@ != name,
                None => forall|j: int| 0 <= j < es.len() ==> (#[trigger] es[j]).dentry.name@
                    != name,
            }
        }),
    decreases es.len(),
{
    if es.len() == 0 {
    } else if es[0].dentry.name@ == name {
    } else {
        lemma_find_path(es.drop_first(), name);
        match find_path(es.drop_first(), name) {
            None => {
                assert forall|j: int| 0 <= j < es.len() implies (#[trigger] es[j]).dentry.name@
                    != name by {
                    if j > 0 {
                        assert(es.drop_first()[j - 1] == es[j]);
                    }
                }
            },
            Some(i) => {
                assert(es.drop_first()[i] == es[i + 1]);
                assert forall|j: int| 0 <= j < i + 1 implies (#[trigger] es[j]).dentry.name@
                    != name by {
                    if j > 0 {
                        assert(es.drop_first()[j - 1] == es[j]);
                    }
                }
            },
        }
    }
}

/// The cache of directory entries, bounded by `cap`.
pub struct DirectoryCache {
    pub entries: Vec<CEntry>,
    pub cap: usize,
}

impl DirectoryCache {
    pub fn new(cap: usize) -> (r: DirectoryCache)
        ensures
            r.entries@.len() == 0,
            r.cap == cap,
    {
        DirectoryCache { entries: Vec::new(), cap }
    }

    /// Look a path up; a hit stamps the slot's access time and hands the
    /// entry back unchanged.
    pub fn get_opt(&mut self, path: &str, now: u64) -> (r: Option<DEntry>)
        ensures
            final(self).cap == old(self).cap,
            ({
                match find_path(old(self).entries@, path@) {
                    Some(i) => {
                        &&& r matches Some(d) && d.name@ == old(self).entries@[i].dentry.name@ && d.inode_num == old(self).entries@[i].dentry.inode_num && d.fs == old(self).entries@[i].dentry.fs
                        &&& final(self).entries@.len() == old(self).entries@.len()
                        &&& final(self).entries@[i].last_access == now
                        &&& final(self).entries@[i].dentry.name@ == old(self).entries@[i].dentry.name@
                        &&& final(self).entries@[i].dentry.inode_num == old(self).entries@[i].dentry.inode_num
                        &&& final(self).entries@[i].dentry.fs == old(self).entries@[i].dentry.fs
                        &&& forall|j: int|
                            0 <= j < old(self).entries@.len() && j != i ==> final(self).entries@[j] == old(self).entries@[j]
                    },
                    None => r is None && *final(self) == *old(self),
                }
            }),
    {
        proof {
            lemma_find_path(self.entries@, path@);
        }
        let n = self.entries.len();
        let mut i: usize = 0;
        while i < n
            invariant
                *self == *old(self),
                n == self.entries@.len(),
                0 <= i <= n,
                forall|j: int| 0 <= j < i ==> (#[trigger] self.entries@[j]).dentry.name@ != path@,
            decreases n - i,
        {
            if str_eq(self.entries[i].dentry.name.as_str(), path) {
                let d = self.entries[i].dentry.duplicate();
                let stamped = CEntry { dentry: self.entries[i].dentry.duplicate(), last_access: now };
                self.entries.set(i, stamped);
                proof {
                    lemma_find_path(old(self).entries@, path@);
                }
                return Some(d);
            }
            i = i + 1;
        }
        None
    }

    /// Drop the entry touched longest ago among those not pinned by a
    /// mount; the lowest slot wins a tie.  With every entry pinned,
    /// nothing is dropped.
    pub fn evict_entry(&mut self, mounts: &Mounts)
        ensures
            final(self).cap == old(self).cap,
            ({
                let es = old(self).entries@;
                if exists|i: int|
                    0 <= i < es.len() && !is_mount_path(*mounts, (#[trigger] es[i]).dentry.name@) {
                    exists|i: int|
                        {
                            &&& 0 <= i < es.len()
                            &&& !is_mount_path(*mounts, (#[trigger] es[i]).dentry.name@)
                            &&& (forall|j: int|
                                0 <= j < es.len() && !is_mount_path(
                                    *mounts,
                                    (#[trigger] es[j]).dentry.name@,
                                ) ==> es[i].last_access <= es[j].last_access)
                            &&& (forall|j: int|
                                0 <= j < i && !is_mount_path(
                                    *mounts,
                                    (#[trigger] es[j]).dentry.name@,
                                ) ==> es[j].last_access > es[i].last_access)
                            &&& final(self).entries@ == es.remove(i)
                        }
                } else {
                    *final(self) == *old(self)
                }
            }),
    {
        let n = self.entries.len();
        let mut best: usize = 0;
        let mut found = false;
        let mut i: usize = 0;
        while i < n
            invariant
                *self == *old(self),
                n == self.entries@.len(),
                0 <= i <= n,
                found ==> 0 <= best < i && !is_mount_path(
                    *mounts,
                    self.entries@[best as int].dentry.name@,
                ) && (forall|j: int|
                    0 <= j < i && !is_mount_path(*mounts, (#[trigger] self.entries@[j]).dentry.name@)
                        ==> self.entries@[best as int].last_access <= self.entries@[j].last_access)
                    && (forall|j: int|
                    0 <= j < best && !is_mount_path(
                        *mounts,
                        (#[trigger] self.entries@[j]).dentry.name@,
                    ) ==> self.entries@[j].last_access > self.entries@[best as int].last_access),
                !found ==> forall|j: int|
                    0 <= j < i ==> is_mount_path(*mounts, (#[trigger] self.entries@[j]).dentry.name@),
            decreases n - i,
        {
            if !mounts.is_mount_path(self.entries[i].dentry.name.as_str()) {
                if !found || self.entries[i].last_access < self.entries[best].last_access {
                    best = i;
                    found = true;
                }
            }
            i = i + 1;
        }
        if found {
            let _ = self.entries.remove(best);
        }
    }

    /// Put an entry in.  A path already cached is overwritten in place;
    /// a new path is appended, evicting the least-recently-used
    /// non-mount entry first when the cache is full.
    pub fn insert_entry(&mut self, dentry: DEntry, now: u64, mounts: &Mounts)
        ensures
            final(self).cap == old(self).cap,
            ({
                let es = old(self).entries@;
                match find_path(es, dentry.name@) {
                    Some(i) => {
                        &&& final(self).entries@.len() == es.len()
                        &&& final(self).entries@[i].dentry.name@ == dentry.name@
                        &&& final(self).entries@[i].dentry.inode_num == dentry.inode_num
                        &&& final(self).entries@[i].dentry.fs == dentry.fs
                        &&& final(self).entries@[i].last_access == now
                        &&& (forall|j: int|
                            0 <= j < es.len() && j != i ==> final(self).entries@[j] == es[j])
                    },
                    None => {
                        &&& final(self).entries@.len() > 0
                        &&& final(self).entries@.last().dentry.name@ == dentry.name@
                        &&& final(self).entries@.last().dentry.inode_num == dentry.inode_num
                        &&& final(self).entries@.last().dentry.fs == dentry.fs
                        &&& final(self).entries@.last().last_access == now
                        &&& (if es.len() < old(self).cap {
                            final(self).entries@.drop_last() == es
                        } else if exists|i: int|
                            0 <= i < es.len() && !is_mount_path(
                                *mounts,
                                (#[trigger] es[i]).dentry.name@,
                            ) {
                            exists|i: int|
                                {
                                    &&& 0 <= i < es.len()
                                    &&& !is_mount_path(*mounts, (#[trigger] es[i]).dentry.name@)
                                    &&& (forall|j: int|
                                        0 <= j < es.len() && !is_mount_path(
                                            *mounts,
                                            (#[trigger] es[j]).dentry.name@,
                                        ) ==> es[i].last_access <= es[j].last_access)
                                    &&& (forall|j: int|
                                        0 <= j < i && !is_mount_path(
                                            *mounts,
                                            (#[trigger] es[j]).dentry.name@,
                                        ) ==> es[j].last_access > es[i].last_access)
                                    &&& final(self).entries@.drop_last() == es.remove(i)
                                }
                        } else {
                            final(self).entries@.drop_last() == es
                        })
                    },
                }
            }),
    {
        proof {
            lemma_find_path(self.entries@, dentry.name@);
        }
        // a cached path is replaced in place, as a map insert would
        let n = self.entries.len();
        let mut i: usize = 0;
        while i < n
            invariant
                *self == *old(self),
                n == self.entries@.len(),
                0 <= i <= n,
                forall|j: int|
                    0 <= j < i ==> (#[trigger] self.entries@[j]).dentry.name@ != dentry.name@,
            decreases n - i,
        {
            if str_eq(self.entries[i].dentry.name.as_str(), dentry.name.as_str()) {
                self.entries.set(i, CEntry { dentry, last_access: now });
                proof {
                    lemma_find_path(old(self).entries@, dentry.name@);
                }
                return ;
            }
            i = i + 1;
        }
        if n >= self.cap {
            self.evict_entry(mounts);
        }
        self.entries.push(CEntry { dentry, last_access: now });
        proof {
            assert(self.entries@.drop_last() =~= self.entries@.subrange(
                0,
                self.entries@.len() - 1,
            ));
        }
    }

    /// Cache a mount's root: inserted, or overwritten where the path is
    /// already cached.
    pub fn mount(&mut self, dentry: DEntry, now: u64, mounts: &Mounts)
        ensures
            final(self).cap == old(self).cap,
            exists|i: int|
                0 <= i < final(self).entries@.len() && (
                #[trigger] final(self).entries@[i]).dentry.name@ == dentry.name@ && final(self).entries@[i].dentry.inode_num == dentry.inode_num && final(self).entries@[i].dentry.fs == dentry.fs && final(self).entries@[i].last_access
                    == now,
    {
        proof {
            lemma_find_path(self.entries@, dentry.name@);
        }
        self.insert_entry(dentry.duplicate(), now, mounts);
        proof {
            match find_path(old(self).entries@, dentry.name@) {
                Some(i) => {
                    assert(0 <= i < self.entries@.len() && self.entries@[i].dentry.name@
                        == dentry.name@ && self.entries@[i].dentry.inode_num
                        == dentry.inode_num && self.entries@[i].dentry.fs == dentry.fs
                        && self.entries@[i].last_access == now);
                },
                None => {
                    let i = self.entries@.len() - 1;
                    assert(0 <= i < self.entries@.len() && self.entries@[i].dentry.name@
                        == dentry.name@ && self.entries@[i].dentry.inode_num
                        == dentry.inode_num && self.entries@[i].dentry.fs == dentry.fs
                        && self.entries@[i].last_access == now);
                },
            }
        }
    }

    /// A slot whose entry reads the same as another, tick included.
    pub open spec fn slot_like(a: CEntry, b: CEntry) -> bool {
        &&& a.dentry.name@ == b.dentry.name@
        &&& a.dentry.inode_num == b.dentry.inode_num
        &&& a.dentry.fs == b.dentry.fs
        &&& a.last_access == b.last_access
    }

    /// Remove a path from the cache; every other entry survives intact.
    pub fn delete(&mut self, path: &str)
        ensures
            final(self).cap == old(self).cap,
            forall|j: int|
                0 <= j < final(self).entries@.len() ==> (
                #[trigger] final(self).entries@[j]).dentry.name@ != path@,
            forall|i: int|
                0 <= i < old(self).entries@.len() && (#[trigger] old(self).entries@[i]).dentry.name@
                    != path@ ==> exists|j: int|
                    0 <= j < final(self).entries@.len() && Self::slot_like(
                        #[trigger] final(self).entries@[j],
                        old(self).entries@[i],
                    ),
            final(self).entries@.len() <= old(self).entries@.len(),
    {
        let mut kept: Vec<CEntry> = Vec::new();
        let n = self.entries.len();
        let mut i: usize = 0;
        while i < n
            invariant
                *self == *old(self),
                n == self.entries@.len(),
                0 <= i <= n,
                forall|j: int|
                    0 <= j < kept@.len() ==> (#[trigger] kept@[j]).dentry.name@ != path@,
                forall|i2: int|
                    0 <= i2 < i && (#[trigger] self.entries@[i2]).dentry.name@ != path@
                        ==> exists|j: int|
                        0 <= j < kept@.len() && Self::slot_like(
                            #[trigger] kept@[j],
                            self.entries@[i2],
                        ),
                kept@.len() <= i,
            decreases n - i,
        {
            let ghost kpre = kept@;
            if !str_eq(self.entries[i].dentry.name.as_str(), path) {
                let d = CEntry {
                    dentry: self.entries[i].dentry.duplicate(),
                    last_access: self.entries[i].last_access,
                };
                kept.push(d);
                proof {
                    assert(Self::slot_like(kept@.last(), self.entries@[i as int]));
                }
            }
            proof {
                assert forall|i2: int|
                    0 <= i2 < i + 1 && (#[trigger] self.entries@[i2]).dentry.name@ != path@
                        implies exists|j: int|
                    0 <= j < kept@.len() && Self::slot_like(
                        #[trigger] kept@[j],
                        self.entries@[i2],
                    ) by {
                    if i2 < i {
                        let j0 = choose|j: int|
                            0 <= j < kpre.len() && Self::slot_like(
                                #[trigger] kpre[j],
                                self.entries@[i2],
                            );
                        assert(kept@[j0] == kpre[j0]);
                    } else {
                        assert(Self::slot_like(kept@[kept@.len() - 1], self.entries@[i2]));
                    }
                }
            }
            i = i + 1;
        }
        let ghost kfin = kept@;
        let ghost pre = self.entries@;
        self.entries = kept;
        proof {
            assert(self.entries@ == kfin);
            assert(pre == old(self).entries@);
            assert forall|j: int, i2: int|
                0 <= j < kfin.len() && 0 <= i2 < pre.len() && Self::slot_like(
                    #[trigger] kfin[j],
                    #[trigger] pre[i2],
                ) implies Self::slot_like(self.entries@[j], pre[i2]) by {
                assert(self.entries@[j] == kfin[j]);
            }
        }
    }

    /// Remove every entry of a filesystem; the others survive intact.
    pub fn unmount(&mut self, fs: u64)
        ensures
            final(self).cap == old(self).cap,
            forall|j: int|
                0 <= j < final(self).entries@.len() ==> (
                #[trigger] final(self).entries@[j]).dentry.fs != fs,
            forall|i: int|
                0 <= i < old(self).entries@.len() && (#[trigger] old(self).entries@[i]).dentry.fs
                    != fs ==> exists|j: int|
                    0 <= j < final(self).entries@.len() && Self::slot_like(
                        #[trigger] final(self).entries@[j],
                        old(self).entries@[i],
                    ),
            final(self).entries@.len() <= old(self).entries@.len(),
    {
        let mut kept: Vec<CEntry> = Vec::new();
        let n = self.entries.len();
        let mut i: usize = 0;
        while i < n
            invariant
                *self == *old(self),
                n == self.entries@.len(),
                0 <= i <= n,
                forall|j: int| 0 <= j < kept@.len() ==> (#[trigger] kept@[j]).dentry.fs != fs,
                forall|i2: int|
                    0 <= i2 < i && (#[trigger] self.entries@[i2]).dentry.fs != fs
                        ==> exists|j: int|
                        0 <= j < kept@.len() && Self::slot_like(
                            #[trigger] kept@[j],
                            self.entries@[i2],
                        ),
                kept@.len() <= i,
            decreases n - i,
        {
            let ghost kpre = kept@;
            if self.entries[i].dentry.fs != fs {
                let d = CEntry {
                    dentry: self.entries[i].dentry.duplicate(),
                    last_access: self.entries[i].last_access,
                };
                kept.push(d);
                proof {
                    assert(Self::slot_like(kept@.last(), self.entries@[i as int]));
                }
            }
            proof {
                assert forall|i2: int|
                    0 <= i2 < i + 1 && (#[trigger] self.entries@[i2]).dentry.fs != fs
                        implies exists|j: int|
                    0 <= j < kept@.len() && Self::slot_like(
                        #[trigger] kept@[j],
                        self.entries@[i2],
                    ) by {
                    if i2 < i {
                        let j0 = choose|j: int|
                            0 <= j < kpre.len() && Self::slot_like(
                                #[trigger] kpre[j],
                                self.entries@[i2],
                            );
                        assert(kept@[j0] == kpre[j0]);
                    } else {
                        assert(Self::slot_like(kept@[kept@.len() - 1], self.entries@[i2]));
                    }
                }
            }
            i = i + 1;
        }
        let ghost kfin = kept@;
        let ghost pre = self.entries@;
        self.entries = kept;
        proof {
            assert(self.entries@ == kfin);
            assert(pre == old(self).entries@);
            assert forall|j: int, i2: int|
                0 <= j < kfin.len() && 0 <= i2 < pre.len() && Self::slot_like(
                    #[trigger] kfin[j],
                    #[trigger] pre[i2],
                ) implies Self::slot_like(self.entries@[j], pre[i2]) by {
                assert(self.entries@[j] == kfin[j]);
            }
        }
    }

    /// Refresh a cached entry from its superblock: gone from the
    /// filesystem, it leaves the cache too.
    pub fn reload(&mut self, dentry: &DEntry, sb: &SuperBlock)
        requires
            sb.wf(),
        ensures
            final(self).cap == old(self).cap,
            (dentry.inode_num as int) >= sb.inodes@.len() ==> forall|j: int|
                0 <= j < final(self).entries@.len() ==> (
                #[trigger] final(self).entries@[j]).dentry.name@ != dentry.name@,
            (dentry.inode_num as int) < sb.inodes@.len() ==> *final(self) == *old(self),
    {
        let gone = match sb.get_inode(dentry.inode_num) {
            Some(_) => false,
            None => true,
        };
        if gone {
            self.delete(dentry.name.as_str());
        }
    }

    /// Look a path up, filling the cache from the nearest cached ancestor
    /// when it misses.  A hit hands back exactly the cached entry.
    pub fn get(&mut self, path: &str, now: u64, sb: &SuperBlock, mounts: &Mounts) -> (r: Result<
        DEntry,
        FSError,
    >)
        requires
            sb.wf(),
            find_path(old(self).entries@, seq!['/']) is Some,
        ensures
            final(self).cap == old(self).cap,
            ({
                match find_path(old(self).entries@, path@) {
                    Some(i) => {
                        // a hit returns the cached entry unchanged, stamps
                        // its access time, and touches nothing else
                        &&& r matches Ok(d) && d.name@ == old(self).entries@[i].dentry.name@
                            && d.inode_num == old(self).entries@[i].dentry.inode_num && d.fs
                            == old(self).entries@[i].dentry.fs
                        &&& final(self).entries@.len() == old(self).entries@.len()
                        &&& final(self).entries@[i].last_access == now
                        &&& final(self).entries@[i].dentry.name@ == old(self).entries@[i].dentry.name@
                        &&& final(self).entries@[i].dentry.inode_num == old(self).entries@[i].dentry.inode_num
                        &&& final(self).entries@[i].dentry.fs == old(self).entries@[i].dentry.fs
                        &&& (forall|j: int|
                            0 <= j < old(self).entries@.len() && j != i ==> final(self).entries@[j] == old(self).entries@[j])
                    },
                    None => (r matches Ok(d) ==> find_path(final(self).entries@, d.name@)
                        is Some),
                }
            }),
    {
        match self.get_opt(path, now) {
            Some(d) => {
                return Ok(d);
            },
            None => {},
        }
        // walk toward the root for the nearest cached ancestor
        let p = Path::new(path);
        let mut cur = p;
        let mut pd_opt: Option<DEntry> = None;
        while pd_opt.is_none()
            invariant
                sb.wf(),
                self.cap == old(self).cap,
                cur@.len() <= p@.len(),
                find_path(old(self).entries@, path@) is None,
                pd_opt matches Some(d) ==> exists|q: int|
                    0 <= q < self.entries@.len() && (#[trigger] self.entries@[q]).dentry.name@
                        == d.name@,
            decreases cur@.len(),
        {
            match cur.parent() {
                None => {
                    // no cached ancestor: nothing is mounted over this path
                    return Err(FSError::NoMount);
                },
                Some(q) => {
                    cur = q;
                    let ghost pre = self.entries@;
                    pd_opt = self.get_opt(q.as_str(), now);
                    proof {
                        lemma_find_path(pre, q@);
                        match find_path(pre, q@) {
                            Some(qi) => {
                                assert(self.entries@[qi].dentry.name@ == q@);
                            },
                            None => {},
                        }
                    }
                },
            }
        }
        let mut pd = match pd_opt {
            Some(d) => d,
            None => {
                return Err(FSError::NoMount);
            },
        };
        // fill the gap component by component
        let rest = match p.strip_prefix(Path::new(pd.name.as_str())) {
            Ok(rest) => rest,
            Err(_) => {
                return Err(FSError::NoEntry);
            },
        };
        let mut comps = rest.components();
        loop
            invariant
                sb.wf(),
                self.cap == old(self).cap,
                comps.wf(),
                find_path(old(self).entries@, path@) is None,
                exists|q: int|
                    0 <= q < self.entries@.len() && (#[trigger] self.entries@[q]).dentry.name@
                        == pd.name@,
            decreases comps.path_view().len(), 4int,
        {
            let ghost before = comps;
            let c = comps.next();
            proof {
                if c is Some {
                    crate::components::lemma_nf(before.path_view(), before.front);
                }
            }
            match c {
                None => {
                    proof {
                        lemma_find_path(self.entries@, pd.name@);
                        if find_path(self.entries@, pd.name@) is None {
                            let q = choose|q: int|
                                0 <= q < self.entries@.len() && (
                                #[trigger] self.entries@[q]).dentry.name@ == pd.name@;
                            assert(false);
                        }
                    }
                    return Ok(pd);
                },
                Some(Component::Normal(nm)) => {
                    let inode = match sb.get_inode(pd.inode_num) {
                        Some(i) => i,
                        None => {
                            return Err(FSError::MissingInode);
                        },
                    };
                    let name_bytes = nm.as_bytes_vec();
                    let num = match InodeOps::dir_lookup(inode, &name_bytes) {
                        Some(n) => n,
                        None => {
                            return Err(FSError::NoEntry);
                        },
                    };
                    let mut pb = PathBuf::from(pd.name.as_str());
                    pb.push(Path::new(nm));
                    let new_name = pb.into_string();
                    let nd = DEntry { name: new_name, inode_num: num, fs: pd.fs };
                    let ghost pre = self.entries@;
                    proof {
                        lemma_find_path(pre, nd.name@);
                    }
                    self.insert_entry(nd.duplicate(), now, mounts);
                    proof {
                        match find_path(pre, nd.name@) {
                            Some(qi) => {
                                assert(self.entries@[qi].dentry.name@ == nd.name@);
                            },
                            None => {
                                assert(self.entries@.last().dentry.name@ == nd.name@);
                                assert(self.entries@[self.entries@.len() - 1].dentry.name@
                                    == nd.name@);
                            },
                        }
                    }
                    pd = nd;
                },
                Some(_) => {
                    return Err(FSError::NoEntry);
                },
            }
        }
    }
}

} // verus!
