use kernel_core::ramfs::{InodeOps, SuperBlock};
use kernel_core::path::Path;
use kernel_core::dentry::{DEntry, DirectoryCache, Mounts};
use kernel_core::vfs::{FSError, MODE_DIRECTORY, MODE_REGULAR_FILE, MODE_SYMBOLIC_LINK};

fn fresh_root() -> SuperBlock {
    let mut sb = SuperBlock::new();
    let root = sb.create_inode(0);
    assert_eq!(root, 0);
    sb.inodes[0].mode = MODE_DIRECTORY;
    sb.root = root;
    sb
}

#[test]
fn ramfs_create_and_list() {
    // on a freshly mounted ramfs, create test.txt; listing the root
    // yields exactly that entry, and the cache serves it afterwards
    let mut sb = fresh_root();
    let file = sb.create_inode(1);
    let mut dst = sb.inodes[file as usize].duplicate_inode();
    let mut root = sb.inodes[0].duplicate_inode();
    let name = b"test.txt".to_vec();
    InodeOps::create(&mut dst, &mut root, &name, 2).unwrap();
    assert_eq!(dst.mode, MODE_REGULAR_FILE);
    sb.write_inode(dst).unwrap();
    sb.write_inode(root).unwrap();
    let listing = InodeOps::list(&sb.inodes[0]).unwrap();
    assert_eq!(listing.len(), 1);
    assert_eq!(listing[0].0, b"test.txt".to_vec());
    assert_eq!(listing[0].1, file);

    let mut cache = DirectoryCache::new(16);
    let mut mounts = Mounts::new();
    let root_d = DEntry::new("/".to_string(), 0, 0);
    mounts.mount_fs(root_d.duplicate());
    cache.mount(root_d, 3, &mounts);
    let hit = cache.get("/test.txt", 4, &sb, &mounts).unwrap();
    assert_eq!(hit.name, "/test.txt");
    assert_eq!(hit.inode_num, file);
    assert_eq!(hit.fs, 0);
    // and now it is cached: the fast path returns the same triple
    let again = cache.get("/test.txt", 5, &sb, &mounts).unwrap();
    assert_eq!((again.name, again.inode_num, again.fs), ("/test.txt".to_string(), file, 0));
}

#[test]
fn ramfs_duplicate_rejected() {
    let mut sb = fresh_root();
    let a = sb.create_inode(1);
    let b = sb.create_inode(1);
    let mut root = sb.inodes[0].duplicate_inode();
    let mut da = sb.inodes[a as usize].duplicate_inode();
    let mut db = sb.inodes[b as usize].duplicate_inode();
    let name = b"x".to_vec();
    InodeOps::create(&mut da, &mut root, &name, 2).unwrap();
    assert_eq!(InodeOps::create(&mut db, &mut root, &name, 3), Err(FSError::Exists));
}

#[test]
fn ramfs_not_directory() {
    let mut sb = fresh_root();
    let f = sb.create_inode(1);
    let g = sb.create_inode(1);
    let mut file = sb.inodes[f as usize].duplicate_inode();
    file.mode = MODE_REGULAR_FILE;
    let mut dst = sb.inodes[g as usize].duplicate_inode();
    assert_eq!(
        InodeOps::create(&mut dst, &mut file, &b"y".to_vec(), 2),
        Err(FSError::NotDirectory)
    );
    assert_eq!(InodeOps::list(&file), Err(FSError::NotDirectory));
}

#[test]
fn ramfs_mkdir_symlink_link() {
    let mut sb = fresh_root();
    let d = sb.create_inode(1);
    let s = sb.create_inode(1);
    let mut root = sb.inodes[0].duplicate_inode();
    let mut dir = sb.inodes[d as usize].duplicate_inode();
    InodeOps::mkdir(&mut dir, &mut root, &b"dir".to_vec(), 2).unwrap();
    assert_eq!(dir.mode, MODE_DIRECTORY);
    let mut link = sb.inodes[s as usize].duplicate_inode();
    InodeOps::symlink(&mut link, &mut root, &b"/dir".to_vec(), &b"ln".to_vec(), 3).unwrap();
    assert_eq!(link.mode, MODE_SYMBOLIC_LINK);
    assert_eq!(link.link_target, b"/dir".to_vec());
    assert_eq!(link.size, 4);
    // a hard link to the directory under another name
    InodeOps::link(&mut dir, &mut root, &b"dir2".to_vec(), 4).unwrap();
    let mut too_long = vec![b'a'; 5000];
    too_long[0] = b'/';
    let t = sb.create_inode(5);
    let mut bad = sb.inodes[t as usize].duplicate_inode();
    assert_eq!(
        InodeOps::symlink(&mut bad, &mut root, &too_long, &b"bad".to_vec(), 5),
        Err(FSError::BadPath)
    );
    assert_eq!(InodeOps::unlink(&mut dir, &mut root), Err(FSError::NotSupported));
    assert_eq!(InodeOps::rename(&mut dir, &mut root), Err(FSError::NotSupported));
}

#[test]
fn superblock_write_missing() {
    let mut sb = fresh_root();
    let mut stray = sb.inodes[0].duplicate_inode();
    stray.num = 17;
    assert_eq!(sb.write_inode(stray), Err(FSError::MissingInode));
    assert_eq!(sb.destroy_inode(0), Err(FSError::NotSupported));
}

#[test]
fn dentry_eviction_order() {
    // capacity 4, the mount root pinned; six leaves inserted: the four
    // non-mount slots are evicted least-recent first, the root remains
    let mut cache = DirectoryCache::new(4);
    let mut mounts = Mounts::new();
    let root_d = DEntry::new("/".to_string(), 0, 0);
    mounts.mount_fs(root_d.duplicate());
    cache.mount(root_d, 0, &mounts);
    for (i, name) in ["/a", "/b", "/c", "/d", "/e", "/f"].iter().enumerate() {
        let d = DEntry::new(name.to_string(), (i + 1) as u64, 0);
        cache.insert_entry(d, (i + 1) as u64, &mounts);
    }
    let names: Vec<String> = cache.entries.iter().map(|e| e.dentry.name.clone()).collect();
    // "/" stayed; /a, /b, /c were evicted in least-recent order
    assert!(names.contains(&"/".to_string()));
    assert!(!names.contains(&"/a".to_string()));
    assert!(!names.contains(&"/b".to_string()));
    assert!(!names.contains(&"/c".to_string()));
    assert!(names.contains(&"/d".to_string()));
    assert!(names.contains(&"/e".to_string()));
    assert!(names.contains(&"/f".to_string()));
}

#[test]
fn dentry_delete_and_unmount() {
    let mut cache = DirectoryCache::new(8);
    let mounts = Mounts::new();
    cache.insert_entry(DEntry::new("/x".to_string(), 1, 0), 0, &mounts);
    cache.insert_entry(DEntry::new("/y".to_string(), 2, 1), 0, &mounts);
    cache.delete("/x");
    assert!(cache.entries.iter().all(|e| e.dentry.name != "/x"));
    cache.unmount(1);
    assert!(cache.entries.iter().all(|e| e.dentry.fs != 1));
}

#[test]
fn dentry_reload_drops_vanished() {
    let sb = fresh_root();
    let mut cache = DirectoryCache::new(8);
    let mounts = Mounts::new();
    let d = DEntry::new("/ghost".to_string(), 42, 0);
    cache.insert_entry(d.duplicate(), 0, &mounts);
    cache.reload(&d, &sb);
    assert!(cache.entries.iter().all(|e| e.dentry.name != "/ghost"));
}

#[test]
fn dentry_mount_overwrites() {
    // mounting over an already-cached path replaces the entry in place
    let mut cache = DirectoryCache::new(8);
    let mounts = Mounts::new();
    cache.mount(DEntry::new("/".to_string(), 0, 0), 1, &mounts);
    cache.mount(DEntry::new("/".to_string(), 7, 2), 2, &mounts);
    let hits: Vec<_> = cache
        .entries
        .iter()
        .filter(|e| e.dentry.name == "/")
        .collect();
    assert_eq!(hits.len(), 1);
    assert_eq!(hits[0].dentry.inode_num, 7);
    assert_eq!(hits[0].dentry.fs, 2);
    assert_eq!(hits[0].last_access, 2);
}

#[test]
fn path_file_prefix_values() {
    assert_eq!(Path::new("/x/archive.tar.gz").file_prefix(), Some("archive"));
    assert_eq!(Path::new(".bashrc").file_prefix(), Some(".bashrc"));
    assert_eq!(Path::new("/a/..").file_prefix(), None);
}
