use lemon_core::easy_fs::bitmap::{decomposition, Bitmap};
use lemon_core::easy_fs::block_cache::{sync_all, BlockCache, BlockCacheManager};
use lemon_core::easy_fs::block_dev::BlockDevice;
use lemon_core::easy_fs::config::{BLOCK_BITS, BLOCK_SIZE, EFS_MAGIC};
use lemon_core::easy_fs::efs::EasyFileSystem;
use lemon_core::fs::inode::{find_inode, OSInode};
use lemon_core::easy_fs::vfs::Inode;
use lemon_core::fs::{File, STAT_MODE_DIR, STAT_MODE_REG};
use lemon_core::easy_fs::layout::{DirEntry, DiskInode, DiskInodeKind, SuperBlock, DIRENT_SIZE};

fn manager(n: usize) -> BlockCacheManager {
    BlockCacheManager::new(BlockDevice::new(n))
}

#[test]
fn block_device_reads_back_writes() {
    let mut dev = BlockDevice::new(4);
    assert_eq!(dev.num_blocks(), 4);
    assert_eq!(dev.read_block(2), vec![0u8; BLOCK_SIZE]);
    let data: Vec<u8> = (0..BLOCK_SIZE).map(|i| (i % 251) as u8).collect();
    dev.write_block(2, &data);
    assert_eq!(dev.read_block(2), data);
    assert_eq!(dev.read_block(1), vec![0u8; BLOCK_SIZE]);
}

#[test]
fn block_device_from_blocks_checks_sizes() {
    assert!(BlockDevice::from_blocks(vec![vec![0u8; BLOCK_SIZE], vec![1u8; BLOCK_SIZE]]).is_some());
    assert!(BlockDevice::from_blocks(vec![vec![0u8; BLOCK_SIZE], vec![1u8; 3]]).is_none());
    let dev = BlockDevice::from_blocks(vec![vec![7u8; BLOCK_SIZE]]).unwrap();
    assert_eq!(dev.into_blocks(), vec![vec![7u8; BLOCK_SIZE]]);
}

#[test]
fn block_cache_modify_then_sync() {
    let mut dev = BlockDevice::new(3);
    let mut cache = BlockCache::new(1, &dev);
    cache.modify(10, &[1, 2, 3]);
    assert_eq!(cache.read(9, 5), vec![0, 1, 2, 3, 0]);
    // the device is untouched until the cache is synced
    assert_eq!(dev.read_block(1)[10], 0);
    cache.sync(&mut dev);
    assert_eq!(&dev.read_block(1)[10..13], &[1, 2, 3]);
}

#[test]
fn cache_manager_read_after_write() {
    let mut m = manager(40);
    m.modify(5, 100, &[9, 8, 7]);
    assert_eq!(m.read(5, 99, 5), vec![0, 9, 8, 7, 0]);
    m.write_u32(6, 4, 0xdead_beef);
    assert_eq!(m.read_u32(6, 4), 0xdead_beef);
    assert_eq!(m.read(6, 4, 4), vec![0xef, 0xbe, 0xad, 0xde]);
    m.write_u64(7, 8, 0x0102_0304_0506_0708);
    assert_eq!(m.read_u64(7, 8), 0x0102_0304_0506_0708);
    assert_eq!(m.num_blocks(), 40);
}

#[test]
fn cache_manager_evicts_and_keeps_data() {
    let mut m = manager(40);
    // write to more blocks than the cache holds
    for b in 0..30usize {
        m.modify(b, 0, &[b as u8 + 1]);
    }
    for b in 0..30usize {
        assert_eq!(m.read(b, 0, 1), vec![b as u8 + 1]);
    }
    sync_all(&mut m);
    let dev = m.into_device();
    for b in 0..30usize {
        assert_eq!(dev.read_block(b)[0], b as u8 + 1);
    }
    assert_eq!(dev.read_block(35)[0], 0);
}

#[test]
fn bitmap_allocates_lowest_free_bit() {
    let mut m = manager(8);
    let bm = Bitmap::new(1, 2);
    assert_eq!(bm.maximum(), 2 * BLOCK_BITS);
    assert_eq!(bm.alloc_bit(&mut m), Some(0));
    assert_eq!(bm.alloc_bit(&mut m), Some(1));
    assert_eq!(bm.alloc_bit(&mut m), Some(2));
    bm.dealloc(&mut m, 1);
    assert_eq!(bm.alloc_bit(&mut m), Some(1));
    assert_eq!(bm.alloc_bit(&mut m), Some(3));
    // bits live little-endian in 64-bit words of block 1
    assert_eq!(m.read_u64(1, 0), 0b1111);
}

#[test]
fn bitmap_free_after_alloc_restores_the_disk() {
    let mut m = manager(4);
    let bm = Bitmap::new(1, 1);
    m.write_u64(1, 0, 0xf7);
    m.write_u64(1, 8, 0x00ff_0000_0000_00f0);
    let before = m.read(1, 0, BLOCK_SIZE);
    // bit 3 is the lowest clear one
    let b = bm.alloc_bit(&mut m).unwrap();
    assert_eq!(b, 3);
    assert_eq!(m.read_u64(1, 0), 0xff);
    bm.dealloc(&mut m, b);
    assert_eq!(m.read(1, 0, BLOCK_SIZE), before);
}

#[test]
fn bitmap_full_returns_none() {
    let mut m = manager(3);
    let bm = Bitmap::new(1, 1);
    for i in 0..BLOCK_BITS {
        assert_eq!(bm.alloc_bit(&mut m), Some(i));
    }
    assert_eq!(bm.alloc_bit(&mut m), None);
    bm.dealloc(&mut m, 4000);
    assert_eq!(bm.alloc_bit(&mut m), Some(4000));
}

#[test]
fn bitmap_decomposition() {
    assert_eq!(decomposition(0), (0, 0, 0));
    assert_eq!(decomposition(70), (0, 1, 6));
    assert_eq!(decomposition(4096 + 130), (1, 2, 2));
}

#[test]
fn super_block_init_and_validity() {
    let mut sb = SuperBlock::zeroed();
    assert!(!sb.is_valid());
    sb.init(8192, 1, 1024, 1, 7166);
    assert!(sb.is_valid());
    assert_eq!(sb.magic, EFS_MAGIC);
    assert_eq!(sb.total_blocks, 8192);
    assert_eq!(sb.data_area_blocks, 7166);
}

#[test]
fn disk_inode_block_counts() {
    assert_eq!(DiskInode::count_data_block(0), 0);
    assert_eq!(DiskInode::count_data_block(1), 1);
    assert_eq!(DiskInode::count_data_block(512), 1);
    assert_eq!(DiskInode::count_data_block(513), 2);
    // 27 direct blocks need no index block
    assert_eq!(DiskInode::count_total_block(27 * 512), 27);
    // the 28th block needs the first indirect block
    assert_eq!(DiskInode::count_total_block(28 * 512), 29);
    // past 155 blocks: the second indirect block and one level-1 block
    assert_eq!(DiskInode::count_total_block(156 * 512), 156 + 1 + 2);
    let inode = DiskInode::new(DiskInodeKind::File);
    assert!(inode.is_file());
    assert!(!inode.is_dir());
    assert_eq!(inode.blocks_num_needed(28 * 512), 29);
}

#[test]
fn disk_inode_write_then_read() {
    let mut m = manager(64);
    let mut inode = DiskInode::new(DiskInodeKind::File);
    let size: u32 = 30 * 512 + 17;
    let need = inode.blocks_num_needed(size) as usize;
    assert_eq!(need, 32);
    let blocks: Vec<u32> = (10..10 + need as u32).collect();
    inode.increase_size(size, blocks, &mut m);
    assert_eq!(inode.size, size);
    assert_eq!(inode.block_id(0, &mut m), 10);
    assert_eq!(inode.block_id(26, &mut m), 36);
    // the 28th data block comes after the first indirect block
    assert_eq!(inode.indirect1, 37);
    assert_eq!(inode.block_id(27, &mut m), 38);
    let data: Vec<u8> = (0..2000u32).map(|i| (i * 7 % 256) as u8).collect();
    let n = inode.write_at(500, &data, &mut m);
    assert_eq!(n, 2000);
    let mut buf = vec![0u8; 2000];
    assert_eq!(inode.read_at(500, &mut buf, &mut m), 2000);
    assert_eq!(buf, data);
    // a read past the end is cut at the size
    let mut tail = vec![0u8; 100];
    assert_eq!(inode.read_at(size as usize - 10, &mut tail, &mut m), 10);
    let mut none = vec![0u8; 4];
    assert_eq!(inode.read_at(size as usize, &mut none, &mut m), 0);
}

#[test]
fn disk_inode_clear_gives_back_every_block() {
    let mut m = manager(256);
    let mut inode = DiskInode::new(DiskInodeKind::File);
    let size: u32 = 200 * 512;
    let need = inode.blocks_num_needed(size) as usize;
    assert_eq!(need as u32, DiskInode::count_total_block(size));
    let blocks: Vec<u32> = (20..20 + need as u32).collect();
    inode.increase_size(size, blocks.clone(), &mut m);
    let mut freed = inode.clear_size(&mut m);
    assert_eq!(inode.size, 0);
    freed.sort();
    assert_eq!(freed, blocks);
}

#[test]
fn disk_inode_decrease_size_returns_direct_blocks() {
    let mut m = manager(64);
    let mut inode = DiskInode::new(DiskInodeKind::File);
    let blocks: Vec<u32> = (5..15).collect();
    inode.increase_size(10 * 512, blocks, &mut m);
    let freed = inode.decrease_size(4 * 512, &mut m);
    assert_eq!(freed, vec![9, 10, 11, 12, 13, 14]);
    assert_eq!(inode.size, 4 * 512);
}

#[test]
fn dir_entry_round_trip() {
    let d = DirEntry::new("hello", 42);
    assert_eq!(d.name(), "hello");
    assert_eq!(d.inode_number(), 42);
    let bytes = d.as_bytes();
    assert_eq!(bytes.len(), DIRENT_SIZE);
    assert_eq!(&bytes[0..5], b"hello");
    assert_eq!(&bytes[28..32], &42u32.to_le_bytes());
    let back = DirEntry::from_bytes(&bytes);
    assert_eq!(back.name(), "hello");
    assert_eq!(back.inode_number(), 42);
    let u = DirEntry::new("héllo wörld", 7);
    assert_eq!(u.name(), "héllo wörld");
    let full = DirEntry::new("abcdefghijklmnopqrstuvwxyz0", 8);
    assert_eq!(full.name(), "abcdefghijklmnopqrstuvwxyz0");
    let e = DirEntry::empty();
    assert_eq!(e.name(), "");
    assert_eq!(e.inode_number(), 0);
}

#[test]
fn efs_allocates_inodes_in_order_and_locates_them() {
    let mut efs = EasyFileSystem {
        block_device: manager(32),
        inode_bitmap: Bitmap::new(1, 1),
        data_bitmap: Bitmap::new(2, 1),
        inode_area_start_block: 3,
        data_area_start_block: 10,
    };
    assert_eq!(efs.alloc_inode(), 0);
    assert_eq!(efs.alloc_inode(), 1);
    assert_eq!(efs.disk_inode_pos(0), (3, 0));
    assert_eq!(efs.disk_inode_pos(5), (4, 124));
    assert_eq!(efs.disk_inode_pos(7), (4, 372));
}

#[test]
fn efs_create_lays_out_an_empty_file_system() {
    let total: u32 = 4096;
    let efs = EasyFileSystem::create(manager(total as usize), total, 1);
    // one inode bitmap block numbers 4096 inodes of 124 bytes: 992 blocks
    assert_eq!(efs.inode_area_start_block, 2);
    let data_total = 4096 - 1 - (1 + 992);
    let data_bitmap_blocks = (data_total + 4096) / 4097;
    assert_eq!(data_bitmap_blocks, 1);
    assert_eq!(efs.data_area_start_block, 1 + 1 + 992 + 1);
    let dev = efs.block_device.into_device();
    let sb = dev.read_block(0);
    let words: Vec<u32> = (0..6).map(|i| u32::from_le_bytes([sb[4 * i], sb[4 * i + 1], sb[4 * i + 2], sb[4 * i + 3]])).collect();
    assert_eq!(words, vec![EFS_MAGIC, 4096, 1, 992, 1, data_total - 1]);
    assert!(sb[24..].iter().all(|&b| b == 0));
    // inode 0, the root directory, is taken
    let bitmap = dev.read_block(1);
    assert_eq!(bitmap[0], 1);
    assert!(bitmap[1..].iter().all(|&b| b == 0));
    let root = dev.read_block(2);
    assert_eq!(root[0], 1);
    assert!(root[1..].iter().all(|&b| b == 0));
    assert!(dev.read_block(3).iter().all(|&b| b == 0));
    assert!(dev.read_block(4095).iter().all(|&b| b == 0));
}

#[test]
fn super_block_and_inode_bytes() {
    let mut sb = SuperBlock::zeroed();
    sb.init(10, 1, 2, 3, 4);
    let b = sb.to_bytes();
    assert_eq!(b.len(), 24);
    assert_eq!(&b[0..4], &EFS_MAGIC.to_le_bytes());
    assert_eq!(&b[20..24], &4u32.to_le_bytes());
    let mut d = DiskInode::new(DiskInodeKind::File);
    d.size = 0x0102;
    d.direct[26] = 7;
    d.indirect2 = 9;
    let b = d.to_bytes();
    assert_eq!(b.len(), 124);
    assert_eq!(&b[0..8], &[0, 0, 0, 0, 2, 1, 0, 0]);
    assert_eq!(&b[8 + 26 * 4..8 + 27 * 4], &7u32.to_le_bytes());
    assert_eq!(&b[120..124], &9u32.to_le_bytes());
}

#[test]
fn root_directory_lookups() {
    let total: u32 = 4096;
    let mut efs = EasyFileSystem::create(manager(total as usize), total, 1);
    let root = efs.root_inode();
    assert_eq!(root.inode_id(&efs), 0);
    assert!(root.is_dir(&mut efs));
    assert!(!root.is_file(&mut efs));
    assert_eq!(root.file_size(&mut efs), 0);
    // a new root directory lists nothing
    assert!(root.find("a", &mut efs).is_none());
    // give the root two entries, "a" (inode 5) and "b" (inode 6)
    let (block, offset) = efs.disk_inode_pos(0);
    let bytes = efs.block_device.read(block as usize, offset, 124);
    let mut d = DiskInode::from_bytes(&bytes).unwrap();
    assert!(d.is_dir());
    let data_block = efs.data_area_start_block;
    d.increase_size(2 * DIRENT_SIZE as u32, vec![data_block], &mut efs.block_device);
    d.write_at(0, &DirEntry::new("a", 5).as_bytes(), &mut efs.block_device);
    d.write_at(DIRENT_SIZE, &DirEntry::new("b", 6).as_bytes(), &mut efs.block_device);
    efs.block_device.modify(block as usize, offset, &d.to_bytes());
    assert_eq!(root.file_size(&mut efs), 64);
    let b = root.find("b", &mut efs).unwrap();
    assert_eq!(b.inode_id(&efs), 6);
    assert_eq!(root.find("a", &mut efs).unwrap().inode_id(&efs), 5);
    assert!(root.find("c", &mut efs).is_none());
    assert!(root.find("", &mut efs).is_none());
    // paths from the root
    assert_eq!(find_inode("/a", &mut efs).unwrap().inode_id(&efs), 5);
    assert_eq!(find_inode("//b/", &mut efs).unwrap().inode_id(&efs), 6);
    assert_eq!(find_inode("/", &mut efs).unwrap().inode_id(&efs), 0);
    assert_eq!(find_inode("", &mut efs).unwrap().inode_id(&efs), 0);
    assert!(find_inode("/c", &mut efs).is_none());
    let mut buf = [0u8; 40];
    assert_eq!(root.read_at(30, &mut buf, &mut efs), 34);
    assert_eq!(buf[2], b'b');
    // the root opened as a file: all of it is read, then nothing more
    let mut f = OSInode::new(true, false, efs.root_inode());
    assert!(f.is_readable() && !f.is_writable());
    assert_eq!(f.mode(&mut efs), STAT_MODE_DIR);
    assert_eq!(f.file_size(&mut efs), 64);
    assert_eq!(f.inode_id(&efs), 0);
    let all = f.read_all(&mut efs);
    let mut expected = DirEntry::new("a", 5).as_bytes();
    expected.extend_from_slice(&DirEntry::new("b", 6).as_bytes());
    assert_eq!(all, expected);
    assert_eq!(f.offset(), 64);
    assert!(f.read_all(&mut efs).is_empty());
    f.set_offset(40);
    assert_eq!(f.read_all(&mut efs), expected[40..].to_vec());
    // a file of 1300 bytes as inode 1: read in several rounds
    let mut file = DiskInode::new(DiskInodeKind::File);
    let start = efs.data_area_start_block + 1;
    file.increase_size(1300, vec![start, start + 1, start + 2], &mut efs.block_device);
    let data: Vec<u8> = (0..1300u32).map(|i| (i % 253) as u8).collect();
    assert_eq!(file.write_at(0, &data, &mut efs.block_device), 1300);
    let (fb, fo) = efs.disk_inode_pos(1);
    efs.block_device.modify(fb as usize, fo, &file.to_bytes());
    let mut g = OSInode::new(true, true, Inode::new(fb, fo));
    assert_eq!(g.inode_id(&efs), 1);
    assert_eq!(g.mode(&mut efs), STAT_MODE_REG);
    assert_eq!(g.read_all(&mut efs), data);
    assert_eq!(g.offset(), 1300);
}

#[test]
fn disk_inode_bytes_read_back() {
    let mut d = DiskInode::new(DiskInodeKind::Directory);
    d.size = 77;
    d.direct[3] = 9;
    d.indirect2 = 0x01020304;
    let b = d.to_bytes();
    let e = DiskInode::from_bytes(&b).unwrap();
    assert_eq!(e.to_bytes(), b);
    assert!(e.is_dir());
    let mut bad = b.clone();
    bad[0] = 2;
    assert!(DiskInode::from_bytes(&bad).is_none());
    let mut bad_pad = b;
    bad_pad[2] = 1;
    assert!(DiskInode::from_bytes(&bad_pad).is_none());
}

#[test]
fn paths_walk_through_directories() {
    let total: u32 = 4096;
    let mut efs = EasyFileSystem::create(manager(total as usize), total, 1);
    let first_data = efs.data_area_start_block;
    // the root holds "d" (inode 2), a directory holding "x" (inode 9)
    let entries = [(0u32, vec![("d", 2u32)]), (2u32, vec![("x", 9u32)])];
    for (k, (ino, list)) in entries.iter().enumerate() {
        let mut d = DiskInode::new(DiskInodeKind::Directory);
        let size = (list.len() * DIRENT_SIZE) as u32;
        d.increase_size(size, vec![first_data + k as u32], &mut efs.block_device);
        for (i, (name, n)) in list.iter().enumerate() {
            d.write_at(i * DIRENT_SIZE, &DirEntry::new(name, *n).as_bytes(), &mut efs.block_device);
        }
        let (b, o) = efs.disk_inode_pos(*ino);
        efs.block_device.modify(b as usize, o, &d.to_bytes());
    }
    assert_eq!(find_inode("/d/x", &mut efs).unwrap().inode_id(&efs), 9);
    assert_eq!(find_inode("d//x", &mut efs).unwrap().inode_id(&efs), 9);
    assert_eq!(find_inode("/d", &mut efs).unwrap().inode_id(&efs), 2);
    assert!(find_inode("/d/y", &mut efs).is_none());
    assert!(find_inode("/x", &mut efs).is_none());
    // "x" made a regular file: nothing lies beyond it
    let (b, o) = efs.disk_inode_pos(9);
    efs.block_device.modify(b as usize, o, &DiskInode::new(DiskInodeKind::File).to_bytes());
    assert_eq!(find_inode("/d/x", &mut efs).unwrap().inode_id(&efs), 9);
    assert!(find_inode("/d/x/y", &mut efs).is_none());
}

/// A file system of 4096 blocks whose inode 1 is an empty file
fn fs_with_empty_file() -> (EasyFileSystem, Inode) {
    let total: u32 = 4096;
    let mut efs = EasyFileSystem::create(manager(total as usize), total, 1);
    let (b, o) = efs.disk_inode_pos(1);
    efs.block_device.modify(b as usize, o, &DiskInode::new(DiskInodeKind::File).to_bytes());
    (efs, Inode::new(b, o))
}

fn read_all(file: &Inode, efs: &mut EasyFileSystem) -> Vec<u8> {
    let mut out = Vec::new();
    let mut buf = [0u8; 127];
    let mut offset = 0;
    loop {
        let n = file.read_at(offset, &mut buf, efs);
        if n == 0 {
            return out;
        }
        out.extend_from_slice(&buf[..n]);
        offset += n;
    }
}

#[test]
fn inode_write_then_read() {
    let (mut efs, file) = fs_with_empty_file();
    let greet = "Hello, world!";
    assert_eq!(file.write_at(0, greet.as_bytes(), &mut efs), 13);
    assert_eq!(file.file_size(&mut efs), 13);
    let mut buffer = [0u8; 233];
    let len = file.read_at(0, &mut buffer, &mut efs);
    assert_eq!(greet, core::str::from_utf8(&buffer[..len]).unwrap());
    // the first data block was taken from the data bitmap
    assert_eq!(efs.data_bitmap.alloc_bit(&mut efs.block_device), Some(1));
}

#[test]
fn inode_writes_grow_through_the_index_levels() {
    for blocks in [4usize, 8, 100, 140, 200] {
        let (mut efs, file) = fs_with_empty_file();
        let data: Vec<u8> = (0..blocks * BLOCK_SIZE + BLOCK_SIZE / 2).map(|i| (i % 10) as u8 + b'0').collect();
        assert_eq!(file.write_at(0, &data, &mut efs), data.len());
        assert_eq!(file.file_size(&mut efs) as usize, data.len());
        assert_eq!(read_all(&file, &mut efs), data);
    }
}

#[test]
fn inode_overwrite_keeps_the_rest() {
    let (mut efs, file) = fs_with_empty_file();
    let data = vec![b'a'; 3 * BLOCK_SIZE];
    file.write_at(0, &data, &mut efs);
    assert_eq!(file.write_at(BLOCK_SIZE - 2, b"XYZW", &mut efs), 4);
    let all = read_all(&file, &mut efs);
    assert_eq!(all.len(), 3 * BLOCK_SIZE);
    assert_eq!(&all[BLOCK_SIZE - 3..BLOCK_SIZE + 3], b"aXYZWa");
    // writing past the end grows the file
    assert_eq!(file.write_at(3 * BLOCK_SIZE + 10, b"end", &mut efs), 3);
    assert_eq!(file.file_size(&mut efs) as usize, 3 * BLOCK_SIZE + 13);
    let mut buf = [0u8; 3];
    assert_eq!(file.read_at(3 * BLOCK_SIZE + 10, &mut buf, &mut efs), 3);
    assert_eq!(&buf, b"end");
    // an empty write changes nothing
    assert_eq!(file.write_at(5, b"", &mut efs), 0);
    assert_eq!(file.file_size(&mut efs) as usize, 3 * BLOCK_SIZE + 13);
}

#[test]
fn inode_clear_gives_the_blocks_back() {
    let (mut efs, file) = fs_with_empty_file();
    let greet = "Hello, world!";
    file.write_at(0, greet.as_bytes(), &mut efs);
    let mut buffer = [0u8; 233];
    file.clear(&mut efs);
    assert_eq!(file.read_at(0, &mut buffer, &mut efs), 0);
    assert_eq!(file.file_size(&mut efs), 0);
    // the data block is free again, and zeroed
    let block = efs.data_area_start_block as usize;
    assert_eq!(efs.block_device.read(block, 0, 13), vec![0u8; 13]);
    assert_eq!(efs.data_bitmap.alloc_bit(&mut efs.block_device), Some(0));
    efs.data_bitmap.dealloc(&mut efs.block_device, 0);
    // cleared and written again, with strings of many lengths
    for len in [4 * BLOCK_SIZE, 8 * BLOCK_SIZE + BLOCK_SIZE / 2, 100 * BLOCK_SIZE, 70 * BLOCK_SIZE + BLOCK_SIZE / 7,
        (12 + 128) * BLOCK_SIZE, 400 * BLOCK_SIZE]
    {
        file.clear(&mut efs);
        let s: Vec<u8> = (0..len).map(|i| b'0' + ((i * 7 + len) % 10) as u8).collect();
        assert_eq!(file.write_at(0, &s, &mut efs), len);
        assert_eq!(read_all(&file, &mut efs), s);
    }
    // after a clear every block is free again
    file.clear(&mut efs);
    assert_eq!(efs.data_bitmap.alloc_bit(&mut efs.block_device), Some(0));
}

#[test]
fn default_directory_entries() {
    let total: u32 = 4096;
    let mut efs = EasyFileSystem::create(manager(total as usize), total, 1);
    let (b, o) = efs.disk_inode_pos(2);
    efs.block_device.modify(b as usize, o, &DiskInode::new(DiskInodeKind::Directory).to_bytes());
    let dir = Inode::new(b, o);
    dir.set_default_dirent(0, &mut efs);
    assert_eq!(dir.file_size(&mut efs), 64);
    assert_eq!(dir.find(".", &mut efs).unwrap().inode_id(&efs), 2);
    assert_eq!(dir.find("..", &mut efs).unwrap().inode_id(&efs), 0);
    assert!(dir.find("...", &mut efs).is_none());
}

#[test]
fn disk_inode_grows_to_the_largest_size_at_once() {
    let mut m = manager(17000);
    let mut inode = DiskInode::new(DiskInodeKind::File);
    let size: u32 = 16539 * 512;
    let need = inode.blocks_num_needed(size) as usize;
    // 16539 data blocks, the first-level index block, the second-level one and its 128 blocks
    assert_eq!(need, 16539 + 1 + 1 + 128);
    let blocks: Vec<u32> = (100..100 + need as u32).collect();
    inode.increase_size(size, blocks.clone(), &mut m);
    assert_eq!(inode.size, size);
    // every data block is placed, the last one last of all
    assert_eq!(inode.block_id(16538, &mut m), *blocks.last().unwrap());
    assert_eq!(inode.block_id(155, &mut m), 100 + 27 + 1 + 128 + 1 + 1);
    let released = inode.clear_size(&mut m);
    assert_eq!(released.len(), need);
}
