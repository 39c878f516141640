use ros_core::bitmap::Bitmap;
use ros_core::buddy::BuddyBlockAllocatorZone;
use ros_core::cache::{CachedDevice, Partition};
use ros_core::cluster::Cluster;
use ros_core::device::{BlockDevice, MemoryDevice};
use ros_core::dir::DirIter;
use ros_core::entry::Entry;
use ros_core::file::SeekFrom;
use ros_core::mbr::{Error as MbrError, MasterBootRecord};
use ros_core::metadata::{Attributes, Date, Time};
use ros_core::vfat::{Error, Status, VFat};

fn le16(buf: &mut Vec<u8>, off: usize, v: u16) {
    buf[off] = (v & 0xFF) as u8;
    buf[off + 1] = (v >> 8) as u8;
}

fn le32(buf: &mut Vec<u8>, off: usize, v: u32) {
    buf[off] = (v & 0xFF) as u8;
    buf[off + 1] = ((v >> 8) & 0xFF) as u8;
    buf[off + 2] = ((v >> 16) & 0xFF) as u8;
    buf[off + 3] = ((v >> 24) & 0xFF) as u8;
}

/// A regular 8.3 entry at slot `slot` of a directory sector.
fn put_regular(
    dir: &mut Vec<u8>,
    slot: usize,
    name: &[u8; 8],
    ext: &[u8; 3],
    attr: u8,
    first_cluster: u32,
    size: u32,
) {
    let o = slot * 32;
    dir[o..o + 8].copy_from_slice(name);
    dir[o + 8..o + 11].copy_from_slice(ext);
    dir[o + 11] = attr;
    le16(dir, o + 20, (first_cluster >> 16) as u16);
    le16(dir, o + 26, (first_cluster & 0xFFFF) as u16);
    le32(dir, o + 28, size);
}

/// A small FAT32 volume:
///   physical sector 0: the MBR, partition 0 at LBA 1, kind 0x0C
///   logical sector 0 (physical 1): the parameter block
///   logical sector 1 (physical 2): the FAT
///   cluster c at logical sector 2 + c, physical sector 3 + c
/// The root directory is cluster 2. It holds DATA.BIN (clusters 3 then
/// 4, 517 bytes) and the directory SUB (cluster 5), which holds
/// INNER.TXT (cluster 6, 11 bytes).
fn build_image() -> MemoryDevice {
    let nsectors = 16usize;
    let mut sectors: Vec<Vec<u8>> = vec![vec![0u8; 512]; nsectors];

    // the MBR
    {
        let s = &mut sectors[0];
        s[446] = 0x00; // boot indicator
        s[446 + 4] = 0x0C; // FAT32 (LBA)
        le32(s, 446 + 8, 1); // partition starts at physical sector 1
        le32(s, 446 + 12, (nsectors - 1) as u32);
        s[510] = 0x55;
        s[511] = 0xAA;
    }
    // the parameter block
    {
        let s = &mut sectors[1];
        le16(s, 11, 512); // bytes per sector
        s[13] = 1; // sectors per cluster
        le16(s, 14, 1); // reserved sectors
        s[16] = 1; // one FAT
        le32(s, 36, 1); // sectors per FAT
        le32(s, 44, 2); // root directory cluster
        s[66] = 0x29;
        s[510] = 0x55;
        s[511] = 0xAA;
    }
    // the FAT
    {
        let s = &mut sectors[2];
        le32(s, 0, 0x0FFF_FFF8);
        le32(s, 4, 0x0FFF_FFFF);
        le32(s, 8, 0x0FFF_FFF8); // cluster 2: root directory, one cluster
        le32(s, 12, 4); // cluster 3 -> 4
        le32(s, 16, 0x0FFF_FFF8); // cluster 4: end of DATA.BIN
        le32(s, 20, 0x0FFF_FFF8); // cluster 5: SUB, one cluster
        le32(s, 24, 0x0FFF_FFF8); // cluster 6: INNER.TXT
        le32(s, 28, 1); // cluster 7: reserved, for the error test
        le32(s, 32, 0x0FFF_FFF7); // cluster 8: bad
    }
    // the root directory: cluster 2, physical sector 5
    {
        let s = &mut sectors[5];
        put_regular(s, 0, b"DATA    ", b"BIN", 0x20, 3, 517);
        put_regular(s, 1, b"SUB     ", b"   ", 0x10, 5, 0);
    }
    // DATA.BIN: cluster 3 holds bytes i & 0xFF, cluster 4 starts 0xA0..
    {
        let s = &mut sectors[6];
        for i in 0..512 {
            s[i] = (i & 0xFF) as u8;
        }
        let s2 = &mut sectors[7];
        for i in 0..8 {
            s2[i] = 0xA0 + i as u8;
        }
    }
    // SUB: cluster 5
    {
        let s = &mut sectors[8];
        put_regular(s, 0, b"INNER   ", b"TXT", 0x20, 6, 11);
    }
    // INNER.TXT: cluster 6
    {
        let s = &mut sectors[9];
        s[..11].copy_from_slice(b"hello inner");
    }
    MemoryDevice::new(sectors, 512)
}

#[test]
fn mbr_parse_accepts_and_rejects() {
    let mut raw = vec![0u8; 512];
    raw[446 + 4] = 0x0C;
    le32(&mut raw, 446 + 8, 2048);
    raw[510] = 0x55;
    raw[511] = 0xAA;
    let m = MasterBootRecord::from_bytes(&raw).unwrap();
    assert_eq!(m.signature, 0xAA55);
    assert_eq!(m.partitions[0].kind, 0x0C);
    assert_eq!(m.partitions[0].lba_start, 2048);

    let mut bad = raw.clone();
    bad[510] = 0;
    bad[511] = 0;
    match MasterBootRecord::from_bytes(&bad) {
        Err(MbrError::BadSignature) => {}
        other => panic!("expected BadSignature, got {:?}", other),
    }

    let mut badind = raw.clone();
    badind[446 + 16] = 0x7F; // partition 1's boot indicator
    match MasterBootRecord::from_bytes(&badind) {
        Err(MbrError::UnknownBootIndicator(1)) => {}
        other => panic!("expected UnknownBootIndicator(1), got {:?}", other),
    }
}

#[test]
fn memory_device_read_write_roundtrip() {
    let sectors = vec![vec![1u8; 64], vec![2u8; 64]];
    let mut d = MemoryDevice::new(sectors, 64);
    assert_eq!(d.sector_size(), 64);
    let mut buf = vec![0u8; 64];
    assert_eq!(d.read_sector(1, &mut buf), Ok(64));
    assert_eq!(buf[0], 2);
    let newdata = vec![9u8; 64];
    assert_eq!(d.write_sector(1, &newdata), Ok(64));
    assert_eq!(d.read_sector(1, &mut buf), Ok(64));
    assert_eq!(buf[0], 9);
    assert!(d.read_sector(7, &mut buf).is_err());
}

#[test]
fn cluster_masks_top_bits() {
    let c = Cluster::from(0xF000_0005);
    assert_eq!(c.number(), 5);
    assert_eq!(c.into_sector(100, 2), 110);
    let (sector, off, len) = Cluster::from(130).fat_entry_offset(32, 512);
    assert_eq!(sector, 33);
    assert_eq!(off, 8);
    assert_eq!(len, 4);
}

#[test]
fn metadata_field_extraction() {
    // 2005-06-09, per the packed layout: (2005-1980)<<9 | 6<<5 | 9
    let d = Date((25 << 9) | (6 << 5) | 9);
    assert_eq!(d.year(), 2005);
    assert_eq!(d.month(), 6);
    assert_eq!(d.day(), 9);
    assert_eq!(d.month_str(), "June");
    // 13:37:42
    let t = Time((13 << 11) | (37 << 5) | 21);
    assert_eq!(t.hour(), 13);
    assert_eq!(t.minute(), 37);
    assert_eq!(t.second(), 42);
    assert!(Attributes(0x0F).is_lfn());
    assert!(!Attributes(0x20).is_lfn());
    assert!(Attributes(0x10).is_dir());
    assert!(Attributes(0x30).is_dir());
    assert!(!Attributes(0x20).is_dir());
}

// Long filename reassembly: two LFN slots before the regular entry spell
// "hello_world.txt", spread over the staging positions their sequence
// bytes select.
#[test]
fn lfn_assembly_orders_segments() {
    let name: Vec<u16> = "hello_world.txt".encode_utf16().collect();
    let mut data = vec![0u8; 96];
    // first slot: sequence 0x42 (last, position 2): units 13..26
    // second slot: sequence 0x01 (position 1): units 0..13
    for (slot, seqbyte, base) in [(0usize, 0x42u8, 13usize), (1, 0x01, 0)] {
        let o = slot * 32;
        data[o] = seqbyte;
        data[o + 11] = 0x0F;
        for k in 0..13usize {
            let unit: u16 = if base + k < name.len() {
                name[base + k]
            } else if base + k == name.len() {
                0x0000
            } else {
                0xFFFF
            };
            let off = if k < 5 {
                o + 1 + 2 * k
            } else if k < 11 {
                o + 14 + 2 * (k - 5)
            } else {
                o + 28 + 2 * (k - 11)
            };
            data[off] = (unit & 0xFF) as u8;
            data[off + 1] = (unit >> 8) as u8;
        }
    }
    put_regular(&mut data, 2, b"HELLO~1 ", b"TXT", 0x20, 9, 123);
    let mut it = DirIter { data, off: 0 };
    match it.next() {
        Some(Entry::FileKind(f)) => {
            assert_eq!(f.name().as_str(), "hello_world.txt");
            assert_eq!(f.size(), 123);
        }
        other => panic!("expected a file, got {:?}", other.is_some()),
    }
    assert!(it.next().is_none());
}

// A deleted slot is skipped, and a short name is trimmed and joined
// with a dot; iteration ends at the zero id.
#[test]
fn dir_iter_skips_deleted_and_trims_short_names() {
    let mut data = vec![0u8; 128];
    data[0] = 0xE5; // deleted
    data[11] = 0x20;
    put_regular(&mut data, 1, b"README  ", b"MD ", 0x20, 10, 7);
    put_regular(&mut data, 2, b"NOEXT   ", b"   ", 0x20, 11, 1);
    // slot 3 stays zero: end of directory
    let mut it = DirIter { data, off: 0 };
    match it.next() {
        Some(Entry::FileKind(f)) => assert_eq!(f.name().as_str(), "README.MD"),
        _ => panic!("expected README.MD"),
    }
    match it.next() {
        Some(Entry::FileKind(f)) => assert_eq!(f.name().as_str(), "NOEXT"),
        _ => panic!("expected NOEXT"),
    }
    assert!(it.next().is_none());
}

// The FAT round trip: next_cluster answers exactly as the FAT entry
// decodes — a data link, end of chain, or invalid data.
#[test]
fn fat_round_trip_statuses() {
    let dev = build_image();
    let mut v = VFat::from(dev).unwrap();
    assert_eq!(v.cluster_size(), 512);
    assert_eq!(v.next_cluster(Cluster::from(3)), Ok(Some(Cluster::from(4))));
    assert_eq!(v.next_cluster(Cluster::from(4)), Ok(None));
    assert_eq!(v.next_cluster(Cluster::from(7)), Err(Error::InvalidData));
    assert_eq!(v.next_cluster(Cluster::from(8)), Err(Error::InvalidData));
    // find_cluster walks data links
    assert_eq!(
        v.find_cluster(Cluster::from(3), 1),
        Ok(Some(Cluster::from(4)))
    );
    assert_eq!(v.find_cluster(Cluster::from(3), 2), Ok(None));
}

#[test]
fn read_cluster_and_chain() {
    let dev = build_image();
    let mut v = VFat::from(dev).unwrap();
    let mut buf = vec![0u8; 4];
    let got = v.read_cluster(Cluster::from(3), 2, &mut buf).unwrap();
    assert_eq!(got, 4);
    assert_eq!(buf, vec![2, 3, 4, 5]);
    // an offset past the cluster is rejected
    assert_eq!(
        v.read_cluster(Cluster::from(3), 513, &mut buf),
        Err(Error::InvalidInput)
    );
    let mut chain = Vec::new();
    let sz = v.read_chain(Cluster::from(3), &mut chain).unwrap();
    assert_eq!(sz, 1024);
    assert_eq!(chain[511], 0xFF);
    assert_eq!(chain[512], 0xA0);
}

// The root path opens the root directory.
#[test]
fn open_root_yields_dir() {
    let dev = build_image();
    let mut v = VFat::from(dev).unwrap();
    match v.open("/").unwrap() {
        Entry::DirKind(d) => assert_eq!(d.name().as_str(), ""),
        _ => panic!("the root is not a directory"),
    }
}

// Path identity: opening a longer path equals finding the name in the
// opened prefix.
#[test]
fn open_path_equals_find_in_prefix() {
    let dev = build_image();
    let mut v = VFat::from(dev).unwrap();
    let via_open = match v.open("/SUB/INNER.TXT").unwrap() {
        Entry::FileKind(f) => f,
        _ => panic!("expected a file"),
    };
    let sub = match v.open("/SUB").unwrap() {
        Entry::DirKind(d) => d,
        _ => panic!("expected a directory"),
    };
    let via_find = match sub.find(&mut v, "inner.txt").unwrap() {
        Entry::FileKind(f) => f,
        _ => panic!("expected a file"),
    };
    assert_eq!(via_open.name().as_str(), via_find.name().as_str());
    assert_eq!(via_open.size(), via_find.size());
    // dot and parent components resolve too
    match v.open("/SUB/./../SUB/INNER.TXT").unwrap() {
        Entry::FileKind(f) => assert_eq!(f.name().as_str(), "INNER.TXT"),
        _ => panic!("expected a file"),
    }
}

#[test]
fn open_errors() {
    let dev = build_image();
    let mut v = VFat::from(dev).unwrap();
    assert!(matches!(v.open("/MISSING.TXT"), Err(Error::NotFound)));
    assert!(matches!(
        v.open("/DATA.BIN/X"),
        Err(Error::NotADirectory)
    ));
}

// The seek law: after seek(Start(k)), a read returns the bytes [k, k+n)
// of the file, here across the cluster boundary.
#[test]
fn seek_then_read_crosses_cluster_boundary() {
    let dev = build_image();
    let mut v = VFat::from(dev).unwrap();
    let mut f = match v.open("/data.bin").unwrap() {
        Entry::FileKind(f) => f,
        _ => panic!("expected a file"),
    };
    assert_eq!(f.size(), 517);
    assert_eq!(f.seek(&mut v, SeekFrom::Start(509)).unwrap(), 509);
    let mut buf = vec![0u8; 8];
    let got = f.read(&mut v, &mut buf).unwrap();
    assert_eq!(got, 8);
    assert_eq!(buf, vec![0xFD, 0xFE, 0xFF, 0xA0, 0xA1, 0xA2, 0xA3, 0xA4]);
    // reading at the end returns zero bytes
    assert_eq!(f.seek(&mut v, SeekFrom::End(0)).unwrap(), 517);
    let got2 = f.read(&mut v, &mut buf).unwrap();
    assert_eq!(got2, 0);
    // out-of-range seeks are invalid input
    assert!(matches!(
        f.seek(&mut v, SeekFrom::Start(518)),
        Err(Error::InvalidInput)
    ));
    assert!(matches!(
        f.seek(&mut v, SeekFrom::End(-518)),
        Err(Error::InvalidInput)
    ));
    // a relative seek within bounds works
    assert_eq!(f.seek(&mut v, SeekFrom::Start(10)).unwrap(), 10);
    assert_eq!(f.seek(&mut v, SeekFrom::Current(5)).unwrap(), 15);
    let mut one = vec![0u8; 1];
    assert_eq!(f.read(&mut v, &mut one).unwrap(), 1);
    assert_eq!(one[0], 15);
}

#[test]
fn entry_accessors() {
    let dev = build_image();
    let mut v = VFat::from(dev).unwrap();
    let e = v.open("/SUB").unwrap();
    assert!(e.as_dir().is_some());
    assert!(e.as_file().is_none());
    assert_eq!(e.name().as_str(), "SUB");
    assert!(!e.metadata().read_only());
    assert!(e.into_dir().is_some());
    let e2 = v.open("/DATA.BIN").unwrap();
    assert!(e2.as_file().is_some());
    assert!(e2.as_dir().is_none());
    assert!(e2.into_file().is_some());
}

#[test]
fn bad_mbr_signature_fails_mount() {
    let mut sectors = vec![vec![0u8; 512]; 4];
    sectors[0][510] = 0;
    let dev = MemoryDevice::new(sectors, 512);
    assert!(matches!(VFat::from(dev), Err(Error::BadSignature)));
}

#[test]
fn status_decoding_matches_spec_table() {
    let dev = build_image();
    let mut v = VFat::from(dev).unwrap();
    // cluster 0 holds the media descriptor pattern: treated as EOC here
    match v.next_cluster(Cluster::from(0)) {
        Ok(None) => {}
        other => panic!("cluster 0 should be end-of-chain, got {:?}", other),
    }
    let _ = Status::Free;
}

// A lone surrogate in a long filename decodes to the replacement
// character rather than failing.
#[test]
fn lfn_lone_surrogate_becomes_replacement() {
    let mut data = vec![0u8; 64];
    data[0] = 0x41; // sequence 1, last
    data[11] = 0x0F;
    // units: 'a', a lone high surrogate, 'b', terminator, then fill
    let units: [u16; 13] = [
        0x61, 0xD800, 0x62, 0x0000, 0xFFFF, 0xFFFF, 0xFFFF, 0xFFFF, 0xFFFF, 0xFFFF,
        0xFFFF, 0xFFFF, 0xFFFF,
    ];
    for (k, unit) in units.iter().enumerate() {
        let off = if k < 5 {
            1 + 2 * k
        } else if k < 11 {
            14 + 2 * (k - 5)
        } else {
            28 + 2 * (k - 11)
        };
        data[off] = (unit & 0xFF) as u8;
        data[off + 1] = (unit >> 8) as u8;
    }
    put_regular(&mut data, 1, b"A~1     ", b"   ", 0x20, 12, 0);
    let mut it = DirIter { data, off: 0 };
    match it.next() {
        Some(Entry::FileKind(f)) => assert_eq!(f.name().as_str(), "a\u{FFFD}b"),
        _ => panic!("expected a file"),
    }
}

// The sector cache concatenates physical sectors into logical ones when
// the partition's sector size is a multiple of the device's.
#[test]
fn cached_device_concatenates_physical_sectors() {
    let mut sectors = Vec::new();
    for i in 0..8u8 {
        sectors.push(vec![i; 512]);
    }
    let dev = MemoryDevice::new(sectors, 512);
    let part = Partition { start: 2, sector_size: 1024 };
    let mut cache = CachedDevice::new(dev, part);
    assert_eq!(cache.sector_size(), 1024);
    // logical sector 1 covers physical sectors 4 and 5
    let data = cache.get(1).unwrap();
    assert_eq!(data.len(), 1024);
    assert_eq!(data[0], 4);
    assert_eq!(data[1023], 5);
    // a second read is served from the cache with the same bytes
    let again = cache.get(1).unwrap();
    assert_eq!(data, again);
    // read_offset clips to the end of the logical sector
    let mut buf = vec![0u8; 64];
    let got = cache.read_offset(0, 1000, &mut buf).unwrap();
    assert_eq!(got, 24);
    // bytes past 512 in logical sector 0 come from physical sector 3
    assert_eq!(buf[0], 3);
    assert_eq!(buf[23], 3);
    // an offset past the logical sector is invalid input
    assert!(cache.read_offset(0, 1025, &mut buf).is_err());
    // a logical sector past the device fails
    assert!(cache.get(100).is_err());
}

// The zone-level helpers agree with the block geometry.
// get_mut hands back the same sector bytes as get, loading the sector
// into the cache if it was absent.
#[test]
fn cached_device_get_mut_returns_sector_bytes() {
    let mut sectors = Vec::new();
    for i in 0..8u8 {
        sectors.push(vec![i; 512]);
    }
    let dev = MemoryDevice::new(sectors, 512);
    let part = Partition { start: 2, sector_size: 1024 };
    let mut cache = CachedDevice::new(dev, part);
    let data = cache.get_mut(1).unwrap();
    assert_eq!(data.len(), 1024);
    assert_eq!(data[0], 4);
    assert_eq!(data[1023], 5);
    // a sector already cached by get is answered too
    let seen = cache.get(0).unwrap();
    let writable = cache.get_mut(0).unwrap();
    assert_eq!(seen, writable);
}

#[test]
fn zone_helpers_geometry() {
    let z = BuddyBlockAllocatorZone::new(0x4000, 0, 14, false, Bitmap::new(8));
    assert!(z.is_valid_ptr(0x4000));
    assert!(z.is_valid_ptr(0x8000));
    assert!(!z.is_valid_ptr(0x4001));
    assert_eq!(z.get_ptr_buddy(0x4000), 0x8000);
    assert_eq!(z.get_ptr_buddy(0x8000), 0x4000);
    assert_eq!(z.floor_alloc(0x4123), 0x4000);
}
