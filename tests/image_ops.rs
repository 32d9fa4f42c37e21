use fatimg::{cluster_chain, insert_file, is_end_of_chain, is_free, parse, FatError, Image, NameError, RootEntry};

const SECTOR: usize = 512;
const DATA_START: usize = 4 * SECTOR;

/// One reserved sector, two one-sector tables, a one-sector root directory of 16 slots
/// and `data_sectors` sectors of data.
fn blank_image(data_sectors: usize) -> Vec<u8> {
    let total = 4 + data_sectors;
    let mut b = vec![0u8; total * SECTOR];
    b[11..13].copy_from_slice(&(SECTOR as u16).to_le_bytes());
    b[13] = 1;
    b[14..16].copy_from_slice(&1u16.to_le_bytes());
    b[16] = 2;
    b[17..19].copy_from_slice(&16u16.to_le_bytes());
    b[19..21].copy_from_slice(&(total as u16).to_le_bytes());
    b[22..24].copy_from_slice(&1u16.to_le_bytes());
    b
}

fn fat_at(b: &[u8], copy: usize, c: usize) -> u16 {
    let at = SECTOR + copy * SECTOR + 2 * c;
    u16::from_le_bytes([b[at], b[at + 1]])
}

fn slot(b: &[u8], i: usize) -> RootEntry {
    let at = 3 * SECTOR + 32 * i;
    let mut raw = [0u8; 32];
    raw.copy_from_slice(&b[at..at + 32]);
    RootEntry::decode(&raw)
}

fn sector(b: &[u8], c: usize) -> &[u8] {
    let at = DATA_START + (c - 2) * SECTOR;
    &b[at..at + SECTOR]
}

#[test]
fn parse_reads_geometry() {
    let b = blank_image(64);
    let p = parse(&b).unwrap();
    assert_eq!(p.bytes_per_sector, 512);
    assert_eq!(p.sectors_per_cluster, 1);
    assert_eq!(p.reserved_sectors, 1);
    assert_eq!(p.fat_count, 2);
    assert_eq!(p.root_entry_count, 16);
    assert_eq!(p.sectors_per_fat, 1);
    assert_eq!(p.total_sectors, 68);
    assert_eq!(p.fat_region_offset(), 512);
    assert_eq!(p.root_dir_offset(), 1536);
    assert_eq!(p.data_region_offset(), 2048);
    assert_eq!(p.max_clusters(), 66);
    assert_eq!(p.sector_size(), 512);
}

#[test]
fn parse_takes_the_wide_sector_count() {
    let mut b = blank_image(1);
    b[19] = 0;
    b[20] = 0;
    b[32..36].copy_from_slice(&70_000u32.to_le_bytes());
    assert_eq!(parse(&b).unwrap().total_sectors, 70_000);
}

#[test]
fn parse_rejects_malformed_parameters() {
    assert_eq!(parse(&[0u8; 20]), Err(FatError::Format));
    let mut b = blank_image(4);
    b[11] = 0;
    b[12] = 0;
    assert_eq!(parse(&b), Err(FatError::Format));
    let mut b = blank_image(4);
    b[13] = 0;
    assert_eq!(parse(&b), Err(FatError::Format));
    let b = blank_image(4);
    assert_eq!(parse(&b[..3 * SECTOR]), Err(FatError::Format));
    assert!(Image::from_bytes(vec![0u8; 100]).is_err());
}

#[test]
fn set_entry_then_entry_at() {
    let mut img = Image::from_bytes(blank_image(8)).unwrap();
    img.set_entry_at(7, 0x1234);
    assert_eq!(img.entry_at(7), 0x1234);
    assert_eq!(img.entry_at(6), 0);
    assert_eq!(img.entry_at(8), 0);
    img.set_entry_at(9, 0xFFF8);
    assert_eq!(img.entry_at(9), 0xFFF8);
    let b = img.into_bytes();
    assert_eq!(fat_at(&b, 0, 7), 0x1234);
    assert_eq!(fat_at(&b, 1, 7), 0x1234);
}

#[test]
fn first_free_entry_skips_used_clusters() {
    let mut img = Image::from_bytes(blank_image(8)).unwrap();
    assert_eq!(img.first_free_entry(), Some(2));
    img.set_entry_at(2, 0xFFFF);
    img.set_entry_at(3, 0x0001);
    img.set_entry_at(4, 0xFFF7);
    let c = img.first_free_entry().unwrap();
    assert_eq!(c, 5);
    assert!(is_free(img.entry_at(c)));
    for c in 2..10u16 {
        img.set_entry_at(c, 0xFFFF);
    }
    assert_eq!(img.first_free_entry(), None);
}

#[test]
fn value_classification() {
    assert!(is_free(0));
    assert!(!is_free(1));
    assert!(is_end_of_chain(0xFFF8));
    assert!(is_end_of_chain(0xFFFF));
    assert!(!is_end_of_chain(0xFFF7));
    assert!(!is_end_of_chain(0x0003));
}

#[test]
fn insert_thousand_bytes_takes_two_clusters() {
    let mut img = Image::from_bytes(blank_image(64)).unwrap();
    let data: Vec<u8> = (0..1000u32).map(|i| (i % 251) as u8 + 1).collect();
    let chain = insert_file(&mut img, "data.bin".to_string(), &data).unwrap();
    assert_eq!(chain, vec![2, 3]);
    let entry = img.get_file_entry("DATA.BIN".to_string()).unwrap();
    assert_eq!(entry.file_size, 1000);
    assert_eq!(entry.entry_cluster(), 2);
    assert_eq!(img.entry_at(2), 3);
    assert!(is_end_of_chain(img.entry_at(3)));
    assert_eq!(cluster_chain(&img, 2), Ok(vec![2, 3]));
    let b = img.into_bytes();
    assert_eq!(fat_at(&b, 1, 2), 3);
    assert_eq!(sector(&b, 2), &data[..512]);
    assert_eq!(&sector(&b, 3)[..488], &data[512..]);
    assert!(sector(&b, 3)[488..].iter().all(|&x| x == 0));
    assert_eq!(slot(&b, 0).filename().unwrap(), "DATA.BIN");
}

#[test]
fn insert_allocates_ceiling_of_size_over_sector() {
    let mut img = Image::from_bytes(blank_image(64)).unwrap();
    assert_eq!(insert_file(&mut img, "empty.txt".to_string(), &[]).unwrap().len(), 0);
    assert_eq!(img.get_file_entry("empty.txt".to_string()).unwrap().entry_cluster(), 0);
    assert_eq!(insert_file(&mut img, "one.txt".to_string(), &[7u8; 512]).unwrap(), vec![2]);
    assert_eq!(insert_file(&mut img, "two.txt".to_string(), &[9u8; 513]).unwrap(), vec![3, 4]);
    assert_eq!(cluster_chain(&img, 3), Ok(vec![3, 4]));
    assert_eq!(img.first_free_entry(), Some(5));
}

#[test]
fn insert_reuses_holes_in_the_table() {
    let mut img = Image::from_bytes(blank_image(64)).unwrap();
    img.set_entry_at(3, 0xFFFF);
    let chain = insert_file(&mut img, "a.b".to_string(), &[1u8; 1500]).unwrap();
    assert_eq!(chain, vec![2, 4, 5]);
    assert_eq!(img.entry_at(2), 4);
    assert_eq!(img.entry_at(4), 5);
    assert_eq!(img.entry_at(5), 0xFFFF);
    assert_eq!(img.entry_at(3), 0xFFFF);
}

#[test]
fn insert_existing_name_is_conflict() {
    let mut img = Image::from_bytes(blank_image(64)).unwrap();
    insert_file(&mut img, "a.txt".to_string(), &[1, 2, 3]).unwrap();
    let before = img.bytes().clone();
    assert_eq!(insert_file(&mut img, "A.TXT".to_string(), &[4, 5]), Err(FatError::Conflict));
    assert_eq!(img.bytes(), &before);
}

#[test]
fn insert_into_full_directory() {
    let mut img = Image::from_bytes(blank_image(64)).unwrap();
    for i in 0..16 {
        insert_file(&mut img, format!("f{}.txt", i), &[]).unwrap();
    }
    let before = img.bytes().clone();
    assert_eq!(insert_file(&mut img, "last.txt".to_string(), &[1]), Err(FatError::DirectoryFull));
    assert_eq!(img.bytes(), &before);
}

#[test]
fn insert_reuses_deleted_slot() {
    let mut b = blank_image(64);
    b[3 * SECTOR..3 * SECTOR + 11].copy_from_slice(b"OLD     TXT");
    b[3 * SECTOR] = 0xE5;
    b[3 * SECTOR + 32..3 * SECTOR + 43].copy_from_slice(b"KEEP    TXT");
    let mut img = Image::from_bytes(b).unwrap();
    assert_eq!(img.create_file_entry("new.txt".to_string(), 5).unwrap().1, 0);
    insert_file(&mut img, "new.txt".to_string(), &[1, 2, 3, 4, 5]).unwrap();
    assert_eq!(img.get_file_entry("keep.txt".to_string()).unwrap().file_size, 0);
    assert_eq!(slot(img.bytes(), 0).filename().unwrap(), "NEW.TXT");
}

#[test]
fn insert_bad_name() {
    let mut img = Image::from_bytes(blank_image(64)).unwrap();
    let before = img.bytes().clone();
    assert_eq!(
        insert_file(&mut img, "toolongname.txt".to_string(), &[1]),
        Err(FatError::Name(NameError::TooLong))
    );
    assert_eq!(insert_file(&mut img, "noext".to_string(), &[1]), Err(FatError::Name(NameError::BadFormat)));
    assert_eq!(img.bytes(), &before);
}

#[test]
fn insert_runs_out_of_clusters() {
    let mut img = Image::from_bytes(blank_image(64)).unwrap();
    for c in 2..66u16 {
        img.set_entry_at(c, 0xFFFF);
    }
    img.set_entry_at(10, 0);
    assert_eq!(insert_file(&mut img, "big.dat".to_string(), &[1u8; 1024]), Err(FatError::FatExhausted));
}

#[test]
fn insert_past_the_end_of_the_image() {
    let mut short = blank_image(64);
    short.truncate(DATA_START + SECTOR);
    let mut img = Image::from_bytes(short).unwrap();
    assert_eq!(insert_file(&mut img, "big.dat".to_string(), &[1u8; 1024]), Err(FatError::Range));
    let mut small = Image::from_bytes(blank_image(1)).unwrap();
    assert_eq!(small.max_clusters(), 3);
    assert_eq!(insert_file(&mut small, "big.dat".to_string(), &[1u8; 1024]), Err(FatError::FatExhausted));
}

#[test]
fn write_data_sector_pads_and_checks_range() {
    let mut img = Image::from_bytes(blank_image(4)).unwrap();
    assert_eq!(img.write_data_sector(3, &[0xAA; 10]), Ok(()));
    assert_eq!(img.write_data_sector(1, &[0xAA; 10]), Err(FatError::Range));
    assert_eq!(img.write_data_sector(6, &[0xAA; 10]), Err(FatError::Range));
    assert_eq!(img.write_data_sector(5, &[0xBB; 600]), Ok(()));
    let b = img.into_bytes();
    assert_eq!(&sector(&b, 3)[..10], &[0xAA; 10]);
    assert!(sector(&b, 3)[10..].iter().all(|&x| x == 0));
    assert!(sector(&b, 5).iter().all(|&x| x == 0xBB));
}

#[test]
fn save_file_entry_writes_slot() {
    let mut img = Image::from_bytes(blank_image(4)).unwrap();
    let (mut e, i) = img.create_file_entry("notes.md".to_string(), 42).unwrap();
    assert_eq!(i, 0);
    e.set_entry_cluster(9).unwrap();
    assert_eq!(img.save_file_entry(e, 3), Ok(()));
    assert_eq!(img.save_file_entry(e, 16), Err(FatError::Range));
    assert_eq!(slot(img.bytes(), 3), e);
    assert_eq!(img.get_file_entry("notes.md".to_string()), Err(FatError::NotFound));
    assert_eq!(img.save_file_entry(e, 0), Ok(()));
    assert_eq!(img.get_file_entry("notes.md".to_string()).unwrap(), e);
}

#[test]
fn lookup_stops_at_end_of_directory() {
    let mut b = blank_image(4);
    b[3 * SECTOR + 64..3 * SECTOR + 75].copy_from_slice(b"HIDDEN  TXT");
    let img = Image::from_bytes(b).unwrap();
    assert_eq!(img.get_file_entry("hidden.txt".to_string()), Err(FatError::NotFound));
    assert_eq!(img.get_file_entry("bad".to_string()), Err(FatError::NotFound));
    assert_eq!(img.get_file_entry("toolongname.txt".to_string()), Err(FatError::NotFound));
}

#[test]
fn chain_with_a_cycle_is_corrupt() {
    let mut img = Image::from_bytes(blank_image(8)).unwrap();
    img.set_entry_at(5, 5);
    assert_eq!(cluster_chain(&img, 5), Err(FatError::CorruptChain));
    img.set_entry_at(6, 7);
    img.set_entry_at(7, 6);
    assert_eq!(cluster_chain(&img, 6), Err(FatError::CorruptChain));
}

#[test]
fn chain_stops_at_values_that_name_no_cluster() {
    let mut img = Image::from_bytes(blank_image(8)).unwrap();
    img.set_entry_at(4, 9);
    img.set_entry_at(9, 0xFFF8);
    assert_eq!(cluster_chain(&img, 4), Ok(vec![4, 9]));
    img.set_entry_at(9, 0);
    assert_eq!(cluster_chain(&img, 4), Ok(vec![4, 9]));
    assert_eq!(cluster_chain(&img, 0), Ok(vec![]));
    assert_eq!(img.sector_size(), 512);
    assert_eq!(img.max_clusters(), 10);
}

#[test]
fn insert_leaves_other_bytes_alone() {
    let mut b = blank_image(64);
    b[3 * SECTOR + 32..3 * SECTOR + 43].copy_from_slice(b"KEEP    TXT");
    b[3 * SECTOR] = 0xE5;
    let last = b.len() - 1;
    b[last] = 0x5A;
    b[100] = 0x77;
    let mut img = Image::from_bytes(b.clone()).unwrap();
    let chain = insert_file(&mut img, "x.y".to_string(), &[3u8; 700]).unwrap();
    assert_eq!(chain, vec![2, 3]);
    let after = img.into_bytes();
    assert_eq!(after.len(), b.len());
    assert_eq!(after[last], 0x5A);
    assert_eq!(after[100], 0x77);
    assert_eq!(&after[3 * SECTOR + 32..3 * SECTOR + 64], &b[3 * SECTOR + 32..3 * SECTOR + 64]);
    assert_eq!(fat_at(&after, 0, 4), 0);
    assert_eq!(fat_at(&after, 1, 3), 0xFFFF);
    assert!(sector(&after, 4).iter().all(|&x| x == 0));
}

#[test]
fn insert_leaves_table_bytes_past_the_clusters_alone() {
    let mut b = blank_image(64);
    b[SECTOR + 511] = 0x42;
    b[2 * SECTOR + 200] = 0x24;
    let mut img = Image::from_bytes(b).unwrap();
    assert_eq!(insert_file(&mut img, "t.t".to_string(), &[5u8; 600]).unwrap(), vec![2, 3]);
    let after = img.into_bytes();
    assert_eq!(after[SECTOR + 511], 0x42);
    assert_eq!(after[2 * SECTOR + 200], 0x24);
    assert_eq!(fat_at(&after, 1, 2), 3);
}
