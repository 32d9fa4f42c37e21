use fatimg::root_entry::encode_short_name;
use fatimg::{NameError, FatError, RootEntry};

fn raw_entry(name: &[u8; 11]) -> [u8; 32] {
    let mut b = [0u8; 32];
    b[..11].copy_from_slice(name);
    b
}

#[test]
fn new_entry_is_blank() {
    let e = RootEntry::new();
    assert_eq!(e.filename, [0u8; 8]);
    assert_eq!(e.extension, [0u8; 3]);
    assert!(e.is_free() && e.rest_are_free());
    assert_eq!(e.encode(), [0u8; 32]);
    assert_eq!(e.file_size, 0);
    assert_eq!(e.entry_cluster(), 0);
    assert!(!e.is_read_only());
    assert_eq!(e.encode()[11], 0);
}

#[test]
fn short_name_of_readme_txt() {
    let e = RootEntry::decode(&raw_entry(b"README  TXT"));
    assert_eq!(e.filename().unwrap(), "README.TXT");
}

#[test]
fn short_name_trims_both_fields() {
    let e = RootEntry::decode(&raw_entry(b"A       C  "));
    assert_eq!(e.filename().unwrap(), "A.C");
}

#[test]
fn short_name_rejects_eight_bit_bytes() {
    let mut raw = raw_entry(b"README  TXT");
    raw[2] = 0xC3;
    let e = RootEntry::decode(&raw);
    assert_eq!(e.filename(), Err(NameError::BadFormat));
    assert_eq!(e.filename_full(), "BAD FILENAME");
}

#[test]
fn full_name_keeps_padding() {
    let e = RootEntry::decode(&raw_entry(b"README  TXT"));
    assert_eq!(e.filename_full(), "README  .TXT");
}

#[test]
fn encode_then_decode_gives_the_entry_back() {
    let mut e = RootEntry::new();
    e.set_filename("kernel.bin".to_string()).unwrap();
    e.set_size(0x0102_0304).unwrap();
    e.set_entry_cluster(0xBEEF).unwrap();
    e.set_is_hidden(true);
    e.set_is_archive(true);
    e.creation_time = 0x1234;
    e.creation_date = 0x5678;
    e.last_access_date = 0x9ABC;
    e.last_write_time = 0xDEF0;
    e.last_write_date = 0x0FED;
    e.hi_first_lcluster = 0x0007;
    e.reserved = 0xA55A;
    let bytes = e.encode();
    assert_eq!(RootEntry::decode(&bytes), e);
    assert_eq!(&bytes[28..32], &[0x04, 0x03, 0x02, 0x01]);
    assert_eq!(&bytes[26..28], &[0xEF, 0xBE]);
}

#[test]
fn decode_then_encode_keeps_every_byte() {
    let mut raw = [0u8; 32];
    for (i, b) in raw.iter_mut().enumerate() {
        *b = (i as u8).wrapping_mul(37).wrapping_add(5);
    }
    assert_eq!(RootEntry::decode(&raw).encode(), raw);
}

#[test]
fn set_filename_uppercases_and_pads() {
    let mut e = RootEntry::new();
    assert_eq!(e.set_filename("readme.txt".to_string()), Ok(()));
    assert_eq!(&e.filename, b"README  ");
    assert_eq!(&e.extension, b"TXT");
    assert_eq!(e.filename().unwrap(), "README.TXT");
}

#[test]
fn set_filename_full_length_name() {
    let mut e = RootEntry::new();
    assert_eq!(e.set_filename("abcdefgh.ijk".to_string()), Ok(()));
    assert_eq!(&e.filename, b"ABCDEFGH");
    assert_eq!(&e.extension, b"IJK");
}

#[test]
fn set_filename_too_long() {
    let mut e = RootEntry::new();
    assert_eq!(e.set_filename("longfilename.txt".to_string()), Err(NameError::TooLong));
    assert_eq!(e.set_filename("a.text".to_string()), Err(NameError::TooLong));
    assert_eq!(e.filename, [0u8; 8]);
}

#[test]
fn set_filename_bad_format() {
    let mut e = RootEntry::new();
    assert_eq!(e.set_filename("nodot".to_string()), Err(NameError::BadFormat));
    assert_eq!(e.set_filename("a.b.c".to_string()), Err(NameError::BadFormat));
    assert_eq!(e.set_filename("é.txt".to_string()), Err(NameError::BadFormat));
    assert_eq!(e.extension, [0u8; 3]);
}

#[test]
fn encode_short_name_fields() {
    assert_eq!(encode_short_name(b"a.b"), Ok((*b"A       ", *b"B  ")));
    assert_eq!(encode_short_name(b".x"), Ok((*b"        ", *b"X  ")));
    assert_eq!(encode_short_name(b"abcdefghi.x"), Err(NameError::TooLong));
}

#[test]
fn attribute_flags_are_independent() {
    let mut e = RootEntry::new();
    e.set_is_read_only(true);
    e.set_is_system(true);
    e.set_is_subdir(true);
    assert!(e.is_read_only() && e.is_system() && e.is_subdir());
    assert!(!e.is_hidden() && !e.is_volume_label() && !e.is_archive());
    assert_eq!(e.encode()[11], 0x15);
    e.set_is_system(false);
    e.set_is_volume_label(true);
    e.set_is_hidden(true);
    e.set_is_archive(true);
    assert!(!e.is_system());
    assert_eq!(e.encode()[11], 0x3B);
    e.set_is_read_only(false);
    assert_eq!(e.encode()[11], 0x3A);
}

#[test]
fn entry_cluster_halves() {
    let mut e = RootEntry::new();
    assert_eq!(e.set_entry_cluster(0x1234), Ok(()));
    assert_eq!(e.lo_first_lcluster, 0x1234);
    assert_eq!(e.entry_cluster(), 0x1234);
    e.hi_first_lcluster = 2;
    assert_eq!(e.entry_cluster(), 0x0002_1234);
    assert_eq!(e.set_entry_cluster(0x1_0000), Err(FatError::Unsupported));
    assert_eq!(e.lo_first_lcluster, 0x1234);
}

#[test]
fn free_slot_markers() {
    let end = RootEntry::decode(&[0u8; 32]);
    assert!(end.is_free() && end.rest_are_free());
    let mut raw = raw_entry(b"README  TXT");
    raw[0] = 0xE5;
    let deleted = RootEntry::decode(&raw);
    assert!(deleted.is_free() && !deleted.rest_are_free());
    let used = RootEntry::decode(&raw_entry(b"README  TXT"));
    assert!(!used.is_free() && !used.rest_are_free());
}

#[test]
fn full_name_decodes_utf8_fields() {
    let mut raw = raw_entry(b"        TXT");
    raw[0] = 0xC3;
    raw[1] = 0xA9;
    let e = RootEntry::decode(&raw);
    assert_eq!(e.filename_full(), "é      .TXT");
    assert_eq!(e.filename(), Err(NameError::BadFormat));
}
