use dsunpack::bucket::GroupedFiles;
use dsunpack::containers::{read_nametable, write_nametable, PKAC};
use dsunpack::error::ArchiveError;
use dsunpack::file_type::{FileType, HPAK_MAGIC, P2_MAGIC, PKAC_MAGIC};
use dsunpack::p2::{P2File, P2Subfile};

fn u16_at(b: &[u8], off: usize) -> u16 {
    u16::from_le_bytes([b[off], b[off + 1]])
}

fn u32_at(b: &[u8], off: usize) -> u32 {
    u32::from_le_bytes([b[off], b[off + 1], b[off + 2], b[off + 3]])
}

fn subfile(index: u16, content: &[u8], compressed: bool, name: Option<&str>) -> P2Subfile {
    P2Subfile {
        index,
        compressed,
        content: content.to_vec(),
        name: name.map(|n| n.as_bytes().to_vec()),
    }
}

#[test]
fn segmented_two_unnamed_subfiles_layout() {
    let archive = P2File {
        named: false,
        subfiles: vec![subfile(0, b"abcd", false, None), subfile(1, b"xyz", false, None)],
    };
    let bytes = archive.to_bytes().unwrap();
    assert_eq!(bytes.len(), 1536);
    assert_eq!(u16_at(&bytes, 0), P2_MAGIC);
    assert_eq!(u16_at(&bytes, 2), 0x0002);
    assert!(bytes[4..12].iter().all(|b| *b == 0));
    assert_eq!(u32_at(&bytes, 12), 512);
    assert_eq!(u16_at(&bytes, 16), 0);
    assert_eq!(u16_at(&bytes, 18), 1);
    assert_eq!(u32_at(&bytes, 20), 4);
    assert_eq!(u32_at(&bytes, 24), 3);
    assert!(bytes[28..512].iter().all(|b| *b == 0));
    assert_eq!(&bytes[512..516], b"abcd");
    assert!(bytes[516..1024].iter().all(|b| *b == 0));
    assert_eq!(&bytes[1024..1027], b"xyz");
}

#[test]
fn segmented_full_block_gets_an_extra_pad_block() {
    let archive = P2File { named: false, subfiles: vec![subfile(0, &[7u8; 512], false, None)] };
    let bytes = archive.to_bytes().unwrap();
    // header (one block) + content (one block) + one whole block of padding
    assert_eq!(bytes.len(), 1536);
    assert_eq!(u16_at(&bytes, 16), 0);
    // odd count: two bytes of padding after the block-index table
    assert_eq!(u16_at(&bytes, 18), 0);
    assert_eq!(u32_at(&bytes, 20), 512);
}

#[test]
fn segmented_named_compressed_round_trip() {
    let archive = P2File {
        named: true,
        subfiles: vec![
            subfile(0, b"hello", true, Some("first")),
            subfile(1, b"", false, Some("eightchr")),
            subfile(2, &[1u8; 700], false, Some("x")),
        ],
    };
    let bytes = archive.to_bytes().unwrap();
    let decoded = P2File::parse(&bytes).unwrap();
    assert!(decoded.named);
    assert_eq!(decoded.subfiles.len(), 3);
    assert_eq!(decoded.subfiles[0].content, b"hello".to_vec());
    assert!(decoded.subfiles[0].compressed);
    assert_eq!(decoded.subfiles[0].name, Some(b"first".to_vec()));
    assert_eq!(decoded.subfiles[1].content.len(), 0);
    assert_eq!(decoded.subfiles[1].name, Some(b"eightchr".to_vec()));
    assert_eq!(decoded.subfiles[2].content, vec![1u8; 700]);
    assert_eq!(decoded.subfiles[2].index, 2);
    assert_eq!(decoded.to_bytes().unwrap(), bytes);
}

#[test]
fn segmented_decode_rejects_truncation() {
    let archive = P2File { named: false, subfiles: vec![subfile(0, b"abcd", false, None)] };
    let bytes = archive.to_bytes().unwrap();
    assert_eq!(P2File::parse(&bytes[..10]).err(), Some(ArchiveError::MalformedContainer));
    assert_eq!(P2File::parse(&bytes[..514]).err(), Some(ArchiveError::MalformedContainer));
    assert!(P2File::parse(&bytes[..516]).is_ok());
}

#[test]
fn segmented_encode_rejects_long_name() {
    let archive = P2File { named: true, subfiles: vec![subfile(0, b"a", false, Some("ninechars"))] };
    assert_eq!(archive.to_bytes().err(), Some(ArchiveError::EncodingInconsistency));
    let unnamed = P2File { named: true, subfiles: vec![subfile(0, b"a", false, None)] };
    assert_eq!(unnamed.to_bytes().err(), Some(ArchiveError::EncodingInconsistency));
}

fn groups(buckets: Vec<Vec<Vec<u8>>>) -> GroupedFiles {
    GroupedFiles { buckets }
}

#[test]
fn bucket_single_blob_layout() {
    let mut b = vec![Vec::new(); 8];
    b[0] = vec![vec![9u8; 10]];
    let bytes = groups(b).to_bytes(HPAK_MAGIC).unwrap();
    assert_eq!(bytes.len(), 8 + 32 + 12 + 10);
    assert_eq!(u32_at(&bytes, 0), HPAK_MAGIC);
    assert_eq!(u32_at(&bytes, 4), 0);
    assert_eq!(u32_at(&bytes, 8), 40);
    for i in 1..8 {
        assert_eq!(u32_at(&bytes, 8 + 4 * i), 0xFFFF_FFFF);
    }
    assert_eq!(u32_at(&bytes, 40), 1);
    assert_eq!(u32_at(&bytes, 44), 52);
    assert_eq!(u32_at(&bytes, 48), 10);
    assert_eq!(&bytes[52..62], &[9u8; 10]);
}

#[test]
fn bucket_round_trip_keeps_order_and_empties() {
    let mut b = vec![Vec::new(); 8];
    b[1] = vec![b"one".to_vec(), Vec::new(), b"three".to_vec()];
    b[7] = vec![b"last".to_vec()];
    let bytes = groups(b.clone()).to_bytes(PKAC_MAGIC).unwrap();
    let decoded = GroupedFiles::parse(&bytes).unwrap();
    assert_eq!(decoded.buckets, b);
    assert_eq!(decoded.to_bytes(PKAC_MAGIC).unwrap(), bytes);
}

#[test]
fn bucket_decode_rejects_bad_offsets() {
    let mut b = vec![Vec::new(); 8];
    b[0] = vec![b"data".to_vec()];
    let mut bytes = groups(b).to_bytes(HPAK_MAGIC).unwrap();
    assert_eq!(GroupedFiles::parse(&bytes[..39]).err(), Some(ArchiveError::MalformedContainer));
    // point the blob past the end
    bytes[44] = 0xF0;
    assert_eq!(GroupedFiles::parse(&bytes).err(), Some(ArchiveError::MalformedContainer));
}

fn pkac_groups(names: &[&str], payload: Vec<Vec<u8>>) -> GroupedFiles {
    let table = write_nametable(&names.iter().map(|n| n.as_bytes().to_vec()).collect()).unwrap();
    let mut b = vec![Vec::new(); 8];
    b[0] = vec![table];
    b[1] = payload;
    groups(b)
}

#[test]
fn pkac_pairs_names_with_files() {
    let g = pkac_groups(&["a", "bb"], vec![b"blob0".to_vec(), b"blob1".to_vec()]);
    let p = PKAC::try_from_groups(g).unwrap();
    assert_eq!(
        p.files,
        vec![(b"a".to_vec(), b"blob0".to_vec()), (b"bb".to_vec(), b"blob1".to_vec())]
    );
}

#[test]
fn pkac_rejects_short_name_table() {
    let g = pkac_groups(&["a", "bb"], vec![b"0".to_vec(), b"1".to_vec(), b"2".to_vec()]);
    assert_eq!(PKAC::try_from_groups(g).err(), Some(ArchiveError::MalformedContainer));
}

#[test]
fn pkac_requires_both_buckets() {
    let mut b = vec![Vec::new(); 8];
    b[1] = vec![b"x".to_vec()];
    assert_eq!(PKAC::try_from_groups(groups(b)).err(), Some(ArchiveError::MalformedContainer));
}

#[test]
fn nametable_layout_and_round_trip() {
    let names = vec![b"a".to_vec(), b"bb".to_vec()];
    let table = write_nametable(&names).unwrap();
    assert_eq!(table, vec![2, 0, 6, 0, 8, 0, b'a', 0, b'b', b'b', 0]);
    assert_eq!(read_nametable(&table).unwrap(), names);
    // no terminating NUL
    assert_eq!(read_nametable(&[1, 0, 4, 0, b'a']).err(), Some(ArchiveError::MalformedContainer));
}

#[test]
fn pkac_groups_round_trip() {
    let p = PKAC { files: vec![(b"n".to_vec(), b"payload".to_vec())], extra_names: vec![] };
    let g = p.into_groups().unwrap();
    assert_eq!(g.buckets[1], vec![b"payload".to_vec()]);
    let back = PKAC::try_from_groups(g).unwrap();
    assert_eq!(back.files, vec![(b"n".to_vec(), b"payload".to_vec())]);
}

#[test]
fn classification_reads_only_leading_bytes() {
    let a = FileType::guess_from(b"HPAKxxxx", false);
    let b = FileType::guess_from(b"HPAK\x00\x01\x02", true);
    assert_eq!(a, FileType::HPAK);
    assert_eq!(a, b);
    assert_eq!(FileType::guess_from(b"PK2D", false), FileType::PK2D);
    assert_eq!(FileType::guess_from(b"PKAC....", false), FileType::PKAC);
    assert_eq!(FileType::guess_from(b"BMD0", false), FileType::NSBMD);
    assert_eq!(FileType::guess_from(b"RGCN", false), FileType::NCGR);
    assert_eq!(FileType::guess_from(b"P2\x01\x00", false), FileType::P2);
    assert_eq!(FileType::guess_from(b"abc", true), FileType::OtherOrNotGuessable);
    assert_eq!(FileType::guess_from(&[0x10, 1, 2, 3], true), FileType::LZ);
    assert_eq!(FileType::guess_from(&[0x11, 1, 2, 3], true), FileType::LZ);
    assert_eq!(FileType::guess_from(&[0x10, 1, 2, 3], false), FileType::OtherOrNotGuessable);
}

#[test]
fn extensions_and_packed_kinds() {
    assert_eq!(FileType::P2.get_extension(), "p2");
    assert_eq!(FileType::Unknown5.get_extension(), "5.bin");
    assert_eq!(FileType::OtherOrNotGuessable.get_extension(), "bin");
    assert_eq!(FileType::SDAT.get_extension(), "sdat");
    assert!(FileType::PKAC.still_packed());
    assert!(FileType::LZ.still_packed());
    assert!(!FileType::NSBMD.still_packed());
}

#[test]
fn nametable_of_exactly_65536_bytes() {
    let names = vec![vec![b'n'; 65531]];
    let table = write_nametable(&names).unwrap();
    assert_eq!(table.len(), 65536);
    assert_eq!(read_nametable(&table).unwrap(), names);
    let p = PKAC { files: vec![(names[0].clone(), b"x".to_vec())], extra_names: vec![] };
    assert!(p.into_groups().is_ok());
    // one more byte pushes no offset out of range either
    assert!(write_nametable(&vec![vec![b'n'; 65532]]).is_ok());
    // but a second name starting past 65535 is refused
    let two = vec![vec![b'n'; 65532], b"m".to_vec()];
    assert_eq!(write_nametable(&two).err(), Some(ArchiveError::EncodingInconsistency));
}

#[test]
fn pkac_keeps_names_beyond_its_files() {
    let g = pkac_groups(&["a", "bb", "ccc"], vec![b"blob0".to_vec(), b"blob1".to_vec()]);
    let table = g.buckets[0][0].clone();
    let p = PKAC::try_from_groups(g).unwrap();
    assert_eq!(p.files.len(), 2);
    assert_eq!(p.extra_names, vec![b"ccc".to_vec()]);
    let back = p.into_groups().unwrap();
    assert_eq!(back.buckets[0], vec![table]);
    assert_eq!(back.buckets[1], vec![b"blob0".to_vec(), b"blob1".to_vec()]);
}
