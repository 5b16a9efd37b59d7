use dsunpack::bucket::GroupedFiles;
use dsunpack::containers::write_nametable;
use dsunpack::error::ArchiveError;
use dsunpack::extract::{handle_file, Child, FileQueueEntry, Unpacked};
use dsunpack::file_type::{FileType, HPAK_MAGIC, PKAC_MAGIC};
use dsunpack::meta::{DirectoryMeta, FileMeta, LZMeta, LZType, P2Meta, P2SubfileMeta};
use dsunpack::p2::{P2File, P2Subfile};
use dsunpack::pack::{pack_file, Effect, Need, PackInputs, PackStop};
use dsunpack::path::RelPath;
use dsunpack::text::decimal_string;
use dsunpack::tree::MetaTree;

fn path(segs: &[&str]) -> RelPath {
    let mut p = RelPath::new();
    for s in segs {
        p.push(s.to_string());
    }
    p
}

fn segs(p: &RelPath) -> Vec<String> {
    p.segments().to_vec()
}

fn entry(content: Vec<u8>, at: &[&str]) -> FileQueueEntry {
    FileQueueEntry { content, path: path(at), type_hint: None, compression_hint: None }
}

fn child_entry(c: &Child) -> &FileQueueEntry {
    match c {
        Child::Entry(e) => e,
        Child::Empty => panic!("expected an entry"),
    }
}

fn sample_p2() -> Vec<u8> {
    P2File {
        named: false,
        subfiles: vec![
            P2Subfile { index: 0, compressed: false, content: b"BMD0rest".to_vec(), name: None },
            P2Subfile { index: 1, compressed: false, content: Vec::new(), name: None },
            P2Subfile { index: 2, compressed: false, content: b"plain".to_vec(), name: None },
        ],
    }
    .to_bytes()
    .unwrap()
}

#[test]
fn rel_path_operations() {
    let mut p = RelPath::new();
    assert_eq!(p.peek(), "");
    p.push("a".to_string());
    p.push(String::new());
    p.push("b".to_string());
    assert_eq!(segs(&p), vec!["a", "b"]);
    assert_eq!(p.peek(), "b");
    let q = p.duplicate().prepend("root".to_string());
    assert_eq!(segs(&q), vec!["root", "a", "b"]);
    assert!(!q.same(&p));
    assert_eq!(p.pop(), Some("b".to_string()));
    assert_eq!(segs(&p), vec!["a"]);
}

#[test]
fn decimal_names() {
    assert_eq!(decimal_string(0), "0");
    assert_eq!(decimal_string(7), "7");
    assert_eq!(decimal_string(1203), "1203");
}

#[test]
fn plain_file_is_written_as_is() {
    let e = entry(b"just bytes".to_vec(), &["dir", "f.dat"]);
    let u = handle_file(&e).unwrap();
    match &u.meta {
        FileMeta::OtherFile(n) => assert_eq!(n, "f.dat"),
        _ => panic!("expected a stored file"),
    }
    let (p, c) = u.write.unwrap();
    assert_eq!(segs(&p), vec!["dir", "f.dat"]);
    assert_eq!(c, b"just bytes".to_vec());
    assert!(u.children.is_empty());
}

#[test]
fn empty_file_becomes_empty_leaf() {
    let u = handle_file(&entry(Vec::new(), &["e"])).unwrap();
    assert!(matches!(u.meta, FileMeta::EmptyFile));
    assert!(u.write.is_none());
}

#[test]
fn segmented_archive_is_unpacked_in_order() {
    let u: Unpacked = handle_file(&entry(sample_p2(), &["data", "arc.bin"])).unwrap();
    assert_eq!(segs(u.create_dir.as_ref().unwrap()), vec!["data", "arc.bin"]);
    match &u.meta {
        FileMeta::P2(m) => {
            assert_eq!(m.get_unpacked_name(), "arc.bin");
            assert_eq!(m.get_files().len(), 3);
        },
        _ => panic!("expected a segmented archive"),
    }
    assert_eq!(u.children.len(), 3);
    let first = child_entry(&u.children[0]);
    assert_eq!(segs(&first.path), vec!["data", "arc.bin", "0.nsbmd"]);
    assert_eq!(first.type_hint, Some(FileType::NSBMD));
    assert_eq!(first.compression_hint, Some(false));
    assert!(matches!(u.children[1], Child::Empty));
    let third = child_entry(&u.children[2]);
    assert_eq!(segs(&third.path), vec!["data", "arc.bin", "2.bin"]);
    assert_eq!(third.content, b"plain".to_vec());
}

#[test]
fn lz_stream_is_decompressed() {
    // LZ10, three bytes, one flag byte of literals
    let stream = vec![0x10, 0x03, 0x00, 0x00, 0x00, b'a', b'b', b'c'];
    let u = handle_file(&entry(stream, &["c.lz"])).unwrap();
    match &u.meta {
        FileMeta::LZ(l) => assert!(l.get_lz_type() == LZType::LZ10),
        _ => panic!("expected an LZ node"),
    }
    let c = child_entry(&u.children[0]);
    assert_eq!(c.content, b"abc".to_vec());
    assert_eq!(c.compression_hint, Some(false));
}

#[test]
fn broken_lz_stream_is_malformed() {
    let e = FileQueueEntry {
        content: vec![0x10, 0x10, 0x00, 0x00],
        path: path(&["x"]),
        type_hint: Some(FileType::LZ),
        compression_hint: None,
    };
    assert_eq!(handle_file(&e).err(), Some(ArchiveError::MalformedContainer));
}

#[test]
fn hpak_children_are_named_by_bucket_kind() {
    let mut b = vec![Vec::new(); 8];
    b[7] = vec![b"model".to_vec(), b"model2".to_vec()];
    let bytes = GroupedFiles { buckets: b }.to_bytes(HPAK_MAGIC).unwrap();
    let u = handle_file(&entry(bytes, &["m.hpak"])).unwrap();
    assert_eq!(u.children.len(), 2);
    let c = child_entry(&u.children[1]);
    assert_eq!(segs(&c.path), vec!["m.hpak", "1.nsbmd"]);
    assert_eq!(c.type_hint, Some(FileType::NSBMD));
    assert_eq!(c.content, b"model2".to_vec());
}

#[test]
fn pkac_children_take_their_names() {
    let table = write_nametable(&vec![b"a".to_vec(), b"bb".to_vec()]).unwrap();
    let mut b = vec![Vec::new(); 8];
    b[0] = vec![table];
    b[1] = vec![b"RLCNxx".to_vec(), b"zz".to_vec()];
    let bytes = GroupedFiles { buckets: b }.to_bytes(PKAC_MAGIC).unwrap();
    let u = handle_file(&entry(bytes, &["p"])).unwrap();
    assert_eq!(segs(&child_entry(&u.children[0]).path), vec!["p", "a.nclr"]);
    assert_eq!(segs(&child_entry(&u.children[1]).path), vec!["p", "bb.bin"]);
}

#[test]
fn pkac_with_invalid_utf8_name_is_malformed() {
    let table = write_nametable(&vec![vec![0xFF, 0xFE]]).unwrap();
    let mut b = vec![Vec::new(); 8];
    b[0] = vec![table];
    b[1] = vec![b"x".to_vec()];
    let bytes = GroupedFiles { buckets: b }.to_bytes(PKAC_MAGIC).unwrap();
    assert_eq!(handle_file(&entry(bytes, &["p"])).err(), Some(ArchiveError::MalformedContainer));
}

#[test]
fn capabilities_fill_the_tree_once() {
    let (mut tree, root) = MetaTree::new();
    assert_eq!(root.slot(), 0);
    let mut dir = DirectoryMeta::create(String::new());
    dir.add("a".to_string());
    dir.add("b".to_string());
    dir.add("a".to_string());
    assert_eq!(dir.get_files().len(), 2);
    let refs = root.submit(&mut tree, FileMeta::Directory(dir)).unwrap();
    assert_eq!(refs.len(), 2);
    assert_eq!(tree.len(), 3);
    assert!(!tree.is_complete());
    assert_eq!(tree.into_tree().err(), Some(ArchiveError::EncodingInconsistency));
    let mut it = refs.into_iter();
    let ra = it.next().unwrap();
    let rb = it.next().unwrap();
    assert!(ra.submit(&mut tree, FileMeta::OtherFile("a".to_string())).unwrap().is_empty());
    let lz = rb.submit(&mut tree, FileMeta::LZ(LZMeta::new(LZType::LZ11))).unwrap();
    assert_eq!(lz.len(), 1);
    for r in lz {
        // an unwritten node is no transition
        assert_eq!(tree.write(r, FileMeta::Uninitialized).err(), Some(ArchiveError::EncodingInconsistency));
    }
    assert!(!tree.is_complete());
}

#[test]
fn assembled_tree_has_every_node() {
    let (mut tree, root) = MetaTree::new();
    let mut dir = DirectoryMeta::create(String::new());
    dir.add("x".to_string());
    let refs = root.submit(&mut tree, FileMeta::Directory(dir)).unwrap();
    for r in refs {
        r.submit(&mut tree, FileMeta::EmptyFile).unwrap();
    }
    assert!(tree.is_complete());
    match tree.into_tree().unwrap() {
        FileMeta::Directory(d) => {
            assert_eq!(d.get_files().len(), 1);
            assert_eq!(d.get_files()[0].0, "x");
            assert!(matches!(d.get_files()[0].1, FileMeta::EmptyFile));
        },
        _ => panic!("expected a directory"),
    }
}

#[test]
fn packing_unresolved_node_fails() {
    let r = pack_file(&RelPath::new(), &FileMeta::Uninitialized, &PackInputs::new());
    assert!(matches!(r, Err(PackStop::Fail(ArchiveError::EncodingInconsistency))));
}

#[test]
fn packing_asks_for_reads_and_compressions() {
    let meta = FileMeta::P2(P2Meta {
        unpacked_name: "arc".to_string(),
        files: vec![
            P2SubfileMeta { compressed: true, file: FileMeta::OtherFile("0.bin".to_string()) },
            P2SubfileMeta { compressed: false, file: FileMeta::EmptyFile },
        ],
    });
    let parent = path(&["top"]);
    let mut inp = PackInputs::new();
    let first = pack_file(&parent, &meta, &inp);
    let wanted = match first {
        Err(PackStop::Missing(Need::Read(p))) => p,
        _ => panic!("expected a read"),
    };
    assert_eq!(segs(&wanted), vec!["top", "arc", "0.bin"]);
    inp.add_file(wanted, b"abc".to_vec());
    let second = pack_file(&parent, &meta, &inp);
    let plain = match second {
        Err(PackStop::Missing(Need::Compress(b))) => b,
        _ => panic!("expected a compression"),
    };
    assert_eq!(plain, b"abc".to_vec());
    inp.add_compressed(plain, b"ZZ".to_vec());
    let done = pack_file(&parent, &meta, &inp).ok().unwrap();
    let decoded = P2File::parse(&done.bytes).unwrap();
    assert_eq!(decoded.subfiles[0].content, b"ZZ".to_vec());
    assert!(decoded.subfiles[0].compressed);
    assert!(decoded.subfiles[1].content.is_empty());
}

#[test]
fn extract_then_pack_gives_the_same_bytes() {
    let original = sample_p2();
    let u = handle_file(&entry(original.clone(), &["arc.bin"])).unwrap();
    let (mut tree, root) = MetaTree::new();
    let refs = root.submit(&mut tree, u.meta).unwrap();
    let mut inp = PackInputs::new();
    for (r, c) in refs.into_iter().zip(u.children.into_iter()) {
        match c {
            Child::Empty => {
                r.submit(&mut tree, FileMeta::EmptyFile).unwrap();
            },
            Child::Entry(e) => {
                let leaf = handle_file(&e).unwrap();
                r.submit(&mut tree, leaf.meta).unwrap();
                let (p, bytes) = leaf.write.unwrap();
                inp.add_file(p, bytes);
            },
        }
    }
    let meta = tree.into_tree().unwrap();
    let packed = pack_file(&RelPath::new(), &meta, &inp).ok().unwrap();
    assert_eq!(packed.bytes, original);
}

#[test]
fn directory_packing_writes_entries() {
    let meta = FileMeta::Directory(DirectoryMeta {
        unpacked_name: "d".to_string(),
        files: vec![("f".to_string(), FileMeta::EmptyFile)],
    });
    let done = pack_file(&RelPath::new(), &meta, &PackInputs::new()).ok().unwrap();
    assert!(done.bytes.is_empty());
    assert_eq!(done.effects.len(), 2);
    match &done.effects[0] {
        Effect::MakeDir(p) => assert_eq!(segs(p), vec!["d"]),
        _ => panic!("expected a directory first"),
    }
    match &done.effects[1] {
        Effect::Write(p, b) => {
            assert_eq!(segs(p), vec!["d", "f"]);
            assert!(b.is_empty());
        },
        _ => panic!("expected a write"),
    }
}

#[test]
fn subfile_helpers() {
    let stored = P2Subfile { index: 4, compressed: false, content: b"raw".to_vec(), name: None };
    assert_eq!(stored.suggest_name().unwrap(), "4");
    assert_eq!(stored.get_decompressed().unwrap(), b"raw".to_vec());
    let mut packed = P2Subfile {
        index: 0,
        compressed: true,
        content: vec![0x10, 0x02, 0x00, 0x00, 0x00, b'h', b'i'],
        name: Some(b"greet".to_vec()),
    };
    assert_eq!(packed.suggest_name().unwrap(), "greet");
    assert_eq!(packed.get_decompressed().unwrap(), b"hi".to_vec());
    packed.decompress().unwrap();
    assert!(!packed.compressed);
    assert_eq!(packed.content, b"hi".to_vec());
    let bad = P2Subfile { index: 0, compressed: false, content: Vec::new(), name: Some(vec![0xC3]) };
    assert_eq!(bad.suggest_name().err(), Some(ArchiveError::MalformedContainer));
}

#[test]
fn named_archive_children_use_names() {
    let bytes = P2File {
        named: true,
        subfiles: vec![P2Subfile {
            index: 0,
            compressed: false,
            content: b"RLCNdata".to_vec(),
            name: Some(b"pal".to_vec()),
        }],
    }
    .to_bytes()
    .unwrap();
    let u = handle_file(&entry(bytes, &["n.p2"])).unwrap();
    match &u.meta {
        FileMeta::NamedP2(m) => assert_eq!(m.get_files()[0].0, "pal"),
        _ => panic!("expected a named archive"),
    }
    assert_eq!(segs(&child_entry(&u.children[0]).path), vec!["n.p2", "pal.nclr"]);
}

#[test]
fn lz_back_reference_before_output_start_is_malformed() {
    let e = FileQueueEntry {
        content: vec![0x10, 0x01, 0x00, 0x00, 0x80, 0x00, 0x00],
        path: path(&["bad.lz"]),
        type_hint: Some(FileType::LZ),
        compression_hint: None,
    };
    assert!(!dsunpack::lz::lz_stream_safe(&e.content));
    assert_eq!(handle_file(&e).err(), Some(ArchiveError::MalformedContainer));
    assert!(dsunpack::lz::lz_stream_safe(&[0x10, 0x03, 0x00, 0x00, 0x00, b'a', b'b', b'c']));
    // a back-reference to bytes already produced is fine
    let ok = vec![0x10, 0x04, 0x00, 0x00, 0x40, b'x', 0x00, 0x00];
    assert!(dsunpack::lz::lz_stream_safe(&ok));
    assert_eq!(dsunpack::extract::try_decompress(&ok), Some(b"xxxx".to_vec()));
}

#[test]
fn directory_entries_are_in_name_order() {
    let mut d1 = DirectoryMeta::create(String::new());
    for n in ["b", "a", "c"] {
        d1.add(n.to_string());
    }
    let mut d2 = DirectoryMeta::create(String::new());
    for n in ["c", "a", "b", "a"] {
        d2.add(n.to_string());
    }
    let k1: Vec<&str> = d1.get_files().iter().map(|(n, _)| n.as_str()).collect();
    let k2: Vec<&str> = d2.get_files().iter().map(|(n, _)| n.as_str()).collect();
    assert_eq!(k1, vec!["a", "b", "c"]);
    assert_eq!(k1, k2);
    let d3 = DirectoryMeta::from(&["z".to_string(), "y".to_string(), "z".to_string()], "d".to_string());
    let k3: Vec<&str> = d3.get_files().iter().map(|(n, _)| n.as_str()).collect();
    assert_eq!(k3, vec!["y", "z"]);
    assert_eq!(d3.get_unpacked_name(), "d");
}

#[test]
fn pkac_with_extra_names_repacks_exactly() {
    let table = write_nametable(&vec![b"a".to_vec(), b"zz".to_vec()]).unwrap();
    let mut b = vec![Vec::new(); 8];
    b[0] = vec![table];
    b[1] = vec![b"just data".to_vec()];
    let original = GroupedFiles { buckets: b }.to_bytes(PKAC_MAGIC).unwrap();
    let u = handle_file(&entry(original.clone(), &["p.pkac"])).unwrap();
    match &u.meta {
        FileMeta::PKAC(m) => assert_eq!(m.get_extra_names(), &["zz".to_string()]),
        _ => panic!("expected a PKAC"),
    }
    let (mut tree, root) = MetaTree::new();
    let refs = root.submit(&mut tree, u.meta).unwrap();
    let mut inp = PackInputs::new();
    for (r, c) in refs.into_iter().zip(u.children.into_iter()) {
        let leaf = handle_file(child_entry(&c)).unwrap();
        r.submit(&mut tree, leaf.meta).unwrap();
        let (p, bytes) = leaf.write.unwrap();
        inp.add_file(p, bytes);
    }
    let meta = tree.into_tree().unwrap();
    let packed = pack_file(&RelPath::new(), &meta, &inp).ok().unwrap();
    assert_eq!(packed.bytes, original);
}
