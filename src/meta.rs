//! The metadata tree: every fact about a decoded node that its unpacked
//! files alone cannot give back (compression flags, stored names, which
//! container kind and which bucket), so that repacking is exact.
use vstd::prelude::*;
use crate::containers::{HPAK, PK2D, PKAC};
use crate::p2::P2File;
use crate::text::{lemma_name_order, name_less, name_lt, utf8_string};
use crate::error::ArchiveError;

verus! {

/// One node of the metadata tree.
pub enum FileMeta {
    /// A directory of the unpacked tree and its entries by name.
    Directory(DirectoryMeta),
    /// A segmented archive without names.
    P2(P2Meta),
    /// An LZ-compressed stream and what it decompresses to.
    LZ(LZMeta),
    /// A segmented archive with a name table.
    NamedP2(NamedP2Meta),
    /// A file stored verbatim under the given unpacked name.
    OtherFile(String),
    HPAK(HPAKMeta),
    PK2D(PK2DMeta),
    PKAC(PKACMeta),
    /// A file with no content.
    EmptyFile,
    /// A slot that has not been written yet; a complete tree has none.
    Uninitialized,
}

/// A directory: its name in the unpacked tree and its entries, each name
/// held once.
pub struct DirectoryMeta {
    pub unpacked_name: String,
    pub files: Vec<(String, FileMeta)>,
}

/// A segmented archive without names.
pub struct P2Meta {
    pub unpacked_name: String,
    pub files: Vec<P2SubfileMeta>,
}

/// One subfile of a segmented archive: whether it was stored compressed,
/// and what it holds.
pub struct P2SubfileMeta {
    pub compressed: bool,
    pub file: FileMeta,
}

/// A segmented archive whose subfiles carry names.
pub struct NamedP2Meta {
    pub unpacked_name: String,
    pub files: Vec<(String, P2SubfileMeta)>,
}

/// An HPAK: the files of each of its eight buckets.
pub struct HPAKMeta {
    pub unpacked_name: String,
    pub nsbca_files: Vec<FileMeta>,
    pub nsbva_files: Vec<FileMeta>,
    pub nsbma_files: Vec<FileMeta>,
    pub nsbtp_files: Vec<FileMeta>,
    pub nsbta_files: Vec<FileMeta>,
    pub unknown5_files: Vec<FileMeta>,
    pub unknown6_files: Vec<FileMeta>,
    pub nsbmd_files: Vec<FileMeta>,
}

/// A PK2D: the files of each of its eight buckets.
pub struct PK2DMeta {
    pub unpacked_name: String,
    pub nclr_files: Vec<FileMeta>,
    pub ncgr_files: Vec<FileMeta>,
    pub unknown2_files: Vec<FileMeta>,
    pub ncer_files: Vec<FileMeta>,
    pub unknown4_files: Vec<FileMeta>,
    pub nanr_files: Vec<FileMeta>,
    pub nscr_files: Vec<FileMeta>,
    pub unknown7_files: Vec<FileMeta>,
}

/// A PKAC: its files with their names, and the names of its name table
/// that no file carries.
pub struct PKACMeta {
    pub unpacked_name: String,
    pub files: Vec<(String, FileMeta)>,
    pub extra_names: Vec<String>,
}

/// An LZ stream: which of the two variants, and what it decompresses to.
pub struct LZMeta {
    pub lz_type: LZType,
    pub file: Box<FileMeta>,
}

/// The two LZ stream variants, told apart by their first byte.
#[derive(Clone, Copy, PartialEq, Eq, Debug, Structural)]
pub enum LZType {
    LZ10,
    LZ11,
}

/// Whether every element is a not-yet-written slot.
pub open spec fn all_uninit(s: Seq<FileMeta>) -> bool {
    forall|i: int| 0 <= i < s.len() ==> (#[trigger] s[i]) is Uninitialized
}

/// `n` unwritten slots.
pub fn uninit_vec(n: usize) -> (r: Vec<FileMeta>)
    ensures
        r@.len() == n,
        all_uninit(r@),
{
    let mut r: Vec<FileMeta> = Vec::with_capacity(n);
    let mut i: usize = 0;
    while i < n
        invariant
            i <= n,
            r@.len() == i,
            all_uninit(r@),
        decreases n - i,
    {
        r.push(FileMeta::Uninitialized);
        i = i + 1;
    }
    r
}

/// Whether `key` is the name of one of the first `upto` strings.
pub open spec fn name_among(names: Seq<String>, key: Seq<char>, upto: int) -> bool {
    exists|j: int| 0 <= j < upto && names[j]@ == key
}

impl DirectoryMeta {
    /// An empty directory.
    pub fn create(unpacked_name: String) -> (r: DirectoryMeta)
        ensures
            r.unpacked_name == unpacked_name,
            r.files@.len() == 0,
    {
        DirectoryMeta { unpacked_name, files: Vec::new() }
    }

    /// Whether some entry is held under `key`.
    pub open spec fn has_key(&self, key: Seq<char>) -> bool {
        exists|i: int| 0 <= i < self.files@.len() && (#[trigger] self.files@[i]).0@ == key
    }

    /// Whether the entries are in increasing name order, so that each name
    /// is held once and the order does not depend on how they were added.
    pub open spec fn sorted(&self) -> bool {
        forall|i: int, j: int|
            0 <= i < j < self.files@.len() ==> name_lt(
                (#[trigger] self.files@[i]).0@,
                (#[trigger] self.files@[j]).0@,
            )
    }

    /// Adds an unwritten entry under `key` at its place in name order,
    /// replacing the entry already held under that name, if any.
    pub fn add(&mut self, key: String)
        requires
            old(self).sorted(),
        ensures
            final(self).sorted(),
            final(self).unpacked_name == old(self).unpacked_name,
            (exists|i: int|
                0 <= i < old(self).files@.len() && (#[trigger] old(self).files@[i]).0@ == key@
                    && final(self).files@ == old(self).files@.update(i, (key, FileMeta::Uninitialized)))
                || ((forall|i: int|
                0 <= i < old(self).files@.len() ==> (#[trigger] old(self).files@[i]).0@ != key@)
                && exists|i: int|
                0 <= i <= old(self).files@.len() && final(self).files@ == old(self).files@.insert(
                    i,
                    (key, FileMeta::Uninitialized),
                )),
    {
        let n = self.files.len();
        let mut i: usize = 0;
        while i < n && name_less(&self.files[i].0, &key)
            invariant
                i <= n,
                n == self.files@.len(),
                self == old(self),
                self.sorted(),
                forall|j: int| 0 <= j < i ==> name_lt((#[trigger] self.files@[j]).0@, key@),
            decreases n - i,
        {
            i = i + 1;
        }
        let ghost before = self.files@;
        assert forall|j: int| 0 <= j < i implies (#[trigger] before[j]).0@ != key@ by {
            lemma_name_order(key@, key@, key@);
        }
        if i < n && self.files[i].0 == key {
            self.files.set(i, (key, FileMeta::Uninitialized));
            assert(self.files@ == before.update(i as int, (key, FileMeta::Uninitialized)));
            assert forall|x: int, y: int|
                0 <= x < y < self.files@.len() implies name_lt(
                (#[trigger] self.files@[x]).0@,
                (#[trigger] self.files@[y]).0@,
            ) by {
                assert(before[x].0@ == self.files@[x].0@);
                assert(before[y].0@ == self.files@[y].0@);
            }
            return;
        }
        if i < n {
            // the entry at `i` comes after `key`, and so do all after it
            let ghost e = before[i as int].0@;
            proof {
                lemma_name_order(e, key@, key@);
            }
            assert(name_lt(key@, e));
            assert forall|j: int| i <= j < n implies name_lt(key@, (#[trigger] before[j]).0@) by {
                if j > i {
                    lemma_name_order(key@, e, before[j].0@);
                }
            }
            assert forall|j: int| i <= j < n implies (#[trigger] before[j]).0@ != key@ by {
                lemma_name_order(key@, key@, key@);
            }
        }
        self.files.insert(i, (key, FileMeta::Uninitialized));
        assert forall|x: int, y: int|
            0 <= x < y < self.files@.len() implies name_lt(
            (#[trigger] self.files@[x]).0@,
            (#[trigger] self.files@[y]).0@,
        ) by {
            if y < i {
                assert(self.files@[x] == before[x] && self.files@[y] == before[y]);
            } else if y == i {
                assert(self.files@[x] == before[x]);
            } else if x == i {
                assert(self.files@[y] == before[y - 1]);
            } else if x < i {
                assert(self.files@[x] == before[x] && self.files@[y] == before[y - 1]);
                lemma_name_order(before[x].0@, key@, before[y - 1].0@);
            } else {
                assert(self.files@[x] == before[x - 1] && self.files@[y] == before[y - 1]);
            }
        }
        assert(self.files@ == before.insert(i as int, (key, FileMeta::Uninitialized)));
    }

    /// The entries, in order.
    pub fn get_files(&self) -> (r: &[(String, FileMeta)])
        ensures
            r@ == self.files@,
    {
        self.files.as_slice()
    }

    pub fn get_unpacked_name(&self) -> (r: &str)
        ensures
            r@ == self.unpacked_name@,
    {
        self.unpacked_name.as_str()
    }

    /// A directory with an unwritten entry for each of `names`, in name
    /// order; a name given twice is held once.
    pub fn from(names: &[String], unpacked_name: String) -> (r: DirectoryMeta)
        ensures
            r.unpacked_name == unpacked_name,
            r.sorted(),
            forall|j: int| 0 <= j < names@.len() ==> r.has_key((#[trigger] names@[j])@),
            forall|i: int|
                0 <= i < r.files@.len() ==> name_among(names@, (#[trigger] r.files@[i]).0@, names@.len() as int),
            forall|i: int|
                0 <= i < r.files@.len() ==> (#[trigger] r.files@[i]).1 is Uninitialized,
    {
        let mut d = DirectoryMeta::create(unpacked_name);
        let mut k: usize = 0;
        while k < names.len()
            invariant
                k <= names@.len(),
                d.unpacked_name == unpacked_name,
                d.sorted(),
                forall|j: int| 0 <= j < k ==> d.has_key((#[trigger] names@[j])@),
                forall|i: int|
                    0 <= i < d.files@.len() ==> name_among(names@, (#[trigger] d.files@[i]).0@, k as int),
                forall|i: int|
                    0 <= i < d.files@.len() ==> (#[trigger] d.files@[i]).1 is Uninitialized,
            decreases names@.len() - k,
        {
            let ghost before = d.files@;
            let key = names[k].clone();
            let ghost kk = key;
            d.add(key);
            let ghost after = d.files@;
            proof {
                if exists|i: int|
                    0 <= i < before.len() && (#[trigger] before[i]).0@ == kk@ && after == before.update(
                        i,
                        (kk, FileMeta::Uninitialized),
                    ) {
                    let i1 = choose|i: int|
                        0 <= i < before.len() && (#[trigger] before[i]).0@ == kk@ && after
                            == before.update(i, (kk, FileMeta::Uninitialized));
                    assert forall|j: int| 0 <= j < k + 1 implies d.has_key((#[trigger] names@[j])@) by {
                        if j < k {
                            let i0 = choose|i: int| 0 <= i < before.len() && (#[trigger] before[i]).0@ == names@[j]@;
                            assert(after[i0].0@ == names@[j]@);
                        } else {
                            assert(after[i1].0@ == names@[j]@);
                        }
                    }
                    assert forall|i: int| 0 <= i < after.len() implies name_among(names@, (#[trigger] after[i]).0@, k + 1) by {
                        if i == i1 {
                            assert(after[i].0@ == names@[k as int]@);
                        } else {
                            assert(after[i] == before[i]);
                        }
                    }
                    assert forall|i: int| 0 <= i < after.len() implies (#[trigger] after[i]).1 is Uninitialized by {
                        if i != i1 {
                            assert(after[i] == before[i]);
                        }
                    }
                } else {
                    let i1 = choose|i: int|
                        0 <= i <= before.len() && after == before.insert(i, (kk, FileMeta::Uninitialized));
                    assert forall|j: int| 0 <= j < k + 1 implies d.has_key((#[trigger] names@[j])@) by {
                        if j < k {
                            let i0 = choose|i: int| 0 <= i < before.len() && (#[trigger] before[i]).0@ == names@[j]@;
                            if i0 < i1 {
                                assert(after[i0] == before[i0]);
                            } else {
                                assert(after[i0 + 1] == before[i0]);
                            }
                        } else {
                            assert(after[i1].0@ == names@[j]@);
                        }
                    }
                    assert forall|i: int| 0 <= i < after.len() implies name_among(names@, (#[trigger] after[i]).0@, k + 1) by {
                        if i == i1 {
                            assert(after[i].0@ == names@[k as int]@);
                        } else if i < i1 {
                            assert(after[i] == before[i]);
                        } else {
                            assert(after[i] == before[i - 1]);
                        }
                    }
                    assert forall|i: int| 0 <= i < after.len() implies (#[trigger] after[i]).1 is Uninitialized by {
                        if i < i1 {
                            assert(after[i] == before[i]);
                        } else if i > i1 {
                            assert(after[i] == before[i - 1]);
                        }
                    }
                }
            }
            k = k + 1;
        }
        d
    }
}

impl P2Meta {
    /// Metadata for an unnamed segmented archive: its compression flags, and
    /// an unwritten slot per subfile.
    pub fn from(other: &P2File, unpacked_name: String) -> (r: P2Meta)
        ensures
            r.unpacked_name == unpacked_name,
            r.files@.len() == other.subfiles@.len(),
            forall|i: int| 0 <= i < r.files@.len() ==> (#[trigger] r.files@[i]).compressed == other.subfiles@[i].compressed
                && r.files@[i].file is Uninitialized,
    {
        let mut files: Vec<P2SubfileMeta> = Vec::with_capacity(other.subfiles.len());
        let mut i: usize = 0;
        while i < other.subfiles.len()
            invariant
                i <= other.subfiles@.len(),
                files@.len() == i,
                forall|j: int| 0 <= j < i ==> (#[trigger] files@[j]).compressed == other.subfiles@[j].compressed
                    && files@[j].file is Uninitialized,
            decreases other.subfiles@.len() - i,
        {
            files.push(P2SubfileMeta { compressed: other.subfiles[i].compressed, file: FileMeta::Uninitialized });
            i = i + 1;
        }
        P2Meta { unpacked_name, files }
    }

    pub fn get_files(&self) -> (r: &[P2SubfileMeta])
        ensures
            r@ == self.files@,
    {
        self.files.as_slice()
    }

    pub fn get_unpacked_name(&self) -> (r: &str)
        ensures
            r@ == self.unpacked_name@,
    {
        self.unpacked_name.as_str()
    }
}

impl P2SubfileMeta {
    pub fn is_compressed(&self) -> (r: bool)
        ensures
            r == self.compressed,
    {
        self.compressed
    }

    pub fn get_file(&self) -> (r: &FileMeta)
        ensures
            *r == self.file,
    {
        &self.file
    }
}

impl NamedP2Meta {
    /// Metadata for a named segmented archive: each subfile's name and
    /// compression flag, and an unwritten slot per subfile. Fails with
    /// `MalformedContainer` when a subfile has no name or a name is not
    /// UTF-8.
    pub fn from(other: &P2File, unpacked_name: String) -> (r: Result<NamedP2Meta, ArchiveError>)
        ensures
            match r {
                Ok(m) => m.unpacked_name == unpacked_name && m.files@.len() == other.subfiles@.len()
                    && forall|i: int| 0 <= i < m.files@.len() ==> {
                        &&& other.subfiles@[i].name is Some
                        &&& vstd::utf8::valid_utf8(other.subfiles@[i].name->0@)
                        &&& (#[trigger] m.files@[i]).0@ == vstd::utf8::decode_utf8(other.subfiles@[i].name->0@)
                        &&& m.files@[i].1.compressed == other.subfiles@[i].compressed
                        &&& m.files@[i].1.file is Uninitialized
                    },
                Err(e) => e == ArchiveError::MalformedContainer && exists|i: int|
                    0 <= i < other.subfiles@.len() && (other.subfiles@[i].name is None
                        || !vstd::utf8::valid_utf8(other.subfiles@[i].name->0@)),
            },
    {
        let mut files: Vec<(String, P2SubfileMeta)> = Vec::with_capacity(other.subfiles.len());
        let mut i: usize = 0;
        while i < other.subfiles.len()
            invariant
                i <= other.subfiles@.len(),
                files@.len() == i,
                forall|j: int| 0 <= j < i ==> {
                    &&& other.subfiles@[j].name is Some
                    &&& vstd::utf8::valid_utf8(other.subfiles@[j].name->0@)
                    &&& (#[trigger] files@[j]).0@ == vstd::utf8::decode_utf8(other.subfiles@[j].name->0@)
                    &&& files@[j].1.compressed == other.subfiles@[j].compressed
                    &&& files@[j].1.file is Uninitialized
                },
            decreases other.subfiles@.len() - i,
        {
            let f = &other.subfiles[i];
            let name = match &f.name {
                Some(bytes) => match utf8_string(bytes) {
                    Some(s) => s,
                    None => {
                        return Err(ArchiveError::MalformedContainer);
                    },
                },
                None => {
                    return Err(ArchiveError::MalformedContainer);
                },
            };
            files.push((name, P2SubfileMeta { compressed: f.compressed, file: FileMeta::Uninitialized }));
            i = i + 1;
        }
        Ok(NamedP2Meta { unpacked_name, files })
    }

    pub fn get_unpacked_name(&self) -> (r: &str)
        ensures
            r@ == self.unpacked_name@,
    {
        self.unpacked_name.as_str()
    }

    pub fn get_files(&self) -> (r: &[(String, P2SubfileMeta)])
        ensures
            r@ == self.files@,
    {
        self.files.as_slice()
    }
}
impl HPAKMeta {
    /// Metadata for an HPAK: an unwritten slot for each file of each bucket.
    pub fn from(other: &HPAK, name: String) -> (r: HPAKMeta)
        ensures
            r.unpacked_name == name,
            r.nsbca_files@.len() == other.nsbca@.len(),
            all_uninit(r.nsbca_files@),
            r.nsbva_files@.len() == other.nsbva@.len(),
            all_uninit(r.nsbva_files@),
            r.nsbma_files@.len() == other.nsbma@.len(),
            all_uninit(r.nsbma_files@),
            r.nsbtp_files@.len() == other.nsbtp@.len(),
            all_uninit(r.nsbtp_files@),
            r.nsbta_files@.len() == other.nsbta@.len(),
            all_uninit(r.nsbta_files@),
            r.unknown5_files@.len() == other.unknown5@.len(),
            all_uninit(r.unknown5_files@),
            r.unknown6_files@.len() == other.unknown6@.len(),
            all_uninit(r.unknown6_files@),
            r.nsbmd_files@.len() == other.nsbmd@.len(),
            all_uninit(r.nsbmd_files@),
    {
        HPAKMeta {
            unpacked_name: name,
            nsbca_files: uninit_vec(other.nsbca.len()),
            nsbva_files: uninit_vec(other.nsbva.len()),
            nsbma_files: uninit_vec(other.nsbma.len()),
            nsbtp_files: uninit_vec(other.nsbtp.len()),
            nsbta_files: uninit_vec(other.nsbta.len()),
            unknown5_files: uninit_vec(other.unknown5.len()),
            unknown6_files: uninit_vec(other.unknown6.len()),
            nsbmd_files: uninit_vec(other.nsbmd.len()),
        }
    }

    pub fn get_nsbca(&self) -> (r: &[FileMeta])
        ensures
            r@ == self.nsbca_files@,
    {
        self.nsbca_files.as_slice()
    }

    pub fn get_nsbva(&self) -> (r: &[FileMeta])
        ensures
            r@ == self.nsbva_files@,
    {
        self.nsbva_files.as_slice()
    }

    pub fn get_nsbma(&self) -> (r: &[FileMeta])
        ensures
            r@ == self.nsbma_files@,
    {
        self.nsbma_files.as_slice()
    }

    pub fn get_nsbtp(&self) -> (r: &[FileMeta])
        ensures
            r@ == self.nsbtp_files@,
    {
        self.nsbtp_files.as_slice()
    }

    pub fn get_nsbta(&self) -> (r: &[FileMeta])
        ensures
            r@ == self.nsbta_files@,
    {
        self.nsbta_files.as_slice()
    }

    pub fn get_unknown5(&self) -> (r: &[FileMeta])
        ensures
            r@ == self.unknown5_files@,
    {
        self.unknown5_files.as_slice()
    }

    pub fn get_unknown6(&self) -> (r: &[FileMeta])
        ensures
            r@ == self.unknown6_files@,
    {
        self.unknown6_files.as_slice()
    }

    pub fn get_nsbmd(&self) -> (r: &[FileMeta])
        ensures
            r@ == self.nsbmd_files@,
    {
        self.nsbmd_files.as_slice()
    }

    pub fn get_unpacked_name(&self) -> (r: &str)
        ensures
            r@ == self.unpacked_name@,
    {
        self.unpacked_name.as_str()
    }
}

impl PK2DMeta {
    /// Metadata for a PK2D: an unwritten slot for each file of each bucket.
    pub fn from(other: &PK2D, name: String) -> (r: PK2DMeta)
        ensures
            r.unpacked_name == name,
            r.nclr_files@.len() == other.nclr@.len(),
            all_uninit(r.nclr_files@),
            r.ncgr_files@.len() == other.ncgr@.len(),
            all_uninit(r.ncgr_files@),
            r.unknown2_files@.len() == other.unknown2@.len(),
            all_uninit(r.unknown2_files@),
            r.ncer_files@.len() == other.ncer@.len(),
            all_uninit(r.ncer_files@),
            r.unknown4_files@.len() == other.unknown4@.len(),
            all_uninit(r.unknown4_files@),
            r.nanr_files@.len() == other.nanr@.len(),
            all_uninit(r.nanr_files@),
            r.nscr_files@.len() == other.nscr@.len(),
            all_uninit(r.nscr_files@),
            r.unknown7_files@.len() == other.unknown7@.len(),
            all_uninit(r.unknown7_files@),
    {
        PK2DMeta {
            unpacked_name: name,
            nclr_files: uninit_vec(other.nclr.len()),
            ncgr_files: uninit_vec(other.ncgr.len()),
            unknown2_files: uninit_vec(other.unknown2.len()),
            ncer_files: uninit_vec(other.ncer.len()),
            unknown4_files: uninit_vec(other.unknown4.len()),
            nanr_files: uninit_vec(other.nanr.len()),
            nscr_files: uninit_vec(other.nscr.len()),
            unknown7_files: uninit_vec(other.unknown7.len()),
        }
    }

    pub fn get_nclr(&self) -> (r: &[FileMeta])
        ensures
            r@ == self.nclr_files@,
    {
        self.nclr_files.as_slice()
    }

    pub fn get_ncgr(&self) -> (r: &[FileMeta])
        ensures
            r@ == self.ncgr_files@,
    {
        self.ncgr_files.as_slice()
    }

    pub fn get_unknown2(&self) -> (r: &[FileMeta])
        ensures
            r@ == self.unknown2_files@,
    {
        self.unknown2_files.as_slice()
    }

    pub fn get_ncer(&self) -> (r: &[FileMeta])
        ensures
            r@ == self.ncer_files@,
    {
        self.ncer_files.as_slice()
    }

    pub fn get_unknown4(&self) -> (r: &[FileMeta])
        ensures
            r@ == self.unknown4_files@,
    {
        self.unknown4_files.as_slice()
    }

    pub fn get_nanr(&self) -> (r: &[FileMeta])
        ensures
            r@ == self.nanr_files@,
    {
        self.nanr_files.as_slice()
    }

    pub fn get_nscr(&self) -> (r: &[FileMeta])
        ensures
            r@ == self.nscr_files@,
    {
        self.nscr_files.as_slice()
    }

    pub fn get_unknown7(&self) -> (r: &[FileMeta])
        ensures
            r@ == self.unknown7_files@,
    {
        self.unknown7_files.as_slice()
    }

    pub fn get_unpacked_name(&self) -> (r: &str)
        ensures
            r@ == self.unpacked_name@,
    {
        self.unpacked_name.as_str()
    }
}

impl PKACMeta {
    /// Metadata for a PKAC: each file's name and an unwritten slot, and the
    /// extra names of its table. Fails with `MalformedContainer` when a name
    /// is not UTF-8.
    pub fn from(other: &PKAC, unpacked_name: String) -> (r: Result<PKACMeta, ArchiveError>)
        ensures
            match r {
                Ok(m) => m.unpacked_name == unpacked_name && m.files@.len() == other.files@.len()
                    && (forall|i: int| 0 <= i < m.files@.len() ==> {
                        &&& vstd::utf8::valid_utf8(other.files@[i].0@)
                        &&& (#[trigger] m.files@[i]).0@ == vstd::utf8::decode_utf8(other.files@[i].0@)
                        &&& m.files@[i].1 is Uninitialized
                    }) && m.extra_names@.len() == other.extra_names@.len() && forall|i: int|
                    0 <= i < m.extra_names@.len() ==> #[trigger] decodes_to(
                        other.extra_names@[i]@,
                        m.extra_names@[i]@,
                    ),
                Err(e) => e == ArchiveError::MalformedContainer && ((exists|i: int|
                    0 <= i < other.files@.len() && !vstd::utf8::valid_utf8(other.files@[i].0@))
                    || exists|i: int|
                    0 <= i < other.extra_names@.len() && !vstd::utf8::valid_utf8(
                        other.extra_names@[i]@,
                    )),
            },
    {
        let mut files: Vec<(String, FileMeta)> = Vec::with_capacity(other.files.len());
        let mut i: usize = 0;
        while i < other.files.len()
            invariant
                i <= other.files@.len(),
                files@.len() == i,
                forall|j: int| 0 <= j < i ==> {
                    &&& vstd::utf8::valid_utf8(other.files@[j].0@)
                    &&& (#[trigger] files@[j]).0@ == vstd::utf8::decode_utf8(other.files@[j].0@)
                    &&& files@[j].1 is Uninitialized
                },
            decreases other.files@.len() - i,
        {
            let name = match utf8_string(&other.files[i].0) {
                Some(s) => s,
                None => {
                    return Err(ArchiveError::MalformedContainer);
                },
            };
            files.push((name, FileMeta::Uninitialized));
            i = i + 1;
        }
        let extra_names = match strings_from_utf8(&other.extra_names) {
            Some(v) => v,
            None => {
                return Err(ArchiveError::MalformedContainer);
            },
        };
        Ok(PKACMeta { unpacked_name, files, extra_names })
    }

    pub fn get_unpacked_name(&self) -> (r: &str)
        ensures
            r@ == self.unpacked_name@,
    {
        self.unpacked_name.as_str()
    }

    pub fn get_files(&self) -> (r: &[(String, FileMeta)])
        ensures
            r@ == self.files@,
    {
        self.files.as_slice()
    }

    /// The names of the table that no file carries.
    pub fn get_extra_names(&self) -> (r: &[String])
        ensures
            r@ == self.extra_names@,
    {
        self.extra_names.as_slice()
    }
}

/// Whether `b` is valid UTF-8 that encodes `s`.
#[verifier::opaque]
pub open spec fn decodes_to(b: Seq<u8>, s: Seq<char>) -> bool {
    vstd::utf8::valid_utf8(b) && s == vstd::utf8::decode_utf8(b)
}

/// Every byte string of `v` read as UTF-8, when all of them are.
pub fn strings_from_utf8(v: &Vec<Vec<u8>>) -> (r: Option<Vec<String>>)
    ensures
        match r {
            Some(out) => out@.len() == v@.len() && forall|i: int|
                0 <= i < v@.len() ==> #[trigger] decodes_to(v@[i]@, out@[i]@),
            None => exists|i: int| 0 <= i < v@.len() && !vstd::utf8::valid_utf8(v@[i]@),
        },
{
    let mut out: Vec<String> = Vec::new();
    let mut i: usize = 0;
    while i < v.len()
        invariant
            i <= v@.len(),
            out@.len() == i,
            forall|j: int| 0 <= j < i ==> #[trigger] decodes_to(v@[j]@, out@[j]@),
        decreases v@.len() - i,
    {
        match utf8_string(&v[i]) {
            Some(s) => {
                assert(decodes_to(v@[i as int]@, s@)) by {
                    reveal(decodes_to);
                }
                let ghost prev = out@;
                out.push(s);
                assert forall|j: int| 0 <= j < i + 1 implies #[trigger] decodes_to(v@[j]@, out@[j]@) by {
                    if j < i {
                        assert(out@[j] == prev[j]);
                    }
                }
            },
            None => {
                return None;
            },
        }
        i = i + 1;
    }
    Some(out)
}

/// A copy of a list of strings.
pub fn copy_strings(v: &Vec<String>) -> (r: Vec<String>)
    ensures
        r@ == v@,
{
    let mut r: Vec<String> = Vec::new();
    let mut i: usize = 0;
    while i < v.len()
        invariant
            i <= v@.len(),
            r@ =~= v@.take(i as int),
        decreases v@.len() - i,
    {
        r.push(v[i].clone());
        i = i + 1;
    }
    assert(v@.take(v@.len() as int) =~= v@);
    r
}

impl LZMeta {
    /// Metadata for an LZ stream of the given variant, with an unwritten
    /// slot for what it decompresses to.
    pub fn new(ty: LZType) -> (r: LZMeta)
        ensures
            r.lz_type == ty,
            *r.file is Uninitialized,
    {
        LZMeta { lz_type: ty, file: Box::new(FileMeta::Uninitialized) }
    }

    pub fn get_lz_type(&self) -> (r: LZType)
        ensures
            r == self.lz_type,
    {
        self.lz_type
    }

    pub fn get_file(&self) -> (r: &FileMeta)
        ensures
            *r == *self.file,
    {
        &self.file
    }
}

} // verus!
