//! One step of extraction: from a queued file to the metadata node for its
//! slot, what to create or write in the unpacked tree, and the files found
//! inside it, in the order of the node's child positions.
use vstd::prelude::*;
use vstd::utf8::{decode_utf8, valid_utf8};
use crate::bucket::{GroupedFiles, groups_decodable, groups_decode};
use crate::containers::{HPAK, PK2D, PKAC, copy_vec, hpak_kind, pk2d_kind, pkac_extra, pkac_files, pkac_readable};
use crate::error::ArchiveError;
use crate::file_type::{FileType, classify, is_still_packed};
use crate::meta::{FileMeta, HPAKMeta, LZMeta, LZType, NamedP2Meta, P2Meta, PK2DMeta, PKACMeta, all_uninit};
use crate::p2::{P2File, P2Model, P2Subfile, SubfileModel, p2_decodable, p2_decode};
use crate::path::{RelPath, last_segment, pushed};
use crate::text::{decimal, decimal_string, file_name, make_file_name, utf8_string};
use crate::tree::children;
use crate::lz::{lz_safe, lz_stream_safe};

verus! {

/// What an LZ10 or LZ11 stream decompresses to, or `None` for a stream
/// that is invalid or cut short.
pub uninterp spec fn lz_decompressed(b: Seq<u8>) -> Option<Seq<u8>>;

/// Relies on `nintendo_lz::decompress`: it decodes an LZ10 or LZ11 stream,
/// returns an error for a stream with another first byte or one cut short,
/// and its result depends on the bytes alone. It indexes before the start of
/// its output on a back-reference that reaches too far; `lz_safe` leaves
/// those streams out.
#[verifier::external_body]
fn lz_decompress(b: &[u8]) -> (r: Option<Vec<u8>>)
    requires
        lz_safe(b@),
    ensures
        r matches Some(v) ==> lz_decompressed(b@) == Some(v@),
        r is None ==> lz_decompressed(b@) is None,
{
    let mut input: &[u8] = b;
    nintendo_lz::decompress(&mut input).ok()
}

/// What a stream decompresses to, or `None` for a stream that is invalid,
/// cut short, or holds a back-reference before the start of its output.
pub open spec fn lz_payload(b: Seq<u8>) -> Option<Seq<u8>> {
    if lz_safe(b) {
        lz_decompressed(b)
    } else {
        None
    }
}

/// Decompresses `b` when the decompressor can take it.
pub fn try_decompress(b: &[u8]) -> (r: Option<Vec<u8>>)
    ensures
        match lz_payload(b@) {
            Some(d) => r matches Some(v) && v@ == d,
            None => r is None,
        },
{
    if lz_stream_safe(b) {
        lz_decompress(b)
    } else {
        None
    }
}

/// A file waiting to be unpacked or written.
pub struct FileQueueEntry {
    pub content: Vec<u8>,
    pub path: RelPath,
    /// The kind, when the container it came from decides it.
    pub type_hint: Option<FileType>,
    /// Whether it may be an LZ stream, when the container it came from
    /// decides it.
    pub compression_hint: Option<bool>,
}

/// A queued file as plain values.
pub struct EntryModel {
    pub content: Seq<u8>,
    pub path: Seq<Seq<char>>,
    pub type_hint: Option<FileType>,
    pub compression_hint: Option<bool>,
}

impl View for FileQueueEntry {
    type V = EntryModel;

    open spec fn view(&self) -> EntryModel {
        EntryModel {
            content: self.content@,
            path: self.path@,
            type_hint: self.type_hint,
            compression_hint: self.compression_hint,
        }
    }
}

/// The kind of a queued file: its hint, or what its bytes say.
pub open spec fn entry_kind(e: EntryModel) -> FileType {
    match e.type_hint {
        Some(t) => t,
        None => classify(
            e.content,
            match e.compression_hint {
                Some(b) => b,
                None => true,
            },
        ),
    }
}

impl FileQueueEntry {
    /// The kind of this file: its hint, or what its bytes say.
    pub fn get_or_guess_type(&self) -> (r: FileType)
        ensures
            r == entry_kind(self@),
    {
        match self.type_hint {
            Some(t) => t,
            None => FileType::guess_from(
                self.content.as_slice(),
                match self.compression_hint {
                    Some(b) => b,
                    None => true,
                },
            ),
        }
    }
}

/// What one child position of a node receives: nothing (an empty subfile,
/// written at once as an empty leaf) or a file to handle.
pub enum Child {
    Empty,
    Entry(FileQueueEntry),
}

pub open spec fn child_view(c: Child) -> Option<EntryModel> {
    match c {
        Child::Empty => None,
        Child::Entry(e) => Some(e@),
    }
}

pub open spec fn dir_is(d: Option<RelPath>, path: Seq<Seq<char>>) -> bool {
    match d {
        Some(p) => p@ == path,
        None => false,
    }
}

/// The result of handling one file.
pub struct Unpacked {
    /// The node for the file's own slot.
    pub meta: FileMeta,
    /// A directory to create in the unpacked tree.
    pub create_dir: Option<RelPath>,
    /// A file to write into the unpacked tree.
    pub write: Option<(RelPath, Vec<u8>)>,
    /// One entry per child position of `meta`, in order.
    pub children: Vec<Child>,
}

pub open spec fn children_view(u: Unpacked) -> Seq<Option<EntryModel>> {
    u.children@.map_values(|c: Child| child_view(c))
}

// ---- segmented archives ----

/// The bytes a subfile holds once decompressed, if that succeeds.
pub open spec fn payload(s: SubfileModel) -> Option<Seq<u8>> {
    if s.compressed {
        lz_payload(s.content)
    } else {
        Some(s.content)
    }
}

/// The stem of the unpacked name of subfile `i`.
pub open spec fn p2_stem(m: P2Model, i: int) -> Seq<char> {
    if m.named {
        decode_utf8(m.subfiles[i].name->0)
    } else {
        decimal(i as nat)
    }
}

/// Every name is UTF-8 and every non-empty subfile decompresses.
pub open spec fn p2_unpackable(m: P2Model) -> bool {
    &&& m.named ==> forall|i: int|
        0 <= i < m.subfiles.len() ==> (#[trigger] m.subfiles[i]).name is Some && valid_utf8(
            m.subfiles[i].name->0,
        )
    &&& forall|i: int|
        0 <= i < m.subfiles.len() && (#[trigger] m.subfiles[i]).content.len() > 0 ==> payload(
            m.subfiles[i],
        ) is Some
}

/// What child position `i` of a segmented archive at `path` receives.
pub open spec fn p2_child(path: Seq<Seq<char>>, m: P2Model, i: int) -> Option<EntryModel> {
    let s = m.subfiles[i];
    if s.content.len() == 0 {
        None
    } else {
        let d = payload(s)->0;
        let t = classify(d, false);
        Some(
            EntryModel {
                content: d,
                path: pushed(path, file_name(p2_stem(m, i), t)),
                type_hint: Some(t),
                compression_hint: Some(false),
            },
        )
    }
}

/// The node written for a segmented archive at `path`.
pub open spec fn p2_meta_ok(path: Seq<Seq<char>>, m: P2Model, meta: FileMeta) -> bool {
    if m.named {
        meta matches FileMeta::NamedP2(nm) && nm.unpacked_name@ == last_segment(path)
            && nm.files@.len() == m.subfiles.len() && forall|i: int|
            0 <= i < m.subfiles.len() ==> (#[trigger] nm.files@[i]).0@ == decode_utf8(
                m.subfiles[i].name->0,
            ) && nm.files@[i].1.compressed == m.subfiles[i].compressed
                && nm.files@[i].1.file is Uninitialized
    } else {
        meta matches FileMeta::P2(pm) && pm.unpacked_name@ == last_segment(path)
            && pm.files@.len() == m.subfiles.len() && forall|i: int|
            0 <= i < m.subfiles.len() ==> (#[trigger] pm.files@[i]).compressed
                == m.subfiles[i].compressed && pm.files@[i].file is Uninitialized
    }
}

pub open spec fn p2_outcome(e: EntryModel, r: Result<Unpacked, ArchiveError>) -> bool {
    if !p2_decodable(e.content) || !p2_unpackable(p2_decode(e.content)) {
        r == Err::<Unpacked, ArchiveError>(ArchiveError::MalformedContainer)
    } else {
        let m = p2_decode(e.content);
        match r {
            Ok(u) => {
                &&& p2_meta_ok(e.path, m, u.meta)
                &&& dir_is(u.create_dir, e.path)
                &&& u.write is None
                &&& children_view(u) == Seq::new(m.subfiles.len(), |i: int| p2_child(e.path, m, i))
            },
            Err(_) => false,
        }
    }
}

// ---- bucket archives ----

/// The kind of the files in bucket `b` of a container of kind `t`.
pub open spec fn bucket_kind(t: FileType, b: int) -> FileType {
    if t == FileType::HPAK {
        hpak_kind(b)
    } else {
        pk2d_kind(b)
    }
}

/// The entries for the files of bucket `b`.
pub open spec fn bucket_entries(path: Seq<Seq<char>>, t: FileType, g: Seq<Seq<u8>>, b: int) -> Seq<
    Option<EntryModel>,
> {
    Seq::new(
        g.len(),
        |k: int|
            Some(
                EntryModel {
                    content: g[k],
                    path: pushed(path, file_name(decimal(k as nat), bucket_kind(t, b))),
                    type_hint: Some(bucket_kind(t, b)),
                    compression_hint: None,
                },
            ),
    )
}

pub open spec fn bucket_children(path: Seq<Seq<char>>, t: FileType, gs: Seq<Seq<Seq<u8>>>) -> Seq<
    Option<EntryModel>,
> {
    Seq::new(8, |b: int| bucket_entries(path, t, gs[b], b)).flatten()
}

/// The buckets of a HPAK node: one unwritten slot per file.
pub open spec fn hpak_shape(h: HPAKMeta, gs: Seq<Seq<Seq<u8>>>) -> bool {
    &&& h.nsbca_files@.len() == gs[0].len() && all_uninit(h.nsbca_files@)
    &&& h.nsbva_files@.len() == gs[1].len() && all_uninit(h.nsbva_files@)
    &&& h.nsbma_files@.len() == gs[2].len() && all_uninit(h.nsbma_files@)
    &&& h.nsbtp_files@.len() == gs[3].len() && all_uninit(h.nsbtp_files@)
    &&& h.nsbta_files@.len() == gs[4].len() && all_uninit(h.nsbta_files@)
    &&& h.unknown5_files@.len() == gs[5].len() && all_uninit(h.unknown5_files@)
    &&& h.unknown6_files@.len() == gs[6].len() && all_uninit(h.unknown6_files@)
    &&& h.nsbmd_files@.len() == gs[7].len() && all_uninit(h.nsbmd_files@)
}

/// The buckets of a PK2D node: one unwritten slot per file.
pub open spec fn pk2d_shape(h: PK2DMeta, gs: Seq<Seq<Seq<u8>>>) -> bool {
    &&& h.nclr_files@.len() == gs[0].len() && all_uninit(h.nclr_files@)
    &&& h.ncgr_files@.len() == gs[1].len() && all_uninit(h.ncgr_files@)
    &&& h.unknown2_files@.len() == gs[2].len() && all_uninit(h.unknown2_files@)
    &&& h.ncer_files@.len() == gs[3].len() && all_uninit(h.ncer_files@)
    &&& h.unknown4_files@.len() == gs[4].len() && all_uninit(h.unknown4_files@)
    &&& h.nanr_files@.len() == gs[5].len() && all_uninit(h.nanr_files@)
    &&& h.nscr_files@.len() == gs[6].len() && all_uninit(h.nscr_files@)
    &&& h.unknown7_files@.len() == gs[7].len() && all_uninit(h.unknown7_files@)
}

pub open spec fn bucket_outcome(e: EntryModel, t: FileType, r: Result<Unpacked, ArchiveError>) -> bool {
    if !groups_decodable(e.content) {
        r == Err::<Unpacked, ArchiveError>(ArchiveError::MalformedContainer)
    } else {
        let gs = groups_decode(e.content);
        match r {
            Ok(u) => {
                &&& dir_is(u.create_dir, e.path)
                &&& u.write is None
                &&& children_view(u) == bucket_children(e.path, t, gs)
                &&& children(u.meta).len() == u.children@.len()
                &&& if t == FileType::HPAK {
                    u.meta matches FileMeta::HPAK(h) && h.unpacked_name@ == last_segment(e.path)
                        && hpak_shape(h, gs)
                } else {
                    u.meta matches FileMeta::PK2D(h) && h.unpacked_name@ == last_segment(e.path)
                        && pk2d_shape(h, gs)
                }
            },
            Err(_) => false,
        }
    }
}

// ---- PKAC ----

pub open spec fn pkac_unpackable(s: Seq<u8>) -> bool {
    &&& groups_decodable(s)
    &&& pkac_readable(groups_decode(s))
    &&& forall|i: int|
        0 <= i < pkac_files(groups_decode(s)).len() ==> valid_utf8(
            (#[trigger] pkac_files(groups_decode(s))[i]).0,
        )
    &&& forall|i: int|
        0 <= i < pkac_extra(groups_decode(s)).len() ==> valid_utf8(
            #[trigger] pkac_extra(groups_decode(s))[i],
        )
}

pub open spec fn pkac_child(path: Seq<Seq<char>>, f: (Seq<u8>, Seq<u8>)) -> Option<EntryModel> {
    let t = classify(f.1, true);
    Some(
        EntryModel {
            content: f.1,
            path: pushed(path, file_name(decode_utf8(f.0), t)),
            type_hint: Some(t),
            compression_hint: None,
        },
    )
}

pub open spec fn pkac_outcome(e: EntryModel, r: Result<Unpacked, ArchiveError>) -> bool {
    if !pkac_unpackable(e.content) {
        r == Err::<Unpacked, ArchiveError>(ArchiveError::MalformedContainer)
    } else {
        let fs = pkac_files(groups_decode(e.content));
        match r {
            Ok(u) => {
                &&& dir_is(u.create_dir, e.path)
                &&& u.write is None
                &&& children_view(u) == Seq::new(fs.len(), |i: int| pkac_child(e.path, fs[i]))
                &&& u.meta matches FileMeta::PKAC(pm) && pm.unpacked_name@ == last_segment(e.path)
                    && pm.files@.len() == fs.len() && forall|i: int|
                    0 <= i < fs.len() ==> (#[trigger] pm.files@[i]).0@ == decode_utf8(fs[i].0)
                        && pm.files@[i].1 is Uninitialized
                &&& u.meta matches FileMeta::PKAC(pm) && pm.extra_names@.len() == pkac_extra(
                    groups_decode(e.content),
                ).len() && forall|i: int|
                    0 <= i < pm.extra_names@.len() ==> (#[trigger] pm.extra_names@[i])@ == decode_utf8(
                        pkac_extra(groups_decode(e.content))[i],
                    )
            },
            Err(_) => false,
        }
    }
}

// ---- LZ streams ----

pub open spec fn lz_outcome(e: EntryModel, r: Result<Unpacked, ArchiveError>) -> bool {
    if lz_payload(e.content) is None {
        r == Err::<Unpacked, ArchiveError>(ArchiveError::MalformedContainer)
    } else {
        match r {
            Ok(u) => {
                &&& u.create_dir is None
                &&& u.write is None
                &&& children_view(u) == seq![
                    Some(
                        EntryModel {
                            content: lz_payload(e.content)->0,
                            path: e.path,
                            type_hint: None,
                            compression_hint: Some(false),
                        },
                    ),
                ]
                &&& u.meta matches FileMeta::LZ(l) && *l.file is Uninitialized && l.lz_type == if e.content[0] == 0x10 {
                    LZType::LZ10
                } else {
                    LZType::LZ11
                }
            },
            Err(_) => false,
        }
    }
}

/// What handling a queued file yields.
pub open spec fn handled(e: EntryModel, r: Result<Unpacked, ArchiveError>) -> bool {
    let t = entry_kind(e);
    if e.content.len() == 0 {
        r matches Ok(u) && u.meta is EmptyFile && u.create_dir is None && u.write is None
            && u.children@.len() == 0
    } else if !is_still_packed(t) {
        match r {
            Ok(u) => {
                &&& u.meta matches FileMeta::OtherFile(n) && n@ == last_segment(e.path)
                &&& u.create_dir is None
                &&& u.write matches Some(w) && w.0@ == e.path && w.1@ == e.content
                &&& u.children@.len() == 0
            },
            Err(_) => false,
        }
    } else if t == FileType::LZ {
        lz_outcome(e, r)
    } else if t == FileType::P2 {
        p2_outcome(e, r)
    } else if t == FileType::PKAC {
        pkac_outcome(e, r)
    } else {
        bucket_outcome(e, t, r)
    }
}

impl P2Subfile {
    /// The subfile's bytes, decompressed when it is stored compressed.
    pub fn get_decompressed(&self) -> (r: Result<Vec<u8>, ArchiveError>)
        ensures
            match payload(self@) {
                Some(d) => r matches Ok(v) && v@ == d,
                None => r == Err::<Vec<u8>, ArchiveError>(ArchiveError::MalformedContainer),
            },
    {
        if self.compressed {
            match try_decompress(self.content.as_slice()) {
                Some(v) => Ok(v),
                None => Err(ArchiveError::MalformedContainer),
            }
        } else {
            Ok(copy_vec(&self.content))
        }
    }

    /// Replaces a compressed subfile's bytes by what they decompress to.
    pub fn decompress(&mut self) -> (r: Result<(), ArchiveError>)
        ensures
            match payload(old(self)@) {
                Some(d) => r is Ok && !final(self).compressed && final(self).content@ == d
                    && final(self).index == old(self).index && final(self).name == old(self).name,
                None => r == Err::<(), ArchiveError>(ArchiveError::MalformedContainer)
                    && final(self)@ == old(self)@,
            },
    {
        if self.compressed {
            match try_decompress(self.content.as_slice()) {
                Some(v) => {
                    self.content = v;
                    self.compressed = false;
                    Ok(())
                },
                None => Err(ArchiveError::MalformedContainer),
            }
        } else {
            Ok(())
        }
    }

    /// The stem of the subfile's unpacked name: its own name, or its index.
    /// Fails with `MalformedContainer` when the name is not UTF-8.
    pub fn suggest_name(&self) -> (r: Result<String, ArchiveError>)
        ensures
            match self.name {
                Some(n) => if valid_utf8(n@) {
                    r matches Ok(s) && s@ == decode_utf8(n@)
                } else {
                    r == Err::<String, ArchiveError>(ArchiveError::MalformedContainer)
                },
                None => r matches Ok(s) && s@ == decimal(self.index as nat),
            },
    {
        match &self.name {
            Some(n) => match utf8_string(n) {
                Some(s) => Ok(s),
                None => Err(ArchiveError::MalformedContainer),
            },
            None => Ok(decimal_string(self.index as u64)),
        }
    }
}

/// Handles one queued file: an empty one becomes an empty leaf, one that is
/// not a container is written as it is, and a container is decoded into its
/// node and the files it holds.
pub fn handle_file(file: &FileQueueEntry) -> (r: Result<Unpacked, ArchiveError>)
    ensures
        handled(file@, r),
        r matches Ok(u) ==> children(u.meta).len() == u.children@.len(),
{
    let ty = file.get_or_guess_type();
    if file.content.len() == 0 {
        let u = Unpacked { meta: FileMeta::EmptyFile, create_dir: None, write: None, children: Vec::new() };
        return Ok(u);
    }
    if !ty.still_packed() {
        let u = Unpacked {
            meta: FileMeta::OtherFile(file.path.peek()),
            create_dir: None,
            write: Some((file.path.duplicate(), copy_vec(&file.content))),
            children: Vec::new(),
        };
        return Ok(u);
    }
    match ty {
        FileType::LZ => unpack_lz(file),
        FileType::P2 => unpack_p2(file),
        FileType::PKAC => unpack_pkac(file),
        _ => unpack_buckets(file, ty),
    }
}

fn unpack_lz(file: &FileQueueEntry) -> (r: Result<Unpacked, ArchiveError>)
    requires
        file@.content.len() > 0,
    ensures
        lz_outcome(file@, r),
        r matches Ok(u) ==> children(u.meta).len() == u.children@.len(),
{
    let lz_type = if file.content[0] == 0x10 {
        LZType::LZ10
    } else {
        LZType::LZ11
    };
    let content = match try_decompress(file.content.as_slice()) {
        Some(v) => v,
        None => {
            return Err(ArchiveError::MalformedContainer);
        },
    };
    let child = FileQueueEntry {
        content,
        path: file.path.duplicate(),
        type_hint: None,
        compression_hint: Some(false),
    };
    let mut kids: Vec<Child> = Vec::new();
    kids.push(Child::Entry(child));
    let u = Unpacked {
        meta: FileMeta::LZ(LZMeta::new(lz_type)),
        create_dir: None,
        write: None,
        children: kids,
    };
    assert(children_view(u) =~= seq![Some(child@)]);
    Ok(u)
}

fn unpack_p2(file: &FileQueueEntry) -> (r: Result<Unpacked, ArchiveError>)
    ensures
        p2_outcome(file@, r),
        r matches Ok(u) ==> children(u.meta).len() == u.children@.len(),
{
    let p2 = match P2File::parse(file.content.as_slice()) {
        Ok(p) => p,
        Err(e) => {
            return Err(e);
        },
    };
    let ghost m = p2@;
    let n = p2.subfiles.len();
    let name = file.path.peek();
    let meta = if p2.named {
        match NamedP2Meta::from(&p2, name) {
            Ok(nm) => {
                assert forall|j: int| 0 <= j < n implies (#[trigger] m.subfiles[j]).name is Some
                    && valid_utf8(m.subfiles[j].name->0) && nm.files@[j].0@ == decode_utf8(
                    m.subfiles[j].name->0,
                ) && nm.files@[j].1.compressed == m.subfiles[j].compressed by {
                    assert(m.subfiles[j] == p2.subfiles@[j]@);
                }
                FileMeta::NamedP2(nm)
            },
            Err(e) => {
                proof {
                    let i = choose|i: int|
                        0 <= i < p2.subfiles@.len() && (p2.subfiles@[i].name is None
                            || !valid_utf8(p2.subfiles@[i].name->0@));
                    assert(m.subfiles[i] == p2.subfiles@[i]@);
                }
                return Err(e);
            },
        }
    } else {
        let pm = P2Meta::from(&p2, name);
        assert forall|j: int| 0 <= j < n implies (#[trigger] pm.files@[j]).compressed
            == m.subfiles[j].compressed by {
            assert(m.subfiles[j] == p2.subfiles@[j]@);
        }
        FileMeta::P2(pm)
    };
    assert(children(meta).len() == n);
    let mut kids: Vec<Child> = Vec::with_capacity(n);
    let mut i: usize = 0;
    while i < n
        invariant
            i <= n,
            n == m.subfiles.len(),
            m == p2@,
            m == p2_decode(file@.content),
            p2_meta_ok(file@.path, m, meta),
            m.named ==> forall|j: int|
                0 <= j < n ==> (#[trigger] m.subfiles[j]).name is Some && valid_utf8(
                    m.subfiles[j].name->0,
                ),
            kids@.map_values(|c: Child| child_view(c)) =~= Seq::new(
                i as nat,
                |j: int| p2_child(file@.path, m, j),
            ),
            forall|j: int|
                0 <= j < i && (#[trigger] m.subfiles[j]).content.len() > 0 ==> payload(
                    m.subfiles[j],
                ) is Some,
            forall|j: int| 0 <= j < n ==> (#[trigger] m.subfiles[j]).index == j,
        decreases n - i,
    {
        let s = &p2.subfiles[i];
        assert(m.subfiles[i as int] == s@);
        let ghost prev = kids@;
        if s.content.len() == 0 {
            kids.push(Child::Empty);
        } else {
            let data = match s.get_decompressed() {
                Ok(d) => d,
                Err(e) => {
                    return Err(e);
                },
            };
            let t = FileType::guess_from(data.as_slice(), false);
            let stem = match s.suggest_name() {
                Ok(x) => x,
                Err(e) => {
                    return Err(e);
                },
            };
            let fname = make_file_name(&stem, t);
            let mut p = file.path.duplicate();
            p.push(fname);
            let entry = FileQueueEntry {
                content: data,
                path: p,
                type_hint: Some(t),
                compression_hint: Some(false),
            };
            assert(Some(entry@) == p2_child(file@.path, m, i as int));
            kids.push(Child::Entry(entry));
        }
        assert(kids@.map_values(|c: Child| child_view(c)) =~= prev.map_values(
            |c: Child| child_view(c),
        ).push(p2_child(file@.path, m, i as int)));
        i = i + 1;
    }
    let u = Unpacked { meta, create_dir: Some(file.path.duplicate()), write: None, children: kids };
    Ok(u)
}

/// How many files the buckets before `b` hold.
pub open spec fn lens_before(gs: Seq<Seq<Seq<u8>>>, b: int) -> int
    decreases b,
{
    if b <= 0 {
        0
    } else {
        lens_before(gs, b - 1) + gs[b - 1].len()
    }
}

fn unpack_buckets(file: &FileQueueEntry, ty: FileType) -> (r: Result<Unpacked, ArchiveError>)
    requires
        ty == FileType::HPAK || ty == FileType::PK2D,
    ensures
        bucket_outcome(file@, ty, r),
{
    let groups = match GroupedFiles::parse(file.content.as_slice()) {
        Ok(g) => g,
        Err(e) => {
            return Err(e);
        },
    };
    let ghost gs = groups@;
    let name = file.path.peek();
    let (meta, blobs) = if ty == FileType::HPAK {
        let h = HPAK::from_groups(groups);
        let hm = HPAKMeta::from(&h, name);
        assert(hpak_shape(hm, gs));
        let meta = FileMeta::HPAK(hm);
        assert(children(meta).len() == gs[0].len() + gs[1].len() + gs[2].len() + gs[3].len() + gs[4].len() + gs[5].len() + gs[6].len() + gs[7].len());
        (meta, h.into_groups())
    } else {
        let h = PK2D::from_groups(groups);
        let hm = PK2DMeta::from(&h, name);
        assert(pk2d_shape(hm, gs));
        let meta = FileMeta::PK2D(hm);
        assert(children(meta).len() == gs[0].len() + gs[1].len() + gs[2].len() + gs[3].len() + gs[4].len() + gs[5].len() + gs[6].len() + gs[7].len());
        (meta, h.into_groups())
    };
    assert(blobs@ == gs);
    let ghost per = Seq::new(8, |b: int| crate::extract::bucket_entries(file@.path, ty, gs[b], b));
    let mut kids: Vec<Child> = Vec::new();
    let mut b: usize = 0;
    while b < 8
        invariant
            b <= 8,
            blobs@ == gs,
            gs.len() == 8,
            ty == FileType::HPAK || ty == FileType::PK2D,
            per == Seq::new(8, |b: int| crate::extract::bucket_entries(file@.path, ty, gs[b], b)),
            kids@.map_values(|c: Child| child_view(c)) =~= per.take(b as int).flatten(),
            kids@.len() == lens_before(gs, b as int),
        decreases 8 - b,
    {
        let kind = if ty == FileType::HPAK {
            HPAK::bucket_kind(b)
        } else {
            PK2D::bucket_kind(b)
        };
        let g = &blobs.buckets[b];
        assert(gs[b as int] == crate::bucket::blobs_view(*g));
        let ghost start = kids@.map_values(|c: Child| child_view(c));
        assert(kids@.len() == lens_before(gs, b as int));
        let mut k: usize = 0;
        while k < g.len()
            invariant
                k <= g@.len(),
                b < 8,
                gs[b as int] == crate::bucket::blobs_view(*g),
                kind == bucket_kind(ty, b as int),
                kids@.map_values(|c: Child| child_view(c)) =~= start + per[b as int].take(k as int),
                kids@.len() == lens_before(gs, b as int) + k,
                per == Seq::new(8, |b: int| crate::extract::bucket_entries(file@.path, ty, gs[b], b)),
            decreases g@.len() - k,
        {
            let stem = decimal_string(k as u64);
            let fname = make_file_name(&stem, kind);
            let mut p = file.path.duplicate();
            p.push(fname);
            let entry = FileQueueEntry {
                content: copy_vec(&g[k]),
                path: p,
                type_hint: Some(kind),
                compression_hint: None,
            };
            assert(gs[b as int][k as int] == g@[k as int]@);
            assert(Some(entry@) == per[b as int][k as int]);
            let ghost prev = kids@;
            kids.push(Child::Entry(entry));
            assert(kids@.map_values(|c: Child| child_view(c)) =~= prev.map_values(
                |c: Child| child_view(c),
            ).push(Some(entry@)));
            k = k + 1;
        }
        assert(per[b as int].take(g@.len() as int) =~= per[b as int]);
        assert(per.take(b + 1) =~= per.take(b as int).push(per[b as int]));
        proof {
            per.take(b as int).lemma_flatten_push(per[b as int]);
        }
        b = b + 1;
    }
    assert(per.take(8) =~= per);
    let u = Unpacked { meta, create_dir: Some(file.path.duplicate()), write: None, children: kids };
    assert(lens_before(gs, 8) == gs[0].len() + gs[1].len() + gs[2].len() + gs[3].len() + gs[4].len() + gs[5].len() + gs[6].len() + gs[7].len()) by {
        reveal_with_fuel(lens_before, 9);
    }
    Ok(u)
}

fn unpack_pkac(file: &FileQueueEntry) -> (r: Result<Unpacked, ArchiveError>)
    ensures
        pkac_outcome(file@, r),
        r matches Ok(u) ==> children(u.meta).len() == u.children@.len(),
{
    let groups = match GroupedFiles::parse(file.content.as_slice()) {
        Ok(g) => g,
        Err(e) => {
            return Err(e);
        },
    };
    let ghost gs = groups@;
    let pk = match PKAC::try_from_groups(groups) {
        Ok(p) => p,
        Err(e) => {
            return Err(e);
        },
    };
    let ghost fs = pkac_files(gs);
    let pm = match PKACMeta::from(&pk, file.path.peek()) {
        Ok(m) => m,
        Err(e) => {
            proof {
                if exists|i: int| 0 <= i < pk.files@.len() && !valid_utf8(pk.files@[i].0@) {
                    let i = choose|i: int| 0 <= i < pk.files@.len() && !valid_utf8(pk.files@[i].0@);
                    assert(fs[i].0 == pk.files@[i].0@);
                } else {
                    let i = choose|i: int|
                        0 <= i < pk.extra_names@.len() && !valid_utf8(pk.extra_names@[i]@);
                    assert(pkac_extra(gs)[i] == pk.extra_names@[i]@);
                }
            }
            return Err(e);
        },
    };
    let n = pk.files.len();
    assert forall|i: int| 0 <= i < fs.len() implies valid_utf8(#[trigger] fs[i].0) by {
        assert(pk@[i] == (pk.files@[i].0@, pk.files@[i].1@));
        assert(pm.files@[i].1 is Uninitialized);
    }
    assert forall|i: int| 0 <= i < pkac_extra(gs).len() implies valid_utf8(#[trigger] pkac_extra(gs)[i])
        && pm.extra_names@[i]@ == decode_utf8(pkac_extra(gs)[i]) by {
        assert(pkac_extra(gs)[i] == pk.extra_names@[i]@);
        assert(crate::meta::decodes_to(pk.extra_names@[i]@, pm.extra_names@[i]@));
        reveal(crate::meta::decodes_to);
    }
    assert(pkac_unpackable(file@.content));
    let mut kids: Vec<Child> = Vec::with_capacity(n);
    let mut i: usize = 0;
    while i < n
        invariant
            i <= n,
            n == fs.len(),
            pk@ == fs,
            pm.files@.len() == n,
            forall|j: int|
                0 <= j < n ==> (#[trigger] pm.files@[j]).0@ == decode_utf8(pk.files@[j].0@),
            kids@.map_values(|c: Child| child_view(c)) =~= Seq::new(
                i as nat,
                |j: int| pkac_child(file@.path, fs[j]),
            ),
        decreases n - i,
    {
        assert(fs[i as int] == (pk.files@[i as int].0@, pk.files@[i as int].1@));
        let blob = &pk.files[i].1;
        let t = FileType::guess_from(blob.as_slice(), true);
        let fname = make_file_name(&pm.files[i].0, t);
        let mut p = file.path.duplicate();
        p.push(fname);
        let entry = FileQueueEntry {
            content: copy_vec(blob),
            path: p,
            type_hint: Some(t),
            compression_hint: None,
        };
        assert(Some(entry@) == pkac_child(file@.path, fs[i as int]));
        let ghost prev = kids@;
        kids.push(Child::Entry(entry));
        assert(kids@.map_values(|c: Child| child_view(c)) =~= prev.map_values(
            |c: Child| child_view(c),
        ).push(Some(entry@)));
        i = i + 1;
    }
    let u = Unpacked { meta: FileMeta::PKAC(pm), create_dir: Some(file.path.duplicate()), write: None, children: kids };
    assert(children(u.meta).len() == n);
    Ok(u)
}

} // verus!
