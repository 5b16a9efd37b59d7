//! Repacking: rebuilding each container's bytes from the unpacked tree and
//! the metadata recorded at extraction.
//!
//! Packing is a pure function of the metadata and of what has been read or
//! compressed so far. When it needs a file's bytes or a compression it has
//! not been given, it says so, and the caller supplies the answer and asks
//! again.
use vstd::prelude::*;
use crate::bucket::{GroupedFiles, blobs_view, groups_encodable, groups_encode};
use crate::containers::{PKAC, copy_vec, named_view, nametable_encodable, nametable_encode, pkac_groups};
use crate::error::ArchiveError;
use crate::file_type::{HPAK_MAGIC, PK2D_MAGIC, PKAC_MAGIC};
use crate::text::utf8_bytes;
use crate::meta::FileMeta;
use crate::p2::{P2File, P2Model, P2Subfile, SubfileModel, p2_encodable, p2_encode};
use crate::path::{RelPath, pushed};
use crate::tree::children;
use vstd::utf8::encode_utf8;

verus! {

/// Something packing needs and has not been given.
pub enum Need {
    /// The bytes of this file of the unpacked tree.
    Read(RelPath),
    /// These bytes, compressed.
    Compress(Vec<u8>),
}

pub enum NeedModel {
    Read(Seq<Seq<char>>),
    Compress(Seq<u8>),
}

/// A change to the output tree that packing asks for.
pub enum Effect {
    MakeDir(RelPath),
    Write(RelPath, Vec<u8>),
}

pub enum EffectModel {
    MakeDir(Seq<Seq<char>>),
    Write(Seq<Seq<char>>, Seq<u8>),
}

pub open spec fn need_view(n: Need) -> NeedModel {
    match n {
        Need::Read(p) => NeedModel::Read(p@),
        Need::Compress(b) => NeedModel::Compress(b@),
    }
}

pub open spec fn effect_view(e: Effect) -> EffectModel {
    match e {
        Effect::MakeDir(p) => EffectModel::MakeDir(p@),
        Effect::Write(p, b) => EffectModel::Write(p@, b@),
    }
}

pub open spec fn effects_view(v: Seq<Effect>) -> Seq<EffectModel> {
    v.map_values(|e: Effect| effect_view(e))
}

/// The file contents read and the compressions done so far.
pub struct PackInputs {
    pub files: Vec<(RelPath, Vec<u8>)>,
    pub compressed: Vec<(Vec<u8>, Vec<u8>)>,
}

pub struct InputsModel {
    pub files: Seq<(Seq<Seq<char>>, Seq<u8>)>,
    pub compressed: Seq<(Seq<u8>, Seq<u8>)>,
}

impl View for PackInputs {
    type V = InputsModel;

    open spec fn view(&self) -> InputsModel {
        InputsModel {
            files: self.files@.map_values(|e: (RelPath, Vec<u8>)| (e.0@, e.1@)),
            compressed: self.compressed@.map_values(|e: (Vec<u8>, Vec<u8>)| (e.0@, e.1@)),
        }
    }
}

/// The first answer recorded for `key`.
pub open spec fn find<K>(s: Seq<(K, Seq<u8>)>, key: K) -> Option<Seq<u8>>
    decreases s.len(),
{
    if s.len() == 0 {
        None
    } else if s[0].0 == key {
        Some(s[0].1)
    } else {
        find(s.drop_first(), key)
    }
}

/// What packing one node gives: its bytes and the changes to the output
/// tree, or the first thing it needs, or an error.
pub enum Outcome {
    Done(Seq<u8>, Seq<EffectModel>),
    Missing(NeedModel),
    Fail(ArchiveError),
}

/// The same for a run of child positions.
pub enum ListOutcome {
    Done(Seq<Seq<u8>>, Seq<EffectModel>),
    Missing(NeedModel),
    Fail(ArchiveError),
}

/// The child at position `i`.
pub open spec fn child_at(m: FileMeta, i: int) -> FileMeta {
    match m {
        FileMeta::Directory(d) => d.files@[i].1,
        FileMeta::P2(p) => p.files@[i].file,
        FileMeta::NamedP2(p) => p.files@[i].1.file,
        FileMeta::PKAC(p) => p.files@[i].1,
        FileMeta::LZ(l) => *l.file,
        FileMeta::HPAK(h) => {
            if i < h.nsbca_files@.len() {
                h.nsbca_files@[i - (0)]
            } else if i < h.nsbca_files@.len() + h.nsbva_files@.len() {
                h.nsbva_files@[i - (h.nsbca_files@.len())]
            } else if i < h.nsbca_files@.len() + h.nsbva_files@.len() + h.nsbma_files@.len() {
                h.nsbma_files@[i - (h.nsbca_files@.len() + h.nsbva_files@.len())]
            } else if i < h.nsbca_files@.len() + h.nsbva_files@.len() + h.nsbma_files@.len() + h.nsbtp_files@.len() {
                h.nsbtp_files@[i - (h.nsbca_files@.len() + h.nsbva_files@.len() + h.nsbma_files@.len())]
            } else if i < h.nsbca_files@.len() + h.nsbva_files@.len() + h.nsbma_files@.len() + h.nsbtp_files@.len() + h.nsbta_files@.len() {
                h.nsbta_files@[i - (h.nsbca_files@.len() + h.nsbva_files@.len() + h.nsbma_files@.len() + h.nsbtp_files@.len())]
            } else if i < h.nsbca_files@.len() + h.nsbva_files@.len() + h.nsbma_files@.len() + h.nsbtp_files@.len() + h.nsbta_files@.len() + h.unknown5_files@.len() {
                h.unknown5_files@[i - (h.nsbca_files@.len() + h.nsbva_files@.len() + h.nsbma_files@.len() + h.nsbtp_files@.len() + h.nsbta_files@.len())]
            } else if i < h.nsbca_files@.len() + h.nsbva_files@.len() + h.nsbma_files@.len() + h.nsbtp_files@.len() + h.nsbta_files@.len() + h.unknown5_files@.len() + h.unknown6_files@.len() {
                h.unknown6_files@[i - (h.nsbca_files@.len() + h.nsbva_files@.len() + h.nsbma_files@.len() + h.nsbtp_files@.len() + h.nsbta_files@.len() + h.unknown5_files@.len())]
            } else {
                h.nsbmd_files@[i - (h.nsbca_files@.len() + h.nsbva_files@.len() + h.nsbma_files@.len() + h.nsbtp_files@.len() + h.nsbta_files@.len() + h.unknown5_files@.len() + h.unknown6_files@.len())]
            }
        },
        FileMeta::PK2D(h) => {
            if i < h.nclr_files@.len() {
                h.nclr_files@[i - (0)]
            } else if i < h.nclr_files@.len() + h.ncgr_files@.len() {
                h.ncgr_files@[i - (h.nclr_files@.len())]
            } else if i < h.nclr_files@.len() + h.ncgr_files@.len() + h.unknown2_files@.len() {
                h.unknown2_files@[i - (h.nclr_files@.len() + h.ncgr_files@.len())]
            } else if i < h.nclr_files@.len() + h.ncgr_files@.len() + h.unknown2_files@.len() + h.ncer_files@.len() {
                h.ncer_files@[i - (h.nclr_files@.len() + h.ncgr_files@.len() + h.unknown2_files@.len())]
            } else if i < h.nclr_files@.len() + h.ncgr_files@.len() + h.unknown2_files@.len() + h.ncer_files@.len() + h.unknown4_files@.len() {
                h.unknown4_files@[i - (h.nclr_files@.len() + h.ncgr_files@.len() + h.unknown2_files@.len() + h.ncer_files@.len())]
            } else if i < h.nclr_files@.len() + h.ncgr_files@.len() + h.unknown2_files@.len() + h.ncer_files@.len() + h.unknown4_files@.len() + h.nanr_files@.len() {
                h.nanr_files@[i - (h.nclr_files@.len() + h.ncgr_files@.len() + h.unknown2_files@.len() + h.ncer_files@.len() + h.unknown4_files@.len())]
            } else if i < h.nclr_files@.len() + h.ncgr_files@.len() + h.unknown2_files@.len() + h.ncer_files@.len() + h.unknown4_files@.len() + h.nanr_files@.len() + h.nscr_files@.len() {
                h.nscr_files@[i - (h.nclr_files@.len() + h.ncgr_files@.len() + h.unknown2_files@.len() + h.ncer_files@.len() + h.unknown4_files@.len() + h.nanr_files@.len())]
            } else {
                h.unknown7_files@[i - (h.nclr_files@.len() + h.ncgr_files@.len() + h.unknown2_files@.len() + h.ncer_files@.len() + h.unknown4_files@.len() + h.nanr_files@.len() + h.nscr_files@.len())]
            }
        },
        _ => FileMeta::Uninitialized,
    }
}

/// `b`, compressed when `flag` is set and `b` is not empty.
pub open spec fn compress_if(flag: bool, b: Seq<u8>, fx: Seq<EffectModel>, inp: InputsModel) -> Outcome {
    if flag && b.len() > 0 {
        match find(inp.compressed, b) {
            Some(c) => Outcome::Done(c, fx),
            None => Outcome::Missing(NeedModel::Compress(b)),
        }
    } else {
        Outcome::Done(b, fx)
    }
}

/// What the parent makes of its child `i` once that child is packed: a
/// subfile stored compressed is compressed, and a directory writes each
/// entry that is not itself a directory.
pub open spec fn finish(dir: Seq<Seq<char>>, m: FileMeta, i: int, b: Seq<u8>, fx: Seq<EffectModel>, inp: InputsModel) -> Outcome {
    match m {
        FileMeta::P2(p) => compress_if(p.files@[i].compressed, b, fx, inp),
        FileMeta::NamedP2(p) => compress_if(p.files@[i].1.compressed, b, fx, inp),
        FileMeta::Directory(d) => if d.files@[i].1 is Directory {
            Outcome::Done(b, fx)
        } else {
            Outcome::Done(b, fx.push(EffectModel::Write(pushed(dir, d.files@[i].0@), b)))
        },
        _ => Outcome::Done(b, fx),
    }
}

pub open spec fn combine(bs: Seq<Seq<u8>>, fx: Seq<EffectModel>, rest: ListOutcome) -> ListOutcome {
    match rest {
        ListOutcome::Done(bs2, fx2) => ListOutcome::Done(bs + bs2, fx + fx2),
        other => other,
    }
}

/// Packs child positions `i ..` of `m`, whose files live under `dir`.
pub open spec fn pack_list(dir: Seq<Seq<char>>, m: FileMeta, i: int, inp: InputsModel) -> ListOutcome
    decreases m, children(m).len() - i,
    when 0 <= i
{
    if i >= children(m).len() {
        ListOutcome::Done(Seq::empty(), Seq::empty())
    } else {
        match packs(dir, child_at(m, i), inp) {
            Outcome::Done(b, fx) => match finish(dir, m, i, b, fx, inp) {
                Outcome::Done(b2, fx2) => combine(seq![b2], fx2, pack_list(dir, m, i + 1, inp)),
                Outcome::Missing(n) => ListOutcome::Missing(n),
                Outcome::Fail(e) => ListOutcome::Fail(e),
            },
            Outcome::Missing(n) => ListOutcome::Missing(n),
            Outcome::Fail(e) => ListOutcome::Fail(e),
        }
    }
}

/// The subfiles of a segmented archive rebuilt from its metadata and its
/// packed children.
pub open spec fn p2_model_of(m: FileMeta, bs: Seq<Seq<u8>>) -> P2Model {
    match m {
        FileMeta::NamedP2(p) => P2Model {
            named: true,
            subfiles: Seq::new(
                bs.len(),
                |i: int|
                    SubfileModel {
                        index: (i as u16) as int,
                        compressed: p.files@[i].1.compressed,
                        content: bs[i],
                        name: Some(encode_utf8(p.files@[i].0@)),
                    },
            ),
        },
        FileMeta::P2(p) => P2Model {
            named: false,
            subfiles: Seq::new(
                bs.len(),
                |i: int|
                    SubfileModel {
                        index: (i as u16) as int,
                        compressed: p.files@[i].compressed,
                        content: bs[i],
                        name: None,
                    },
            ),
        },
        _ => P2Model { named: false, subfiles: Seq::empty() },
    }
}

/// `bs` cut into eight runs of the given lengths.
pub open spec fn split8(bs: Seq<Seq<u8>>, lens: Seq<int>) -> Seq<Seq<Seq<u8>>> {
    Seq::new(8, |b: int| bs.subrange(run_start(lens, b), run_start(lens, b) + lens[b]))
}

pub open spec fn run_start(lens: Seq<int>, b: int) -> int
    decreases b,
{
    if b <= 0 {
        0
    } else {
        run_start(lens, b - 1) + lens[b - 1]
    }
}

pub open spec fn bucket_lens(m: FileMeta) -> Seq<int> {
    match m {
        FileMeta::HPAK(h) => seq![h.nsbca_files@.len() as int, h.nsbva_files@.len() as int, h.nsbma_files@.len() as int, h.nsbtp_files@.len() as int, h.nsbta_files@.len() as int, h.unknown5_files@.len() as int, h.unknown6_files@.len() as int, h.nsbmd_files@.len() as int],
        FileMeta::PK2D(h) => seq![h.nclr_files@.len() as int, h.ncgr_files@.len() as int, h.unknown2_files@.len() as int, h.ncer_files@.len() as int, h.unknown4_files@.len() as int, h.nanr_files@.len() as int, h.nscr_files@.len() as int, h.unknown7_files@.len() as int],
        _ => Seq::empty(),
    }
}

pub open spec fn pkac_names(m: FileMeta) -> Seq<Seq<u8>> {
    match m {
        FileMeta::PKAC(p) => Seq::new(p.files@.len(), |i: int| encode_utf8(p.files@[i].0@)) + Seq::new(
            p.extra_names@.len(),
            |i: int| encode_utf8(p.extra_names@[i]@),
        ),
        _ => Seq::empty(),
    }
}

pub open spec fn encoded_or_fail(ok: bool, bytes: Seq<u8>, fx: Seq<EffectModel>) -> Outcome {
    if ok {
        Outcome::Done(bytes, fx)
    } else {
        Outcome::Fail(ArchiveError::EncodingInconsistency)
    }
}

/// The container bytes for `m` from its packed children.
#[verifier::opaque]
pub open spec fn assemble(m: FileMeta, bs: Seq<Seq<u8>>, fx: Seq<EffectModel>) -> Outcome {
    match m {
        FileMeta::P2(_) | FileMeta::NamedP2(_) => encoded_or_fail(
            p2_encodable(p2_model_of(m, bs)),
            p2_encode(p2_model_of(m, bs)),
            fx,
        ),
        FileMeta::HPAK(_) => encoded_or_fail(
            groups_encodable(split8(bs, bucket_lens(m))),
            groups_encode(HPAK_MAGIC, split8(bs, bucket_lens(m))),
            fx,
        ),
        FileMeta::PK2D(_) => encoded_or_fail(
            groups_encodable(split8(bs, bucket_lens(m))),
            groups_encode(PK2D_MAGIC, split8(bs, bucket_lens(m))),
            fx,
        ),
        FileMeta::PKAC(_) => {
            let names = pkac_names(m);
            let groups = pkac_groups(
                nametable_encode(names),
                Seq::new(bs.len(), |i: int| (names[i], bs[i])),
            );
            encoded_or_fail(
                nametable_encodable(names) && groups_encodable(groups),
                groups_encode(PKAC_MAGIC, groups),
                fx,
            )
        },
        _ => Outcome::Done(Seq::empty(), fx),
    }
}

/// The name a node gives to its own directory in the unpacked tree.
pub open spec fn own_name(m: FileMeta) -> Seq<char> {
    match m {
        FileMeta::Directory(d) => d.unpacked_name@,
        FileMeta::P2(p) => p.unpacked_name@,
        FileMeta::NamedP2(p) => p.unpacked_name@,
        FileMeta::HPAK(p) => p.unpacked_name@,
        FileMeta::PK2D(p) => p.unpacked_name@,
        FileMeta::PKAC(p) => p.unpacked_name@,
        _ => Seq::empty(),
    }
}

/// Packing the node `m` whose parent directory in the unpacked tree is
/// `parent`: a stored file is read back, an empty one is empty, an LZ node
/// compresses its packed child, a container encodes its packed children,
/// and a directory creates itself and writes its entries (giving no bytes).
/// An unwritten node cannot be packed.
pub open spec fn packs(parent: Seq<Seq<char>>, m: FileMeta, inp: InputsModel) -> Outcome
    decreases m, children(m).len() + 1,
{
    match m {
        FileMeta::OtherFile(name) => {
            let p = pushed(parent, name@);
            match find(inp.files, p) {
                Some(b) => Outcome::Done(b, Seq::empty()),
                None => Outcome::Missing(NeedModel::Read(p)),
            }
        },
        FileMeta::EmptyFile => Outcome::Done(Seq::empty(), Seq::empty()),
        FileMeta::Uninitialized => Outcome::Fail(ArchiveError::EncodingInconsistency),
        FileMeta::LZ(l) => match packs(parent, *l.file, inp) {
            Outcome::Done(b, fx) => match find(inp.compressed, b) {
                Some(c) => Outcome::Done(c, fx),
                None => Outcome::Missing(NeedModel::Compress(b)),
            },
            other => other,
        },
        FileMeta::Directory(d) => {
            let dir = pushed(parent, d.unpacked_name@);
            match pack_list(dir, m, 0, inp) {
                ListOutcome::Done(bs, fx) => Outcome::Done(
                    Seq::empty(),
                    seq![EffectModel::MakeDir(dir)] + fx,
                ),
                ListOutcome::Missing(n) => Outcome::Missing(n),
                ListOutcome::Fail(e) => Outcome::Fail(e),
            }
        },
        _ => if children(m).len() > usize::MAX {
            Outcome::Fail(ArchiveError::EncodingInconsistency)
        } else {
            let dir = pushed(parent, own_name(m));
            match pack_list(dir, m, 0, inp) {
                ListOutcome::Done(bs, fx) => assemble(m, bs, fx),
                ListOutcome::Missing(n) => Outcome::Missing(n),
                ListOutcome::Fail(e) => Outcome::Fail(e),
            }
        },
    }
}

/// The bytes of a packed node and the changes to the output tree it asks
/// for, in order.
pub struct Packed {
    pub bytes: Vec<u8>,
    pub effects: Vec<Effect>,
}

/// Why packing stopped before it was done.
pub enum PackStop {
    Missing(Need),
    Fail(ArchiveError),
}

pub open spec fn step_view(r: Result<Packed, PackStop>) -> Outcome {
    match r {
        Ok(p) => Outcome::Done(p.bytes@, effects_view(p.effects@)),
        Err(PackStop::Missing(n)) => Outcome::Missing(need_view(n)),
        Err(PackStop::Fail(e)) => Outcome::Fail(e),
    }
}

pub open spec fn list_view(r: Result<(Vec<Vec<u8>>, Vec<Effect>), PackStop>) -> ListOutcome {
    match r {
        Ok(p) => ListOutcome::Done(blobs_view(p.0), effects_view(p.1@)),
        Err(PackStop::Missing(n)) => ListOutcome::Missing(need_view(n)),
        Err(PackStop::Fail(e)) => ListOutcome::Fail(e),
    }
}

pub open spec fn opt_view(r: Option<Vec<u8>>) -> Option<Seq<u8>> {
    match r {
        Some(v) => Some(v@),
        None => None,
    }
}

/// Whether two byte strings are equal.
pub fn bytes_eq(a: &[u8], b: &[u8]) -> (r: bool)
    ensures
        r == (a@ == b@),
{
    if a.len() != b.len() {
        return false;
    }
    let mut i: usize = 0;
    while i < a.len()
        invariant
            i <= a@.len(),
            a@.len() == b@.len(),
            a@.subrange(0, i as int) == b@.subrange(0, i as int),
        decreases a@.len() - i,
    {
        if a[i] != b[i] {
            assert(a@[i as int] != b@[i as int]);
            return false;
        }
        assert(a@.subrange(0, i + 1) =~= a@.subrange(0, i as int).push(a@[i as int]));
        assert(b@.subrange(0, i + 1) =~= b@.subrange(0, i as int).push(b@[i as int]));
        i = i + 1;
    }
    assert(a@ =~= a@.subrange(0, i as int));
    assert(b@ =~= b@.subrange(0, i as int));
    true
}

impl PackInputs {
    /// Nothing read or compressed yet.
    pub fn new() -> (r: PackInputs)
        ensures
            r@.files.len() == 0,
            r@.compressed.len() == 0,
    {
        PackInputs { files: Vec::new(), compressed: Vec::new() }
    }

    /// Records the bytes of a file of the unpacked tree.
    pub fn add_file(&mut self, path: RelPath, content: Vec<u8>)
        ensures
            final(self)@.files == old(self)@.files.push((path@, content@)),
            final(self)@.compressed == old(self)@.compressed,
    {
        let ghost before = self.files@;
        let ghost p = path@;
        let ghost c = content@;
        self.files.push((path, content));
        assert(self@.files =~= before.map_values(|e: (RelPath, Vec<u8>)| (e.0@, e.1@)).push((p, c)));
    }

    /// Records what `plain` compresses to.
    pub fn add_compressed(&mut self, plain: Vec<u8>, packed: Vec<u8>)
        ensures
            final(self)@.compressed == old(self)@.compressed.push((plain@, packed@)),
            final(self)@.files == old(self)@.files,
    {
        let ghost before = self.compressed@;
        let ghost a = plain@;
        let ghost b = packed@;
        self.compressed.push((plain, packed));
        assert(self@.compressed =~= before.map_values(|e: (Vec<u8>, Vec<u8>)| (e.0@, e.1@)).push((a, b)));
    }

    fn find_file(&self, p: &RelPath) -> (r: Option<Vec<u8>>)
        ensures
            opt_view(r) == find(self@.files, p@),
    {
        let ghost s = self@.files;
        assert(s.skip(0) =~= s);
        let mut i: usize = 0;
        while i < self.files.len()
            invariant
                i <= self.files@.len(),
                s == self@.files,
                find(s, p@) == find(s.skip(i as int), p@),
            decreases self.files@.len() - i,
        {
            assert(s.skip(i as int)[0] == s[i as int]);
            assert(s.skip(i as int).drop_first() =~= s.skip(i + 1));
            if self.files[i].0.same(p) {
                return Some(copy_vec(&self.files[i].1));
            }
            i = i + 1;
        }
        assert(s.skip(i as int).len() == 0);
        None
    }

    fn find_compressed(&self, b: &Vec<u8>) -> (r: Option<Vec<u8>>)
        ensures
            opt_view(r) == find(self@.compressed, b@),
    {
        let ghost s = self@.compressed;
        assert(s.skip(0) =~= s);
        let mut i: usize = 0;
        while i < self.compressed.len()
            invariant
                i <= self.compressed@.len(),
                s == self@.compressed,
                find(s, b@) == find(s.skip(i as int), b@),
            decreases self.compressed@.len() - i,
        {
            assert(s.skip(i as int)[0] == s[i as int]);
            assert(s.skip(i as int).drop_first() =~= s.skip(i + 1));
            if bytes_eq(self.compressed[i].0.as_slice(), b.as_slice()) {
                return Some(copy_vec(&self.compressed[i].1));
            }
            i = i + 1;
        }
        assert(s.skip(i as int).len() == 0);
        None
    }
}

/// The child at position `i`.
fn child_ref(m: &FileMeta, i: usize) -> (r: &FileMeta)
    requires
        i < children(*m).len(),
        children(*m).len() <= usize::MAX,
    ensures
        *r == child_at(*m, i as int),
{
    match m {
        FileMeta::Directory(d) => &d.files[i].1,
        FileMeta::P2(p) => &p.files[i].file,
        FileMeta::NamedP2(p) => &p.files[i].1.file,
        FileMeta::PKAC(p) => &p.files[i].1,
        FileMeta::LZ(l) => &l.file,
        FileMeta::HPAK(h) => {
            if i < h.nsbca_files.len() {
                &h.nsbca_files[i - (0)]
            } else if i < h.nsbca_files.len() + h.nsbva_files.len() {
                &h.nsbva_files[i - (h.nsbca_files.len())]
            } else if i < h.nsbca_files.len() + h.nsbva_files.len() + h.nsbma_files.len() {
                &h.nsbma_files[i - (h.nsbca_files.len() + h.nsbva_files.len())]
            } else if i < h.nsbca_files.len() + h.nsbva_files.len() + h.nsbma_files.len() + h.nsbtp_files.len() {
                &h.nsbtp_files[i - (h.nsbca_files.len() + h.nsbva_files.len() + h.nsbma_files.len())]
            } else if i < h.nsbca_files.len() + h.nsbva_files.len() + h.nsbma_files.len() + h.nsbtp_files.len() + h.nsbta_files.len() {
                &h.nsbta_files[i - (h.nsbca_files.len() + h.nsbva_files.len() + h.nsbma_files.len() + h.nsbtp_files.len())]
            } else if i < h.nsbca_files.len() + h.nsbva_files.len() + h.nsbma_files.len() + h.nsbtp_files.len() + h.nsbta_files.len() + h.unknown5_files.len() {
                &h.unknown5_files[i - (h.nsbca_files.len() + h.nsbva_files.len() + h.nsbma_files.len() + h.nsbtp_files.len() + h.nsbta_files.len())]
            } else if i < h.nsbca_files.len() + h.nsbva_files.len() + h.nsbma_files.len() + h.nsbtp_files.len() + h.nsbta_files.len() + h.unknown5_files.len() + h.unknown6_files.len() {
                &h.unknown6_files[i - (h.nsbca_files.len() + h.nsbva_files.len() + h.nsbma_files.len() + h.nsbtp_files.len() + h.nsbta_files.len() + h.unknown5_files.len())]
            } else {
                &h.nsbmd_files[i - (h.nsbca_files.len() + h.nsbva_files.len() + h.nsbma_files.len() + h.nsbtp_files.len() + h.nsbta_files.len() + h.unknown5_files.len() + h.unknown6_files.len())]
            }
        },
        FileMeta::PK2D(h) => {
            if i < h.nclr_files.len() {
                &h.nclr_files[i - (0)]
            } else if i < h.nclr_files.len() + h.ncgr_files.len() {
                &h.ncgr_files[i - (h.nclr_files.len())]
            } else if i < h.nclr_files.len() + h.ncgr_files.len() + h.unknown2_files.len() {
                &h.unknown2_files[i - (h.nclr_files.len() + h.ncgr_files.len())]
            } else if i < h.nclr_files.len() + h.ncgr_files.len() + h.unknown2_files.len() + h.ncer_files.len() {
                &h.ncer_files[i - (h.nclr_files.len() + h.ncgr_files.len() + h.unknown2_files.len())]
            } else if i < h.nclr_files.len() + h.ncgr_files.len() + h.unknown2_files.len() + h.ncer_files.len() + h.unknown4_files.len() {
                &h.unknown4_files[i - (h.nclr_files.len() + h.ncgr_files.len() + h.unknown2_files.len() + h.ncer_files.len())]
            } else if i < h.nclr_files.len() + h.ncgr_files.len() + h.unknown2_files.len() + h.ncer_files.len() + h.unknown4_files.len() + h.nanr_files.len() {
                &h.nanr_files[i - (h.nclr_files.len() + h.ncgr_files.len() + h.unknown2_files.len() + h.ncer_files.len() + h.unknown4_files.len())]
            } else if i < h.nclr_files.len() + h.ncgr_files.len() + h.unknown2_files.len() + h.ncer_files.len() + h.unknown4_files.len() + h.nanr_files.len() + h.nscr_files.len() {
                &h.nscr_files[i - (h.nclr_files.len() + h.ncgr_files.len() + h.unknown2_files.len() + h.ncer_files.len() + h.unknown4_files.len() + h.nanr_files.len())]
            } else {
                &h.unknown7_files[i - (h.nclr_files.len() + h.ncgr_files.len() + h.unknown2_files.len() + h.ncer_files.len() + h.unknown4_files.len() + h.nanr_files.len() + h.nscr_files.len())]
            }
        },
        _ => m,
    }
}

pub proof fn lemma_combine_step(
    acc: Seq<Seq<u8>>,
    afx: Seq<EffectModel>,
    b: Seq<u8>,
    fx: Seq<EffectModel>,
    rest: ListOutcome,
)
    ensures
        combine(acc, afx, combine(seq![b], fx, rest)) == combine(acc.push(b), afx + fx, rest),
{
    match rest {
        ListOutcome::Done(bs, fx2) => {
            assert(acc + (seq![b] + bs) =~= acc.push(b) + bs);
            assert(afx + (fx + fx2) =~= (afx + fx) + fx2);
        },
        _ => {},
    }
}

fn append_effects(dst: &mut Vec<Effect>, src: Vec<Effect>)
    ensures
        effects_view(final(dst)@) == effects_view(old(dst)@) + effects_view(src@),
{
    let mut src = src;
    let ghost a = dst@;
    let ghost b = src@;
    dst.append(&mut src);
    assert(effects_view(dst@) =~= effects_view(a) + effects_view(b));
}

/// Packs `meta`, whose parent directory in the unpacked tree is `parent`,
/// from what `inp` holds. See `packs`.
pub fn pack_file(parent: &RelPath, meta: &FileMeta, inp: &PackInputs) -> (r: Result<Packed, PackStop>)
    ensures
        step_view(r) == packs(parent@, *meta, inp@),
    decreases meta, children(*meta).len() + 1, 1nat,
{
    match meta {
        FileMeta::OtherFile(name) => {
            let mut p = parent.duplicate();
            p.push(name.clone());
            match inp.find_file(&p) {
                Some(b) => {
                    let r = Packed { bytes: b, effects: Vec::new() };
                    assert(effects_view(r.effects@) =~= Seq::<EffectModel>::empty());
                    Ok(r)
                },
                None => Err(PackStop::Missing(Need::Read(p))),
            }
        },
        FileMeta::EmptyFile => {
            let r = Packed { bytes: Vec::new(), effects: Vec::new() };
            assert(effects_view(r.effects@) =~= Seq::<EffectModel>::empty());
            Ok(r)
        },
        FileMeta::Uninitialized => Err(PackStop::Fail(ArchiveError::EncodingInconsistency)),
        FileMeta::LZ(l) => match pack_file(parent, &l.file, inp) {
            Ok(pk) => match inp.find_compressed(&pk.bytes) {
                Some(c) => Ok(Packed { bytes: c, effects: pk.effects }),
                None => Err(PackStop::Missing(Need::Compress(pk.bytes))),
            },
            Err(e) => Err(e),
        },
        FileMeta::Directory(d) => pack_directory(parent, meta, inp),
        _ => pack_container(parent, meta, inp),
    }
}

#[verifier::rlimit(40)]
fn pack_directory(parent: &RelPath, meta: &FileMeta, inp: &PackInputs) -> (r: Result<Packed, PackStop>)
    requires
        meta is Directory,
    ensures
        step_view(r) == packs(parent@, *meta, inp@),
    decreases meta, children(*meta).len() + 1, 0nat,
{
    let _n = match meta {
        FileMeta::Directory(d) => d.files.len(),
        _ => 0,
    };
    let mut dir = parent.duplicate();
    dir.push(own_name_of(meta));
    match pack_children(&dir, meta, inp) {
        Ok((_bs, fx)) => {
            let mut effects: Vec<Effect> = Vec::new();
            let ghost d = dir@;
            effects.push(Effect::MakeDir(dir));
            assert(effects_view(effects@) =~= seq![EffectModel::MakeDir(d)]);
            append_effects(&mut effects, fx);
            let r = Packed { bytes: Vec::new(), effects };
            Ok(r)
        },
        Err(e) => Err(e),
    }
}

#[verifier::rlimit(40)]
fn pack_container(parent: &RelPath, meta: &FileMeta, inp: &PackInputs) -> (r: Result<Packed, PackStop>)
    requires
        meta is P2 || meta is NamedP2 || meta is HPAK || meta is PK2D || meta is PKAC,
    ensures
        step_view(r) == packs(parent@, *meta, inp@),
    decreases meta, children(*meta).len() + 1, 0nat,
{
    if crate::tree::child_count(meta).is_none() {
        return Err(PackStop::Fail(ArchiveError::EncodingInconsistency));
    }
    let mut dir = parent.duplicate();
    dir.push(own_name_of(meta));
    match pack_children(&dir, meta, inp) {
        Ok((bs, fx)) => assemble_exec(meta, bs, fx),
        Err(e) => Err(e),
    }
}

fn own_name_of(m: &FileMeta) -> (r: String)
    ensures
        r@ == own_name(*m),
{
    match m {
        FileMeta::Directory(d) => d.unpacked_name.clone(),
        FileMeta::P2(p) => p.unpacked_name.clone(),
        FileMeta::NamedP2(p) => p.unpacked_name.clone(),
        FileMeta::HPAK(p) => p.unpacked_name.clone(),
        FileMeta::PK2D(p) => p.unpacked_name.clone(),
        FileMeta::PKAC(p) => p.unpacked_name.clone(),
        _ => String::new(),
    }
}

/// Packs every child of `meta` in order.
fn pack_children(dir: &RelPath, meta: &FileMeta, inp: &PackInputs) -> (r: Result<(Vec<Vec<u8>>, Vec<Effect>), PackStop>)
    requires
        children(*meta).len() <= usize::MAX,
    ensures
        list_view(r) == pack_list(dir@, *meta, 0, inp@),
        r matches Ok(p) ==> p.0@.len() == children(*meta).len(),
    decreases meta, children(*meta).len(), 0nat,
{
    let n = match crate::tree::child_count(meta) {
        Some(c) => c,
        None => 0,
    };
    let mut bs: Vec<Vec<u8>> = Vec::new();
    let mut fx: Vec<Effect> = Vec::new();
    let mut i: usize = 0;
    while i < n
        invariant
            i <= n,
            n == children(*meta).len(),
            pack_list(dir@, *meta, 0, inp@) == combine(blobs_view(bs), effects_view(fx@), pack_list(dir@, *meta, i as int, inp@)),
            bs@.len() == i,
        decreases n - i,
    {
        let c = child_ref(meta, i);
        match pack_file(dir, c, inp) {
            Err(e) => {
                return Err(e);
            },
            Ok(pk) => {
                match finish_exec(dir, meta, i, pk, inp) {
                    Err(e) => {
                        return Err(e);
                    },
                    Ok((b2, fx2)) => {
                        proof {
                            lemma_combine_step(blobs_view(bs), effects_view(fx@), b2@, effects_view(fx2@), pack_list(dir@, *meta, i + 1, inp@));
                        }
                        let ghost pb = bs@;
                        bs.push(b2);
                        assert(blobs_view(bs) =~= pb.map_values(|f: Vec<u8>| f@).push(b2@));
                        append_effects(&mut fx, fx2);
                    },
                }
            },
        }
        i = i + 1;
    }
    assert(effects_view(fx@) + Seq::<EffectModel>::empty() =~= effects_view(fx@));
    assert(blobs_view(bs) + Seq::<Seq<u8>>::empty() =~= blobs_view(bs));
    Ok((bs, fx))
}

/// What the parent makes of its packed child `i`. See `finish`.
fn finish_exec(dir: &RelPath, meta: &FileMeta, i: usize, pk: Packed, inp: &PackInputs) -> (r: Result<(Vec<u8>, Vec<Effect>), PackStop>)
    requires
        i < children(*meta).len(),
    ensures
        match r {
            Ok(p) => finish(dir@, *meta, i as int, pk.bytes@, effects_view(pk.effects@), inp@) == Outcome::Done(p.0@, effects_view(p.1@)),
            Err(PackStop::Missing(n)) => finish(dir@, *meta, i as int, pk.bytes@, effects_view(pk.effects@), inp@) == Outcome::Missing(need_view(n)),
            Err(PackStop::Fail(e)) => finish(dir@, *meta, i as int, pk.bytes@, effects_view(pk.effects@), inp@) == Outcome::Fail(e),
        },
{
    let flag = match meta {
        FileMeta::P2(p) => p.files[i].compressed,
        FileMeta::NamedP2(p) => p.files[i].1.compressed,
        _ => false,
    };
    match meta {
        FileMeta::Directory(d) => {
            let is_dir = match &d.files[i].1 {
                FileMeta::Directory(_) => true,
                _ => false,
            };
            if is_dir {
                Ok((pk.bytes, pk.effects))
            } else {
                let mut p = dir.duplicate();
                p.push(d.files[i].0.clone());
                let mut effects = pk.effects;
                let ghost before = effects@;
                let w = Effect::Write(p, copy_vec(&pk.bytes));
                let ghost wv = effect_view(w);
                effects.push(w);
                assert(effects_view(effects@) =~= effects_view(before).push(wv));
                Ok((pk.bytes, effects))
            }
        },
        _ => {
            if flag && pk.bytes.len() > 0 {
                match inp.find_compressed(&pk.bytes) {
                    Some(c) => Ok((c, pk.effects)),
                    None => Err(PackStop::Missing(Need::Compress(pk.bytes))),
                }
            } else {
                Ok((pk.bytes, pk.effects))
            }
        },
    }
}

/// The container bytes for `meta` from its packed children. See `assemble`.
fn assemble_exec(meta: &FileMeta, bs: Vec<Vec<u8>>, fx: Vec<Effect>) -> (r: Result<Packed, PackStop>)
    requires
        bs@.len() == children(*meta).len(),
    ensures
        step_view(r) == assemble(*meta, blobs_view(bs), effects_view(fx@)),
{
    reveal(assemble);
    match meta {
        FileMeta::P2(_) | FileMeta::NamedP2(_) => {
            let f = p2_from_parts(meta, &bs);
            match f.to_bytes() {
                Ok(b) => Ok(Packed { bytes: b, effects: fx }),
                Err(e) => Err(PackStop::Fail(e)),
            }
        },
        FileMeta::HPAK(h) => {
            let lens: [usize; 8] = [h.nsbca_files.len(), h.nsbva_files.len(), h.nsbma_files.len(), h.nsbtp_files.len(), h.nsbta_files.len(), h.unknown5_files.len(), h.unknown6_files.len(), h.nsbmd_files.len()];
            assert(bucket_lens(*meta) =~= lens@.map_values(|x: usize| x as int));
            assemble_buckets(meta, bs, fx, &lens, HPAK_MAGIC)
        },
        FileMeta::PK2D(h) => {
            let lens: [usize; 8] = [h.nclr_files.len(), h.ncgr_files.len(), h.unknown2_files.len(), h.ncer_files.len(), h.unknown4_files.len(), h.nanr_files.len(), h.nscr_files.len(), h.unknown7_files.len()];
            assert(bucket_lens(*meta) =~= lens@.map_values(|x: usize| x as int));
            assemble_buckets(meta, bs, fx, &lens, PK2D_MAGIC)
        },
        FileMeta::PKAC(p) => assemble_pkac(meta, bs, fx),
        _ => Ok(Packed { bytes: Vec::new(), effects: fx }),
    }
}

fn assemble_buckets(meta: &FileMeta, bs: Vec<Vec<u8>>, fx: Vec<Effect>, lens: &[usize; 8], magic: u32) -> (r: Result<Packed, PackStop>)
    requires
        meta is HPAK || meta is PK2D,
        bs@.len() == children(*meta).len(),
        bucket_lens(*meta) == lens@.map_values(|x: usize| x as int),
        magic == if meta is HPAK { HPAK_MAGIC } else { PK2D_MAGIC },
    ensures
        step_view(r) == assemble(*meta, blobs_view(bs), effects_view(fx@)),
{
    reveal(assemble);
    let ghost ls = lens@.map_values(|x: usize| x as int);
    assert(run_start(ls, 8) == bs@.len()) by {
        reveal_with_fuel(run_start, 9);
    }
    let g = split_groups(&bs, lens);
    match g.to_bytes(magic) {
        Ok(b) => Ok(Packed { bytes: b, effects: fx }),
        Err(e) => Err(PackStop::Fail(e)),
    }
}

fn assemble_pkac(meta: &FileMeta, bs: Vec<Vec<u8>>, fx: Vec<Effect>) -> (r: Result<Packed, PackStop>)
    requires
        meta is PKAC,
        bs@.len() == children(*meta).len(),
    ensures
        step_view(r) == assemble(*meta, blobs_view(bs), effects_view(fx@)),
{
    reveal(assemble);
    let p = match meta {
        FileMeta::PKAC(p) => p,
        _ => {
            return Ok(Packed { bytes: Vec::new(), effects: fx });
        },
    };
    let ghost names = pkac_names(*meta);
    let mut files: Vec<(Vec<u8>, Vec<u8>)> = Vec::new();
    let mut i: usize = 0;
    while i < p.files.len()
        invariant
            i <= p.files@.len(),
            p.files@.len() == bs@.len(),
            names == pkac_names(*meta),
            *meta == FileMeta::PKAC(*p),
            named_view(files@) =~= Seq::new(i as nat, |j: int| (names[j], blobs_view(bs)[j])),
        decreases p.files@.len() - i,
    {
        let entry = (utf8_bytes(&p.files[i].0), copy_vec(&bs[i]));
        let ghost prev = files@;
        files.push(entry);
        assert(named_view(files@) =~= named_view(prev).push((entry.0@, entry.1@)));
        i = i + 1;
    }
    let mut extra_names: Vec<Vec<u8>> = Vec::new();
    let mut i: usize = 0;
    while i < p.extra_names.len()
        invariant
            i <= p.extra_names@.len(),
            blobs_view(extra_names) =~= Seq::new(i as nat, |j: int| encode_utf8(p.extra_names@[j]@)),
        decreases p.extra_names@.len() - i,
    {
        let x = utf8_bytes(&p.extra_names[i]);
        let ghost prev = extra_names@;
        extra_names.push(x);
        assert(blobs_view(extra_names) =~= prev.map_values(|f: Vec<u8>| f@).push(x@));
        i = i + 1;
    }
    let pkac = PKAC { files, extra_names };
    assert(crate::containers::table_names(pkac) =~= names);
    match pkac.into_groups() {
        Ok(g) => match g.to_bytes(PKAC_MAGIC) {
            Ok(b) => Ok(Packed { bytes: b, effects: fx }),
            Err(e) => Err(PackStop::Fail(e)),
        },
        Err(e) => Err(PackStop::Fail(e)),
    }
}

/// The segmented archive that `meta` describes, holding `bs`.
fn p2_from_parts(meta: &FileMeta, bs: &Vec<Vec<u8>>) -> (r: P2File)
    requires
        meta is P2 || meta is NamedP2,
        bs@.len() == children(*meta).len(),
    ensures
        r@ == p2_model_of(*meta, blobs_view(*bs)),
{
    let mut subfiles: Vec<P2Subfile> = Vec::new();
    let named = match meta {
        FileMeta::NamedP2(_) => true,
        _ => false,
    };
    let ghost target = p2_model_of(*meta, blobs_view(*bs));
    let mut i: usize = 0;
    while i < bs.len()
        invariant
            i <= bs@.len(),
            bs@.len() == children(*meta).len(),
            meta is P2 || meta is NamedP2,
            named == (meta is NamedP2),
            target == p2_model_of(*meta, blobs_view(*bs)),
            subfiles@.map_values(|f: P2Subfile| f@) =~= target.subfiles.take(i as int),
        decreases bs@.len() - i,
    {
        let f = match meta {
            FileMeta::NamedP2(p) => P2Subfile {
                index: i as u16,
                compressed: p.files[i].1.compressed,
                content: copy_vec(&bs[i]),
                name: Some(utf8_bytes(&p.files[i].0)),
            },
            FileMeta::P2(p) => P2Subfile {
                index: i as u16,
                compressed: p.files[i].compressed,
                content: copy_vec(&bs[i]),
                name: None,
            },
            _ => P2Subfile { index: 0, compressed: false, content: Vec::new(), name: None },
        };
        assert(f@ == target.subfiles[i as int]);
        let ghost prev = subfiles@;
        subfiles.push(f);
        assert(subfiles@.map_values(|f: P2Subfile| f@) =~= prev.map_values(|f: P2Subfile| f@).push(f@));
        assert(target.subfiles.take(i + 1) =~= target.subfiles.take(i as int).push(target.subfiles[i as int]));
        i = i + 1;
    }
    assert(target.subfiles.take(bs@.len() as int) =~= target.subfiles);
    P2File { named, subfiles }
}

/// `bs` cut into eight buckets of the given lengths.
fn split_groups(bs: &Vec<Vec<u8>>, lens: &[usize; 8]) -> (r: GroupedFiles)
    requires
        run_start(lens@.map_values(|x: usize| x as int), 8) == bs@.len(),
    ensures
        r@ == split8(blobs_view(*bs), lens@.map_values(|x: usize| x as int)),
        r@.len() == 8,
{
    let ghost ls = lens@.map_values(|x: usize| x as int);
    let ghost all = blobs_view(*bs);
    proof {
        lemma_run_start_monotone(ls, 8);
    }
    let total = bs.len();
    let mut buckets: Vec<Vec<Vec<u8>>> = Vec::new();
    let mut at: usize = 0;
    let mut b: usize = 0;
    while b < 8
        invariant
            b <= 8,
            total == bs@.len(),
            ls == lens@.map_values(|x: usize| x as int),
            all == blobs_view(*bs),
            run_start(ls, 8) == bs@.len(),
            forall|x: int, y: int| 0 <= x <= y <= 8 ==> run_start(ls, x) <= run_start(ls, y),
            at == run_start(ls, b as int),
            buckets@.len() == b,
            forall|j: int| 0 <= j < b ==> blobs_view(#[trigger] buckets@[j]) =~= all.subrange(run_start(ls, j), run_start(ls, j) + ls[j]),
        decreases 8 - b,
    {
        assert(run_start(ls, b + 1) == run_start(ls, b as int) + ls[b as int]);
        let mut g: Vec<Vec<u8>> = Vec::new();
        let mut k: usize = 0;
        while k < lens[b]
            invariant
                k <= lens@[b as int],
                b < 8,
                ls == lens@.map_values(|x: usize| x as int),
                all == blobs_view(*bs),
                run_start(ls, b + 1) <= bs@.len(),
                total == bs@.len(),
                run_start(ls, b + 1) == at + ls[b as int],
                blobs_view(g) =~= all.subrange(at as int, at + k),
            decreases lens@[b as int] - k,
        {
            let ghost prev = g@;
            g.push(copy_vec(&bs[at + k]));
            assert(blobs_view(g) =~= prev.map_values(|f: Vec<u8>| f@).push(all[at + k]));
            k = k + 1;
        }
        buckets.push(g);
        at = at + lens[b];
        b = b + 1;
    }
    let r = GroupedFiles { buckets };
    assert(r@ =~= split8(all, ls));
    r
}

proof fn lemma_run_start_monotone(ls: Seq<int>, n: int)
    requires
        forall|j: int| 0 <= j < ls.len() ==> ls[j] >= 0,
        ls.len() == 8,
        0 <= n <= 8,
    ensures
        forall|x: int, y: int| 0 <= x <= y <= n ==> run_start(ls, x) <= run_start(ls, y),
    decreases n,
{
    if n > 0 {
        lemma_run_start_monotone(ls, n - 1);
        assert forall|x: int, y: int| 0 <= x <= y <= n implies run_start(ls, x) <= run_start(ls, y) by {
            if y == n && x < n {
                assert(run_start(ls, n) == run_start(ls, n - 1) + ls[n - 1]);
            }
        }
    }
}

/// Packing an unresolved node is an encoding inconsistency, never empty
/// output.
pub proof fn lemma_unresolved_not_packed(parent: Seq<Seq<char>>, inp: InputsModel)
    ensures
        packs(parent, FileMeta::Uninitialized, inp) == Outcome::Fail(ArchiveError::EncodingInconsistency),
{
}

/// Whether an unresolved node lies in `m` within `depth` levels below it.
pub open spec fn has_unresolved(m: FileMeta, depth: nat) -> bool
    decreases depth,
{
    m is Uninitialized || (depth > 0 && exists|j: int|
        0 <= j < children(m).len() && has_unresolved(#[trigger] children(m)[j], (depth - 1) as nat))
}

/// `child_at` names the same children as `children`.
pub proof fn lemma_child_at(m: FileMeta, i: int)
    requires
        0 <= i < children(m).len(),
    ensures
        child_at(m, i) == children(m)[i],
{
}

/// Once one child of `m` cannot be packed, neither can any run of child
/// positions that contains it.
pub proof fn lemma_list_blocked(dir: Seq<Seq<char>>, m: FileMeta, i: int, j: int, inp: InputsModel)
    requires
        0 <= i <= j < children(m).len(),
        !(packs(dir, child_at(m, j), inp) is Done),
    ensures
        !(pack_list(dir, m, i, inp) is Done),
    decreases j - i,
{
    if i < j {
        lemma_list_blocked(dir, m, i + 1, j, inp);
    }
}

/// A tree with an unresolved node anywhere in it never packs to bytes:
/// packing it stops with an error or asks for more, never finishes.
pub proof fn lemma_unresolved_blocks_packing(parent: Seq<Seq<char>>, m: FileMeta, inp: InputsModel, depth: nat)
    requires
        has_unresolved(m, depth),
    ensures
        !(packs(parent, m, inp) is Done),
    decreases depth,
{
    if !(m is Uninitialized) {
        let j = choose|j: int|
            0 <= j < children(m).len() && has_unresolved(#[trigger] children(m)[j], (depth - 1) as nat);
        lemma_child_at(m, j);
        match m {
            FileMeta::LZ(l) => {
                assert(children(m) =~= seq![*l.file]);
                lemma_unresolved_blocks_packing(parent, *l.file, inp, (depth - 1) as nat);
            },
            FileMeta::Directory(d) => {
                let dir = pushed(parent, d.unpacked_name@);
                lemma_unresolved_blocks_packing(dir, child_at(m, j), inp, (depth - 1) as nat);
                lemma_list_blocked(dir, m, 0, j, inp);
            },
            _ => {
                let dir = pushed(parent, own_name(m));
                lemma_unresolved_blocks_packing(dir, child_at(m, j), inp, (depth - 1) as nat);
                lemma_list_blocked(dir, m, 0, j, inp);
            },
        }
    }
}

} // verus!
