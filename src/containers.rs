//! The three kinds of bucket archive, each a named record over the eight
//! positional buckets, and the PKAC name table.
use vstd::prelude::*;
use crate::bucket::{GroupedFiles, blobs_view};
use crate::error::ArchiveError;
use crate::file_type::FileType;
use crate::le::{le16, push_bytes, push_u16, read_u16, u16_at};
use crate::seq_util::{concat, lemma_concat_new_step, lemma_concat_piece, lemma_start_le_total, start_of};

verus! {

// ---- the PKAC name table ----

/// The NUL-terminated string at the start of `s`, if `s` holds a NUL.
pub open spec fn cstr(s: Seq<u8>) -> Option<Seq<u8>>
    decreases s.len(),
{
    if s.len() == 0 {
        None
    } else if s[0] == 0 {
        Some(Seq::empty())
    } else {
        match cstr(s.drop_first()) {
            Some(t) => Some(seq![s[0]] + t),
            None => None,
        }
    }
}

pub open spec fn nt_count(s: Seq<u8>) -> int {
    u16_at(s, 0)
}

pub open spec fn nt_offset(s: Seq<u8>, i: int) -> int {
    u16_at(s, 2 + 2 * i)
}

pub open spec fn nt_entry_ok(s: Seq<u8>, i: int) -> bool {
    nt_offset(s, i) <= s.len() && cstr(s.subrange(nt_offset(s, i), s.len() as int)) is Some
}

/// Whether `s` is a name table: a count, that many offsets, and a NUL after
/// each offset.
pub open spec fn nametable_decodable(s: Seq<u8>) -> bool {
    &&& s.len() >= 2
    &&& 2 + 2 * nt_count(s) <= s.len()
    &&& forall|i: int| 0 <= i < nt_count(s) ==> #[trigger] nt_entry_ok(s, i)
}

/// The names of a name table.
pub open spec fn nametable_decode(s: Seq<u8>) -> Seq<Seq<u8>> {
    Seq::new(
        nt_count(s) as nat,
        |i: int| cstr(s.subrange(nt_offset(s, i), s.len() as int))->0,
    )
}

pub open spec fn terminated(names: Seq<Seq<u8>>) -> Seq<Seq<u8>> {
    Seq::new(names.len(), |i: int| names[i] + seq![0u8])
}

/// The bytes of a name table: the count, each name's offset from the
/// table's start, then the names, each followed by a NUL.
#[verifier::opaque]
pub open spec fn nametable_encode(names: Seq<Seq<u8>>) -> Seq<u8> {
    let k = names.len() as int;
    le16(k) + concat(Seq::new(k as nat, |i: int| le16(2 + 2 * k + start_of(terminated(names), i))))
        + concat(terminated(names))
}

/// Whether the count and every offset fit in 16 bits.
pub open spec fn nametable_encodable(names: Seq<Seq<u8>>) -> bool {
    let k = names.len() as int;
    &&& k < 65536
    &&& forall|i: int| 0 <= i < k ==> #[trigger] name_offset(names, i) < 65536
}

/// Where name `i` starts, from the start of the table.
pub open spec fn name_offset(names: Seq<Seq<u8>>, i: int) -> int {
    2 + 2 * names.len() + start_of(terminated(names), i)
}

pub proof fn lemma_cstr_skip(s: Seq<u8>, a: int, j: int)
    requires
        0 <= a <= j <= s.len(),
        forall|t: int| a <= t < j ==> s[t] != 0,
    ensures
        cstr(s.subrange(a, s.len() as int)) == match cstr(s.subrange(j, s.len() as int)) {
            Some(t) => Some(s.subrange(a, j) + t),
            None => None,
        },
    decreases j - a,
{
    if a < j {
        lemma_cstr_skip(s, a + 1, j);
        let x = s.subrange(a, s.len() as int);
        assert(x.drop_first() =~= s.subrange(a + 1, s.len() as int));
        assert(x[0] == s[a]);
        match cstr(s.subrange(j, s.len() as int)) {
            Some(t) => {
                assert(seq![s[a]] + (s.subrange(a + 1, j) + t) =~= s.subrange(a, j) + t);
            },
            None => {},
        }
    } else {
        match cstr(s.subrange(j, s.len() as int)) {
            Some(t) => {
                assert(s.subrange(a, j) + t =~= t);
            },
            None => {},
        }
    }
}

/// The name starting at `off`, up to the next NUL.
fn read_cstr(buf: &[u8], off: usize) -> (r: Option<Vec<u8>>)
    requires
        off <= buf@.len(),
    ensures
        match r {
            Some(v) => cstr(buf@.subrange(off as int, buf@.len() as int)) == Some(v@),
            None => cstr(buf@.subrange(off as int, buf@.len() as int)) is None,
        },
{
    let mut j = off;
    while j < buf.len() && buf[j] != 0
        invariant
            off <= j <= buf@.len(),
            forall|t: int| off <= t < j ==> buf@[t] != 0,
        decreases buf@.len() - j,
    {
        j = j + 1;
    }
    proof {
        lemma_cstr_skip(buf@, off as int, j as int);
    }
    if j == buf.len() {
        assert(buf@.subrange(j as int, buf@.len() as int).len() == 0);
        None
    } else {
        let ghost rest = buf@.subrange(j as int, buf@.len() as int);
        assert(rest[0] == 0);
        let v = crate::le::copy_range(buf, off, j - off);
        assert(v@ + Seq::<u8>::empty() =~= v@);
        Some(v)
    }
}

/// Decodes a PKAC name table. Fails with `MalformedContainer` exactly when
/// the offsets reach past the end or a name has no terminating NUL.
pub fn read_nametable(buf: &[u8]) -> (r: Result<Vec<Vec<u8>>, ArchiveError>)
    ensures
        match r {
            Ok(names) => nametable_decodable(buf@) && blobs_view(names) == nametable_decode(buf@),
            Err(e) => !nametable_decodable(buf@) && e == ArchiveError::MalformedContainer,
        },
{
    let total = buf.len();
    if total < 2 {
        return Err(ArchiveError::MalformedContainer);
    }
    let k = read_u16(buf, 0) as usize;
    if 2 + 2 * k > total {
        return Err(ArchiveError::MalformedContainer);
    }
    let mut names: Vec<Vec<u8>> = Vec::with_capacity(k);
    let mut i: usize = 0;
    while i < k
        invariant
            i <= k,
            k == nt_count(buf@),
            2 + 2 * k <= total,
            total == buf@.len(),
            forall|j: int| 0 <= j < i ==> #[trigger] nt_entry_ok(buf@, j),
            blobs_view(names) =~= Seq::new(
                i as nat,
                |j: int| cstr(buf@.subrange(nt_offset(buf@, j), buf@.len() as int))->0,
            ),
        decreases k - i,
    {
        let off = read_u16(buf, 2 + 2 * i) as usize;
        if off > total {
            assert(!nt_entry_ok(buf@, i as int));
            return Err(ArchiveError::MalformedContainer);
        }
        match read_cstr(buf, off) {
            Some(name) => {
                let ghost prev = names@;
                names.push(name);
                assert(blobs_view(names) =~= prev.map_values(|f: Vec<u8>| f@).push(name@));
            },
            None => {
                assert(!nt_entry_ok(buf@, i as int));
                return Err(ArchiveError::MalformedContainer);
            },
        }
        i = i + 1;
    }
    Ok(names)
}

/// Encodes a PKAC name table. Fails with `EncodingInconsistency` exactly when
/// the count or an offset does not fit in 16 bits.
pub fn write_nametable(names: &Vec<Vec<u8>>) -> (r: Result<Vec<u8>, ArchiveError>)
    ensures
        match r {
            Ok(b) => nametable_encodable(blobs_view(*names)) && b@ == nametable_encode(
                blobs_view(*names),
            ),
            Err(e) => !nametable_encodable(blobs_view(*names)) && e
                == ArchiveError::EncodingInconsistency,
        },
{
    let ghost ns = blobs_view(*names);
    let ghost ts = terminated(ns);
    let k = names.len();
    if k >= 32767 {
        assert(ts.take(0) =~= Seq::<Seq<u8>>::empty());
        assert(name_offset(ns, 0) >= 65536);
        return Err(ArchiveError::EncodingInconsistency);
    }
    // the offsets, each of which must fit in 16 bits
    let mut offsets: Vec<u16> = Vec::with_capacity(k);
    let mut cur: u128 = (2 + 2 * k) as u128;
    let mut i: usize = 0;
    while i < k
        invariant
            i <= k,
            k == ns.len(),
            k < 32767,
            ns == blobs_view(*names),
            ts == terminated(ns),
            cur == 2 + 2 * k + start_of(ts, i as int),
            offsets@.len() == i,
            forall|j: int|
                0 <= j < i ==> (#[trigger] offsets@[j]) as int == name_offset(ns, j),
            forall|j: int| 0 <= j < i ==> #[trigger] name_offset(ns, j) < 65536,
        decreases k - i,
    {
        assert(ns[i as int] == names@[i as int]@);
        proof {
            lemma_concat_piece(ts, i as int);
        }
        if cur >= 65536 {
            assert(name_offset(ns, i as int) >= 65536);
            return Err(ArchiveError::EncodingInconsistency);
        }
        offsets.push(cur as u16);
        let len = names[i].len();
        cur = cur + len as u128 + 1;
        i = i + 1;
    }
    let mut buf: Vec<u8> = Vec::new();
    push_u16(&mut buf, k as u16);
    let ghost after_count = buf@;
    let ghost fo = |j: int| le16(2 + 2 * (k as int) + start_of(ts, j));
    let mut i: usize = 0;
    while i < k
        invariant
            i <= k,
            offsets@.len() == k,
            forall|j: int|
                0 <= j < k ==> (#[trigger] offsets@[j]) as int == name_offset(ns, j),
            ns == blobs_view(*names),
            k == ns.len(),
            ts == terminated(ns),
            fo == (|j: int| le16(2 + 2 * (k as int) + start_of(ts, j))),
            buf@ == after_count + concat(Seq::new(i as nat, fo)),
        decreases k - i,
    {
        push_u16(&mut buf, offsets[i]);
        proof {
            lemma_concat_new_step(fo, i as int);
        }
        i = i + 1;
    }
    let ghost after_offsets = buf@;
    let mut i: usize = 0;
    while i < k
        invariant
            i <= k,
            k == ns.len(),
            ns == blobs_view(*names),
            ts == terminated(ns),
            buf@ == after_offsets + concat(ts.take(i as int)),
        decreases k - i,
    {
        assert(ns[i as int] == names@[i as int]@);
        proof {
            lemma_concat_piece(ts, i as int);
        }
        push_bytes(&mut buf, names[i].as_slice());
        buf.push(0u8);
        assert(buf@ =~= after_offsets + concat(ts.take(i + 1)));
        i = i + 1;
    }
    assert(ts.take(k as int) =~= ts);
    reveal(nametable_encode);
    Ok(buf)
}

// ---- HPAK and PK2D ----

/// A model container: animations, textures and the model itself, by bucket.
pub struct HPAK {
    pub nsbca: Vec<Vec<u8>>,
    pub nsbva: Vec<Vec<u8>>,
    pub nsbma: Vec<Vec<u8>>,
    pub nsbtp: Vec<Vec<u8>>,
    pub nsbta: Vec<Vec<u8>>,
    pub unknown5: Vec<Vec<u8>>,
    pub unknown6: Vec<Vec<u8>>,
    pub nsbmd: Vec<Vec<u8>>,
}

impl View for HPAK {
    type V = Seq<Seq<Seq<u8>>>;

    open spec fn view(&self) -> Seq<Seq<Seq<u8>>> {
        seq![
            blobs_view(self.nsbca),
            blobs_view(self.nsbva),
            blobs_view(self.nsbma),
            blobs_view(self.nsbtp),
            blobs_view(self.nsbta),
            blobs_view(self.unknown5),
            blobs_view(self.unknown6),
            blobs_view(self.nsbmd),
        ]
    }
}

/// The kind of the files in each bucket of an HPAK.
pub open spec fn hpak_kind(b: int) -> FileType {
    if b == 0 {
        FileType::NSBCA
    } else if b == 1 {
        FileType::NSBVA
    } else if b == 2 {
        FileType::NSBMA
    } else if b == 3 {
        FileType::NSBTP
    } else if b == 4 {
        FileType::NSBTA
    } else if b == 5 {
        FileType::Unknown5
    } else if b == 6 {
        FileType::Unknown6
    } else {
        FileType::NSBMD
    }
}

impl HPAK {
    /// Names the eight buckets.
    pub fn from_groups(g: GroupedFiles) -> (r: HPAK)
        requires
            g@.len() == 8,
        ensures
            r@ == g@,
    {
        let ghost gs = g@;
        let mut v = g.buckets;
        let nsbmd = match v.pop() {
            Some(x) => x,
            None => Vec::new(),
        };
        let unknown6 = match v.pop() {
            Some(x) => x,
            None => Vec::new(),
        };
        let unknown5 = match v.pop() {
            Some(x) => x,
            None => Vec::new(),
        };
        let nsbta = match v.pop() {
            Some(x) => x,
            None => Vec::new(),
        };
        let nsbtp = match v.pop() {
            Some(x) => x,
            None => Vec::new(),
        };
        let nsbma = match v.pop() {
            Some(x) => x,
            None => Vec::new(),
        };
        let nsbva = match v.pop() {
            Some(x) => x,
            None => Vec::new(),
        };
        let nsbca = match v.pop() {
            Some(x) => x,
            None => Vec::new(),
        };
        let r = HPAK { nsbca, nsbva, nsbma, nsbtp, nsbta, unknown5, unknown6, nsbmd };
        assert(r@ =~= gs);
        r
    }

    /// The eight buckets in their positional order.
    pub fn into_groups(self) -> (r: GroupedFiles)
        ensures
            r@ == self@,
            r@.len() == 8,
    {
        let ghost me = self@;
        let mut buckets: Vec<Vec<Vec<u8>>> = Vec::new();
        buckets.push(self.nsbca);
        buckets.push(self.nsbva);
        buckets.push(self.nsbma);
        buckets.push(self.nsbtp);
        buckets.push(self.nsbta);
        buckets.push(self.unknown5);
        buckets.push(self.unknown6);
        buckets.push(self.nsbmd);
        let r = GroupedFiles { buckets };
        assert(r@ =~= me);
        r
    }

    /// The kind of the files held in bucket `b`.
    pub fn bucket_kind(b: usize) -> (r: FileType)
        requires
            b < 8,
        ensures
            r == hpak_kind(b as int),
    {
        if b == 0 {
            FileType::NSBCA
        } else if b == 1 {
            FileType::NSBVA
        } else if b == 2 {
            FileType::NSBMA
        } else if b == 3 {
            FileType::NSBTP
        } else if b == 4 {
            FileType::NSBTA
        } else if b == 5 {
            FileType::Unknown5
        } else if b == 6 {
            FileType::Unknown6
        } else {
            FileType::NSBMD
        }
    }

    /// Each bucket with the kind of the files it holds.
    pub fn get_type_map(&self) -> (r: Vec<(FileType, &Vec<Vec<u8>>)>)
        ensures
            r@.len() == 8,
            forall|b: int| 0 <= b < 8 ==> (#[trigger] r@[b]).0 == hpak_kind(b) && blobs_view(*r@[b].1) == self@[b],
    {
        let mut r: Vec<(FileType, &Vec<Vec<u8>>)> = Vec::new();
        r.push((FileType::NSBCA, &self.nsbca));
        r.push((FileType::NSBVA, &self.nsbva));
        r.push((FileType::NSBMA, &self.nsbma));
        r.push((FileType::NSBTP, &self.nsbtp));
        r.push((FileType::NSBTA, &self.nsbta));
        r.push((FileType::Unknown5, &self.unknown5));
        r.push((FileType::Unknown6, &self.unknown6));
        r.push((FileType::NSBMD, &self.nsbmd));
        r
    }
}

/// A 2D graphics container: palettes, tiles, cells, animations and screens, by bucket.
pub struct PK2D {
    pub nclr: Vec<Vec<u8>>,
    pub ncgr: Vec<Vec<u8>>,
    pub unknown2: Vec<Vec<u8>>,
    pub ncer: Vec<Vec<u8>>,
    pub unknown4: Vec<Vec<u8>>,
    pub nanr: Vec<Vec<u8>>,
    pub nscr: Vec<Vec<u8>>,
    pub unknown7: Vec<Vec<u8>>,
}

impl View for PK2D {
    type V = Seq<Seq<Seq<u8>>>;

    open spec fn view(&self) -> Seq<Seq<Seq<u8>>> {
        seq![
            blobs_view(self.nclr),
            blobs_view(self.ncgr),
            blobs_view(self.unknown2),
            blobs_view(self.ncer),
            blobs_view(self.unknown4),
            blobs_view(self.nanr),
            blobs_view(self.nscr),
            blobs_view(self.unknown7),
        ]
    }
}

/// The kind of the files in each bucket of a PK2D.
pub open spec fn pk2d_kind(b: int) -> FileType {
    if b == 0 {
        FileType::NCLR
    } else if b == 1 {
        FileType::NCGR
    } else if b == 2 {
        FileType::Unknown2
    } else if b == 3 {
        FileType::NCER
    } else if b == 4 {
        FileType::Unknown4
    } else if b == 5 {
        FileType::NANR
    } else if b == 6 {
        FileType::NSCR
    } else {
        FileType::Unknown7
    }
}

impl PK2D {
    /// Names the eight buckets.
    pub fn from_groups(g: GroupedFiles) -> (r: PK2D)
        requires
            g@.len() == 8,
        ensures
            r@ == g@,
    {
        let ghost gs = g@;
        let mut v = g.buckets;
        let unknown7 = match v.pop() {
            Some(x) => x,
            None => Vec::new(),
        };
        let nscr = match v.pop() {
            Some(x) => x,
            None => Vec::new(),
        };
        let nanr = match v.pop() {
            Some(x) => x,
            None => Vec::new(),
        };
        let unknown4 = match v.pop() {
            Some(x) => x,
            None => Vec::new(),
        };
        let ncer = match v.pop() {
            Some(x) => x,
            None => Vec::new(),
        };
        let unknown2 = match v.pop() {
            Some(x) => x,
            None => Vec::new(),
        };
        let ncgr = match v.pop() {
            Some(x) => x,
            None => Vec::new(),
        };
        let nclr = match v.pop() {
            Some(x) => x,
            None => Vec::new(),
        };
        let r = PK2D { nclr, ncgr, unknown2, ncer, unknown4, nanr, nscr, unknown7 };
        assert(r@ =~= gs);
        r
    }

    /// The eight buckets in their positional order.
    pub fn into_groups(self) -> (r: GroupedFiles)
        ensures
            r@ == self@,
            r@.len() == 8,
    {
        let ghost me = self@;
        let mut buckets: Vec<Vec<Vec<u8>>> = Vec::new();
        buckets.push(self.nclr);
        buckets.push(self.ncgr);
        buckets.push(self.unknown2);
        buckets.push(self.ncer);
        buckets.push(self.unknown4);
        buckets.push(self.nanr);
        buckets.push(self.nscr);
        buckets.push(self.unknown7);
        let r = GroupedFiles { buckets };
        assert(r@ =~= me);
        r
    }

    /// The kind of the files held in bucket `b`.
    pub fn bucket_kind(b: usize) -> (r: FileType)
        requires
            b < 8,
        ensures
            r == pk2d_kind(b as int),
    {
        if b == 0 {
            FileType::NCLR
        } else if b == 1 {
            FileType::NCGR
        } else if b == 2 {
            FileType::Unknown2
        } else if b == 3 {
            FileType::NCER
        } else if b == 4 {
            FileType::Unknown4
        } else if b == 5 {
            FileType::NANR
        } else if b == 6 {
            FileType::NSCR
        } else {
            FileType::Unknown7
        }
    }

    /// Each bucket with the kind of the files it holds.
    pub fn get_type_map(&self) -> (r: Vec<(FileType, &Vec<Vec<u8>>)>)
        ensures
            r@.len() == 8,
            forall|b: int| 0 <= b < 8 ==> (#[trigger] r@[b]).0 == pk2d_kind(b) && blobs_view(*r@[b].1) == self@[b],
    {
        let mut r: Vec<(FileType, &Vec<Vec<u8>>)> = Vec::new();
        r.push((FileType::NCLR, &self.nclr));
        r.push((FileType::NCGR, &self.ncgr));
        r.push((FileType::Unknown2, &self.unknown2));
        r.push((FileType::NCER, &self.ncer));
        r.push((FileType::Unknown4, &self.unknown4));
        r.push((FileType::NANR, &self.nanr));
        r.push((FileType::NSCR, &self.nscr));
        r.push((FileType::Unknown7, &self.unknown7));
        r
    }
}

// ---- PKAC ----

/// A container of named files: its bucket 0 holds one name table, its bucket
/// 1 the files, and the other buckets are empty. The name table may hold
/// more names than there are files; those are kept, in order, after the
/// files' own names.
pub struct PKAC {
    pub files: Vec<(Vec<u8>, Vec<u8>)>,
    pub extra_names: Vec<Vec<u8>>,
}

/// Every name of the table: the files' names, then the extra ones.
pub open spec fn table_names(p: PKAC) -> Seq<Seq<u8>> {
    p@.map_values(|q: (Seq<u8>, Seq<u8>)| q.0) + blobs_view(p.extra_names)
}

pub open spec fn named_view(files: Seq<(Vec<u8>, Vec<u8>)>) -> Seq<(Seq<u8>, Seq<u8>)> {
    files.map_values(|p: (Vec<u8>, Vec<u8>)| (p.0@, p.1@))
}

impl View for PKAC {
    type V = Seq<(Seq<u8>, Seq<u8>)>;

    open spec fn view(&self) -> Seq<(Seq<u8>, Seq<u8>)> {
        named_view(self.files@)
    }
}

/// Whether buckets read as a PKAC: a name table in bucket 0, files in
/// bucket 1, and at least as many names as files.
pub open spec fn pkac_readable(gs: Seq<Seq<Seq<u8>>>) -> bool {
    &&& gs[0].len() > 0
    &&& gs[1].len() > 0
    &&& nametable_decodable(gs[0][0])
    &&& nametable_decode(gs[0][0]).len() >= gs[1].len()
}

/// Each file of bucket 1 with the name at the same position.
pub open spec fn pkac_files(gs: Seq<Seq<Seq<u8>>>) -> Seq<(Seq<u8>, Seq<u8>)> {
    Seq::new(gs[1].len(), |i: int| (nametable_decode(gs[0][0])[i], gs[1][i]))
}

/// The names of the table that no file carries.
pub open spec fn pkac_extra(gs: Seq<Seq<Seq<u8>>>) -> Seq<Seq<u8>> {
    nametable_decode(gs[0][0]).skip(gs[1].len() as int)
}

/// The buckets of a PKAC with the given name-table bytes.
pub open spec fn pkac_groups(table: Seq<u8>, files: Seq<(Seq<u8>, Seq<u8>)>) -> Seq<
    Seq<Seq<u8>>,
> {
    seq![
        seq![table],
        Seq::new(files.len(), |i: int| files[i].1),
        Seq::empty(),
        Seq::empty(),
        Seq::empty(),
        Seq::empty(),
        Seq::empty(),
        Seq::empty(),
    ]
}

impl PKAC {
    /// Reads the name table and pairs each file with its name. Fails with
    /// `MalformedContainer` when either bucket is missing, the name table
    /// does not decode, or it holds fewer names than there are files.
    pub fn try_from_groups(g: GroupedFiles) -> (r: Result<PKAC, ArchiveError>)
        requires
            g@.len() == 8,
        ensures
            match r {
                Ok(p) => pkac_readable(g@) && p@ == pkac_files(g@) && blobs_view(p.extra_names)
                    == pkac_extra(g@),
                Err(e) => !pkac_readable(g@) && e == ArchiveError::MalformedContainer,
            },
    {
        let ghost gs = g@;
        assert(gs[0] == blobs_view(g.buckets@[0]));
        assert(gs[1] == blobs_view(g.buckets@[1]));
        if g.buckets[0].len() == 0 || g.buckets[1].len() == 0 {
            return Err(ArchiveError::MalformedContainer);
        }
        assert(gs[0][0] == g.buckets@[0]@[0]@);
        let names = read_nametable(g.buckets[0][0].as_slice())?;
        let payload = &g.buckets[1];
        if names.len() < payload.len() {
            return Err(ArchiveError::MalformedContainer);
        }
        let mut files: Vec<(Vec<u8>, Vec<u8>)> = Vec::with_capacity(payload.len());
        let mut i: usize = 0;
        while i < payload.len()
            invariant
                i <= payload@.len(),
                payload@.len() <= names@.len(),
                gs == g@,
                gs[1] == blobs_view(*payload),
                blobs_view(names) == nametable_decode(gs[0][0]),
                named_view(files@) =~= pkac_files(gs).take(i as int),
            decreases payload@.len() - i,
        {
            assert(gs[1][i as int] == payload@[i as int]@);
            assert(nametable_decode(gs[0][0])[i as int] == names@[i as int]@);
            let entry = (copy_vec(&names[i]), copy_vec(&payload[i]));
            let ghost prev = files@;
            files.push(entry);
            assert(named_view(files@) =~= named_view(prev).push((entry.0@, entry.1@)));
            i = i + 1;
        }
        assert(pkac_files(gs).take(payload@.len() as int) =~= pkac_files(gs));
        let mut extra_names: Vec<Vec<u8>> = Vec::new();
        let mut j: usize = payload.len();
        while j < names.len()
            invariant
                payload@.len() <= j <= names@.len(),
                gs == g@,
                gs[1] == blobs_view(*payload),
                blobs_view(names) == nametable_decode(gs[0][0]),
                blobs_view(extra_names) =~= pkac_extra(gs).take(j - payload@.len()),
            decreases names@.len() - j,
        {
            let ghost prev = extra_names@;
            let x = copy_vec(&names[j]);
            extra_names.push(x);
            assert(blobs_view(extra_names) =~= prev.map_values(|f: Vec<u8>| f@).push(x@));
            j = j + 1;
        }
        assert(pkac_extra(gs).take(j - payload@.len()) =~= pkac_extra(gs));
        Ok(PKAC { files, extra_names })
    }

    /// The buckets of this PKAC: the name table (the files' names, then the
    /// extra names) alone in bucket 0, the files in bucket 1. Fails with
    /// `EncodingInconsistency` exactly when the name table cannot be encoded.
    pub fn into_groups(self) -> (r: Result<GroupedFiles, ArchiveError>)
        ensures
            match r {
                Ok(g) => nametable_encodable(table_names(self)) && g@ == pkac_groups(
                    nametable_encode(table_names(self)),
                    self@,
                ),
                Err(e) => !nametable_encodable(table_names(self)) && e
                    == ArchiveError::EncodingInconsistency,
            },
    {
        let ghost me = self@;
        let ghost all = table_names(self);
        let ghost ns = me.map_values(|p: (Seq<u8>, Seq<u8>)| p.0);
        let mut extra = self.extra_names;
        let ghost ev = blobs_view(extra);
        let mut names: Vec<Vec<u8>> = Vec::new();
        let mut blobs: Vec<Vec<u8>> = Vec::new();
        let n = self.files.len();
        let mut files = self.files;
        let ghost fs = files@;
        // take the pairs apart, last first
        let mut i: usize = n;
        while i > 0
            invariant
                i <= n,
                n == fs.len(),
                files@ == fs.take(i as int),
                me == named_view(fs),
                blobs_view(names) =~= Seq::new((n - i) as nat, |j: int| me[n - 1 - j].0),
                blobs_view(blobs) =~= Seq::new((n - i) as nat, |j: int| me[n - 1 - j].1),
            decreases i,
        {
            let (name, blob) = match files.pop() {
                Some(p) => p,
                None => (Vec::new(), Vec::new()),
            };
            assert(fs[i - 1] == (name, blob));
            let ghost pn = names@;
            let ghost pb = blobs@;
            names.push(name);
            blobs.push(blob);
            assert(blobs_view(names) =~= pn.map_values(|f: Vec<u8>| f@).push(name@));
            assert(blobs_view(blobs) =~= pb.map_values(|f: Vec<u8>| f@).push(blob@));
            assert(files@ =~= fs.take(i - 1));
            i = i - 1;
        }
        reverse(&mut names);
        reverse(&mut blobs);
        assert(blobs_view(names) =~= ns);
        let ghost before = names@;
        let ghost xs = extra@;
        names.append(&mut extra);
        assert(blobs_view(names) =~= blobs_view_seq(before) + blobs_view_seq(xs));
        assert(blobs_view(names) =~= all);
        let table = write_nametable(&names)?;
        let mut buckets: Vec<Vec<Vec<u8>>> = Vec::new();
        let mut first: Vec<Vec<u8>> = Vec::new();
        first.push(table);
        buckets.push(first);
        buckets.push(blobs);
        let mut b: usize = 2;
        while b < 8
            invariant
                2 <= b <= 8,
                buckets@.len() == b,
                forall|j: int| 2 <= j < b ==> (#[trigger] buckets@[j])@.len() == 0,
                blobs_view(buckets@[0]) == seq![table@],
                blobs_view(buckets@[1]) =~= Seq::new(me.len(), |i: int| me[i].1),
            decreases 8 - b,
        {
            buckets.push(Vec::new());
            b = b + 1;
        }
        let r = GroupedFiles { buckets };
        assert(r@ =~= pkac_groups(table@, me)) by {
            assert(blobs_view(buckets@[0]) =~= seq![table@]);
            assert forall|j: int| 2 <= j < 8 implies r@[j] =~= Seq::<Seq<u8>>::empty() by {
                assert(buckets@[j]@.len() == 0);
            }
        }
        Ok(r)
    }
}

pub open spec fn blobs_view_seq(s: Seq<Vec<u8>>) -> Seq<Seq<u8>> {
    s.map_values(|f: Vec<u8>| f@)
}

/// A copy of a byte vector.
pub fn copy_vec(v: &Vec<u8>) -> (r: Vec<u8>)
    ensures
        r@ == v@,
{
    let mut r: Vec<u8> = Vec::with_capacity(v.len());
    push_bytes(&mut r, v.as_slice());
    r
}

/// Reverses `v` in place.
fn reverse(v: &mut Vec<Vec<u8>>)
    ensures
        blobs_view(*final(v)) =~= blobs_view(*old(v)).reverse(),
{
    let ghost orig = blobs_view(*v);
    let mut out: Vec<Vec<u8>> = Vec::new();
    while v.len() > 0
        invariant
            blobs_view(*v) =~= orig.take(v@.len() as int),
            blobs_view(out) =~= orig.skip(v@.len() as int).reverse(),
            v@.len() <= orig.len(),
        decreases v@.len(),
    {
        let ghost k = v@.len();
        let ghost before = v@;
        assert(orig.take(k as int)[k - 1] == before[k - 1]@);
        let x = match v.pop() {
            Some(x) => x,
            None => Vec::new(),
        };
        assert(orig[k - 1] == x@);
        let ghost po = out@;
        out.push(x);
        assert(blobs_view(out) =~= po.map_values(|f: Vec<u8>| f@).push(x@));
        assert(orig.skip(k - 1).reverse() =~= orig.skip(k as int).reverse().push(orig[k - 1]));
    }
    assert(orig.skip(0) =~= orig);
    *v = out;
}

/// A PKAC whose name table holds fewer names than its payload bucket holds
/// files does not read.
pub proof fn lemma_short_name_table_rejected(gs: Seq<Seq<Seq<u8>>>)
    requires
        gs.len() == 8,
        gs[0].len() > 0,
        nametable_decodable(gs[0][0]),
        nametable_decode(gs[0][0]).len() < gs[1].len(),
    ensures
        !pkac_readable(gs),
{
}

} // verus!
