//! The segmented archive ("P2"): a block-aligned container of subfiles with
//! optional eight-byte names and per-subfile compression flags.
use vstd::prelude::*;
use crate::error::ArchiveError;
use crate::file_type::P2_MAGIC;
use crate::le::{copy_range, le16, le32, push_bytes, push_u16, push_u32, push_zeros, read_u16, read_u32, u16_at, u32_at, zeros};
use crate::seq_util::{concat, lemma_concat_new_step, lemma_concat_piece, start_of};

verus! {

/// One subfile of a segmented archive.
pub struct P2Subfile {
    /// Position of the subfile in the archive.
    pub index: u16,
    /// Whether the stored bytes are LZ-compressed.
    pub compressed: bool,
    /// The stored bytes.
    pub content: Vec<u8>,
    /// The subfile's name, without its NUL padding, when the archive is named.
    pub name: Option<Vec<u8>>,
}

/// A decoded segmented archive.
pub struct P2File {
    /// Whether the archive carries a name table.
    pub named: bool,
    pub subfiles: Vec<P2Subfile>,
}

/// What a subfile holds, as plain values.
pub struct SubfileModel {
    pub index: int,
    pub compressed: bool,
    pub content: Seq<u8>,
    pub name: Option<Seq<u8>>,
}

/// What a segmented archive holds, as plain values.
pub struct P2Model {
    pub named: bool,
    pub subfiles: Seq<SubfileModel>,
}

pub open spec fn name_view(n: Option<Vec<u8>>) -> Option<Seq<u8>> {
    match n {
        Some(v) => Some(v@),
        None => None,
    }
}

impl View for P2Subfile {
    type V = SubfileModel;

    open spec fn view(&self) -> SubfileModel {
        SubfileModel {
            index: self.index as int,
            compressed: self.compressed,
            content: self.content@,
            name: name_view(self.name),
        }
    }
}

impl View for P2File {
    type V = P2Model;

    open spec fn view(&self) -> P2Model {
        P2Model { named: self.named, subfiles: self.subfiles@.map_values(|f: P2Subfile| f@) }
    }
}

/// Size of the blocks that align the content region.
pub const BLOCK: usize = 512;

/// `s` without its leading and trailing NUL bytes.
pub open spec fn trim_nul(s: Seq<u8>) -> Seq<u8>
    decreases s.len(),
{
    if s.len() == 0 {
        s
    } else if s[0] == 0 {
        trim_nul(s.drop_first())
    } else if s.last() == 0 {
        trim_nul(s.drop_last())
    } else {
        s
    }
}

// ---- layout of the header ----

/// Offset of the length table, after the block-index table and its padding.
pub open spec fn lens_at(n: int) -> int {
    16 + 2 * n + 2 * (n % 2)
}

/// Offset of the name table.
pub open spec fn names_at(n: int) -> int {
    lens_at(n) + 4 * n
}

/// Where the header's tables end.
pub open spec fn table_end(n: int, named: bool) -> int {
    names_at(n) + if named {
        8 * n
    } else {
        0
    }
}

/// The header's length rounded up to a whole number of blocks.
pub open spec fn header_size_for(n: int, named: bool) -> int {
    let e = table_end(n, named);
    if e % 512 == 0 {
        e
    } else {
        e + 512 - e % 512
    }
}

// ---- decoding ----

pub open spec fn count_of(s: Seq<u8>) -> int {
    u16_at(s, 2) % 32768
}

pub open spec fn named_of(s: Seq<u8>) -> bool {
    u16_at(s, 2) >= 32768
}

pub open spec fn offset_of(s: Seq<u8>, i: int) -> int {
    u16_at(s, 16 + 2 * i) * 512 + u32_at(s, 12)
}

pub open spec fn len_word_of(s: Seq<u8>, i: int) -> int {
    u32_at(s, lens_at(count_of(s)) + 4 * i)
}

pub open spec fn entry_fits(s: Seq<u8>, i: int) -> bool {
    offset_of(s, i) + len_word_of(s, i) % 16777216 <= s.len()
}

/// Whether `s` decodes as a segmented archive: its tables lie inside it and
/// every subfile's bytes do too.
pub open spec fn p2_decodable(s: Seq<u8>) -> bool {
    &&& s.len() >= 16
    &&& table_end(count_of(s), named_of(s)) <= s.len()
    &&& forall|i: int| 0 <= i < count_of(s) ==> #[trigger] entry_fits(s, i)
}

/// The subfile at position `i`.
pub open spec fn entry_of(s: Seq<u8>, i: int) -> SubfileModel {
    let off = offset_of(s, i);
    let word = len_word_of(s, i);
    let at = names_at(count_of(s)) + 8 * i;
    SubfileModel {
        index: i,
        compressed: word >= 0x8000_0000,
        content: s.subrange(off, off + word % 16777216),
        name: if named_of(s) {
            Some(trim_nul(s.subrange(at, at + 8)))
        } else {
            None
        },
    }
}

/// The archive that `s` decodes to.
pub open spec fn p2_decode(s: Seq<u8>) -> P2Model {
    P2Model { named: named_of(s), subfiles: Seq::new(count_of(s) as nat, |i: int| entry_of(s, i)) }
}

// ---- encoding ----

/// Each subfile's bytes followed by zeros up to the next block boundary; a
/// subfile whose length is already a multiple of the block size still gets a
/// whole block of zeros.
pub open spec fn padded(c: Seq<u8>) -> Seq<u8> {
    c + zeros(512 - c.len() % 512)
}

pub open spec fn padded_all(m: P2Model) -> Seq<Seq<u8>> {
    Seq::new(m.subfiles.len(), |i: int| padded(m.subfiles[i].content))
}

/// The block index at which subfile `i` starts, relative to the content region.
pub open spec fn block_of(m: P2Model, i: int) -> int {
    start_of(padded_all(m), i) / 512
}

pub open spec fn len_word(f: SubfileModel) -> int {
    f.content.len() + if f.compressed {
        0x8000_0000int
    } else {
        0
    }
}

pub open spec fn name_field(f: SubfileModel) -> Seq<u8> {
    match f.name {
        Some(n) => n + zeros(8 - n.len()),
        None => zeros(8),
    }
}

/// Whether `m` has an encoding: the count fits its 15 bits, each length its
/// 24 bits, each starting block its 16 bits, and a named archive has a name
/// of at most eight bytes for every subfile.
pub open spec fn p2_encodable(m: P2Model) -> bool {
    &&& m.subfiles.len() < 32768
    &&& forall|i: int|
        0 <= i < m.subfiles.len() ==> (#[trigger] m.subfiles[i]).content.len() < 16777216
    &&& forall|i: int| 0 <= i < m.subfiles.len() ==> #[trigger] start_of(padded_all(m), i) < 33554432
    &&& m.named ==> forall|i: int|
        0 <= i < m.subfiles.len() ==> (#[trigger] m.subfiles[i]).name is Some
            && m.subfiles[i].name->0.len() <= 8
}

pub open spec fn p2_header(m: P2Model) -> Seq<u8> {
    let n = m.subfiles.len() as int;
    le16(P2_MAGIC as int) + le16(n + if m.named {
        32768int
    } else {
        0
    }) + zeros(8) + le32(header_size_for(n, m.named)) + concat(
        Seq::new(n as nat, |i: int| le16(block_of(m, i))),
    ) + zeros(2 * (n % 2)) + concat(Seq::new(n as nat, |i: int| le32(len_word(m.subfiles[i]))))
        + if m.named {
        concat(Seq::new(n as nat, |i: int| name_field(m.subfiles[i])))
    } else {
        Seq::empty()
    }
}

/// The bytes that encode `m`: the header, zeros up to the header size, then
/// every subfile's padded bytes.
#[verifier::opaque]
pub open spec fn p2_encode(m: P2Model) -> Seq<u8> {
    let n = m.subfiles.len() as int;
    p2_header(m) + zeros(header_size_for(n, m.named) - table_end(n, m.named)) + concat(
        padded_all(m),
    )
}

/// `buf[lo..hi]` without leading and trailing NULs.
fn trim_nul_range(buf: &[u8], lo: usize, hi: usize) -> (r: Vec<u8>)
    requires
        lo <= hi <= buf@.len(),
    ensures
        r@ == trim_nul(buf@.subrange(lo as int, hi as int)),
{
    let mut a = lo;
    let mut b = hi;
    while a < b && buf[a] == 0
        invariant
            lo <= a <= b,
            b == hi,
            hi <= buf@.len(),
            trim_nul(buf@.subrange(a as int, b as int)) == trim_nul(
                buf@.subrange(lo as int, hi as int),
            ),
        decreases b - a,
    {
        assert(buf@.subrange(a as int, b as int).drop_first() =~= buf@.subrange(a + 1, b as int));
        a = a + 1;
    }
    while b > a && buf[b - 1] == 0
        invariant
            lo <= a <= b,
            b <= buf@.len(),
            a < b ==> buf@[a as int] != 0,
            trim_nul(buf@.subrange(a as int, b as int)) == trim_nul(
                buf@.subrange(lo as int, hi as int),
            ),
        decreases b - a,
    {
        let ghost s = buf@.subrange(a as int, b as int);
        assert(s[0] == buf@[a as int]);
        assert(s.drop_last() =~= buf@.subrange(a as int, b - 1));
        b = b - 1;
    }
    let ghost s = buf@.subrange(a as int, b as int);
    if a < b {
        assert(s[0] == buf@[a as int]);
        assert(s.last() == buf@[b - 1]);
    }
    copy_range(buf, a, b - a)
}

impl P2File {
    /// Decodes a segmented archive. Fails with `MalformedContainer` exactly
    /// when a table or a subfile reaches past the end of `buf`.
    pub fn parse(buf: &[u8]) -> (r: Result<P2File, ArchiveError>)
        ensures
            match r {
                Ok(f) => p2_decodable(buf@) && f@ == p2_decode(buf@),
                Err(e) => !p2_decodable(buf@) && e == ArchiveError::MalformedContainer,
            },
    {
        let total = buf.len();
        if total < 16 {
            return Err(ArchiveError::MalformedContainer);
        }
        let word = read_u16(buf, 2);
        let named = word >= 32768;
        let n = (word % 32768) as usize;
        let header_size = read_u32(buf, 12) as u64;
        let lens = 16 + 2 * n + 2 * (n % 2);
        let names = lens + 4 * n;
        let end = if named {
            names + 8 * n
        } else {
            names
        };
        if end > total {
            return Err(ArchiveError::MalformedContainer);
        }
        let mut subfiles: Vec<P2Subfile> = Vec::with_capacity(n);
        let mut i: usize = 0;
        while i < n
            invariant
                i <= n,
                n == count_of(buf@),
                named == named_of(buf@),
                header_size == u32_at(buf@, 12),
                lens == lens_at(n as int),
                names == names_at(n as int),
                end == table_end(n as int, named),
                end <= total,
                total == buf@.len(),
                total >= 16,
                subfiles@.map_values(|f: P2Subfile| f@) =~= Seq::new(
                    i as nat,
                    |j: int| entry_of(buf@, j),
                ),
                forall|j: int| 0 <= j < i ==> #[trigger] entry_fits(buf@, j),
            decreases n - i,
        {
            let block = read_u16(buf, 16 + 2 * i) as u64;
            let lw = read_u32(buf, lens + 4 * i);
            let len = (lw % 16777216) as u64;
            let offset = block * 512 + header_size;
            if offset + len > total as u64 {
                assert(!entry_fits(buf@, i as int));
                return Err(ArchiveError::MalformedContainer);
            }
            let content = copy_range(buf, offset as usize, len as usize);
            let name = if named {
                Some(trim_nul_range(buf, names + 8 * i, names + 8 * i + 8))
            } else {
                None
            };
            let f = P2Subfile { index: i as u16, compressed: lw >= 0x8000_0000, content, name };
            assert(f@ == entry_of(buf@, i as int));
            let ghost prev = subfiles@;
            subfiles.push(f);
            assert(subfiles@.map_values(|f: P2Subfile| f@) =~= prev.map_values(|f: P2Subfile| f@).push(
                entry_of(buf@, i as int),
            ));
            i = i + 1;
        }
        Ok(P2File { named, subfiles })
    }

    /// Encodes the archive: the header with its block-index, length and name
    /// tables padded to whole blocks, then each subfile padded to whole
    /// blocks. Fails with `EncodingInconsistency` exactly when a count,
    /// length, block index or name does not fit its field.
    pub fn to_bytes(&self) -> (r: Result<Vec<u8>, ArchiveError>)
        ensures
            match r {
                Ok(b) => p2_encodable(self@) && b@ == p2_encode(self@),
                Err(e) => !p2_encodable(self@) && e == ArchiveError::EncodingInconsistency,
            },
    {
        let ghost m = self@;
        let ghost pa = padded_all(m);
        let n = self.subfiles.len();
        if n >= 32768 {
            return Err(ArchiveError::EncodingInconsistency);
        }
        let mut blocks: Vec<u16> = Vec::with_capacity(n);
        let mut cur: u64 = 0;
        let mut i: usize = 0;
        while i < n
            invariant
                i <= n,
                n == m.subfiles.len(),
                n < 32768,
                m == self@,
                pa == padded_all(m),
                cur == start_of(pa, i as int),
                blocks@.len() == i,
                forall|j: int| 0 <= j < i ==> (#[trigger] blocks@[j]) as int == block_of(m, j),
                forall|j: int| 0 <= j < i ==> (#[trigger] m.subfiles[j]).content.len() < 16777216,
                forall|j: int| 0 <= j < i ==> #[trigger] start_of(pa, j) < 33554432,
                m.named ==> forall|j: int|
                    0 <= j < i ==> (#[trigger] m.subfiles[j]).name is Some
                        && m.subfiles[j].name->0.len() <= 8,
            decreases n - i,
        {
            let f = &self.subfiles[i];
            assert(m.subfiles[i as int] == f@);
            let len = f.content.len();
            if len >= 16777216 || cur >= 33554432 {
                return Err(ArchiveError::EncodingInconsistency);
            }
            if self.named {
                match &f.name {
                    Some(nm) => {
                        if nm.len() > 8 {
                            return Err(ArchiveError::EncodingInconsistency);
                        }
                    },
                    None => {
                        return Err(ArchiveError::EncodingInconsistency);
                    },
                }
            }
            blocks.push((cur / 512) as u16);
            proof {
                lemma_concat_piece(pa, i as int);
                assert(pa[i as int] == padded(f.content@));
            }
            cur = cur + (len as u64) + 512 - (len as u64) % 512;
            i = i + 1;
        }
        assert(p2_encodable(m));
        let lens = 16 + 2 * n + 2 * (n % 2);
        let names = lens + 4 * n;
        let end = if self.named {
            names + 8 * n
        } else {
            names
        };
        let header_size = if end % 512 == 0 {
            end
        } else {
            end + 512 - end % 512
        };
        let mut buf: Vec<u8> = Vec::new();
        push_u16(&mut buf, P2_MAGIC);
        push_u16(&mut buf, if self.named {
            n as u16 + 32768
        } else {
            n as u16
        });
        push_zeros(&mut buf, 8);
        push_u32(&mut buf, header_size as u32);
        let ghost after_fixed = buf@;
        let ghost fb = |j: int| le16(block_of(m, j));
        let mut i: usize = 0;
        while i < n
            invariant
                i <= n,
                n == m.subfiles.len(),
                blocks@.len() == n,
                forall|j: int| 0 <= j < n ==> (#[trigger] blocks@[j]) as int == block_of(m, j),
                fb == (|j: int| le16(block_of(m, j))),
                buf@ == after_fixed + concat(Seq::new(i as nat, fb)),
            decreases n - i,
        {
            push_u16(&mut buf, blocks[i]);
            proof {
                lemma_concat_new_step(fb, i as int);
            }
            i = i + 1;
        }
        push_zeros(&mut buf, 2 * (n % 2));
        let ghost after_blocks = buf@;
        let ghost fl = |j: int| le32(len_word(m.subfiles[j]));
        let mut i: usize = 0;
        while i < n
            invariant
                i <= n,
                n == m.subfiles.len(),
                m == self@,
                forall|j: int| 0 <= j < n ==> (#[trigger] m.subfiles[j]).content.len() < 16777216,
                fl == (|j: int| le32(len_word(m.subfiles[j]))),
                buf@ == after_blocks + concat(Seq::new(i as nat, fl)),
            decreases n - i,
        {
            let f = &self.subfiles[i];
            assert(m.subfiles[i as int] == f@);
            let word: u32 = if f.compressed {
                f.content.len() as u32 + 0x8000_0000
            } else {
                f.content.len() as u32
            };
            push_u32(&mut buf, word);
            proof {
                lemma_concat_new_step(fl, i as int);
            }
            i = i + 1;
        }
        let ghost after_lengths = buf@;
        let ghost fnm = |j: int| name_field(m.subfiles[j]);
        if self.named {
            let mut i: usize = 0;
            while i < n
                invariant
                    i <= n,
                    n == m.subfiles.len(),
                    m == self@,
                    m.named,
                    forall|j: int|
                        0 <= j < n ==> (#[trigger] m.subfiles[j]).name is Some
                            && m.subfiles[j].name->0.len() <= 8,
                    fnm == (|j: int| name_field(m.subfiles[j])),
                    buf@ == after_lengths + concat(Seq::new(i as nat, fnm)),
                decreases n - i,
            {
                let f = &self.subfiles[i];
                assert(m.subfiles[i as int] == f@);
                match &f.name {
                    Some(nm) => {
                        push_bytes(&mut buf, nm.as_slice());
                        push_zeros(&mut buf, 8 - nm.len());
                        assert(buf@ =~= after_lengths + concat(Seq::new(i as nat, fnm)) + name_field(
                            m.subfiles[i as int],
                        ));
                    },
                    None => {},
                }
                proof {
                    lemma_concat_new_step(fnm, i as int);
                }
                i = i + 1;
            }
        }
        push_zeros(&mut buf, header_size - end);
        assert(buf@ =~= p2_header(m) + zeros(header_size - end));
        let ghost after_header = buf@;
        let mut i: usize = 0;
        while i < n
            invariant
                i <= n,
                n == m.subfiles.len(),
                m == self@,
                pa == padded_all(m),
                buf@ == after_header + concat(pa.take(i as int)),
            decreases n - i,
        {
            let f = &self.subfiles[i];
            assert(m.subfiles[i as int] == f@);
            let len = f.content.len();
            push_bytes(&mut buf, f.content.as_slice());
            push_zeros(&mut buf, 512 - len % 512);
            proof {
                lemma_concat_piece(pa, i as int);
            }
            assert(buf@ =~= after_header + concat(pa.take(i + 1)));
            i = i + 1;
        }
        assert(pa.take(n as int) =~= pa);
        reveal(p2_encode);
        Ok(buf)
    }
}

} // verus!
