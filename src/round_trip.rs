//! Round trips of the two archive codecs: what the encoder writes decodes to
//! what was encoded, so a buffer the encoder wrote is given back exactly by
//! encoding what it decodes to.
use vstd::prelude::*;
use crate::bucket::{
    ABSENT, blob_len, blob_off, bucket_blobs, bucket_fits, bucket_of, count_in, data_start,
    groups_decodable, groups_decode, groups_encodable, groups_encode, info_at, info_block,
    info_block_of, info_len, infos_before, lemma_infos_before_monotone, table_entry,
};
use crate::containers::{
    cstr, lemma_cstr_skip, name_offset, nametable_decodable, nametable_decode, nametable_encodable,
    nametable_encode, nt_count, nt_entry_ok, nt_offset, pkac_extra, pkac_files, pkac_groups,
    pkac_readable, terminated,
};
use crate::le::{le16, le32, lemma_le16, lemma_le32, u16_at, u32_at, zeros};
use crate::file_type::P2_MAGIC;
use crate::p2::{
    P2Model, block_of, count_of, entry_fits, entry_of, header_size_for, len_word, len_word_of, lens_at,
    name_field, named_of, names_at, offset_of, p2_decodable, p2_decode, p2_encodable, p2_encode,
    p2_header, padded, padded_all, table_end, trim_nul,
};
use crate::seq_util::{concat, lemma_concat_piece, lemma_concat_uniform, lemma_start_le_total, start_of};

verus! {

/// Reading four bytes that hold `le32(v)` gives `v`.
pub proof fn lemma_read32(s: Seq<u8>, a: int, t: Seq<u8>, x: int, v: int)
    requires
        0 <= a,
        a + t.len() <= s.len(),
        s.subrange(a, a + t.len()) == t,
        0 <= x,
        x + 4 <= t.len(),
        t.subrange(x, x + 4) == le32(v),
        0 <= v < 0x1_0000_0000,
    ensures
        u32_at(s, a + x) == v,
{
    lemma_le32(v);
    assert(s[a + x] == t[x]);
    assert(s[a + x + 1] == t[x + 1]);
    assert(s[a + x + 2] == t[x + 2]);
    assert(s[a + x + 3] == t[x + 3]);
    assert(t[x] == le32(v)[0]);
    assert(t[x + 1] == le32(v)[1]);
    assert(t[x + 2] == le32(v)[2]);
    assert(t[x + 3] == le32(v)[3]);
}

/// A piece of a piece.
pub proof fn lemma_sub_of_sub(s: Seq<u8>, a: int, t: Seq<u8>, x: int, y: int)
    requires
        0 <= a,
        a + t.len() <= s.len(),
        s.subrange(a, a + t.len()) == t,
        0 <= x <= y <= t.len(),
    ensures
        s.subrange(a + x, a + y) == t.subrange(x, y),
{
    assert(s.subrange(a + x, a + y) =~= t.subrange(x, y));
}

pub proof fn lemma_info_block_len(g: Seq<Seq<u8>>, base: int)
    ensures
        info_block_of(g, base).len() == info_len(g),
{
    if g.len() > 0 {
        let n = g.len() as int;
        lemma_concat_uniform(Seq::new(g.len(), |k: int| le32(base + start_of(g, k))), 4, 0);
        lemma_concat_uniform(Seq::new(g.len(), |k: int| le32(g[k].len() as int)), 4, 0);
    }
}

pub open spec fn infos(gs: Seq<Seq<Seq<u8>>>) -> Seq<Seq<u8>> {
    Seq::new(8, |j: int| info_block(gs, j))
}

pub open spec fn table(gs: Seq<Seq<Seq<u8>>>) -> Seq<Seq<u8>> {
    Seq::new(8, |j: int| table_entry(gs, j))
}

pub proof fn lemma_infos_start(gs: Seq<Seq<Seq<u8>>>, b: int)
    requires
        gs.len() == 8,
        0 <= b <= 8,
    ensures
        start_of(infos(gs), b) == infos_before(gs, b),
    decreases b,
{
    if b == 0 {
        assert(infos(gs).take(0) =~= Seq::<Seq<u8>>::empty());
    } else {
        lemma_infos_start(gs, b - 1);
        lemma_concat_piece(infos(gs), b - 1);
        lemma_info_block_len(gs[b - 1], data_start(gs) + start_of(bucket_blobs(gs), b - 1));
    }
}

/// The encoding, cut where its four parts meet.
pub proof fn lemma_layout(magic: u32, gs: Seq<Seq<Seq<u8>>>)
    requires
        gs.len() == 8,
    ensures
        ({
            let e = groups_encode(magic, gs);
            &&& concat(table(gs)).len() == 32
            &&& concat(infos(gs)).len() == infos_before(gs, 8)
            &&& e.subrange(8, 40) == concat(table(gs))
            &&& e.subrange(40, 40 + infos_before(gs, 8)) == concat(infos(gs))
            &&& e.subrange(data_start(gs), e.len() as int) == concat(bucket_blobs(gs))
            &&& e.len() == data_start(gs) + concat(bucket_blobs(gs)).len()
        }),
{
    reveal(groups_encode);
    let e = groups_encode(magic, gs);
    assert forall|j: int| 0 <= j < 8 implies (#[trigger] table(gs)[j]).len() == 4 by {}
    lemma_concat_uniform(table(gs), 4, 0);
    lemma_infos_start(gs, 8);
    lemma_start_le_total(infos(gs), 8);
    let p = le32(magic as int) + le32(0);
    lemma_le32(magic as int);
    lemma_le32(0);
    assert(p.len() == 8);
    assert(e == p + concat(table(gs)) + concat(infos(gs)) + concat(bucket_blobs(gs)));
    assert(e.subrange(8, 40) =~= concat(table(gs)));
    assert(e.subrange(40, 40 + infos_before(gs, 8)) =~= concat(infos(gs)));
    assert(e.subrange(data_start(gs), e.len() as int) =~= concat(bucket_blobs(gs)));
}

pub open spec fn offsets_of(g: Seq<Seq<u8>>, base: int) -> Seq<Seq<u8>> {
    Seq::new(g.len(), |k: int| le32(base + start_of(g, k)))
}

pub open spec fn lengths_of(g: Seq<Seq<u8>>) -> Seq<Seq<u8>> {
    Seq::new(g.len(), |k: int| le32(g[k].len() as int))
}

/// Piece `k` of a run of four-byte pieces that starts at `a + at` in `e`.
pub proof fn lemma_read_piece(e: Seq<u8>, a: int, t: Seq<u8>, at: int, ps: Seq<Seq<u8>>, k: int, v: int)
    requires
        0 <= a,
        0 <= at,
        a + t.len() <= e.len(),
        e.subrange(a, a + t.len()) == t,
        at + concat(ps).len() <= t.len(),
        t.subrange(at, at + concat(ps).len()) == concat(ps),
        forall|j: int| 0 <= j < ps.len() ==> (#[trigger] ps[j]).len() == 4,
        0 <= k < ps.len(),
        ps[k] == le32(v),
        0 <= v < 0x1_0000_0000,
    ensures
        u32_at(e, a + at + 4 * k) == v,
{
    lemma_concat_uniform(ps, 4, k);
    lemma_concat_piece(ps, k);
    lemma_sub_of_sub(e, a, t, at, at + concat(ps).len());
    lemma_read32(e, a + at, concat(ps), 4 * k, v);
}

/// Blob `k` of an info block at `q` whose blobs sit at `base`.
pub proof fn lemma_blob_reads(e: Seq<u8>, q: int, g: Seq<Seq<u8>>, base: int, k: int)
    requires
        g.len() > 0,
        0 <= k < g.len(),
        0 <= q,
        0 <= base,
        base + concat(g).len() < 0x1_0000_0000,
        info_len(g) < 0x1_0000_0000,
        q + info_len(g) <= e.len(),
        e.subrange(q, q + info_len(g)) == le32(g.len() as int) + concat(offsets_of(g, base))
            + concat(lengths_of(g)),
        base + concat(g).len() <= e.len(),
        e.subrange(base, base + concat(g).len()) == concat(g),
    ensures
        u32_at(e, q + 4 + 4 * k) == base + start_of(g, k),
        u32_at(e, q + 4 + 4 * g.len() + 4 * k) == g[k].len(),
        base + start_of(g, k) + g[k].len() <= e.len(),
        e.subrange(base + start_of(g, k), base + start_of(g, k) + g[k].len()) == g[k],
{
    let n = g.len() as int;
    let offs = offsets_of(g, base);
    let lens = lengths_of(g);
    let ib = le32(n) + concat(offs) + concat(lens);
    lemma_le32(n);
    lemma_concat_uniform(offs, 4, 0);
    lemma_concat_uniform(lens, 4, 0);
    assert(ib.subrange(4, 4 + 4 * n) =~= concat(offs));
    assert(ib.subrange(4 + 4 * n, 4 + 8 * n) =~= concat(lens));
    assert(ib.len() == info_len(g));
    lemma_concat_piece(g, k);
    lemma_start_le_total(g, k);
    lemma_read_piece(e, q, ib, 4, offs, k, base + start_of(g, k));
    lemma_read_piece(e, q, ib, 4 + 4 * n, lens, k, g[k].len() as int);
    lemma_sub_of_sub(e, base, concat(g), start_of(g, k), start_of(g, k) + g[k].len());
}

/// Where bucket `b`'s info block points.
pub proof fn lemma_table_read(magic: u32, gs: Seq<Seq<Seq<u8>>>, b: int)
    requires
        groups_encodable(gs),
        0 <= b < 8,
    ensures
        info_at(groups_encode(magic, gs), b) == if gs[b].len() == 0 {
            ABSENT as int
        } else {
            40 + infos_before(gs, b)
        },
{
    let e = groups_encode(magic, gs);
    lemma_layout(magic, gs);
    lemma_infos_before_monotone(gs, b, 8);
    lemma_infos_before_monotone(gs, 0, b);
    assert(infos_before(gs, 0) == 0);
    assert(e.len() >= 40);
    assert forall|j: int| 0 <= j < 8 implies (#[trigger] table(gs)[j]).len() == 4 by {}
    let t = concat(table(gs));
    assert(t.subrange(0, 32) =~= t);
    if gs[b].len() == 0 {
        lemma_read_piece(e, 8, t, 0, table(gs), b, ABSENT as int);
    } else {
        lemma_read_piece(e, 8, t, 0, table(gs), b, 40 + infos_before(gs, b));
    }
}

/// Bucket `b`'s info block and blobs, where the encoding holds them.
#[verifier::rlimit(50)]
pub proof fn lemma_bucket_places(magic: u32, gs: Seq<Seq<Seq<u8>>>, b: int)
    requires
        groups_encodable(gs),
        0 <= b < 8,
        gs[b].len() > 0,
    ensures
        ({
            let e = groups_encode(magic, gs);
            let g = gs[b];
            let q = 40 + infos_before(gs, b);
            let base = data_start(gs) + start_of(bucket_blobs(gs), b);
            &&& q + info_len(g) <= e.len()
            &&& info_len(g) < 0x1_0000_0000
            &&& e.subrange(q, q + info_len(g)) == le32(g.len() as int) + concat(offsets_of(g, base))
                + concat(lengths_of(g))
            &&& 0 <= base
            &&& base + concat(g).len() < 0x1_0000_0000
            &&& base + concat(g).len() <= e.len()
            &&& e.subrange(base, base + concat(g).len()) == concat(g)
        }),
{
    let e = groups_encode(magic, gs);
    let bb = bucket_blobs(gs);
    let g = gs[b];
    lemma_layout(magic, gs);
    lemma_infos_before_monotone(gs, b + 1, 8);
    lemma_infos_before_monotone(gs, 0, b);
    let base = data_start(gs) + start_of(bb, b);
    lemma_info_block_len(g, base);
    lemma_infos_start(gs, b);
    lemma_concat_piece(infos(gs), b);
    lemma_sub_of_sub(e, 40, concat(infos(gs)), infos_before(gs, b), infos_before(gs, b) + info_len(g));
    lemma_concat_piece(bb, b);
    lemma_sub_of_sub(e, data_start(gs), concat(bb), start_of(bb, b), start_of(bb, b) + concat(g).len());
}

/// Bucket `b` of an encoding decodes to the bucket that was encoded.
pub proof fn lemma_bucket_decodes(magic: u32, gs: Seq<Seq<Seq<u8>>>, b: int)
    requires
        groups_encodable(gs),
        0 <= b < 8,
    ensures
        bucket_fits(groups_encode(magic, gs), b),
        bucket_of(groups_encode(magic, gs), b) == gs[b],
{
    let e = groups_encode(magic, gs);
    let g = gs[b];
    lemma_table_read(magic, gs, b);
    lemma_infos_before_monotone(gs, b, 8);
    if g.len() == 0 {
        assert(bucket_of(e, b) =~= gs[b]);
    } else {
        lemma_bucket_places(magic, gs, b);
        let q = 40 + infos_before(gs, b);
        lemma_infos_before_monotone(gs, b + 1, 8);
        lemma_infos_before_monotone(gs, 0, b);
        assert(infos_before(gs, b + 1) == infos_before(gs, b) + info_len(g));
        assert(q < ABSENT as int);
        let base = data_start(gs) + start_of(bucket_blobs(gs), b);
        let n = g.len() as int;
        let ib = le32(n) + concat(offsets_of(g, base)) + concat(lengths_of(g));
        lemma_le32(n);
        assert(ib.subrange(0, 4) =~= le32(n));
        lemma_read32(e, q, ib, 0, n);
        assert(count_in(e, b) == n);
        assert forall|k: int| 0 <= k < n implies #[trigger] blob_fits_and_reads(e, b, k, g[k]) by {
            lemma_blob_reads(e, q, g, base, k);
        }
        assert forall|k: int| 0 <= k < count_in(e, b) implies #[trigger] crate::bucket::blob_fits(e, b, k) by {
            assert(blob_fits_and_reads(e, b, k, g[k]));
        }
        assert(bucket_of(e, b) =~= gs[b]) by {
            assert forall|k: int| 0 <= k < n implies bucket_of(e, b)[k] == g[k] by {
                assert(blob_fits_and_reads(e, b, k, g[k]));
            }
        }
    }
}

pub open spec fn blob_fits_and_reads(e: Seq<u8>, b: int, k: int, blob: Seq<u8>) -> bool {
    &&& blob_off(e, b, k) + blob_len(e, b, k) <= e.len()
    &&& e.subrange(blob_off(e, b, k), blob_off(e, b, k) + blob_len(e, b, k)) == blob
}

/// What the encoder writes for the buckets `gs` decodes to `gs`.
pub proof fn lemma_groups_decode_encode(magic: u32, gs: Seq<Seq<Seq<u8>>>)
    requires
        groups_encodable(gs),
    ensures
        groups_decodable(groups_encode(magic, gs)),
        groups_decode(groups_encode(magic, gs)) == gs,
{
    let e = groups_encode(magic, gs);
    lemma_layout(magic, gs);
    assert forall|b: int| 0 <= b < 8 implies #[trigger] bucket_fits(e, b) by {
        lemma_bucket_decodes(magic, gs, b);
    }
    assert forall|b: int| 0 <= b < 8 implies groups_decode(e)[b] == gs[b] by {
        lemma_bucket_decodes(magic, gs, b);
    }
    assert(groups_decode(e) =~= gs);
}

/// A bucket archive written by the encoder is given back bit for bit by
/// encoding, under the same magic word, the buckets it decodes to.
pub proof fn lemma_bucket_archive_round_trip(b: Seq<u8>, magic: u32, gs: Seq<Seq<Seq<u8>>>)
    requires
        groups_encodable(gs),
        b == groups_encode(magic, gs),
    ensures
        groups_decodable(b),
        groups_encodable(groups_decode(b)),
        groups_encode(magic, groups_decode(b)) == b,
{
    lemma_groups_decode_encode(magic, gs);
}

// ---- segmented archives ----

/// Reading two bytes that hold `le16(v)` gives `v`.
pub proof fn lemma_read16(s: Seq<u8>, a: int, t: Seq<u8>, x: int, v: int)
    requires
        0 <= a,
        a + t.len() <= s.len(),
        s.subrange(a, a + t.len()) == t,
        0 <= x,
        x + 2 <= t.len(),
        t.subrange(x, x + 2) == le16(v),
        0 <= v < 65536,
    ensures
        u16_at(s, a + x) == v,
{
    lemma_le16(v);
    assert(s[a + x] == t[x]);
    assert(s[a + x + 1] == t[x + 1]);
    assert(t[x] == le16(v)[0]);
    assert(t[x + 1] == le16(v)[1]);
}

/// Whether `n` holds no NUL byte.
pub open spec fn nul_free(n: Seq<u8>) -> bool {
    forall|i: int| 0 <= i < n.len() ==> n[i] != 0
}

/// A name without NULs survives its NUL padding.
pub proof fn lemma_trim_padded(n: Seq<u8>, k: int)
    requires
        nul_free(n),
        0 <= k,
    ensures
        trim_nul(n + zeros(k)) == n,
    decreases n.len() + k,
{
    let s = n + zeros(k);
    if k == 0 {
        assert(s =~= n);
        if n.len() > 0 {
            assert(n[0] != 0);
            assert(n.last() != 0);
        }
    } else if n.len() == 0 {
        assert(s[0] == 0);
        assert(s.drop_first() =~= Seq::<u8>::empty() + zeros(k - 1));
        lemma_trim_padded(n, k - 1);
    } else {
        assert(s[0] == n[0]);
        assert(s.last() == 0);
        assert(s.drop_last() =~= n + zeros(k - 1));
        lemma_trim_padded(n, k - 1);
    }
}

/// Every padded subfile fills whole blocks, so each starts on a block
/// boundary.
pub proof fn lemma_starts_aligned(m: P2Model, i: int)
    requires
        0 <= i <= m.subfiles.len(),
    ensures
        start_of(padded_all(m), i) % 512 == 0,
        start_of(padded_all(m), i) >= 0,
    decreases i,
{
    if i > 0 {
        let pa = padded_all(m);
        lemma_starts_aligned(m, i - 1);
        lemma_concat_piece(pa, i - 1);
        let c = m.subfiles[i - 1].content;
        assert(pa[i - 1] == padded(c));
        assert(padded(c).len() == c.len() + 512 - c.len() % 512);
        let a = start_of(pa, i - 1);
        let l = c.len() as int;
        assert((a + l + 512 - l % 512) % 512 == 0) by (nonlinear_arith)
            requires
                a % 512 == 0,
                l >= 0,
                a >= 0,
        {
            vstd::arithmetic::div_mod::lemma_fundamental_div_mod(l, 512);
            vstd::arithmetic::div_mod::lemma_fundamental_div_mod(a, 512);
        }
    } else {
        assert(padded_all(m).take(0) =~= Seq::<Seq<u8>>::empty());
    }
}

/// A segmented archive that the decoder gives back unchanged: encodable,
/// each subfile's index its position, and names present (without NULs)
/// exactly when the archive is named.
pub open spec fn p2_canonical(m: P2Model) -> bool {
    &&& p2_encodable(m)
    &&& forall|i: int| 0 <= i < m.subfiles.len() ==> (#[trigger] m.subfiles[i]).index == i
    &&& forall|i: int|
        0 <= i < m.subfiles.len() ==> if m.named {
            (#[trigger] m.subfiles[i]).name is Some && nul_free(m.subfiles[i].name->0)
        } else {
            m.subfiles[i].name is None
        }
}

pub open spec fn idx_pieces(m: P2Model) -> Seq<Seq<u8>> {
    Seq::new(m.subfiles.len(), |i: int| le16(block_of(m, i)))
}

pub open spec fn len_pieces(m: P2Model) -> Seq<Seq<u8>> {
    Seq::new(m.subfiles.len(), |i: int| le32(len_word(m.subfiles[i])))
}

pub open spec fn name_pieces(m: P2Model) -> Seq<Seq<u8>> {
    Seq::new(m.subfiles.len(), |i: int| name_field(m.subfiles[i]))
}

/// The encoding, cut where its parts meet.
#[verifier::rlimit(50)]
pub proof fn lemma_p2_layout(m: P2Model)
    requires
        p2_canonical(m),
    ensures
        ({
            let e = p2_encode(m);
            let n = m.subfiles.len() as int;
            let hs = header_size_for(n, m.named);
            &&& e.len() == hs + concat(padded_all(m)).len()
            &&& table_end(n, m.named) <= hs
            &&& e.subrange(0, 16) == le16(P2_MAGIC as int) + le16(n + if m.named { 32768int } else { 0 }) + zeros(8) + le32(hs)
            &&& e.subrange(16, 16 + 2 * n) == concat(idx_pieces(m))
            &&& e.subrange(lens_at(n), lens_at(n) + 4 * n) == concat(len_pieces(m))
            &&& m.named ==> e.subrange(names_at(n), names_at(n) + 8 * n) == concat(name_pieces(m))
            &&& e.subrange(hs, e.len() as int) == concat(padded_all(m))
        }),
{
    reveal(p2_encode);
    let n = m.subfiles.len() as int;
    let hs = header_size_for(n, m.named);
    let e = p2_encode(m);
    lemma_le16(P2_MAGIC as int);
    lemma_le16(n + if m.named { 32768int } else { 0 });
    assert(hs < 0x1_0000_0000);
    lemma_le32(hs);
    assert forall|j: int| 0 <= j < n implies (#[trigger] idx_pieces(m)[j]).len() == 2 by {
        lemma_le16(block_of(m, j));
    }
    assert forall|j: int| 0 <= j < n implies (#[trigger] len_pieces(m)[j]).len() == 4 by {}
    assert forall|j: int| 0 <= j < n implies (#[trigger] name_pieces(m)[j]).len() == 8 by {}
    lemma_concat_uniform(idx_pieces(m), 2, 0);
    lemma_concat_uniform(len_pieces(m), 4, 0);
    lemma_concat_uniform(name_pieces(m), 8, 0);
    let a = le16(P2_MAGIC as int) + le16(n + if m.named { 32768int } else { 0 }) + zeros(8) + le32(hs);
    let names = if m.named { concat(name_pieces(m)) } else { Seq::empty() };
    let h = a + concat(idx_pieces(m)) + zeros(2 * (n % 2)) + concat(len_pieces(m)) + names;
    assert(p2_header(m) == h);
    assert(h.len() == table_end(n, m.named));
    assert(e == h + zeros(hs - table_end(n, m.named)) + concat(padded_all(m)));
    assert(e.subrange(0, 16) =~= a);
    assert(e.subrange(16, 16 + 2 * n) =~= concat(idx_pieces(m)));
    assert(e.subrange(lens_at(n), lens_at(n) + 4 * n) =~= concat(len_pieces(m)));
    if m.named {
        assert(e.subrange(names_at(n), names_at(n) + 8 * n) =~= concat(name_pieces(m)));
    }
    assert(e.subrange(hs, e.len() as int) =~= concat(padded_all(m)));
}

/// The header fields of an encoding read back as written.
#[verifier::rlimit(40)]
pub proof fn lemma_p2_header(m: P2Model)
    requires
        p2_canonical(m),
    ensures
        p2_encode(m).len() >= 16,
        count_of(p2_encode(m)) == m.subfiles.len(),
        named_of(p2_encode(m)) == m.named,
        u32_at(p2_encode(m), 12) == header_size_for(m.subfiles.len() as int, m.named),
        table_end(m.subfiles.len() as int, m.named) <= p2_encode(m).len(),
{
    let e = p2_encode(m);
    let n = m.subfiles.len() as int;
    let hs = header_size_for(n, m.named);
    lemma_p2_layout(m);
    let w = n + if m.named { 32768int } else { 0 };
    let a = le16(P2_MAGIC as int) + le16(w) + zeros(8) + le32(hs);
    lemma_le16(P2_MAGIC as int);
    lemma_le16(w);
    lemma_le32(hs);
    assert(a.len() == 16);
    assert(a.subrange(2, 4) =~= le16(w));
    assert(a.subrange(12, 16) =~= le32(hs));
    lemma_read16(e, 0, a, 2, w);
    lemma_read32(e, 0, a, 12, hs);
}

/// Where subfile `i` of an encoding starts.
pub proof fn lemma_p2_offset(m: P2Model, i: int)
    requires
        p2_canonical(m),
        0 <= i < m.subfiles.len(),
    ensures
        offset_of(p2_encode(m), i) == header_size_for(m.subfiles.len() as int, m.named) + start_of(
            padded_all(m),
            i,
        ),
{
    let e = p2_encode(m);
    let n = m.subfiles.len() as int;
    let pa = padded_all(m);
    lemma_p2_layout(m);
    lemma_p2_header(m);
    lemma_starts_aligned(m, i);
    let st = start_of(pa, i);
    assert(st < 33554432);
    assert(block_of(m, i) * 512 == st);
    assert(0 <= block_of(m, i) < 65536);
    assert forall|j: int| 0 <= j < n implies (#[trigger] idx_pieces(m)[j]).len() == 2 by {
        lemma_le16(block_of(m, j));
    }
    lemma_concat_uniform(idx_pieces(m), 2, i);
    lemma_concat_piece(idx_pieces(m), i);
    lemma_sub_of_sub(e, 16, concat(idx_pieces(m)), 2 * i, 2 * i + 2);
    assert(idx_pieces(m)[i].subrange(0, 2) =~= idx_pieces(m)[i]);
    lemma_read16(e, 16 + 2 * i, idx_pieces(m)[i], 0, block_of(m, i));
}

/// The length word of subfile `i` of an encoding.
pub proof fn lemma_p2_len(m: P2Model, i: int)
    requires
        p2_canonical(m),
        0 <= i < m.subfiles.len(),
    ensures
        len_word_of(p2_encode(m), i) % 16777216 == m.subfiles[i].content.len(),
        (len_word_of(p2_encode(m), i) >= 0x8000_0000) == m.subfiles[i].compressed,
{
    let e = p2_encode(m);
    let n = m.subfiles.len() as int;
    let f = m.subfiles[i];
    lemma_p2_layout(m);
    lemma_p2_header(m);
    assert(0 <= len_word(f) < 0x1_0000_0000);
    assert forall|j: int| 0 <= j < n implies (#[trigger] len_pieces(m)[j]).len() == 4 by {}
    let lt = concat(len_pieces(m));
    lemma_concat_uniform(len_pieces(m), 4, 0);
    assert(lt.subrange(0, 4 * n) =~= lt);
    lemma_read_piece(e, lens_at(n), lt, 0, len_pieces(m), i, len_word(f));
    let l = f.content.len() as int;
    if f.compressed {
        assert((l + 0x8000_0000) % 16777216 == l) by (nonlinear_arith)
            requires
                0 <= l < 16777216,
        ;
    }
}

/// The bytes of subfile `i` of an encoding.
pub proof fn lemma_p2_bytes(m: P2Model, i: int)
    requires
        p2_canonical(m),
        0 <= i < m.subfiles.len(),
    ensures
        ({
            let st = header_size_for(m.subfiles.len() as int, m.named) + start_of(padded_all(m), i);
            let l = m.subfiles[i].content.len();
            &&& st + l <= p2_encode(m).len()
            &&& p2_encode(m).subrange(st, st + l) == m.subfiles[i].content
        }),
{
    let e = p2_encode(m);
    let pa = padded_all(m);
    let f = m.subfiles[i];
    let hs = header_size_for(m.subfiles.len() as int, m.named);
    lemma_p2_layout(m);
    lemma_starts_aligned(m, i);
    let st = start_of(pa, i);
    let l = f.content.len() as int;
    lemma_concat_piece(pa, i);
    assert(pa[i] == padded(f.content));
    lemma_sub_of_sub(e, hs, concat(pa), st, st + l);
    assert(concat(pa).subrange(st, st + l) =~= padded(f.content).subrange(0, l));
    assert(padded(f.content).subrange(0, l) =~= f.content);
}

/// The name of subfile `i` of an encoding of a named archive.
pub proof fn lemma_p2_name(m: P2Model, i: int)
    requires
        p2_canonical(m),
        m.named,
        0 <= i < m.subfiles.len(),
    ensures
        ({
            let at = names_at(m.subfiles.len() as int) + 8 * i;
            trim_nul(p2_encode(m).subrange(at, at + 8)) == m.subfiles[i].name->0
        }),
{
    let e = p2_encode(m);
    let n = m.subfiles.len() as int;
    let f = m.subfiles[i];
    lemma_p2_layout(m);
    assert forall|j: int| 0 <= j < n implies (#[trigger] name_pieces(m)[j]).len() == 8 by {}
    lemma_concat_uniform(name_pieces(m), 8, i);
    lemma_concat_piece(name_pieces(m), i);
    lemma_sub_of_sub(e, names_at(n), concat(name_pieces(m)), 8 * i, 8 * i + 8);
    let nm = f.name->0;
    lemma_trim_padded(nm, 8 - nm.len());
}

/// Subfile `i` of an encoding decodes to the subfile that was encoded.
pub proof fn lemma_p2_entry(m: P2Model, i: int)
    requires
        p2_canonical(m),
        0 <= i < m.subfiles.len(),
    ensures
        entry_fits(p2_encode(m), i),
        entry_of(p2_encode(m), i) == m.subfiles[i],
{
    let e = p2_encode(m);
    lemma_p2_header(m);
    lemma_p2_offset(m, i);
    lemma_p2_len(m, i);
    lemma_p2_bytes(m, i);
    if m.named {
        lemma_p2_name(m, i);
    }
    assert(entry_of(e, i) == m.subfiles[i]);
}

/// What the encoder writes for a canonical segmented archive decodes to it.
pub proof fn lemma_p2_decode_encode(m: P2Model)
    requires
        p2_canonical(m),
    ensures
        p2_decodable(p2_encode(m)),
        p2_decode(p2_encode(m)) == m,
{
    let e = p2_encode(m);
    lemma_p2_header(m);
    assert forall|i: int| 0 <= i < count_of(e) implies #[trigger] entry_fits(e, i) by {
        lemma_p2_entry(m, i);
    }
    assert forall|i: int| 0 <= i < m.subfiles.len() implies p2_decode(e).subfiles[i] == m.subfiles[i] by {
        lemma_p2_entry(m, i);
    }
    assert(p2_decode(e).subfiles =~= m.subfiles);
}

/// A segmented archive written by the encoder is given back bit for bit by
/// encoding what it decodes to: names, compression flags and order survive.
pub proof fn lemma_segmented_archive_round_trip(b: Seq<u8>, m: P2Model)
    requires
        p2_canonical(m),
        b == p2_encode(m),
    ensures
        p2_decodable(b),
        p2_encodable(p2_decode(b)),
        p2_encode(p2_decode(b)) == b,
{
    lemma_p2_decode_encode(m);
}

// ---- the PKAC name table ----

pub open spec fn offset_pieces(names: Seq<Seq<u8>>) -> Seq<Seq<u8>> {
    Seq::new(names.len(), |i: int| le16(name_offset(names, i)))
}

/// Name `i` of an encoded name table reads back.
pub proof fn lemma_nametable_entry(names: Seq<Seq<u8>>, i: int)
    requires
        nametable_encodable(names),
        forall|j: int| 0 <= j < names.len() ==> nul_free(#[trigger] names[j]),
        0 <= i < names.len(),
    ensures
        nt_entry_ok(nametable_encode(names), i),
        cstr(nametable_encode(names).subrange(nt_offset(nametable_encode(names), i), nametable_encode(names).len() as int)) == Some(names[i]),
{
    reveal(nametable_encode);
    let k = names.len() as int;
    let e = nametable_encode(names);
    let ts = terminated(names);
    let offs = offset_pieces(names);
    lemma_le16(k);
    assert forall|j: int| 0 <= j < k implies (#[trigger] offs[j]).len() == 2 by {
        lemma_le16(name_offset(names, j));
    }
    lemma_concat_uniform(offs, 2, i);
    lemma_concat_piece(offs, i);
    assert(offs =~= Seq::new(k as nat, |j: int| le16(2 + 2 * k + start_of(terminated(names), j))));
    assert(e == le16(k) + concat(offs) + concat(ts));
    assert(e.subrange(2, 2 + 2 * k) =~= concat(offs));
    lemma_sub_of_sub(e, 2, concat(offs), 2 * i, 2 * i + 2);
    assert(offs[i].subrange(0, 2) =~= offs[i]);
    lemma_read16(e, 2 + 2 * i, offs[i], 0, name_offset(names, i));
    let off = name_offset(names, i);
    assert(nt_offset(e, i) == off);
    // the name and its NUL
    lemma_concat_piece(ts, i);
    assert(e.subrange(2 + 2 * k, e.len() as int) =~= concat(ts));
    let n = names[i].len() as int;
    lemma_sub_of_sub(e, 2 + 2 * k, concat(ts), start_of(ts, i), start_of(ts, i) + n + 1);
    assert(ts[i] == names[i] + seq![0u8]);
    assert(e.subrange(off, off + n + 1) == names[i] + seq![0u8]);
    assert forall|t: int| off <= t < off + n implies e[t] != 0 by {
        assert(e[t] == e.subrange(off, off + n + 1)[t - off]);
    }
    assert(e[off + n] == 0) by {
        assert(e[off + n] == e.subrange(off, off + n + 1)[n]);
    }
    lemma_cstr_skip(e, off, off + n);
    assert(e.subrange(off + n, e.len() as int)[0] == 0);
    assert(e.subrange(off, off + n) =~= names[i]);
    assert(names[i] + Seq::<u8>::empty() =~= names[i]);
}

/// A name table written by the encoder, for names without NULs, reads back
/// as the same names in the same order.
pub proof fn lemma_nametable_round_trip(names: Seq<Seq<u8>>)
    requires
        nametable_encodable(names),
        forall|j: int| 0 <= j < names.len() ==> nul_free(#[trigger] names[j]),
    ensures
        nametable_decodable(nametable_encode(names)),
        nametable_decode(nametable_encode(names)) == names,
{
    reveal(nametable_encode);
    let k = names.len() as int;
    let e = nametable_encode(names);
    let offs = offset_pieces(names);
    lemma_le16(k);
    assert forall|j: int| 0 <= j < k implies (#[trigger] offs[j]).len() == 2 by {
        lemma_le16(name_offset(names, j));
    }
    lemma_concat_uniform(offs, 2, 0);
    assert(offs =~= Seq::new(k as nat, |j: int| le16(2 + 2 * k + start_of(terminated(names), j))));
    assert(e == le16(k) + concat(offs) + concat(terminated(names)));
    assert(e.subrange(0, 2) =~= le16(k));
    assert(le16(k).subrange(0, 2) =~= le16(k));
    lemma_read16(e, 0, le16(k), 0, k);
    assert(nt_count(e) == k);
    assert forall|i: int| 0 <= i < nt_count(e) implies #[trigger] nt_entry_ok(e, i) by {
        lemma_nametable_entry(names, i);
    }
    assert forall|i: int| 0 <= i < k implies nametable_decode(e)[i] == names[i] by {
        lemma_nametable_entry(names, i);
    }
    assert(nametable_decode(e) =~= names);
}

/// The names of a PKAC's table: its files' names, then the extra ones.
pub open spec fn all_names(files: Seq<(Seq<u8>, Seq<u8>)>, extra: Seq<Seq<u8>>) -> Seq<Seq<u8>> {
    files.map_values(|q: (Seq<u8>, Seq<u8>)| q.0) + extra
}

/// The buckets written for a PKAC (its files, then its extra names, in the
/// name table) read back as the same files with the same names, and the
/// same extra names.
pub proof fn lemma_pkac_round_trip(files: Seq<(Seq<u8>, Seq<u8>)>, extra: Seq<Seq<u8>>)
    requires
        files.len() > 0,
        nametable_encodable(all_names(files, extra)),
        forall|j: int|
            0 <= j < all_names(files, extra).len() ==> nul_free(#[trigger] all_names(files, extra)[j]),
    ensures
        ({
            let names = all_names(files, extra);
            let gs = pkac_groups(nametable_encode(names), files);
            &&& pkac_readable(gs)
            &&& pkac_files(gs) == files
            &&& pkac_extra(gs) == extra
        }),
{
    let names = all_names(files, extra);
    let gs = pkac_groups(nametable_encode(names), files);
    lemma_nametable_round_trip(names);
    assert(gs[0][0] == nametable_encode(names));
    assert(gs[1].len() == files.len());
    assert(pkac_files(gs) =~= files);
    assert(pkac_extra(gs) =~= extra);
}

} // verus!
