//! The bucket archive shared by HPAK, PK2D and PKAC: eight ordered buckets
//! of byte blobs, located through a table of info-block offsets.
use vstd::prelude::*;
use crate::error::ArchiveError;
use crate::le::{copy_range, le32, push_bytes, push_u32, read_u32, u32_at};
use crate::seq_util::{
    concat, lemma_concat_new_step, lemma_concat_piece, lemma_start_le_total, lemma_start_monotone,
    start_of,
};

verus! {

/// Number of buckets in every bucket archive.
pub const BUCKETS: usize = 8;

/// Marks an absent bucket in the info-offset table.
pub const ABSENT: u32 = 0xFFFF_FFFF;

/// The eight buckets of a bucket archive, in order.
pub struct GroupedFiles {
    pub buckets: Vec<Vec<Vec<u8>>>,
}

impl View for GroupedFiles {
    type V = Seq<Seq<Seq<u8>>>;

    open spec fn view(&self) -> Seq<Seq<Seq<u8>>> {
        self.buckets@.map_values(|b: Vec<Vec<u8>>| b@.map_values(|f: Vec<u8>| f@))
    }
}

// ---- decoding ----

pub open spec fn info_at(s: Seq<u8>, b: int) -> int {
    u32_at(s, 8 + 4 * b)
}

pub open spec fn count_in(s: Seq<u8>, b: int) -> int {
    u32_at(s, info_at(s, b))
}

pub open spec fn blob_off(s: Seq<u8>, b: int, k: int) -> int {
    u32_at(s, info_at(s, b) + 4 + 4 * k)
}

pub open spec fn blob_len(s: Seq<u8>, b: int, k: int) -> int {
    u32_at(s, info_at(s, b) + 4 + 4 * count_in(s, b) + 4 * k)
}

pub open spec fn blob_fits(s: Seq<u8>, b: int, k: int) -> bool {
    blob_off(s, b, k) + blob_len(s, b, k) <= s.len()
}

/// Bucket `b` is absent, or its info block and every blob it names lie
/// inside `s`.
pub open spec fn bucket_fits(s: Seq<u8>, b: int) -> bool {
    info_at(s, b) == ABSENT || (info_at(s, b) + 4 <= s.len() && info_at(s, b) + 4 + 8 * count_in(
        s,
        b,
    ) <= s.len() && forall|k: int| 0 <= k < count_in(s, b) ==> #[trigger] blob_fits(s, b, k))
}

/// Whether `s` decodes as a bucket archive.
pub open spec fn groups_decodable(s: Seq<u8>) -> bool {
    s.len() >= 40 && forall|b: int| 0 <= b < 8 ==> #[trigger] bucket_fits(s, b)
}

pub open spec fn bucket_of(s: Seq<u8>, b: int) -> Seq<Seq<u8>> {
    if info_at(s, b) == ABSENT {
        Seq::empty()
    } else {
        Seq::new(
            count_in(s, b) as nat,
            |k: int| s.subrange(blob_off(s, b, k), blob_off(s, b, k) + blob_len(s, b, k)),
        )
    }
}

/// The buckets that `s` decodes to.
pub open spec fn groups_decode(s: Seq<u8>) -> Seq<Seq<Seq<u8>>> {
    Seq::new(8, |b: int| bucket_of(s, b))
}

// ---- encoding ----

/// Length of the info block of a bucket: nothing for an empty bucket, else
/// the count and the two tables.
pub open spec fn info_len(g: Seq<Seq<u8>>) -> int {
    if g.len() == 0 {
        0
    } else {
        4 + 8 * g.len() as int
    }
}

/// Total length of the info blocks of the buckets before `b`.
pub open spec fn infos_before(gs: Seq<Seq<Seq<u8>>>, b: int) -> int
    decreases b,
{
    if b <= 0 {
        0
    } else {
        infos_before(gs, b - 1) + info_len(gs[b - 1])
    }
}

/// Where the blobs begin: after the prefix, the table and all info blocks.
pub open spec fn data_start(gs: Seq<Seq<Seq<u8>>>) -> int {
    40 + infos_before(gs, 8)
}

pub open spec fn bucket_blobs(gs: Seq<Seq<Seq<u8>>>) -> Seq<Seq<u8>> {
    Seq::new(8, |b: int| concat(gs[b]))
}

pub open spec fn blobs_view(g: Vec<Vec<u8>>) -> Seq<Seq<u8>> {
    g@.map_values(|f: Vec<u8>| f@)
}

pub open spec fn table_entry(gs: Seq<Seq<Seq<u8>>>, b: int) -> Seq<u8> {
    if gs[b].len() == 0 {
        le32(ABSENT as int)
    } else {
        le32(40 + infos_before(gs, b))
    }
}

/// The info block of a bucket whose first blob lands at `base`.
pub open spec fn info_block_of(g: Seq<Seq<u8>>, base: int) -> Seq<u8> {
    if g.len() == 0 {
        Seq::empty()
    } else {
        le32(g.len() as int) + concat(Seq::new(g.len(), |k: int| le32(base + start_of(g, k))))
            + concat(Seq::new(g.len(), |k: int| le32(g[k].len() as int)))
    }
}

pub open spec fn info_block(gs: Seq<Seq<Seq<u8>>>, b: int) -> Seq<u8> {
    info_block_of(gs[b], data_start(gs) + start_of(bucket_blobs(gs), b))
}

/// The bytes of a bucket archive with the given magic word: magic, four
/// reserved zero bytes, the info-offset table, the info blocks of the
/// non-empty buckets, then every blob in bucket order.
#[verifier::opaque]
pub open spec fn groups_encode(magic: u32, gs: Seq<Seq<Seq<u8>>>) -> Seq<u8> {
    le32(magic as int) + le32(0) + concat(Seq::new(8, |b: int| table_entry(gs, b))) + concat(
        Seq::new(8, |b: int| info_block(gs, b)),
    ) + concat(bucket_blobs(gs))
}

/// Whether the encoding is at most 2^32 - 1 bytes long, so that every
/// offset and length fits in 32 bits.
pub open spec fn groups_encodable(gs: Seq<Seq<Seq<u8>>>) -> bool {
    gs.len() == 8 && data_start(gs) + concat(bucket_blobs(gs)).len() <= 0xFFFF_FFFF
}

impl GroupedFiles {
    /// Decodes the buckets of a bucket archive (the magic word is not
    /// checked). Fails with `MalformedContainer` exactly when an info block
    /// or a blob reaches past the end of `buf`.
    pub fn parse(buf: &[u8]) -> (r: Result<GroupedFiles, ArchiveError>)
        ensures
            match r {
                Ok(g) => groups_decodable(buf@) && g@ == groups_decode(buf@),
                Err(e) => !groups_decodable(buf@) && e == ArchiveError::MalformedContainer,
            },
    {
        let total = buf.len();
        if total < 40 {
            return Err(ArchiveError::MalformedContainer);
        }
        let mut buckets: Vec<Vec<Vec<u8>>> = Vec::new();
        let mut b: usize = 0;
        while b < BUCKETS
            invariant
                b <= 8,
                total == buf@.len(),
                total >= 40,
                buckets@.len() == b,
                forall|j: int| 0 <= j < b ==> #[trigger] bucket_fits(buf@, j),
                forall|j: int|
                    0 <= j < b ==> (#[trigger] buckets@[j])@.map_values(|f: Vec<u8>| f@)
                        == bucket_of(buf@, j),
            decreases 8 - b,
        {
            let info = read_u32(buf, 8 + 4 * b);
            let mut files: Vec<Vec<u8>> = Vec::new();
            if info != ABSENT {
                let info = info as usize;
                if info > total - 4 {
                    assert(!bucket_fits(buf@, b as int));
                    return Err(ArchiveError::MalformedContainer);
                }
                let n = read_u32(buf, info) as usize;
                if (n as u64) * 8 + (info as u64) + 4 > total as u64 {
                    assert(!bucket_fits(buf@, b as int));
                    return Err(ArchiveError::MalformedContainer);
                }
                let mut k: usize = 0;
                while k < n
                    invariant
                        k <= n,
                        b < 8,
                        total == buf@.len(),
                        info == info_at(buf@, b as int),
                        info_at(buf@, b as int) != ABSENT,
                        info + 4 + 8 * n <= total,
                        n == count_in(buf@, b as int),
                        files@.map_values(|f: Vec<u8>| f@) =~= Seq::new(
                            k as nat,
                            |j: int|
                                buf@.subrange(
                                    blob_off(buf@, b as int, j),
                                    blob_off(buf@, b as int, j) + blob_len(buf@, b as int, j),
                                ),
                        ),
                        forall|j: int| 0 <= j < k ==> #[trigger] blob_fits(buf@, b as int, j),
                    decreases n - k,
                {
                    let off = read_u32(buf, info + 4 + 4 * k) as usize;
                    let len = read_u32(buf, info + 4 + 4 * n + 4 * k) as usize;
                    if off > total || len > total - off {
                        assert(!blob_fits(buf@, b as int, k as int));
                        assert(!bucket_fits(buf@, b as int));
                        return Err(ArchiveError::MalformedContainer);
                    }
                    let blob = copy_range(buf, off, len);
                    let ghost prev = files@;
                    files.push(blob);
                    assert(files@.map_values(|f: Vec<u8>| f@) =~= prev.map_values(
                        |f: Vec<u8>| f@,
                    ).push(blob@));
                    k = k + 1;
                }
            }
            assert(files@.map_values(|f: Vec<u8>| f@) =~= bucket_of(buf@, b as int));
            buckets.push(files);
            b = b + 1;
        }
        let r = GroupedFiles { buckets };
        assert(r@ =~= groups_decode(buf@));
        Ok(r)
    }

    /// Encodes the buckets behind the given magic word. Fails with
    /// `EncodingInconsistency` exactly when an offset would not fit in 32
    /// bits.
    pub fn to_bytes(&self, magic: u32) -> (r: Result<Vec<u8>, ArchiveError>)
        requires
            self@.len() == 8,
        ensures
            match r {
                Ok(b) => groups_encodable(self@) && b@ == groups_encode(magic, self@),
                Err(e) => !groups_encodable(self@) && e == ArchiveError::EncodingInconsistency,
            },
    {
        let ghost gs = self@;
        let ghost bb = bucket_blobs(gs);
        let data_start_x = match self.measure() {
            Some(d) => d,
            None => {
                return Err(ArchiveError::EncodingInconsistency);
            },
        };
        let mut buf: Vec<u8> = Vec::new();
        push_u32(&mut buf, magic);
        push_u32(&mut buf, 0);
        let ghost after_prefix = buf@;
        // the info-offset table
        let ghost ft = |j: int| table_entry(gs, j);
        let mut acc: u64 = 0;
        let mut b: usize = 0;
        while b < BUCKETS
            invariant
                b <= 8,
                gs == self@,
                gs.len() == 8,
                acc == infos_before(gs, b as int),
                infos_before(gs, 8) <= 0xFFFF_FFFF - 40,
                ft == (|j: int| table_entry(gs, j)),
                buf@ == after_prefix + concat(Seq::new(b as nat, ft)),
            decreases 8 - b,
        {
            let g = &self.buckets[b];
            assert(gs[b as int] == blobs_view(*g));
            proof {
                lemma_infos_before_monotone(gs, b + 1, 8);
            }
            if g.len() == 0 {
                push_u32(&mut buf, ABSENT);
            } else {
                push_u32(&mut buf, (40 + acc) as u32);
                acc = acc + 4 + 8 * g.len() as u64;
            }
            proof {
                lemma_concat_new_step(ft, b as int);
            }
            b = b + 1;
        }
        let ghost after_table = buf@;
        // the info blocks
        let ghost fi = |j: int| info_block(gs, j);
        let mut bstart: u64 = data_start_x;
        let mut b: usize = 0;
        while b < BUCKETS
            invariant
                b <= 8,
                gs == self@,
                gs.len() == 8,
                bb == bucket_blobs(gs),
                data_start(gs) + concat(bb).len() <= 0xFFFF_FFFF,
                bstart == data_start(gs) + start_of(bb, b as int),
                fi == (|j: int| info_block(gs, j)),
                buf@ == after_table + concat(Seq::new(b as nat, fi)),
            decreases 8 - b,
        {
            let g = &self.buckets[b];
            assert(gs[b as int] == blobs_view(*g));
            assert(bb[b as int] == concat(gs[b as int]));
            proof {
                lemma_concat_piece(bb, b as int);
                lemma_start_le_total(bb, b + 1);
                lemma_infos_before_monotone(gs, b + 1, 8);
                lemma_infos_before_monotone(gs, 0, b as int);
            }
            assert(infos_before(gs, b + 1) == infos_before(gs, b as int) + info_len(gs[b as int]));
            push_info_block(&mut buf, g, bstart);
            proof {
                lemma_concat_new_step(fi, b as int);
            }
            bstart = bstart + concat_len(g);
            b = b + 1;
        }
        let ghost after_infos = buf@;
        // the blobs
        let mut b: usize = 0;
        while b < BUCKETS
            invariant
                b <= 8,
                gs == self@,
                gs.len() == 8,
                bb == bucket_blobs(gs),
                buf@ == after_infos + concat(bb.take(b as int)),
            decreases 8 - b,
        {
            let g = &self.buckets[b];
            assert(gs[b as int] == blobs_view(*g));
            assert(bb[b as int] == concat(gs[b as int]));
            push_blobs(&mut buf, g);
            proof {
                lemma_concat_piece(bb, b as int);
            }
            assert(buf@ =~= after_infos + concat(bb.take(b + 1)));
            b = b + 1;
        }
        assert(bb.take(8) =~= bb);
        reveal(groups_encode);
        assert(buf@ =~= groups_encode(magic, gs));
        Ok(buf)
    }

    /// Where the blobs begin, when every offset of the encoding fits in 32
    /// bits.
    fn measure(&self) -> (r: Option<u64>)
        requires
            self@.len() == 8,
        ensures
            match r {
                Some(d) => groups_encodable(self@) && d == data_start(self@),
                None => !groups_encodable(self@),
            },
    {
        let ghost gs = self@;
        let ghost bb = bucket_blobs(gs);
        let mut info_acc: u64 = 0;
        let mut data_acc: u64 = 0;
        proof {
            lemma_infos_before_monotone(gs, 0, 8);
        }
        let mut b: usize = 0;
        while b < BUCKETS
            invariant
                b <= 8,
                gs == self@,
                gs.len() == 8,
                bb == bucket_blobs(gs),
                infos_before(gs, 8) >= 0,
                info_acc == infos_before(gs, b as int),
                info_acc <= 0xFFFF_FFFF,
                data_acc == start_of(bb, b as int),
                data_acc <= 0xFFFF_FFFF,
            decreases 8 - b,
        {
            let g = &self.buckets[b];
            assert(gs[b as int] == blobs_view(*g));
            assert(bb[b as int] == concat(gs[b as int]));
            assert(infos_before(gs, b + 1) == infos_before(gs, b as int) + info_len(gs[b as int]));
            proof {
                lemma_infos_before_monotone(gs, b + 1, 8);
                lemma_concat_piece(bb, b as int);
                lemma_start_le_total(bb, b + 1);
            }
            if g.len() > 0x2000_0000 {
                assert(info_len(gs[b as int]) > 0xFFFF_FFFF);
                assert(infos_before(gs, 8) >= infos_before(gs, b + 1));
                assert(data_start(gs) > 0xFFFF_FFFF);
                return None;
            }
            if g.len() > 0 {
                info_acc = info_acc + 4 + 8 * g.len() as u64;
            }
            if info_acc > 0xFFFF_FFFF {
                return None;
            }
            let total = match sum_lengths(g, 0xFFFF_FFFF - data_acc) {
                Some(t) => t,
                None => {
                    return None;
                },
            };
            data_acc = data_acc + total;
            b = b + 1;
        }
        proof {
            lemma_start_le_total(bb, 8);
        }
        if 40 + info_acc + data_acc > 0xFFFF_FFFF {
            return None;
        }
        Some(40 + info_acc)
    }
}

/// The total length of the blobs of one bucket, when it is at most `limit`.
fn sum_lengths(g: &Vec<Vec<u8>>, limit: u64) -> (r: Option<u64>)
    ensures
        match r {
            Some(t) => t == concat(blobs_view(*g)).len() && t <= limit,
            None => concat(blobs_view(*g)).len() > limit,
        },
{
    let ghost ss = blobs_view(*g);
    let mut acc: u64 = 0;
    let mut k: usize = 0;
    while k < g.len()
        invariant
            k <= g@.len(),
            ss == blobs_view(*g),
            acc == start_of(ss, k as int),
            acc <= limit,
        decreases g@.len() - k,
    {
        assert(ss[k as int] == g@[k as int]@);
        proof {
            lemma_concat_piece(ss, k as int);
            lemma_start_le_total(ss, k + 1);
        }
        if g[k].len() as u64 > limit - acc {
            return None;
        }
        acc = acc + g[k].len() as u64;
        k = k + 1;
    }
    proof {
        lemma_start_le_total(ss, g@.len() as int);
    }
    Some(acc)
}

/// Appends the info block of a bucket whose first blob lands at `base`.
fn push_info_block(buf: &mut Vec<u8>, g: &Vec<Vec<u8>>, base: u64)
    requires
        g@.len() <= 0x2000_0000,
        base + concat(blobs_view(*g)).len() <= 0xFFFF_FFFF,
    ensures
        final(buf)@ == old(buf)@ + info_block_of(blobs_view(*g), base as int),
{
    let ghost ss = blobs_view(*g);
    let ghost q = buf@;
    let n = g.len();
    if n == 0 {
        assert(buf@ =~= q + info_block_of(ss, base as int));
        return;
    }
    proof {
        lemma_start_le_total(ss, 0);
    }
    push_u32(buf, n as u32);
    let ghost fo = |k: int| le32(base + start_of(ss, k));
    let mut kstart: u64 = 0;
    let mut k: usize = 0;
    while k < n
        invariant
            k <= n,
            n == g@.len(),
            ss == blobs_view(*g),
            base + concat(ss).len() <= 0xFFFF_FFFF,
            kstart == start_of(ss, k as int),
            fo == (|k: int| le32(base + start_of(ss, k))),
            buf@ == q + le32(n as int) + concat(Seq::new(k as nat, fo)),
        decreases n - k,
    {
        assert(ss[k as int] == g@[k as int]@);
        proof {
            lemma_concat_piece(ss, k as int);
            lemma_start_le_total(ss, k + 1);
            lemma_start_le_total(ss, k as int);
            lemma_concat_new_step(fo, k as int);
        }
        push_u32(buf, (base + kstart) as u32);
        kstart = kstart + g[k].len() as u64;
        k = k + 1;
    }
    let ghost q2 = buf@;
    let ghost fl = |k: int| le32(ss[k].len() as int);
    let mut k: usize = 0;
    while k < n
        invariant
            k <= n,
            n == g@.len(),
            ss == blobs_view(*g),
            base + concat(ss).len() <= 0xFFFF_FFFF,
            fl == (|k: int| le32(ss[k].len() as int)),
            buf@ == q2 + concat(Seq::new(k as nat, fl)),
        decreases n - k,
    {
        assert(ss[k as int] == g@[k as int]@);
        proof {
            lemma_concat_piece(ss, k as int);
            lemma_concat_new_step(fl, k as int);
        }
        push_u32(buf, g[k].len() as u32);
        k = k + 1;
    }
    assert(buf@ =~= q + info_block_of(ss, base as int));
}

/// Appends every blob of a bucket.
fn push_blobs(buf: &mut Vec<u8>, g: &Vec<Vec<u8>>)
    ensures
        final(buf)@ == old(buf)@ + concat(blobs_view(*g)),
{
    let ghost ss = blobs_view(*g);
    let ghost q = buf@;
    let mut k: usize = 0;
    while k < g.len()
        invariant
            k <= g@.len(),
            ss == blobs_view(*g),
            buf@ == q + concat(ss.take(k as int)),
        decreases g@.len() - k,
    {
        assert(ss[k as int] == g@[k as int]@);
        proof {
            lemma_concat_piece(ss, k as int);
        }
        push_bytes(buf, g[k].as_slice());
        assert(buf@ =~= q + concat(ss.take(k + 1)));
        k = k + 1;
    }
    assert(ss.take(g@.len() as int) =~= ss);
}

/// Total length of the blobs of one bucket.
fn concat_len(g: &Vec<Vec<u8>>) -> (r: u64)
    requires
        concat(blobs_view(*g)).len() <= 0xFFFF_FFFF,
    ensures
        r == concat(blobs_view(*g)).len(),
{
    let ghost ss = blobs_view(*g);
    let mut acc: u64 = 0;
    let mut k: usize = 0;
    while k < g.len()
        invariant
            k <= g@.len(),
            ss == blobs_view(*g),
            concat(ss).len() <= 0xFFFF_FFFF,
            acc == start_of(ss, k as int),
        decreases g@.len() - k,
    {
        assert(ss[k as int] == g@[k as int]@);
        proof {
            lemma_concat_piece(ss, k as int);
            lemma_start_le_total(ss, k + 1);
        }
        acc = acc + g[k].len() as u64;
        k = k + 1;
    }
    proof {
        lemma_start_le_total(ss, g@.len() as int);
    }
    acc
}

pub proof fn lemma_infos_before_monotone(gs: Seq<Seq<Seq<u8>>>, a: int, b: int)
    requires
        0 <= a <= b,
    ensures
        infos_before(gs, a) <= infos_before(gs, b),
    decreases b - a,
{
    if a < b {
        lemma_infos_before_monotone(gs, a, b - 1);
    }
}

} // verus!
