//! Filling the metadata tree through single-use write capabilities.
//!
//! The tree is kept as an arena of slots addressed by index. A slot starts
//! unwritten; the holder of its capability writes one node into it, and gets
//! back one fresh capability for each child position of that node. Once
//! every slot is written the arena assembles the recursive tree.
use vstd::prelude::*;
use crate::error::ArchiveError;
use crate::meta::{
    DirectoryMeta, FileMeta, HPAKMeta, LZMeta, NamedP2Meta, P2Meta, P2SubfileMeta, PK2DMeta,
    PKACMeta,
};

verus! {

/// The child positions of a node, in order: directory entries, subfiles,
/// the files of each bucket in bucket order, or what a stream decompresses
/// to.
pub open spec fn children(m: FileMeta) -> Seq<FileMeta> {
    match m {
        FileMeta::Directory(d) => d.files@.map_values(|e: (String, FileMeta)| e.1),
        FileMeta::P2(p) => p.files@.map_values(|e: P2SubfileMeta| e.file),
        FileMeta::NamedP2(p) => p.files@.map_values(|e: (String, P2SubfileMeta)| e.1.file),
        FileMeta::HPAK(h) => h.nsbca_files@ + h.nsbva_files@ + h.nsbma_files@ + h.nsbtp_files@ + h.nsbta_files@ + h.unknown5_files@ + h.unknown6_files@ + h.nsbmd_files@,
        FileMeta::PK2D(h) => h.nclr_files@ + h.ncgr_files@ + h.unknown2_files@ + h.ncer_files@ + h.unknown4_files@ + h.nanr_files@ + h.nscr_files@ + h.unknown7_files@,
        FileMeta::PKAC(p) => p.files@.map_values(|e: (String, FileMeta)| e.1),
        FileMeta::LZ(l) => seq![*l.file],
        _ => Seq::empty(),
    }
}

/// Whether two nodes agree on everything but what their child positions
/// hold.
pub open spec fn same_node(a: FileMeta, b: FileMeta) -> bool {
    match (a, b) {
        (FileMeta::Directory(x), FileMeta::Directory(y)) => x.unpacked_name == y.unpacked_name
            && x.files@.len() == y.files@.len() && forall|i: int|
            0 <= i < x.files@.len() ==> (#[trigger] x.files@[i]).0 == y.files@[i].0,
        (FileMeta::P2(x), FileMeta::P2(y)) => x.unpacked_name == y.unpacked_name
            && x.files@.len() == y.files@.len() && forall|i: int|
            0 <= i < x.files@.len() ==> (#[trigger] x.files@[i]).compressed == y.files@[i].compressed,
        (FileMeta::NamedP2(x), FileMeta::NamedP2(y)) => x.unpacked_name == y.unpacked_name
            && x.files@.len() == y.files@.len() && forall|i: int|
            0 <= i < x.files@.len() ==> (#[trigger] x.files@[i]).0 == y.files@[i].0
                && x.files@[i].1.compressed == y.files@[i].1.compressed,
        (FileMeta::HPAK(x), FileMeta::HPAK(y)) => x.unpacked_name == y.unpacked_name
            && x.nsbca_files@.len() == y.nsbca_files@.len()
            && x.nsbva_files@.len() == y.nsbva_files@.len()
            && x.nsbma_files@.len() == y.nsbma_files@.len()
            && x.nsbtp_files@.len() == y.nsbtp_files@.len()
            && x.nsbta_files@.len() == y.nsbta_files@.len()
            && x.unknown5_files@.len() == y.unknown5_files@.len()
            && x.unknown6_files@.len() == y.unknown6_files@.len()
            && x.nsbmd_files@.len() == y.nsbmd_files@.len(),
        (FileMeta::PK2D(x), FileMeta::PK2D(y)) => x.unpacked_name == y.unpacked_name
            && x.nclr_files@.len() == y.nclr_files@.len()
            && x.ncgr_files@.len() == y.ncgr_files@.len()
            && x.unknown2_files@.len() == y.unknown2_files@.len()
            && x.ncer_files@.len() == y.ncer_files@.len()
            && x.unknown4_files@.len() == y.unknown4_files@.len()
            && x.nanr_files@.len() == y.nanr_files@.len()
            && x.nscr_files@.len() == y.nscr_files@.len()
            && x.unknown7_files@.len() == y.unknown7_files@.len(),
        (FileMeta::PKAC(x), FileMeta::PKAC(y)) => x.unpacked_name == y.unpacked_name
            && x.extra_names@ == y.extra_names@ && x.files@.len() == y.files@.len() && forall|i: int|
            0 <= i < x.files@.len() ==> (#[trigger] x.files@[i]).0 == y.files@[i].0,
        (FileMeta::LZ(x), FileMeta::LZ(y)) => x.lz_type == y.lz_type,
        (FileMeta::OtherFile(x), FileMeta::OtherFile(y)) => x == y,
        (FileMeta::EmptyFile, FileMeta::EmptyFile) => true,
        (FileMeta::Uninitialized, FileMeta::Uninitialized) => true,
        _ => false,
    }
}

/// The number of child positions of a node, if it fits in a `usize`.
pub fn child_count(m: &FileMeta) -> (r: Option<usize>)
    ensures
        r matches Some(c) ==> c == children(*m).len(),
        r is None ==> children(*m).len() > usize::MAX,
{
    match m {
        FileMeta::Directory(d) => Some(d.files.len()),
        FileMeta::P2(p) => Some(p.files.len()),
        FileMeta::NamedP2(p) => Some(p.files.len()),
        FileMeta::HPAK(h) => {
            let lens: [usize; 8] = [h.nsbca_files.len(), h.nsbva_files.len(), h.nsbma_files.len(), h.nsbtp_files.len(), h.nsbta_files.len(), h.unknown5_files.len(), h.unknown6_files.len(), h.nsbmd_files.len()];
            sum8(&lens)
        },
        FileMeta::PK2D(h) => {
            let lens: [usize; 8] = [h.nclr_files.len(), h.ncgr_files.len(), h.unknown2_files.len(), h.ncer_files.len(), h.unknown4_files.len(), h.nanr_files.len(), h.nscr_files.len(), h.unknown7_files.len()];
            sum8(&lens)
        },
        FileMeta::PKAC(p) => Some(p.files.len()),
        FileMeta::LZ(_) => Some(1),
        _ => Some(0),
    }
}

pub open spec fn sum_of(s: Seq<usize>) -> int
    decreases s.len(),
{
    if s.len() == 0 {
        0
    } else {
        sum_of(s.drop_last()) + s.last()
    }
}

/// The sum of eight lengths, if it fits.
fn sum8(lens: &[usize; 8]) -> (r: Option<usize>)
    ensures
        r matches Some(c) ==> c == lens@[0] + lens@[1] + lens@[2] + lens@[3] + lens@[4] + lens@[5]
            + lens@[6] + lens@[7],
        r is None ==> lens@[0] + lens@[1] + lens@[2] + lens@[3] + lens@[4] + lens@[5] + lens@[6]
            + lens@[7] > usize::MAX,
{
    proof {
        lemma_sum8(lens@);
    }
    let mut acc: usize = 0;
    let mut b: usize = 0;
    while b < 8
        invariant
            b <= 8,
            lens@.len() == 8,
            acc == sum_of(lens@.take(b as int)),
            sum_of(lens@.take(8)) == lens@[0] + lens@[1] + lens@[2] + lens@[3] + lens@[4] + lens@[5]
                + lens@[6] + lens@[7],
        decreases 8 - b,
    {
        assert(lens@.take(b + 1).drop_last() =~= lens@.take(b as int));
        if lens[b] > usize::MAX - acc {
            proof {
                lemma_sum_grows(lens@, b + 1, 8);
            }
            return None;
        }
        acc = acc + lens[b];
        b = b + 1;
    }
    Some(acc)
}

proof fn lemma_sum_grows(s: Seq<usize>, a: int, b: int)
    requires
        0 <= a <= b <= s.len(),
    ensures
        sum_of(s.take(a)) <= sum_of(s.take(b)),
    decreases b - a,
{
    if a < b {
        lemma_sum_grows(s, a, b - 1);
        assert(s.take(b).drop_last() =~= s.take(b - 1));
    }
}

proof fn lemma_sum8(s: Seq<usize>)
    requires
        s.len() == 8,
    ensures
        sum_of(s.take(8)) == s[0] + s[1] + s[2] + s[3] + s[4] + s[5] + s[6] + s[7],
{
    assert(sum_of(s.take(0)) == 0);
    assert(s.take(1).drop_last() =~= s.take(0));
    assert(sum_of(s.take(1)) == sum_of(s.take(0)) + s[0]);
    assert(s.take(2).drop_last() =~= s.take(1));
    assert(sum_of(s.take(2)) == sum_of(s.take(1)) + s[1]);
    assert(s.take(3).drop_last() =~= s.take(2));
    assert(sum_of(s.take(3)) == sum_of(s.take(2)) + s[2]);
    assert(s.take(4).drop_last() =~= s.take(3));
    assert(sum_of(s.take(4)) == sum_of(s.take(3)) + s[3]);
    assert(s.take(5).drop_last() =~= s.take(4));
    assert(sum_of(s.take(5)) == sum_of(s.take(4)) + s[4]);
    assert(s.take(6).drop_last() =~= s.take(5));
    assert(sum_of(s.take(6)) == sum_of(s.take(5)) + s[5]);
    assert(s.take(7).drop_last() =~= s.take(6));
    assert(sum_of(s.take(7)) == sum_of(s.take(6)) + s[6]);
    assert(s.take(8).drop_last() =~= s.take(7));
    assert(sum_of(s.take(8)) == sum_of(s.take(7)) + s[7]);
}

/// The right to write one slot of a `MetaTree`, once. It cannot be copied,
/// and writing consumes it.
pub struct MetaRef {
    slot: usize,
}

impl MetaRef {
    /// The slot this capability writes.
    pub closed spec fn id(&self) -> int {
        self.slot as int
    }

    /// The slot this capability writes.
    pub fn slot(&self) -> (r: usize)
        ensures
            r == self.id(),
    {
        self.slot
    }

    /// Writes `node` into the slot this capability is for, and returns one
    /// capability per child position of `node`, in order. See
    /// `MetaTree::write`.
    pub fn submit(self, tree: &mut MetaTree, node: FileMeta) -> (r: Result<Vec<MetaRef>, ArchiveError>)
        requires
            old(tree).wf(),
        ensures
            final(tree).wf(),
            MetaTree::write_post(*old(tree), *final(tree), self.id(), node, r),
    {
        tree.write(self, node)
    }
}

/// The metadata tree under construction.
pub struct MetaTree {
    slots: Vec<FileMeta>,
    kids: Vec<Vec<usize>>,
}

/// Whether `t` is the tree rooted at slot `i`: it agrees with the node
/// written there, and each of its child positions holds the tree rooted at
/// the corresponding child slot.
pub open spec fn assembled(slots: Seq<FileMeta>, kids: Seq<Seq<usize>>, i: int, t: FileMeta) -> bool
    decreases slots.len() - i,
{
    &&& 0 <= i < slots.len()
    &&& same_node(slots[i], t)
    &&& children(t).len() == kids[i].len()
    &&& forall|j: int|
        0 <= j < kids[i].len() ==> i < #[trigger] kids[i][j] < slots.len() && assembled(
            slots,
            kids,
            kids[i][j] as int,
            children(t)[j],
        )
}

impl MetaTree {
    pub closed spec fn slots_view(&self) -> Seq<FileMeta> {
        self.slots@
    }

    pub closed spec fn kids_view(&self) -> Seq<Seq<usize>> {
        self.kids@.map_values(|k: Vec<usize>| k@)
    }

    /// Each slot has one child slot per child position of its node, and
    /// child slots come after their parent.
    pub open spec fn wf(&self) -> bool {
        &&& self.slots_view().len() == self.kids_view().len()
        &&& forall|i: int|
            0 <= i < self.slots_view().len() ==> (#[trigger] self.kids_view()[i]).len() == children(
                self.slots_view()[i],
            ).len()
        &&& forall|i: int, j: int|
            0 <= i < self.slots_view().len() && 0 <= j < self.kids_view()[i].len() ==> i
                < #[trigger] self.kids_view()[i][j] < self.slots_view().len()
    }

    /// Whether every slot has been written.
    pub open spec fn complete(&self) -> bool {
        forall|i: int| 0 <= i < self.slots_view().len() ==> !(#[trigger] self.slots_view()[i] is Uninitialized)
    }

    /// What `write` promises, for the capability of slot `id`.
    pub open spec fn write_post(
        old: MetaTree,
        new: MetaTree,
        id: int,
        node: FileMeta,
        r: Result<Vec<MetaRef>, ArchiveError>,
    ) -> bool {
        let n = old.slots_view().len();
        let c = children(node).len();
        match r {
            Ok(refs) => {
                &&& 0 <= id < n
                &&& old.slots_view()[id] is Uninitialized
                &&& !(node is Uninitialized)
                &&& new.slots_view() == old.slots_view().update(id, node) + Seq::new(
                    c,
                    |j: int| FileMeta::Uninitialized,
                )
                &&& new.kids_view() == old.kids_view().update(
                    id,
                    Seq::new(c, |j: int| (n + j) as usize),
                ) + Seq::new(c, |j: int| Seq::<usize>::empty())
                &&& refs@.len() == c
                &&& forall|j: int| 0 <= j < c ==> (#[trigger] refs@[j]).id() == n + j
            },
            Err(e) => {
                &&& e == ArchiveError::EncodingInconsistency
                &&& new == old
                &&& (id >= n || !(old.slots_view()[id] is Uninitialized) || node is Uninitialized
                    || n + c > usize::MAX)
            },
        }
    }

    /// A tree of one unwritten slot, the root, and the capability to write it.
    pub fn new() -> (r: (MetaTree, MetaRef))
        ensures
            r.0.wf(),
            r.0.slots_view() == seq![FileMeta::Uninitialized],
            r.1.id() == 0,
    {
        let mut slots: Vec<FileMeta> = Vec::new();
        slots.push(FileMeta::Uninitialized);
        let mut kids: Vec<Vec<usize>> = Vec::new();
        kids.push(Vec::new());
        let t = MetaTree { slots, kids };
        assert(t.slots_view() =~= seq![FileMeta::Uninitialized]);
        assert(t.kids_view()[0] =~= Seq::<usize>::empty());
        (t, MetaRef { slot: 0 })
    }

    /// The number of slots.
    pub fn len(&self) -> (r: usize)
        ensures
            r == self.slots_view().len(),
    {
        self.slots.len()
    }

    /// Writes `node` into the slot of `r`. Fails with
    /// `EncodingInconsistency`, changing nothing, when that slot was already
    /// written, when `node` is itself unwritten, or when the new slots would
    /// not fit. On success the tree gains one unwritten slot per child
    /// position of `node`, and their capabilities are returned in order.
    pub fn write(&mut self, r: MetaRef, node: FileMeta) -> (res: Result<Vec<MetaRef>, ArchiveError>)
        requires
            old(self).wf(),
        ensures
            final(self).wf(),
            MetaTree::write_post(*old(self), *final(self), r.id(), node, res),
    {
        let n = self.slots.len();
        if r.slot >= n {
            return Err(ArchiveError::EncodingInconsistency);
        }
        match &self.slots[r.slot] {
            FileMeta::Uninitialized => {},
            _ => {
                return Err(ArchiveError::EncodingInconsistency);
            },
        }
        match &node {
            FileMeta::Uninitialized => {
                return Err(ArchiveError::EncodingInconsistency);
            },
            _ => {},
        }
        let c = match child_count(&node) {
            Some(c) => c,
            None => {
                return Err(ArchiveError::EncodingInconsistency);
            },
        };
        if c > usize::MAX - n {
            return Err(ArchiveError::EncodingInconsistency);
        }
        let ghost old_slots = self.slots@;
        let ghost old_kids = self.kids_view();
        let mut fresh: Vec<usize> = Vec::with_capacity(c);
        let mut refs: Vec<MetaRef> = Vec::with_capacity(c);
        let mut j: usize = 0;
        while j < c
            invariant
                j <= c,
                n + c <= usize::MAX,
                fresh@ =~= Seq::new(j as nat, |q: int| (n + q) as usize),
                refs@.len() == j,
                forall|q: int| 0 <= q < j ==> (#[trigger] refs@[q]).id() == n + q,
            decreases c - j,
        {
            fresh.push(n + j);
            refs.push(MetaRef { slot: n + j });
            j = j + 1;
        }
        self.slots.set(r.slot, node);
        self.kids.set(r.slot, fresh);
        let mut j: usize = 0;
        while j < c
            invariant
                j <= c,
                self.slots@ =~= old_slots.update(r.slot as int, node) + Seq::new(
                    j as nat,
                    |q: int| FileMeta::Uninitialized,
                ),
                self.kids@.map_values(|k: Vec<usize>| k@) =~= old_kids.update(
                    r.slot as int,
                    Seq::new(c as nat, |q: int| (n + q) as usize),
                ) + Seq::new(j as nat, |q: int| Seq::<usize>::empty()),
            decreases c - j,
        {
            self.slots.push(FileMeta::Uninitialized);
            let ghost prev = self.kids@;
            self.kids.push(Vec::new());
            assert(self.kids@.map_values(|k: Vec<usize>| k@) =~= prev.map_values(|k: Vec<usize>| k@).push(
                Seq::<usize>::empty(),
            ));
            j = j + 1;
        }
        Ok(refs)
    }
}


/// Whether no node of `t` down to `depth` levels below it is unwritten.
pub open spec fn resolved_to(t: FileMeta, depth: nat) -> bool
    decreases depth,
{
    &&& !(t is Uninitialized)
    &&& depth > 0 ==> forall|j: int|
        0 <= j < children(t).len() ==> resolved_to(#[trigger] children(t)[j], (depth - 1) as nat)
}

pub open spec fn children_at_directory(files: Seq<(String, FileMeta)>, p: int) -> FileMeta {
    files[p].1
}

pub open spec fn children_at_pkac(files: Seq<(String, FileMeta)>, p: int) -> FileMeta {
    files[p].1
}

pub open spec fn children_at_p2(files: Seq<P2SubfileMeta>, p: int) -> FileMeta {
    files[p].file
}

pub open spec fn children_at_namedp2(files: Seq<(String, P2SubfileMeta)>, p: int) -> FileMeta {
    files[p].1.file
}

impl MetaTree {
    /// Whether every slot has been written, so that the tree can be
    /// assembled.
    pub fn is_complete(&self) -> (r: bool)
        ensures
            r == self.complete(),
    {
        let mut i: usize = 0;
        while i < self.slots.len()
            invariant
                i <= self.slots@.len(),
                forall|j: int| 0 <= j < i ==> !(#[trigger] self.slots@[j] is Uninitialized),
            decreases self.slots@.len() - i,
        {
            match &self.slots[i] {
                FileMeta::Uninitialized => {
                    return false;
                },
                _ => {},
            }
            i = i + 1;
        }
        true
    }

    /// The assembled tree. Fails with `EncodingInconsistency` exactly when
    /// some slot is still unwritten.
    pub fn into_tree(&self) -> (r: Result<FileMeta, ArchiveError>)
        requires
            self.wf(),
            self.slots_view().len() > 0,
        ensures
            match r {
                Ok(t) => self.complete() && assembled(self.slots_view(), self.kids_view(), 0, t),
                Err(e) => !self.complete() && e == ArchiveError::EncodingInconsistency,
            },
    {
        if !self.is_complete() {
            return Err(ArchiveError::EncodingInconsistency);
        }
        Ok(self.build(0))
    }

    /// The trees rooted at child slots `at .. at + count` of slot `i`.
    fn build_run(&self, i: usize, at: usize, count: usize) -> (r: Vec<FileMeta>)
        requires
            self.wf(),
            self.complete(),
            i < self.slots_view().len(),
            at + count <= self.kids_view()[i as int].len(),
        ensures
            r@.len() == count,
            forall|q: int|
                0 <= q < count ==> assembled(
                    self.slots_view(),
                    self.kids_view(),
                    self.kids_view()[i as int][at + q] as int,
                    #[trigger] r@[q],
                ),
        decreases self.slots_view().len() - i, 0nat,
    {
        let ghost kv = self.kids_view()[i as int];
        assert(self.kids@[i as int]@ == kv);
        let total = self.kids[i].len();
        let mut r: Vec<FileMeta> = Vec::with_capacity(count);
        let mut q: usize = 0;
        while q < count
            invariant
                q <= count,
                total == kv.len(),
                self.wf(),
                self.complete(),
                i < self.slots_view().len(),
                kv == self.kids_view()[i as int],
                self.kids@[i as int]@ == kv,
                at + count <= kv.len(),
                r@.len() == q,
                forall|p: int|
                    0 <= p < q ==> assembled(
                        self.slots_view(),
                        self.kids_view(),
                        kv[at + p] as int,
                        #[trigger] r@[p],
                    ),
            decreases count - q,
        {
            let k = self.kids[i][at + q];
            let c = self.build(k);
            r.push(c);
            q = q + 1;
        }
        r
    }

    /// The tree rooted at slot `i`.
    fn build(&self, i: usize) -> (r: FileMeta)
        requires
            self.wf(),
            self.complete(),
            i < self.slots_view().len(),
        ensures
            assembled(self.slots_view(), self.kids_view(), i as int, r),
        decreases self.slots_view().len() - i, 2nat,
    {
        let ghost kv = self.kids_view()[i as int];
        assert(self.kids@[i as int]@ == kv);
        match &self.slots[i] {
            FileMeta::Directory(d) => self.build_directory(i, d),
            FileMeta::PKAC(d) => self.build_pkac(i, d),
            FileMeta::P2(d) => self.build_p2(i, d),
            FileMeta::NamedP2(d) => self.build_namedp2(i, d),
            FileMeta::HPAK(h) => self.build_hpak(i, h),
            FileMeta::PK2D(h) => self.build_pk2d(i, h),
            FileMeta::LZ(l) => {
                let k = self.kids[i][0];
                let c = self.build(k);
                let t = FileMeta::LZ(LZMeta { lz_type: l.lz_type, file: Box::new(c) });
                assert(children(t) =~= seq![c]);
                t
            },
            FileMeta::OtherFile(name) => FileMeta::OtherFile(name.clone()),
            FileMeta::EmptyFile => FileMeta::EmptyFile,
            FileMeta::Uninitialized => FileMeta::Uninitialized,
        }
    }

    fn build_directory(&self, i: usize, d: &DirectoryMeta) -> (r: FileMeta)
        requires
            self.wf(),
            self.complete(),
            i < self.slots_view().len(),
            self.slots_view()[i as int] == FileMeta::Directory(*d),
        ensures
            assembled(self.slots_view(), self.kids_view(), i as int, r),
        decreases self.slots_view().len() - i, 1nat,
    {
        let ghost kv = self.kids_view()[i as int];
        assert(self.kids@[i as int]@ == kv);
        let mut files: Vec<(String, FileMeta)> = Vec::new();
        let mut j: usize = 0;
        while j < d.files.len()
            invariant
                j <= d.files@.len(),
                d.files@.len() == kv.len(),
                self.wf(),
                self.complete(),
                i < self.slots_view().len(),
                kv == self.kids_view()[i as int],
                self.kids@[i as int]@ == kv,
                files@.len() == j,
                forall|p: int| 0 <= p < j ==> files@[p].0 == d.files@[p].0,
                forall|p: int|
                    0 <= p < j ==> assembled(
                        self.slots_view(),
                        self.kids_view(),
                        kv[p] as int,
                        children_at_directory(files@, p),
                    ),
            decreases d.files@.len() - j,
        {
            let k = self.kids[i][j];
            let c = self.build(k);
            files.push((d.files[j].0.clone(), c));
            j = j + 1;
        }
        let t = FileMeta::Directory(DirectoryMeta { unpacked_name: d.unpacked_name.clone(), files });
        assert forall|p: int| 0 <= p < kv.len() implies children(t)[p] == children_at_directory(files@, p) by {}
        t
    }

    fn build_pkac(&self, i: usize, d: &PKACMeta) -> (r: FileMeta)
        requires
            self.wf(),
            self.complete(),
            i < self.slots_view().len(),
            self.slots_view()[i as int] == FileMeta::PKAC(*d),
        ensures
            assembled(self.slots_view(), self.kids_view(), i as int, r),
        decreases self.slots_view().len() - i, 1nat,
    {
        let ghost kv = self.kids_view()[i as int];
        assert(self.kids@[i as int]@ == kv);
        let mut files: Vec<(String, FileMeta)> = Vec::new();
        let mut j: usize = 0;
        while j < d.files.len()
            invariant
                j <= d.files@.len(),
                d.files@.len() == kv.len(),
                self.wf(),
                self.complete(),
                i < self.slots_view().len(),
                kv == self.kids_view()[i as int],
                self.kids@[i as int]@ == kv,
                files@.len() == j,
                forall|p: int| 0 <= p < j ==> files@[p].0 == d.files@[p].0,
                forall|p: int|
                    0 <= p < j ==> assembled(
                        self.slots_view(),
                        self.kids_view(),
                        kv[p] as int,
                        children_at_pkac(files@, p),
                    ),
            decreases d.files@.len() - j,
        {
            let k = self.kids[i][j];
            let c = self.build(k);
            files.push((d.files[j].0.clone(), c));
            j = j + 1;
        }
        let t = FileMeta::PKAC(
            PKACMeta {
                unpacked_name: d.unpacked_name.clone(),
                files,
                extra_names: crate::meta::copy_strings(&d.extra_names),
            },
        );
        assert forall|p: int| 0 <= p < kv.len() implies children(t)[p] == children_at_pkac(files@, p) by {}
        t
    }

    fn build_p2(&self, i: usize, d: &P2Meta) -> (r: FileMeta)
        requires
            self.wf(),
            self.complete(),
            i < self.slots_view().len(),
            self.slots_view()[i as int] == FileMeta::P2(*d),
        ensures
            assembled(self.slots_view(), self.kids_view(), i as int, r),
        decreases self.slots_view().len() - i, 1nat,
    {
        let ghost kv = self.kids_view()[i as int];
        assert(self.kids@[i as int]@ == kv);
        let mut files: Vec<P2SubfileMeta> = Vec::new();
        let mut j: usize = 0;
        while j < d.files.len()
            invariant
                j <= d.files@.len(),
                d.files@.len() == kv.len(),
                self.wf(),
                self.complete(),
                i < self.slots_view().len(),
                kv == self.kids_view()[i as int],
                self.kids@[i as int]@ == kv,
                files@.len() == j,
                forall|p: int| 0 <= p < j ==> files@[p].compressed == d.files@[p].compressed,
                forall|p: int|
                    0 <= p < j ==> assembled(
                        self.slots_view(),
                        self.kids_view(),
                        kv[p] as int,
                        children_at_p2(files@, p),
                    ),
            decreases d.files@.len() - j,
        {
            let k = self.kids[i][j];
            let c = self.build(k);
            files.push(P2SubfileMeta { compressed: d.files[j].compressed, file: c });
            j = j + 1;
        }
        let t = FileMeta::P2(P2Meta { unpacked_name: d.unpacked_name.clone(), files });
        assert forall|p: int| 0 <= p < kv.len() implies children(t)[p] == children_at_p2(files@, p) by {}
        t
    }

    fn build_namedp2(&self, i: usize, d: &NamedP2Meta) -> (r: FileMeta)
        requires
            self.wf(),
            self.complete(),
            i < self.slots_view().len(),
            self.slots_view()[i as int] == FileMeta::NamedP2(*d),
        ensures
            assembled(self.slots_view(), self.kids_view(), i as int, r),
        decreases self.slots_view().len() - i, 1nat,
    {
        let ghost kv = self.kids_view()[i as int];
        assert(self.kids@[i as int]@ == kv);
        let mut files: Vec<(String, P2SubfileMeta)> = Vec::new();
        let mut j: usize = 0;
        while j < d.files.len()
            invariant
                j <= d.files@.len(),
                d.files@.len() == kv.len(),
                self.wf(),
                self.complete(),
                i < self.slots_view().len(),
                kv == self.kids_view()[i as int],
                self.kids@[i as int]@ == kv,
                files@.len() == j,
                forall|p: int| 0 <= p < j ==> files@[p].0 == d.files@[p].0 && files@[p].1.compressed == d.files@[p].1.compressed,
                forall|p: int|
                    0 <= p < j ==> assembled(
                        self.slots_view(),
                        self.kids_view(),
                        kv[p] as int,
                        children_at_namedp2(files@, p),
                    ),
            decreases d.files@.len() - j,
        {
            let k = self.kids[i][j];
            let c = self.build(k);
            files.push((d.files[j].0.clone(), P2SubfileMeta { compressed: d.files[j].1.compressed, file: c }));
            j = j + 1;
        }
        let t = FileMeta::NamedP2(NamedP2Meta { unpacked_name: d.unpacked_name.clone(), files });
        assert forall|p: int| 0 <= p < kv.len() implies children(t)[p] == children_at_namedp2(files@, p) by {}
        t
    }

    fn build_hpak(&self, i: usize, h: &HPAKMeta) -> (r: FileMeta)
        requires
            self.wf(),
            self.complete(),
            i < self.slots_view().len(),
            self.slots_view()[i as int] == FileMeta::HPAK(*h),
        ensures
            assembled(self.slots_view(), self.kids_view(), i as int, r),
        decreases self.slots_view().len() - i, 1nat,
    {
        let ghost kv = self.kids_view()[i as int];
        assert(self.kids@[i as int]@ == kv);
        assert(kv.len() == h.nsbca_files@.len() + h.nsbva_files@.len() + h.nsbma_files@.len() + h.nsbtp_files@.len() + h.nsbta_files@.len() + h.unknown5_files@.len() + h.unknown6_files@.len() + h.nsbmd_files@.len());
        let total = self.kids[i].len();
        let mut at: usize = 0;
        let nsbca_files = self.build_run(i, at, h.nsbca_files.len());
        assert(at + h.nsbca_files@.len() <= total);
        at = at + h.nsbca_files.len();
        let nsbva_files = self.build_run(i, at, h.nsbva_files.len());
        assert(at + h.nsbva_files@.len() <= total);
        at = at + h.nsbva_files.len();
        let nsbma_files = self.build_run(i, at, h.nsbma_files.len());
        assert(at + h.nsbma_files@.len() <= total);
        at = at + h.nsbma_files.len();
        let nsbtp_files = self.build_run(i, at, h.nsbtp_files.len());
        assert(at + h.nsbtp_files@.len() <= total);
        at = at + h.nsbtp_files.len();
        let nsbta_files = self.build_run(i, at, h.nsbta_files.len());
        assert(at + h.nsbta_files@.len() <= total);
        at = at + h.nsbta_files.len();
        let unknown5_files = self.build_run(i, at, h.unknown5_files.len());
        assert(at + h.unknown5_files@.len() <= total);
        at = at + h.unknown5_files.len();
        let unknown6_files = self.build_run(i, at, h.unknown6_files.len());
        assert(at + h.unknown6_files@.len() <= total);
        at = at + h.unknown6_files.len();
        let nsbmd_files = self.build_run(i, at, h.nsbmd_files.len());
        assert(at + h.nsbmd_files@.len() <= total);
        at = at + h.nsbmd_files.len();
        let t = FileMeta::HPAK(HPAKMeta {
            unpacked_name: h.unpacked_name.clone(),
            nsbca_files, nsbva_files, nsbma_files, nsbtp_files, nsbta_files, unknown5_files, unknown6_files, nsbmd_files,
        });
        let ghost cs = children(t);
        assert(cs =~= nsbca_files@ + nsbva_files@ + nsbma_files@ + nsbtp_files@ + nsbta_files@ + unknown5_files@ + unknown6_files@ + nsbmd_files@);
        assert forall|p: int| 0 <= p < kv.len() implies assembled(
            self.slots_view(),
            self.kids_view(),
            kv[p] as int,
            #[trigger] cs[p],
        ) by {
            if p < h.nsbca_files@.len() {
                assert(cs[p] == nsbca_files@[p - (0)]);
            } else if p < h.nsbca_files@.len() + h.nsbva_files@.len() {
                assert(cs[p] == nsbva_files@[p - (h.nsbca_files@.len())]);
            } else if p < h.nsbca_files@.len() + h.nsbva_files@.len() + h.nsbma_files@.len() {
                assert(cs[p] == nsbma_files@[p - (h.nsbca_files@.len() + h.nsbva_files@.len())]);
            } else if p < h.nsbca_files@.len() + h.nsbva_files@.len() + h.nsbma_files@.len() + h.nsbtp_files@.len() {
                assert(cs[p] == nsbtp_files@[p - (h.nsbca_files@.len() + h.nsbva_files@.len() + h.nsbma_files@.len())]);
            } else if p < h.nsbca_files@.len() + h.nsbva_files@.len() + h.nsbma_files@.len() + h.nsbtp_files@.len() + h.nsbta_files@.len() {
                assert(cs[p] == nsbta_files@[p - (h.nsbca_files@.len() + h.nsbva_files@.len() + h.nsbma_files@.len() + h.nsbtp_files@.len())]);
            } else if p < h.nsbca_files@.len() + h.nsbva_files@.len() + h.nsbma_files@.len() + h.nsbtp_files@.len() + h.nsbta_files@.len() + h.unknown5_files@.len() {
                assert(cs[p] == unknown5_files@[p - (h.nsbca_files@.len() + h.nsbva_files@.len() + h.nsbma_files@.len() + h.nsbtp_files@.len() + h.nsbta_files@.len())]);
            } else if p < h.nsbca_files@.len() + h.nsbva_files@.len() + h.nsbma_files@.len() + h.nsbtp_files@.len() + h.nsbta_files@.len() + h.unknown5_files@.len() + h.unknown6_files@.len() {
                assert(cs[p] == unknown6_files@[p - (h.nsbca_files@.len() + h.nsbva_files@.len() + h.nsbma_files@.len() + h.nsbtp_files@.len() + h.nsbta_files@.len() + h.unknown5_files@.len())]);
            } else if p < h.nsbca_files@.len() + h.nsbva_files@.len() + h.nsbma_files@.len() + h.nsbtp_files@.len() + h.nsbta_files@.len() + h.unknown5_files@.len() + h.unknown6_files@.len() + h.nsbmd_files@.len() {
                assert(cs[p] == nsbmd_files@[p - (h.nsbca_files@.len() + h.nsbva_files@.len() + h.nsbma_files@.len() + h.nsbtp_files@.len() + h.nsbta_files@.len() + h.unknown5_files@.len() + h.unknown6_files@.len())]);
            }
        }
        t
    }

    fn build_pk2d(&self, i: usize, h: &PK2DMeta) -> (r: FileMeta)
        requires
            self.wf(),
            self.complete(),
            i < self.slots_view().len(),
            self.slots_view()[i as int] == FileMeta::PK2D(*h),
        ensures
            assembled(self.slots_view(), self.kids_view(), i as int, r),
        decreases self.slots_view().len() - i, 1nat,
    {
        let ghost kv = self.kids_view()[i as int];
        assert(self.kids@[i as int]@ == kv);
        assert(kv.len() == h.nclr_files@.len() + h.ncgr_files@.len() + h.unknown2_files@.len() + h.ncer_files@.len() + h.unknown4_files@.len() + h.nanr_files@.len() + h.nscr_files@.len() + h.unknown7_files@.len());
        let total = self.kids[i].len();
        let mut at: usize = 0;
        let nclr_files = self.build_run(i, at, h.nclr_files.len());
        assert(at + h.nclr_files@.len() <= total);
        at = at + h.nclr_files.len();
        let ncgr_files = self.build_run(i, at, h.ncgr_files.len());
        assert(at + h.ncgr_files@.len() <= total);
        at = at + h.ncgr_files.len();
        let unknown2_files = self.build_run(i, at, h.unknown2_files.len());
        assert(at + h.unknown2_files@.len() <= total);
        at = at + h.unknown2_files.len();
        let ncer_files = self.build_run(i, at, h.ncer_files.len());
        assert(at + h.ncer_files@.len() <= total);
        at = at + h.ncer_files.len();
        let unknown4_files = self.build_run(i, at, h.unknown4_files.len());
        assert(at + h.unknown4_files@.len() <= total);
        at = at + h.unknown4_files.len();
        let nanr_files = self.build_run(i, at, h.nanr_files.len());
        assert(at + h.nanr_files@.len() <= total);
        at = at + h.nanr_files.len();
        let nscr_files = self.build_run(i, at, h.nscr_files.len());
        assert(at + h.nscr_files@.len() <= total);
        at = at + h.nscr_files.len();
        let unknown7_files = self.build_run(i, at, h.unknown7_files.len());
        assert(at + h.unknown7_files@.len() <= total);
        at = at + h.unknown7_files.len();
        let t = FileMeta::PK2D(PK2DMeta {
            unpacked_name: h.unpacked_name.clone(),
            nclr_files, ncgr_files, unknown2_files, ncer_files, unknown4_files, nanr_files, nscr_files, unknown7_files,
        });
        let ghost cs = children(t);
        assert(cs =~= nclr_files@ + ncgr_files@ + unknown2_files@ + ncer_files@ + unknown4_files@ + nanr_files@ + nscr_files@ + unknown7_files@);
        assert forall|p: int| 0 <= p < kv.len() implies assembled(
            self.slots_view(),
            self.kids_view(),
            kv[p] as int,
            #[trigger] cs[p],
        ) by {
            if p < h.nclr_files@.len() {
                assert(cs[p] == nclr_files@[p - (0)]);
            } else if p < h.nclr_files@.len() + h.ncgr_files@.len() {
                assert(cs[p] == ncgr_files@[p - (h.nclr_files@.len())]);
            } else if p < h.nclr_files@.len() + h.ncgr_files@.len() + h.unknown2_files@.len() {
                assert(cs[p] == unknown2_files@[p - (h.nclr_files@.len() + h.ncgr_files@.len())]);
            } else if p < h.nclr_files@.len() + h.ncgr_files@.len() + h.unknown2_files@.len() + h.ncer_files@.len() {
                assert(cs[p] == ncer_files@[p - (h.nclr_files@.len() + h.ncgr_files@.len() + h.unknown2_files@.len())]);
            } else if p < h.nclr_files@.len() + h.ncgr_files@.len() + h.unknown2_files@.len() + h.ncer_files@.len() + h.unknown4_files@.len() {
                assert(cs[p] == unknown4_files@[p - (h.nclr_files@.len() + h.ncgr_files@.len() + h.unknown2_files@.len() + h.ncer_files@.len())]);
            } else if p < h.nclr_files@.len() + h.ncgr_files@.len() + h.unknown2_files@.len() + h.ncer_files@.len() + h.unknown4_files@.len() + h.nanr_files@.len() {
                assert(cs[p] == nanr_files@[p - (h.nclr_files@.len() + h.ncgr_files@.len() + h.unknown2_files@.len() + h.ncer_files@.len() + h.unknown4_files@.len())]);
            } else if p < h.nclr_files@.len() + h.ncgr_files@.len() + h.unknown2_files@.len() + h.ncer_files@.len() + h.unknown4_files@.len() + h.nanr_files@.len() + h.nscr_files@.len() {
                assert(cs[p] == nscr_files@[p - (h.nclr_files@.len() + h.ncgr_files@.len() + h.unknown2_files@.len() + h.ncer_files@.len() + h.unknown4_files@.len() + h.nanr_files@.len())]);
            } else if p < h.nclr_files@.len() + h.ncgr_files@.len() + h.unknown2_files@.len() + h.ncer_files@.len() + h.unknown4_files@.len() + h.nanr_files@.len() + h.nscr_files@.len() + h.unknown7_files@.len() {
                assert(cs[p] == unknown7_files@[p - (h.nclr_files@.len() + h.ncgr_files@.len() + h.unknown2_files@.len() + h.ncer_files@.len() + h.unknown4_files@.len() + h.nanr_files@.len() + h.nscr_files@.len())]);
            }
        }
        t
    }

}

/// Every node of an assembled tree of a complete `MetaTree` has been
/// written: no node, at any depth, is unresolved.
pub proof fn lemma_assembled_resolved(tree: MetaTree, i: int, t: FileMeta, depth: nat)
    requires
        tree.wf(),
        tree.complete(),
        assembled(tree.slots_view(), tree.kids_view(), i, t),
    ensures
        resolved_to(t, depth),
    decreases depth,
{
    assert(!(tree.slots_view()[i] is Uninitialized));
    if depth > 0 {
        assert forall|j: int| 0 <= j < children(t).len() implies resolved_to(
            #[trigger] children(t)[j],
            (depth - 1) as nat,
        ) by {
            let k = tree.kids_view()[i][j] as int;
            lemma_assembled_resolved(tree, k, children(t)[j], (depth - 1) as nat);
        }
    }
}

} // verus!
