//! Relative paths inside the source and the unpacked trees.
use vstd::prelude::*;

verus! {

/// A path relative to a tree's root, as a sequence of segments; the source
/// tree and the unpacked tree share it.
#[derive(Debug)]
pub struct RelPath {
    path: Vec<String>,
}

impl View for RelPath {
    type V = Seq<Seq<char>>;

    closed spec fn view(&self) -> Seq<Seq<char>> {
        self.path@.map_values(|s: String| s@)
    }
}

/// `p` with `seg` appended, unless `seg` is empty.
pub open spec fn pushed(p: Seq<Seq<char>>, seg: Seq<char>) -> Seq<Seq<char>> {
    if seg.len() == 0 {
        p
    } else {
        p.push(seg)
    }
}

/// The last segment of `p`, or the empty name for the root.
pub open spec fn last_segment(p: Seq<Seq<char>>) -> Seq<char> {
    if p.len() == 0 {
        Seq::empty()
    } else {
        p.last()
    }
}

impl RelPath {
    /// The root.
    pub fn new() -> (r: RelPath)
        ensures
            r@ == Seq::<Seq<char>>::empty(),
    {
        let r = RelPath { path: Vec::new() };
        assert(r@ =~= Seq::<Seq<char>>::empty());
        r
    }

    /// Appends a segment; an empty one is ignored.
    pub fn push(&mut self, p: String)
        ensures
            final(self)@ == pushed(old(self)@, p@),
    {
        if !p.as_str().is_empty() {
            let ghost before = self.path@;
            self.path.push(p);
            assert(self.path@.map_values(|s: String| s@) =~= before.map_values(|s: String| s@).push(p@));
        }
    }

    /// `e` followed by the segments of `self`.
    pub fn prepend(self, e: String) -> (r: RelPath)
        ensures
            r@ == pushed(Seq::empty(), e@) + self@,
    {
        let mut p = RelPath::new();
        p.push(e);
        let ghost start = p@;
        let mut i: usize = 0;
        while i < self.path.len()
            invariant
                i <= self.path@.len(),
                p@ == start + self@.take(i as int),
            decreases self.path@.len() - i,
        {
            let seg = self.path[i].clone();
            let ghost before = p@;
            if seg.as_str().is_empty() {
                p.path.push(seg);
                assert(p.path@.map_values(|s: String| s@) =~= before.push(seg@));
            } else {
                p.push(seg);
            }
            assert(self@[i as int] == self.path@[i as int]@);
            assert(p@ =~= start + self@.take(i + 1));
            i = i + 1;
        }
        assert(self@.take(self.path@.len() as int) =~= self@);
        p
    }

    /// Removes and returns the last segment.
    pub fn pop(&mut self) -> (r: Option<String>)
        ensures
            old(self)@.len() == 0 ==> r is None && final(self)@ == old(self)@,
            old(self)@.len() > 0 ==> (r matches Some(s) && s@ == old(self)@.last() && final(self)@
                == old(self)@.drop_last()),
    {
        let ghost before = self.path@;
        let r = self.path.pop();
        proof {
            if before.len() > 0 {
                assert(self.path@.map_values(|s: String| s@) =~= before.map_values(|s: String| s@).drop_last());
            }
        }
        r
    }

    /// The last segment, or the empty name for the root.
    pub fn peek(&self) -> (r: String)
        ensures
            r@ == last_segment(self@),
    {
        let n = self.path.len();
        if n == 0 {
            String::new()
        } else {
            self.path[n - 1].clone()
        }
    }

    /// The segments, in order.
    pub fn segments(&self) -> (r: &[String])
        ensures
            r@.map_values(|s: String| s@) == self@,
    {
        self.path.as_slice()
    }

    /// Whether both paths have the same segments.
    pub fn same(&self, other: &RelPath) -> (r: bool)
        ensures
            r == (self@ == other@),
    {
        if self.path.len() != other.path.len() {
            assert(self@.len() != other@.len());
            return false;
        }
        let mut i: usize = 0;
        while i < self.path.len()
            invariant
                i <= self.path@.len(),
                self.path@.len() == other.path@.len(),
                forall|j: int| 0 <= j < i ==> (#[trigger] self@[j]) == other@[j],
            decreases self.path@.len() - i,
        {
            assert(self@[i as int] == self.path@[i as int]@);
            assert(other@[i as int] == other.path@[i as int]@);
            if self.path[i] != other.path[i] {
                assert(self@[i as int] != other@[i as int]);
                return false;
            }
            i = i + 1;
        }
        assert(self@ =~= other@);
        true
    }

    /// A copy of the path.
    pub fn duplicate(&self) -> (r: RelPath)
        ensures
            r@ == self@,
    {
        RelPath { path: self.path.clone() }
    }
}

} // verus!
