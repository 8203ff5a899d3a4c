use vstd::prelude::*;

use crate::space::{cell, span, written, TernarySpace};
use crate::ternary::Ternary;

verus! {

/// `[start, end)` is a maximal run of `v` in `s`: non-empty, inside the space, holding `v`
/// at every position, and bordered on each side by the edge of the space or by another value.
pub open spec fn is_maximal_run(s: Seq<Ternary>, v: Ternary, start: int, end: int) -> bool {
    &&& 0 <= start < end <= s.len()
    &&& forall|k: int| start <= k < end ==> s[k] == v
    &&& start == 0 || s[start - 1] != v
    &&& end == s.len() || s[end] != v
}

/// `runs` lists, from left to right, every maximal run of `v` in `s`.
pub open spec fn is_run_list(s: Seq<Ternary>, v: Ternary, runs: Seq<(usize, usize)>) -> bool {
    &&& forall|i: int| 0 <= i < runs.len() ==> is_maximal_run(s, v, runs[i].0 as int, runs[i].1 as int)
    &&& forall|i: int, j: int| 0 <= i < j < runs.len() ==> runs[i].1 < runs[j].0
    &&& forall|k: int|
        0 <= k < s.len() && s[k] == v ==> exists|i: int|
            #![trigger runs[i]]
            0 <= i < runs.len() && runs[i].0 <= k < runs[i].1
}

/// Some position before `k` is avoided.
pub open spec fn avoided_before(s: Seq<Ternary>, k: int) -> bool {
    exists|i: int| 0 <= i < k && s[i] == Ternary::Avoided
}

/// Some position at or after `k` is avoided.
pub open spec fn avoided_from(s: Seq<Ternary>, k: int) -> bool {
    exists|j: int| k <= j < s.len() && s[j] == Ternary::Avoided
}

/// `gaps` lists, from left to right, every maximal run of unknown positions that lies
/// between avoidance: with an avoided position before it and one after it.
pub open spec fn is_gap_list(s: Seq<Ternary>, gaps: Seq<(usize, usize)>) -> bool {
    &&& forall|i: int|
        0 <= i < gaps.len() ==> {
            &&& is_maximal_run(s, Ternary::Unknown, gaps[i].0 as int, gaps[i].1 as int)
            &&& avoided_before(s, gaps[i].0 as int)
            &&& avoided_from(s, gaps[i].1 as int)
        }
    &&& forall|i: int, j: int| 0 <= i < j < gaps.len() ==> gaps[i].1 < gaps[j].0
    &&& forall|k: int|
        0 <= k < s.len() && s[k] == Ternary::Unknown && avoided_before(s, k) && avoided_from(s, k)
            ==> exists|i: int|
            #![trigger gaps[i]]
            0 <= i < gaps.len() && gaps[i].0 <= k < gaps[i].1
}

/// The spans `(start, end)` of a list of regions.
pub open spec fn spans(regions: Seq<NegativeRegion>) -> Seq<(usize, usize)> {
    regions.map_values(|r: NegativeRegion| (r.start, r.end))
}

/// `r` is the region `[start, end)` of `s`, with the values just outside it as boundaries.
pub open spec fn is_region_of(r: NegativeRegion, start: int, end: int, s: Seq<Ternary>) -> bool {
    &&& r.start == start
    &&& r.end == end
    &&& r.size == end - start
    &&& r.left_boundary == if start > 0 {
        Some(cell(s, start - 1))
    } else {
        None
    }
    &&& r.right_boundary == if end < s.len() {
        Some(cell(s, end))
    } else {
        None
    }
}

/// The gap between region `i` and region `i + 1`.
pub open spec fn gap_after(regions: Seq<NegativeRegion>, i: int) -> Gap {
    Gap {
        start: regions[i].end,
        end: regions[i + 1].start,
        left_region: i as usize,
        right_region: (i + 1) as usize,
    }
}

/// The non-empty gaps after the first `n` regions, each between a region and the next.
pub open spec fn gaps_upto(regions: Seq<NegativeRegion>, n: nat) -> Seq<Gap>
    decreases n,
{
    if n == 0 {
        Seq::empty()
    } else {
        let i = n - 1;
        let rest = gaps_upto(regions, i as nat);
        if regions[i].end < regions[i + 1].start {
            rest.push(gap_after(regions, i))
        } else {
            rest
        }
    }
}

/// The non-empty gaps between consecutive regions of a list, from left to right.
pub open spec fn gaps_between(regions: Seq<NegativeRegion>) -> Seq<Gap> {
    if regions.len() < 2 {
        Seq::empty()
    } else {
        gaps_upto(regions, (regions.len() - 1) as nat)
    }
}

/// `regions` lists, from left to right, every maximal run of avoided positions of `s`,
/// each with the values just outside it as its boundaries.
pub open spec fn is_negative_region_list(s: Seq<Ternary>, regions: Seq<NegativeRegion>) -> bool {
    &&& is_run_list(s, Ternary::Avoided, spans(regions))
    &&& forall|i: int|
        0 <= i < regions.len() ==> is_region_of(
            #[trigger] regions[i],
            regions[i].start as int,
            regions[i].end as int,
            s,
        )
}

/// The size of the gap between two regions, or zero where they overlap.
pub open spec fn region_distance(a: NegativeRegion, b: NegativeRegion) -> int {
    if a.end <= b.start {
        b.start - a.end
    } else if b.end <= a.start {
        a.start - b.end
    } else {
        0
    }
}

/// The right boundary of `a` is present and equal to the left boundary of `b`.
pub open spec fn shares_boundary(a: NegativeRegion, b: NegativeRegion) -> bool {
    &&& a.right_boundary is Some
    &&& b.left_boundary is Some
    &&& a.right_boundary->0 == b.left_boundary->0
}

/// Records which positions are avoided, unknown or chosen, and finds the contiguous
/// avoidance regions and the gaps between them.
#[derive(Clone, Debug)]
pub struct AvoidanceMap {
    space: TernarySpace,
}

impl View for AvoidanceMap {
    type V = Seq<Ternary>;

    closed spec fn view(&self) -> Seq<Ternary> {
        self.space@
    }
}

/// The maximal runs of `value` in `space`, from left to right.
fn runs_of(space: &TernarySpace, value: Ternary) -> (runs: Vec<(usize, usize)>)
    ensures
        is_run_list(space@, value, runs@),
{
    let ghost s = space@;
    let n = space.size();
    let mut runs: Vec<(usize, usize)> = Vec::new();
    let mut i: usize = 0;
    while i < n
        invariant
            n == s.len(),
            s == space@,
            i <= n,
            forall|r: int| 0 <= r < runs@.len() ==> is_maximal_run(s, value, runs@[r].0 as int, runs@[r].1 as int),
            forall|r: int| 0 <= r < runs@.len() ==> runs@[r].1 <= i,
            forall|a: int, b: int| 0 <= a < b < runs@.len() ==> runs@[a].1 < runs@[b].0,
            forall|k: int|
                0 <= k < i && s[k] == value ==> exists|r: int|
                    #![trigger runs@[r]]
                    0 <= r < runs@.len() && runs@[r].0 <= k < runs@[r].1,
            i > 0 && s[i - 1] == value ==> (i == n || s[i as int] != value),
        decreases n - i,
    {
        if space.get(i) == value {
            let start = i;
            while i < n && space.get(i) == value
                invariant
                    n == s.len(),
                    s == space@,
                    start <= i <= n,
                    start < n,
                    s[start as int] == value,
                    forall|k: int| start <= k < i ==> s[k] == value,
                decreases n - i,
            {
                i = i + 1;
            }
            let ghost old_runs = runs@;
            runs.push((start, i));
            assert forall|k: int|
                0 <= k < i && s[k] == value implies exists|r: int|
                    #![trigger runs@[r]]
                    0 <= r < runs@.len() && runs@[r].0 <= k < runs@[r].1 by {
                if k < start {
                    let r = choose|r: int| #![trigger old_runs[r]] 0 <= r < old_runs.len() && old_runs[r].0 <= k < old_runs[r].1;
                    assert(runs@[r] == old_runs[r]);
                } else {
                    assert(runs@[runs@.len() - 1] == (start, i));
                }
            }
        } else {
            i = i + 1;
        }
    }
    runs
}

/// The first and the last avoided position of the space, if any is avoided.
fn avoided_extent(space: &TernarySpace) -> (r: Option<(usize, usize)>)
    ensures
        r matches Some((f, l)) ==> {
            &&& f <= l < space@.len()
            &&& space@[f as int] == Ternary::Avoided
            &&& space@[l as int] == Ternary::Avoided
            &&& forall|i: int| 0 <= i < f ==> space@[i] != Ternary::Avoided
            &&& forall|j: int| l < j < space@.len() ==> space@[j] != Ternary::Avoided
        },
        r is None ==> forall|i: int| 0 <= i < space@.len() ==> space@[i] != Ternary::Avoided,
{
    let n = space.size();
    let mut found: Option<(usize, usize)> = None;
    let mut i: usize = 0;
    while i < n
        invariant
            n == space@.len(),
            i <= n,
            found matches Some((f, l)) ==> {
                &&& f <= l < i
                &&& space@[f as int] == Ternary::Avoided
                &&& space@[l as int] == Ternary::Avoided
                &&& forall|k: int| 0 <= k < f ==> space@[k] != Ternary::Avoided
                &&& forall|k: int| l < k < i ==> space@[k] != Ternary::Avoided
            },
            found is None ==> forall|k: int| 0 <= k < i ==> space@[k] != Ternary::Avoided,
        decreases n - i,
    {
        if space.get(i) == Ternary::Avoided {
            found = match found {
                Some((f, _)) => Some((f, i)),
                None => Some((i, i)),
            };
        }
        i = i + 1;
    }
    found
}

impl AvoidanceMap {
    /// Create from a TernarySpace (a copy of it).
    pub fn from_space(space: &TernarySpace) -> (m: AvoidanceMap)
        ensures
            m@ == space@,
    {
        AvoidanceMap { space: space.duplicate() }
    }

    /// Create a new map of the given size, all positions unknown.
    pub fn new(size: usize) -> (m: AvoidanceMap)
        ensures
            m@ == Seq::new(size as nat, |i: int| Ternary::Unknown),
    {
        AvoidanceMap { space: TernarySpace::new(size) }
    }

    /// Get the underlying space.
    pub fn space(&self) -> (s: &TernarySpace)
        ensures
            s@ == self@,
    {
        &self.space
    }

    /// Set a position from an i8 (clamped); a position outside the space is ignored.
    pub fn set(&mut self, pos: usize, value: i8)
        ensures
            final(self)@ == written(old(self)@, pos as int, Ternary::from_int(value as int)),
    {
        self.space.set(pos, value);
    }

    /// All contiguous avoidance regions, from left to right: every maximal run of avoided
    /// positions, with the values just outside it as its boundaries.
    pub fn find_negative_regions(&self) -> (regions: Vec<NegativeRegion>)
        ensures
            is_negative_region_list(self@, regions@),
    {
        let runs = runs_of(&self.space, Ternary::Avoided);
        let mut regions: Vec<NegativeRegion> = Vec::new();
        let mut i: usize = 0;
        while i < runs.len()
            invariant
                i <= runs@.len(),
                is_run_list(self@, Ternary::Avoided, runs@),
                regions@.len() == i,
                forall|j: int| 0 <= j < i ==> (#[trigger] regions@[j]).start == runs@[j].0 && regions@[j].end == runs@[j].1,
                forall|j: int|
                    0 <= j < i ==> is_region_of(
                        #[trigger] regions@[j],
                        regions@[j].start as int,
                        regions@[j].end as int,
                        self@,
                    ),
            decreases runs@.len() - i,
        {
            let (start, end) = runs[i];
            assert(is_maximal_run(self@, Ternary::Avoided, runs@[i as int].0 as int, runs@[i as int].1 as int));
            regions.push(NegativeRegion::new(start, end, &self.space));
            i = i + 1;
        }
        assert(spans(regions@) == runs@);
        regions
    }

    /// All gaps between avoidance regions, from left to right: the contiguous runs of unknown
    /// positions with an avoided position before and after them, as `(start, end)` pairs
    /// with `end` exclusive.
    pub fn find_gaps(&self) -> (gaps: Vec<(usize, usize)>)
        ensures
            is_gap_list(self@, gaps@),
    {
        let ghost s = self@;
        let runs = runs_of(&self.space, Ternary::Unknown);
        let extent = avoided_extent(&self.space);
        let mut gaps: Vec<(usize, usize)> = Vec::new();
        let mut t: usize = 0;
        while t < runs.len()
            invariant
                s == self@,
                is_run_list(s, Ternary::Unknown, runs@),
                extent matches Some((f, l)) ==> {
                    &&& f <= l < s.len()
                    &&& s[f as int] == Ternary::Avoided
                    &&& s[l as int] == Ternary::Avoided
                    &&& forall|i: int| 0 <= i < f ==> s[i] != Ternary::Avoided
                    &&& forall|j: int| l < j < s.len() ==> s[j] != Ternary::Avoided
                },
                extent is None ==> forall|i: int| 0 <= i < s.len() ==> s[i] != Ternary::Avoided,
                t <= runs@.len(),
                forall|i: int|
                    0 <= i < gaps@.len() ==> {
                        &&& is_maximal_run(s, Ternary::Unknown, gaps@[i].0 as int, gaps@[i].1 as int)
                        &&& avoided_before(s, gaps@[i].0 as int)
                        &&& avoided_from(s, gaps@[i].1 as int)
                    },
                forall|i: int, j: int| 0 <= i < j < gaps@.len() ==> gaps@[i].1 < gaps@[j].0,
                t == 0 ==> gaps@.len() == 0,
                t > 0 ==> forall|i: int| 0 <= i < gaps@.len() ==> gaps@[i].1 <= runs@[t - 1].1,
                forall|r: int|
                    0 <= r < t && avoided_before(s, runs@[r].0 as int) && avoided_from(s, runs@[r].1 as int)
                        ==> #[trigger] in_spans(gaps@, runs@[r]),
            decreases runs@.len() - t,
        {
            let (start, end) = runs[t];
            assert(is_maximal_run(s, Ternary::Unknown, start as int, end as int));
            if t > 0 {
                assert(runs@[t - 1].1 < runs@[t as int].0);
            }
            let keep = match extent {
                Some((f, l)) => f < start && l >= end,
                None => false,
            };
            let ghost before = gaps@;
            if keep {
                gaps.push((start, end));
                assert(gaps@[gaps@.len() - 1] == runs@[t as int]);
                assert forall|r: int|
                    0 <= r < t + 1 && avoided_before(s, runs@[r].0 as int) && avoided_from(s, runs@[r].1 as int)
                        implies #[trigger] in_spans(gaps@, runs@[r]) by {
                    if r < t {
                        assert(in_spans(before, runs@[r]));
                        let j = choose|j: int| 0 <= j < before.len() && before[j] == runs@[r];
                        assert(gaps@[j] == runs@[r]);
                    } else {
                        assert(gaps@[gaps@.len() - 1] == runs@[r]);
                    }
                }
            } else {
                proof {
                    if avoided_before(s, start as int) && avoided_from(s, end as int) {
                        let i0 = choose|i: int| 0 <= i < start && s[i] == Ternary::Avoided;
                        let j0 = choose|j: int| end <= j < s.len() && s[j] == Ternary::Avoided;
                        assert(extent is Some);
                    }
                }
            }
            t = t + 1;
        }
        proof {
            assert forall|k: int|
                0 <= k < s.len() && s[k] == Ternary::Unknown && avoided_before(s, k) && avoided_from(s, k)
                    implies exists|i: int|
                    #![trigger gaps@[i]]
                    0 <= i < gaps@.len() && gaps@[i].0 <= k < gaps@[i].1 by {
                let r = choose|r: int| #![trigger runs@[r]] 0 <= r < runs@.len() && runs@[r].0 <= k < runs@[r].1;
                let st = runs@[r].0 as int;
                let en = runs@[r].1 as int;
                assert(is_maximal_run(s, Ternary::Unknown, st, en));
                let i0 = choose|i: int| 0 <= i < k && s[i] == Ternary::Avoided;
                let j0 = choose|j: int| k <= j < s.len() && s[j] == Ternary::Avoided;
                assert(i0 < st);
                assert(j0 >= en);
                assert(avoided_before(s, st));
                assert(avoided_from(s, en));
                assert(in_spans(gaps@, runs@[r]));
                let j = choose|j: int| 0 <= j < gaps@.len() && gaps@[j] == runs@[r];
                assert(gaps@[j].0 <= k < gaps@[j].1);
            }
        }
        gaps
    }

    /// The non-empty gaps between consecutive regions of the list, from left to right.
    pub fn find_gaps_between_regions(&self, regions: &[NegativeRegion]) -> (gaps: Vec<Gap>)
        ensures
            gaps@ == gaps_between(regions@),
    {
        if regions.len() < 2 {
            return Vec::new();
        }
        let mut gaps: Vec<Gap> = Vec::new();
        let mut i: usize = 0;
        while i < regions.len() - 1
            invariant
                regions@.len() >= 2,
                i <= regions@.len() - 1,
                gaps@ == gaps_upto(regions@, i as nat),
            decreases regions@.len() - 1 - i,
        {
            let gap_start = regions[i].end;
            let gap_end = regions[i + 1].start;
            if gap_start < gap_end {
                gaps.push(Gap { start: gap_start, end: gap_end, left_region: i, right_region: i + 1 });
            }
            i = i + 1;
        }
        gaps
    }
}

/// A contiguous region of avoidances with the values just outside it.
#[derive(Clone, Debug)]
pub struct NegativeRegion {
    /// Start position (inclusive).
    pub start: usize,
    /// End position (exclusive).
    pub end: usize,
    /// The value just before the region, if the region does not start the space.
    pub left_boundary: Option<Ternary>,
    /// The value just after the region, if the region does not end the space.
    pub right_boundary: Option<Ternary>,
    /// Size of the region.
    pub size: usize,
}

impl NegativeRegion {
    /// The region `[start, end)` of a space, with its boundaries read from the space.
    pub fn new(start: usize, end: usize, space: &TernarySpace) -> (r: NegativeRegion)
        requires
            start <= end,
        ensures
            is_region_of(r, start as int, end as int, space@),
    {
        let left_boundary = if start > 0 {
            Some(space.get(start - 1))
        } else {
            None
        };
        let right_boundary = if end < space.size() {
            Some(space.get(end))
        } else {
            None
        };
        NegativeRegion { start, end, left_boundary, right_boundary, size: end - start }
    }

    /// Does this region's right boundary equal the other region's left boundary?
    pub fn shares_boundary_type(&self, other: &NegativeRegion) -> (b: bool)
        ensures
            b == shares_boundary(*self, *other),
    {
        match (self.right_boundary, other.left_boundary) {
            (Some(a), Some(b)) => a == b,
            _ => false,
        }
    }

    /// Distance to another region: the size of the gap between them, or zero where they overlap.
    pub fn distance_to(&self, other: &NegativeRegion) -> (d: usize)
        ensures
            d == region_distance(*self, *other),
    {
        if self.end <= other.start {
            other.start - self.end
        } else if other.end <= self.start {
            self.start - other.end
        } else {
            0
        }
    }

    /// Is the position within this region?
    pub fn contains(&self, pos: usize) -> (b: bool)
        ensures
            b == (self.start <= pos < self.end),
    {
        pos >= self.start && pos < self.end
    }
}

/// A gap between two avoidance regions, given by their indices in a list of regions.
#[derive(Clone, Debug)]
pub struct Gap {
    pub start: usize,
    pub end: usize,
    pub left_region: usize,
    pub right_region: usize,
}

impl Gap {
    /// Size of the gap.
    pub fn size(&self) -> (n: usize)
        requires
            self.start <= self.end,
        ensures
            n == self.end - self.start,
    {
        self.end - self.start
    }

    /// Is the gap empty?
    pub fn is_empty(&self) -> (b: bool)
        ensures
            b == (self.start == self.end),
    {
        self.start == self.end
    }

    /// The positions in the gap, in increasing order.
    pub fn positions(&self) -> (p: Vec<usize>)
        ensures
            p@ == Seq::new(span(self.start as int, self.end as int), |k: int| (self.start + k) as usize),
    {
        let mut p: Vec<usize> = Vec::new();
        let mut pos = self.start;
        while pos < self.end
            invariant
                self.start <= pos,
                pos <= self.end || pos == self.start,
                p@ == Seq::new((pos - self.start) as nat, |k: int| (self.start + k) as usize),
            decreases self.end - pos,
        {
            p.push(pos);
            pos = pos + 1;
        }
        p
    }
}


/// Each gap between regions lies between a region and the next one: it starts where the
/// left region ends, ends where the right region starts, and is not empty. The gaps come
/// in the order of the regions.
pub proof fn lemma_gaps_between(regions: Seq<NegativeRegion>)
    requires
        regions.len() <= usize::MAX,
    ensures
        forall|j: int|
            #![trigger gaps_between(regions)[j]]
            0 <= j < gaps_between(regions).len() ==> {
                let g = gaps_between(regions)[j];
                &&& g.right_region == g.left_region + 1
                &&& g.right_region < regions.len()
                &&& g.start == regions[g.left_region as int].end
                &&& g.end == regions[g.right_region as int].start
                &&& g.start < g.end
            },
        forall|i: int, j: int|
            0 <= i < j < gaps_between(regions).len() ==> gaps_between(regions)[i].right_region
                <= gaps_between(regions)[j].left_region,
{
    if regions.len() >= 2 {
        lemma_gaps_upto(regions, (regions.len() - 1) as nat);
    }
}

proof fn lemma_gaps_upto(regions: Seq<NegativeRegion>, n: nat)
    requires
        regions.len() <= usize::MAX,
        n < regions.len(),
    ensures
        forall|j: int|
            #![trigger gaps_upto(regions, n)[j]]
            0 <= j < gaps_upto(regions, n).len() ==> {
                let g = gaps_upto(regions, n)[j];
                &&& g.right_region == g.left_region + 1
                &&& g.right_region <= n
                &&& g.start == regions[g.left_region as int].end
                &&& g.end == regions[g.right_region as int].start
                &&& g.start < g.end
            },
        forall|i: int, j: int|
            0 <= i < j < gaps_upto(regions, n).len() ==> gaps_upto(regions, n)[i].right_region
                <= gaps_upto(regions, n)[j].left_region,
    decreases n,
{
    if n > 0 {
        lemma_gaps_upto(regions, (n - 1) as nat);
    }
}


/// Two consecutive regions of a space's region list are disjoint and inside the space,
/// so their sizes add up to less than the size of the space.
pub proof fn lemma_region_sizes(s: Seq<Ternary>, regions: Seq<NegativeRegion>)
    requires
        is_negative_region_list(s, regions),
    ensures
        forall|i: int|
            #![trigger regions[i], regions[i + 1]]
            0 <= i < regions.len() - 1 ==> regions[i].size + regions[i + 1].size < s.len(),
{
    assert forall|i: int|
        #![trigger regions[i], regions[i + 1]]
        0 <= i < regions.len() - 1 implies regions[i].size + regions[i + 1].size < s.len() by {
        let sp = spans(regions);
        assert(sp[i] == (regions[i].start, regions[i].end));
        assert(sp[i + 1] == (regions[i + 1].start, regions[i + 1].end));
        assert(is_maximal_run(s, Ternary::Avoided, sp[i].0 as int, sp[i].1 as int));
        assert(is_maximal_run(s, Ternary::Avoided, sp[i + 1].0 as int, sp[i + 1].1 as int));
        assert(sp[i].1 < sp[i + 1].0);
        assert(is_region_of(regions[i], regions[i].start as int, regions[i].end as int, s));
        assert(is_region_of(regions[i + 1], regions[i + 1].start as int, regions[i + 1].end as int, s));
    }
}


/// Non-empty spans listed from left to right without overlap.
spec fn sorted_spans(a: Seq<(usize, usize)>) -> bool {
    &&& forall|i: int| 0 <= i < a.len() ==> a[i].0 < a[i].1
    &&& forall|i: int, j: int| 0 <= i < j < a.len() ==> a[i].1 < a[j].0
}

/// Every span of `a` is a span of `b`.
spec fn spans_within(a: Seq<(usize, usize)>, b: Seq<(usize, usize)>) -> bool {
    forall|i: int| 0 <= i < a.len() ==> #[trigger] in_spans(b, a[i])
}

/// `x` is a span of `b`.
spec fn in_spans(b: Seq<(usize, usize)>, x: (usize, usize)) -> bool {
    exists|j: int| 0 <= j < b.len() && b[j] == x
}

/// The first `i + 1` spans of two sorted span lists with the same spans agree.
proof fn lemma_sorted_spans_agree(a: Seq<(usize, usize)>, b: Seq<(usize, usize)>, i: int)
    requires
        sorted_spans(a),
        sorted_spans(b),
        spans_within(a, b),
        spans_within(b, a),
        0 <= i < a.len(),
    ensures
        forall|t: int| 0 <= t <= i ==> t < b.len() && a[t] == b[t],
    decreases i,
{
    if i > 0 {
        lemma_sorted_spans_agree(a, b, i - 1);
    }
    assert(in_spans(b, a[i]));
    let j = choose|j: int| 0 <= j < b.len() && b[j] == a[i];
    if j < i {
        assert(a[j] == b[j]);
        assert(a[j].1 < a[i].0);
    } else if j > i {
        assert(in_spans(a, b[i]));
        let k = choose|k: int| 0 <= k < a.len() && a[k] == b[i];
        if k < i {
            assert(a[k] == b[k]);
            assert(b[k].1 < b[i].0);
        } else if k == i {
            assert(b[i].1 < b[j].0);
        } else {
            assert(a[i].1 < a[k].0);
            assert(b[i].1 < b[j].0);
        }
    }
}

/// Two sorted span lists with the same spans are equal.
proof fn lemma_sorted_spans_equal(a: Seq<(usize, usize)>, b: Seq<(usize, usize)>)
    requires
        sorted_spans(a),
        sorted_spans(b),
        spans_within(a, b),
        spans_within(b, a),
    ensures
        a == b,
{
    if a.len() > 0 {
        lemma_sorted_spans_agree(a, b, a.len() - 1);
        let last = a[a.len() - 1];
        assert(a.len() - 1 < b.len());
    }
    if b.len() > 0 {
        lemma_sorted_spans_agree(b, a, b.len() - 1);
        let last = b[b.len() - 1];
        assert(b.len() - 1 < a.len());
    }
    assert(a.len() == b.len());
    assert(a =~= b);
}

/// Two maximal runs of `v` that share a position are the same run.
proof fn lemma_maximal_runs_meet(s: Seq<Ternary>, v: Ternary, x: int, y: int, x2: int, y2: int)
    requires
        is_maximal_run(s, v, x, y),
        is_maximal_run(s, v, x2, y2),
        x2 <= x < y2,
    ensures
        x == x2 && y == y2,
{
    if x2 < x {
        assert(s[x - 1] == v);
    }
    if y < y2 {
        assert(s[y] == v);
    }
    if y2 < y {
        assert(s[y2] == v);
    }
}

/// Every run of one run list of `s` is a run of any other run list of `s`.
proof fn lemma_run_lists_within(s: Seq<Ternary>, v: Ternary, a: Seq<(usize, usize)>, b: Seq<(usize, usize)>)
    requires
        is_run_list(s, v, a),
        is_run_list(s, v, b),
    ensures
        spans_within(a, b),
        sorted_spans(a),
{
    assert forall|i: int| 0 <= i < a.len() implies #[trigger] in_spans(b, a[i]) by {
        let x = a[i].0 as int;
        let y = a[i].1 as int;
        assert(is_maximal_run(s, v, x, y));
        assert(s[x] == v);
        let j = choose|j: int| #![trigger b[j]] 0 <= j < b.len() && b[j].0 <= x < b[j].1;
        assert(is_maximal_run(s, v, b[j].0 as int, b[j].1 as int));
        lemma_maximal_runs_meet(s, v, x, y, b[j].0 as int, b[j].1 as int);
        assert(b[j] == a[i]);
    }
    assert(spans_within(a, b));
    assert forall|i: int| 0 <= i < a.len() implies a[i].0 < a[i].1 by {
        assert(is_maximal_run(s, v, a[i].0 as int, a[i].1 as int));
    }
}

/// A space has exactly one list of the maximal runs of a value: the regions that are found
/// are determined by the space.
pub proof fn lemma_run_list_unique(s: Seq<Ternary>, v: Ternary, a: Seq<(usize, usize)>, b: Seq<(usize, usize)>)
    requires
        is_run_list(s, v, a),
        is_run_list(s, v, b),
    ensures
        a == b,
{
    lemma_run_lists_within(s, v, a, b);
    lemma_run_lists_within(s, v, b, a);
    lemma_sorted_spans_equal(a, b);
}

/// Every gap of one gap list of `s` is a gap of any other gap list of `s`.
proof fn lemma_gap_lists_within(s: Seq<Ternary>, a: Seq<(usize, usize)>, b: Seq<(usize, usize)>)
    requires
        is_gap_list(s, a),
        is_gap_list(s, b),
    ensures
        spans_within(a, b),
        sorted_spans(a),
{
    assert forall|i: int| 0 <= i < a.len() implies #[trigger] in_spans(b, a[i]) by {
        let x = a[i].0 as int;
        let y = a[i].1 as int;
        assert(is_maximal_run(s, Ternary::Unknown, x, y));
        assert(avoided_before(s, x));
        assert(avoided_from(s, y));
        let w = choose|w: int| y <= w < s.len() && s[w] == Ternary::Avoided;
        assert(avoided_from(s, x));
        assert(s[x] == Ternary::Unknown);
        let j = choose|j: int| #![trigger b[j]] 0 <= j < b.len() && b[j].0 <= x < b[j].1;
        assert(is_maximal_run(s, Ternary::Unknown, b[j].0 as int, b[j].1 as int));
        lemma_maximal_runs_meet(s, Ternary::Unknown, x, y, b[j].0 as int, b[j].1 as int);
        assert(b[j] == a[i]);
    }
    assert(spans_within(a, b));
    assert forall|i: int| 0 <= i < a.len() implies a[i].0 < a[i].1 by {
        assert(is_maximal_run(s, Ternary::Unknown, a[i].0 as int, a[i].1 as int));
    }
}

/// A space has exactly one list of gaps between its avoidance regions.
pub proof fn lemma_gap_list_unique(s: Seq<Ternary>, a: Seq<(usize, usize)>, b: Seq<(usize, usize)>)
    requires
        is_gap_list(s, a),
        is_gap_list(s, b),
    ensures
        a == b,
{
    lemma_gap_lists_within(s, a, b);
    lemma_gap_lists_within(s, b, a);
    lemma_sorted_spans_equal(a, b);
}

/// A space has exactly one list of negative regions.
pub proof fn lemma_negative_regions_unique(s: Seq<Ternary>, a: Seq<NegativeRegion>, b: Seq<NegativeRegion>)
    requires
        is_negative_region_list(s, a),
        is_negative_region_list(s, b),
    ensures
        a == b,
{
    lemma_run_list_unique(s, Ternary::Avoided, spans(a), spans(b));
    assert forall|i: int| 0 <= i < a.len() implies a[i] == b[i] by {
        assert(spans(a)[i] == spans(b)[i]);
        assert(is_region_of(a[i], a[i].start as int, a[i].end as int, s));
        assert(is_region_of(b[i], b[i].start as int, b[i].end as int, s));
    }
    assert(a =~= b);
}


/// The distance between two regions does not depend on the order in which they are taken.
pub proof fn lemma_distance_symmetric(a: NegativeRegion, b: NegativeRegion)
    requires
        a.start <= a.end,
        b.start <= b.end,
    ensures
        region_distance(a, b) == region_distance(b, a),
{
}

/// Every non-empty gap between a region and the next one is listed: for each `i` with
/// `regions[i].end < regions[i + 1].start` the list holds the gap from `regions[i].end` to
/// `regions[i + 1].start` between regions `i` and `i + 1`; no other gap is listed.
pub proof fn lemma_gaps_between_complete(regions: Seq<NegativeRegion>)
    requires
        regions.len() <= usize::MAX,
    ensures
        forall|i: int|
            #![trigger regions[i], regions[i + 1]]
            0 <= i < regions.len() - 1 && regions[i].end < regions[i + 1].start ==> exists|j: int|
                #![trigger gaps_between(regions)[j]]
                0 <= j < gaps_between(regions).len() && {
                    let g = gaps_between(regions)[j];
                    &&& g.start == regions[i].end
                    &&& g.end == regions[i + 1].start
                    &&& g.left_region == i
                    &&& g.right_region == i + 1
                },
        gaps_between(regions).len() <= if regions.len() < 2 {
            0
        } else {
            regions.len() - 1
        },
{
    if regions.len() >= 2 {
        let n = (regions.len() - 1) as nat;
        lemma_gaps_upto_complete(regions, n);
        assert(gaps_between(regions) == gaps_upto(regions, n));
    }
}

proof fn lemma_gaps_upto_complete(regions: Seq<NegativeRegion>, n: nat)
    requires
        regions.len() <= usize::MAX,
        n < regions.len(),
    ensures
        forall|i: int|
            #![trigger regions[i], regions[i + 1]]
            0 <= i < n && regions[i].end < regions[i + 1].start ==> exists|j: int|
                #![trigger gaps_upto(regions, n)[j]]
                0 <= j < gaps_upto(regions, n).len() && {
                    let g = gaps_upto(regions, n)[j];
                    &&& g.start == regions[i].end
                    &&& g.end == regions[i + 1].start
                    &&& g.left_region == i
                    &&& g.right_region == i + 1
                },
        gaps_upto(regions, n).len() <= n,
    decreases n,
{
    if n > 0 {
        let k = (n - 1) as nat;
        lemma_gaps_upto_complete(regions, k);
        let prev = gaps_upto(regions, k);
        let cur = gaps_upto(regions, n);
        assert forall|i: int|
            #![trigger regions[i], regions[i + 1]]
            0 <= i < n && regions[i].end < regions[i + 1].start implies exists|j: int|
                #![trigger cur[j]]
                0 <= j < cur.len() && {
                    let g = cur[j];
                    &&& g.start == regions[i].end
                    &&& g.end == regions[i + 1].start
                    &&& g.left_region == i
                    &&& g.right_region == i + 1
                } by {
            if i < k {
                let j = choose|j: int|
                    #![trigger prev[j]]
                    0 <= j < prev.len() && {
                        let g = prev[j];
                        &&& g.start == regions[i].end
                        &&& g.end == regions[i + 1].start
                        &&& g.left_region == i
                        &&& g.right_region == i + 1
                    };
                assert(cur[j] == prev[j]);
            } else {
                assert(cur[cur.len() - 1] == gap_after(regions, i));
            }
        }
    }
}

/// A region of a space knows the values just outside it: its left boundary is absent exactly
/// at the start of the space and is otherwise the value just before it, its right boundary
/// is absent exactly at the end of the space and is otherwise the value just after it, and
/// its size is its length. In a space's list of negative regions neither boundary is avoided.
pub proof fn lemma_region_boundaries(s: Seq<Ternary>, regions: Seq<NegativeRegion>, i: int)
    requires
        is_negative_region_list(s, regions),
        0 <= i < regions.len(),
    ensures
        regions[i].size == regions[i].end - regions[i].start,
        regions[i].left_boundary is None <==> regions[i].start == 0,
        regions[i].start > 0 ==> regions[i].left_boundary == Some(s[regions[i].start - 1]),
        regions[i].right_boundary is None <==> regions[i].end == s.len(),
        regions[i].end < s.len() ==> regions[i].right_boundary == Some(s[regions[i].end as int]),
        regions[i].left_boundary != Some(Ternary::Avoided),
        regions[i].right_boundary != Some(Ternary::Avoided),
{
    let sp = spans(regions);
    assert(sp[i] == (regions[i].start, regions[i].end));
    assert(is_maximal_run(s, Ternary::Avoided, sp[i].0 as int, sp[i].1 as int));
    assert(is_region_of(regions[i], regions[i].start as int, regions[i].end as int, s));
}

/// Two regions share a boundary type exactly when the first one's right boundary is present
/// and equal to the second one's left boundary.
pub proof fn lemma_shares_boundary(a: NegativeRegion, b: NegativeRegion)
    ensures
        shares_boundary(a, b) <==> (a.right_boundary is Some && a.right_boundary == b.left_boundary),
{
}

} // verus!
