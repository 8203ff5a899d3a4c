use vstd::prelude::*;

use crate::ratio::Ratio;
use crate::ternary::Ternary;

verus! {

/// The value at `pos` of the space `s`; positions outside the space read as unknown.
pub open spec fn cell(s: Seq<Ternary>, pos: int) -> Ternary {
    if 0 <= pos < s.len() {
        s[pos]
    } else {
        Ternary::Unknown
    }
}

/// The space `s` after writing `v` at `pos`; a write outside the space changes nothing.
pub open spec fn written(s: Seq<Ternary>, pos: int, v: Ternary) -> Seq<Ternary> {
    if 0 <= pos < s.len() {
        s.update(pos, v)
    } else {
        s
    }
}

/// The positions of `s` that hold `v`, in increasing order.
pub open spec fn positions_of(s: Seq<Ternary>, v: Ternary) -> Seq<usize>
    decreases s.len(),
{
    if s.len() == 0 {
        Seq::empty()
    } else {
        let rest = positions_of(s.drop_last(), v);
        if s.last() == v {
            rest.push((s.len() - 1) as usize)
        } else {
            rest
        }
    }
}

/// The number of positions of `s` that hold `v`.
pub open spec fn count_of(s: Seq<Ternary>, v: Ternary) -> nat
    decreases s.len(),
{
    if s.len() == 0 {
        0
    } else {
        count_of(s.drop_last(), v) + if s.last() == v {
            1nat
        } else {
            0nat
        }
    }
}

/// The displayed form of a space: the symbols of its values, in order.
pub open spec fn render(s: Seq<Ternary>) -> Seq<char>
    decreases s.len(),
{
    if s.len() == 0 {
        Seq::empty()
    } else {
        render(s.drop_last()) + s.last().symbol()
    }
}

/// The number of offsets `i < n` at which `s` holds the same value at `a + i` and at `b + i`.
pub open spec fn matches_count(s: Seq<Ternary>, a: int, b: int, n: nat) -> nat
    decreases n,
{
    if n == 0 {
        0
    } else {
        let k = (n - 1) as nat;
        matches_count(s, a, b, k) + if cell(s, a + k) == cell(s, b + k) {
            1nat
        } else {
            0nat
        }
    }
}

/// `hi - lo`, or zero where `hi < lo`.
pub open spec fn span(lo: int, hi: int) -> nat {
    if hi > lo {
        (hi - lo) as nat
    } else {
        0
    }
}

/// A space of ternary decisions: each position holds avoided, unknown or chosen.
#[derive(Clone, Debug)]
pub struct TernarySpace {
    values: Vec<Ternary>,
}

impl View for TernarySpace {
    type V = Seq<Ternary>;

    closed spec fn view(&self) -> Seq<Ternary> {
        self.values@
    }
}

impl TernarySpace {
    /// Create a new space of the given size, all positions unknown.
    pub fn new(size: usize) -> (s: TernarySpace)
        ensures
            s@ == Seq::new(size as nat, |i: int| Ternary::Unknown),
    {
        let mut values: Vec<Ternary> = Vec::new();
        let mut i: usize = 0;
        while i < size
            invariant
                i <= size,
                values@ == Seq::new(i as nat, |k: int| Ternary::Unknown),
            decreases size - i,
        {
            values.push(Ternary::Unknown);
            i = i + 1;
        }
        TernarySpace { values }
    }

    /// A copy of this space.
    pub(crate) fn duplicate(&self) -> (s: TernarySpace)
        ensures
            s@ == self@,
    {
        let mut values: Vec<Ternary> = Vec::new();
        let mut i: usize = 0;
        while i < self.values.len()
            invariant
                i <= self.values@.len(),
                values@ == self.values@.take(i as int),
            decreases self.values@.len() - i,
        {
            values.push(self.values[i]);
            i = i + 1;
            assert(values@ == self.values@.take(i as int));
        }
        assert(values@ == self.values@);
        TernarySpace { values }
    }

    /// Get the size of the space.
    pub fn size(&self) -> (n: usize)
        ensures
            n == self@.len(),
    {
        self.values.len()
    }

    /// Get the value at a position; positions outside the space are unknown.
    pub fn get(&self, pos: usize) -> (t: Ternary)
        ensures
            t == cell(self@, pos as int),
    {
        if pos < self.values.len() {
            self.values[pos]
        } else {
            Ternary::Unknown
        }
    }

    /// Set the value at a position from an i8 (clamped); a position outside the space is ignored.
    pub fn set(&mut self, pos: usize, value: i8)
        ensures
            final(self)@ == written(old(self)@, pos as int, Ternary::from_int(value as int)),
    {
        if pos < self.values.len() {
            let t = Ternary::from_i8(value);
            self.values.set(pos, t);
        }
    }

    /// Set the value at a position; a position outside the space is ignored.
    pub fn set_ternary(&mut self, pos: usize, value: Ternary)
        ensures
            final(self)@ == written(old(self)@, pos as int, value),
    {
        if pos < self.values.len() {
            self.values.set(pos, value);
        }
    }

    /// All positions that hold the given value, in increasing order.
    pub fn positions_with(&self, value: Ternary) -> (r: Vec<usize>)
        ensures
            r@ == positions_of(self@, value),
    {
        let mut r: Vec<usize> = Vec::new();
        let mut i: usize = 0;
        while i < self.values.len()
            invariant
                i <= self.values@.len(),
                r@ == positions_of(self.values@.take(i as int), value),
            decreases self.values@.len() - i,
        {
            assert(self.values@.take(i + 1).drop_last() == self.values@.take(i as int));
            if self.values[i] == value {
                r.push(i);
            }
            i = i + 1;
        }
        assert(self.values@.take(i as int) == self.values@);
        r
    }

    /// The number of positions that hold the given value.
    pub fn count(&self, value: Ternary) -> (n: usize)
        ensures
            n == count_of(self@, value),
    {
        let mut n: usize = 0;
        let mut i: usize = 0;
        while i < self.values.len()
            invariant
                i <= self.values@.len(),
                n == count_of(self.values@.take(i as int), value),
                n <= i,
            decreases self.values@.len() - i,
        {
            assert(self.values@.take(i + 1).drop_last() == self.values@.take(i as int));
            if self.values[i] == value {
                n = n + 1;
            }
            i = i + 1;
        }
        assert(self.values@.take(i as int) == self.values@);
        n
    }

    /// The values of the space, in order.
    pub fn as_slice(&self) -> (r: &[Ternary])
        ensures
            r@ == self@,
    {
        self.values.as_slice()
    }

    /// The fraction of aligned positions at which the regions `[start_a, end_a)` and
    /// `[start_b, end_b)` hold the same value, over the length of the shorter region;
    /// zero where either region is empty.
    pub fn structural_similarity(&self, start_a: usize, end_a: usize, start_b: usize, end_b: usize) -> (r: Ratio)
        ensures
            ({
                let len_a = span(start_a as int, end_a as int);
                let len_b = span(start_b as int, end_b as int);
                let m = if len_a < len_b { len_a } else { len_b };
                if m == 0 {
                    r.numer() == 0 && r.denom() == 1
                } else {
                    r.numer() == matches_count(self@, start_a as int, start_b as int, m)
                        && r.denom() == m
                }
            }),
            r.numer() <= r.denom(),
    {
        let len_a = end_a.saturating_sub(start_a);
        let len_b = end_b.saturating_sub(start_b);
        if len_a == 0 || len_b == 0 {
            return Ratio::zero();
        }
        let min_len = if len_a < len_b { len_a } else { len_b };
        let mut matches: usize = 0;
        let mut i: usize = 0;
        while i < min_len
            invariant
                i <= min_len,
                min_len <= end_a - start_a,
                min_len <= end_b - start_b,
                matches == matches_count(self@, start_a as int, start_b as int, i as nat),
                matches <= i,
            decreases min_len - i,
        {
            if self.get(start_a + i) == self.get(start_b + i) {
                matches = matches + 1;
            }
            i = i + 1;
        }
        assert(matches <= min_len);
        Ratio::new(matches as u128, min_len as u128)
    }

    /// The displayed form of the space: one symbol per position.
    pub fn to_string(&self) -> (s: String)
        ensures
            s@ == render(self@),
    {
        let mut s = String::new();
        let mut i: usize = 0;
        while i < self.values.len()
            invariant
                i <= self.values@.len(),
                s@ == render(self.values@.take(i as int)),
            decreases self.values@.len() - i,
        {
            assert(self.values@.take(i + 1).drop_last() == self.values@.take(i as int));
            let sym = self.values[i].to_string();
            s.append(sym.as_str());
            i = i + 1;
        }
        assert(self.values@.take(i as int) == self.values@);
        s
    }
}


/// A read after a write gives back what was written at that position, and what was
/// there before everywhere else; a write never changes the size of the space.
pub proof fn lemma_read_after_write(s: Seq<Ternary>, pos: int, v: Ternary, q: int)
    ensures
        written(s, pos, v).len() == s.len(),
        cell(written(s, pos, v), q) == if q == pos && 0 <= pos < s.len() {
            v
        } else {
            cell(s, q)
        },
{
}

/// The positions holding a value are strictly increasing, each lies in the space and
/// holds the value, every position holding the value is among them, and there are
/// exactly as many of them as the count of the value.
pub proof fn lemma_positions_of(s: Seq<Ternary>, v: Ternary)
    requires
        s.len() <= usize::MAX,
    ensures
        forall|i: int, j: int|
            0 <= i < j < positions_of(s, v).len() ==> positions_of(s, v)[i] < positions_of(s, v)[j],
        forall|i: int|
            0 <= i < positions_of(s, v).len() ==> (positions_of(s, v)[i] < s.len() && s[positions_of(s, v)[i] as int] == v),
        forall|k: int| 0 <= k < s.len() && s[k] == v ==> positions_of(s, v).contains(k as usize),
        positions_of(s, v).len() == count_of(s, v),
    decreases s.len(),
{
    if s.len() > 0 {
        let t = s.drop_last();
        lemma_positions_of(t, v);
        let p = positions_of(s, v);
        let q = positions_of(t, v);
        assert(forall|i: int| 0 <= i < q.len() ==> p[i] == q[i]);
        assert forall|k: int| 0 <= k < s.len() && s[k] == v implies p.contains(k as usize) by {
            if k < s.len() - 1 {
                assert(t[k] == v);
                assert(q.contains(k as usize));
                let w = choose|w: int| 0 <= w < q.len() && q[w] == k as usize;
                assert(p[w] == k as usize);
            } else {
                assert(p[p.len() - 1] == k as usize);
            }
        }
    }
}

/// Every position holds exactly one of the three values, so their counts add up to the size.
pub proof fn lemma_counts_partition(s: Seq<Ternary>)
    ensures
        count_of(s, Ternary::Avoided) + count_of(s, Ternary::Unknown) + count_of(s, Ternary::Chosen) == s.len(),
    decreases s.len(),
{
    if s.len() > 0 {
        lemma_counts_partition(s.drop_last());
    }
}

/// The displayed form has one symbol per position, the symbol of the value there.
pub proof fn lemma_render(s: Seq<Ternary>)
    ensures
        render(s).len() == s.len(),
        forall|i: int| #![trigger s[i]] 0 <= i < s.len() ==> seq![render(s)[i]] == s[i].symbol(),
    decreases s.len(),
{
    if s.len() > 0 {
        let d = s.drop_last();
        lemma_render(d);
        let r = render(s);
        assert(r == render(d) + s.last().symbol());
        assert forall|i: int| #![trigger s[i]] 0 <= i < s.len() implies seq![r[i]] == s[i].symbol() by {
            if i < d.len() {
                assert(d[i] == s[i]);
                assert(r[i] == render(d)[i]);
            } else {
                assert(r[i] == s.last().symbol()[0]);
            }
        }
    }
}

/// `s` holds the same value at `a + k` and at `b + k`.
pub open spec fn same_at(s: Seq<Ternary>, a: int, b: int, k: int) -> bool {
    cell(s, a + k) == cell(s, b + k)
}

/// Comparing a region with itself matches at every offset, and the count of matching offsets
/// does not depend on which region is named first; it never exceeds the number of offsets.
pub proof fn lemma_matches(s: Seq<Ternary>, a: int, b: int, n: nat)
    ensures
        matches_count(s, a, a, n) == n,
        matches_count(s, a, b, n) == matches_count(s, b, a, n),
        matches_count(s, a, b, n) <= n,
        matches_count(s, a, b, n) == n <==> forall|k: int| 0 <= k < n ==> #[trigger] same_at(s, a, b, k),
        matches_count(s, a, b, n) == 0 <==> forall|k: int| 0 <= k < n ==> !#[trigger] same_at(s, a, b, k),
    decreases n,
{
    if n > 0 {
        let m = (n - 1) as nat;
        lemma_matches(s, a, b, m);
        if matches_count(s, a, b, n) == n {
            assert forall|k: int| 0 <= k < n implies #[trigger] same_at(s, a, b, k) by {
                if k < m {
                    assert(matches_count(s, a, b, m) == m);
                }
            }
        }
        if forall|k: int| 0 <= k < n ==> #[trigger] same_at(s, a, b, k) {
            assert(same_at(s, a, b, m as int));
            assert(forall|k: int| 0 <= k < m ==> #[trigger] same_at(s, a, b, k));
        }
        if matches_count(s, a, b, n) == 0 {
            assert forall|k: int| 0 <= k < n implies !#[trigger] same_at(s, a, b, k) by {
                if k < m {
                    assert(matches_count(s, a, b, m) == 0);
                }
            }
        }
        if forall|k: int| 0 <= k < n ==> !#[trigger] same_at(s, a, b, k) {
            assert(!same_at(s, a, b, m as int));
            assert(forall|k: int| 0 <= k < m ==> !#[trigger] same_at(s, a, b, k));
        }
    }
}

/// The span from `lo` to `hi` is their difference when `lo <= hi`, and zero otherwise.
pub proof fn lemma_span(lo: int, hi: int)
    ensures
        lo <= hi ==> lo + span(lo, hi) == hi,
        hi <= lo ==> span(lo, hi) == 0,
{
}

} // verus!
