use vstd::prelude::*;

use crate::inference::Inference;
use crate::ratio::Ratio;
use crate::ternary::Ternary;

verus! {

/// The number of records whose prediction was correct.
pub open spec fn correct_count(r: Seq<(usize, Ternary, Ternary, bool)>) -> nat
    decreases r.len(),
{
    if r.len() == 0 {
        0
    } else {
        correct_count(r.drop_last()) + if r.last().3 {
            1nat
        } else {
            0nat
        }
    }
}

/// The number of records about one of the positions `ps`.
pub open spec fn matched_count(r: Seq<(usize, Ternary, Ternary, bool)>, ps: Seq<usize>) -> nat
    decreases r.len(),
{
    if r.len() == 0 {
        0
    } else {
        matched_count(r.drop_last(), ps) + if ps.contains(r.last().0) {
            1nat
        } else {
            0nat
        }
    }
}

/// The number of correct records about one of the positions `ps`.
pub open spec fn matched_correct_count(r: Seq<(usize, Ternary, Ternary, bool)>, ps: Seq<usize>) -> nat
    decreases r.len(),
{
    if r.len() == 0 {
        0
    } else {
        matched_correct_count(r.drop_last(), ps) + if ps.contains(r.last().0) && r.last().3 {
            1nat
        } else {
            0nat
        }
    }
}

/// The record of predicting `predicted` at `position` when the actual value was `actual`.
pub open spec fn record_of(position: usize, predicted: Ternary, actual: Ternary) -> (
    usize,
    Ternary,
    Ternary,
    bool,
) {
    (position, predicted, actual, predicted == actual)
}

/// Each record is marked correct exactly when its prediction equals its actual value.
pub open spec fn flags_consistent(r: Seq<(usize, Ternary, Ternary, bool)>) -> bool {
    forall|i: int| 0 <= i < r.len() ==> (r[i].3 <==> r[i].1 == r[i].2)
}

/// Tests deductions against actual outcomes and tracks accuracy.
#[derive(Debug)]
pub struct FeedbackValidator {
    total: usize,
    correct: usize,
    records: Vec<(usize, Ternary, Ternary, bool)>,
}

impl View for FeedbackValidator {
    type V = Seq<(usize, Ternary, Ternary, bool)>;

    /// The records, oldest first: (position, predicted, actual, correct).
    closed spec fn view(&self) -> Seq<(usize, Ternary, Ternary, bool)> {
        self.records@
    }
}

impl FeedbackValidator {
    /// The counters agree with the records.
    #[verifier::type_invariant]
    spec fn counters_agree(&self) -> bool {
        &&& self.total == self.records@.len()
        &&& self.correct == correct_count(self.records@)
        &&& flags_consistent(self.records@)
    }

    /// Create a new validator with no records.
    pub fn new() -> (v: FeedbackValidator)
        ensures
            v@ == Seq::<(usize, Ternary, Ternary, bool)>::empty(),
    {
        FeedbackValidator { total: 0, correct: 0, records: Vec::new() }
    }

    /// Record an inference's prediction against the actual value.
    pub fn record(&mut self, inference: &Inference, actual: Ternary)
        requires
            old(self)@.len() < usize::MAX,
        ensures
            final(self)@ == old(self)@.push(record_of(inference.position, inference.predicted, actual)),
    {
        self.record_prediction(inference.position, inference.predicted, actual);
    }

    /// Record a prediction directly.
    pub fn record_prediction(&mut self, position: usize, predicted: Ternary, actual: Ternary)
        requires
            old(self)@.len() < usize::MAX,
        ensures
            final(self)@ == old(self)@.push(record_of(position, predicted, actual)),
    {
        let is_correct = predicted == actual;
        proof {
            use_type_invariant(&*self);
            lemma_correct_bounded(self.records@);
        }
        let mut old_self = FeedbackValidator::new();
        std::mem::swap(&mut old_self, self);
        proof {
            use_type_invariant(&old_self);
        }
        let FeedbackValidator { total, correct, mut records } = old_self;
        let ghost before = records@;
        records.push((position, predicted, actual, is_correct));
        assert(records@.drop_last() == before);
        let correct = if is_correct {
            correct + 1
        } else {
            correct
        };
        assert(records@.last().3 == is_correct);
        assert(correct_count(records@) == correct);
        assert forall|i: int| 0 <= i < records@.len() implies (records@[i].3 <==> records@[i].1
            == records@[i].2) by {
            if i < before.len() {
                assert(records@[i] == before[i]);
            }
        }
        *self = FeedbackValidator { total: total + 1, correct, records };
    }

    /// The fraction of correct predictions; zero where nothing was recorded.
    pub fn accuracy(&self) -> (a: Ratio)
        ensures
            self@.len() == 0 ==> a.numer() == 0 && a.denom() == 1,
            self@.len() > 0 ==> a.numer() == correct_count(self@) && a.denom() == self@.len(),
            a.numer() <= a.denom(),
    {
        proof {
            use_type_invariant(self);
            lemma_correct_bounded(self.records@);
        }
        if self.total == 0 {
            Ratio::zero()
        } else {
            Ratio::new(self.correct as u128, self.total as u128)
        }
    }

    /// Total number of validations.
    pub fn total(&self) -> (n: usize)
        ensures
            n == self@.len(),
    {
        proof {
            use_type_invariant(self);
        }
        self.total
    }

    /// Number of correct predictions: the records whose prediction equals the actual value.
    pub fn correct(&self) -> (n: usize)
        ensures
            n == correct_count(self@),
            n == self@.filter(|x: (usize, Ternary, Ternary, bool)| x.1 == x.2).len(),
    {
        proof {
            use_type_invariant(self);
            lemma_correct_count_matches(self.records@);
        }
        self.correct
    }

    /// All records, oldest first; each is marked correct exactly when its prediction equals
    /// its actual value.
    pub fn records(&self) -> (r: &[(usize, Ternary, Ternary, bool)])
        ensures
            r@ == self@,
            flags_consistent(r@),
    {
        proof {
            use_type_invariant(self);
        }
        self.records.as_slice()
    }

    /// The fraction of correct predictions among the records about one of the given
    /// positions; zero where no record is about any of them.
    pub fn accuracy_for_positions(&self, positions: &[usize]) -> (a: Ratio)
        ensures
            matched_count(self@, positions@) == 0 ==> a.numer() == 0 && a.denom() == 1,
            matched_count(self@, positions@) > 0 ==> a.numer() == matched_correct_count(
                self@,
                positions@,
            ) && a.denom() == matched_count(self@, positions@),
            a.numer() <= a.denom(),
    {
        let ghost r = self.records@;
        let ghost ps = positions@;
        let mut matched: usize = 0;
        let mut ok: usize = 0;
        let mut i: usize = 0;
        while i < self.records.len()
            invariant
                r == self.records@,
                ps == positions@,
                i <= r.len(),
                matched == matched_count(r.take(i as int), ps),
                ok == matched_correct_count(r.take(i as int), ps),
                matched <= i,
                ok <= matched,
            decreases r.len() - i,
        {
            assert(r.take(i + 1).drop_last() == r.take(i as int));
            let (p, _, _, is_ok) = self.records[i];
            if contains_position(positions, p) {
                matched = matched + 1;
                if is_ok {
                    ok = ok + 1;
                }
            }
            i = i + 1;
        }
        assert(r.take(i as int) == r);
        if matched == 0 {
            Ratio::zero()
        } else {
            Ratio::new(ok as u128, matched as u128)
        }
    }

    /// Reset the validator: forget all records.
    pub fn reset(&mut self)
        ensures
            final(self)@ == Seq::<(usize, Ternary, Ternary, bool)>::empty(),
    {
        *self = FeedbackValidator::new();
    }
}

impl Clone for FeedbackValidator {
    /// A validator with the same records.
    fn clone(&self) -> (v: FeedbackValidator)
        ensures
            v@ == self@,
    {
        proof {
            use_type_invariant(self);
        }
        let mut records: Vec<(usize, Ternary, Ternary, bool)> = Vec::new();
        let mut i: usize = 0;
        while i < self.records.len()
            invariant
                i <= self.records@.len(),
                records@ == self.records@.take(i as int),
            decreases self.records@.len() - i,
        {
            records.push(self.records[i]);
            i = i + 1;
            assert(records@ == self.records@.take(i as int));
        }
        assert(records@ == self.records@);
        FeedbackValidator { total: self.total, correct: self.correct, records }
    }
}

impl Default for FeedbackValidator {
    fn default() -> (v: FeedbackValidator)
        ensures
            v@ == Seq::<(usize, Ternary, Ternary, bool)>::empty(),
    {
        FeedbackValidator::new()
    }
}

/// Is `p` one of `ps`?
fn contains_position(ps: &[usize], p: usize) -> (b: bool)
    ensures
        b == ps@.contains(p),
{
    let mut i: usize = 0;
    while i < ps.len()
        invariant
            i <= ps@.len(),
            forall|j: int| 0 <= j < i ==> ps@[j] != p,
        decreases ps@.len() - i,
    {
        if ps[i] == p {
            return true;
        }
        i = i + 1;
    }
    false
}

/// The number of correct records is at most the number of records.
pub proof fn lemma_correct_bounded(r: Seq<(usize, Ternary, Ternary, bool)>)
    ensures
        correct_count(r) <= r.len(),
    decreases r.len(),
{
    if r.len() > 0 {
        lemma_correct_bounded(r.drop_last());
    }
}

/// Recording a prediction appends `(position, predicted, actual, correct)` where `correct`
/// holds exactly when the prediction equals the actual value, so the number of correct
/// predictions grows by one for a right prediction and stays the same for a wrong one, while
/// the number of records grows by one.
pub proof fn lemma_record_counts(
    records: Seq<(usize, Ternary, Ternary, bool)>,
    position: usize,
    predicted: Ternary,
    actual: Ternary,
)
    ensures
        records.push(record_of(position, predicted, actual)).last().0 == position,
        records.push(record_of(position, predicted, actual)).last().1 == predicted,
        records.push(record_of(position, predicted, actual)).last().2 == actual,
        records.push(record_of(position, predicted, actual)).last().3 <==> predicted == actual,
        predicted == actual ==> correct_count(records.push(record_of(position, predicted, actual)))
            == correct_count(records) + 1,
        predicted != actual ==> correct_count(records.push(record_of(position, predicted, actual)))
            == correct_count(records),
        records.push(record_of(position, predicted, actual)).len() == records.len() + 1,
{
    let r = records.push(record_of(position, predicted, actual));
    assert(r.drop_last() == records);
}

/// A list of records in which each flag says whether the prediction equals the actual value
/// has as many correct records as records whose prediction equals the actual value.
pub proof fn lemma_correct_count_matches(r: Seq<(usize, Ternary, Ternary, bool)>)
    requires
        forall|i: int| 0 <= i < r.len() ==> (r[i].3 <==> r[i].1 == r[i].2),
    ensures
        correct_count(r) == r.filter(|x: (usize, Ternary, Ternary, bool)| x.1 == x.2).len(),
    decreases r.len(),
{
    reveal_with_fuel(Seq::filter, 1);
    if r.len() > 0 {
        let d = r.drop_last();
        assert forall|i: int| 0 <= i < d.len() implies (d[i].3 <==> d[i].1 == d[i].2) by {
            assert(d[i] == r[i]);
        }
        lemma_correct_count_matches(d);
    }
}

} // verus!
