use vstd::prelude::*;

verus! {

/// A ternary value: avoided (-1), unknown (0) or chosen (+1).
#[derive(Clone, Copy, Debug, PartialEq, Eq, Hash, Structural)]
pub enum Ternary {
    Avoided,
    Unknown,
    Chosen,
}

impl Ternary {
    /// The integer that the value stands for.
    pub open spec fn value(self) -> int {
        match self {
            Ternary::Avoided => -1,
            Ternary::Unknown => 0,
            Ternary::Chosen => 1,
        }
    }

    /// The value that an integer stands for, clamped to the range -1..=1.
    pub open spec fn from_int(v: int) -> Ternary {
        if v < 0 {
            Ternary::Avoided
        } else if v == 0 {
            Ternary::Unknown
        } else {
            Ternary::Chosen
        }
    }

    /// Create from an i8 value, clamping to the valid range.
    pub fn from_i8(v: i8) -> (t: Ternary)
        ensures
            t == Self::from_int(v as int),
    {
        if v <= -1 {
            Ternary::Avoided
        } else if v == 0 {
            Ternary::Unknown
        } else {
            Ternary::Chosen
        }
    }

    /// Convert to i8.
    pub fn as_i8(self) -> (v: i8)
        ensures
            v as int == self.value(),
    {
        match self {
            Ternary::Avoided => -1,
            Ternary::Unknown => 0,
            Ternary::Chosen => 1,
        }
    }

    /// Is this an avoidance?
    pub fn is_avoided(self) -> (b: bool)
        ensures
            b == (self == Ternary::Avoided),
    {
        self == Ternary::Avoided
    }

    /// Is this unknown?
    pub fn is_unknown(self) -> (b: bool)
        ensures
            b == (self == Ternary::Unknown),
    {
        self == Ternary::Unknown
    }

    /// Is this a choice?
    pub fn is_chosen(self) -> (b: bool)
        ensures
            b == (self == Ternary::Chosen),
    {
        self == Ternary::Chosen
    }

    /// The one-character symbol that displays the value.
    pub open spec fn symbol(self) -> Seq<char> {
        match self {
            Ternary::Avoided => seq!['\u{2717}'],
            Ternary::Unknown => seq!['?'],
            Ternary::Chosen => seq!['\u{2713}'],
        }
    }

    /// The displayed form of the value: a cross, a question mark or a tick.
    pub fn to_string(self) -> (s: String)
        ensures
            s@ == self.symbol(),
    {
        match self {
            Ternary::Avoided => {
                proof {
                    reveal_strlit("\u{2717}");
                }
                String::from_str("\u{2717}")
            },
            Ternary::Unknown => {
                proof {
                    reveal_strlit("?");
                }
                String::from_str("?")
            },
            Ternary::Chosen => {
                proof {
                    reveal_strlit("\u{2713}");
                }
                String::from_str("\u{2713}")
            },
        }
    }
}

/// Converting a value to its integer and back gives the value again.
pub proof fn lemma_value_round_trip(t: Ternary)
    ensures
        Ternary::from_int(t.value()) == t,
        -1 <= t.value() <= 1,
{
}

/// Every integer in -1..=1 is the value of exactly the ternary built from it.
pub proof fn lemma_int_round_trip(v: int)
    requires
        -1 <= v <= 1,
    ensures
        Ternary::from_int(v).value() == v,
{
}

/// Every integer stands for the value of its sign, and the three values display as three
/// different one-character symbols.
pub proof fn lemma_sign_and_symbols(v: int)
    ensures
        Ternary::from_int(v).value() == if v < 0 {
            -1int
        } else if v == 0 {
            0int
        } else {
            1int
        },
        Ternary::Avoided.symbol().len() == 1,
        Ternary::Unknown.symbol().len() == 1,
        Ternary::Chosen.symbol().len() == 1,
        Ternary::Avoided.symbol() != Ternary::Unknown.symbol(),
        Ternary::Avoided.symbol() != Ternary::Chosen.symbol(),
        Ternary::Unknown.symbol() != Ternary::Chosen.symbol(),
{
    assert(Ternary::Avoided.symbol()[0] != Ternary::Unknown.symbol()[0]);
    assert(Ternary::Avoided.symbol()[0] != Ternary::Chosen.symbol()[0]);
    assert(Ternary::Unknown.symbol()[0] != Ternary::Chosen.symbol()[0]);
}

} // verus!
