//! The catalogue of reference voices: 88 reading cards, 44 in each of two
//! halves.

use vstd::prelude::*;

verus! {

/// The number of reference voices.
pub const CARD_COUNT: u8 = 88;

/// The number of reference voices in each half of the catalogue.
pub const HALF_COUNT: u8 = 44;

/// The character of the decimal digit `d`.
pub open spec fn digit(d: int) -> char {
    if d == 0 {
        '0'
    } else if d == 1 {
        '1'
    } else if d == 2 {
        '2'
    } else if d == 3 {
        '3'
    } else if d == 4 {
        '4'
    } else if d == 5 {
        '5'
    } else if d == 6 {
        '6'
    } else if d == 7 {
        '7'
    } else if d == 8 {
        '8'
    } else {
        '9'
    }
}

/// The decimal digits of a number below 100, without a leading zero.
pub open spec fn decimal(n: int) -> Seq<char> {
    if n < 10 {
        seq![digit(n)]
    } else {
        seq![digit(n / 10), digit(n % 10)]
    }
}

/// A letter followed by the two decimal digits of a number below 100.
pub open spec fn label_text(letter: char, n: int) -> Seq<char> {
    seq![letter, digit(n / 10), digit(n % 10)]
}

/// Calls `ToString::to_string` on a `u8`. For a number below 100 the text
/// is its decimal digits without a leading zero.
#[verifier::external_body]
fn decimal_string(n: u8) -> (s: String)
    requires
        n < 100,
    ensures
        s@ == decimal(n as int),
{
    n.to_string()
}

/// Formats a letter and a number with `format!` as `{}{:02}`. For a number
/// below 100 the text is the letter and the number's two decimal digits.
#[verifier::external_body]
fn label_string(letter: char, n: u8) -> (s: String)
    requires
        n < 100,
    ensures
        s@ == label_text(letter, n as int),
{
    format!("{}{:02}", letter, n)
}

/// The index of a reference voice, below 88.
#[derive(Debug, Clone, Copy, PartialEq, Eq, PartialOrd, Ord, Hash)]
pub struct CardVoiceIndex(u8);

impl View for CardVoiceIndex {
    type V = int;

    /// The index, in `[0, 88)`.
    closed spec fn view(&self) -> int {
        self.0 as int
    }
}

impl CardVoiceIndex {
    /// The index is below the number of cards.
    #[verifier::type_invariant]
    pub closed spec fn wf(self) -> bool {
        self.0 < CARD_COUNT
    }

    /// The number of this card within its half, from 1 to 44.
    pub open spec fn number_in_half(self) -> int {
        if self@ < HALF_COUNT {
            self@ + 1
        } else {
            self@ + 1 - HALF_COUNT
        }
    }

    /// The card with the given index.
    pub fn new(index: u8) -> (r: Self)
        requires
            index < CARD_COUNT,
        ensures
            r@ == index,
            r.wf(),
    {
        Self(index)
    }

    /// The index.
    pub fn index(self) -> (i: u8)
        ensures
            i == self@,
            i < CARD_COUNT,
    {
        proof {
            use_type_invariant(&self);
        }
        self.0
    }

    /// All the cards, in order of index.
    pub fn all() -> (cards: Vec<CardVoiceIndex>)
        ensures
            cards@.len() == CARD_COUNT,
            forall|i: int| 0 <= i < cards@.len() ==> (#[trigger] cards@[i])@ == i,
    {
        let mut cards: Vec<CardVoiceIndex> = Vec::new();
        let mut i: u8 = 0;
        while i < CARD_COUNT
            invariant
                i <= CARD_COUNT,
                cards@.len() == i,
                forall|k: int| 0 <= k < i ==> (#[trigger] cards@[k])@ == k,
            decreases CARD_COUNT - i,
        {
            cards.push(Self::new(i));
            i = i + 1;
        }
        cards
    }

    /// The card's label: `E` for the first half and `J` for the second,
    /// then the two-digit number within the half.
    pub fn label(self) -> (s: String)
        ensures
            s@ == label_text(
                if self@ < HALF_COUNT {
                    'E'
                } else {
                    'J'
                },
                self.number_in_half(),
            ),
    {
        proof {
            use_type_invariant(&self);
        }
        if self.0 < HALF_COUNT {
            label_string('E', self.0 + 1)
        } else {
            label_string('J', self.0 + 1 - HALF_COUNT)
        }
    }

    /// The text by which an answer names this card: its number within its
    /// half, counted from one.
    pub fn into_answer_string(self) -> (s: String)
        ensures
            s@ == decimal(self.number_in_half()),
    {
        proof {
            use_type_invariant(&self);
        }
        if self.0 < HALF_COUNT {
            decimal_string(self.0 + 1)
        } else {
            decimal_string(self.0 + 1 - HALF_COUNT)
        }
    }
}

} // verus!
