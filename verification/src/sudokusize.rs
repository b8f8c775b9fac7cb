use vstd::prelude::*;
use crate::errors::SudError;

verus! {

/// The box width of a puzzle: a puzzle of size `n` has houses of `n * n` cells.
#[derive(Debug, Copy, Clone, PartialEq, Eq, Structural, Ord, PartialOrd, Hash)]
pub enum SudokuSize {
    Two,
    Three,
    Four,
    Five,
    Six,
    Seven,
    Eight,
    Nine,
    Ten,
}

impl SudokuSize {
    /// The box width.
    pub open spec fn spec_size(self) -> nat {
        match self {
            SudokuSize::Two => 2,
            SudokuSize::Three => 3,
            SudokuSize::Four => 4,
            SudokuSize::Five => 5,
            SudokuSize::Six => 6,
            SudokuSize::Seven => 7,
            SudokuSize::Eight => 8,
            SudokuSize::Nine => 9,
            SudokuSize::Ten => 10,
        }
    }

    /// The number of cells in a row, column or box.
    pub open spec fn spec_house(self) -> nat {
        self.spec_size() * self.spec_size()
    }

    /// The number of cells of the puzzle.
    pub open spec fn spec_total(self) -> nat {
        self.spec_house() * self.spec_house()
    }

    pub proof fn lemma_sizes(self)
        ensures
            self.spec_house() == self.spec_size() * self.spec_size(),
            self.spec_total() == self.spec_house() * self.spec_house(),
            2 <= self.spec_size() <= 10,
            4 <= self.spec_house() <= 100,
            16 <= self.spec_total() <= 10000,
            self.spec_size() < self.spec_house() < self.spec_total(),
            self == SudokuSize::Two ==> self.spec_house() == 4 && self.spec_total() == 16,
            self == SudokuSize::Three ==> self.spec_house() == 9 && self.spec_total() == 81,
            self == SudokuSize::Four ==> self.spec_house() == 16 && self.spec_total() == 256,
            self == SudokuSize::Five ==> self.spec_house() == 25 && self.spec_total() == 625,
            self == SudokuSize::Six ==> self.spec_house() == 36 && self.spec_total() == 1296,
            self == SudokuSize::Seven ==> self.spec_house() == 49 && self.spec_total() == 2401,
            self == SudokuSize::Eight ==> self.spec_house() == 64 && self.spec_total() == 4096,
            self == SudokuSize::Nine ==> self.spec_house() == 81 && self.spec_total() == 6561,
            self == SudokuSize::Ten ==> self.spec_house() == 100 && self.spec_total() == 10000,
    {
        match self {
            SudokuSize::Two => { assert(self.spec_size() == 2); assert(self.spec_house() == 2 * 2); assert(self.spec_total() == 4 * 4); },
            SudokuSize::Three => { assert(self.spec_size() == 3); assert(self.spec_house() == 3 * 3); assert(self.spec_total() == 9 * 9); },
            SudokuSize::Four => { assert(self.spec_size() == 4); assert(self.spec_house() == 4 * 4); assert(self.spec_total() == 16 * 16); },
            SudokuSize::Five => { assert(self.spec_size() == 5); assert(self.spec_house() == 5 * 5); assert(self.spec_total() == 25 * 25); },
            SudokuSize::Six => { assert(self.spec_size() == 6); assert(self.spec_house() == 6 * 6); assert(self.spec_total() == 36 * 36); },
            SudokuSize::Seven => { assert(self.spec_size() == 7); assert(self.spec_house() == 7 * 7); assert(self.spec_total() == 49 * 49); },
            SudokuSize::Eight => { assert(self.spec_size() == 8); assert(self.spec_house() == 8 * 8); assert(self.spec_total() == 64 * 64); },
            SudokuSize::Nine => { assert(self.spec_size() == 9); assert(self.spec_house() == 9 * 9); assert(self.spec_total() == 81 * 81); },
            SudokuSize::Ten => { assert(self.spec_size() == 10); assert(self.spec_house() == 10 * 10); assert(self.spec_total() == 100 * 100); },
        }
    }

    /// The size whose puzzles have `len` cells, sizes three to ten.
    pub open spec fn spec_from_length(len: nat) -> Option<SudokuSize> {
        if len == 81 {
            Some(SudokuSize::Three)
        } else if len == 256 {
            Some(SudokuSize::Four)
        } else if len == 625 {
            Some(SudokuSize::Five)
        } else if len == 1296 {
            Some(SudokuSize::Six)
        } else if len == 2401 {
            Some(SudokuSize::Seven)
        } else if len == 4096 {
            Some(SudokuSize::Eight)
        } else if len == 6561 {
            Some(SudokuSize::Nine)
        } else if len == 10000 {
            Some(SudokuSize::Ten)
        } else {
            None
        }
    }

    pub fn size(&self) -> (r: usize)
        ensures
            r == self.spec_size(),
    {
        match self {
            SudokuSize::Two => 2,
            SudokuSize::Three => 3,
            SudokuSize::Four => 4,
            SudokuSize::Five => 5,
            SudokuSize::Six => 6,
            SudokuSize::Seven => 7,
            SudokuSize::Eight => 8,
            SudokuSize::Nine => 9,
            SudokuSize::Ten => 10,
        }
    }

    /// The size of a puzzle given as `len` cells; an error for other lengths.
    pub fn size_from_input_length(len: usize) -> (r: Result<SudokuSize, SudError>)
        ensures
            Self::spec_from_length(len as nat) matches Some(s) ==> r == Ok::<SudokuSize, SudError>(s),
            Self::spec_from_length(len as nat) is None ==> r == Err::<SudokuSize, SudError>(SudError::InputLengthError(len)),
            r matches Ok(s) ==> s.spec_total() == len,
            forall|s: SudokuSize| s != SudokuSize::Two && #[trigger] s.spec_total() == len ==> r == Ok::<SudokuSize, SudError>(s),
    {
        proof {
            SudokuSize::Three.lemma_sizes();
            SudokuSize::Four.lemma_sizes();
            SudokuSize::Five.lemma_sizes();
            SudokuSize::Six.lemma_sizes();
            SudokuSize::Seven.lemma_sizes();
            SudokuSize::Eight.lemma_sizes();
            SudokuSize::Nine.lemma_sizes();
            SudokuSize::Ten.lemma_sizes();
        }
        if len == 81 {
            Ok(SudokuSize::Three)
        } else if len == 256 {
            Ok(SudokuSize::Four)
        } else if len == 625 {
            Ok(SudokuSize::Five)
        } else if len == 1296 {
            Ok(SudokuSize::Six)
        } else if len == 2401 {
            Ok(SudokuSize::Seven)
        } else if len == 4096 {
            Ok(SudokuSize::Eight)
        } else if len == 6561 {
            Ok(SudokuSize::Nine)
        } else if len == 10000 {
            Ok(SudokuSize::Ten)
        } else {
            Err(SudError::InputLengthError(len))
        }
    }

    pub fn house_size(&self) -> (r: usize)
        ensures
            r == self.spec_house(),
    {
        let s = self.size();
        proof { self.lemma_sizes(); }
        s * s
    }

    pub fn total(&self) -> (r: usize)
        ensures
            r == self.spec_total(),
    {
        let h = self.house_size();
        proof { self.lemma_sizes(); }
        h * h
    }
}

impl Default for SudokuSize {
    fn default() -> (r: Self)
        ensures
            r == SudokuSize::Three,
    {
        SudokuSize::Three
    }
}

/// A length names a size exactly when it is the number of cells of that size's puzzles: each
/// size from three to ten is read back from its cell count, and a length that names a size is
/// that size's cell count.
pub proof fn lemma_length_names_size(s: SudokuSize, len: nat)
    ensures
        s != SudokuSize::Two ==> SudokuSize::spec_from_length(s.spec_total()) == Some(s),
        SudokuSize::spec_from_length(len) matches Some(t) ==> t.spec_total() == len && t != SudokuSize::Two,
{
    s.lemma_sizes();
    if let Some(t) = SudokuSize::spec_from_length(len) {
        t.lemma_sizes();
    }
}

} // verus!
