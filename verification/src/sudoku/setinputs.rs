use vstd::prelude::*;
use crate::bitset::traits::BitSetInt;
use crate::bitset::bit::Bit;
use crate::bitset::bitset::BitSet;
use crate::errors::SudError;
use crate::sudokusize::SudokuSize;

verus! {

/// Numbers that a user may enter as values of cells.
pub trait InputValue: BitSetInt {
    /// The bit of the value; requires the value to fit the width of its type.
    fn into_bit(self) -> (r: Bit<Self>)
        requires
            self.spec_nat() <= Self::width(),
        ensures
            r.wf(),
            r@ == self.spec_nat(),
    {
        Bit::from_value(self)
    }

    /// The set holding the value alone (empty for zero).
    fn into_set(self) -> (r: BitSet<Self>)
        requires
            self.spec_nat() <= Self::width(),
        ensures
            self.spec_nat() == 0 ==> r@ == Set::<nat>::empty(),
            self.spec_nat() != 0 ==> r@ == Set::<nat>::empty().insert(self.spec_nat()),
    {
        BitSet::from_bit(self.into_bit())
    }

    /// The number a bit stands for.
    fn from_bit(bit: Bit<Self>) -> (r: Self)
        ensures
            r.spec_nat() == bit@,
    {
        bit.to_value()
    }

    /// The bit of the value, or `SudError::ValueNotPossible` when it exceeds the largest value
    /// of a puzzle of `size`.
    fn checked_into_bit(self, size: SudokuSize) -> (r: Result<Bit<Self>, SudError>)
        ensures
            self.spec_nat() <= size.spec_house() && size.spec_house() <= Self::width()
                ==> (r matches Ok(b) && b.wf() && b@ == self.spec_nat()),
            self.spec_nat() > size.spec_house() || size.spec_house() > Self::width() ==> r matches Err(SudError::ValueNotPossible(_)),
    {
        let house = size.house_size();
        let fits = match self.try_usize() {
            Some(u) => u <= house && house <= Self::bits() as usize,
            None => false,
        };
        proof { size.lemma_sizes(); }
        if fits {
            Ok(Bit::from_value(self))
        } else {
            Err(SudError::ValueNotPossible("Value exceeds maximum".to_owned()))
        }
    }
}

impl InputValue for u16 {}

impl InputValue for u32 {}

impl InputValue for u64 {}

impl InputValue for u128 {}

} // verus!
