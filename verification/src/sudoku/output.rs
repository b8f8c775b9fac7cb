use vstd::prelude::*;
use crate::bitset::traits::BitSetInt;
use crate::grid::grid::Grid;
use crate::sudoku::access::value_of;
use crate::sudoku::sudoku::Sudoku;
use crate::text::{decimal, push_char, pop_char, push_decimal, is_digit, decimal_value, lemma_decimal_reads_back};

verus! {

/// The text of one value: `empty_char` for zero, else its decimal digits.
pub open spec fn value_text(v: nat, empty_char: char) -> Seq<char> {
    if v == 0 {
        seq![empty_char]
    } else {
        decimal(v)
    }
}

/// The texts of the values in turn, each followed by the delimiter when there is one.
pub open spec fn values_text(vals: Seq<nat>, empty_char: char, delimiter: Option<char>) -> Seq<char>
    decreases vals.len(),
{
    if vals.len() == 0 {
        Seq::empty()
    } else {
        values_text(vals.drop_last(), empty_char, delimiter) + value_text(vals.last(), empty_char) + match delimiter {
            Some(c) => seq![c],
            None => Seq::<char>::empty(),
        }
    }
}

/// The text of the values: their texts, separated by the delimiter when there is one.
pub open spec fn output_text(vals: Seq<nat>, empty_char: char, delimiter: Option<char>) -> Seq<char> {
    let t = values_text(vals, empty_char, delimiter);
    if delimiter is Some && t.len() > 0 {
        t.drop_last()
    } else {
        t
    }
}

/// A trait that produces a string representation of the sudoku puzzle.
pub trait OutputString {
    /// The values written out, zero for an empty cell.
    spec fn spec_values(&self) -> Seq<nat>;

    /// Outputs the puzzle as string. `empty_char` is what char should be used to represent an empty cell,
    /// `delimiter` is what char is used to separate cells, if any
    fn output_string(&self, empty_char: char, delimiter: Option<char>) -> (r: String)
        ensures
            r@ == output_text(self.spec_values(), empty_char, delimiter),
    ;
}

/// The text of the values `vals`.
fn write_values<T: BitSetInt>(vals: &Vec<T>, empty_char: char, delimiter: Option<char>) -> (r: String)
    ensures
        r@ == output_text(Seq::new(vals.len() as nat, |i: int| vals[i].spec_nat()), empty_char, delimiter),
{
    let ghost sv = Seq::new(vals.len() as nat, |i: int| vals[i].spec_nat());
    let mut s = String::new();
    for i in 0..vals.len()
        invariant
            sv == Seq::new(vals.len() as nat, |i: int| vals[i].spec_nat()),
            s@ == values_text(sv.take(i as int), empty_char, delimiter),
    {
        let v = vals[i].to_u128();
        if v == 0 {
            push_char(&mut s, empty_char);
        } else {
            push_decimal(&mut s, v);
        }
        if let Some(c) = delimiter {
            push_char(&mut s, c);
        }
        proof {
            assert(sv.take(i + 1).drop_last() =~= sv.take(i as int));
            assert(sv.take(i + 1).last() == v);
            let d = match delimiter {
                Some(c) => seq![c],
                None => Seq::<char>::empty(),
            };
            if v == 0 {
                assert(s@ =~= values_text(sv.take(i as int), empty_char, delimiter) + value_text(v as nat, empty_char) + d);
            } else {
                assert(s@ =~= values_text(sv.take(i as int), empty_char, delimiter) + value_text(v as nat, empty_char) + d);
            }
        }
    }
    proof {
        assert(sv.take(vals.len() as int) =~= sv);
    }
    if delimiter.is_some() {
        pop_char(&mut s);
    }
    s
}

impl<T: BitSetInt> OutputString for Grid<T> {
    open spec fn spec_values(&self) -> Seq<nat> {
        Seq::new(self.items.len() as nat, |i: int| self.items[i].spec_nat())
    }

    fn output_string(&self, empty_char: char, delimiter: Option<char>) -> (r: String) {
        write_values(&self.items, empty_char, delimiter)
    }
}

impl<T: BitSetInt> OutputString for Sudoku<T> {
    open spec fn spec_values(&self) -> Seq<nat> {
        Seq::new(self.grid.items.len() as nat, |i: int| value_of(self.cells()[i]))
    }

    fn output_string(&self, empty_char: char, delimiter: Option<char>) -> (r: String) {
        let vals = self.value_iter();
        let r = write_values(&vals, empty_char, delimiter);
        proof {
            assert(Seq::new(vals.len() as nat, |i: int| vals[i].spec_nat()) =~= self.spec_values());
        }
        r
    }
}

impl<T: BitSetInt> Sudoku<T> {
    /// The puzzle as one line of text: the values row after row, `.` for an empty cell.
    pub fn to_string(&self) -> (r: String)
        ensures
            r@ == output_text(self.spec_values(), '.', None),
    {
        self.output_string('.', None)
    }
}

/// A value above zero is written as its whole decimal numeral: digits only, no leading zero,
/// and the digits read back as the value.  The empty mark stands alone for an empty cell.
pub proof fn lemma_value_text_reads_back(v: nat, empty_char: char)
    ensures
        v > 0 ==> value_text(v, empty_char).len() > 0
            && (forall|k: int| 0 <= k < value_text(v, empty_char).len() ==> is_digit(#[trigger] value_text(v, empty_char)[k]))
            && value_text(v, empty_char)[0] != '0'
            && decimal_value(value_text(v, empty_char)) == v,
        v == 0 ==> value_text(v, empty_char) == seq![empty_char],
{
    lemma_decimal_reads_back(v);
}

} // verus!
