use vstd::prelude::*;
use vstd::std_specs::iter::IteratorSpec;
use crate::bitset::traits::BitSetInt;
use crate::errors::SudError;

verus! {

/// The number a character of a puzzle string stands for: its decimal digit, zero for any
/// other character.
pub open spec fn digit_of(c: char) -> nat {
    if '0' <= c && c <= '9' {
        (c as nat - '0' as nat) as nat
    } else {
        0
    }
}

/// The decimal digit of a character, zero for any other character.
pub fn char_digit(c: char) -> (r: u32)
    ensures
        r == digit_of(c),
        r <= 9,
{
    if '0' <= c && c <= '9' {
        (c as u32) - ('0' as u32)
    } else {
        0
    }
}

/// Turns the initial input values into the values of the cells.  This can be used to
/// configure strings, vectors, and other sources to be the input to the puzzle.
pub trait InitialInput<V: BitSetInt>: Sized {
    /// The numbers the input stands for, one per cell.
    spec fn spec_values(self) -> Seq<nat>;

    fn initial(self) -> (r: Result<Vec<V>, SudError>)
        ensures
            r matches Ok(v) && v.len() == self.spec_values().len()
                && forall|k: int| 0 <= k < v.len() ==> #[trigger] v[k].spec_nat() == self.spec_values()[k],
    ;
}

impl<T: BitSetInt> InitialInput<T> for Vec<T> {
    open spec fn spec_values(self) -> Seq<nat> {
        self@.map_values(|x: T| x.spec_nat())
    }

    fn initial(self) -> (r: Result<Vec<T>, SudError>) {
        Ok(self)
    }
}

impl<'a, T: BitSetInt> InitialInput<T> for &'a Vec<T> {
    open spec fn spec_values(self) -> Seq<nat> {
        self@.map_values(|x: T| x.spec_nat())
    }

    fn initial(self) -> (r: Result<Vec<T>, SudError>) {
        let mut out: Vec<T> = Vec::new();
        for i in 0..self.len()
            invariant
                out@ == self@.subrange(0, i as int),
        {
            out.push(self[i]);
            proof { assert(out@ =~= self@.subrange(0, i + 1)); }
        }
        proof { assert(out@ =~= self@); }
        Ok(out)
    }
}

impl<'a, T: BitSetInt> InitialInput<T> for &'a [T] {
    open spec fn spec_values(self) -> Seq<nat> {
        self@.map_values(|x: T| x.spec_nat())
    }

    fn initial(self) -> (r: Result<Vec<T>, SudError>) {
        let mut out: Vec<T> = Vec::new();
        for i in 0..self.len()
            invariant
                out@ == self@.subrange(0, i as int),
        {
            out.push(self[i]);
            proof { assert(out@ =~= self@.subrange(0, i + 1)); }
        }
        proof { assert(out@ =~= self@); }
        Ok(out)
    }
}

/// Each character is read as a decimal digit; any other character is an empty cell.  Only
/// puzzles whose values are single digits (9x9 and smaller) can be written this way.
impl<'a, T: BitSetInt> InitialInput<T> for &'a str {
    open spec fn spec_values(self) -> Seq<nat> {
        self@.map_values(|c: char| digit_of(c))
    }

    fn initial(self) -> (r: Result<Vec<T>, SudError>) {
        let mut out: Vec<T> = Vec::new();
        let ghost s = self@;
        let mut chars = self.chars();
        proof {
            broadcast use vstd::string::axiom_spec_iter;
        }
        loop
            invariant
                IteratorSpec::remaining(&chars) == s.subrange(out.len() as int, s.len() as int),
                out.len() <= s.len(),
                forall|k: int| 0 <= k < out.len() ==> #[trigger] out[k].spec_nat() == digit_of(s[k]),
                chars.obeys_prophetic_iter_laws(),
            ensures
                out.len() == s.len(),
                forall|k: int| 0 <= k < out.len() ==> #[trigger] out[k].spec_nat() == digit_of(s[k]),
            decreases s.len() - out.len(),
        {
            let ghost before = chars;
            match chars.next() {
                Some(c) => {
                    proof {
                        vstd::string::next_postcondition(&before, &chars, Some(c));
                    }
                    let d = char_digit(c);
                    let v = match T::try_from_u32(d) {
                        Some(v) => v,
                        None => {
                            proof { T::lemma_range(T::one_spec()); }
                            return Err(SudError::InputParse);
                        },
                    };
                    out.push(v);
                },
                None => {
                    proof {
                        vstd::string::next_postcondition(&before, &chars, None::<char>);
                        assert(s.subrange(out.len() as int, s.len() as int).len() == 0);
                    }
                    break;
                },
            }
        }
        Ok(out)
    }
}

} // verus!
