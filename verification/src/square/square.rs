use vstd::prelude::*;
use crate::bitset::traits::BitSetInt;
use crate::bitset::bit::Bit;
use crate::bitset::bitset::{BitSet, full_values};
use crate::errors::SudError;
use crate::square::possibilities::Possibilities;
use crate::sudokusize::SudokuSize;
use crate::bitset::bitsetiter::asc_from;
use crate::text::{decimal, push_decimal, push_text};

verus! {

/// A cell of the puzzle: its value if any, whether the value was given, the values still
/// possible and the cell's flat index.
#[derive(Copy, Clone, Debug)]
pub struct Square<Value: BitSetInt> {
    pub value: Option<Bit<Value>>,
    pub fixed: bool,
    pub flags: Possibilities<Value>,
    pub index: usize,
}

impl<Value: BitSetInt> Square<Value> {
    pub open spec fn wf(self) -> bool {
        &&& self.flags.wf()
        &&& self.value matches Some(b) ==> b.wf()
    }

    /// A cell holding `value` as a given value, or an empty cell for the zero bit.
    pub fn new(value: Bit<Value>, size: SudokuSize, index: usize) -> (r: Result<Self, SudError>)
        requires
            value.wf(),
        ensures
            r matches Ok(s) && s.wf() && s.index == index && s.flags.current.0.spec_nat() == 0
                && (value@ != 0 ==> s.value == Some(value) && s.fixed && s.flags.poss@ == Set::<nat>::empty()
                    && s.flags.original == Some(s.flags.poss))
                && (value@ == 0 ==> s.value is None && !s.fixed && s.flags.original is None
                    && s.flags.poss@ == full_values(Value::width(), size.spec_house())),
    {
        if !value.eq_bit(Bit::zero()) {
            let mut s = Square { value: Some(value), fixed: true, flags: Possibilities::empty(), index };
            s.set_original(BitSet::full(size.house_size()), size);
            proof {
                assert(s.flags.poss@ =~= Set::<nat>::empty());
            }
            Ok(s)
        } else {
            let flags = match Possibilities::full(size) {
                Ok(f) => f,
                Err(e) => { return Err(e); },
            };
            Ok(Square { value: None, fixed: false, flags, index })
        }
    }

    /// Makes the possible values all values but those of `remove`.
    pub fn set_original(&mut self, remove: BitSet<Value>, size: SudokuSize)
        requires
            old(self).wf(),
        ensures
            final(self).wf(),
            final(self).flags.poss@ == full_values(Value::width(), size.spec_house()).difference(remove@),
            final(self).flags.original == Some(final(self).flags.poss),
            final(self).flags.current == old(self).flags.current,
            final(self).value == old(self).value,
            final(self).fixed == old(self).fixed,
            final(self).index == old(self).index,
    {
        self.flags.set_original(size, remove);
    }

    /// Returns true if the value was set as a initial given value
    pub fn is_fixed(&self) -> (r: bool)
        ensures
            r == self.fixed,
    {
        self.fixed
    }

    pub fn index(&self) -> (r: usize)
        ensures
            r == self.index,
    {
        self.index
    }

    /// Tries the next possible value: false for a given value or when none is left.
    pub fn inc(&mut self) -> (r: bool)
        requires
            old(self).wf(),
            !old(self).fixed ==> old(self).flags.original is Some,
        ensures
            final(self).wf(),
            final(self).fixed == old(self).fixed,
            final(self).index == old(self).index,
            final(self).flags.poss == old(self).flags.poss,
            final(self).flags.original == old(self).flags.original,
            old(self).fixed ==> !r && *final(self) == *old(self),
            !old(self).fixed && old(self).flags.upcoming().len() > 0 ==> r && (final(self).value matches Some(b)
                && b@ == old(self).flags.upcoming()[0] && final(self).flags.current == b),
            !old(self).fixed && old(self).flags.upcoming().len() == 0 ==> !r && final(self).value == old(self).value
                && final(self).flags.current.0.spec_nat() == 0,
    {
        if self.fixed {
            false
        } else {
            match self.flags.next() {
                Some(v) => {
                    self.value = Some(v);
                    true
                },
                None => false,
            }
        }
    }

    pub fn poss_contains(&self, flag: Bit<Value>) -> (r: bool)
        ensures
            flag.wf() ==> r == (flag@ >= 1 && self.flags.poss@.contains(flag@)),
    {
        self.flags.poss_contains(flag)
    }

    pub fn remove_set(&mut self, values: BitSet<Value>)
        requires
            old(self).wf(),
        ensures
            final(self).wf(),
            final(self).flags.poss@ == old(self).flags.poss@.difference(values@),
            final(self).flags.original == old(self).flags.original,
            final(self).flags.current.0.spec_nat() == 0,
            final(self).value == old(self).value,
            final(self).fixed == old(self).fixed,
            final(self).index == old(self).index,
    {
        self.flags.remove_multi(values)
    }

    pub fn remove_pot(&mut self, val: Bit<Value>)
        requires
            old(self).wf(),
            val.wf(),
        ensures
            final(self).wf(),
            final(self).flags.poss@ == old(self).flags.poss@.remove(val@),
            final(self).flags.original == old(self).flags.original,
            final(self).flags.current == old(self).flags.current,
            final(self).value == old(self).value,
            final(self).fixed == old(self).fixed,
            final(self).index == old(self).index,
    {
        self.flags.remove(val);
    }

    pub fn insert_set(&mut self, set: BitSet<Value>)
        requires
            old(self).wf(),
        ensures
            final(self).wf(),
            final(self).flags.poss@ == old(self).flags.poss@.union(set@),
            final(self).flags.original == old(self).flags.original,
            final(self).flags.current == old(self).flags.current,
            final(self).value == old(self).value,
            final(self).fixed == old(self).fixed,
            final(self).index == old(self).index,
    {
        self.flags.insert_multi(set);
    }

    pub fn insert_pot(&mut self, val: Bit<Value>)
        requires
            old(self).wf(),
            val.wf(),
        ensures
            final(self).wf(),
            val@ == 0 ==> final(self).flags.poss@ == old(self).flags.poss@,
            val@ != 0 ==> final(self).flags.poss@ == old(self).flags.poss@.insert(val@),
            final(self).flags.original == old(self).flags.original,
            final(self).flags.current == old(self).flags.current,
            final(self).value == old(self).value,
            final(self).fixed == old(self).fixed,
            final(self).index == old(self).index,
    {
        self.flags.insert(val);
    }

    /// Sets the value and clears the possible values.
    pub fn set_value(&mut self, value: Option<Bit<Value>>)
        requires
            old(self).wf(),
            value matches Some(b) ==> b.wf(),
        ensures
            final(self).wf(),
            final(self).value == value,
            final(self).flags.poss@ == Set::<nat>::empty(),
            final(self).flags.poss.0.spec_nat() == 0,
            final(self).flags.original == old(self).flags.original,
            final(self).flags.current.0.spec_nat() == 0,
            final(self).fixed == old(self).fixed,
            final(self).index == old(self).index,
    {
        self.value = value;
        self.flags = Possibilities::clear(&self.flags);
    }

    /// Empties a cell that was not given, back to its original possibilities.
    pub fn reset(&mut self)
        requires
            old(self).wf(),
            !old(self).fixed ==> old(self).flags.original is Some,
        ensures
            final(self).wf(),
            old(self).fixed ==> *final(self) == *old(self),
            !old(self).fixed ==> final(self).value is None && final(self).flags.poss == old(self).flags.original->Some_0
                && final(self).flags.current.0.spec_nat() == 0,
            final(self).flags.original == old(self).flags.original,
            final(self).fixed == old(self).fixed,
            final(self).index == old(self).index,
    {
        if !self.fixed {
            self.value = None;
            self.flags.reset();
        }
    }

    pub fn poss(&self) -> (r: &BitSet<Value>)
        ensures
            *r == self.flags.poss,
    {
        self.flags.get()
    }

    pub fn val(&self) -> (r: Option<Bit<Value>>)
        ensures
            r == self.value,
    {
        self.value
    }

    pub fn count(&self) -> (r: u32)
        ensures
            r == self.flags.count,
    {
        self.flags.count()
    }

    /// Whether the two cells hold the same value (or both none).
    pub fn same_value(&self, other: &Square<Value>) -> (r: bool)
        ensures
            r == (self.value == other.value),
    {
        match (self.value, other.value) {
            (Some(a), Some(b)) => {
                proof { Value::lemma_nat_inj(a.0, b.0); }
                a.eq_bit(b)
            },
            (None, None) => true,
            _ => false,
        }
    }
}

impl<V: BitSetInt> PartialEq for Square<V> {
    fn eq(&self, other: &Square<V>) -> (r: bool) {
        self.same_value(other)
    }
}

impl<V: BitSetInt> vstd::std_specs::cmp::PartialEqSpecImpl for Square<V> {
    open spec fn obeys_eq_spec() -> bool {
        true
    }

    open spec fn eq_spec(&self, other: &Square<V>) -> bool {
        self.value == other.value
    }
}

/// Bits shown one after another, each as `Bit(` and its number, separated by `, `.
pub open spec fn bits_items(masks: Seq<nat>) -> Seq<char>
    decreases masks.len(),
{
    if masks.len() == 0 {
        Seq::<char>::empty()
    } else if masks.len() == 1 {
        "Bit("@ + decimal(masks[0]) + ")"@
    } else {
        bits_items(masks.drop_last()) + ", Bit("@ + decimal(masks.last()) + ")"@
    }
}

/// The bit number of the value of a cell, zero for an empty cell.
pub open spec fn value_mask<V: BitSetInt>(sq: Square<V>) -> nat {
    match sq.value {
        Some(b) => b.0.spec_nat(),
        None => 0,
    }
}

/// The text of a cell as a developer sees it: its value and its possible values, each as a bit.
pub open spec fn square_text<V: BitSetInt>(sq: Square<V>) -> Seq<char> {
    "Value: Bit("@ + decimal(value_mask(sq)) + "), Poss: ["@
        + bits_items(asc_from(sq.flags.poss.0.spec_nat(), 1, V::width()).map_values(|v: nat| Bit::<V>::of_value(v))) + "]"@
}

impl<Value: BitSetInt> Square<Value> {
    /// The cell's value and possible values, each as a bit, as a developer sees them.
    pub fn debug_text(&self) -> (r: String)
        ensures
            r@ == square_text(*self),
    {
        let mut s = String::new();
        push_text(&mut s, "Value: Bit(");
        let mask: u128 = match self.value {
            Some(b) => b.0.to_u128(),
            None => 0,
        };
        push_decimal(&mut s, mask);
        push_text(&mut s, "), Poss: [");
        let bits = self.flags.poss.to_bits();
        let ghost head = s@;
        let ghost asc = asc_from(self.flags.poss.0.spec_nat(), 1, Value::width());
        let ghost masks = asc.map_values(|v: nat| Bit::<Value>::of_value(v));
        proof {
            assert forall|k: int| 0 <= k < asc.len() implies #[trigger] asc[k] >= 1 by {
                assert(asc.contains(asc[k]));
                crate::bitset::bitsetiter::lemma_asc_from_contains(self.flags.poss.0.spec_nat(), 1, Value::width(), asc[k]);
            }
        }
        for i in 0..bits.len()
            invariant
                bits.len() == asc.len(),
                masks.len() == asc.len(),
                masks == asc.map_values(|v: nat| Bit::<Value>::of_value(v)),
                forall|k: int| 0 <= k < asc.len() ==> #[trigger] asc[k] >= 1,
                forall|k: int| 0 <= k < bits.len() ==> bits[k].wf() && #[trigger] bits[k]@ == asc[k],
                s@ == head + bits_items(masks.subrange(0, i as int)),
        {
            if i == 0 {
                push_text(&mut s, "Bit(");
            } else {
                push_text(&mut s, ", Bit(");
            }
            proof {
                Value::lemma_range(bits[i as int].0);
                assert(bits[i as int]@ == asc[i as int]);
                assert(asc[i as int] >= 1);
                assert(masks[i as int] == Bit::<Value>::of_value(asc[i as int]));
                assert(bits[i as int].wf());
                assert(bits[i as int].0.spec_nat() == masks[i as int]) by {
                    assert(bits[i as int].0.spec_nat() != 0) by {
                        if bits[i as int].0.spec_nat() == 0 {
                            assert(crate::bitset::traits::bitlen(0) == 0);
                        }
                    }
                }
            }
            push_decimal(&mut s, bits[i].0.to_u128());
            push_text(&mut s, ")");
            proof {
                let sub = masks.subrange(0, i + 1);
                assert(sub.drop_last() =~= masks.subrange(0, i as int));
                if i == 0 {
                    assert(masks.subrange(0, 0 as int) =~= Seq::<nat>::empty());
                    assert(s@ =~= head + bits_items(sub));
                } else {
                    assert(s@ =~= head + bits_items(sub));
                }
            }
        }
        push_text(&mut s, "]");
        proof {
            assert(masks.subrange(0, bits.len() as int) =~= masks);
            assert(s@ =~= square_text(*self));
        }
        s
    }
}

} // verus!
