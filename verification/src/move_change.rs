use vstd::prelude::*;
use crate::bitset::traits::BitSetInt;
use crate::bitset::bit::Bit;
use crate::bitset::bitset::BitSet;
use crate::bitset::bitsetiter::asc_from;
use crate::grid::types::Index;
use crate::human_calcs::technique::Technique;
use crate::grid::types::{row_of, col_of};
use crate::text::{decimal, push_decimal, push_text, pop_char};

verus! {

/// Convenient grouping of an index and values, typically associated with potential values of a certain square
#[derive(Clone, Copy, Debug, PartialEq)]
pub struct IndexValuePair<S> {
    pub index: Index,
    pub value: S,
}

impl<S> IndexValuePair<S> {
    pub fn new(index: Index, value: S) -> (r: IndexValuePair<S>)
        ensures
            r.index == index,
            r.value == value,
    {
        IndexValuePair { index, value }
    }

    pub fn index(&self) -> (r: Index)
        ensures
            r == self.index,
    {
        self.index
    }

    pub fn value(&self) -> (r: &S)
        ensures
            *r == self.value,
    {
        &self.value
    }
}

/// Struct to document change in the puzzle
#[derive(Debug, Clone, PartialEq)]
pub struct Move<Value: BitSetInt> {
    pub method: Option<Technique>,
    pub manual: bool,
    pub used_to_solve: Vec<IndexValuePair<BitSet<Value>>>,
    pub removed_potentials: Vec<IndexValuePair<BitSet<Value>>>,
    pub value_set: Option<IndexValuePair<Value>>,
}

/// A copy of a list of pairs.
pub fn copy_pairs<S: Copy>(v: &Vec<IndexValuePair<S>>) -> (r: Vec<IndexValuePair<S>>)
    ensures
        r@ == v@,
{
    let mut out: Vec<IndexValuePair<S>> = Vec::new();
    for i in 0..v.len()
        invariant
            out@ == v@.subrange(0, i as int),
    {
        out.push(v[i]);
        proof { assert(out@ =~= v@.subrange(0, i + 1)); }
    }
    proof { assert(out@ =~= v@); }
    out
}

/// The values of a set as numbers of the type, in increasing order.
pub fn set_values<Value: BitSetInt>(set: &BitSet<Value>) -> (r: Vec<Value>)
    ensures
        r.len() == asc_from(set.0.spec_nat(), 1, Value::width()).len(),
        forall|k: int| 0 <= k < r.len() ==> #[trigger] r[k].spec_nat() == asc_from(set.0.spec_nat(), 1, Value::width())[k],
{
    let bits = set.to_bits();
    let mut out: Vec<Value> = Vec::new();
    for i in 0..bits.len()
        invariant
            out.len() == i,
            forall|k: int| 0 <= k < i ==> #[trigger] out[k].spec_nat() == bits[k]@,
    {
        out.push(bits[i].to_value());
    }
    out
}

impl<Value: BitSetInt> Move<Value> {
    pub fn new() -> (r: Move<Value>)
        ensures
            r.method is None,
            !r.manual,
            r.used_to_solve@ == Seq::<IndexValuePair<BitSet<Value>>>::empty(),
            r.removed_potentials@ == Seq::<IndexValuePair<BitSet<Value>>>::empty(),
            r.value_set is None,
    {
        Move {
            method: None,
            manual: false,
            used_to_solve: Vec::new(),
            removed_potentials: Vec::new(),
            value_set: None,
        }
    }

    /// A copy of the move.
    pub fn clone_move(&self) -> (r: Move<Value>)
        ensures
            r.method == self.method,
            r.manual == self.manual,
            r.used_to_solve@ == self.used_to_solve@,
            r.removed_potentials@ == self.removed_potentials@,
            r.value_set == self.value_set,
    {
        Move {
            method: self.method,
            manual: self.manual,
            used_to_solve: copy_pairs(&self.used_to_solve),
            removed_potentials: copy_pairs(&self.removed_potentials),
            value_set: self.value_set,
        }
    }

    /// Records the value set at `ind`; a manual move has no technique.
    pub fn set_value(&mut self, ind: Index, value: Value, manual: bool)
        ensures
            final(self).manual == manual,
            manual ==> final(self).method is None,
            !manual ==> final(self).method == old(self).method,
            final(self).value_set == Some(IndexValuePair { index: ind, value }),
            final(self).used_to_solve == old(self).used_to_solve,
            final(self).removed_potentials == old(self).removed_potentials,
    {
        self.manual = manual;
        if manual {
            self.method = None;
        }
        self.value_set = Some(IndexValuePair::new(ind, value));
    }

    /// Records the technique; no technique makes the move manual.
    pub fn set_method(&mut self, tech: Option<Technique>)
        ensures
            final(self).method == tech,
            final(self).manual == (tech is None),
            final(self).value_set == old(self).value_set,
            final(self).used_to_solve == old(self).used_to_solve,
            final(self).removed_potentials == old(self).removed_potentials,
    {
        if let Some(t) = tech {
            self.manual = false;
            self.method = Some(t);
        } else {
            self.manual = true;
            self.method = None;
        }
    }

    pub fn has_set_value(&self) -> (r: bool)
        ensures
            r == self.value_set is Some,
    {
        self.value_set.is_some()
    }

    pub fn add_removed_potential(&mut self, ind: Index, value: BitSet<Value>)
        ensures
            final(self).removed_potentials@ == old(self).removed_potentials@.push(IndexValuePair { index: ind, value }),
            final(self).method == old(self).method,
            final(self).manual == old(self).manual,
            final(self).value_set == old(self).value_set,
            final(self).used_to_solve == old(self).used_to_solve,
    {
        self.removed_potentials.push(IndexValuePair::new(ind, value));
    }

    /// which squares and it's potential values used to determine a move
    pub fn add_used_to_solve(&mut self, index: Index, value: BitSet<Value>)
        ensures
            final(self).used_to_solve@ == old(self).used_to_solve@.push(IndexValuePair { index, value }),
            final(self).method == old(self).method,
            final(self).manual == old(self).manual,
            final(self).value_set == old(self).value_set,
            final(self).removed_potentials == old(self).removed_potentials,
    {
        self.used_to_solve.push(IndexValuePair::new(index, value));
    }

    /// Obtain the technique used for the move
    pub fn technique(&self) -> (r: &Option<Technique>)
        ensures
            *r == self.method,
    {
        &self.method
    }

    /// What value was set, if any.
    pub fn change(&self) -> (r: &Option<IndexValuePair<Value>>)
        ensures
            *r == self.value_set,
    {
        &self.value_set
    }

    /// The cells and values used to find the move.
    pub fn involved_vec(&self) -> (r: &Vec<IndexValuePair<BitSet<Value>>>)
        ensures
            *r == self.used_to_solve,
    {
        &self.used_to_solve
    }

    /// Returns a vector of IndexValuePairs for values used in determining the move.
    pub fn involved_values(&self) -> (r: Vec<IndexValuePair<Vec<Value>>>)
        ensures
            r.len() == self.used_to_solve.len(),
            forall|k: int| 0 <= k < r.len() ==> #[trigger] r[k].index == self.used_to_solve[k].index
                && r[k].value.len() == asc_from(self.used_to_solve[k].value.0.spec_nat(), 1, Value::width()).len()
                && forall|j: int| 0 <= j < r[k].value.len() ==> #[trigger] r[k].value[j].spec_nat()
                    == asc_from(self.used_to_solve[k].value.0.spec_nat(), 1, Value::width())[j],
    {
        Self::pairs_values(&self.used_to_solve)
    }

    /// The cells and values as lists of numbers.
    fn pairs_values(pairs: &Vec<IndexValuePair<BitSet<Value>>>) -> (r: Vec<IndexValuePair<Vec<Value>>>)
        ensures
            r.len() == pairs.len(),
            forall|k: int| 0 <= k < r.len() ==> #[trigger] r[k].index == pairs[k].index
                && r[k].value.len() == asc_from(pairs[k].value.0.spec_nat(), 1, Value::width()).len()
                && forall|j: int| 0 <= j < r[k].value.len() ==> #[trigger] r[k].value[j].spec_nat() == asc_from(pairs[k].value.0.spec_nat(), 1, Value::width())[j],
    {
        let mut out: Vec<IndexValuePair<Vec<Value>>> = Vec::new();
        for i in 0..pairs.len()
            invariant
                out.len() == i,
                forall|k: int| 0 <= k < i ==> #[trigger] out[k].index == pairs[k].index
                    && out[k].value.len() == asc_from(pairs[k].value.0.spec_nat(), 1, Value::width()).len()
                    && forall|j: int| 0 <= j < out[k].value.len() ==> #[trigger] out[k].value[j].spec_nat() == asc_from(pairs[k].value.0.spec_nat(), 1, Value::width())[j],
        {
            let vals = set_values(&pairs[i].value);
            out.push(IndexValuePair { index: pairs[i].index, value: vals });
        }
        out
    }

    /// The cells and potentials the move takes out.
    pub fn removed_potentials_vec(&self) -> (r: &Vec<IndexValuePair<BitSet<Value>>>)
        ensures
            *r == self.removed_potentials,
    {
        &self.removed_potentials
    }

    /// Returns vector of IndexValuePairs with values of removed potentials
    pub fn removed_potentials(&self) -> (r: Vec<IndexValuePair<Vec<Value>>>)
        ensures
            r.len() == self.removed_potentials.len(),
            forall|k: int| 0 <= k < r.len() ==> #[trigger] r[k].index == self.removed_potentials[k].index
                && r[k].value.len() == asc_from(self.removed_potentials[k].value.0.spec_nat(), 1, Value::width()).len()
                && forall|j: int| 0 <= j < r[k].value.len() ==> #[trigger] r[k].value[j].spec_nat()
                    == asc_from(self.removed_potentials[k].value.0.spec_nat(), 1, Value::width())[j],
    {
        Self::pairs_values(&self.removed_potentials)
    }
}

/// The text of a cell and its value: the cell's index, row `r` and column `c`, then the value.
pub open spec fn pair_text(index: nat, r: nat, c: nat, v: nat) -> Seq<char> {
    "Index: "@ + decimal(index) + ", Coordinate: r"@ + decimal(r) + ", c"@ + decimal(c) + "Value: "@ + decimal(v)
}

impl<V: BitSetInt> IndexValuePair<V> {
    /// The cell's index, row and column, and the value, as a reader sees them.
    pub fn to_text(&self) -> (r: String)
        ensures
            r@ == pair_text(self.index.inner_index as nat, row_of(self.index.size, self.index.inner_index as nat),
                col_of(self.index.size, self.index.inner_index as nat), self.value.spec_nat()),
    {
        let (row, col) = self.index.to_pair();
        let mut s = String::new();
        push_text(&mut s, "Index: ");
        push_decimal(&mut s, self.index.inner_index as u128);
        push_text(&mut s, ", Coordinate: r");
        push_decimal(&mut s, row as u128);
        push_text(&mut s, ", c");
        push_decimal(&mut s, col as u128);
        push_text(&mut s, "Value: ");
        push_decimal(&mut s, self.value.to_u128());
        proof {
            assert(s@ =~= pair_text(self.index.inner_index as nat, row as nat, col as nat, self.value.spec_nat()));
        }
        s
    }
}

/// The indices of the cells of the records, each followed by a comma.
pub open spec fn indices_text<V: BitSetInt>(pairs: Seq<IndexValuePair<BitSet<V>>>) -> Seq<char>
    decreases pairs.len(),
{
    if pairs.len() == 0 {
        Seq::<char>::empty()
    } else {
        indices_text(pairs.drop_last()) + decimal(pairs.last().index.inner_index as nat) + ","@
    }
}

/// The text of a move: the cell it fills, with its row and column, and the value; then the
/// indices of the cells used to find it, separated by commas.
pub open spec fn move_text<V: BitSetInt>(m: Move<V>) -> Seq<char> {
    (match m.value_set {
        Some(p) => "Square "@ + decimal(p.index.inner_index as nat) + ", coordinate "@
            + decimal(row_of(p.index.size, p.index.inner_index as nat)) + ", "@
            + decimal(col_of(p.index.size, p.index.inner_index as nat)) + " was set to "@ + decimal(p.value.spec_nat()),
        None => Seq::<char>::empty(),
    }) + (if m.used_to_solve@.len() == 0 {
        Seq::<char>::empty()
    } else {
        indices_text(m.used_to_solve@).drop_last() + " indexes were used to solve"@
    })
}

impl<Value: BitSetInt> Move<Value> {
    /// The move as a reader sees it.
    pub fn to_text(&self) -> (r: String)
        ensures
            r@ == move_text(*self),
    {
        let mut s = String::new();
        if let Some(p) = &self.value_set {
            let (row, col) = p.index.to_pair();
            push_text(&mut s, "Square ");
            push_decimal(&mut s, p.index.inner_index as u128);
            push_text(&mut s, ", coordinate ");
            push_decimal(&mut s, row as u128);
            push_text(&mut s, ", ");
            push_decimal(&mut s, col as u128);
            push_text(&mut s, " was set to ");
            push_decimal(&mut s, p.value.to_u128());
        }
        let ghost head = s@;
        proof {
            assert(head =~= (match self.value_set {
                Some(p) => "Square "@ + decimal(p.index.inner_index as nat) + ", coordinate "@
                    + decimal(row_of(p.index.size, p.index.inner_index as nat)) + ", "@
                    + decimal(col_of(p.index.size, p.index.inner_index as nat)) + " was set to "@ + decimal(p.value.spec_nat()),
                None => Seq::<char>::empty(),
            }));
        }
        let n = self.used_to_solve.len();
        if n != 0 {
            for i in 0..n
                invariant
                    n == self.used_to_solve@.len(),
                    s@ == head + indices_text(self.used_to_solve@.subrange(0, i as int)),
            {
                push_decimal(&mut s, self.used_to_solve[i].index.inner_index as u128);
                push_text(&mut s, ",");
                proof {
                    let u = self.used_to_solve@.subrange(0, i + 1);
                    assert(u.drop_last() =~= self.used_to_solve@.subrange(0, i as int));
                    assert(s@ =~= head + indices_text(u));
                }
            }
            proof {
                assert(self.used_to_solve@.subrange(0, n as int) =~= self.used_to_solve@);
                reveal_strlit(",");
                assert(indices_text(self.used_to_solve@).len() > 0);
            }
            let ghost before = s@;
            pop_char(&mut s);
            proof {
                assert(s@ =~= head + indices_text(self.used_to_solve@).drop_last());
            }
            push_text(&mut s, " indexes were used to solve");
        }
        proof {
            assert(s@ =~= move_text(*self));
        }
        s
    }
}

} // verus!
