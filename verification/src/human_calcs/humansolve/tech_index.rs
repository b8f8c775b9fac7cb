use vstd::prelude::*;
use crate::human_calcs::humansolve::solver::by_difficulty;
use crate::human_calcs::technique::Technique;

verus! {

/// Where halving the part `left..right` of `techs` finds a technique of difficulty `target`:
/// the middle one when it is of that difficulty, else the half towards the target.
pub open spec fn halving(techs: Seq<Technique>, target: int, left: int, right: int) -> Option<usize>
    decreases right - left,
{
    if left < right {
        let mid = left + (right - left) / 2;
        if techs[mid].spec_tenths() < target {
            halving(techs, target, mid + 1, right)
        } else if techs[mid].spec_tenths() > target {
            halving(techs, target, left, mid)
        } else {
            Some(mid as usize)
        }
    } else {
        None
    }
}

/// Something that names a place in a list of techniques.
pub trait TechniqIndex {
    /// The place it names in `techs`, if any.
    spec fn spec_index(&self, techs: Seq<Technique>) -> Option<usize>;

    /// The place it names in `techs`, if any.
    fn tech_index(&self, techs: &[Technique]) -> (r: Option<usize>)
        ensures
            r matches Some(i) ==> i < techs@.len(),
            r == self.spec_index(techs@),
    ;
}

impl TechniqIndex for usize {
    open spec fn spec_index(&self, techs: Seq<Technique>) -> Option<usize> {
        if *self < techs.len() { Some(*self) } else { None }
    }

    /// The number itself, when it is a place of the list.
    fn tech_index(&self, techs: &[Technique]) -> (r: Option<usize>)
        ensures
            r == if *self < techs@.len() { Some(*self) } else { None::<usize> },
    {
        if *self < techs.len() {
            Some(*self)
        } else {
            None
        }
    }
}

impl TechniqIndex for Technique {
    open spec fn spec_index(&self, techs: Seq<Technique>) -> Option<usize> {
        halving(techs, self.spec_tenths(), 0, techs.len() as int)
    }

    /// A place of a technique as difficult as this one, found by halving a list ordered by
    /// difficulty; `None` when the list holds none.
    fn tech_index(&self, techs: &[Technique]) -> (r: Option<usize>)
        ensures
            r matches Some(i) ==> techs@[i as int].spec_tenths() == self.spec_tenths(),
            r is None && by_difficulty(techs@) ==> forall|j: int| 0 <= j < techs@.len() ==> #[trigger] techs@[j].spec_tenths() != self.spec_tenths(),
    {
        let target = self.difficulty_tenths();
        let mut left: usize = 0;
        let mut right: usize = techs.len();
        while left < right
            invariant
                left <= right <= techs@.len(),
                target == self.spec_tenths(),
                by_difficulty(techs@) ==> forall|j: int| 0 <= j < left ==> #[trigger] techs@[j].spec_tenths() < target,
                by_difficulty(techs@) ==> forall|j: int| right <= j < techs@.len() ==> #[trigger] techs@[j].spec_tenths() > target,
                halving(techs@, target as int, left as int, right as int) == halving(techs@, target as int, 0, techs@.len() as int),
            decreases right - left,
        {
            let size = right - left;
            let mid = left + size / 2;
            let d = techs[mid].difficulty_tenths();
            if d < target {
                left = mid + 1;
            } else if d > target {
                right = mid;
            } else {
                return Some(mid);
            }
        }
        None
    }
}

} // verus!
