use vstd::prelude::*;
use crate::bitset::traits::BitSetInt;
use crate::human_calcs::TechStruct;
use crate::human_calcs::basic::single_cand::SingleCandidate;
use crate::human_calcs::basic::single_poss::SinglePossibility;
use crate::human_calcs::basic::pointing::PointingCandidate;
use crate::human_calcs::basic::claiming::ClaimingCandidate;
use crate::human_calcs::tuples::naked_tup::{NakedTuple, naked_technique};
use crate::human_calcs::tuples::hidden_tup::{HiddenTuple, hidden_technique};
use crate::human_calcs::fish::basicfish::{BasicFish, fish_technique};
use crate::human_calcs::fish::finned::{FinnedFish, finned_technique};
use crate::human_calcs::guess::Guess;
use crate::move_change::Move;
use crate::sudoku::sudoku::Sudoku;
use crate::text::{decimal, push_decimal, push_text};
use core::marker::PhantomData;

verus! {

/// Enum for different ways to solve the puzzle.  Guesses is done by brute force solving.
#[derive(Copy, Clone, Debug, PartialEq, Eq, Structural, PartialOrd)]
pub enum Technique {
    SingleCandidate,
    SinglePossibility,
    Pointing,
    Claiming,
    NakedDouble,
    NakedTriple,
    NakedQuad,
    NakedTuple(usize),
    HiddenDouble,
    HiddenTriple,
    HiddenQuad,
    XWing,
    Swordfish,
    Jellyfish,
    FinnedXWing,
    FinnedSwordfish,
    FinnedJellyfish,
    HiddenTuple(usize),
    FishN(usize),
    FinnedN(usize),
    Guess,
}

/// Tenths of `base + 0.5 * (n - 4)`, the difficulty of a technique of size `n`.
pub open spec fn sized_tenths(base: int, n: int) -> int {
    base + 5 * (n - 4)
}

impl Technique {
    /// The difficulty of the technique in tenths.
    pub open spec fn spec_tenths(self) -> int {
        match self {
            Technique::SingleCandidate => 2,
            Technique::SinglePossibility => 13,
            Technique::Pointing => 18,
            Technique::Claiming => 21,
            Technique::NakedDouble => 10,
            Technique::NakedTriple => 17,
            Technique::NakedQuad => 22,
            Technique::HiddenDouble => 21,
            Technique::HiddenTriple => 29,
            Technique::HiddenQuad => 37,
            Technique::XWing => 34,
            Technique::Swordfish => 40,
            Technique::Jellyfish => 50,
            Technique::FinnedXWing => 41,
            Technique::FinnedSwordfish => 49,
            Technique::FinnedJellyfish => 59,
            Technique::NakedTuple(n) => sized_tenths(22, n as int),
            Technique::HiddenTuple(n) => sized_tenths(37, n as int),
            Technique::FishN(n) => sized_tenths(50, n as int),
            Technique::FinnedN(n) => sized_tenths(59, n as int),
            Technique::Guess => 80,
        }
    }

    /// The default difficulty in tenths: the techniques are tried from the easiest on.
    pub fn difficulty_tenths(&self) -> (r: i128)
        ensures
            r == self.spec_tenths(),
    {
        match self {
            Technique::SingleCandidate => 2,
            Technique::SinglePossibility => 13,
            Technique::Pointing => 18,
            Technique::Claiming => 21,
            Technique::NakedDouble => 10,
            Technique::NakedTriple => 17,
            Technique::NakedQuad => 22,
            Technique::HiddenDouble => 21,
            Technique::HiddenTriple => 29,
            Technique::HiddenQuad => 37,
            Technique::XWing => 34,
            Technique::Swordfish => 40,
            Technique::Jellyfish => 50,
            Technique::FinnedXWing => 41,
            Technique::FinnedSwordfish => 49,
            Technique::FinnedJellyfish => 59,
            Technique::NakedTuple(n) => 22 + 5 * (*n as i128 - 4),
            Technique::HiddenTuple(n) => 37 + 5 * (*n as i128 - 4),
            Technique::FishN(n) => 50 + 5 * (*n as i128 - 4),
            Technique::FinnedN(n) => 59 + 5 * (*n as i128 - 4),
            Technique::Guess => 80,
        }
    }

    /// The techniques the human solver tries, in the order they are listed.
    pub open spec fn spec_listed() -> Seq<Technique> {
        seq![
            Technique::SingleCandidate,
            Technique::SinglePossibility,
            Technique::Pointing,
            Technique::Claiming,
            Technique::NakedDouble,
            Technique::NakedTriple,
            Technique::NakedQuad,
            Technique::HiddenDouble,
            Technique::HiddenTriple,
            Technique::HiddenQuad,
            Technique::XWing,
            Technique::Swordfish,
            Technique::Jellyfish,
            Technique::FinnedXWing,
            Technique::FinnedSwordfish,
            Technique::FinnedJellyfish,
            Technique::Guess,
        ]
    }

    /// The techniques the human solver tries.
    pub fn iterator() -> (r: Vec<Technique>)
        ensures
            r@ == Self::spec_listed(),
    {
        let r = vec![
            Technique::SingleCandidate,
            Technique::SinglePossibility,
            Technique::Pointing,
            Technique::Claiming,
            Technique::NakedDouble,
            Technique::NakedTriple,
            Technique::NakedQuad,
            Technique::HiddenDouble,
            Technique::HiddenTriple,
            Technique::HiddenQuad,
            Technique::XWing,
            Technique::Swordfish,
            Technique::Jellyfish,
            Technique::FinnedXWing,
            Technique::FinnedSwordfish,
            Technique::FinnedJellyfish,
            Technique::Guess,
        ];
        proof { assert(r@ =~= Self::spec_listed()); }
        r
    }
}

/// The solver of a technique.
pub enum TechSolver<V: BitSetInt> {
    SingleCandidate(SingleCandidate<V>),
    SinglePossibility(SinglePossibility<V>),
    Pointing(PointingCandidate<V>),
    Claiming(ClaimingCandidate<V>),
    Naked(NakedTuple<V>),
    Hidden(HiddenTuple<V>),
    Fish(BasicFish<V>),
    Finned(FinnedFish<V>),
    Guess(Guess<V>),
}

impl<V: BitSetInt> TechStruct<V> for TechSolver<V> {
    open spec fn spec_technique(&self) -> Technique {
        match self {
            TechSolver::SingleCandidate(s) => s.spec_technique(),
            TechSolver::SinglePossibility(s) => s.spec_technique(),
            TechSolver::Pointing(s) => s.spec_technique(),
            TechSolver::Claiming(s) => s.spec_technique(),
            TechSolver::Naked(s) => s.spec_technique(),
            TechSolver::Hidden(s) => s.spec_technique(),
            TechSolver::Fish(s) => s.spec_technique(),
            TechSolver::Finned(s) => s.spec_technique(),
            TechSolver::Guess(s) => s.spec_technique(),
        }
    }

    /// No hint of the technique of the solver held.
    open spec fn spec_finds_nothing(&self, puz: Sudoku<V>) -> bool {
        match self {
            TechSolver::SingleCandidate(s) => s.spec_finds_nothing(puz),
            TechSolver::SinglePossibility(s) => s.spec_finds_nothing(puz),
            TechSolver::Pointing(s) => s.spec_finds_nothing(puz),
            TechSolver::Claiming(s) => s.spec_finds_nothing(puz),
            TechSolver::Naked(s) => s.spec_finds_nothing(puz),
            TechSolver::Hidden(s) => s.spec_finds_nothing(puz),
            TechSolver::Fish(s) => s.spec_finds_nothing(puz),
            TechSolver::Finned(s) => s.spec_finds_nothing(puz),
            TechSolver::Guess(s) => s.spec_finds_nothing(puz),
        }
    }

    fn tech_hint(&self, puz: &Sudoku<V>) -> (r: Option<Move<V>>) {
        match self {
            TechSolver::SingleCandidate(s) => s.tech_hint(puz),
            TechSolver::SinglePossibility(s) => s.tech_hint(puz),
            TechSolver::Pointing(s) => s.tech_hint(puz),
            TechSolver::Claiming(s) => s.tech_hint(puz),
            TechSolver::Naked(s) => s.tech_hint(puz),
            TechSolver::Hidden(s) => s.tech_hint(puz),
            TechSolver::Fish(s) => s.tech_hint(puz),
            TechSolver::Finned(s) => s.tech_hint(puz),
            TechSolver::Guess(s) => s.tech_hint(puz),
        }
    }
}

impl Technique {
    /// The technique that the hints of this technique's solver name: a sized tuple or fish of
    /// a named size names that size, and a finned fish of another size names a fish of it.
    pub open spec fn solved_by(self) -> Technique {
        match self {
            Technique::NakedTuple(n) => naked_technique(n),
            Technique::HiddenTuple(n) => hidden_technique(n),
            Technique::FishN(n) => fish_technique(n),
            Technique::FinnedN(n) => finned_technique(n),
            t => t,
        }
    }

    /// The solver that finds hints of the technique, in spec form.
    pub open spec fn spec_solver<V: BitSetInt>(self) -> TechSolver<V> {
        match self {
            Technique::SingleCandidate => TechSolver::SingleCandidate(SingleCandidate(PhantomData)),
            Technique::SinglePossibility => TechSolver::SinglePossibility(SinglePossibility(PhantomData)),
            Technique::Pointing => TechSolver::Pointing(PointingCandidate(PhantomData)),
            Technique::Claiming => TechSolver::Claiming(ClaimingCandidate(PhantomData)),
            Technique::NakedDouble => TechSolver::Naked(NakedTuple { size: 2, phantom: PhantomData }),
            Technique::NakedTriple => TechSolver::Naked(NakedTuple { size: 3, phantom: PhantomData }),
            Technique::NakedQuad => TechSolver::Naked(NakedTuple { size: 4, phantom: PhantomData }),
            Technique::HiddenDouble => TechSolver::Hidden(HiddenTuple { size: 2, phantom: PhantomData }),
            Technique::HiddenTriple => TechSolver::Hidden(HiddenTuple { size: 3, phantom: PhantomData }),
            Technique::HiddenQuad => TechSolver::Hidden(HiddenTuple { size: 4, phantom: PhantomData }),
            Technique::XWing => TechSolver::Fish(BasicFish { size: 2, phantom: PhantomData }),
            Technique::Swordfish => TechSolver::Fish(BasicFish { size: 3, phantom: PhantomData }),
            Technique::Jellyfish => TechSolver::Fish(BasicFish { size: 4, phantom: PhantomData }),
            Technique::FinnedXWing => TechSolver::Finned(FinnedFish { size: 2, phantom: PhantomData }),
            Technique::FinnedSwordfish => TechSolver::Finned(FinnedFish { size: 3, phantom: PhantomData }),
            Technique::FinnedJellyfish => TechSolver::Finned(FinnedFish { size: 4, phantom: PhantomData }),
            Technique::NakedTuple(n) => TechSolver::Naked(NakedTuple { size: n, phantom: PhantomData }),
            Technique::HiddenTuple(n) => TechSolver::Hidden(HiddenTuple { size: n, phantom: PhantomData }),
            Technique::FishN(n) => TechSolver::Fish(BasicFish { size: n, phantom: PhantomData }),
            Technique::FinnedN(n) => TechSolver::Finned(FinnedFish { size: n, phantom: PhantomData }),
            Technique::Guess => TechSolver::Guess(Guess(PhantomData)),
        }
    }

    /// The solver that finds hints of the technique.
    pub fn solver<V: BitSetInt>(&self) -> (r: TechSolver<V>)
        ensures
            r.spec_technique() == self.solved_by(),
            forall|puz: Sudoku<V>| #[trigger] r.spec_finds_nothing(puz) == self.spec_solver::<V>().spec_finds_nothing(puz),
    {
        match self {
            Technique::SingleCandidate => TechSolver::SingleCandidate(SingleCandidate::new()),
            Technique::SinglePossibility => TechSolver::SinglePossibility(SinglePossibility::new()),
            Technique::Pointing => TechSolver::Pointing(PointingCandidate::new()),
            Technique::Claiming => TechSolver::Claiming(ClaimingCandidate::new()),
            Technique::NakedDouble => TechSolver::Naked(NakedTuple::new(2)),
            Technique::NakedTriple => TechSolver::Naked(NakedTuple::new(3)),
            Technique::NakedQuad => TechSolver::Naked(NakedTuple::new(4)),
            Technique::HiddenDouble => TechSolver::Hidden(HiddenTuple::new(2)),
            Technique::HiddenTriple => TechSolver::Hidden(HiddenTuple::new(3)),
            Technique::HiddenQuad => TechSolver::Hidden(HiddenTuple::new(4)),
            Technique::XWing => TechSolver::Fish(BasicFish::new(2)),
            Technique::Swordfish => TechSolver::Fish(BasicFish::new(3)),
            Technique::Jellyfish => TechSolver::Fish(BasicFish::new(4)),
            Technique::FinnedXWing => TechSolver::Finned(FinnedFish::new(2)),
            Technique::FinnedSwordfish => TechSolver::Finned(FinnedFish::new(3)),
            Technique::FinnedJellyfish => TechSolver::Finned(FinnedFish::new(4)),
            Technique::NakedTuple(n) => TechSolver::Naked(NakedTuple::new(*n)),
            Technique::HiddenTuple(n) => TechSolver::Hidden(HiddenTuple::new(*n)),
            Technique::FishN(n) => TechSolver::Fish(BasicFish::new(*n)),
            Technique::FinnedN(n) => TechSolver::Finned(FinnedFish::new(*n)),
            Technique::Guess => TechSolver::Guess(Guess::new()),
        }
    }

    /// The name of the technique, as shown to a reader.
    pub open spec fn spec_name(self) -> Seq<char> {
        match self {
            Technique::Guess => "Guess"@,
            Technique::SingleCandidate => "Single Candidates"@,
            Technique::SinglePossibility => "Single Possibilities"@,
            Technique::Pointing => "Pointing Candidates"@,
            Technique::Claiming => "Claiming Candidates"@,
            Technique::NakedDouble => "Naked Double"@,
            Technique::NakedTriple => "Naked Triple"@,
            Technique::NakedQuad => "Naked Quadruple"@,
            Technique::HiddenDouble => "Hidden Double"@,
            Technique::HiddenTriple => "Hidden Triple"@,
            Technique::HiddenQuad => "Hidden Quadruple"@,
            Technique::XWing => "X-Wing"@,
            Technique::Swordfish => "Swordfish"@,
            Technique::Jellyfish => "Jellyfish"@,
            Technique::FinnedXWing => "Finned X-Wing"@,
            Technique::FinnedSwordfish => "Finned Swordfish"@,
            Technique::FinnedJellyfish => "Finned Jellyfish"@,
            Technique::NakedTuple(n) => "Naked Tuple size: "@ + decimal(n as nat),
            Technique::HiddenTuple(n) => "Hidden Tuple size: "@ + decimal(n as nat),
            Technique::FishN(n) => "Fish size: "@ + decimal(n as nat),
            Technique::FinnedN(n) => "Finned Fish size: "@ + decimal(n as nat),
        }
    }

    /// The name of the technique, as shown to a reader.
    pub fn to_string(&self) -> (r: String)
        ensures
            r@ == self.spec_name(),
    {
        match self {
            Technique::Guess => String::from_str("Guess"),
            Technique::SingleCandidate => String::from_str("Single Candidates"),
            Technique::SinglePossibility => String::from_str("Single Possibilities"),
            Technique::Pointing => String::from_str("Pointing Candidates"),
            Technique::Claiming => String::from_str("Claiming Candidates"),
            Technique::NakedDouble => String::from_str("Naked Double"),
            Technique::NakedTriple => String::from_str("Naked Triple"),
            Technique::NakedQuad => String::from_str("Naked Quadruple"),
            Technique::HiddenDouble => String::from_str("Hidden Double"),
            Technique::HiddenTriple => String::from_str("Hidden Triple"),
            Technique::HiddenQuad => String::from_str("Hidden Quadruple"),
            Technique::XWing => String::from_str("X-Wing"),
            Technique::Swordfish => String::from_str("Swordfish"),
            Technique::Jellyfish => String::from_str("Jellyfish"),
            Technique::FinnedXWing => String::from_str("Finned X-Wing"),
            Technique::FinnedSwordfish => String::from_str("Finned Swordfish"),
            Technique::FinnedJellyfish => String::from_str("Finned Jellyfish"),
            Technique::NakedTuple(n) => {
                let mut s = String::from_str("Naked Tuple size: ");
                push_decimal(&mut s, *n as u128);
                s
            },
            Technique::HiddenTuple(n) => {
                let mut s = String::from_str("Hidden Tuple size: ");
                push_decimal(&mut s, *n as u128);
                s
            },
            Technique::FishN(n) => {
                let mut s = String::from_str("Fish size: ");
                push_decimal(&mut s, *n as u128);
                s
            },
            Technique::FinnedN(n) => {
                let mut s = String::from_str("Finned Fish size: ");
                push_decimal(&mut s, *n as u128);
                s
            },
        }
    }
}

impl Technique {
    /// The name of the technique as a developer sees it: the variant, and its size in brackets.
    pub open spec fn debug_name(self) -> Seq<char> {
        match self {
            Technique::SingleCandidate => "SingleCandidate"@,
            Technique::SinglePossibility => "SinglePossibility"@,
            Technique::Pointing => "Pointing"@,
            Technique::Claiming => "Claiming"@,
            Technique::NakedDouble => "NakedDouble"@,
            Technique::NakedTriple => "NakedTriple"@,
            Technique::NakedQuad => "NakedQuad"@,
            Technique::HiddenDouble => "HiddenDouble"@,
            Technique::HiddenTriple => "HiddenTriple"@,
            Technique::HiddenQuad => "HiddenQuad"@,
            Technique::XWing => "XWing"@,
            Technique::Swordfish => "Swordfish"@,
            Technique::Jellyfish => "Jellyfish"@,
            Technique::FinnedXWing => "FinnedXWing"@,
            Technique::FinnedSwordfish => "FinnedSwordfish"@,
            Technique::FinnedJellyfish => "FinnedJellyfish"@,
            Technique::Guess => "Guess"@,
            Technique::NakedTuple(k) => "NakedTuple("@ + decimal(k as nat) + ")"@,
            Technique::HiddenTuple(k) => "HiddenTuple("@ + decimal(k as nat) + ")"@,
            Technique::FishN(k) => "FishN("@ + decimal(k as nat) + ")"@,
            Technique::FinnedN(k) => "FinnedN("@ + decimal(k as nat) + ")"@,
        }
    }

    /// Adds the name of the technique, as a developer sees it, at the end of `s`.
    pub fn push_debug_name(&self, s: &mut String)
        ensures
            final(s)@ == old(s)@ + self.debug_name(),
    {
        match self {
            Technique::SingleCandidate => push_text(s, "SingleCandidate"),
            Technique::SinglePossibility => push_text(s, "SinglePossibility"),
            Technique::Pointing => push_text(s, "Pointing"),
            Technique::Claiming => push_text(s, "Claiming"),
            Technique::NakedDouble => push_text(s, "NakedDouble"),
            Technique::NakedTriple => push_text(s, "NakedTriple"),
            Technique::NakedQuad => push_text(s, "NakedQuad"),
            Technique::HiddenDouble => push_text(s, "HiddenDouble"),
            Technique::HiddenTriple => push_text(s, "HiddenTriple"),
            Technique::HiddenQuad => push_text(s, "HiddenQuad"),
            Technique::XWing => push_text(s, "XWing"),
            Technique::Swordfish => push_text(s, "Swordfish"),
            Technique::Jellyfish => push_text(s, "Jellyfish"),
            Technique::FinnedXWing => push_text(s, "FinnedXWing"),
            Technique::FinnedSwordfish => push_text(s, "FinnedSwordfish"),
            Technique::FinnedJellyfish => push_text(s, "FinnedJellyfish"),
            Technique::Guess => push_text(s, "Guess"),
            Technique::NakedTuple(k) => {
                push_text(s, "NakedTuple(");
                push_decimal(s, *k as u128);
                push_text(s, ")");
            },
            Technique::HiddenTuple(k) => {
                push_text(s, "HiddenTuple(");
                push_decimal(s, *k as u128);
                push_text(s, ")");
            },
            Technique::FishN(k) => {
                push_text(s, "FishN(");
                push_decimal(s, *k as u128);
                push_text(s, ")");
            },
            Technique::FinnedN(k) => {
                push_text(s, "FinnedN(");
                push_decimal(s, *k as u128);
                push_text(s, ")");
            },
        }
        proof {
            match self {
                Technique::NakedTuple(k) => { assert(final(s)@ =~= old(s)@ + self.debug_name()); },
                Technique::HiddenTuple(k) => { assert(final(s)@ =~= old(s)@ + self.debug_name()); },
                Technique::FishN(k) => { assert(final(s)@ =~= old(s)@ + self.debug_name()); },
                Technique::FinnedN(k) => { assert(final(s)@ =~= old(s)@ + self.debug_name()); },
                _ => {},
            }
        }
    }
}

/// The difficulty ratings, in tenths: single candidates 0.2, naked double 1.0, single
/// possibilities 1.3, naked triple 1.7, pointing 1.8, claiming and hidden double 2.1, naked
/// quadruple 2.2, hidden triple 2.9, X-wing 3.4, hidden quadruple 3.7, swordfish 4.0, finned
/// X-wing 4.1, finned swordfish 4.9, jellyfish 5.0, finned jellyfish 5.9, and a guess 8.0.
/// A technique of size `n` rates half a point more per size above four than the one of size
/// four, and a guess rates above every technique of size up to eight.
pub proof fn lemma_difficulty_table(n: usize)
    ensures
        Technique::SingleCandidate.spec_tenths() == 2,
        Technique::NakedDouble.spec_tenths() == 10,
        Technique::SinglePossibility.spec_tenths() == 13,
        Technique::NakedTriple.spec_tenths() == 17,
        Technique::Pointing.spec_tenths() == 18,
        Technique::Claiming.spec_tenths() == 21,
        Technique::HiddenDouble.spec_tenths() == 21,
        Technique::NakedQuad.spec_tenths() == 22,
        Technique::HiddenTriple.spec_tenths() == 29,
        Technique::XWing.spec_tenths() == 34,
        Technique::HiddenQuad.spec_tenths() == 37,
        Technique::Swordfish.spec_tenths() == 40,
        Technique::FinnedXWing.spec_tenths() == 41,
        Technique::FinnedSwordfish.spec_tenths() == 49,
        Technique::Jellyfish.spec_tenths() == 50,
        Technique::FinnedJellyfish.spec_tenths() == 59,
        Technique::Guess.spec_tenths() == 80,
        Technique::NakedTuple(n).spec_tenths() == 22 + 5 * (n - 4),
        Technique::HiddenTuple(n).spec_tenths() == 37 + 5 * (n - 4),
        Technique::FishN(n).spec_tenths() == 50 + 5 * (n - 4),
        Technique::FinnedN(n).spec_tenths() == 59 + 5 * (n - 4),
        Technique::NakedTuple(4).spec_tenths() == Technique::NakedQuad.spec_tenths(),
        Technique::HiddenTuple(4).spec_tenths() == Technique::HiddenQuad.spec_tenths(),
        Technique::FishN(4).spec_tenths() == Technique::Jellyfish.spec_tenths(),
        Technique::FinnedN(4).spec_tenths() == Technique::FinnedJellyfish.spec_tenths(),
        n <= 8 ==> Technique::FinnedN(n).spec_tenths() < Technique::Guess.spec_tenths(),
        forall|t: Technique| #[trigger] Technique::spec_listed().contains(t) && t != Technique::Guess
            ==> t.spec_tenths() < Technique::Guess.spec_tenths(),
{
    assert forall|t: Technique| #[trigger] Technique::spec_listed().contains(t) && t != Technique::Guess
        implies t.spec_tenths() < Technique::Guess.spec_tenths() by {
        let k = choose|k: int| 0 <= k < Technique::spec_listed().len() && Technique::spec_listed()[k] == t;
        assert(0 <= k < 17);
    }
}

} // verus!
