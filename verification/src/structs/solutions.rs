//! Candidates (overlaps the search proposes) and solutions (overlaps that were
//! confirmed and brought into canonical form).
//!
//! Both describe two sequences `a` and `b`, each cut into three pieces
//!
//! ```text
//! a: [ a1 | a2 | a3 ]
//! b: [ b1 | b2 | b3 ]
//! ```
//!
//! where `a2` and `b2` are the aligned parts. At most one of `a1`, `b1` is
//! non-empty, so one signed number, `a1 - b1`, stores both.

use vstd::prelude::*;
use crate::useful::{companion_id, companion_of, Orientation};

verus! {

/// An overlap between the query sequence `a` and the sequence `id_b`, in the
/// coordinates of the corpus text. It carries no orientation and has not been
/// checked against the sequences yet.
#[derive(Hash, PartialEq, Eq, Structural, Debug, Clone, Copy)]
pub struct Candidate {
    pub id_b: usize,
    pub overlap_a: usize,
    pub overlap_b: usize,
    pub overhang_left_a: i32,
}

impl Candidate {
    /// Length of the part of `a` before the aligned part.
    pub open spec fn spec_a1(self) -> int {
        if self.overhang_left_a > 0 {
            self.overhang_left_a as int
        } else {
            0
        }
    }

    /// Length of the part of `b` before the aligned part.
    pub open spec fn spec_b1(self) -> int {
        if self.overhang_left_a < 0 {
            -(self.overhang_left_a as int)
        } else {
            0
        }
    }

    /// Length of the part of `a` behind the aligned part.
    pub open spec fn spec_a3(self, a_len: int) -> int {
        a_len - self.spec_a1() - self.overlap_a
    }

    /// Length of the part of `b` behind the aligned part.
    pub open spec fn spec_b3(self, b_len: int) -> int {
        b_len - self.spec_b1() - self.overlap_b
    }

    /// The candidate lies inside two sequences of the given lengths, both
    /// aligned parts are non-empty, and the aligned part of `a` reaches the
    /// end of `a`.
    ///
    /// A suffix-prefix overlap has `b1 == 0`; an inclusion of `a` in `b` has
    /// `a1 == 0`. That at most one of `a1`, `b1` is positive holds of every
    /// candidate by construction.
    pub open spec fn fits(self, a_len: int, b_len: int) -> bool {
        &&& self.overlap_a > 0
        &&& self.overlap_b > 0
        &&& self.overhang_left_a > i32::MIN
        &&& self.spec_a3(a_len) == 0
        &&& self.spec_b3(b_len) >= 0
        &&& a_len <= i32::MAX
        &&& b_len <= i32::MAX
    }

    #[inline]
    pub fn a1(&self) -> (r: usize)
        ensures
            r as int == self.spec_a1(),
    {
        if self.overhang_left_a > 0 {
            self.overhang_left_a as usize
        } else {
            0
        }
    }

    #[inline]
    pub fn b1(&self) -> (r: usize)
        requires
            self.overhang_left_a > i32::MIN,
        ensures
            r as int == self.spec_b1(),
    {
        if self.overhang_left_a < 0 {
            (-self.overhang_left_a) as usize
        } else {
            0
        }
    }

    #[inline]
    pub fn a2(&self) -> (r: usize)
        ensures
            r == self.overlap_a,
    {
        self.overlap_a
    }

    #[inline]
    pub fn b2(&self) -> (r: usize)
        ensures
            r == self.overlap_b,
    {
        self.overlap_b
    }

    #[inline]
    pub fn a3(&self, a_len: usize) -> (r: usize)
        requires
            a_len >= self.spec_a1() + self.overlap_a,
        ensures
            r as int == self.spec_a3(a_len as int),
    {
        a_len - self.a1() - self.a2()
    }

    #[inline]
    pub fn b3(&self, b_len: usize) -> (r: usize)
        requires
            self.overhang_left_a > i32::MIN,
            b_len >= self.spec_b1() + self.overlap_b,
        ensures
            r as int == self.spec_b3(b_len as int),
    {
        b_len - self.b1() - self.b2()
    }
}

/// At most one of the two leading parts is non-empty.
pub proof fn lemma_one_leading_part(c: Candidate)
    ensures
        c.spec_a1() >= 0,
        c.spec_b1() >= 0,
        c.spec_a1() == 0 || c.spec_b1() == 0,
        c.spec_a1() - c.spec_b1() == c.overhang_left_a,
{
}

/// A confirmed overlap between two sequences.
///
/// `overhang_left_a` is positive where `a` starts left of `b`,
/// `overhang_right_b` is positive where `b` ends right of `a`. Two solutions
/// are equal when all their fields are; the derived order compares the fields
/// from first to last.
#[derive(Debug, Clone, Copy, PartialEq, Eq, Structural, PartialOrd, Ord, Hash)]
pub struct Solution {
    pub id_a: usize,
    pub id_b: usize,
    pub orientation: Orientation,
    pub overhang_left_a: i32,
    pub overhang_right_b: i32,
    pub overlap_a: usize,
    pub overlap_b: usize,
    pub errors: u32,
}

impl Solution {
    /// Both overhangs can be negated.
    pub open spec fn negatable(self) -> bool {
        self.overhang_left_a > i32::MIN && self.overhang_right_b > i32::MIN
    }

    /// The same overlap with the roles of `a` and `b` exchanged.
    pub open spec fn v_flipped(self) -> Solution {
        Solution {
            id_a: self.id_b,
            id_b: self.id_a,
            orientation: self.orientation,
            overhang_left_a: (-self.overhang_left_a) as i32,
            overhang_right_b: (-self.overhang_right_b) as i32,
            overlap_a: self.overlap_b,
            overlap_b: self.overlap_a,
            errors: self.errors,
        }
    }

    /// The same overlap read from right to left: what was the left overhang
    /// of `a` is now the right overhang of `b`, with the opposite sign.
    pub open spec fn mirrored(self) -> Solution {
        Solution {
            id_a: self.id_a,
            id_b: self.id_b,
            orientation: self.orientation,
            overhang_left_a: (-self.overhang_right_b) as i32,
            overhang_right_b: (-self.overhang_left_a) as i32,
            overlap_a: self.overlap_a,
            overlap_b: self.overlap_b,
            errors: self.errors,
        }
    }

    /// The same overlap between the two companion sequences, which read the
    /// other way.
    pub open spec fn h_flipped(self) -> Solution {
        Solution {
            id_a: companion_of(self.id_a as int) as usize,
            id_b: companion_of(self.id_b as int) as usize,
            ..self.mirrored()
        }
    }

    /// Exchanges the roles of `a` and `b`.
    pub fn v_flip(&mut self)
        requires
            old(self).negatable(),
        ensures
            *final(self) == old(self).v_flipped(),
    {
        self.overhang_left_a = -self.overhang_left_a;
        self.overhang_right_b = -self.overhang_right_b;
        let id: usize = self.id_a;
        self.id_a = self.id_b;
        self.id_b = id;
        let overlap: usize = self.overlap_a;
        self.overlap_a = self.overlap_b;
        self.overlap_b = overlap;
    }

    /// Replaces both sequences by their companions and mirrors the geometry.
    pub fn h_flip(&mut self, reversals: bool)
        requires
            reversals,
            old(self).negatable(),
            old(self).id_a % 2 == 1 || old(self).id_a < usize::MAX,
            old(self).id_b % 2 == 1 || old(self).id_b < usize::MAX,
        ensures
            *final(self) == old(self).h_flipped(),
    {
        self.id_a = companion_id(self.id_a, reversals);
        self.id_b = companion_id(self.id_b, reversals);
        self.mirror_horizontally();
    }

    /// Mirrors the geometry left to right. The corpus text stores every
    /// sequence backwards; this step translates between the two readings.
    pub fn mirror_horizontally(&mut self)
        requires
            old(self).negatable(),
        ensures
            *final(self) == old(self).mirrored(),
    {
        let left: i32 = self.overhang_left_a;
        self.overhang_left_a = -self.overhang_right_b;
        self.overhang_right_b = -left;
    }
}

/// Each of the three flips undoes itself.
pub proof fn lemma_flips_are_involutions(s: Solution)
    requires
        s.negatable(),
    ensures
        s.v_flipped().v_flipped() == s,
        s.mirrored().mirrored() == s,
        s.id_a < usize::MAX && s.id_b < usize::MAX ==> s.h_flipped().h_flipped() == s,
{
}

/// A set of candidates: a list in which no candidate occurs twice.
#[derive(Debug)]
pub struct CandidateSet {
    items: Vec<Candidate>,
}

impl View for CandidateSet {
    type V = Set<Candidate>;

    closed spec fn view(&self) -> Set<Candidate> {
        self.items@.to_set()
    }
}

impl CandidateSet {
    /// No candidate is held twice.
    pub closed spec fn wf(self) -> bool {
        self.items@.no_duplicates()
    }

    /// The candidates in the order in which they were first inserted.
    pub closed spec fn listing(self) -> Seq<Candidate> {
        self.items@
    }

    pub fn new() -> (r: Self)
        ensures
            r.wf(),
            r@ == Set::<Candidate>::empty(),
            r.listing().len() == 0,
    {
        let r = CandidateSet { items: Vec::new() };
        assert(r.items@.to_set() =~= Set::<Candidate>::empty());
        r
    }

    /// The set holds what the listing holds.
    pub proof fn lemma_listing(self)
        ensures
            forall|c: Candidate| self@.contains(c) <==> self.listing().contains(c),
    {
    }

    /// The number of candidates held.
    pub fn len(&self) -> (r: usize)
        requires
            self.wf(),
        ensures
            r == self@.len(),
            r == self.listing().len(),
            self@.finite(),
    {
        proof {
            self.items@.unique_seq_to_set();
        }
        self.items.len()
    }

    /// The `i`-th candidate of the listing.
    pub fn get(&self, i: usize) -> (r: Candidate)
        requires
            i < self.listing().len(),
        ensures
            r == self.listing()[i as int],
            self@.contains(r),
    {
        assert(self.items@.contains(self.items@[i as int]));
        self.items[i]
    }

    /// Whether the candidate is held.
    pub fn contains(&self, c: &Candidate) -> (r: bool)
        ensures
            r == self@.contains(*c),
    {
        let mut i: usize = 0;
        while i < self.items.len()
            invariant
                0 <= i <= self.items@.len(),
                forall|j: int| 0 <= j < i ==> self.items@[j] != *c,
            decreases self.items@.len() - i,
        {
            if self.items[i] == *c {
                assert(self.items@.contains(self.items@[i as int]));
                return true;
            }
            i = i + 1;
        }
        false
    }

    /// Adds the candidate unless it is held already; says whether it was new.
    pub fn insert(&mut self, c: Candidate) -> (r: bool)
        requires
            old(self).wf(),
        ensures
            final(self).wf(),
            final(self)@ == old(self)@.insert(c),
            r == !old(self)@.contains(c),
            r ==> final(self).listing() == old(self).listing().push(c),
            !r ==> final(self).listing() == old(self).listing(),
    {
        if self.contains(&c) {
            assert(self.items@.to_set().insert(c) =~= self.items@.to_set());
            false
        } else {
            let ghost before = self.items@;
            self.items.push(c);
            proof {
                assert forall|x: Candidate| self.items@.to_set().contains(x) == before.to_set().insert(
                    c,
                ).contains(x) by {
                    if self.items@.contains(x) {
                        let j = choose|j: int| 0 <= j < self.items@.len() && self.items@[j] == x;
                        if j < before.len() {
                            assert(before[j] == x);
                            assert(before.contains(x));
                        }
                    }
                    if before.contains(x) {
                        let j = choose|j: int| 0 <= j < before.len() && before[j] == x;
                        assert(self.items@[j] == x);
                    }
                    if x == c {
                        assert(self.items@[before.len() as int] == c);
                    }
                }
                assert(self.items@.to_set() =~= before.to_set().insert(c));
                assert forall|i: int, j: int|
                    0 <= i < self.items@.len() && 0 <= j < self.items@.len() && i != j implies self.items@[i]
                    != self.items@[j] by {
                    if i < before.len() && j < before.len() {
                        assert(before[i] != before[j]);
                    } else if i < before.len() {
                        assert(before.contains(before[i]));
                    } else if j < before.len() {
                        assert(before.contains(before[j]));
                    }
                }
            }
            true
        }
    }
}

/// A set of solutions: a list in which no solution occurs twice.
#[derive(Debug)]
pub struct SolutionSet {
    items: Vec<Solution>,
}

impl View for SolutionSet {
    type V = Set<Solution>;

    closed spec fn view(&self) -> Set<Solution> {
        self.items@.to_set()
    }
}

impl SolutionSet {
    /// No solution is held twice.
    pub closed spec fn wf(self) -> bool {
        self.items@.no_duplicates()
    }

    /// The solutions in the order in which they were first inserted.
    pub closed spec fn listing(self) -> Seq<Solution> {
        self.items@
    }

    pub fn new() -> (r: Self)
        ensures
            r.wf(),
            r@ == Set::<Solution>::empty(),
            r.listing().len() == 0,
    {
        let r = SolutionSet { items: Vec::new() };
        assert(r.items@.to_set() =~= Set::<Solution>::empty());
        r
    }

    /// The set holds what the listing holds.
    pub proof fn lemma_listing(self)
        ensures
            forall|s: Solution| self@.contains(s) <==> self.listing().contains(s),
    {
    }

    /// The number of solutions held.
    pub fn len(&self) -> (r: usize)
        requires
            self.wf(),
        ensures
            r == self@.len(),
            r == self.listing().len(),
            self@.finite(),
    {
        proof {
            self.items@.unique_seq_to_set();
        }
        self.items.len()
    }

    /// The `i`-th solution of the listing.
    pub fn get(&self, i: usize) -> (r: Solution)
        requires
            i < self.listing().len(),
        ensures
            r == self.listing()[i as int],
            self@.contains(r),
    {
        assert(self.items@.contains(self.items@[i as int]));
        self.items[i]
    }

    /// Whether the solution is held.
    pub fn contains(&self, s: &Solution) -> (r: bool)
        ensures
            r == self@.contains(*s),
    {
        let mut i: usize = 0;
        while i < self.items.len()
            invariant
                0 <= i <= self.items@.len(),
                forall|j: int| 0 <= j < i ==> self.items@[j] != *s,
            decreases self.items@.len() - i,
        {
            if self.items[i] == *s {
                assert(self.items@.contains(self.items@[i as int]));
                return true;
            }
            i = i + 1;
        }
        false
    }

    /// Adds the solution unless it is held already; says whether it was new.
    pub fn insert(&mut self, s: Solution) -> (r: bool)
        requires
            old(self).wf(),
        ensures
            final(self).wf(),
            final(self)@ == old(self)@.insert(s),
            r == !old(self)@.contains(s),
            r ==> final(self).listing() == old(self).listing().push(s),
            !r ==> final(self).listing() == old(self).listing(),
    {
        if self.contains(&s) {
            assert(self.items@.to_set().insert(s) =~= self.items@.to_set());
            false
        } else {
            let ghost before = self.items@;
            self.items.push(s);
            proof {
                assert forall|x: Solution| self.items@.to_set().contains(x) == before.to_set().insert(
                    s,
                ).contains(x) by {
                    if self.items@.contains(x) {
                        let j = choose|j: int| 0 <= j < self.items@.len() && self.items@[j] == x;
                        if j < before.len() {
                            assert(before[j] == x);
                            assert(before.contains(x));
                        }
                    }
                    if before.contains(x) {
                        let j = choose|j: int| 0 <= j < before.len() && before[j] == x;
                        assert(self.items@[j] == x);
                    }
                    if x == s {
                        assert(self.items@[before.len() as int] == s);
                    }
                }
                assert(self.items@.to_set() =~= before.to_set().insert(s));
                assert forall|i: int, j: int|
                    0 <= i < self.items@.len() && 0 <= j < self.items@.len() && i != j implies self.items@[i]
                    != self.items@[j] by {
                    if i < before.len() && j < before.len() {
                        assert(before[i] != before[j]);
                    } else if i < before.len() {
                        assert(before.contains(before[i]));
                    } else if j < before.len() {
                        assert(before.contains(before[j]));
                    }
                }
            }
            true
        }
    }
}

} // verus!
