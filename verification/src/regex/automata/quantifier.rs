//! Quantified atoms: a run of character predicates together with repetition
//! bounds, matched greedily against input text.

use super::element::Element;
use super::element::ElemModel;
use super::element::elem_matches;
use super::element::lemma_view_elements;
use super::element::view_elements;
use vstd::prelude::*;

verus! {

/// Mathematical form of a quantified atom: the predicates of one repetition
/// group, the least admissible repetition count, and the greatest one
/// (`None` for unbounded).
pub struct AtomModel {
    pub elems: Seq<ElemModel>,
    pub min: nat,
    pub max: Option<nat>,
}

/// One repetition group matches at offset `from`: every predicate accepts
/// the character at its position.
pub open spec fn group_matches(es: Seq<ElemModel>, s: Seq<char>, from: int) -> bool {
    &&& from + es.len() <= s.len()
    &&& forall|j: int| 0 <= j < es.len() ==> elem_matches(#[trigger] es[j], s[from + j])
}

/// The number of repetition groups a greedy scan takes from offset `from`,
/// never more than `fuel`.
pub open spec fn greedy_reps(es: Seq<ElemModel>, s: Seq<char>, from: int, fuel: nat) -> nat
    decreases fuel,
{
    if fuel == 0 || es.len() == 0 || !group_matches(es, s, from) {
        0
    } else {
        1 + greedy_reps(es, s, from + es.len(), (fuel - 1) as nat)
    }
}

/// Enough fuel for any achievable repetition count: the bound itself when
/// there is one, otherwise the input length.
pub open spec fn atom_fuel(a: AtomModel, s: Seq<char>) -> nat {
    match a.max {
        Some(m) => m,
        None => s.len(),
    }
}

/// The repetition count a greedy scan of atom `a` reaches at offset `from`.
pub open spec fn atom_reps(a: AtomModel, s: Seq<char>, from: int) -> nat {
    greedy_reps(a.elems, s, from, atom_fuel(a, s))
}

/// What matching atom `a` at offset `from` yields: whether the greedy
/// repetition count lies within the bounds, and how many characters the
/// complete repetition groups consumed. An atom without predicates consumes
/// nothing and succeeds exactly when zero repetitions are admissible.
pub open spec fn atom_result(a: AtomModel, s: Seq<char>, from: int) -> (bool, nat) {
    if a.elems.len() == 0 {
        (a.min == 0, 0)
    } else {
        let n = atom_reps(a, s, from);
        (a.min <= n, n * a.elems.len())
    }
}

/// A greedy scan never runs past the end of the input.
pub proof fn lemma_greedy_reps_bound(es: Seq<ElemModel>, s: Seq<char>, from: int, fuel: nat)
    requires
        0 <= from <= s.len(),
        es.len() > 0,
    ensures
        from + greedy_reps(es, s, from, fuel) * es.len() <= s.len(),
        greedy_reps(es, s, from, fuel) <= fuel,
    decreases fuel,
{
    if fuel == 0 || !group_matches(es, s, from) {
        assert(greedy_reps(es, s, from, fuel) == 0);
        assert(greedy_reps(es, s, from, fuel) * es.len() == 0) by (nonlinear_arith)
            requires
                greedy_reps(es, s, from, fuel) == 0,
        ;
    } else {
        lemma_greedy_reps_bound(es, s, from + es.len(), (fuel - 1) as nat);
        let m = greedy_reps(es, s, from + es.len(), (fuel - 1) as nat);
        let g = greedy_reps(es, s, from, fuel);
        assert(g == m + 1);
        assert(g * es.len() == m * es.len() + es.len()) by (nonlinear_arith)
            requires
                g == m + 1,
        ;
        assert(from + es.len() + m * es.len() <= s.len());
        assert(from + g * es.len() <= s.len());
    }
}

/// A quantified atom: `elements` is one repetition group, matched greedily
/// between `min_repetitions` and `max_repetitions` times (`None`: no upper
/// bound).
#[derive(Debug)]
pub struct Quantifier {
    pub elements: Vec<Element>,
    pub min_repetitions: usize,
    pub max_repetitions: Option<usize>,
}

impl View for Quantifier {
    type V = AtomModel;

    open spec fn view(&self) -> AtomModel {
        AtomModel {
            elems: view_elements(self.elements@),
            min: self.min_repetitions as nat,
            max: match self.max_repetitions {
                Some(m) => Some(m as nat),
                None => None,
            },
        }
    }
}

impl PartialEq for Quantifier {
    /// Structural equality; in contracts `a == b` means that the models agree.
    fn eq(&self, other: &Quantifier) -> (r: bool) {
        proof {
            lemma_view_elements(self.elements@);
            lemma_view_elements(other.elements@);
        }
        let bounds_eq = self.min_repetitions == other.min_repetitions && match (
        &self.max_repetitions,
        &other.max_repetitions,
        ) {
            (Option::Some(a), Option::Some(b)) => *a == *b,
            (Option::None, Option::None) => true,
            _ => false,
        };
        if !bounds_eq {
            return false;
        }
        if self.elements.len() != other.elements.len() {
            assert(self@.elems.len() != other@.elems.len());
            return false;
        }
        let mut i: usize = 0;
        while i < self.elements.len()
            invariant
                i <= self.elements.len(),
                self.elements@.len() == other.elements@.len(),
                self@.min == other@.min,
                self@.max == other@.max,
                self@.elems.len() == self.elements@.len(),
                other@.elems.len() == other.elements@.len(),
                forall|j: int|
                    0 <= j < self.elements@.len() ==> self@.elems[j] == #[trigger] self.elements@[j]@,
                forall|j: int|
                    0 <= j < other.elements@.len() ==> other@.elems[j] == #[trigger] other.elements@[j]@,
                forall|j: int| 0 <= j < i ==> #[trigger] self@.elems[j] == other@.elems[j],
            decreases self.elements.len() - i,
        {
            if !(self.elements[i] == other.elements[i]) {
                assert(self@.elems[i as int] != other@.elems[i as int]);
                assert(self@ != other@) by {
                    if self@ == other@ {
                        assert(self@.elems == other@.elems);
                    }
                }
                return false;
            }
            i += 1;
        }
        assert(self@.elems =~= other@.elems);
        true
    }
}

impl vstd::std_specs::cmp::PartialEqSpecImpl for Quantifier {
    open spec fn obeys_eq_spec() -> bool {
        true
    }

    open spec fn eq_spec(&self, other: &Quantifier) -> bool {
        self@ == other@
    }
}

impl Quantifier {
    /// The zero-width atom: no predicates, zero repetitions. It always
    /// matches and consumes nothing; the automaton root carries it.
    pub fn empty() -> (q: Quantifier)
        ensures
            q@ == (AtomModel { elems: Seq::<ElemModel>::empty(), min: 0nat, max: Some(0nat) }),
    {
        let q = Quantifier {
            elements: Vec::new(),
            min_repetitions: 0,
            max_repetitions: Some(0),
        };
        proof {
            assert(q@.elems =~= Seq::<ElemModel>::empty());
        }
        q
    }

    /// An atom that matches `element` exactly once.
    pub fn one(element: Element) -> (q: Quantifier)
        ensures
            q@ == (AtomModel { elems: seq![element@], min: 1nat, max: Some(1nat) }),
    {
        let ghost e = element@;
        let q = Quantifier {
            elements: vec![element],
            min_repetitions: 1,
            max_repetitions: Some(1),
        };
        proof {
            lemma_view_elements(q.elements@);
            assert(q@.elems =~= seq![e]);
        }
        q
    }

    /// Match one repetition group at character offset `position`.
    fn group_matches_at(&self, string: &str, len: usize, position: usize) -> (r: bool)
        requires
            position <= len,
            len == string@.len(),
        ensures
            r == group_matches(self@.elems, string@, position as int),
    {
        proof {
            lemma_view_elements(self.elements@);
        }
        let ghost es = self@.elems;
        let mut j: usize = 0;
        while j < self.elements.len()
            invariant
                j <= self.elements@.len(),
                position <= len,
                len == string@.len(),
                es == self@.elems,
                es.len() == self.elements@.len(),
                forall|k: int| 0 <= k < es.len() ==> es[k] == #[trigger] self.elements@[k]@,
                forall|k: int|
                    0 <= k < j ==> position + k < len && elem_matches(#[trigger] es[k], string@[position + k]),
            decreases self.elements.len() - j,
        {
            if len - position <= j {
                assert(position + es.len() > string@.len());
                return false;
            }
            let c = string.get_char(position + j);
            if !self.elements[j].check(c) {
                assert(!elem_matches(es[j as int], string@[position + j]));
                return false;
            }
            j += 1;
        }
        proof {
            if self.elements.len() > 0 {
                let k = es.len() - 1;
                assert(elem_matches(es[k], string@[position + k]));
            }
        }
        true
    }

    /// Greedily consume repetition groups from the start of `string`.
    /// Returns whether the count reached lies within the bounds, and the
    /// number of characters consumed by the complete groups.
    pub fn try_match(&self, string: &str) -> (r: (bool, usize))
        ensures
            r.0 == atom_result(self@, string@, 0).0,
            r.1 == atom_result(self@, string@, 0).1,
    {
        let len = string.unicode_len();
        self.try_match_at(string, len, 0)
    }

    /// As `try_match`, but starting at character offset `from` of `string`.
    #[verifier::loop_isolation(false)]
    pub fn try_match_at(&self, string: &str, len: usize, from: usize) -> (r: (bool, usize))
        requires
            len == string@.len(),
            from <= len,
        ensures
            r.0 == atom_result(self@, string@, from as int).0,
            r.1 == atom_result(self@, string@, from as int).1,
            from + r.1 <= len,
    {
        let ghost a = self@;
        let ghost s = string@;
        proof {
            lemma_view_elements(self.elements@);
        }
        if self.elements.len() == 0 {
            return (self.min_repetitions == 0, 0);
        }
        let ghost fuel = atom_fuel(a, s);
        let glen = self.elements.len();
        let max_bound = match self.max_repetitions {
            Option::Some(m) => m,
            Option::None => usize::MAX,
        };
        let mut position: usize = from;
        let mut repetitions: usize = 0;
        let mut stop = false;
        proof {
            lemma_greedy_reps_bound(a.elems, s, from as int, fuel);
        }
        while !stop && repetitions < max_bound
            invariant
                position == from + repetitions * a.elems.len(),
                position <= len,
                repetitions <= fuel,
                atom_reps(a, s, from as int) == repetitions + greedy_reps(
                    a.elems,
                    s,
                    position as int,
                    (fuel - repetitions) as nat,
                ),
                stop ==> greedy_reps(a.elems, s, position as int, (fuel - repetitions) as nat)
                    == 0,
            decreases len - position + (if stop {
                0int
            } else {
                1int
            }),
        {
            let ghost rest = (fuel - repetitions) as nat;
            proof {
                if a.max is None {
                    if group_matches(a.elems, s, position as int) {
                        assert(position + a.elems.len() <= s.len());
                        assert(repetitions <= position - from) by (nonlinear_arith)
                            requires
                                position == from + repetitions * a.elems.len(),
                                a.elems.len() >= 1,
                        ;
                        assert(repetitions < fuel);
                    }
                } else {
                    assert(repetitions < fuel);
                }
            }
            if self.group_matches_at(string, len, position) {
                proof {
                    assert(repetitions < fuel);
                    assert(greedy_reps(a.elems, s, position as int, rest) == 1 + greedy_reps(
                        a.elems,
                        s,
                        position + a.elems.len(),
                        (rest - 1) as nat,
                    ));
                    assert(position + a.elems.len() <= s.len());
                    assert((repetitions + 1) * a.elems.len() == repetitions * a.elems.len()
                        + a.elems.len()) by (nonlinear_arith);
                    assert(position + a.elems.len() <= len);
                }
                position += glen;
                repetitions += 1;
            } else {
                proof {
                    assert(greedy_reps(a.elems, s, position as int, rest) == 0);
                }
                stop = true;
            }
        }
        proof {
            if !stop {
                assert(repetitions >= max_bound);
                assert(repetitions == fuel);
                assert(greedy_reps(a.elems, s, position as int, 0nat) == 0);
            }
            assert(atom_reps(a, s, from as int) == repetitions);
        }
        (repetitions >= self.min_repetitions, position - from)
    }
}

} // verus!
