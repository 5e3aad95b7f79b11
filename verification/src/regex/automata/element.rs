//! Character predicates: the single-character tests that pattern atoms are
//! built from.

use vstd::prelude::*;

verus! {

/// Mathematical form of a character predicate. `Mixed` carries the members
/// of a bracket class.
pub enum ElemModel {
    Any,
    Range(char, char),
    Exact(char),
    Whitespace,
    Digit,
    Word,
    Mixed(Seq<ElemModel>),
}

/// Whether the predicate `e` accepts the character `c`. A `Mixed` predicate
/// accepts exactly when one of its members does.
pub open spec fn elem_matches(e: ElemModel, c: char) -> bool
    decreases e,
{
    match e {
        ElemModel::Any => true,
        ElemModel::Range(c1, c2) => c1 <= c && c <= c2,
        ElemModel::Exact(c0) => c == c0,
        ElemModel::Whitespace => c == ' ' || c == '\t' || c == '\n' || c == '\r',
        ElemModel::Digit => '0' <= c && c <= '9',
        ElemModel::Word => ('0' <= c && c <= '9') || ('a' <= c && c <= 'z') || ('A' <= c
            && c <= 'Z'),
        ElemModel::Mixed(members) => exists|i: int|
            0 <= i < members.len() && elem_matches(#[trigger] members[i], c),
    }
}

/// A character predicate: one unit of a pattern, before its quantifier.
#[derive(Debug)]
pub enum Element {
    ANY,
    RANGE(char, char),
    EXACT(char),
    WHITESPACE,
    DIGIT,
    WORD,
    MIXED(Vec<Element>),
}

/// The model of one predicate.
pub open spec fn elem_view(e: Element) -> ElemModel
    decreases e,
{
    match e {
        Element::ANY => ElemModel::Any,
        Element::RANGE(c1, c2) => ElemModel::Range(c1, c2),
        Element::EXACT(c) => ElemModel::Exact(c),
        Element::WHITESPACE => ElemModel::Whitespace,
        Element::DIGIT => ElemModel::Digit,
        Element::WORD => ElemModel::Word,
        Element::MIXED(_members) => ElemModel::Mixed(view_elements(e->MIXED_0@)),
    }
}

/// The models of a sequence of predicates, in order.
pub open spec fn view_elements(ms: Seq<Element>) -> Seq<ElemModel>
    decreases ms,
{
    if ms.len() == 0 {
        Seq::<ElemModel>::empty()
    } else {
        seq![elem_view(ms[0])] + view_elements(ms.drop_first())
    }
}

impl View for Element {
    type V = ElemModel;

    open spec fn view(&self) -> ElemModel {
        elem_view(*self)
    }
}

/// `view_elements` maps each predicate to its model, position by position.
pub proof fn lemma_view_elements(ms: Seq<Element>)
    ensures
        view_elements(ms).len() == ms.len(),
        forall|i: int| 0 <= i < ms.len() ==> view_elements(ms)[i] == #[trigger] ms[i]@,
    decreases ms,
{
    if ms.len() > 0 {
        lemma_view_elements(ms.drop_first());
        assert forall|i: int| 0 <= i < ms.len() implies view_elements(ms)[i] == #[trigger] ms[i]@ by {
            if i > 0 {
                assert(view_elements(ms.drop_first())[i - 1] == ms.drop_first()[i - 1]@);
                assert(ms.drop_first()[i - 1] == ms[i]);
            }
        }
    }
}

/// The models of the fixed-class predicates.
pub proof fn lemma_elem_view_simple()
    ensures
        elem_view(Element::ANY) == ElemModel::Any,
        elem_view(Element::DIGIT) == ElemModel::Digit,
        elem_view(Element::WHITESPACE) == ElemModel::Whitespace,
        elem_view(Element::WORD) == ElemModel::Word,
{
}

/// The model of a bracket-class predicate.
pub proof fn lemma_elem_view_mixed(v: Vec<Element>)
    ensures
        elem_view(Element::MIXED(v)) == ElemModel::Mixed(view_elements(v@)),
{
}

/// The model of an exact-character predicate.
pub proof fn lemma_elem_view_exact(c: char)
    ensures
        elem_view(Element::EXACT(c)) == ElemModel::Exact(c),
{
}

/// The model of a range predicate.
pub proof fn lemma_elem_view_range(lo: char, hi: char)
    ensures
        elem_view(Element::RANGE(lo, hi)) == ElemModel::Range(lo, hi),
{
}

/// Appending a predicate appends its model.
pub proof fn lemma_view_elements_push(s0: Seq<Element>, s1: Seq<Element>, x: Element)
    requires
        s1 == s0.push(x),
    ensures
        view_elements(s1) == view_elements(s0).push(elem_view(x)),
{
    lemma_view_elements(s0);
    lemma_view_elements(s1);
    assert forall|i: int|
        0 <= i < s1.len() implies view_elements(s1)[i] == view_elements(s0).push(elem_view(x))[i]
    by {
        assert(view_elements(s1)[i] == s1[i]@);
        assert(s1[i] == s0.push(x)[i]);
        if i < s0.len() {
            assert(s0.push(x)[i] == s0[i]);
            assert(view_elements(s0)[i] == s0[i]@);
            assert(view_elements(s0).push(elem_view(x))[i] == view_elements(s0)[i]);
        } else {
            assert(s0.push(x)[i] == x);
            assert(view_elements(s0).push(elem_view(x))[i] == elem_view(x));
        }
    }
    assert(view_elements(s1) =~= view_elements(s0).push(elem_view(x)));
}

impl PartialEq for Element {
    /// Structural equality; in contracts `a == b` means that the models agree.
    #[verifier::loop_isolation(false)]
    fn eq(&self, other: &Element) -> (r: bool)
        decreases *self,
    {
        match (self, other) {
            (Element::ANY, Element::ANY) => true,
            (Element::RANGE(a1, a2), Element::RANGE(b1, b2)) => *a1 == *b1 && *a2 == *b2,
            (Element::EXACT(a), Element::EXACT(b)) => *a == *b,
            (Element::WHITESPACE, Element::WHITESPACE) => true,
            (Element::DIGIT, Element::DIGIT) => true,
            (Element::WORD, Element::WORD) => true,
            (Element::MIXED(ma), Element::MIXED(mb)) => {
                let ghost sa = self@->Mixed_0;
                let ghost sb = other@->Mixed_0;
                proof {
                    lemma_view_elements(ma@);
                    lemma_view_elements(mb@);
                }
                if ma.len() != mb.len() {
                    assert(sa.len() != sb.len());
                    return false;
                }
                let mut i: usize = 0;
                while i < ma.len()
                    invariant
                        i <= ma.len(),
                        forall|j: int| 0 <= j < i ==> #[trigger] sa[j] == sb[j],
                    decreases ma.len() - i,
                {
                    proof {
                        assert(decreases_to!(*self => (*self)->MIXED_0@[i as int]));
                    }
                    if !(ma[i] == mb[i]) {
                        assert(sa[i as int] != sb[i as int]);
                        assert(self@ != other@) by {
                            if self@ == other@ {
                                assert(sa == sb);
                            }
                        }
                        return false;
                    }
                    i += 1;
                }
                assert(sa =~= sb);
                true
            },
            _ => false,
        }
    }
}

impl vstd::std_specs::cmp::PartialEqSpecImpl for Element {
    open spec fn obeys_eq_spec() -> bool {
        true
    }

    open spec fn eq_spec(&self, other: &Element) -> bool {
        self@ == other@
    }
}

impl Element {
    /// Whether this predicate accepts the character `c`.
    #[verifier::loop_isolation(false)]
    pub fn check(&self, c: char) -> (r: bool)
        ensures
            r == elem_matches(self@, c),
        decreases *self,
    {
        match self {
            Element::ANY => true,
            Element::RANGE(c1, c2) => *c1 <= c && c <= *c2,
            Element::EXACT(c0) => c == *c0,
            Element::WHITESPACE => c == ' ' || c == '\t' || c == '\n' || c == '\r',
            Element::DIGIT => '0' <= c && c <= '9',
            Element::WORD => ('0' <= c && c <= '9') || ('a' <= c && c <= 'z') || ('A' <= c
                && c <= 'Z'),
            Element::MIXED(members) => {
                let ghost ms = self@->Mixed_0;
                proof {
                    lemma_view_elements(members@);
                    assert(ms.len() == members@.len());
                    assert(forall|j: int| 0 <= j < members@.len() ==> ms[j] == members@[j]@);
                }
                let mut i: usize = 0;
                while i < members.len()
                    invariant
                        i <= members.len(),
                        ms.len() == members@.len(),
                        forall|j: int| 0 <= j < members@.len() ==> ms[j] == #[trigger] members@[j]@,
                        self@ == ElemModel::Mixed(ms),
                        forall|j: int| 0 <= j < i ==> !elem_matches(#[trigger] ms[j], c),
                    decreases members.len() - i,
                {
                    proof {
                        assert(decreases_to!(*self => (*self)->MIXED_0@[i as int]));
                    }
                    if members[i].check(c) {
                        assert(elem_matches(ms[i as int], c));
                        return true;
                    }
                    i += 1;
                }
                false
            },
        }
    }
}

} // verus!
