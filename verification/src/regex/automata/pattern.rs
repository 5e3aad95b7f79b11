//! The meaning of a pattern string: a fold over its units that yields the
//! chain of quantified atoms a rule compiles to, or the reason it is
//! rejected.

use super::element::ElemModel;
use super::quantifier::AtomModel;
use super::token_generator::unit_len;
use vstd::prelude::*;

verus! {

/// Why a pattern is rejected at compile time.
#[derive(Debug, PartialEq, Eq, Structural, Clone, Copy)]
pub enum ErrorCause {
    /// A quantifier with no unit before it.
    WrongSyntax,
    /// A range `[a-b]` whose upper end is below its lower end.
    RangeOrder,
    /// A range with a dash but no unit after it.
    RangeFormat,
    /// A bracket class that never closes.
    UnterminatedBracket,
    /// A pattern with no unit at all.
    EmptyPattern,
}

/// An atom that matches `e` exactly once.
pub open spec fn atom_one(e: ElemModel) -> AtomModel {
    AtomModel { elems: seq![e], min: 1nat, max: Some(1nat) }
}

/// The last atom with its repetition bounds replaced.
pub open spec fn set_bounds(atoms: Seq<AtomModel>, min: nat, max: Option<nat>) -> Seq<AtomModel> {
    atoms.update(
        atoms.len() - 1,
        AtomModel { elems: atoms.last().elems, min, max },
    )
}

/// Bracket members, resolved left to right: a unit whose successor is the
/// bare dash forms a range with the unit after the dash (rejected when the
/// ends are out of order, or when nothing follows the dash); every other
/// unit contributes its first character exactly. `acc` holds the members
/// already resolved.
pub open spec fn parse_members_acc(ms: Seq<(char, bool)>, acc: Seq<ElemModel>) -> Result<
    Seq<ElemModel>,
    ErrorCause,
>
    decreases ms.len(),
{
    if ms.len() == 0 {
        Ok(acc)
    } else if ms.len() >= 2 && ms[1].1 {
        if ms.len() == 2 {
            Err(ErrorCause::RangeFormat)
        } else if ms[2].0 < ms[0].0 {
            Err(ErrorCause::RangeOrder)
        } else {
            parse_members_acc(ms.skip(3), acc.push(ElemModel::Range(ms[0].0, ms[2].0)))
        }
    } else {
        parse_members_acc(ms.skip(1), acc.push(ElemModel::Exact(ms[0].0)))
    }
}

/// The members of a whole bracket class.
pub open spec fn parse_members(ms: Seq<(char, bool)>) -> Result<Seq<ElemModel>, ErrorCause> {
    parse_members_acc(ms, Seq::<ElemModel>::empty())
}

/// The scanner's state between units: the atoms finished so far, the
/// members of an open bracket class (`None` outside one), and the first
/// error met, which absorbs everything after it.
pub struct ParseState {
    pub atoms: Seq<AtomModel>,
    pub bracket: Option<Seq<(char, bool)>>,
    pub err: Option<ErrorCause>,
}

/// The state every scan starts from.
pub open spec fn init_state() -> ParseState {
    ParseState { atoms: Seq::<AtomModel>::empty(), bracket: None, err: None }
}

/// One unit changes the state: inside a bracket it is collected (or closes
/// the class); outside, quantifiers rewrite the bounds of the unit before
/// them, `[` opens a class, `\d`/`\s`/`\w` become the fixed classes, and
/// anything else matches its first character exactly.
pub open spec fn step(st: ParseState, u: Seq<char>) -> ParseState {
    if st.err is Some {
        st
    } else {
        match st.bracket {
            Some(ms) => {
                if u.len() == 1 && u[0] == ']' {
                    match parse_members(ms) {
                        Ok(members) => ParseState {
                            atoms: st.atoms.push(atom_one(ElemModel::Mixed(members))),
                            bracket: None,
                            err: None,
                        },
                        Err(e) => ParseState { atoms: st.atoms, bracket: st.bracket, err: Some(e) },
                    }
                } else {
                    ParseState {
                        atoms: st.atoms,
                        bracket: Some(ms.push((u[0], u.len() == 1 && u[0] == '-'))),
                        err: None,
                    }
                }
            },
            None => {
                if u.len() == 2 {
                    let e = if u[1] == 'd' {
                        ElemModel::Digit
                    } else if u[1] == 's' {
                        ElemModel::Whitespace
                    } else if u[1] == 'w' {
                        ElemModel::Word
                    } else {
                        ElemModel::Exact('\\')
                    };
                    ParseState { atoms: st.atoms.push(atom_one(e)), bracket: None, err: None }
                } else if u[0] == '?' || u[0] == '+' || u[0] == '*' {
                    if st.atoms.len() == 0 {
                        ParseState {
                            atoms: st.atoms,
                            bracket: None,
                            err: Some(ErrorCause::WrongSyntax),
                        }
                    } else {
                        let bounds: (nat, Option<nat>) = if u[0] == '?' {
                            (0nat, Some(1nat))
                        } else if u[0] == '+' {
                            (1nat, None)
                        } else {
                            (0nat, None)
                        };
                        ParseState {
                            atoms: set_bounds(st.atoms, bounds.0, bounds.1),
                            bracket: None,
                            err: None,
                        }
                    }
                } else if u[0] == '[' {
                    ParseState {
                        atoms: st.atoms,
                        bracket: Some(Seq::<(char, bool)>::empty()),
                        err: None,
                    }
                } else {
                    ParseState {
                        atoms: st.atoms.push(atom_one(ElemModel::Exact(u[0]))),
                        bracket: None,
                        err: None,
                    }
                }
            },
        }
    }
}

/// The units of a pattern string, in order.
pub open spec fn scan_units(s: Seq<char>) -> Seq<Seq<char>>
    decreases s.len(),
{
    if s.len() == 0 {
        Seq::<Seq<char>>::empty()
    } else {
        seq![s.subrange(0, unit_len(s))] + scan_units(s.skip(unit_len(s)))
    }
}

/// The state after scanning every unit of `us` from `st`.
pub open spec fn fold_units(us: Seq<Seq<char>>, st: ParseState) -> ParseState
    decreases us.len(),
{
    if us.len() == 0 {
        st
    } else {
        fold_units(us.drop_first(), step(st, us[0]))
    }
}

/// Scanning one unit folds one step.
pub proof fn lemma_fold_step(pre: Seq<char>, st: ParseState)
    requires
        pre.len() > 0,
    ensures
        fold_units(scan_units(pre), st) == fold_units(
            scan_units(pre.subrange(unit_len(pre), pre.len() as int)),
            step(st, pre.subrange(0, unit_len(pre))),
        ),
{
    let k = unit_len(pre);
    let u = pre.subrange(0, k);
    let rest = pre.subrange(k, pre.len() as int);
    assert(pre.skip(k) =~= rest);
    assert(scan_units(pre) == seq![u] + scan_units(rest));
    let us = seq![u] + scan_units(rest);
    assert(us[0] == u);
    assert(us.drop_first() =~= scan_units(rest));
    assert(fold_units(us, st) == fold_units(us.drop_first(), step(st, us[0])));
}

/// A scan of nothing folds nothing.
pub proof fn lemma_fold_done(s: Seq<char>, st: ParseState)
    requires
        s.len() == 0,
    ensures
        fold_units(scan_units(s), st) == st,
{
    assert(scan_units(s) == Seq::<Seq<char>>::empty());
}

/// An error, once met, survives to the end of the scan.
pub proof fn lemma_fold_err(us: Seq<Seq<char>>, st: ParseState)
    requires
        st.err is Some,
    ensures
        fold_units(us, st) == st,
    decreases us.len(),
{
    if us.len() > 0 {
        lemma_fold_err(us.drop_first(), st);
    }
}

/// What a finished scan means: a met error wins, an open bracket or an
/// empty atom list is rejected, anything else is the rule's atom chain.
pub open spec fn finish(st: ParseState) -> Result<Seq<AtomModel>, ErrorCause> {
    if st.err is Some {
        Err(st.err->0)
    } else if st.bracket is Some {
        Err(ErrorCause::UnterminatedBracket)
    } else if st.atoms.len() == 0 {
        Err(ErrorCause::EmptyPattern)
    } else {
        Ok(st.atoms)
    }
}

/// The atom chain a pattern string compiles to, or why it is rejected.
pub open spec fn parse_pattern(s: Seq<char>) -> Result<Seq<AtomModel>, ErrorCause> {
    finish(fold_units(scan_units(s), init_state()))
}

} // verus!
