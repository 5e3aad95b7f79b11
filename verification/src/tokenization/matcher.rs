//! The matcher: all rules of a rule set merged into one automaton, with
//! the scan step that skips separator matches and classifies everything
//! else.

use crate::regex::automata::Node;
use crate::regex::automata::NodeKind;
use crate::regex::automata::TreeModel;
use crate::regex::automata::chain_tree;
use crate::regex::automata::lemma_tree_match_end;
use crate::regex::automata::merge_tree;
use crate::regex::automata::pattern::ErrorCause;
use crate::regex::automata::pattern::parse_pattern;
use crate::regex::automata::tree_match;
use crate::regex::automata::tree_view;
use vstd::prelude::*;

verus! {

/// One classified piece of scanned text: what was matched, the character
/// offset it starts at, and the rule label it falls under.
#[derive(Debug)]
pub struct Token<TypeEnum> {
    pub value: String,
    pub position: usize,
    pub type_: TypeEnum,
}

impl<TypeEnum: Copy> Token<TypeEnum> {
    /// The matched text, as an owned string.
    pub fn to_string(&self) -> (r: String)
        ensures
            r@ == self.value@,
    {
        String::from_str(self.value.as_str())
    }
}

/// What a token exposes besides its label: where it starts and ends.
pub trait ValidToken {
    /// The half-open character span the token covers.
    fn position(&self) -> (usize, usize);
}

impl<TypeEnum: Copy> ValidToken for Token<TypeEnum> {
    fn position(&self) -> (r: (usize, usize))
        ensures
            r.0 == self.position,
            self.position + self.value@.len() <= usize::MAX ==> r.1 == self.position
                + self.value@.len(),
    {
        (self.position, self.position.saturating_add(self.value.as_str().unicode_len()))
    }
}

/// A rejected rule set: which rule (by position: classified rules first,
/// then separator rules) and why its pattern cannot compile.
#[derive(Debug, PartialEq)]
pub struct PatternError {
    pub rule_index: usize,
    pub cause: ErrorCause,
}

/// Unrecognized input: no rule matches at `position`, whose remainder is
/// kept for diagnostics. A separator match of zero width is reported the
/// same way, as the scan can make no progress there.
#[derive(Debug, PartialEq)]
pub struct TokenizeError {
    pub position: usize,
    pub remainder: String,
}

/// The rule list a matcher is built from, as pattern text and optional
/// label: classified rules in declaration order, then separator rules.
pub open spec fn rules_view<T>(regexes: Seq<(String, T)>, ignored: Seq<String>) -> Seq<
    (Seq<char>, Option<T>),
> {
    Seq::new(regexes.len(), |i: int| (regexes[i].0@, Some(regexes[i].1))) + Seq::new(
        ignored.len(),
        |i: int| (ignored[i]@, None),
    )
}

/// Compiling the rules from `i` on into the tree `t`: each pattern's chain
/// is merged in declaration order; the first rejected pattern aborts the
/// whole compilation, reporting its position and cause.
pub open spec fn compile_rules<T>(
    rules: Seq<(Seq<char>, Option<T>)>,
    i: int,
    t: TreeModel<Option<T>>,
) -> Result<TreeModel<Option<T>>, (int, ErrorCause)>
    decreases rules.len() - i,
{
    if i < 0 || i >= rules.len() {
        Ok(t)
    } else {
        match parse_pattern(rules[i].0) {
            Err(c) => Err((i, c)),
            Ok(atoms) => compile_rules(rules, i + 1, merge_tree(t, chain_tree(atoms, rules[i].1))),
        }
    }
}

/// The tree every compilation starts from: the zero-width root alone.
pub open spec fn empty_root<T>() -> TreeModel<Option<T>> {
    TreeModel {
        atom: crate::regex::automata::quantifier::AtomModel {
            elems: Seq::<crate::regex::automata::element::ElemModel>::empty(),
            min: 0nat,
            max: Some(0nat),
        },
        kind: NodeKind::<Option<T>>::SKIP,
        children: Seq::<TreeModel<Option<T>>>::empty(),
    }
}

/// Compiling one more rule merges its chain, or aborts with its position.
proof fn lemma_compile_step<T>(rules: Seq<(Seq<char>, Option<T>)>, i: int, t: TreeModel<Option<T>>)
    requires
        0 <= i < rules.len(),
    ensures
        compile_rules(rules, i, t) == match parse_pattern(rules[i].0) {
            Err(c) => Err::<TreeModel<Option<T>>, _>((i, c)),
            Ok(atoms) => compile_rules(rules, i + 1, merge_tree(t, chain_tree(atoms, rules[i].1))),
        },
{
}

/// Past the last rule the compiled tree stands.
proof fn lemma_compile_end<T>(rules: Seq<(Seq<char>, Option<T>)>, i: int, t: TreeModel<Option<T>>)
    requires
        i >= rules.len(),
    ensures
        compile_rules(rules, i, t) == Ok::<_, (int, ErrorCause)>(t),
{
}

/// What one scan step at an offset yields: the clean end of input, a stuck
/// offset where no progress is possible, or one classified match.
pub enum ScanModel<T> {
    Done,
    Stuck(int),
    Tok(int, int, T),
}

/// The scan step of the tokenizer at offset `pos`: no match at the end of
/// the input ends the scan; no match before the end is stuck input; a
/// separator match advances past its span and tries again (a zero-width
/// separator match is stuck); a classified match is the token, `Tok(start,
/// end, label)`.
pub open spec fn scan_at<T>(t: TreeModel<Option<T>>, s: Seq<char>, pos: int) -> ScanModel<T>
    decreases s.len() - pos,
{
    match tree_match(t, s, pos) {
        None => if pos >= s.len() {
            ScanModel::Done
        } else {
            ScanModel::Stuck(pos)
        },
        Some((end, label)) => match label {
            Some(ty) => ScanModel::Tok(pos, end, ty),
            None => if pos < end <= s.len() {
                scan_at(t, s, end)
            } else {
                ScanModel::Stuck(pos)
            },
        },
    }
}

/// Nothing matches at `pos`: the scan ends or sticks there.
proof fn lemma_scan_none<T>(t: TreeModel<Option<T>>, s: Seq<char>, pos: int)
    requires
        tree_match(t, s, pos) is None,
    ensures
        scan_at(t, s, pos) == if pos >= s.len() {
            ScanModel::<T>::Done
        } else {
            ScanModel::<T>::Stuck(pos)
        },
{
}

/// A classified match at `pos` is the scan's token.
proof fn lemma_scan_tok<T>(t: TreeModel<Option<T>>, s: Seq<char>, pos: int, end: int, ty: T)
    requires
        tree_match(t, s, pos) == Some((end, Some(ty))),
    ensures
        scan_at(t, s, pos) == ScanModel::Tok(pos, end, ty),
{
}

/// A separator match that consumes text restarts the scan after it.
proof fn lemma_scan_skip<T>(t: TreeModel<Option<T>>, s: Seq<char>, pos: int, end: int)
    requires
        tree_match(t, s, pos) == Some((end, None::<T>)),
        pos < end <= s.len(),
    ensures
        scan_at(t, s, pos) == scan_at(t, s, end),
{
}

/// A separator match that consumes nothing leaves the scan stuck.
proof fn lemma_scan_stuck<T>(t: TreeModel<Option<T>>, s: Seq<char>, pos: int, end: int)
    requires
        tree_match(t, s, pos) == Some((end, None::<T>)),
        !(pos < end <= s.len()),
    ensures
        scan_at(t, s, pos) == ScanModel::<T>::Stuck(pos),
{
}

/// Offsets `lo` through `hi` are bridged by separator matches alone: from
/// `lo` the automaton keeps making separator matches, each consuming at
/// least one character, and lands exactly on `hi`.
pub open spec fn sep_reach<T>(t: TreeModel<Option<T>>, s: Seq<char>, lo: int, hi: int) -> bool
    decreases hi - lo,
{
    if lo == hi {
        true
    } else if lo < hi {
        match tree_match(t, s, lo) {
            Some((m, label)) => label is None && lo < m <= hi && sep_reach(t, s, m, hi),
            None => false,
        }
    } else {
        false
    }
}

/// LAW. One scan step reports only what the automaton really does with
/// the text. A token's start is reached from the scan offset by separator
/// matches alone — so separator matches never surface in the output — and
/// its span is exactly a classified match of the automaton, with its
/// label; in particular tokens of successive steps sit at weakly
/// increasing offsets and never overlap. A stuck offset is likewise
/// reached by separator matches alone, and at it the automaton either
/// matches nothing although input remains, or makes a separator match
/// without progress. The clean end is reported only when separator
/// matches alone bridge the scan offset to the end of the input and
/// nothing matches there.
pub proof fn lemma_scan_at_sound<T>(t: TreeModel<Option<T>>, s: Seq<char>, pos: int)
    requires
        0 <= pos <= s.len(),
    ensures
        match scan_at(t, s, pos) {
            ScanModel::Tok(st, end, ty) => {
                &&& sep_reach(t, s, pos, st)
                &&& pos <= st <= end <= s.len()
                &&& tree_match(t, s, st) == Some((end, Some(ty)))
            },
            ScanModel::Stuck(p) => {
                &&& sep_reach(t, s, pos, p)
                &&& pos <= p <= s.len()
                &&& match tree_match(t, s, p) {
                    None => p < s.len(),
                    Some((m, label)) => label is None && !(p < m <= s.len()),
                }
            },
            ScanModel::Done => {
                &&& sep_reach(t, s, pos, s.len() as int)
                &&& tree_match(t, s, s.len() as int) is None
            },
        },
    decreases s.len() - pos,
{
    lemma_tree_match_end(t, s, pos);
    match tree_match(t, s, pos) {
        None => {},
        Some((end, label)) => {
            match label {
                Some(_) => {},
                None => {
                    if pos < end <= s.len() {
                        lemma_scan_at_sound(t, s, end);
                        match scan_at(t, s, end) {
                            ScanModel::Tok(st, _e, _ty) => {
                                assert(sep_reach(t, s, end, st));
                                assert(end <= st) by {
                                    if end != st {
                                        assert(sep_reach(t, s, end, st));
                                    }
                                }
                                assert(sep_reach(t, s, pos, st));
                            },
                            ScanModel::Stuck(p) => {
                                assert(sep_reach(t, s, pos, p));
                            },
                            ScanModel::Done => {
                                assert(sep_reach(t, s, pos, s.len() as int));
                            },
                        }
                    }
                },
            }
        },
    }
}

/// Separator matches only ever bridge an offset to a later one.
pub proof fn lemma_sep_reach_le<T>(t: TreeModel<Option<T>>, s: Seq<char>, lo: int, hi: int)
    requires
        sep_reach(t, s, lo, hi),
    ensures
        lo <= hi,
{
}

/// Every classified span the scan would emit from offset `pos` on, in
/// order: each entry is a token's start, end and label. A degenerate
/// zero-width classified match ends the listing, as the scan makes no
/// progress past it.
pub open spec fn scan_tokens<T>(t: TreeModel<Option<T>>, s: Seq<char>, pos: int) -> Seq<
    (int, int, T),
>
    decreases s.len() - pos,
{
    match scan_at(t, s, pos) {
        ScanModel::Tok(st, end, ty) => if pos < end <= s.len() {
            seq![(st, end, ty)] + scan_tokens(t, s, end)
        } else {
            seq![(st, end, ty)]
        },
        ScanModel::Done => Seq::<(int, int, T)>::empty(),
        ScanModel::Stuck(_) => Seq::<(int, int, T)>::empty(),
    }
}

/// LAW. The whole scan reproduces, in order, exactly classified automaton
/// matches: every span it emits is a classified match of the automaton
/// with that very label, the spans sit in input order without
/// overlapping, and each span begins where separator matches alone lead
/// from the end of the span before it (so separator matches are absent
/// from the output and every emitted offset is right).
pub proof fn lemma_scan_tokens_sound<T>(t: TreeModel<Option<T>>, s: Seq<char>, pos: int)
    requires
        0 <= pos <= s.len(),
    ensures
        ({
            let toks = scan_tokens(t, s, pos);
            &&& forall|i: int|
                0 <= i < toks.len() ==> {
                    &&& tree_match(t, s, (#[trigger] toks[i]).0) == Some(
                        (toks[i].1, Some(toks[i].2)),
                    )
                    &&& pos <= toks[i].0 <= toks[i].1 <= s.len()
                    &&& (i + 1 < toks.len() ==> toks[i].1 <= toks[i + 1].0 && sep_reach(
                        t,
                        s,
                        toks[i].1,
                        toks[i + 1].0,
                    ))
                }
            &&& (toks.len() > 0 ==> sep_reach(t, s, pos, toks[0].0))
        }),
    decreases s.len() - pos,
{
    lemma_scan_at_sound(t, s, pos);
    let toks = scan_tokens(t, s, pos);
    match scan_at(t, s, pos) {
        ScanModel::Tok(st, end, ty) => {
            if pos < end <= s.len() {
                lemma_scan_tokens_sound(t, s, end);
                let rest = scan_tokens(t, s, end);
                assert(toks == seq![(st, end, ty)] + rest);
                assert(toks[0] == (st, end, ty));
                assert(toks.len() == 1 + rest.len());
                if rest.len() > 0 {
                    lemma_sep_reach_le(t, s, end, rest[0].0);
                }
                assert forall|i: int|
                    0 <= i < toks.len() implies {
                        &&& tree_match(t, s, (#[trigger] toks[i]).0) == Some(
                            (toks[i].1, Some(toks[i].2)),
                        )
                        &&& pos <= toks[i].0 <= toks[i].1 <= s.len()
                        &&& (i + 1 < toks.len() ==> toks[i].1 <= toks[i + 1].0 && sep_reach(
                            t,
                            s,
                            toks[i].1,
                            toks[i + 1].0,
                        ))
                    } by {
                    if i > 0 {
                        assert(toks[i] == rest[i - 1]);
                        if i + 1 < toks.len() {
                            assert(toks[i + 1] == rest[i]);
                        }
                        if i - 1 + 1 < rest.len() {
                            assert(rest[i - 1].1 <= rest[i].0);
                        }
                    } else {
                        if 1 < toks.len() {
                            assert(toks[1] == rest[0]);
                            assert(sep_reach(t, s, end, rest[0].0));
                        }
                    }
                }
            }
        },
        ScanModel::Done => {},
        ScanModel::Stuck(_) => {},
    }
}

/// A matcher: every rule of one rule set, classified and separator alike,
/// merged into a single shared-prefix automaton. A separator rule closes
/// its chain with no label.
#[derive(Debug)]
pub struct Matcher<TypeEnum> {
    pub automaton: Node<Option<TypeEnum>>,
}

impl<TypeEnum> View for Matcher<TypeEnum> {
    type V = TreeModel<Option<TypeEnum>>;

    open spec fn view(&self) -> TreeModel<Option<TypeEnum>> {
        tree_view(self.automaton)
    }
}

impl<TypeEnum: Copy> Matcher<TypeEnum> {
    /// Build a matcher from classified rules (pattern and label) and
    /// separator rules (pattern only), in declaration order, as
    /// `compile_rules` describes. The first rejected pattern aborts the
    /// build.
    #[verifier::loop_isolation(false)]
    pub fn build(regexes: Vec<(String, TypeEnum)>, ignored: Vec<String>) -> (r: Result<
        Self,
        PatternError,
    >)
        requires
            regexes@.len() + ignored@.len() <= usize::MAX,
        ensures
            match (r, compile_rules(rules_view(regexes@, ignored@), 0, empty_root::<TypeEnum>())) {
                (Ok(m), Ok(t)) => m@ == t,
                (Err(e), Err((i, c))) => e.rule_index == i && e.cause == c,
                _ => false,
            },
    {
        let ghost rules = rules_view(regexes@, ignored@);
        let mut automaton: Node<Option<TypeEnum>> = Node::new_root();
        let n_classified = regexes.len();
        let mut i: usize = 0;
        proof {
            assert(rules.len() == regexes@.len() + ignored@.len());
        }
        while i < n_classified
            invariant
                i <= regexes@.len(),
                n_classified == regexes@.len(),
                rules == rules_view(regexes@, ignored@),
                compile_rules(rules, 0, empty_root::<TypeEnum>()) == compile_rules(
                    rules,
                    i as int,
                    tree_view(automaton),
                ),
            decreases regexes@.len() - i,
        {
            proof {
                assert(rules[i as int] == (regexes@[i as int].0@, Some(regexes@[i as int].1)));
                lemma_compile_step(rules, i as int, tree_view(automaton));
            }
            let label = regexes[i].1;
            match automaton.add_matcher(regexes[i].0.as_str(), Some(label)) {
                Ok(_) => {},
                Err(e) => {
                    return Err(PatternError { rule_index: i, cause: e.cause });
                },
            }
            i += 1;
        }
        let mut j: usize = 0;
        while j < ignored.len()
            invariant
                j <= ignored@.len(),
                n_classified == regexes@.len(),
                rules == rules_view(regexes@, ignored@),
                compile_rules(rules, 0, empty_root::<TypeEnum>()) == compile_rules(
                    rules,
                    n_classified + j,
                    tree_view(automaton),
                ),
            decreases ignored@.len() - j,
        {
            proof {
                assert(rules[n_classified + j] == (ignored@[j as int]@, None::<TypeEnum>));
                lemma_compile_step(rules, n_classified + j, tree_view(automaton));
            }
            match automaton.add_matcher(ignored[j].as_str(), None) {
                Ok(_) => {},
                Err(e) => {
                    return Err(
                        PatternError { rule_index: n_classified + j, cause: e.cause },
                    );
                },
            }
            j += 1;
        }
        proof {
            lemma_compile_end(rules, n_classified + j, tree_view(automaton));
        }
        Ok(Matcher { automaton })
    }

    /// One scan step at `position`, reported in full: done, stuck, or a
    /// token, as `scan_at` describes.
    #[verifier::loop_isolation(false)]
    pub(crate) fn scan(&self, query: &str, position: usize) -> (r: ScanStep<TypeEnum>)
        requires
            position <= query@.len(),
        ensures
            match (r, scan_at(self@, query@, position as int)) {
                (ScanStep::Finished, ScanModel::Done) => true,
                (ScanStep::Blocked(p), ScanModel::Stuck(q)) => p == q && p <= query@.len(),
                (ScanStep::Matched(tok), ScanModel::Tok(st, end, ty)) => {
                    &&& tok.position == st
                    &&& tok.value@ == query@.subrange(st, end)
                    &&& tok.type_ == ty
                    &&& position <= st <= end <= query@.len()
                },
                _ => false,
            },
    {
        let ghost s = query@;
        let ghost t = self@;
        let len = query.unicode_len();
        let mut pos = position;
        while true
            invariant
                position <= pos <= len,
                scan_at(t, s, position as int) == scan_at(t, s, pos as int),
            decreases len - pos + 1,
        {
            proof {
                lemma_tree_match_end(t, s, pos as int);
            }
            match self.automaton.try_match_impl(query, pos) {
                None => {
                    proof {
                        lemma_scan_none(t, s, pos as int);
                    }
                    if pos >= len {
                        return ScanStep::Finished;
                    } else {
                        return ScanStep::Blocked(pos);
                    }
                },
                Some((v, label)) => {
                    let end = v.unicode_len();
                    proof {
                        assert(tree_match(t, s, pos as int) matches Some((e, _)) && e == end);
                    }
                    match label {
                        Some(ty) => {
                            proof {
                                lemma_scan_tok(t, s, pos as int, end as int, ty);
                            }
                            let value = String::from_str(query.substring_char(pos, end));
                            return ScanStep::Matched(
                                Token { value, position: pos, type_: ty },
                            );
                        },
                        None => {
                            if end <= pos {
                                proof {
                                    lemma_scan_stuck::<TypeEnum>(
                                        t,
                                        s,
                                        pos as int,
                                        end as int,
                                    );
                                }
                                return ScanStep::Blocked(pos);
                            }
                            proof {
                                lemma_scan_skip::<TypeEnum>(t, s, pos as int, end as int);
                            }
                            pos = end;
                        },
                    }
                },
            }
        }
        ScanStep::Finished
    }

    /// The first classified match at or after `position`, skipping
    /// separator matches; `None` both at the clean end of the input and on
    /// stuck input (`scan` tells the two apart).
    pub fn try_match(&self, query: &str, position: usize) -> (r: Option<Token<TypeEnum>>)
        requires
            position <= query@.len(),
        ensures
            match (r, scan_at(self@, query@, position as int)) {
                (None, ScanModel::Done) => true,
                (None, ScanModel::Stuck(_)) => true,
                (Some(tok), ScanModel::Tok(st, end, ty)) => {
                    &&& tok.position == st
                    &&& tok.value@ == query@.subrange(st, end)
                    &&& tok.type_ == ty
                    &&& position <= st <= end <= query@.len()
                },
                _ => false,
            },
    {
        match self.scan(query, position) {
            ScanStep::Matched(tok) => Some(tok),
            ScanStep::Finished => None,
            ScanStep::Blocked(_) => None,
        }
    }
}

/// The result of one scan step, as executable data: the clean end of the
/// input, the offset of stuck input, or one classified token.
pub enum ScanStep<TypeEnum> {
    Finished,
    Blocked(usize),
    Matched(Token<TypeEnum>),
}

/// A matcher is buildable without external data. Code generated around a
/// rule set implements this for its own matcher type.
pub trait BuildableMatcher<TypeEnum> {
    /// Build a new matcher instance.
    fn new() -> Matcher<TypeEnum>;
}

/// What the tokenizer driver asks of a matcher.
pub trait ValidMatcher {
    /// The token type the matcher produces.
    type TokenType;

    /// The first classified match at or after `position`.
    fn try_match(&self, query: &str, position: usize) -> Option<Self::TokenType>
        requires
            position <= query@.len(),
    ;
}

impl<TypeEnum: Copy> ValidMatcher for Matcher<TypeEnum> {
    type TokenType = Token<TypeEnum>;

    fn try_match(&self, query: &str, position: usize) -> Option<Token<TypeEnum>> {
        self.try_match(query, position)
    }
}

} // verus!
