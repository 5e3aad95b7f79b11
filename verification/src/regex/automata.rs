//! The shared-prefix automaton: rule patterns are parsed into chains of
//! quantified atoms and merged into one tree; matching walks the tree
//! depth-first and greedily, returning at the first terminal reached.

pub mod element;
pub mod pattern;
pub mod quantifier;
pub mod token_generator;

use element::Element;
use pattern::ErrorCause;
use pattern::parse_members;
use pattern::parse_pattern;
use quantifier::AtomModel;
use quantifier::Quantifier;
use quantifier::atom_result;
use token_generator::Token;
use token_generator::TokenGenerator;
use vstd::prelude::*;

verus! {

/// A rejected pattern: why it cannot compile, with a pattern unit kept
/// only as a diagnostic hint at where the flaw was noticed.
#[derive(Debug, PartialEq)]
pub struct Error<'a> {
    pub token: Token<'a>,
    pub cause: ErrorCause,
}

/// Whether a node closes a rule (`FINAL`, carrying the rule's label) or
/// only serves as a prefix of longer rules (`SKIP`).
#[derive(Debug, PartialEq, Clone, Copy)]
pub enum NodeKind<Type> {
    FINAL(Type),
    SKIP,
}

/// One node of the automaton: its atom, whether a rule ends here, and the
/// children in first-insertion order.
#[derive(Debug, PartialEq)]
pub struct Node<TypeEnum> {
    pub current: Quantifier,
    pub kind: NodeKind<TypeEnum>,
    pub children: Vec<Node<TypeEnum>>,
}

/// Mathematical form of an automaton node.
#[verifier::ext_equal]
pub struct TreeModel<T> {
    pub atom: AtomModel,
    pub kind: NodeKind<T>,
    pub children: Seq<TreeModel<T>>,
}

/// The model of one node.
pub open spec fn tree_view<T>(n: Node<T>) -> TreeModel<T>
    decreases n,
{
    TreeModel { atom: n.current@, kind: n.kind, children: view_nodes(n.children@) }
}

/// The models of a sequence of nodes, in order.
pub open spec fn view_nodes<T>(ns: Seq<Node<T>>) -> Seq<TreeModel<T>>
    decreases ns,
{
    if ns.len() == 0 {
        Seq::<TreeModel<T>>::empty()
    } else {
        seq![tree_view(ns[0])] + view_nodes(ns.drop_first())
    }
}

impl<T> View for Node<T> {
    type V = TreeModel<T>;

    open spec fn view(&self) -> TreeModel<T> {
        tree_view(*self)
    }
}

/// `view_nodes` maps each node to its model, position by position.
pub proof fn lemma_view_nodes<T>(ns: Seq<Node<T>>)
    ensures
        view_nodes(ns).len() == ns.len(),
        forall|i: int| 0 <= i < ns.len() ==> view_nodes(ns)[i] == tree_view(#[trigger] ns[i]),
    decreases ns,
{
    if ns.len() > 0 {
        lemma_view_nodes(ns.drop_first());
        assert forall|i: int|
            0 <= i < ns.len() implies view_nodes(ns)[i] == tree_view(#[trigger] ns[i]) by {
            if i > 0 {
                assert(view_nodes(ns.drop_first())[i - 1] == tree_view(ns.drop_first()[i - 1]));
                assert(ns.drop_first()[i - 1] == ns[i]);
            }
        }
    }
}

/// The depth-first, greedy search of the automaton. The node's atom must
/// match at `pos`; a terminal node then wins at once, a skip node hands the
/// advanced offset to its children in order. `Some((end, id))` means the
/// text from `pos` to `end` completes the rule labelled `id`.
pub open spec fn tree_match<T>(t: TreeModel<T>, s: Seq<char>, pos: int) -> Option<(int, T)>
    decreases t, 0int,
{
    let (ok, k) = atom_result(t.atom, s, pos);
    if !ok {
        None
    } else {
        match t.kind {
            NodeKind::FINAL(id) => Some((pos + k, id)),
            NodeKind::SKIP => children_match_from(t.children, 0, s, pos + k),
        }
    }
}

/// The first match among the children of a node, trying `cs[i..]` in order.
pub open spec fn children_match_from<T>(
    cs: Seq<TreeModel<T>>,
    i: int,
    s: Seq<char>,
    pos: int,
) -> Option<(int, T)>
    decreases cs, cs.len() - i,
{
    if i < 0 || i >= cs.len() {
        None
    } else {
        match tree_match(cs[i], s, pos) {
            Some(r) => Some(r),
            None => children_match_from(cs, i + 1, s, pos),
        }
    }
}

/// A successful match never reports an end before its start nor past the
/// end of the input.
pub proof fn lemma_tree_match_end<T>(t: TreeModel<T>, s: Seq<char>, pos: int)
    requires
        0 <= pos <= s.len(),
    ensures
        tree_match(t, s, pos) matches Some((end, _)) ==> pos <= end <= s.len(),
    decreases t, 0int,
{
    let (ok, k) = atom_result(t.atom, s, pos);
    if ok {
        if t.atom.elems.len() > 0 {
            quantifier::lemma_greedy_reps_bound(
                t.atom.elems,
                s,
                pos,
                quantifier::atom_fuel(t.atom, s),
            );
        }
        match t.kind {
            NodeKind::FINAL(_) => {},
            NodeKind::SKIP => {
                lemma_children_match_end(t.children, 0, s, pos + k);
            },
        }
    }
}

/// As `lemma_tree_match_end`, for the search over a child list.
pub proof fn lemma_children_match_end<T>(cs: Seq<TreeModel<T>>, i: int, s: Seq<char>, pos: int)
    requires
        0 <= pos <= s.len(),
    ensures
        children_match_from(cs, i, s, pos) matches Some((end, _)) ==> pos <= end <= s.len(),
    decreases cs, cs.len() - i,
{
    if 0 <= i < cs.len() {
        lemma_tree_match_end(cs[i], s, pos);
        lemma_children_match_end(cs, i + 1, s, pos);
    }
}

/// The linear tree a single rule compiles to: one node per atom, each the
/// only child of the one before it, the last closing the rule with `id`.
pub open spec fn chain_tree<T>(atoms: Seq<AtomModel>, id: T) -> TreeModel<T>
    recommends
        atoms.len() >= 1,
    decreases atoms.len(),
{
    if atoms.len() <= 1 {
        TreeModel { atom: atoms[0], kind: NodeKind::FINAL(id), children: Seq::<TreeModel<T>>::empty() }
    } else {
        TreeModel {
            atom: atoms[0],
            kind: NodeKind::SKIP,
            children: seq![chain_tree(atoms.drop_first(), id)],
        }
    }
}

/// A node's model, spelled out field by field.
pub proof fn lemma_tree_view_parts<T>(n: Node<T>)
    ensures
        tree_view(n) == (TreeModel {
            atom: n.current@,
            kind: n.kind,
            children: view_nodes(n.children@),
        }),
{
}

/// Appending a node appends its model.
pub proof fn lemma_view_nodes_push<T>(s0: Seq<Node<T>>, s1: Seq<Node<T>>, x: Node<T>)
    requires
        s1 == s0.push(x),
    ensures
        view_nodes(s1) == view_nodes(s0).push(tree_view(x)),
{
    lemma_view_nodes(s0);
    lemma_view_nodes(s1);
    assert forall|i: int|
        0 <= i < s1.len() implies view_nodes(s1)[i] == view_nodes(s0).push(tree_view(x))[i] by {
        assert(view_nodes(s1)[i] == tree_view(s1[i]));
        assert(s1[i] == s0.push(x)[i]);
        if i < s0.len() {
            assert(s0.push(x)[i] == s0[i]);
            assert(view_nodes(s0)[i] == tree_view(s0[i]));
            assert(view_nodes(s0).push(tree_view(x))[i] == view_nodes(s0)[i]);
        } else {
            assert(s0.push(x)[i] == x);
            assert(view_nodes(s0).push(tree_view(x))[i] == tree_view(x));
        }
    }
    assert(view_nodes(s1) =~= view_nodes(s0).push(tree_view(x)));
}

/// The model of a one-node sequence.
pub proof fn lemma_view_nodes_single<T>(ns: Seq<Node<T>>)
    requires
        ns.len() == 1,
    ensures
        view_nodes(ns) == seq![tree_view(ns[0])],
{
    assert(view_nodes(ns.drop_first()) =~= Seq::<TreeModel<T>>::empty());
    assert(view_nodes(ns) =~= seq![tree_view(ns[0])]);
}

/// A flat run of skip nodes, one per atom, none with children: the shape a
/// pattern's atoms take before they are chained and merged.
pub open spec fn skeleton<T>(ns: Seq<Node<T>>, atoms: Seq<AtomModel>) -> bool {
    &&& ns.len() == atoms.len()
    &&& forall|i: int|
        0 <= i < ns.len() ==> tree_view(#[trigger] ns[i]) == (TreeModel {
            atom: atoms[i],
            kind: NodeKind::<T>::SKIP,
            children: Seq::<TreeModel<T>>::empty(),
        })
}

/// Appending a childless skip node keeps the skeleton shape.
proof fn lemma_skeleton_push<T>(
    ns0: Seq<Node<T>>,
    ns1: Seq<Node<T>>,
    x: Node<T>,
    atoms: Seq<AtomModel>,
    a: AtomModel,
)
    requires
        skeleton(ns0, atoms),
        ns1 == ns0.push(x),
        tree_view(x) == (TreeModel {
            atom: a,
            kind: NodeKind::<T>::SKIP,
            children: Seq::<TreeModel<T>>::empty(),
        }),
    ensures
        skeleton(ns1, atoms.push(a)),
{
    assert forall|i: int|
        0 <= i < ns1.len() implies tree_view(#[trigger] ns1[i]) == (TreeModel {
            atom: atoms.push(a)[i],
            kind: NodeKind::<T>::SKIP,
            children: Seq::<TreeModel<T>>::empty(),
        }) by {
        assert(ns1[i] == ns0.push(x)[i]);
        if i < ns0.len() {
            assert(ns0.push(x)[i] == ns0[i]);
            assert(atoms.push(a)[i] == atoms[i]);
        } else {
            assert(ns0.push(x)[i] == x);
            assert(atoms.push(a)[i] == a);
        }
    }
}

/// Replacing the last node's repetition bounds rewrites the last atom's
/// bounds and nothing else.
proof fn lemma_skeleton_bounds<T>(
    ns0: Seq<Node<T>>,
    ns1: Seq<Node<T>>,
    n1: Node<T>,
    atoms: Seq<AtomModel>,
)
    requires
        skeleton(ns0, atoms),
        ns0.len() > 0,
        n1.current.elements == ns0.last().current.elements,
        n1.kind == ns0.last().kind,
        n1.children == ns0.last().children,
        ns1 == ns0.drop_last().push(n1),
    ensures
        skeleton(
            ns1,
            pattern::set_bounds(
                atoms,
                n1.current.min_repetitions as nat,
                match n1.current.max_repetitions {
                    Some(m) => Some(m as nat),
                    None => None,
                },
            ),
        ),
{
    let last = ns0.last();
    assert(tree_view(last) == (TreeModel {
        atom: atoms.last(),
        kind: NodeKind::<T>::SKIP,
        children: Seq::<TreeModel<T>>::empty(),
    }));
    lemma_tree_view_parts(last);
    lemma_tree_view_parts(n1);
    assert(n1.current@.elems == last.current@.elems);
    assert(n1.current@.elems == atoms.last().elems);
    let atoms1 = pattern::set_bounds(
        atoms,
        n1.current.min_repetitions as nat,
        match n1.current.max_repetitions {
            Some(m) => Some(m as nat),
            None => None,
        },
    );
    assert(tree_view(n1) == (TreeModel {
        atom: atoms1.last(),
        kind: NodeKind::<T>::SKIP,
        children: Seq::<TreeModel<T>>::empty(),
    }));
    assert forall|i: int|
        0 <= i < ns1.len() implies tree_view(#[trigger] ns1[i]) == (TreeModel {
            atom: atoms1[i],
            kind: NodeKind::<T>::SKIP,
            children: Seq::<TreeModel<T>>::empty(),
        }) by {
        assert(ns1[i] == ns0.drop_last().push(n1)[i]);
        if i < ns0.len() - 1 {
            assert(ns0.drop_last().push(n1)[i] == ns0.drop_last()[i]);
            assert(ns0.drop_last()[i] == ns0[i]);
            assert(atoms1[i] == atoms[i]);
        } else {
            assert(ns0.drop_last().push(n1)[i] == n1);
        }
    }
}

/// Removing the last node removes the last atom.
proof fn lemma_skeleton_pop<T>(ns0: Seq<Node<T>>, atoms: Seq<AtomModel>)
    requires
        skeleton(ns0, atoms),
        ns0.len() > 0,
    ensures
        skeleton(ns0.drop_last(), atoms.drop_last()),
{
    assert forall|i: int|
        0 <= i < ns0.drop_last().len() implies tree_view(#[trigger] ns0.drop_last()[i])
            == (TreeModel {
            atom: atoms.drop_last()[i],
            kind: NodeKind::<T>::SKIP,
            children: Seq::<TreeModel<T>>::empty(),
        }) by {
        assert(ns0.drop_last()[i] == ns0[i]);
        assert(atoms.drop_last()[i] == atoms[i]);
    }
}

/// The last link of a rule's chain: its final atom, closing the rule.
proof fn lemma_chain_build_base<T>(atoms: Seq<AtomModel>, id: T, m: TreeModel<T>)
    requires
        atoms.len() >= 1,
        m == (TreeModel {
            atom: atoms.last(),
            kind: NodeKind::FINAL(id),
            children: Seq::<TreeModel<T>>::empty(),
        }),
    ensures
        m == chain_tree(atoms.skip(atoms.len() - 1), id),
{
    let tail = atoms.skip(atoms.len() - 1);
    assert(tail.len() == 1);
    assert(tail[0] == atoms.last());
}

/// Wrapping a chain in one more skip node prepends that node's atom.
proof fn lemma_chain_build_step<T>(atoms: Seq<AtomModel>, id: T, j: int, m: TreeModel<T>)
    requires
        1 <= j <= atoms.len() - 1,
        m.atom == atoms[j - 1],
        m.kind == NodeKind::<T>::SKIP,
        m.children == seq![chain_tree(atoms.skip(j), id)],
    ensures
        m == chain_tree(atoms.skip(j - 1), id),
{
    let tail = atoms.skip(j - 1);
    assert(tail.len() == atoms.len() - j + 1);
    assert(tail[0] == atoms[j - 1]);
    assert(tail.drop_first() =~= atoms.skip(j));
    assert(chain_tree(tail, id) == (TreeModel {
        atom: tail[0],
        kind: NodeKind::<T>::SKIP,
        children: seq![chain_tree(tail.drop_first(), id)],
    }));
    assert(m =~= chain_tree(atoms.skip(j - 1), id));
}

/// Whether an existing child can absorb an incoming chain node: the atoms
/// must agree, and a node that already closes a rule only absorbs a plain
/// prefix node, never a second terminal.
pub open spec fn slot_ok<T>(c: TreeModel<T>, atom: AtomModel, kind_in: NodeKind<T>) -> bool {
    c.atom == atom && (c.kind is FINAL ==> kind_in is SKIP)
}

/// The first child from `i` on that can absorb the incoming node.
pub open spec fn find_slot_from<T>(
    cs: Seq<TreeModel<T>>,
    i: int,
    atom: AtomModel,
    kind_in: NodeKind<T>,
) -> Option<int>
    decreases cs.len() - i,
{
    if i < 0 || i >= cs.len() {
        None
    } else if slot_ok(cs[i], atom, kind_in) {
        Some(i)
    } else {
        find_slot_from(cs, i + 1, atom, kind_in)
    }
}

/// A skip node adopts the incoming kind; a terminal keeps its own.
pub open spec fn kind_upd<T>(c: TreeModel<T>, k: NodeKind<T>) -> TreeModel<T> {
    TreeModel {
        atom: c.atom,
        kind: if c.kind is SKIP {
            k
        } else {
            c.kind
        },
        children: c.children,
    }
}

/// Merging one rule's chain into a tree: the chain's head either joins the
/// first child that can absorb it (which may turn from skip to terminal,
/// and then absorbs the rest of the chain), or, when no child can, hangs
/// on as a new last child with the whole chain below it.
pub open spec fn merge_tree<T>(t: TreeModel<T>, chain: TreeModel<T>) -> TreeModel<T>
    decreases chain,
{
    match find_slot_from(t.children, 0, chain.atom, chain.kind) {
        None => TreeModel { atom: t.atom, kind: t.kind, children: t.children.push(chain) },
        Some(i) => {
            let base = kind_upd(t.children[i], chain.kind);
            let merged = if chain.children.len() == 0 {
                base
            } else {
                merge_tree(base, chain.children[0])
            };
            TreeModel { atom: t.atom, kind: t.kind, children: t.children.update(i, merged) }
        },
    }
}

/// A child that cannot absorb the chain is passed over.
proof fn lemma_find_slot_miss<T>(cs: Seq<TreeModel<T>>, i: int, atom: AtomModel, k: NodeKind<T>)
    requires
        0 <= i < cs.len(),
        !slot_ok(cs[i], atom, k),
    ensures
        find_slot_from(cs, i, atom, k) == find_slot_from(cs, i + 1, atom, k),
{
}

/// A child that can absorb the chain is taken.
proof fn lemma_find_slot_hit<T>(cs: Seq<TreeModel<T>>, i: int, atom: AtomModel, k: NodeKind<T>)
    requires
        0 <= i < cs.len(),
        slot_ok(cs[i], atom, k),
    ensures
        find_slot_from(cs, i, atom, k) == Some(i),
{
}

/// Past the last child there is nothing to absorb the chain.
proof fn lemma_find_slot_end<T>(cs: Seq<TreeModel<T>>, i: int, atom: AtomModel, k: NodeKind<T>)
    requires
        i >= cs.len(),
    ensures
        find_slot_from(cs, i, atom, k) == None::<int>,
{
}

/// Replacing one node replaces its model.
proof fn lemma_view_nodes_update<T>(s0: Seq<Node<T>>, s1: Seq<Node<T>>, i: int, x: Node<T>)
    requires
        0 <= i < s0.len(),
        s1 == s0.update(i, x),
    ensures
        view_nodes(s1) == view_nodes(s0).update(i, tree_view(x)),
{
    lemma_view_nodes(s0);
    lemma_view_nodes(s1);
    assert forall|j: int|
        0 <= j < s1.len() implies view_nodes(s1)[j] == view_nodes(s0).update(i, tree_view(x))[j]
    by {
        assert(view_nodes(s1)[j] == tree_view(s1[j]));
        assert(s1[j] == s0.update(i, x)[j]);
        if j != i {
            assert(s0.update(i, x)[j] == s0[j]);
            assert(view_nodes(s0)[j] == tree_view(s0[j]));
            assert(view_nodes(s0).update(i, tree_view(x))[j] == view_nodes(s0)[j]);
        } else {
            assert(s0.update(i, x)[j] == x);
            assert(view_nodes(s0).update(i, tree_view(x))[j] == tree_view(x));
        }
    }
    assert(view_nodes(s1) =~= view_nodes(s0).update(i, tree_view(x)));
}

/// Taking a node out and putting another in its place is replacement.
proof fn lemma_remove_insert<T>(s: Seq<Node<T>>, i: int, x: Node<T>)
    requires
        0 <= i < s.len(),
    ensures
        s.remove(i).insert(i, x) == s.update(i, x),
{
    assert(s.remove(i).insert(i, x) =~= s.update(i, x));
}

/// One plain bracket member: the scan state advances one unit and the
/// resolved members gain one exact predicate.
proof fn lemma_members_step_exact(
    mm: Seq<(char, bool)>,
    i: int,
    out0: Seq<Element>,
    out1: Seq<Element>,
    c: char,
)
    requires
        0 <= i < mm.len(),
        !(mm.len() - i >= 2 && mm[i + 1].1),
        c == mm[i].0,
        out1 == out0.push(Element::EXACT(c)),
    ensures
        pattern::parse_members_acc(mm.skip(i), element::view_elements(out0))
            == pattern::parse_members_acc(mm.skip(i + 1), element::view_elements(out1)),
{
    let ms = mm.skip(i);
    assert(ms[0] == mm[i]);
    if i + 1 < mm.len() {
        assert(ms[1] == mm[i + 1]);
    }
    assert(ms.skip(1) =~= mm.skip(i + 1));
    assert(ms.skip(1) == mm.skip(i + 1));
    element::lemma_view_elements_push(out0, out1, Element::EXACT(c));
    assert(element::elem_view(Element::EXACT(c)) == element::ElemModel::Exact(c));
    assert(pattern::parse_members_acc(ms, element::view_elements(out0))
        == pattern::parse_members_acc(
        ms.skip(1),
        element::view_elements(out0).push(element::ElemModel::Exact(ms[0].0)),
    ));
}

/// A ranged bracket member: the scan state advances three units and the
/// resolved members gain one range predicate.
proof fn lemma_members_step_range(
    mm: Seq<(char, bool)>,
    i: int,
    out0: Seq<Element>,
    out1: Seq<Element>,
    lo: char,
    hi: char,
)
    requires
        0 <= i,
        i + 2 < mm.len(),
        mm[i + 1].1,
        lo == mm[i].0,
        hi == mm[i + 2].0,
        !(hi < lo),
        out1 == out0.push(Element::RANGE(lo, hi)),
    ensures
        pattern::parse_members_acc(mm.skip(i), element::view_elements(out0))
            == pattern::parse_members_acc(mm.skip(i + 3), element::view_elements(out1)),
{
    let ms = mm.skip(i);
    assert(ms[0] == mm[i]);
    assert(ms[1] == mm[i + 1]);
    assert(ms[2] == mm[i + 2]);
    assert(ms.skip(3) =~= mm.skip(i + 3));
    assert(ms.skip(3) == mm.skip(i + 3));
    element::lemma_view_elements_push(out0, out1, Element::RANGE(lo, hi));
    assert(element::elem_view(Element::RANGE(lo, hi)) == element::ElemModel::Range(lo, hi));
    assert(pattern::parse_members_acc(ms, element::view_elements(out0))
        == pattern::parse_members_acc(
        ms.skip(3),
        element::view_elements(out0).push(element::ElemModel::Range(ms[0].0, ms[2].0)),
    ));
}

/// Resolve collected bracket units into predicate members, as
/// `parse_members` describes.
#[verifier::loop_isolation(false)]
fn build_members(members: &Vec<(char, bool)>) -> (r: Result<Vec<Element>, ErrorCause>)
    ensures
        match (r, parse_members(members@)) {
            (Ok(v), Ok(ms)) => element::view_elements(v@) == ms,
            (Err(a), Err(b)) => a == b,
            _ => false,
        },
{
    let ghost mm = members@;
    let mut out: Vec<Element> = Vec::new();
    let mut i: usize = 0;
    proof {
        assert(mm.skip(0) =~= mm);
        element::lemma_view_elements(out@);
        assert(element::view_elements(out@) =~= Seq::<element::ElemModel>::empty());
    }
    while i < members.len()
        invariant
            i <= members@.len(),
            parse_members(mm) == pattern::parse_members_acc(
                mm.skip(i as int),
                element::view_elements(out@),
            ),
        decreases members@.len() - i,
    {
        let ghost ms = mm.skip(i as int);
        let ghost a = element::view_elements(out@);
        proof {
            assert(mm.skip(i as int)[0] == mm[i as int]);
            if i + 1 < mm.len() {
                assert(mm.skip(i as int)[1] == mm[i + 1]);
            }
            if i + 2 < mm.len() {
                assert(mm.skip(i as int)[2] == mm[i + 2]);
            }
        }
        if i + 1 < members.len() && members[i + 1].1 {
            if i + 2 >= members.len() {
                assert(pattern::parse_members_acc(ms, a) == Err::<Seq<element::ElemModel>, _>(
                    ErrorCause::RangeFormat,
                ));
                return Err(ErrorCause::RangeFormat);
            }
            let lo = members[i].0;
            let hi = members[i + 2].0;
            if hi < lo {
                assert(pattern::parse_members_acc(ms, a) == Err::<Seq<element::ElemModel>, _>(
                    ErrorCause::RangeOrder,
                ));
                return Err(ErrorCause::RangeOrder);
            }
            let ghost out0 = out@;
            out.push(Element::RANGE(lo, hi));
            proof {
                lemma_members_step_range(mm, i as int, out0, out@, lo, hi);
            }
            i = i + 3;
        } else {
            let c = members[i].0;
            let ghost out0 = out@;
            out.push(Element::EXACT(c));
            proof {
                lemma_members_step_exact(mm, i as int, out0, out@, c);
            }
            i = i + 1;
        }
    }
    proof {
        assert(mm.skip(i as int) =~= Seq::<(char, bool)>::empty());
        assert(pattern::parse_members_acc(mm.skip(i as int), element::view_elements(out@))
            == Ok::<_, ErrorCause>(element::view_elements(out@)));
    }
    Ok(out)
}

impl<TypeEnum: Copy> Node<TypeEnum> {
    /// A node with the given atom, no children, closing no rule.
    pub fn new_skip(current: Quantifier) -> (r: Self)
        ensures
            r@ == (TreeModel {
                atom: current@,
                kind: NodeKind::<TypeEnum>::SKIP,
                children: Seq::<TreeModel<TypeEnum>>::empty(),
            }),
    {
        let r = Self { current, kind: NodeKind::SKIP, children: Vec::new() };
        proof {
            assert(r@.children =~= Seq::<TreeModel<TypeEnum>>::empty());
        }
        r
    }

    /// The root of an automaton: a zero-width atom that always matches and
    /// consumes nothing.
    pub fn new_root() -> (r: Self)
        ensures
            r@.atom == (AtomModel {
                elems: Seq::<element::ElemModel>::empty(),
                min: 0nat,
                max: Some(0nat),
            }),
            r@.kind == NodeKind::<TypeEnum>::SKIP,
            r@.children == Seq::<TreeModel<TypeEnum>>::empty(),
    {
        Self::new_skip(Quantifier::empty())
    }

    /// Compile one rule's pattern into a fresh automaton: the returned root
    /// carries the rule's atom chain as its single branch, closed with
    /// `id`. A flawed pattern is rejected as `parse_pattern` describes.
    #[verifier::loop_isolation(false)]
    pub fn new_automata<'a>(string: &'a str, id: TypeEnum) -> (r: Result<Self, Error<'a>>)
        ensures
            match (r, parse_pattern(string@)) {
                (Ok(root), Ok(atoms)) => root@ == (TreeModel {
                    atom: AtomModel {
                        elems: Seq::<element::ElemModel>::empty(),
                        min: 0nat,
                        max: Some(0nat),
                    },
                    kind: NodeKind::<TypeEnum>::SKIP,
                    children: seq![chain_tree(atoms, id)],
                }),
                (Err(e), Err(cause)) => e.cause == cause,
                _ => false,
            },
    {
        let ghost s0 = string@;
        let total = string.unicode_len();
        let mut tokens = TokenGenerator::new(string);
        let mut nodes: Vec<Node<TypeEnum>> = Vec::new();
        let mut membs: Vec<(char, bool)> = Vec::new();
        let mut in_bracket = false;
        let ghost mut st = pattern::init_state();
        let mut done = false;
        proof {
            assert(view_nodes(nodes@) =~= Seq::<TreeModel<TypeEnum>>::empty());
        }
        while !done
            invariant
                tokens.position + tokens.current@.len() <= usize::MAX,
                st.err is None,
                in_bracket == (st.bracket is Some),
                in_bracket ==> st.bracket == Some(membs@),
                skeleton(nodes@, st.atoms),
                pattern::fold_units(pattern::scan_units(s0), pattern::init_state())
                    == pattern::fold_units(pattern::scan_units(tokens.current@), st),
                done ==> tokens.current@.len() == 0,
            decreases tokens.current@.len() + (if done {
                0int
            } else {
                1int
            }),
        {
            let ghost pre = tokens.current@;
            let ghost st0 = st;
            match tokens.next() {
                None => {
                    done = true;
                },
                Some(t) => {
                    let ghost u = pre.subrange(0, token_generator::unit_len(pre));
                    proof {
                        pattern::lemma_fold_step(pre, st0);
                        st = pattern::step(st0, u);
                    }
                    let tlen = t.value.unicode_len();
                    let c1 = t.value.get_char(0);
                    proof {
                        assert(t.value@ == u);
                        assert(tlen == token_generator::unit_len(pre));
                        assert(c1 == u[0]);
                    }
                    if in_bracket {
                        if tlen == 1 && c1 == ']' {
                            match build_members(&membs) {
                                Ok(elems) => {
                                    let ghost evec = elems;
                                    proof {
                                        element::lemma_elem_view_mixed(evec);
                                    }
                                    let node = Node::new_skip(
                                        Quantifier::one(Element::MIXED(elems)),
                                    );
                                    let ghost gn = node;
                                    let ghost nodes0 = nodes@;
                                    nodes.push(node);
                                    proof {
                                        lemma_skeleton_push(
                                            nodes0,
                                            nodes@,
                                            gn,
                                            st0.atoms,
                                            pattern::atom_one(
                                                element::ElemModel::Mixed(
                                                    element::view_elements(evec@),
                                                ),
                                            ),
                                        );
                                    }
                                    in_bracket = false;
                                    membs = Vec::new();
                                },
                                Err(cause) => {
                                    proof {
                                        pattern::lemma_fold_err(
                                            pattern::scan_units(tokens.current@),
                                            st,
                                        );
                                    }
                                    return Err(Error { token: t, cause });
                                },
                            }
                        } else {
                            membs.push((c1, tlen == 1 && c1 == '-'));
                        }
                    } else if tlen == 2 {
                        let c2 = t.value.get_char(1);
                        let el = if c2 == 'd' {
                            Element::DIGIT
                        } else if c2 == 's' {
                            Element::WHITESPACE
                        } else if c2 == 'w' {
                            Element::WORD
                        } else {
                            Element::EXACT(c1)
                        };
                        let ghost gel = el;
                        proof {
                            element::lemma_elem_view_simple();
                            element::lemma_elem_view_exact(c1);
                            assert(u[0] == '\\');
                        }
                        let node = Node::new_skip(Quantifier::one(el));
                        let ghost gn = node;
                        let ghost nodes0 = nodes@;
                        nodes.push(node);
                        proof {
                            lemma_skeleton_push(
                                nodes0,
                                nodes@,
                                gn,
                                st0.atoms,
                                pattern::atom_one(element::elem_view(gel)),
                            );
                        }
                    } else if c1 == '?' || c1 == '+' || c1 == '*' {
                        if nodes.len() == 0 {
                            proof {
                                pattern::lemma_fold_err(pattern::scan_units(tokens.current@), st);
                            }
                            return Err(Error { token: t, cause: ErrorCause::WrongSyntax });
                        }
                        let popped = nodes.pop();
                        match popped {
                            Some(mut n) => {
                                let ghost nodes0 = nodes@.push(n);
                                if c1 == '?' {
                                    n.current.min_repetitions = 0;
                                    n.current.max_repetitions = Some(1);
                                } else if c1 == '+' {
                                    n.current.min_repetitions = 1;
                                    n.current.max_repetitions = None;
                                } else {
                                    n.current.min_repetitions = 0;
                                    n.current.max_repetitions = None;
                                }
                                let ghost gn = n;
                                let ghost rest = nodes@;
                                nodes.push(n);
                                proof {
                                    assert(nodes0.drop_last() =~= rest);
                                    assert(nodes0.last() == nodes0[nodes0.len() - 1]);
                                    lemma_skeleton_bounds(nodes0, nodes@, gn, st0.atoms);
                                }
                            },
                            None => {
                                proof {
                                    assert(false);
                                }
                                return Err(Error { token: t, cause: ErrorCause::WrongSyntax });
                            },
                        }
                    } else if c1 == '[' {
                        in_bracket = true;
                        membs = Vec::new();
                    } else {
                        let el = Element::EXACT(c1);
                        let ghost gel = el;
                        proof {
                            element::lemma_elem_view_exact(c1);
                        }
                        let node = Node::new_skip(Quantifier::one(el));
                        let ghost gn = node;
                        let ghost nodes0 = nodes@;
                        nodes.push(node);
                        proof {
                            lemma_skeleton_push(
                                nodes0,
                                nodes@,
                                gn,
                                st0.atoms,
                                pattern::atom_one(element::elem_view(gel)),
                            );
                        }
                    }
                },
            }
        }
        proof {
            pattern::lemma_fold_done(tokens.current@, st);
        }
        if in_bracket {
            let empty_tail = string.substring_char(total, total);
            return Err(
                Error {
                    token: Token { value: empty_tail, span: tokens.position..tokens.position },
                    cause: ErrorCause::UnterminatedBracket,
                },
            );
        }
        if nodes.len() == 0 {
            let empty_tail = string.substring_char(total, total);
            return Err(
                Error {
                    token: Token { value: empty_tail, span: tokens.position..tokens.position },
                    cause: ErrorCause::EmptyPattern,
                },
            );
        }
        let ghost atoms = st.atoms;
        let ghost nodes_all = nodes@;
        let popped = nodes.pop();
        match popped {
            Some(mut node) => {
                proof {
                    lemma_skeleton_pop(nodes_all, atoms);
                    assert(nodes_all.drop_last() =~= nodes@);
                    assert(skeleton(nodes@, atoms.drop_last()));
                    assert(tree_view(nodes_all[nodes_all.len() - 1]) == (TreeModel {
                        atom: atoms.last(),
                        kind: NodeKind::<TypeEnum>::SKIP,
                        children: Seq::<TreeModel<TypeEnum>>::empty(),
                    }));
                    lemma_tree_view_parts(nodes_all.last());
                }
                node.kind = NodeKind::FINAL(id);
                let ghost gnode0 = node;
                proof {
                    lemma_tree_view_parts(gnode0);
                    lemma_chain_build_base(atoms, id, tree_view(gnode0));
                }
                let ghost mut j: int = nodes@.len() as int;
                proof {
                    assert(atoms.drop_last() =~= atoms.subrange(0, j));
                }
                while nodes.len() > 0
                    invariant
                        0 <= j == nodes@.len(),
                        j < atoms.len(),
                        skeleton(nodes@, atoms.subrange(0, j)),
                        tree_view(node) == chain_tree(atoms.skip(j), id),
                    decreases nodes@.len(),
                {
                    let ghost nodes_b = nodes@;
                    let popped2 = nodes.pop();
                    match popped2 {
                        Some(mut n) => {
                            proof {
                                lemma_skeleton_pop(nodes_b, atoms.subrange(0, j));
                                assert(nodes_b.drop_last() =~= nodes@);
                                assert(atoms.subrange(0, j).drop_last() =~= atoms.subrange(
                                    0,
                                    j - 1,
                                ));
                                assert(skeleton(nodes@, atoms.subrange(0, j - 1)));
                                assert(tree_view(nodes_b[nodes_b.len() - 1]) == (TreeModel {
                                    atom: atoms.subrange(0, j)[j - 1],
                                    kind: NodeKind::<TypeEnum>::SKIP,
                                    children: Seq::<TreeModel<TypeEnum>>::empty(),
                                }));
                                assert(atoms.subrange(0, j)[j - 1] == atoms[j - 1]);
                                lemma_tree_view_parts(nodes_b.last());
                                lemma_view_nodes(nodes_b.last().children@);
                            }
                            let ghost child = node;
                            n.children.push(node);
                            let ghost gn = n;
                            proof {
                                assert(gn.children@ =~= seq![child]);
                                lemma_view_nodes_single(gn.children@);
                                lemma_tree_view_parts(gn);
                                lemma_chain_build_step(atoms, id, j, tree_view(gn));
                                j = j - 1;
                            }
                            node = n;
                        },
                        None => {
                            proof {
                                assert(false);
                            }
                        },
                    }
                }
                proof {
                    assert(atoms.skip(0) =~= atoms);
                    assert(tree_view(node) == chain_tree(atoms, id));
                }
                let ghost gchain = node;
                let mut result = Self::new_root();
                result.children.push(node);
                proof {
                    lemma_view_nodes_single(result.children@);
                    lemma_tree_view_parts(result);
                    assert(result.children@[0] == gchain);
                    assert(view_nodes(result.children@) =~= seq![chain_tree(atoms, id)]);
                }
                Ok(result)
            },
            None => {
                proof {
                    assert(false);
                }
                let empty_tail = string.substring_char(total, total);
                Err(
                    Error {
                        token: Token { value: empty_tail, span: tokens.position..tokens.position },
                        cause: ErrorCause::EmptyPattern,
                    },
                )
            },
        }
    }

    /// Merge one rule's chain into this node's subtree, as `merge_tree`
    /// describes: the chain's head joins the first child whose atom equals
    /// it (a skip child may thereby become terminal; a terminal child never
    /// absorbs a second terminal), and the rest of the chain descends into
    /// that child; with no such child the whole chain is appended.
    #[verifier::loop_isolation(false)]
    fn add_child(&mut self, chain: Self)
        ensures
            final(self)@ == merge_tree(old(self)@, chain@),
        decreases chain,
    {
        let ghost t0 = old(self)@;
        let ghost cv = chain@;
        let ghost gchain = chain;
        let ghost cs = t0.children;
        proof {
            lemma_tree_view_parts(gchain);
            lemma_tree_view_parts(*old(self));
            lemma_view_nodes(old(self).children@);
            lemma_view_nodes(gchain.children@);
        }
        let mut idx: usize = 0;
        let mut found_slot = false;
        while !found_slot && idx < self.children.len()
            invariant
                *self == *old(self),
                idx <= self.children@.len(),
                !found_slot ==> find_slot_from(cs, 0, cv.atom, cv.kind) == find_slot_from(
                    cs,
                    idx as int,
                    cv.atom,
                    cv.kind,
                ),
                found_slot ==> idx < self.children@.len() && find_slot_from(cs, 0, cv.atom, cv.kind)
                    == Some(idx as int),
            decreases self.children@.len() - idx + (if found_slot {
                0int
            } else {
                1int
            }),
        {
            proof {
                lemma_tree_view_parts(self.children@[idx as int]);
            }
            let eq = self.children[idx].current == chain.current;
            let kind_ok = match (&self.children[idx].kind, &chain.kind) {
                (NodeKind::FINAL(_), NodeKind::SKIP) => true,
                (NodeKind::FINAL(_), NodeKind::FINAL(_)) => false,
                _ => true,
            };
            proof {
                assert(cs[idx as int] == tree_view(self.children@[idx as int]));
                assert((eq && kind_ok) == slot_ok(cs[idx as int], cv.atom, cv.kind));
                if eq && kind_ok {
                    lemma_find_slot_hit(cs, idx as int, cv.atom, cv.kind);
                } else {
                    lemma_find_slot_miss(cs, idx as int, cv.atom, cv.kind);
                }
            }
            if eq && kind_ok {
                found_slot = true;
            } else {
                idx += 1;
            }
        }
        if found_slot {
            let mut c = self.children.remove(idx);
            let ghost cpre = c;
            proof {
                assert(cpre == old(self).children@[idx as int]);
                lemma_tree_view_parts(cpre);
            }
            if matches!(c.kind, NodeKind::SKIP) {
                c.kind = chain.kind;
            }
            let ghost cbase = c;
            proof {
                lemma_tree_view_parts(cbase);
                assert(tree_view(cbase) == kind_upd(cs[idx as int], cv.kind));
            }
            let Node { current: _, kind: _, children: mut rest } = chain;
            if rest.len() > 0 {
                let sub = rest.remove(0);
                proof {
                    assert(sub == gchain.children@[0]);
                    assert(cv.children[0] == tree_view(sub));
                    assert(decreases_to!(gchain => gchain.children@[0]));
                }
                c.add_child(sub);
                proof {
                    assert(c@ == merge_tree(kind_upd(cs[idx as int], cv.kind), cv.children[0]));
                }
            } else {
                proof {
                    assert(cv.children.len() == 0);
                }
            }
            let ghost merged = c;
            let ghost before_insert = self.children@;
            self.children.insert(idx, c);
            proof {
                assert(before_insert == old(self).children@.remove(idx as int));
                assert(self.children@ == before_insert.insert(idx as int, merged));
                lemma_remove_insert(old(self).children@, idx as int, merged);
                assert(self.children@ == old(self).children@.update(idx as int, merged));
                lemma_view_nodes_update(
                    old(self).children@,
                    self.children@,
                    idx as int,
                    merged,
                );
                lemma_tree_view_parts(*self);
                assert(final(self)@ =~= merge_tree(t0, cv));
            }
        } else {
            proof {
                lemma_find_slot_end(cs, idx as int, cv.atom, cv.kind);
            }
            let ghost before_push = self.children@;
            self.children.push(chain);
            proof {
                lemma_view_nodes_push(before_push, self.children@, gchain);
                lemma_tree_view_parts(*self);
                assert(final(self)@ =~= merge_tree(t0, cv));
            }
        }
    }

    /// Compile `string`'s pattern and merge its chain into this subtree,
    /// closing the new chain with `id`. A rejected pattern leaves the tree
    /// untouched and reports why, as `parse_pattern` describes.
    pub fn add_matcher<'a>(&mut self, string: &'a str, id: TypeEnum) -> (r: Result<(), Error<'a>>)
        ensures
            match (r, parse_pattern(string@)) {
                (Ok(_), Ok(atoms)) => final(self)@ == merge_tree(
                    old(self)@,
                    chain_tree(atoms, id),
                ),
                (Err(e), Err(cause)) => e.cause == cause && final(self)@ == old(self)@,
                _ => false,
            },
    {
        match Self::new_automata(string, id) {
            Err(e) => Err(e),
            Ok(root) => {
                let ghost atoms = parse_pattern(string@)->Ok_0;
                let ghost groot = root;
                let Node { current: _, kind: _, children: mut cs } = root;
                proof {
                    lemma_tree_view_parts(groot);
                    lemma_view_nodes(groot.children@);
                    assert(view_nodes(cs@).len() == 1);
                }
                let chain = cs.remove(0);
                proof {
                    assert(chain == groot.children@[0]);
                    assert(tree_view(chain) == groot@.children[0]);
                    assert(tree_view(chain) == chain_tree(atoms, id));
                }
                self.add_child(chain);
                Ok(())
            },
        }
    }

    /// Search the subtree rooted here with this node's atom anchored at
    /// character offset `position`. On success the returned slice covers
    /// the input from its beginning to the end of the match.
    #[verifier::loop_isolation(false)]
    pub fn try_match_impl<'a>(&self, string: &'a str, position: usize) -> (r: Option<
        (&'a str, TypeEnum),
    >)
        requires
            position <= string@.len(),
        ensures
            match (r, tree_match(self@, string@, position as int)) {
                (None, None) => true,
                (Some((v, id)), Some((end, mid))) => v@ == string@.subrange(0, end) && id == mid,
                _ => false,
            },
        decreases *self,
    {
        let ghost s = string@;
        let ghost t = self@;
        let len = string.unicode_len();
        let (ok, consumed) = self.current.try_match_at(string, len, position);
        if !ok {
            return None;
        }
        let end = position + consumed;
        match &self.kind {
            NodeKind::FINAL(id) => Some((string.substring_char(0, end), *id)),
            NodeKind::SKIP => {
                proof {
                    lemma_view_nodes(self.children@);
                }
                let ghost cs = t.children;
                let mut i: usize = 0;
                while i < self.children.len()
                    invariant
                        i <= self.children@.len(),
                        children_match_from(cs, 0, s, end as int) == children_match_from(
                            cs,
                            i as int,
                            s,
                            end as int,
                        ),
                    decreases self.children@.len() - i,
                {
                    proof {
                        assert(decreases_to!(*self => (*self).children@[i as int]));
                    }
                    let res = self.children[i].try_match_impl(string, end);
                    if res.is_some() {
                        return res;
                    }
                    i += 1;
                }
                None
            },
        }
    }

    /// Search from the start of `string`.
    pub fn try_match<'a>(&self, string: &'a str) -> (r: Option<(&'a str, TypeEnum)>)
        ensures
            match (r, tree_match(self@, string@, 0)) {
                (None, None) => true,
                (Some((v, id)), Some((end, mid))) => v@ == string@.subrange(0, end) && id == mid,
                _ => false,
            },
    {
        self.try_match_impl(string, 0)
    }
}

} // verus!
