//! The position automaton of a position tree.
//!
//! It has the start state 0 and one state for each position. A transition
//! into a position is labelled with the character of that position.
use vstd::prelude::*;
use crate::ndfa::ast::LinearizedSymbol;
use crate::ndfa::ast::Tree;
use crate::ndfa::ast::TreeView;
use crate::ndfa::ast::AtomicView;
use crate::ndfa::ast::BasicView;
use crate::ndfa::ast::ConcatView;
use crate::ndfa::ast::leaves_union;
use crate::ndfa::ast::leaves_atomic;
use crate::ndfa::ast::leaves_basic;
use crate::ndfa::ast::leaves_of_basics;
use crate::ndfa::ast::leaves_concat;
use crate::ndfa::ast::leaves_of_concats;
use crate::ndfa::ast::first_union;
use crate::ndfa::ast::first_atomic;
use crate::ndfa::ast::first_basic;
use crate::ndfa::ast::first_from;
use crate::ndfa::ast::first_concat;
use crate::ndfa::ast::first_of_all;
use crate::ndfa::ast::last_union;
use crate::ndfa::ast::last_atomic;
use crate::ndfa::ast::last_basic;
use crate::ndfa::ast::last_upto;
use crate::ndfa::ast::last_concat;
use crate::ndfa::ast::last_of_all;
use crate::ndfa::ast::follow_union;
use crate::ndfa::ast::follow_atomic;
use crate::ndfa::ast::follow_basic;
use crate::ndfa::ast::follow_inside;
use crate::ndfa::ast::follow_concat;
use crate::ndfa::ast::follow_of_all;
use crate::ndfa::ast::nullable_union;
use crate::ndfa::ast::nullable_basic;
use crate::ndfa::ast::cartesian_product;
use crate::ndfa::ast::pairs_with;
use crate::ndfa::ast::bridges;
use crate::ndfa::ast::bridges_from;
use crate::ndfa::ast::tree_of;
use crate::ndfa::Automata;
use crate::ndfa::Nfa;
use crate::ndfa::epsilon_nfa;
use crate::ndfa::START;

verus! {

/// The position of `t` that carries the number `j`.
pub open spec fn leaf(t: TreeView, j: int) -> LinearizedSymbol {
    leaves_union(t.root)[j - 1]
}

/// There is a transition from state `i` to state `j`: `j` is a first
/// position if `i` is the start state, and else follows the position `i`.
pub open spec fn position_edge(t: TreeView, i: int, j: int) -> bool {
    &&& 1 <= j <= t.linearized_symbols
    &&& if i == 0 {
        first_union(t.root).contains(leaf(t, j))
    } else {
        1 <= i <= t.linearized_symbols && follow_union(t.root).contains((leaf(t, i), leaf(t, j)))
    }
}

/// The label of the transition from state `i` to state `j`, if there is
/// one.
pub open spec fn position_label(t: TreeView, i: int, j: int) -> Option<char> {
    if position_edge(t, i, j) {
        Some(leaf(t, j).symbol)
    } else {
        None
    }
}

/// State `i` accepts: the start state if the expression matches the empty
/// string, a position if it is a last one.
pub open spec fn position_accepts(t: TreeView, i: int) -> bool {
    if i == 0 {
        nullable_union(t.root)
    } else {
        1 <= i <= t.linearized_symbols && last_union(t.root).contains(leaf(t, i))
    }
}

/// The position automaton of `t`.
pub open spec fn position_nfa(t: TreeView) -> Nfa<char> {
    let size = t.linearized_symbols + 1;
    Nfa {
        size,
        labels: Seq::new(size, |i: int| Seq::new(size, |j: int| position_label(t, i, j))),
        starts: Seq::new(size, |i: int| i == 0),
        accepts: Seq::new(size, |i: int| position_accepts(t, i)),
    }
}

/// The automaton of the classical expression `s`: the one of the empty
/// string if `s` is empty, else the position automaton of the tree of
/// `s`, if `s` is an expression of the grammar whose states can be
/// counted.
pub open spec fn regex_nfa(s: Seq<char>) -> Option<Nfa<char>> {
    if s.len() == 0 {
        Some(epsilon_nfa())
    } else {
        match tree_of(s) {
            Some(t) => if t.linearized_symbols < usize::MAX {
                Some(position_nfa(t))
            } else {
                None
            },
            None => None,
        }
    }
}

/// A position automaton is well formed, and nothing leads back into its
/// start state.
pub proof fn lemma_position_nfa_wf(t: TreeView)
    ensures
        position_nfa(t).wf(),
        position_nfa(t).start_is_source(),
{
}

// -------------------------------------------------------------------------
// First, last and follow positions are positions of the tree
// -------------------------------------------------------------------------

/// What two sequences hold one after the other is what one of them holds.
pub proof fn lemma_contains_add<A>(a: Seq<A>, b: Seq<A>, x: A)
    ensures
        (a + b).contains(x) <==> a.contains(x) || b.contains(x),
{
    if a.contains(x) {
        let k = choose|k: int| 0 <= k < a.len() && a[k] == x;
        assert((a + b)[k] == x);
    }
    if b.contains(x) {
        let k = choose|k: int| 0 <= k < b.len() && b[k] == x;
        assert((a + b)[a.len() + k] == x);
    }
    if (a + b).contains(x) {
        let k = choose|k: int| 0 <= k < (a + b).len() && (a + b)[k] == x;
        if k < a.len() {
            assert(a[k] == x);
        } else {
            assert(b[k - a.len()] == x);
        }
    }
}

/// A position of a part is a position of the concatenation.
pub proof fn lemma_leaves_of_basics(bs: Seq<BasicView>, i: int, x: LinearizedSymbol)
    requires
        0 <= i < bs.len(),
        leaves_basic(bs[i]).contains(x),
    ensures
        leaves_of_basics(bs).contains(x),
    decreases bs.len(),
{
    lemma_contains_add(leaves_of_basics(bs.drop_last()), leaves_basic(bs.last()), x);
    if i < bs.len() - 1 {
        assert(bs.drop_last()[i] == bs[i]);
        lemma_leaves_of_basics(bs.drop_last(), i, x);
    }
}

/// A first position of an atomic expression is one of its positions.
pub proof fn lemma_first_atomic(a: AtomicView, x: LinearizedSymbol)
    requires
        first_atomic(a).contains(x),
    ensures
        leaves_atomic(a).contains(x),
    decreases a, 0int,
{
    match a {
        AtomicView::Symbol(_) => {},
        AtomicView::Union(u) => {
            lemma_first_of_all(u.concats, x);
        },
    }
}

/// A first position of a concatenation is one of its positions.
pub proof fn lemma_first_from(bs: Seq<BasicView>, from: int, x: LinearizedSymbol)
    requires
        first_from(bs, from).contains(x),
    ensures
        leaves_of_basics(bs).contains(x),
    decreases bs, bs.len() - from,
{
    if from < 0 || from >= bs.len() {
    } else {
        if nullable_basic(bs[from]) {
            lemma_contains_add(first_basic(bs[from]), first_from(bs, from + 1), x);
        }
        if first_basic(bs[from]).contains(x) {
            lemma_first_atomic(bs[from].atomic, x);
            lemma_leaves_of_basics(bs, from, x);
        } else {
            lemma_first_from(bs, from + 1, x);
        }
    }
}

/// A first position of an alternation is one of its positions.
pub proof fn lemma_first_of_all(cs: Seq<ConcatView>, x: LinearizedSymbol)
    requires
        first_of_all(cs).contains(x),
    ensures
        leaves_of_concats(cs).contains(x),
    decreases cs, 0int,
{
    if cs.len() > 0 {
        lemma_contains_add(first_of_all(cs.drop_last()), first_concat(cs.last()), x);
        lemma_contains_add(leaves_of_concats(cs.drop_last()), leaves_concat(cs.last()), x);
        if first_of_all(cs.drop_last()).contains(x) {
            lemma_first_of_all(cs.drop_last(), x);
        } else {
            lemma_first_from(cs.last().basics, 0, x);
        }
    }
}

/// A last position of an atomic expression is one of its positions.
pub proof fn lemma_last_atomic(a: AtomicView, x: LinearizedSymbol)
    requires
        last_atomic(a).contains(x),
    ensures
        leaves_atomic(a).contains(x),
    decreases a, 0int,
{
    match a {
        AtomicView::Symbol(_) => {},
        AtomicView::Union(u) => {
            lemma_last_of_all(u.concats, x);
        },
    }
}

/// A last position of a concatenation is one of its positions.
pub proof fn lemma_last_upto(bs: Seq<BasicView>, upto: int, x: LinearizedSymbol)
    requires
        last_upto(bs, upto).contains(x),
    ensures
        leaves_of_basics(bs).contains(x),
    decreases bs, upto,
{
    if upto <= 0 || upto > bs.len() {
    } else {
        if nullable_basic(bs[upto - 1]) {
            lemma_contains_add(last_basic(bs[upto - 1]), last_upto(bs, upto - 1), x);
        }
        if last_basic(bs[upto - 1]).contains(x) {
            lemma_last_atomic(bs[upto - 1].atomic, x);
            lemma_leaves_of_basics(bs, upto - 1, x);
        } else {
            lemma_last_upto(bs, upto - 1, x);
        }
    }
}

/// A last position of an alternation is one of its positions.
pub proof fn lemma_last_of_all(cs: Seq<ConcatView>, x: LinearizedSymbol)
    requires
        last_of_all(cs).contains(x),
    ensures
        leaves_of_concats(cs).contains(x),
    decreases cs, 0int,
{
    if cs.len() > 0 {
        lemma_contains_add(last_of_all(cs.drop_last()), last_concat(cs.last()), x);
        lemma_contains_add(leaves_of_concats(cs.drop_last()), leaves_concat(cs.last()), x);
        if last_of_all(cs.drop_last()).contains(x) {
            lemma_last_of_all(cs.drop_last(), x);
        } else {
            lemma_last_upto(cs.last().basics, cs.last().basics.len() as int, x);
        }
    }
}

/// A pair of one position with others holds that position and one of
/// the others.
pub proof fn lemma_pairs_with(
    a: LinearizedSymbol,
    b: Seq<LinearizedSymbol>,
    p: LinearizedSymbol,
    q: LinearizedSymbol,
)
    requires
        pairs_with(a, b).contains((p, q)),
    ensures
        p == a,
        b.contains(q),
{
    let k = choose|k: int| 0 <= k < pairs_with(a, b).len() && pairs_with(a, b)[k] == (p, q);
    assert(b[k] == q);
}

/// A pair of a product is made of one of each factor.
pub proof fn lemma_product_contains(
    a: Seq<LinearizedSymbol>,
    b: Seq<LinearizedSymbol>,
    p: LinearizedSymbol,
    q: LinearizedSymbol,
)
    requires
        cartesian_product(a, b).contains((p, q)),
    ensures
        a.contains(p),
        b.contains(q),
    decreases a.len(),
{
    if a.len() > 0 {
        lemma_contains_add(cartesian_product(a.drop_last(), b), pairs_with(a.last(), b), (p, q));
        if cartesian_product(a.drop_last(), b).contains((p, q)) {
            lemma_product_contains(a.drop_last(), b, p, q);
            let k = choose|k: int| 0 <= k < a.drop_last().len() && a.drop_last()[k] == p;
            assert(a[k] == p);
        } else {
            lemma_pairs_with(a.last(), b, p, q);
            assert(a[a.len() - 1] == p);
        }
    }
}

/// A follow pair of an atomic expression holds two of its positions.
pub proof fn lemma_follow_atomic(a: AtomicView, p: LinearizedSymbol, q: LinearizedSymbol)
    requires
        follow_atomic(a).contains((p, q)),
    ensures
        leaves_atomic(a).contains(p),
        leaves_atomic(a).contains(q),
    decreases a, 0int,
{
    match a {
        AtomicView::Symbol(_) => {},
        AtomicView::Union(u) => {
            lemma_follow_of_all(u.concats, p, q);
        },
    }
}

/// A follow pair of a basic expression holds two of its positions.
pub proof fn lemma_follow_basic(b: BasicView, p: LinearizedSymbol, q: LinearizedSymbol)
    requires
        follow_basic(b).contains((p, q)),
    ensures
        leaves_basic(b).contains(p),
        leaves_basic(b).contains(q),
    decreases b, 1int,
{
    if b.is_iter {
        lemma_contains_add(
            follow_atomic(b.atomic),
            cartesian_product(last_atomic(b.atomic), first_atomic(b.atomic)),
            (p, q),
        );
    }
    if follow_atomic(b.atomic).contains((p, q)) {
        lemma_follow_atomic(b.atomic, p, q);
    } else {
        lemma_product_contains(last_atomic(b.atomic), first_atomic(b.atomic), p, q);
        lemma_last_atomic(b.atomic, p);
        lemma_first_atomic(b.atomic, q);
    }
}

/// A follow pair inside a part of a concatenation holds two of its
/// positions.
pub proof fn lemma_follow_inside(bs: Seq<BasicView>, p: LinearizedSymbol, q: LinearizedSymbol)
    requires
        follow_inside(bs).contains((p, q)),
    ensures
        leaves_of_basics(bs).contains(p),
        leaves_of_basics(bs).contains(q),
    decreases bs, 0int,
{
    if bs.len() > 0 {
        lemma_contains_add(follow_inside(bs.drop_last()), follow_basic(bs.last()), (p, q));
        lemma_contains_add(leaves_of_basics(bs.drop_last()), leaves_basic(bs.last()), p);
        lemma_contains_add(leaves_of_basics(bs.drop_last()), leaves_basic(bs.last()), q);
        if follow_inside(bs.drop_last()).contains((p, q)) {
            lemma_follow_inside(bs.drop_last(), p, q);
        } else {
            lemma_follow_basic(bs.last(), p, q);
        }
    }
}

/// A pair that leads from one part of a concatenation into later ones
/// holds two of its positions.
pub proof fn lemma_bridges_from(
    bs: Seq<BasicView>,
    i: int,
    j: int,
    p: LinearizedSymbol,
    q: LinearizedSymbol,
)
    requires
        bridges_from(bs, i, j).contains((p, q)),
    ensures
        leaves_of_basics(bs).contains(p),
        leaves_of_basics(bs).contains(q),
    decreases bs.len() - j,
{
    if i < 0 || j <= i || j >= bs.len() {
    } else {
        let here = cartesian_product(last_basic(bs[i]), first_basic(bs[j]));
        if nullable_basic(bs[j]) {
            lemma_contains_add(here, bridges_from(bs, i, j + 1), (p, q));
        }
        if here.contains((p, q)) {
            lemma_product_contains(last_basic(bs[i]), first_basic(bs[j]), p, q);
            lemma_last_atomic(bs[i].atomic, p);
            lemma_first_atomic(bs[j].atomic, q);
            lemma_leaves_of_basics(bs, i, p);
            lemma_leaves_of_basics(bs, j, q);
        } else {
            lemma_bridges_from(bs, i, j + 1, p, q);
        }
    }
}

/// A pair that leads from a part of a concatenation into a later one
/// holds two of its positions.
pub proof fn lemma_bridges(bs: Seq<BasicView>, i: int, p: LinearizedSymbol, q: LinearizedSymbol)
    requires
        bridges(bs, i).contains((p, q)),
    ensures
        leaves_of_basics(bs).contains(p),
        leaves_of_basics(bs).contains(q),
    decreases bs.len() - i,
{
    if i < 0 || i + 1 >= bs.len() {
    } else {
        lemma_contains_add(bridges_from(bs, i, i + 1), bridges(bs, i + 1), (p, q));
        if bridges_from(bs, i, i + 1).contains((p, q)) {
            lemma_bridges_from(bs, i, i + 1, p, q);
        } else {
            lemma_bridges(bs, i + 1, p, q);
        }
    }
}

/// A follow pair of an alternation holds two of its positions.
pub proof fn lemma_follow_of_all(cs: Seq<ConcatView>, p: LinearizedSymbol, q: LinearizedSymbol)
    requires
        follow_of_all(cs).contains((p, q)),
    ensures
        leaves_of_concats(cs).contains(p),
        leaves_of_concats(cs).contains(q),
    decreases cs, 0int,
{
    if cs.len() > 0 {
        lemma_contains_add(follow_of_all(cs.drop_last()), follow_concat(cs.last()), (p, q));
        lemma_contains_add(leaves_of_concats(cs.drop_last()), leaves_concat(cs.last()), p);
        lemma_contains_add(leaves_of_concats(cs.drop_last()), leaves_concat(cs.last()), q);
        if follow_of_all(cs.drop_last()).contains((p, q)) {
            lemma_follow_of_all(cs.drop_last(), p, q);
        } else {
            let bs = cs.last().basics;
            lemma_contains_add(follow_inside(bs), bridges(bs, 0), (p, q));
            if follow_inside(bs).contains((p, q)) {
                lemma_follow_inside(bs, p, q);
            } else {
                lemma_bridges(bs, 0, p, q);
            }
        }
    }
}

/// A position of a well-numbered tree stands at the place that its number
/// gives.
pub proof fn lemma_leaf(t: TreeView, x: LinearizedSymbol)
    requires
        t.wf(),
        leaves_union(t.root).contains(x),
    ensures
        1 <= x.index <= t.linearized_symbols,
        leaf(t, x.index as int) == x,
{
    let l = leaves_union(t.root);
    let k = choose|k: int| 0 <= k < l.len() && l[k] == x;
    assert(l[k].index == 0 + k + 1);
}

/// Every first position is a position of the tree.
pub proof fn lemma_first_is_leaf(t: TreeView, x: LinearizedSymbol)
    requires
        t.wf(),
        first_union(t.root).contains(x),
    ensures
        1 <= x.index <= t.linearized_symbols,
        leaf(t, x.index as int) == x,
{
    lemma_first_of_all(t.root.concats, x);
    lemma_leaf(t, x);
}

/// Every last position is a position of the tree.
pub proof fn lemma_last_is_leaf(t: TreeView, x: LinearizedSymbol)
    requires
        t.wf(),
        last_union(t.root).contains(x),
    ensures
        1 <= x.index <= t.linearized_symbols,
        leaf(t, x.index as int) == x,
{
    lemma_last_of_all(t.root.concats, x);
    lemma_leaf(t, x);
}

/// Both parts of a follow pair are positions of the tree.
pub proof fn lemma_follow_is_leaf(t: TreeView, p: LinearizedSymbol, q: LinearizedSymbol)
    requires
        t.wf(),
        follow_union(t.root).contains((p, q)),
    ensures
        1 <= p.index <= t.linearized_symbols,
        leaf(t, p.index as int) == p,
        1 <= q.index <= t.linearized_symbols,
        leaf(t, q.index as int) == q,
{
    lemma_follow_of_all(t.root.concats, p, q);
    lemma_leaf(t, p);
    lemma_leaf(t, q);
}


proof fn lemma_take_contains<A>(s: Seq<A>, k: int, x: A)
    requires
        0 <= k < s.len(),
    ensures
        s.take(k + 1).contains(x) <==> s.take(k).contains(x) || s[k] == x,
{
    assert(s.take(k + 1) =~= s.take(k) + seq![s[k]]);
    lemma_contains_add(s.take(k), seq![s[k]], x);
    if seq![s[k]].contains(x) {
        let i = choose|i: int| 0 <= i < seq![s[k]].len() && seq![s[k]][i] == x;
        assert(s[k] == x);
    }
    if s[k] == x {
        assert(seq![s[k]][0] == x);
    }
}

/// The label from `i` to `j` after the first `k` first positions and the
/// first `m` follow pairs were entered.
spec fn label_so_far(t: TreeView, k: int, m: int, i: int, j: int) -> Option<char> {
    if 1 <= j <= t.linearized_symbols && (if i == 0 {
        first_union(t.root).take(k).contains(leaf(t, j))
    } else {
        1 <= i <= t.linearized_symbols && follow_union(t.root).take(m).contains(
            (leaf(t, i), leaf(t, j)),
        )
    }) {
        Some(leaf(t, j).symbol)
    } else {
        None
    }
}

/// Whether state `i` accepts after the first `k` last positions were
/// entered.
spec fn accepts_so_far(t: TreeView, k: int, i: int) -> bool {
    if i == 0 {
        nullable_union(t.root)
    } else {
        1 <= i <= t.linearized_symbols && last_union(t.root).take(k).contains(leaf(t, i))
    }
}

proof fn lemma_leaf_number(t: TreeView, j: int)
    requires
        t.wf(),
        1 <= j <= t.linearized_symbols,
    ensures
        leaf(t, j).index == j,
{
    let l = leaves_union(t.root);
    assert(l[j - 1].index == 0 + (j - 1) + 1);
}

proof fn lemma_enter_first(t: TreeView, k: int, i: int, j: int)
    requires
        t.wf(),
        0 <= k < first_union(t.root).len(),
        0 <= i <= t.linearized_symbols,
        0 <= j <= t.linearized_symbols,
    ensures
        label_so_far(t, k + 1, 0, i, j) == if i == 0 && j == first_union(t.root)[k].index {
            Some(first_union(t.root)[k].symbol)
        } else {
            label_so_far(t, k, 0, i, j)
        },
{
    let first = first_union(t.root);
    let s = first[k];
    assert(first.contains(s));
    lemma_first_is_leaf(t, s);
    assert(follow_union(t.root).take(0) =~= Seq::empty());
    if i == 0 && 1 <= j {
        lemma_take_contains(first, k, leaf(t, j));
        lemma_leaf_number(t, j);
    }
}

proof fn lemma_enter_follow(t: TreeView, m: int, i: int, j: int)
    requires
        t.wf(),
        0 <= m < follow_union(t.root).len(),
        0 <= i <= t.linearized_symbols,
        0 <= j <= t.linearized_symbols,
    ensures
        label_so_far(t, first_union(t.root).len() as int, m + 1, i, j) == if i == follow_union(
            t.root,
        )[m].0.index && j == follow_union(t.root)[m].1.index {
            Some(follow_union(t.root)[m].1.symbol)
        } else {
            label_so_far(t, first_union(t.root).len() as int, m, i, j)
        },
{
    let follow = follow_union(t.root);
    let (p, q) = follow[m];
    assert(follow.contains((p, q)));
    lemma_follow_is_leaf(t, p, q);
    if 1 <= i && 1 <= j {
        lemma_take_contains(follow, m, (leaf(t, i), leaf(t, j)));
        lemma_leaf_number(t, j);
        lemma_leaf_number(t, i);
    }
}

proof fn lemma_enter_last(t: TreeView, k: int, i: int)
    requires
        t.wf(),
        0 <= k < last_union(t.root).len(),
        0 <= i <= t.linearized_symbols,
    ensures
        accepts_so_far(t, k + 1, i) == (i == last_union(t.root)[k].index || accepts_so_far(t, k, i)),
{
    let last = last_union(t.root);
    let s = last[k];
    assert(last.contains(s));
    lemma_last_is_leaf(t, s);
    if 1 <= i {
        lemma_take_contains(last, k, leaf(t, i));
        lemma_leaf_number(t, i);
    }
}

impl Automata {
    /// The position automaton of `tree`.
    pub fn from_tree(tree: &Tree) -> (automata: Self)
        requires
            tree@.wf(),
            tree.linearized_symbols < usize::MAX,
        ensures
            automata.wf(),
            automata@ == position_nfa(tree@),
    {
        let ghost t = tree@;
        let n = tree.linearized_symbols;
        let mut automata = Self::new(n + 1);
        let first = tree.get_first_set();
        proof {
            assert(first@.take(0) =~= Seq::empty());
            assert(follow_union(t.root).take(0) =~= Seq::empty());
        }
        let mut k: usize = 0;
        while k < first.len()
            invariant
                t == tree@,
                t.wf(),
                n == t.linearized_symbols,
                n < usize::MAX,
                k <= first.len(),
                first@ == first_union(t.root),
                automata.wf(),
                automata@.size == n + 1,
                automata@.accepts == Nfa::<char>::blank((n + 1) as nat).accepts,
                forall|i: int, j: int|
                    0 <= i <= n && 0 <= j <= n ==> #[trigger] automata@.labels[i][j] == label_so_far(
                        t,
                        k as int,
                        0,
                        i,
                        j,
                    ),
            decreases first.len() - k,
        {
            let s = first[k];
            proof {
                assert(first@.contains(s));
                lemma_first_is_leaf(t, s);
            }
            let ghost before = automata@;
            automata.set_label(START, s.index, Some(s.symbol));
            proof {
                assert forall|i: int, j: int| 0 <= i <= n && 0 <= j <= n implies (
                #[trigger] automata@.labels[i][j]) == label_so_far(t, k + 1, 0, i, j) by {
                    lemma_enter_first(t, k as int, i, j);
                    assert(before.labels[i][j] == label_so_far(t, k as int, 0, i, j));
                }
            }
            k += 1;
        }
        let follow = tree.get_follow_set();
        let mut m: usize = 0;
        while m < follow.len()
            invariant
                t == tree@,
                t.wf(),
                n == t.linearized_symbols,
                n < usize::MAX,
                m <= follow.len(),
                follow@ == follow_union(t.root),
                k == first_union(t.root).len(),
                automata.wf(),
                automata@.size == n + 1,
                automata@.accepts == Nfa::<char>::blank((n + 1) as nat).accepts,
                forall|i: int, j: int|
                    0 <= i <= n && 0 <= j <= n ==> #[trigger] automata@.labels[i][j] == label_so_far(
                        t,
                        k as int,
                        m as int,
                        i,
                        j,
                    ),
            decreases follow.len() - m,
        {
            let (p, q) = follow[m];
            proof {
                assert(follow@.contains((p, q)));
                lemma_follow_is_leaf(t, p, q);
            }
            let ghost before = automata@;
            automata.set_label(p.index, q.index, Some(q.symbol));
            proof {
                assert forall|i: int, j: int| 0 <= i <= n && 0 <= j <= n implies (
                #[trigger] automata@.labels[i][j]) == label_so_far(t, k as int, m + 1, i, j) by {
                    lemma_enter_follow(t, m as int, i, j);
                    assert(before.labels[i][j] == label_so_far(t, k as int, m as int, i, j));
                }
            }
            m += 1;
        }
        let nullable = tree.does_epsilon_satisfy();
        automata.set_finite(START, nullable);
        let last = tree.get_last_set();
        proof {
            assert(last@.take(0) =~= Seq::empty());
        }
        let mut l: usize = 0;
        while l < last.len()
            invariant
                t == tree@,
                t.wf(),
                n == t.linearized_symbols,
                n < usize::MAX,
                l <= last.len(),
                last@ == last_union(t.root),
                k == first_union(t.root).len(),
                m == follow_union(t.root).len(),
                automata.wf(),
                automata@.size == n + 1,
                forall|i: int| 0 <= i <= n ==> #[trigger] automata@.accepts[i] == accepts_so_far(
                    t,
                    l as int,
                    i,
                ),
                forall|i: int, j: int|
                    0 <= i <= n && 0 <= j <= n ==> #[trigger] automata@.labels[i][j] == label_so_far(
                        t,
                        k as int,
                        m as int,
                        i,
                        j,
                    ),
            decreases last.len() - l,
        {
            let s = last[l];
            proof {
                assert(last@.contains(s));
                lemma_last_is_leaf(t, s);
            }
            let ghost before = automata@;
            automata.set_finite(s.index, true);
            proof {
                assert forall|i: int| 0 <= i <= n implies (#[trigger] automata@.accepts[i])
                    == accepts_so_far(t, l + 1, i) by {
                    lemma_enter_last(t, l as int, i);
                    assert(before.accepts[i] == accepts_so_far(t, l as int, i));
                }
            }
            l += 1;
        }
        proof {
            assert(first_union(t.root).take(k as int) =~= first_union(t.root));
            assert(follow_union(t.root).take(m as int) =~= follow_union(t.root));
            assert(last_union(t.root).take(l as int) =~= last_union(t.root));
            assert(automata@ =~~= position_nfa(t));
        }
        automata
    }

    /// The automaton of the classical expression `regex`, if `regex` is
    /// empty or an expression of the grammar.
    pub fn try_from_regex(regex: &str) -> (r: Option<Self>)
        ensures
            match r {
                Some(a) => a.wf() && regex_nfa(regex@) == Some(a@),
                None => regex_nfa(regex@) is None,
            },
    {
        if regex.is_empty() {
            return Some(Self::new_epsilon());
        }
        match Tree::try_from_regex(regex) {
            None => None,
            Some(tree) => {
                if tree.linearized_symbols == usize::MAX {
                    None
                } else {
                    Some(Self::from_tree(&tree))
                }
            },
        }
    }

    /// The automaton of the classical expression `regex`, which is empty
    /// or an expression of the grammar.
    pub fn from_regex(regex: &str) -> (a: Self)
        requires
            regex_nfa(regex@) is Some,
        ensures
            a.wf(),
            regex_nfa(regex@) == Some(a@),
    {
        match Self::try_from_regex(regex) {
            Some(a) => a,
            None => {
                proof {
                    assert(false);
                }
                Self::new_empty()
            },
        }
    }
}

} // verus!
