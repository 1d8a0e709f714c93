//! The shape of the tree of a text: its positions carry the characters of
//! the text that stand for themselves, in order, and no alternation or
//! concatenation of it is without parts. Hence the automaton of an
//! expression has one state for each such character and the start state,
//! and accepts a string.
use vstd::prelude::*;
use crate::ndfa::ast::AtomicView;
use crate::ndfa::ast::BasicView;
use crate::ndfa::ast::ConcatView;
use crate::ndfa::ast::LinearizedSymbol;
use crate::ndfa::ast::atomic_at;
use crate::ndfa::ast::basic_at;
use crate::ndfa::ast::concat_at;
use crate::ndfa::ast::concat_rest;
use crate::ndfa::ast::is_atomic_start;
use crate::ndfa::ast::is_terminal;
use crate::ndfa::ast::leaves_atomic;
use crate::ndfa::ast::leaves_basic;
use crate::ndfa::ast::leaves_concat;
use crate::ndfa::ast::leaves_of_basics;
use crate::ndfa::ast::leaves_of_concats;
use crate::ndfa::ast::leaves_union;
use crate::ndfa::ast::lemma_leaves_push_basic;
use crate::ndfa::ast::lemma_leaves_push_concat;
use crate::ndfa::ast::lemma_leaves_single_basic;
use crate::ndfa::ast::lemma_leaves_single_concat;
use crate::ndfa::ast::tree_of;
use crate::ndfa::ast::union_at;
use crate::ndfa::ast::union_rest;
use crate::ndfa::construction::lemma_position_nfa_wf;
use crate::ndfa::construction::position_nfa;
use crate::ndfa::construction::regex_nfa;
use crate::ndfa::elimination::regex_of;
use crate::ndfa::epsilon_nfa;
use crate::ndfa::grammar::lemma_atomic_at;
use crate::ndfa::grammar::lemma_basic_at;
use crate::ndfa::grammar::lemma_basic_plain;
use crate::ndfa::grammar::lemma_concat_at;
use crate::ndfa::grammar::lemma_regex_round_trip;
use crate::ndfa::grammar::lemma_tree_of;
use crate::ndfa::reading::alt_matches;
use crate::ndfa::reading::text_matches;
use crate::ndfa::grammar::lemma_union_at;
use crate::ndfa::language::accepts;
use crate::ndfa::language::lemma_epsilon_language;
use crate::ndfa::meaning::gen_atomic;
use crate::ndfa::meaning::gen_concats;
use crate::ndfa::meaning::gen_union;
use crate::ndfa::meaning::lemma_matches_basics;
use crate::ndfa::meaning::spells;
use crate::ndfa::meaning::lemma_matches_concats;
use crate::ndfa::meaning::lemma_matches_star;
use crate::ndfa::meaning::lemma_matches_symbol;
use crate::ndfa::meaning::matches_atomic;
use crate::ndfa::meaning::matches_basic;
use crate::ndfa::meaning::matches_basics;
use crate::ndfa::meaning::matches_concats;
use crate::ndfa::meaning::matches_union;
use crate::ndfa::paths::lemma_regex_of_language;
use crate::ndfa::paths::lemma_there_and_back;

verus! {

// -------------------------------------------------------------------------
// The characters that stand for themselves
// -------------------------------------------------------------------------

/// The characters among the first `n` of `x` that stand for themselves,
/// in order.
pub open spec fn terminals_upto(x: Seq<char>, n: int) -> Seq<char>
    decreases n,
{
    if n <= 0 {
        Seq::empty()
    } else if is_terminal(x[n - 1]) {
        terminals_upto(x, n - 1).push(x[n - 1])
    } else {
        terminals_upto(x, n - 1)
    }
}

/// The characters of `x` that stand for themselves, in order.
pub open spec fn terminals(x: Seq<char>) -> Seq<char> {
    terminals_upto(x, x.len() as int)
}

/// The characters that the positions carry.
pub open spec fn symbols(l: Seq<LinearizedSymbol>) -> Seq<char> {
    Seq::new(l.len(), |k: int| l[k].symbol)
}

proof fn lemma_terminals_head(a: Seq<char>, b: Seq<char>, n: int)
    requires
        0 <= n <= a.len(),
    ensures
        terminals_upto(a + b, n) == terminals_upto(a, n),
    decreases n,
{
    if n > 0 {
        lemma_terminals_head(a, b, n - 1);
        assert((a + b)[n - 1] == a[n - 1]);
    }
}

proof fn lemma_terminals_tail(a: Seq<char>, b: Seq<char>, n: int)
    requires
        0 <= n <= b.len(),
    ensures
        terminals_upto(a + b, a.len() + n) == terminals(a) + terminals_upto(b, n),
    decreases n,
{
    if n > 0 {
        lemma_terminals_tail(a, b, n - 1);
        assert((a + b)[a.len() + n - 1] == b[n - 1]);
        if is_terminal(b[n - 1]) {
            assert((terminals(a) + terminals_upto(b, n - 1)).push(b[n - 1]) =~= terminals(a)
                + terminals_upto(b, n - 1).push(b[n - 1]));
        }
    } else {
        lemma_terminals_head(a, b, a.len() as int);
        assert(terminals(a) + Seq::<char>::empty() =~= terminals(a));
    }
}

/// The characters of two texts that stand for themselves are those of the
/// first and those of the second.
pub proof fn lemma_terminals_add(a: Seq<char>, b: Seq<char>)
    ensures
        terminals(a + b) == terminals(a) + terminals(b),
{
    lemma_terminals_tail(a, b, b.len() as int);
}

/// A text of one character.
pub proof fn lemma_terminals_one(c: char)
    ensures
        terminals(seq![c]) == if is_terminal(c) {
            seq![c]
        } else {
            Seq::<char>::empty()
        },
{
    let x = seq![c];
    assert(terminals_upto(x, 0) =~= Seq::<char>::empty());
    assert(x[0] == c);
    assert(terminals_upto(x, 1) =~= if is_terminal(c) {
        seq![c]
    } else {
        Seq::<char>::empty()
    });
}

/// The characters of positions one after the other.
pub proof fn lemma_symbols_add(a: Seq<LinearizedSymbol>, b: Seq<LinearizedSymbol>)
    ensures
        symbols(a + b) == symbols(a) + symbols(b),
{
    assert(symbols(a + b) =~= symbols(a) + symbols(b));
}

// -------------------------------------------------------------------------
// No alternation and no concatenation is without parts
// -------------------------------------------------------------------------

/// Every alternation in the atomic expression has an alternative, and
/// every concatenation in it a part.
pub open spec fn solid_atomic(a: AtomicView) -> bool
    decreases a,
{
    match a {
        AtomicView::Symbol(_) => true,
        AtomicView::Union(u) => u.concats.len() > 0 && solid_concats(u.concats),
    }
}

/// Every alternation in `bs` has an alternative, and every concatenation
/// in it a part.
pub open spec fn solid_basics(bs: Seq<BasicView>) -> bool
    decreases bs,
{
    bs.len() == 0 || (solid_basics(bs.drop_last()) && solid_atomic(bs.last().atomic))
}

/// Each of `cs` has a part, every alternation in them has an alternative,
/// and every concatenation in them a part.
pub open spec fn solid_concats(cs: Seq<ConcatView>) -> bool
    decreases cs,
{
    cs.len() == 0 || (solid_concats(cs.drop_last()) && cs.last().basics.len() > 0 && solid_basics(
        cs.last().basics,
    ))
}

/// What was read of an atomic expression is solid, and its positions
/// carry the characters of the text that stand for themselves.
pub proof fn lemma_atomic_shape(s: Seq<char>, pos: int, count: nat)
    requires
        s.len() <= usize::MAX,
        0 <= pos,
        count <= pos,
        atomic_at(s, pos, count) is Some,
    ensures
        ({
            let r = atomic_at(s, pos, count)->0;
            &&& solid_atomic(r.value)
            &&& symbols(leaves_atomic(r.value)) == terminals(s.subrange(pos, r.next))
        }),
    decreases s.len() - pos, 0int,
{
    let r = atomic_at(s, pos, count)->0;
    let x = s.subrange(pos, r.next);
    lemma_atomic_at(s, pos, count, false);
    if s[pos] == '(' {
        let u = union_at(s, pos + 1, count)->0;
        lemma_union_at(s, pos + 1, count, false);
        lemma_union_shape(s, pos + 1, count);
        let inner = s.subrange(pos + 1, u.next);
        assert(x =~= seq!['('] + inner + seq![')']);
        lemma_terminals_add(seq!['('] + inner, seq![')']);
        lemma_terminals_add(seq!['('], inner);
        lemma_terminals_one('(');
        lemma_terminals_one(')');
        assert(Seq::<char>::empty() + terminals(inner) + Seq::<char>::empty() =~= terminals(inner));
    } else {
        let c = s[pos];
        let leaf = LinearizedSymbol { symbol: c, index: (count + 1) as usize };
        assert(x =~= seq![c]);
        assert(leaves_atomic(r.value) =~= seq![leaf]);
        lemma_terminals_one(c);
        assert(symbols(seq![leaf]) =~= seq![c]);
    }
}

/// What was read of a basic expression is solid, and its positions carry
/// the characters of the text that stand for themselves.
pub proof fn lemma_basic_shape(s: Seq<char>, pos: int, count: nat)
    requires
        s.len() <= usize::MAX,
        0 <= pos,
        count <= pos,
        basic_at(s, pos, count) is Some,
    ensures
        ({
            let r = basic_at(s, pos, count)->0;
            &&& solid_atomic(r.value.atomic)
            &&& symbols(leaves_basic(r.value)) == terminals(s.subrange(pos, r.next))
        }),
    decreases s.len() - pos, 1int,
{
    let a = atomic_at(s, pos, count)->0;
    lemma_atomic_at(s, pos, count, false);
    lemma_atomic_shape(s, pos, count);
    let r = basic_at(s, pos, count)->0;
    let xa = s.subrange(pos, a.next);
    if a.next < s.len() && s[a.next] == '*' {
        assert(s.subrange(pos, r.next) =~= xa + seq!['*']);
        lemma_terminals_add(xa, seq!['*']);
        lemma_terminals_one('*');
        assert(terminals(xa) + Seq::<char>::empty() =~= terminals(xa));
    }
}

/// What was read of a concatenation so far, and what is read of it from
/// here on, is solid and has a part, and its positions carry the
/// characters of the text that stand for themselves.
pub proof fn lemma_concat_rest_shape(
    s: Seq<char>,
    start: int,
    pos: int,
    count: nat,
    acc: Seq<BasicView>,
)
    requires
        s.len() <= usize::MAX,
        0 <= start <= pos <= s.len(),
        count <= pos,
        acc.len() > 0,
        solid_basics(acc),
        symbols(leaves_of_basics(acc)) == terminals(s.subrange(start, pos)),
        concat_rest(s, pos, count, acc) is Some,
    ensures
        ({
            let r = concat_rest(s, pos, count, acc)->0;
            &&& pos <= r.next <= s.len()
            &&& r.value.basics.len() > 0
            &&& solid_basics(r.value.basics)
            &&& symbols(leaves_concat(r.value)) == terminals(s.subrange(start, r.next))
        }),
    decreases s.len() - pos, 2int,
{
    if 0 <= pos < s.len() && is_atomic_start(s[pos]) {
        let b = basic_at(s, pos, count)->0;
        lemma_basic_at(s, pos, count, false);
        lemma_basic_shape(s, pos, count);
        let xa = s.subrange(start, pos);
        let xb = s.subrange(pos, b.next);
        let acc2 = acc.push(b.value);
        assert(s.subrange(start, b.next) =~= xa + xb);
        lemma_leaves_push_basic(acc, b.value);
        lemma_symbols_add(leaves_of_basics(acc), leaves_basic(b.value));
        lemma_terminals_add(xa, xb);
        assert(acc2.drop_last() =~= acc);
        lemma_concat_rest_shape(s, start, b.next, b.count, acc2);
    }
}

/// What was read of a concatenation is solid and has a part, and its
/// positions carry the characters of the text that stand for themselves.
pub proof fn lemma_concat_shape(s: Seq<char>, pos: int, count: nat)
    requires
        s.len() <= usize::MAX,
        0 <= pos,
        count <= pos,
        concat_at(s, pos, count) is Some,
    ensures
        ({
            let r = concat_at(s, pos, count)->0;
            &&& r.value.basics.len() > 0
            &&& solid_basics(r.value.basics)
            &&& symbols(leaves_concat(r.value)) == terminals(s.subrange(pos, r.next))
        }),
    decreases s.len() - pos, 3int,
{
    let b = basic_at(s, pos, count)->0;
    lemma_basic_at(s, pos, count, false);
    lemma_basic_shape(s, pos, count);
    let one = seq![b.value];
    lemma_leaves_single_basic(b.value);
    assert(one.drop_last() =~= Seq::<BasicView>::empty());
    assert(one.last() == b.value);
    assert(solid_basics(one.drop_last()));
    assert(solid_basics(one));
    lemma_concat_rest_shape(s, pos, b.next, b.count, one);
}

/// What was read of an alternation so far, and what is read of it from
/// here on, is solid and has an alternative, and its positions carry the
/// characters of the text that stand for themselves.
pub proof fn lemma_union_rest_shape(
    s: Seq<char>,
    start: int,
    pos: int,
    count: nat,
    acc: Seq<ConcatView>,
)
    requires
        s.len() <= usize::MAX,
        0 <= start <= pos <= s.len(),
        count <= pos,
        acc.len() > 0,
        solid_concats(acc),
        symbols(leaves_of_concats(acc)) == terminals(s.subrange(start, pos)),
        union_rest(s, pos, count, acc) is Some,
    ensures
        ({
            let r = union_rest(s, pos, count, acc)->0;
            &&& pos <= r.next <= s.len()
            &&& r.value.concats.len() > 0
            &&& solid_concats(r.value.concats)
            &&& symbols(leaves_union(r.value)) == terminals(s.subrange(start, r.next))
        }),
    decreases s.len() - pos, 4int,
{
    if 0 <= pos < s.len() && s[pos] == '|' {
        let c = concat_at(s, pos + 1, count)->0;
        lemma_concat_at(s, pos + 1, count, false);
        lemma_concat_shape(s, pos + 1, count);
        let xa = s.subrange(start, pos);
        let xc = s.subrange(pos + 1, c.next);
        let bar = seq!['|'];
        let acc2 = acc.push(c.value);
        assert(s.subrange(start, c.next) =~= xa + bar + xc);
        lemma_leaves_push_concat(acc, c.value);
        lemma_symbols_add(leaves_of_concats(acc), leaves_concat(c.value));
        lemma_terminals_add(xa + bar, xc);
        lemma_terminals_add(xa, bar);
        lemma_terminals_one('|');
        assert(terminals(xa) + Seq::<char>::empty() =~= terminals(xa));
        assert(acc2.drop_last() =~= acc);
        lemma_union_rest_shape(s, start, c.next, c.count, acc2);
    }
}

/// What was read of an alternation is solid and has an alternative, and
/// its positions carry the characters of the text that stand for
/// themselves.
pub proof fn lemma_union_shape(s: Seq<char>, pos: int, count: nat)
    requires
        s.len() <= usize::MAX,
        0 <= pos,
        count <= pos,
        union_at(s, pos, count) is Some,
    ensures
        ({
            let r = union_at(s, pos, count)->0;
            &&& r.value.concats.len() > 0
            &&& solid_concats(r.value.concats)
            &&& symbols(leaves_union(r.value)) == terminals(s.subrange(pos, r.next))
        }),
    decreases s.len() - pos, 5int,
{
    let c = concat_at(s, pos, count)->0;
    lemma_concat_at(s, pos, count, false);
    lemma_concat_shape(s, pos, count);
    let one = seq![c.value];
    lemma_leaves_single_concat(c.value);
    assert(one.drop_last() =~= Seq::<ConcatView>::empty());
    assert(one.last() == c.value);
    assert(solid_concats(one.drop_last()));
    assert(solid_concats(one));
    lemma_union_rest_shape(s, pos, c.next, c.count, one);
}

/// The tree of a text has as many positions as the text has characters
/// that stand for themselves; the positions carry the numbers 1, 2, ...
/// and those characters, in the order of the text; and no alternation or
/// concatenation of the tree is without parts.
pub proof fn lemma_tree_shape(s: Seq<char>)
    requires
        s.len() <= usize::MAX,
        tree_of(s) is Some,
    ensures
        tree_of(s)->0.wf(),
        tree_of(s)->0.linearized_symbols == terminals(s).len(),
        symbols(leaves_union(tree_of(s)->0.root)) == terminals(s),
        tree_of(s)->0.root.concats.len() > 0,
        solid_concats(tree_of(s)->0.root.concats),
{
    let u = union_at(s, 0, 0)->0;
    lemma_tree_of(s, false, Seq::<char>::empty());
    lemma_union_shape(s, 0, 0);
    assert(s.subrange(0, u.next) =~= s);
}

/// The automaton of an expression that is not empty has the start state
/// and one state for each character of the expression that stands for
/// itself; state 0 is its one start state, its matrix is square, and
/// nothing leads back into the start state.
pub proof fn lemma_regex_nfa_shape(s: Seq<char>)
    requires
        0 < s.len() <= usize::MAX,
        regex_nfa(s) is Some,
    ensures
        regex_nfa(s)->0.size == terminals(s).len() + 1,
        regex_nfa(s)->0.wf(),
        regex_nfa(s)->0.start_is_source(),
{
    lemma_tree_shape(s);
    lemma_position_nfa_wf(tree_of(s)->0);
}

// -------------------------------------------------------------------------
// Every expression matches a string
// -------------------------------------------------------------------------

/// A string that the atomic expression matches: the character of a
/// position, or what the last alternative of an alternation matches.
pub open spec fn sample_atomic(a: AtomicView) -> Seq<char>
    decreases a,
{
    match a {
        AtomicView::Symbol(s) => seq![s.symbol],
        AtomicView::Union(u) => if u.concats.len() > 0 {
            sample_basics(u.concats.last().basics)
        } else {
            Seq::empty()
        },
    }
}

/// A string that the concatenation of `bs` matches: for each part that is
/// not repeated a string that it matches, and nothing for a part that is
/// repeated.
pub open spec fn sample_basics(bs: Seq<BasicView>) -> Seq<char>
    decreases bs,
{
    if bs.len() == 0 {
        Seq::empty()
    } else {
        sample_basics(bs.drop_last()) + if bs.last().is_iter {
            Seq::<char>::empty()
        } else {
            sample_atomic(bs.last().atomic)
        }
    }
}

/// A solid atomic expression matches its sample.
pub proof fn lemma_sample_atomic(a: AtomicView, wild: bool)
    requires
        solid_atomic(a),
    ensures
        matches_atomic(a, wild, sample_atomic(a)),
    decreases a, 0nat,
{
    let w = sample_atomic(a);
    match a {
        AtomicView::Symbol(s) => {
            assert(w[0] == s.symbol);
            lemma_matches_symbol(s, wild, w);
        },
        AtomicView::Union(u) => {
            let cs = u.concats;
            lemma_sample_basics(cs.last().basics, wild);
            lemma_matches_concats(cs, wild, w);
            assert(matches_concats(cs, wild, w));
            let p = choose|p: Seq<LinearizedSymbol>|
                gen_concats(cs, p) && #[trigger] spells(
                    p,
                    wild,
                    w,
                );
            assert(gen_atomic(a, p) && spells(
                p,
                wild,
                w,
            ));
        },
    }
}

/// A solid concatenation matches its sample.
pub proof fn lemma_sample_basics(bs: Seq<BasicView>, wild: bool)
    requires
        solid_basics(bs),
    ensures
        matches_basics(bs, wild, sample_basics(bs)),
    decreases bs, 1nat,
{
    let w = sample_basics(bs);
    lemma_matches_basics(bs, wild, w);
    if bs.len() > 0 {
        let rest = bs.drop_last();
        let b = bs.last();
        let w1 = sample_basics(rest);
        let w2 = if b.is_iter {
            Seq::<char>::empty()
        } else {
            sample_atomic(b.atomic)
        };
        lemma_sample_basics(rest, wild);
        lemma_basic_plain(b, wild, w2);
        if b.is_iter {
            lemma_matches_star(b.atomic, wild, w2);
        } else {
            lemma_sample_atomic(b.atomic, wild);
        }
        let k = w1.len() as int;
        assert(w.take(k) =~= w1);
        assert(w.skip(k) =~= w2);
        assert(0 <= k <= w.len() && matches_basics(rest, wild, w.take(k)) && matches_basic(
            b,
            wild,
            w.skip(k),
        ));
    }
}

/// State elimination reads an expression off the automaton of every
/// expression: the result is never missing.
pub proof fn lemma_regex_of_some(s: Seq<char>)
    requires
        s.len() <= usize::MAX,
        regex_nfa(s) is Some,
    ensures
        regex_of(regex_nfa(s)->0) is Some,
{
    if s.len() == 0 {
        let none = Seq::<char>::empty();
        lemma_epsilon_language(false, none);
        lemma_regex_of_language(epsilon_nfa(), false, none);
    } else {
        let t = tree_of(s)->0;
        lemma_tree_shape(s);
        let cs = t.root.concats;
        let w = sample_basics(cs.last().basics);
        lemma_sample_basics(cs.last().basics, false);
        lemma_matches_concats(cs, false, w);
        let p = choose|p: Seq<LinearizedSymbol>|
            gen_concats(cs, p) && #[trigger] spells(
                p,
                false,
                w,
            );
        assert(gen_union(t.root, p) && spells(
            p,
            false,
            w,
        ));
        assert(matches_union(t.root, false, w));
        lemma_tree_of(s, false, w);
        lemma_there_and_back(t, false, w);
        assert(regex_nfa(s)->0 == position_nfa(t));
    }
}

/// From an expression to its automaton and back, in full: state
/// elimination reads an expression off the automaton of an expression,
/// and that expression matches just what the first expression matches.
pub proof fn lemma_round_trip_law(s: Seq<char>, wild: bool, w: Seq<char>)
    requires
        s.len() <= usize::MAX,
        regex_nfa(s) is Some,
    ensures
        regex_of(regex_nfa(s)->0) is Some,
        text_matches(regex_of(regex_nfa(s)->0)->0, wild, w)
            <==> alt_matches(s, wild, w),
{
    lemma_regex_of_some(s);
    lemma_regex_round_trip(s, wild, w);
}

} // verus!
