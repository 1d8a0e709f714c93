//! The tree of a text matches what the text matches.
use vstd::prelude::*;
use crate::ndfa::ast::AtomicView;
use crate::ndfa::ast::BasicView;
use crate::ndfa::ast::ConcatView;
use crate::ndfa::ast::LinearizedSymbol;
use crate::ndfa::ast::atomic_at;
use crate::ndfa::ast::basic_at;
use crate::ndfa::ast::concat_at;
use crate::ndfa::ast::concat_rest;
use crate::ndfa::ast::is_atomic_start;
use crate::ndfa::ast::leaves_atomic;
use crate::ndfa::ast::leaves_basic;
use crate::ndfa::ast::leaves_concat;
use crate::ndfa::ast::leaves_of_basics;
use crate::ndfa::ast::leaves_of_concats;
use crate::ndfa::ast::leaves_union;
use crate::ndfa::ast::lemma_leaves_push_basic;
use crate::ndfa::ast::lemma_leaves_push_concat;
use crate::ndfa::ast::lemma_leaves_single_basic;
use crate::ndfa::ast::lemma_leaves_single_concat;
use crate::ndfa::ast::lemma_numbered_add;
use crate::ndfa::ast::numbered;
use crate::ndfa::ast::tree_of;
use crate::ndfa::ast::union_at;
use crate::ndfa::ast::union_rest;
use crate::ndfa::construction::position_nfa;
use crate::ndfa::construction::regex_nfa;
use crate::ndfa::elimination::regex_of;
use crate::ndfa::elimination::wrapped;
use crate::ndfa::epsilon_nfa;
use crate::ndfa::language::accepts;
use crate::ndfa::language::lemma_epsilon_language;
use crate::ndfa::meaning::lemma_position_language;
use crate::ndfa::paths::lemma_regex_of_language;
use crate::ndfa::paths::lemma_there_and_back;
use crate::ndfa::reading::text_matches;
use crate::ndfa::meaning::gen_atomic;
use crate::ndfa::meaning::gen_basic;
use crate::ndfa::meaning::gen_star;
use crate::ndfa::meaning::lemma_matches_basics;
use crate::ndfa::meaning::spells;
use crate::ndfa::meaning::lemma_matches_concats;
use crate::ndfa::meaning::lemma_matches_star;
use crate::ndfa::meaning::lemma_matches_symbol;
use crate::ndfa::meaning::matches_atomic;
use crate::ndfa::meaning::matches_basic;
use crate::ndfa::meaning::matches_basics;
use crate::ndfa::meaning::matches_concats;
use crate::ndfa::meaning::matches_star;
use crate::ndfa::meaning::matches_union;
use crate::ndfa::meaning::plain_positions;
use crate::ndfa::reading::alt_matches;
use crate::ndfa::reading::atom_end;
use crate::ndfa::reading::atom_matches;
use crate::ndfa::ast::is_mark;
use crate::ndfa::reading::lemma_alternatives_more;
use crate::ndfa::reading::lemma_factors_begin;
use crate::ndfa::reading::lemma_no_bar;
use crate::ndfa::reading::lemma_one_factor;
use crate::ndfa::reading::lemma_postfix;
use crate::ndfa::reading::lemma_seq_add;
use crate::ndfa::reading::lemma_tidy_add;
use crate::ndfa::reading::lemma_tidy_char;
use crate::ndfa::reading::lemma_wrapped;
use crate::ndfa::reading::seq_matches;
use crate::ndfa::reading::star_matches;
use crate::ndfa::reading::tidy;
use crate::parser::round_trip::balanced;
use crate::parser::round_trip::lemma_balanced_add;
use crate::parser::round_trip::level;
use crate::parser::round_trip::weight;

verus! {

/// The positions `l` continue the numbering from `count` to `cnt`, and
/// none of them carries a mark.
pub open spec fn counted(l: Seq<LinearizedSymbol>, count: nat, cnt: nat) -> bool {
    &&& count <= cnt
    &&& l.len() == cnt - count
    &&& numbered(l, count)
    &&& plain_positions(l)
}

/// Positions that continue the numbering of others are counted with
/// them.
pub proof fn lemma_counted_add(
    a: Seq<LinearizedSymbol>,
    b: Seq<LinearizedSymbol>,
    from: nat,
    mid: nat,
    to: nat,
)
    requires
        counted(a, from, mid),
        counted(b, mid, to),
    ensures
        counted(a + b, from, to),
{
    lemma_numbered_add(a, b, from);
    assert forall|k: int| 0 <= k < (a + b).len() implies !is_mark((#[trigger] (a + b)[k]).symbol) by {
        if k < a.len() {
            assert((a + b)[k] == a[k]);
        } else {
            assert((a + b)[k] == b[k - a.len()]);
        }
    }
}

/// The text `x` matches as one character or group what the atomic
/// expression matches.
pub open spec fn same_atom(x: Seq<char>, a: AtomicView, wild: bool) -> bool {
    forall|w: Seq<char>| #[trigger] atom_matches(x, wild, w) <==> matches_atomic(a, wild, w)
}

/// The text `x` matches what the basic expression matches.
pub open spec fn same_factor(x: Seq<char>, b: BasicView, wild: bool) -> bool {
    forall|w: Seq<char>| #[trigger] seq_matches(x, wild, w) <==> matches_basic(b, wild, w)
}

/// The text `x` matches what the concatenation of `bs` matches.
pub open spec fn same_seq(x: Seq<char>, bs: Seq<BasicView>, wild: bool) -> bool {
    forall|w: Seq<char>| #[trigger] seq_matches(x, wild, w) <==> matches_basics(bs, wild, w)
}

/// The text `x` matches what one of `cs` matches.
pub open spec fn same_alt(x: Seq<char>, cs: Seq<ConcatView>, wild: bool) -> bool {
    forall|w: Seq<char>| #[trigger] alt_matches(x, wild, w) <==> matches_concats(cs, wild, w)
}

/// A text repeated matches what the atomic expression repeated matches.
pub proof fn lemma_star_same(x: Seq<char>, a: AtomicView, wild: bool, w: Seq<char>)
    requires
        same_atom(x, a, wild),
    ensures
        star_matches(x, wild, w) <==> matches_star(a, wild, w),
    decreases w.len(),
{
    lemma_matches_star(a, wild, w);
    if w.len() > 0 {
        assert forall|k: int| 0 < k <= w.len() implies (star_matches(x, wild, #[trigger] w.skip(k))
            <==> matches_star(a, wild, w.skip(k))) by {
            lemma_star_same(x, a, wild, w.skip(k));
        }
        if star_matches(x, wild, w) {
            let k = choose|k: int|
                0 < k <= w.len() && atom_matches(x, wild, #[trigger] w.take(k)) && star_matches(
                    x,
                    wild,
                    w.skip(k),
                );
            assert(0 < k <= w.len() && matches_atomic(a, wild, w.take(k)) && matches_star(
                a,
                wild,
                w.skip(k),
            ));
        }
        if matches_star(a, wild, w) {
            let k = choose|k: int|
                0 < k <= w.len() && matches_atomic(a, wild, #[trigger] w.take(k)) && matches_star(
                    a,
                    wild,
                    w.skip(k),
                );
            assert(0 < k <= w.len() && atom_matches(x, wild, w.take(k)) && star_matches(
                x,
                wild,
                w.skip(k),
            ));
        }
    }
}

/// A concatenation with one more part matches what falls into what it
/// matched and what the part matches.
pub proof fn lemma_matches_push(bs: Seq<BasicView>, b: BasicView, wild: bool, w: Seq<char>)
    ensures
        matches_basics(bs.push(b), wild, w) <==> exists|k: int|
            0 <= k <= w.len() && matches_basics(bs, wild, #[trigger] w.take(k)) && matches_basic(
                b,
                wild,
                w.skip(k),
            ),
{
    assert(bs.push(b).drop_last() =~= bs);
    lemma_matches_basics(bs.push(b), wild, w);
}

/// A concatenation of one part matches what the part matches.
pub proof fn lemma_matches_single(b: BasicView, wild: bool, w: Seq<char>)
    ensures
        matches_basics(seq![b], wild, w) <==> matches_basic(b, wild, w),
{
    let none = Seq::<BasicView>::empty();
    assert(none.push(b) =~= seq![b]);
    lemma_matches_push(none, b, wild, w);
    if matches_basics(seq![b], wild, w) {
        let k = choose|k: int|
            0 <= k <= w.len() && matches_basics(none, wild, #[trigger] w.take(k)) && matches_basic(
                b,
                wild,
                w.skip(k),
            );
        lemma_matches_basics(none, wild, w.take(k));
        assert(w.skip(k) =~= w);
    }
    if matches_basic(b, wild, w) {
        lemma_matches_basics(none, wild, w.take(0));
        assert(w.skip(0) =~= w);
        assert(0 <= 0 <= w.len() && matches_basics(none, wild, w.take(0)) && matches_basic(
            b,
            wild,
            w.skip(0),
        ));
    }
}

/// A basic expression matches what its atomic expression matches, or
/// what that matches repeated.
pub proof fn lemma_basic_plain(b: BasicView, wild: bool, w: Seq<char>)
    ensures
        b.is_iter ==> (matches_basic(b, wild, w) <==> matches_star(b.atomic, wild, w)),
        !b.is_iter ==> (matches_basic(b, wild, w) <==> matches_atomic(b.atomic, wild, w)),
{
    if matches_basic(b, wild, w) {
        let p = choose|p: Seq<LinearizedSymbol>|
            gen_basic(b, p) && #[trigger] spells(
                p,
                wild,
                w,
            );
        if b.is_iter {
            assert(gen_star(b.atomic, p) && spells(
                p,
                wild,
                w,
            ));
        } else {
            assert(gen_atomic(b.atomic, p) && spells(
                p,
                wild,
                w,
            ));
        }
    }
    if b.is_iter && matches_star(b.atomic, wild, w) {
        let p = choose|p: Seq<LinearizedSymbol>|
            gen_star(b.atomic, p) && #[trigger] spells(
                p,
                wild,
                w,
            );
        assert(gen_basic(b, p) && spells(p, wild, w));
    }
    if !b.is_iter && matches_atomic(b.atomic, wild, w) {
        let p = choose|p: Seq<LinearizedSymbol>|
            gen_atomic(b.atomic, p) && #[trigger] spells(
                p,
                wild,
                w,
            );
        assert(gen_basic(b, p) && spells(p, wild, w));
    }
}

/// What was read of an atomic expression is one character or group that
/// matches what the expression matches, and its positions continue the
/// numbering.
pub proof fn lemma_atomic_at(s: Seq<char>, pos: int, count: nat, wild: bool)
    requires
        s.len() <= usize::MAX,
        0 <= pos,
        count <= pos,
        atomic_at(s, pos, count) is Some,
    ensures
        ({
            let r = atomic_at(s, pos, count)->0;
            let x = s.subrange(pos, r.next);
            &&& pos < r.next <= s.len()
            &&& r.count <= r.next
            &&& counted(leaves_atomic(r.value), count, r.count)
            &&& tidy(x)
            &&& atom_end(x) == x.len()
            &&& x.len() == 1 || x.last() == ')'
            &&& same_atom(x, r.value, wild)
        }),
    decreases s.len() - pos, 0int,
{
    let r = atomic_at(s, pos, count)->0;
    let x = s.subrange(pos, r.next);
    if s[pos] == '(' {
        let u = union_at(s, pos + 1, count)->0;
        lemma_union_at(s, pos + 1, count, wild);
        let inner = s.subrange(pos + 1, u.next);
        assert(x =~= wrapped(inner));
        assert forall|w: Seq<char>| #[trigger]
            atom_matches(x, wild, w) <==> matches_atomic(r.value, wild, w) by {
            lemma_wrapped(inner, wild, w);
            assert(alt_matches(inner, wild, w) <==> matches_concats(u.value.concats, wild, w));
        }
        lemma_wrapped(inner, wild, Seq::<char>::empty());
    } else {
        let c = s[pos];
        let leaf = LinearizedSymbol { symbol: c, index: (count + 1) as usize };
        assert(x =~= seq![c]);
        assert(leaves_atomic(r.value) =~= seq![leaf]);
        assert(seq![leaf][0] == leaf);
        assert forall|w: Seq<char>| #[trigger]
            atom_matches(x, wild, w) <==> matches_atomic(r.value, wild, w) by {
            lemma_matches_symbol(leaf, wild, w);
        }
        lemma_tidy_char(c, wild, Seq::<char>::empty());
    }
}

/// What was read of a basic expression is a tidy text that matches what
/// the expression matches, and its positions continue the numbering.
pub proof fn lemma_basic_at(s: Seq<char>, pos: int, count: nat, wild: bool)
    requires
        s.len() <= usize::MAX,
        0 <= pos,
        count <= pos,
        basic_at(s, pos, count) is Some,
    ensures
        ({
            let r = basic_at(s, pos, count)->0;
            let x = s.subrange(pos, r.next);
            &&& pos < r.next <= s.len()
            &&& r.count <= r.next
            &&& counted(leaves_basic(r.value), count, r.count)
            &&& tidy(x)
            &&& same_factor(x, r.value, wild)
        }),
    decreases s.len() - pos, 1int,
{
    let a = atomic_at(s, pos, count)->0;
    lemma_atomic_at(s, pos, count, wild);
    let r = basic_at(s, pos, count)->0;
    let x = s.subrange(pos, r.next);
    let xa = s.subrange(pos, a.next);
    if a.next < s.len() && s[a.next] == '*' {
        assert(x =~= xa + seq!['*']);
        assert forall|w: Seq<char>| #[trigger]
            seq_matches(x, wild, w) <==> matches_basic(r.value, wild, w) by {
            lemma_postfix(xa, '*', wild, w);
            lemma_star_same(xa, a.value, wild, w);
            lemma_basic_plain(r.value, wild, w);
        }
        lemma_postfix(xa, '*', wild, Seq::<char>::empty());
    } else {
        assert forall|w: Seq<char>| #[trigger]
            seq_matches(x, wild, w) <==> matches_basic(r.value, wild, w) by {
            lemma_one_factor(x, wild, w);
            assert(atom_matches(x, wild, w) <==> matches_atomic(a.value, wild, w));
            lemma_basic_plain(r.value, wild, w);
        }
    }
}

/// What was read of a concatenation so far, and what is read of it from
/// here on, is a tidy text that matches what the concatenation matches.
pub proof fn lemma_concat_rest(
    s: Seq<char>,
    start: int,
    pos: int,
    count0: nat,
    count: nat,
    acc: Seq<BasicView>,
    wild: bool,
)
    requires
        s.len() <= usize::MAX,
        0 <= start <= pos <= s.len(),
        count <= pos,
        counted(leaves_of_basics(acc), count0, count),
        tidy(s.subrange(start, pos)),
        same_seq(s.subrange(start, pos), acc, wild),
        concat_rest(s, pos, count, acc) is Some,
    ensures
        ({
            let r = concat_rest(s, pos, count, acc)->0;
            let x = s.subrange(start, r.next);
            &&& pos <= r.next <= s.len()
            &&& r.count <= r.next
            &&& counted(leaves_concat(r.value), count0, r.count)
            &&& tidy(x)
            &&& same_seq(x, r.value.basics, wild)
        }),
    decreases s.len() - pos, 2int,
{
    if 0 <= pos < s.len() && is_atomic_start(s[pos]) {
        let b = basic_at(s, pos, count)->0;
        lemma_basic_at(s, pos, count, wild);
        let xa = s.subrange(start, pos);
        let xb = s.subrange(pos, b.next);
        let acc2 = acc.push(b.value);
        assert(s.subrange(start, b.next) =~= xa + xb);
        lemma_leaves_push_basic(acc, b.value);
        lemma_counted_add(leaves_of_basics(acc), leaves_basic(b.value), count0, count, b.count);
        lemma_tidy_add(xa, xb);
        lemma_factors_begin(xb);
        assert forall|w: Seq<char>| #[trigger]
            seq_matches(xa + xb, wild, w) <==> matches_basics(acc2, wild, w) by {
            lemma_seq_add(xa, xb, wild, w);
            lemma_matches_push(acc, b.value, wild, w);
            if seq_matches(xa + xb, wild, w) {
                let k = choose|k: int|
                    0 <= k <= w.len() && seq_matches(xa, wild, #[trigger] w.take(k))
                        && seq_matches(xb, wild, w.skip(k));
                assert(0 <= k <= w.len() && matches_basics(acc, wild, w.take(k)) && matches_basic(
                    b.value,
                    wild,
                    w.skip(k),
                ));
            }
            if matches_basics(acc2, wild, w) {
                let k = choose|k: int|
                    0 <= k <= w.len() && matches_basics(acc, wild, #[trigger] w.take(k))
                        && matches_basic(b.value, wild, w.skip(k));
                assert(0 <= k <= w.len() && seq_matches(xa, wild, w.take(k)) && seq_matches(
                    xb,
                    wild,
                    w.skip(k),
                ));
            }
        }
        lemma_concat_rest(s, start, b.next, count0, b.count, acc2, wild);
    }
}

/// What was read of a concatenation is a tidy text that matches what the
/// concatenation matches, and its positions continue the numbering.
pub proof fn lemma_concat_at(s: Seq<char>, pos: int, count: nat, wild: bool)
    requires
        s.len() <= usize::MAX,
        0 <= pos,
        count <= pos,
        concat_at(s, pos, count) is Some,
    ensures
        ({
            let r = concat_at(s, pos, count)->0;
            let x = s.subrange(pos, r.next);
            &&& pos < r.next <= s.len()
            &&& r.count <= r.next
            &&& counted(leaves_concat(r.value), count, r.count)
            &&& tidy(x)
            &&& same_seq(x, r.value.basics, wild)
        }),
    decreases s.len() - pos, 3int,
{
    let b = basic_at(s, pos, count)->0;
    lemma_basic_at(s, pos, count, wild);
    let xb = s.subrange(pos, b.next);
    lemma_leaves_single_basic(b.value);
    assert forall|w: Seq<char>| #[trigger]
        seq_matches(xb, wild, w) <==> matches_basics(seq![b.value], wild, w) by {
        lemma_matches_single(b.value, wild, w);
    }
    lemma_concat_rest(s, pos, b.next, count, b.count, seq![b.value], wild);
}

/// What was read of an alternation so far, and what is read of it from
/// here on, is a balanced text that matches what the alternation
/// matches.
pub proof fn lemma_union_rest(
    s: Seq<char>,
    start: int,
    pos: int,
    count0: nat,
    count: nat,
    acc: Seq<ConcatView>,
    wild: bool,
)
    requires
        s.len() <= usize::MAX,
        0 <= start <= pos <= s.len(),
        count <= pos,
        counted(leaves_of_concats(acc), count0, count),
        balanced(s.subrange(start, pos)),
        same_alt(s.subrange(start, pos), acc, wild),
        union_rest(s, pos, count, acc) is Some,
    ensures
        ({
            let r = union_rest(s, pos, count, acc)->0;
            let x = s.subrange(start, r.next);
            &&& pos <= r.next <= s.len()
            &&& r.count <= r.next
            &&& counted(leaves_union(r.value), count0, r.count)
            &&& balanced(x)
            &&& same_alt(x, r.value.concats, wild)
        }),
    decreases s.len() - pos, 4int,
{
    if 0 <= pos < s.len() && s[pos] == '|' {
        let c = concat_at(s, pos + 1, count)->0;
        lemma_concat_at(s, pos + 1, count, wild);
        let xa = s.subrange(start, pos);
        let xc = s.subrange(pos + 1, c.next);
        let bar = seq!['|'];
        let acc2 = acc.push(c.value);
        assert(s.subrange(start, c.next) =~= xa + bar + xc);
        lemma_leaves_push_concat(acc, c.value);
        lemma_counted_add(leaves_of_concats(acc), leaves_concat(c.value), count0, count, c.count);
        assert(balanced(xa + bar + xc)) by {
            assert(level(bar, 1) == level(bar, 0) + weight(bar[0]));
            assert forall|n: int| 0 <= n <= bar.len() implies #[trigger] level(bar, n) >= 0 by {
                if n == 1 {
                }
            }
            lemma_balanced_add(xa, bar);
            lemma_balanced_add(xa + bar, xc);
        }
        assert(acc2.drop_last() =~= acc);
        assert forall|w: Seq<char>| #[trigger]
            alt_matches(xa + bar + xc, wild, w) <==> matches_concats(acc2, wild, w) by {
            lemma_alternatives_more(xa, xc, wild, w);
            lemma_matches_concats(acc2, wild, w);
            assert(seq_matches(xc, wild, w) <==> matches_basics(c.value.basics, wild, w));
            assert(alt_matches(xa, wild, w) <==> matches_concats(acc, wild, w));
        }
        lemma_union_rest(s, start, c.next, count0, c.count, acc2, wild);
    }
}

/// What was read of an alternation is a balanced text that matches what
/// the alternation matches, and its positions continue the numbering.
pub proof fn lemma_union_at(s: Seq<char>, pos: int, count: nat, wild: bool)
    requires
        s.len() <= usize::MAX,
        0 <= pos,
        count <= pos,
        union_at(s, pos, count) is Some,
    ensures
        ({
            let r = union_at(s, pos, count)->0;
            let x = s.subrange(pos, r.next);
            &&& pos < r.next <= s.len()
            &&& r.count <= r.next
            &&& counted(leaves_union(r.value), count, r.count)
            &&& balanced(x)
            &&& same_alt(x, r.value.concats, wild)
        }),
    decreases s.len() - pos, 5int,
{
    let c = concat_at(s, pos, count)->0;
    lemma_concat_at(s, pos, count, wild);
    let xc = s.subrange(pos, c.next);
    let one = seq![c.value];
    lemma_leaves_single_concat(c.value);
    assert(one.drop_last() =~= Seq::<ConcatView>::empty());
    assert forall|w: Seq<char>| #[trigger]
        alt_matches(xc, wild, w) <==> matches_concats(one, wild, w) by {
        lemma_no_bar(xc, wild, w);
        lemma_matches_concats(one, wild, w);
        lemma_matches_concats(one.drop_last(), wild, w);
        assert(seq_matches(xc, wild, w) <==> matches_basics(c.value.basics, wild, w));
    }
    lemma_union_rest(s, pos, c.next, count, c.count, one, wild);
}

/// The tree of a text is well formed, none of its positions carries a
/// mark, and it matches what the text matches.
pub proof fn lemma_tree_of(s: Seq<char>, wild: bool, w: Seq<char>)
    requires
        s.len() <= usize::MAX,
        tree_of(s) is Some,
    ensures
        tree_of(s)->0.wf(),
        plain_positions(leaves_union(tree_of(s)->0.root)),
        matches_union(tree_of(s)->0.root, wild, w) <==> alt_matches(s, wild, w),
{
    let u = union_at(s, 0, 0)->0;
    lemma_union_at(s, 0, 0, wild);
    assert(s.subrange(0, u.next) =~= s);
    assert(alt_matches(s, wild, w) <==> matches_concats(u.value.concats, wild, w));
}

/// The automaton of an expression accepts just what the expression
/// matches.
pub proof fn lemma_regex_nfa_language(s: Seq<char>, wild: bool, w: Seq<char>)
    requires
        s.len() <= usize::MAX,
        regex_nfa(s) is Some,
    ensures
        accepts(regex_nfa(s)->0, wild, w) <==> alt_matches(s, wild, w),
{
    if s.len() == 0 {
        lemma_epsilon_language(wild, w);
        lemma_no_bar(s, wild, w);
    } else {
        lemma_tree_of(s, wild, w);
        lemma_position_language(tree_of(s)->0, wild, w);
    }
}

/// From an expression to its automaton and back: the expression that
/// state elimination reads off the automaton of an expression matches
/// just what the expression matches.
pub proof fn lemma_regex_round_trip(s: Seq<char>, wild: bool, w: Seq<char>)
    requires
        s.len() <= usize::MAX,
        regex_nfa(s) is Some,
    ensures
        alt_matches(s, wild, w) <==> (regex_of(regex_nfa(s)->0) matches Some(r) && text_matches(
            r,
            wild,
            w,
        )),
{
    if s.len() == 0 {
        lemma_epsilon_language(wild, w);
        lemma_regex_of_language(epsilon_nfa(), wild, w);
        assert(regex_nfa(s)->0 == epsilon_nfa());
        lemma_no_bar(s, wild, w);
    } else {
        lemma_tree_of(s, wild, w);
        lemma_there_and_back(tree_of(s)->0, wild, w);
        assert(regex_nfa(s)->0 == position_nfa(tree_of(s)->0));
    }
}

} // verus!
