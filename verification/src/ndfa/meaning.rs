//! What an expression matches, and that its position automaton accepts
//! just that.
//!
//! An expression matches a string if the string is spelled by a run of
//! positions that the expression generates. A run of positions is
//! generated exactly if it begins with a first position, ends with a last
//! position and goes on by follow pairs: that is what the automaton reads.
use vstd::prelude::*;
use crate::ndfa::ast::AtomicView;
use crate::ndfa::ast::BasicView;
use crate::ndfa::ast::ConcatView;
use crate::ndfa::ast::LinearizedSymbol;
use crate::ndfa::ast::UnionView;
use crate::ndfa::ast::bridges;
use crate::ndfa::ast::bridges_from;
use crate::ndfa::ast::cartesian_product;
use crate::ndfa::ast::first_atomic;
use crate::ndfa::ast::first_basic;
use crate::ndfa::ast::first_concat;
use crate::ndfa::ast::first_from;
use crate::ndfa::ast::first_of_all;
use crate::ndfa::ast::follow_atomic;
use crate::ndfa::ast::follow_basic;
use crate::ndfa::ast::follow_concat;
use crate::ndfa::ast::follow_inside;
use crate::ndfa::ast::follow_of_all;
use crate::ndfa::ast::last_atomic;
use crate::ndfa::ast::last_basic;
use crate::ndfa::ast::last_concat;
use crate::ndfa::ast::last_of_all;
use crate::ndfa::ast::last_upto;
use crate::ndfa::ast::leaves_atomic;
use crate::ndfa::ast::leaves_basic;
use crate::ndfa::ast::leaves_concat;
use crate::ndfa::ast::leaves_of_basics;
use crate::ndfa::ast::leaves_of_concats;
use crate::ndfa::ast::nullable_all;
use crate::ndfa::ast::nullable_any;
use crate::ndfa::ast::nullable_atomic;
use crate::ndfa::ast::nullable_basic;
use crate::ndfa::ast::nullable_concat;
use crate::ndfa::ast::numbered;
use crate::ndfa::ast::pairs_with;
use crate::ndfa::ast::lemma_nullable_all;
use crate::ndfa::construction::lemma_bridges;
use crate::ndfa::construction::lemma_contains_add;
use crate::ndfa::construction::lemma_first_atomic;
use crate::ndfa::construction::lemma_first_from;
use crate::ndfa::construction::lemma_first_of_all;
use crate::ndfa::construction::lemma_follow_basic;
use crate::ndfa::construction::lemma_follow_inside;
use crate::ndfa::construction::lemma_follow_of_all;
use crate::ndfa::construction::lemma_last_atomic;
use crate::ndfa::construction::lemma_last_of_all;
use crate::ndfa::construction::lemma_last_upto;
use crate::ndfa::construction::lemma_product_contains;
use crate::ndfa::ast::TreeView;
use crate::ndfa::ast::first_union;
use crate::ndfa::ast::follow_union;
use crate::ndfa::ast::last_union;
use crate::ndfa::ast::leaves_union;
use crate::ndfa::ast::nullable_union;
use crate::ndfa::construction::leaf;
use crate::ndfa::construction::lemma_first_is_leaf;
use crate::ndfa::construction::lemma_follow_is_leaf;
use crate::ndfa::construction::position_accepts;
use crate::ndfa::construction::position_label;
use crate::ndfa::construction::position_nfa;
use crate::ndfa::language::accepts;
use crate::ndfa::ast::is_mark;
use crate::ndfa::language::label_matches;
use crate::ndfa::language::reaches;
use crate::ndfa::language::step;

verus! {

// -------------------------------------------------------------------------
// What an expression generates
// -------------------------------------------------------------------------

/// The atomic expression generates the run of positions `p`.
pub open spec fn gen_atomic(a: AtomicView, p: Seq<LinearizedSymbol>) -> bool
    decreases a, 0nat, 0nat,
{
    match a {
        AtomicView::Symbol(s) => p == seq![s],
        AtomicView::Union(u) => gen_concats(u.concats, p),
    }
}

/// `p` falls into runs that the atomic expression generates.
pub open spec fn gen_star(a: AtomicView, p: Seq<LinearizedSymbol>) -> bool
    decreases a, 1nat, p.len(),
{
    p.len() == 0 || exists|k: int|
        0 < k <= p.len() && gen_atomic(a, #[trigger] p.take(k)) && gen_star(a, p.skip(k))
}

/// The basic expression generates `p`.
pub open spec fn gen_basic(b: BasicView, p: Seq<LinearizedSymbol>) -> bool
    decreases b, 0nat, 0nat,
{
    if b.is_iter {
        gen_star(b.atomic, p)
    } else {
        gen_atomic(b.atomic, p)
    }
}

/// `p` falls into runs that the basic expressions `bs` generate, one
/// each.
pub open spec fn gen_basics(bs: Seq<BasicView>, p: Seq<LinearizedSymbol>) -> bool
    decreases bs, 0nat, 0nat,
{
    if bs.len() == 0 {
        p.len() == 0
    } else {
        exists|k: int|
            0 <= k <= p.len() && gen_basics(bs.drop_last(), #[trigger] p.take(k)) && gen_basic(
                bs.last(),
                p.skip(k),
            )
    }
}

/// One of the concatenations `cs` generates `p`.
pub open spec fn gen_concats(cs: Seq<ConcatView>, p: Seq<LinearizedSymbol>) -> bool
    decreases cs, 0nat, 0nat,
{
    if cs.len() == 0 {
        false
    } else {
        gen_concats(cs.drop_last(), p) || gen_basics(cs.last().basics, p)
    }
}

/// The alternation generates `p`.
pub open spec fn gen_union(u: UnionView, p: Seq<LinearizedSymbol>) -> bool {
    gen_concats(u.concats, p)
}

/// The positions `p` spell `w`: each position carries the character at
/// its place, or, with `wild`, the character `.`.
pub open spec fn spells(p: Seq<LinearizedSymbol>, wild: bool, w: Seq<char>) -> bool {
    &&& p.len() == w.len()
    &&& forall|i: int| 0 <= i < p.len() ==> label_matches((#[trigger] p[i]).symbol, w[i], wild)
}

/// The alternation matches `w`.
pub open spec fn matches_union(u: UnionView, wild: bool, w: Seq<char>) -> bool {
    exists|p: Seq<LinearizedSymbol>| gen_union(u, p) && #[trigger] spells(p, wild, w)
}

/// What is known of an expression by its positions: where a match can
/// begin and end, which position can follow which, and whether the empty
/// string matches.
pub struct Outline {
    pub first: Seq<LinearizedSymbol>,
    pub last: Seq<LinearizedSymbol>,
    pub follow: Seq<(LinearizedSymbol, LinearizedSymbol)>,
    pub nullable: bool,
}

impl Outline {
    /// `p` begins with a first position, ends with a last position and
    /// goes on by follow pairs; or it is empty, and the empty string
    /// matches.
    pub open spec fn admits(self, p: Seq<LinearizedSymbol>) -> bool {
        if p.len() == 0 {
            self.nullable
        } else {
            &&& self.first.contains(p[0])
            &&& self.last.contains(p.last())
            &&& forall|i: int|
                0 <= i < p.len() - 1 ==> self.follow.contains((p[i], #[trigger] p[i + 1]))
        }
    }

    /// All positions named carry a number above `lo` and not above `hi`.
    pub open spec fn between(self, lo: nat, hi: nat) -> bool {
        &&& forall|x: LinearizedSymbol| #[trigger] self.first.contains(x) ==> lo < x.index <= hi
        &&& forall|x: LinearizedSymbol| #[trigger] self.last.contains(x) ==> lo < x.index <= hi
        &&& forall|x: LinearizedSymbol, y: LinearizedSymbol| #[trigger]
            self.follow.contains((x, y)) ==> lo < x.index <= hi && lo < y.index <= hi
    }
}

/// `f` is the outline of an expression `f1` followed by an expression
/// `f2`.
pub open spec fn is_sequence(f: Outline, f1: Outline, f2: Outline) -> bool {
    &&& forall|x: LinearizedSymbol| #[trigger]
        f.first.contains(x) <==> f1.first.contains(x) || (f1.nullable && f2.first.contains(x))
    &&& forall|x: LinearizedSymbol| #[trigger]
        f.last.contains(x) <==> f2.last.contains(x) || (f2.nullable && f1.last.contains(x))
    &&& forall|x: LinearizedSymbol, y: LinearizedSymbol| #[trigger]
        f.follow.contains((x, y)) <==> f1.follow.contains((x, y)) || f2.follow.contains((x, y)) || (
        f1.last.contains(x) && f2.first.contains(y))
    &&& f.nullable == (f1.nullable && f2.nullable)
}

/// `f` is the outline of the choice between `f1` and `f2`.
pub open spec fn is_choice(f: Outline, f1: Outline, f2: Outline) -> bool {
    &&& forall|x: LinearizedSymbol| #[trigger]
        f.first.contains(x) <==> f1.first.contains(x) || f2.first.contains(x)
    &&& forall|x: LinearizedSymbol| #[trigger]
        f.last.contains(x) <==> f1.last.contains(x) || f2.last.contains(x)
    &&& forall|x: LinearizedSymbol, y: LinearizedSymbol| #[trigger]
        f.follow.contains((x, y)) <==> f1.follow.contains((x, y)) || f2.follow.contains((x, y))
    &&& f.nullable == (f1.nullable || f2.nullable)
}

/// `f` is the outline of `f1` repeated.
pub open spec fn is_repeat(f: Outline, f1: Outline) -> bool {
    &&& f.first == f1.first
    &&& f.last == f1.last
    &&& forall|x: LinearizedSymbol, y: LinearizedSymbol| #[trigger]
        f.follow.contains((x, y)) <==> f1.follow.contains((x, y)) || (f1.last.contains(x)
            && f1.first.contains(y))
    &&& f.nullable
}

/// The first place from `i` on at which `p` has a number above `mid`.
pub open spec fn turn(p: Seq<LinearizedSymbol>, mid: int, i: int) -> int
    decreases p.len() - i,
{
    if i < 0 || i >= p.len() {
        p.len() as int
    } else if p[i].index > mid {
        i
    } else {
        turn(p, mid, i + 1)
    }
}

/// The place that is found is the first with a number above `mid`.
pub proof fn lemma_turn(p: Seq<LinearizedSymbol>, mid: int, i: int)
    requires
        0 <= i <= p.len(),
    ensures
        i <= turn(p, mid, i) <= p.len(),
        forall|j: int| i <= j < turn(p, mid, i) ==> (#[trigger] p[j]).index <= mid,
        turn(p, mid, i) < p.len() ==> p[turn(p, mid, i)].index > mid,
    decreases p.len() - i,
{
    if i < p.len() && p[i].index <= mid {
        lemma_turn(p, mid, i + 1);
    }
}

/// A run of a sequence that has gone over to the second part stays
/// there.
pub proof fn lemma_sequence_stays(
    f: Outline,
    f1: Outline,
    f2: Outline,
    lo: nat,
    mid: nat,
    hi: nat,
    p: Seq<LinearizedSymbol>,
    k: int,
    j: int,
)
    requires
        is_sequence(f, f1, f2),
        f1.between(lo, mid),
        f2.between(mid, hi),
        f.admits(p),
        0 <= k <= j < p.len(),
        p[k].index > mid,
    ensures
        p[j].index > mid,
    decreases j,
{
    if j > k {
        lemma_sequence_stays(f, f1, f2, lo, mid, hi, p, k, j - 1);
        assert(f.follow.contains((p[j - 1], p[j - 1 + 1])));
    }
}

/// Runs of the two parts of a sequence, one after the other, are a run
/// of the sequence.
pub proof fn lemma_sequence_joins(
    f: Outline,
    f1: Outline,
    f2: Outline,
    p: Seq<LinearizedSymbol>,
    k: int,
)
    requires
        is_sequence(f, f1, f2),
        0 <= k <= p.len(),
        f1.admits(p.take(k)),
        f2.admits(p.skip(k)),
    ensures
        f.admits(p),
{
    let p1 = p.take(k);
    let p2 = p.skip(k);
    if p.len() > 0 {
        if k > 0 {
            assert(p1[0] == p[0]);
            assert(f.first.contains(p[0]));
        } else {
            assert(p2[0] == p[0]);
            assert(f.first.contains(p[0]));
        }
        if k < p.len() {
            assert(p2.last() == p.last());
            assert(f.last.contains(p.last()));
        } else {
            assert(p1.last() == p.last());
            assert(f.last.contains(p.last()));
        }
        assert forall|i: int| 0 <= i < p.len() - 1 implies f.follow.contains(
            (p[i], #[trigger] p[i + 1]),
        ) by {
            if i + 1 < k {
                assert(p1[i] == p[i]);
                assert(p1[i + 1] == p[i + 1]);
                assert(f1.follow.contains((p1[i], p1[i + 1])));
            } else if i + 1 == k {
                assert(p1.last() == p[i]);
                assert(p2[0] == p[i + 1]);
            } else {
                assert(p2[i - k] == p[i]);
                assert(p2[i - k + 1] == p[i + 1]);
                assert(f2.follow.contains((p2[i - k], p2[i - k + 1])));
            }
        }
    }
}

/// A run of a sequence falls into a run of its first part and a run of
/// its second part, if the numbers of the first part lie below those of
/// the second.
pub proof fn lemma_sequence_splits(
    f: Outline,
    f1: Outline,
    f2: Outline,
    lo: nat,
    mid: nat,
    hi: nat,
    p: Seq<LinearizedSymbol>,
) -> (k: int)
    requires
        is_sequence(f, f1, f2),
        f1.between(lo, mid),
        f2.between(mid, hi),
        f.admits(p),
    ensures
        0 <= k <= p.len(),
        f1.admits(p.take(k)),
        f2.admits(p.skip(k)),
{
    let k = turn(p, mid as int, 0);
    lemma_turn(p, mid as int, 0);
    let p1 = p.take(k);
    let p2 = p.skip(k);
    if p.len() > 0 {
        assert forall|j: int| k <= j < p.len() implies (#[trigger] p[j]).index > mid by {
            lemma_sequence_stays(f, f1, f2, lo, mid, hi, p, k, j);
        }
        assert(f.first.contains(p[0]));
        assert(f.last.contains(p.last()));
        if 0 < k < p.len() {
            assert(f.follow.contains((p[k - 1], p[k - 1 + 1])));
        }
        if k > 0 {
            assert(p1[0] == p[0]);
            assert(p1.last() == p[k - 1]);
            assert forall|i: int| 0 <= i < p1.len() - 1 implies f1.follow.contains(
                (p1[i], #[trigger] p1[i + 1]),
            ) by {
                assert(f.follow.contains((p[i], p[i + 1])));
                assert(p[i + 1].index <= mid);
            }
        }
        if k < p.len() {
            assert(p2[0] == p[k]);
            assert(p2.last() == p.last());
            assert forall|i: int| 0 <= i < p2.len() - 1 implies f2.follow.contains(
                (p2[i], #[trigger] p2[i + 1]),
            ) by {
                assert(f.follow.contains((p[k + i], p[k + i + 1])));
                assert(p[k + i].index > mid);
            }
        }
    }
    k
}

/// A run of a choice stays on the side on which it began.
pub proof fn lemma_choice_stays(
    f: Outline,
    f1: Outline,
    f2: Outline,
    lo: nat,
    mid: nat,
    hi: nat,
    p: Seq<LinearizedSymbol>,
    j: int,
)
    requires
        is_choice(f, f1, f2),
        f1.between(lo, mid),
        f2.between(mid, hi),
        f.admits(p),
        0 <= j < p.len(),
    ensures
        p[j].index > mid <==> p[0].index > mid,
    decreases j,
{
    if j > 0 {
        lemma_choice_stays(f, f1, f2, lo, mid, hi, p, j - 1);
        assert(f.follow.contains((p[j - 1], p[j - 1 + 1])));
    }
}

/// The runs of a choice are the runs of its two sides, if the numbers of
/// the one lie below those of the other.
pub proof fn lemma_choice(
    f: Outline,
    f1: Outline,
    f2: Outline,
    lo: nat,
    mid: nat,
    hi: nat,
    p: Seq<LinearizedSymbol>,
)
    requires
        is_choice(f, f1, f2),
        f1.between(lo, mid),
        f2.between(mid, hi),
    ensures
        f.admits(p) <==> f1.admits(p) || f2.admits(p),
{
    if p.len() > 0 {
        if f1.admits(p) {
            assert(f.first.contains(p[0]));
            assert(f.last.contains(p.last()));
            assert forall|i: int| 0 <= i < p.len() - 1 implies f.follow.contains(
                (p[i], #[trigger] p[i + 1]),
            ) by {
                assert(f1.follow.contains((p[i], p[i + 1])));
            }
        }
        if f2.admits(p) {
            assert(f.first.contains(p[0]));
            assert(f.last.contains(p.last()));
            assert forall|i: int| 0 <= i < p.len() - 1 implies f.follow.contains(
                (p[i], #[trigger] p[i + 1]),
            ) by {
                assert(f2.follow.contains((p[i], p[i + 1])));
            }
        }
        if f.admits(p) {
            assert(f.first.contains(p[0]));
            assert(f.last.contains(p.last()));
            lemma_choice_stays(f, f1, f2, lo, mid, hi, p, p.len() - 1);
            if p[0].index > mid {
                assert forall|i: int| 0 <= i < p.len() - 1 implies f2.follow.contains(
                    (p[i], #[trigger] p[i + 1]),
                ) by {
                    assert(f.follow.contains((p[i], p[i + 1])));
                    lemma_choice_stays(f, f1, f2, lo, mid, hi, p, i);
                }
            } else {
                assert forall|i: int| 0 <= i < p.len() - 1 implies f1.follow.contains(
                    (p[i], #[trigger] p[i + 1]),
                ) by {
                    assert(f.follow.contains((p[i], p[i + 1])));
                    lemma_choice_stays(f, f1, f2, lo, mid, hi, p, i);
                }
            }
        }
    }
}

/// `p` falls into runs of `f1`, none of them empty.
pub open spec fn admits_repeated(f1: Outline, p: Seq<LinearizedSymbol>) -> bool
    decreases p.len(),
{
    p.len() == 0 || exists|k: int|
        0 < k <= p.len() && f1.admits(#[trigger] p.take(k)) && admits_repeated(f1, p.skip(k))
}

/// The first place from `i` on that `p` does not reach by a follow pair
/// of `f1`.
pub open spec fn seam(f1: Outline, p: Seq<LinearizedSymbol>, i: int) -> int
    decreases p.len() - i,
{
    if i < 1 || i >= p.len() {
        p.len() as int
    } else if !f1.follow.contains((p[i - 1], p[i])) {
        i
    } else {
        seam(f1, p, i + 1)
    }
}

/// The place that is found is the first that no follow pair of `f1`
/// reaches.
pub proof fn lemma_seam(f1: Outline, p: Seq<LinearizedSymbol>, i: int)
    requires
        1 <= i <= p.len(),
    ensures
        i <= seam(f1, p, i) <= p.len(),
        forall|j: int| i <= j < seam(f1, p, i) ==> #[trigger] f1.follow.contains((p[j - 1], p[j])),
        seam(f1, p, i) < p.len() ==> !f1.follow.contains(
            (p[seam(f1, p, i) - 1], p[seam(f1, p, i)]),
        ),
    decreases p.len() - i,
{
    if i < p.len() && f1.follow.contains((p[i - 1], p[i])) {
        lemma_seam(f1, p, i + 1);
    }
}

/// Runs of an expression, one after the other, are a run of the
/// expression repeated.
pub proof fn lemma_repeat_joins(f: Outline, f1: Outline, p: Seq<LinearizedSymbol>)
    requires
        is_repeat(f, f1),
        admits_repeated(f1, p),
    ensures
        f.admits(p),
    decreases p.len(),
{
    if p.len() > 0 {
        let k = choose|k: int|
            0 < k <= p.len() && f1.admits(#[trigger] p.take(k)) && admits_repeated(f1, p.skip(k));
        let p1 = p.take(k);
        let p2 = p.skip(k);
        lemma_repeat_joins(f, f1, p2);
        assert(p1[0] == p[0]);
        if k < p.len() {
            assert(p2.last() == p.last());
        } else {
            assert(p1.last() == p.last());
        }
        assert forall|i: int| 0 <= i < p.len() - 1 implies f.follow.contains(
            (p[i], #[trigger] p[i + 1]),
        ) by {
            if i + 1 < k {
                assert(p1[i] == p[i]);
                assert(p1[i + 1] == p[i + 1]);
                assert(f1.follow.contains((p1[i], p1[i + 1])));
            } else if i + 1 == k {
                assert(p1.last() == p[i]);
                assert(p2[0] == p[i + 1]);
            } else {
                assert(p2[i - k] == p[i]);
                assert(p2[i - k + 1] == p[i + 1]);
                assert(f.follow.contains((p2[i - k], p2[i - k + 1])));
            }
        }
    }
}

/// A run of an expression repeated falls into runs of the expression.
pub proof fn lemma_repeat_splits(f: Outline, f1: Outline, p: Seq<LinearizedSymbol>)
    requires
        is_repeat(f, f1),
        f.admits(p),
    ensures
        admits_repeated(f1, p),
    decreases p.len(),
{
    if p.len() > 0 {
        let k = seam(f1, p, 1);
        lemma_seam(f1, p, 1);
        let p1 = p.take(k);
        let p2 = p.skip(k);
        assert(p1[0] == p[0]);
        assert(p1.last() == p[k - 1]);
        assert(f1.first.contains(p1[0]));
        if k < p.len() {
            assert(f.follow.contains((p[k - 1], p[k - 1 + 1])));
            assert(f1.last.contains(p[k - 1]) && f1.first.contains(p[k]));
            assert(p2[0] == p[k]);
            assert(p2.last() == p.last());
            assert forall|i: int| 0 <= i < p2.len() - 1 implies f.follow.contains(
                (p2[i], #[trigger] p2[i + 1]),
            ) by {
                assert(f.follow.contains((p[k + i], p[k + i + 1])));
            }
            assert(f.admits(p2));
        } else {
            assert(p1.last() == p.last());
        }
        assert(f1.last.contains(p1.last()));
        assert forall|i: int| 0 <= i < p1.len() - 1 implies f1.follow.contains(
            (p1[i], #[trigger] p1[i + 1]),
        ) by {
            assert(f1.follow.contains((p[i + 1 - 1], p[i + 1])));
        }
        assert(f1.admits(p1));
        lemma_repeat_splits(f, f1, p2);
        assert(0 < k <= p.len() && f1.admits(p.take(k)) && admits_repeated(f1, p.skip(k)));
    }
}

// -------------------------------------------------------------------------
// First, last and follow of a concatenation, part by part
// -------------------------------------------------------------------------

/// Every one of `bs[from..to]` matches the empty string.
pub open spec fn nullable_range(bs: Seq<BasicView>, from: int, to: int) -> bool {
    forall|i: int| from <= i < to ==> nullable_basic(#[trigger] bs[i])
}

/// A pair of one of each factor is a pair of the product.
pub proof fn lemma_product_has(
    a: Seq<LinearizedSymbol>,
    b: Seq<LinearizedSymbol>,
    p: LinearizedSymbol,
    q: LinearizedSymbol,
)
    requires
        a.contains(p),
        b.contains(q),
    ensures
        cartesian_product(a, b).contains((p, q)),
    decreases a.len(),
{
    let k = choose|k: int| 0 <= k < a.len() && a[k] == p;
    lemma_contains_add(cartesian_product(a.drop_last(), b), pairs_with(a.last(), b), (p, q));
    if k < a.len() - 1 {
        assert(a.drop_last()[k] == p);
        lemma_product_has(a.drop_last(), b, p, q);
    } else {
        let j = choose|j: int| 0 <= j < b.len() && b[j] == q;
        assert(pairs_with(a.last(), b)[j] == (p, q));
    }
}

/// The pairs of a product are the pairs of one of each factor.
pub proof fn lemma_product(
    a: Seq<LinearizedSymbol>,
    b: Seq<LinearizedSymbol>,
    p: LinearizedSymbol,
    q: LinearizedSymbol,
)
    ensures
        cartesian_product(a, b).contains((p, q)) <==> a.contains(p) && b.contains(q),
{
    if cartesian_product(a, b).contains((p, q)) {
        lemma_product_contains(a, b, p, q);
    }
    if a.contains(p) && b.contains(q) {
        lemma_product_has(a, b, p, q);
    }
}

/// The first positions of a concatenation from `from` on: those of the
/// concatenation without its last part, and those of the last part if all
/// before it match the empty string.
pub proof fn lemma_first_from_last(bs: Seq<BasicView>, from: int, x: LinearizedSymbol)
    requires
        bs.len() >= 1,
        0 <= from <= bs.len() - 1,
    ensures
        first_from(bs, from).contains(x) <==> first_from(bs.drop_last(), from).contains(x) || (
        nullable_range(bs, from, bs.len() - 1) && first_basic(bs.last()).contains(x)),
    decreases bs.len() - from,
{
    let n = bs.len() - 1;
    let rest = bs.drop_last();
    if from == n {
        assert(first_from(bs, n + 1) =~= Seq::empty());
        assert(first_from(rest, n) =~= Seq::empty());
        assert(first_basic(bs[n]) + Seq::<LinearizedSymbol>::empty() =~= first_basic(bs[n]));
    } else {
        assert(rest[from] == bs[from]);
        lemma_first_from_last(bs, from + 1, x);
        lemma_contains_add(first_basic(bs[from]), first_from(bs, from + 1), x);
        lemma_contains_add(first_basic(bs[from]), first_from(rest, from + 1), x);
        if nullable_basic(bs[from]) {
            assert(nullable_range(bs, from, n) <==> nullable_range(bs, from + 1, n)) by {
                if nullable_range(bs, from + 1, n) {
                    assert forall|i: int| from <= i < n implies nullable_basic(#[trigger] bs[i]) by {
                        if i > from {
                        }
                    }
                }
            }
        } else {
            assert(!nullable_range(bs, from, n));
        }
    }
}

/// The last positions of the first `n` parts do not depend on the last
/// part.
pub proof fn lemma_last_upto_prefix(bs: Seq<BasicView>, n: int)
    requires
        bs.len() >= 1,
        0 <= n <= bs.len() - 1,
    ensures
        last_upto(bs, n) == last_upto(bs.drop_last(), n),
    decreases n,
{
    if n > 0 {
        lemma_last_upto_prefix(bs, n - 1);
        assert(bs.drop_last()[n - 1] == bs[n - 1]);
    }
}

/// `x` is a last position of the part `i`, and all parts behind it among
/// the first `n` match the empty string.
pub open spec fn last_at(bs: Seq<BasicView>, n: int, i: int, x: LinearizedSymbol) -> bool {
    0 <= i < n && last_basic(bs[i]).contains(x) && nullable_range(bs, i + 1, n)
}

/// The last positions of the first `n` parts are the last positions of
/// those parts behind which all match the empty string.
pub proof fn lemma_last_upto_at(bs: Seq<BasicView>, n: int, x: LinearizedSymbol)
    requires
        0 <= n <= bs.len(),
    ensures
        last_upto(bs, n).contains(x) <==> exists|i: int| #[trigger] last_at(bs, n, i, x),
    decreases n,
{
    if n > 0 {
        lemma_last_upto_at(bs, n - 1, x);
        lemma_contains_add(last_basic(bs[n - 1]), last_upto(bs, n - 1), x);
        if last_upto(bs, n).contains(x) {
            if last_basic(bs[n - 1]).contains(x) {
                assert(last_at(bs, n, n - 1, x));
            } else {
                let i = choose|i: int| #[trigger] last_at(bs, n - 1, i, x);
                assert(last_at(bs, n, i, x));
            }
        }
        if exists|i: int| #[trigger] last_at(bs, n, i, x) {
            let i = choose|i: int| #[trigger] last_at(bs, n, i, x);
            if i < n - 1 {
                assert(nullable_basic(bs[n - 1]));
                assert(last_at(bs, n - 1, i, x));
            }
        }
    } else {
        if exists|i: int| #[trigger] last_at(bs, n, i, x) {
            let i = choose|i: int| #[trigger] last_at(bs, n, i, x);
        }
    }
}

/// The pair leads from a last position of the part `i` to a first
/// position of the part `j`, and all parts between them match the empty
/// string.
pub open spec fn bridge_at(
    bs: Seq<BasicView>,
    i: int,
    j: int,
    x: LinearizedSymbol,
    y: LinearizedSymbol,
) -> bool {
    &&& 0 <= i < j < bs.len()
    &&& last_basic(bs[i]).contains(x)
    &&& first_basic(bs[j]).contains(y)
    &&& nullable_range(bs, i + 1, j)
}

/// The pairs that lead from the part `i` into the parts from `j` on are
/// the pairs that lead from it over parts that match the empty string.
pub proof fn lemma_bridges_from_at(
    bs: Seq<BasicView>,
    i: int,
    j: int,
    x: LinearizedSymbol,
    y: LinearizedSymbol,
)
    requires
        0 <= i < j <= bs.len(),
        nullable_range(bs, i + 1, j),
    ensures
        bridges_from(bs, i, j).contains((x, y)) <==> exists|j2: int|
            j <= j2 && #[trigger] bridge_at(bs, i, j2, x, y),
    decreases bs.len() - j,
{
    if j < bs.len() {
        let here = cartesian_product(last_basic(bs[i]), first_basic(bs[j]));
        lemma_product(last_basic(bs[i]), first_basic(bs[j]), x, y);
        if nullable_basic(bs[j]) {
            assert(nullable_range(bs, i + 1, j + 1)) by {
                assert forall|k: int| i + 1 <= k < j + 1 implies nullable_basic(#[trigger] bs[k]) by {
                    if k < j {
                    }
                }
            }
            lemma_bridges_from_at(bs, i, j + 1, x, y);
            lemma_contains_add(here, bridges_from(bs, i, j + 1), (x, y));
        }
        if bridges_from(bs, i, j).contains((x, y)) {
            if here.contains((x, y)) {
                assert(bridge_at(bs, i, j, x, y));
            } else {
                let j2 = choose|j2: int| j + 1 <= j2 && #[trigger] bridge_at(bs, i, j2, x, y);
                assert(j <= j2 && bridge_at(bs, i, j2, x, y));
            }
        }
        if exists|j2: int| j <= j2 && #[trigger] bridge_at(bs, i, j2, x, y) {
            let j2 = choose|j2: int| j <= j2 && #[trigger] bridge_at(bs, i, j2, x, y);
            if j2 > j {
                assert(nullable_basic(bs[j]));
                assert(j + 1 <= j2 && bridge_at(bs, i, j2, x, y));
            }
        }
    } else {
        if exists|j2: int| j <= j2 && #[trigger] bridge_at(bs, i, j2, x, y) {
            let j2 = choose|j2: int| j <= j2 && #[trigger] bridge_at(bs, i, j2, x, y);
        }
    }
}

/// The pairs that lead from one of the parts from `i0` on into a later
/// one are the pairs that lead over parts that match the empty string.
pub proof fn lemma_bridges_at(bs: Seq<BasicView>, i0: int, x: LinearizedSymbol, y: LinearizedSymbol)
    requires
        0 <= i0,
    ensures
        bridges(bs, i0).contains((x, y)) <==> exists|i: int, j: int|
            i0 <= i && #[trigger] bridge_at(bs, i, j, x, y),
    decreases bs.len() - i0,
{
    if i0 + 1 < bs.len() {
        lemma_bridges_at(bs, i0 + 1, x, y);
        lemma_bridges_from_at(bs, i0, i0 + 1, x, y);
        lemma_contains_add(bridges_from(bs, i0, i0 + 1), bridges(bs, i0 + 1), (x, y));
        if bridges(bs, i0).contains((x, y)) {
            if bridges_from(bs, i0, i0 + 1).contains((x, y)) {
                let j2 = choose|j2: int| i0 + 1 <= j2 && #[trigger] bridge_at(bs, i0, j2, x, y);
                assert(i0 <= i0 && bridge_at(bs, i0, j2, x, y));
            } else {
                let (i, j) = choose|i: int, j: int|
                    i0 + 1 <= i && #[trigger] bridge_at(bs, i, j, x, y);
                assert(i0 <= i && bridge_at(bs, i, j, x, y));
            }
        }
        if exists|i: int, j: int| i0 <= i && #[trigger] bridge_at(bs, i, j, x, y) {
            let (i, j) = choose|i: int, j: int| i0 <= i && #[trigger] bridge_at(bs, i, j, x, y);
            if i == i0 {
                assert(i0 + 1 <= j && bridge_at(bs, i0, j, x, y));
            } else {
                assert(i0 + 1 <= i && bridge_at(bs, i, j, x, y));
            }
        }
    } else {
        if exists|i: int, j: int| i0 <= i && #[trigger] bridge_at(bs, i, j, x, y) {
            let (i, j) = choose|i: int, j: int| i0 <= i && #[trigger] bridge_at(bs, i, j, x, y);
        }
    }
}

/// The first positions of the basic expressions `bs` as a concatenation.
pub open spec fn concat_first(bs: Seq<BasicView>) -> Seq<LinearizedSymbol> {
    first_from(bs, 0)
}

/// The last positions of the basic expressions `bs` as a concatenation.
pub open spec fn concat_last(bs: Seq<BasicView>) -> Seq<LinearizedSymbol> {
    last_upto(bs, bs.len() as int)
}

/// The follow pairs of the basic expressions `bs` as a concatenation.
pub open spec fn concat_follow(bs: Seq<BasicView>) -> Seq<(LinearizedSymbol, LinearizedSymbol)> {
    follow_inside(bs) + bridges(bs, 0)
}

/// The first positions of a concatenation are those of the concatenation
/// without its last part, and those of the last part if all before it
/// match the empty string.
pub proof fn lemma_concat_first(bs: Seq<BasicView>, x: LinearizedSymbol)
    requires
        bs.len() >= 1,
    ensures
        concat_first(bs).contains(x) <==> concat_first(bs.drop_last()).contains(x) || (nullable_all(
            bs.drop_last(),
        ) && first_basic(bs.last()).contains(x)),
{
    lemma_first_from_last(bs, 0, x);
    lemma_nullable_all(bs.drop_last());
    let rest = bs.drop_last();
    assert(nullable_range(bs, 0, bs.len() - 1) <==> nullable_all(rest)) by {
        if nullable_range(bs, 0, bs.len() - 1) {
            assert forall|i: int| 0 <= i < rest.len() implies nullable_basic(#[trigger] rest[i]) by {
                assert(rest[i] == bs[i]);
            }
        }
        if nullable_all(rest) {
            assert forall|i: int| 0 <= i < bs.len() - 1 implies nullable_basic(#[trigger] bs[i]) by {
                assert(rest[i] == bs[i]);
            }
        }
    }
}

/// The last positions of a concatenation are those of its last part, and
/// those of the concatenation without it if the last part matches the
/// empty string.
pub proof fn lemma_concat_last(bs: Seq<BasicView>, x: LinearizedSymbol)
    requires
        bs.len() >= 1,
    ensures
        concat_last(bs).contains(x) <==> last_basic(bs.last()).contains(x) || (nullable_basic(
            bs.last(),
        ) && concat_last(bs.drop_last()).contains(x)),
{
    lemma_last_upto_prefix(bs, bs.len() - 1);
    lemma_contains_add(last_basic(bs.last()), last_upto(bs, bs.len() - 1), x);
}

/// The follow pairs of a concatenation are those of the concatenation
/// without its last part, those of the last part, and the pairs that lead
/// from a last position of the former to a first position of the latter.
pub proof fn lemma_concat_follow(bs: Seq<BasicView>, x: LinearizedSymbol, y: LinearizedSymbol)
    requires
        bs.len() >= 1,
    ensures
        concat_follow(bs).contains((x, y)) <==> concat_follow(bs.drop_last()).contains((x, y))
            || follow_basic(bs.last()).contains((x, y)) || (concat_last(bs.drop_last()).contains(x)
            && first_basic(bs.last()).contains(y)),
{
    let rest = bs.drop_last();
    let n = rest.len() as int;
    lemma_contains_add(follow_inside(bs), bridges(bs, 0), (x, y));
    lemma_contains_add(follow_inside(rest), bridges(rest, 0), (x, y));
    lemma_contains_add(follow_inside(rest), follow_basic(bs.last()), (x, y));
    lemma_bridges_at(bs, 0, x, y);
    lemma_bridges_at(rest, 0, x, y);
    lemma_last_upto_at(rest, n, x);
    assert forall|i: int, j: int| j < n implies (#[trigger] bridge_at(bs, i, j, x, y) <==> bridge_at(
        rest,
        i,
        j,
        x,
        y,
    )) by {
        if 0 <= i < j {
            assert(rest[i] == bs[i]);
            assert(rest[j] == bs[j]);
            assert(nullable_range(bs, i + 1, j) <==> nullable_range(rest, i + 1, j)) by {
                if nullable_range(bs, i + 1, j) {
                    assert forall|k: int| i + 1 <= k < j implies nullable_basic(#[trigger] rest[k]) by {
                        assert(rest[k] == bs[k]);
                    }
                }
                if nullable_range(rest, i + 1, j) {
                    assert forall|k: int| i + 1 <= k < j implies nullable_basic(#[trigger] bs[k]) by {
                        assert(rest[k] == bs[k]);
                    }
                }
            }
        }
    }
    assert forall|i: int| 0 <= i < n implies (#[trigger] bridge_at(bs, i, n, x, y) <==> last_at(
        rest,
        n,
        i,
        x,
    ) && first_basic(bs.last()).contains(y)) by {
        assert(rest[i] == bs[i]);
        assert(nullable_range(bs, i + 1, n) <==> nullable_range(rest, i + 1, n)) by {
            if nullable_range(bs, i + 1, n) {
                assert forall|k: int| i + 1 <= k < n implies nullable_basic(#[trigger] rest[k]) by {
                    assert(rest[k] == bs[k]);
                }
            }
            if nullable_range(rest, i + 1, n) {
                assert forall|k: int| i + 1 <= k < n implies nullable_basic(#[trigger] bs[k]) by {
                    assert(rest[k] == bs[k]);
                }
            }
        }
    }
    if bridges(bs, 0).contains((x, y)) {
        let (i, j) = choose|i: int, j: int| 0 <= i && #[trigger] bridge_at(bs, i, j, x, y);
        if j < n {
            assert(0 <= i && bridge_at(rest, i, j, x, y));
        } else {
            assert(last_at(rest, n, i, x));
        }
    }
    if bridges(rest, 0).contains((x, y)) {
        let (i, j) = choose|i: int, j: int| 0 <= i && #[trigger] bridge_at(rest, i, j, x, y);
        assert(0 <= i && bridge_at(bs, i, j, x, y));
    }
    if concat_last(rest).contains(x) && first_basic(bs.last()).contains(y) {
        let i = choose|i: int| #[trigger] last_at(rest, n, i, x);
        assert(0 <= i && bridge_at(bs, i, n, x, y));
    }
}

// -------------------------------------------------------------------------
// The runs that an expression generates are the runs of its outline
// -------------------------------------------------------------------------

/// The outline of an atomic expression.
pub open spec fn outline_atomic(a: AtomicView) -> Outline {
    Outline {
        first: first_atomic(a),
        last: last_atomic(a),
        follow: follow_atomic(a),
        nullable: nullable_atomic(a),
    }
}

/// The outline of a basic expression.
pub open spec fn outline_basic(b: BasicView) -> Outline {
    Outline {
        first: first_basic(b),
        last: last_basic(b),
        follow: follow_basic(b),
        nullable: nullable_basic(b),
    }
}

/// The outline of the basic expressions `bs` as a concatenation.
pub open spec fn outline_concat(bs: Seq<BasicView>) -> Outline {
    Outline {
        first: concat_first(bs),
        last: concat_last(bs),
        follow: concat_follow(bs),
        nullable: nullable_all(bs),
    }
}

/// The outline of the choice between the concatenations `cs`.
pub open spec fn outline_choice(cs: Seq<ConcatView>) -> Outline {
    Outline {
        first: first_of_all(cs),
        last: last_of_all(cs),
        follow: follow_of_all(cs),
        nullable: nullable_any(cs),
    }
}

/// A numbered position carries a number of the range.
pub proof fn lemma_numbered_range(l: Seq<LinearizedSymbol>, lo: nat, x: LinearizedSymbol)
    requires
        numbered(l, lo),
        l.contains(x),
    ensures
        lo < x.index <= lo + l.len(),
{
    let k = choose|k: int| 0 <= k < l.len() && l[k] == x;
    assert(l[k].index == lo + k + 1);
}

/// The parts of numbered positions are numbered.
pub proof fn lemma_numbered_split(a: Seq<LinearizedSymbol>, b: Seq<LinearizedSymbol>, lo: nat)
    requires
        numbered(a + b, lo),
    ensures
        numbered(a, lo),
        numbered(b, lo + a.len()),
{
    assert forall|k: int| 0 <= k < a.len() implies (#[trigger] a[k]).index == lo + k + 1 by {
        assert((a + b)[k] == a[k]);
    }
    assert forall|k: int| 0 <= k < b.len() implies (#[trigger] b[k]).index == lo + a.len() + k
        + 1 by {
        assert((a + b)[a.len() + k] == b[k]);
    }
}

/// The outline of a basic expression names positions of its range
/// alone.
pub proof fn lemma_basic_between(b: BasicView, lo: nat)
    requires
        numbered(leaves_basic(b), lo),
    ensures
        outline_basic(b).between(lo, lo + leaves_basic(b).len()),
{
    let l = leaves_basic(b);
    assert forall|x: LinearizedSymbol| #[trigger] first_basic(b).contains(x) implies lo < x.index
        <= lo + l.len() by {
        lemma_first_atomic(b.atomic, x);
        lemma_numbered_range(l, lo, x);
    }
    assert forall|x: LinearizedSymbol| #[trigger] last_basic(b).contains(x) implies lo < x.index
        <= lo + l.len() by {
        lemma_last_atomic(b.atomic, x);
        lemma_numbered_range(l, lo, x);
    }
    assert forall|x: LinearizedSymbol, y: LinearizedSymbol| #[trigger]
        follow_basic(b).contains((x, y)) implies lo < x.index <= lo + l.len() && lo < y.index <= lo
        + l.len() by {
        lemma_follow_basic(b, x, y);
        lemma_numbered_range(l, lo, x);
        lemma_numbered_range(l, lo, y);
    }
}

/// The outline of a concatenation names positions of its range alone.
pub proof fn lemma_concat_between(bs: Seq<BasicView>, lo: nat)
    requires
        numbered(leaves_of_basics(bs), lo),
    ensures
        outline_concat(bs).between(lo, lo + leaves_of_basics(bs).len()),
{
    let l = leaves_of_basics(bs);
    assert forall|x: LinearizedSymbol| #[trigger] concat_first(bs).contains(x) implies lo < x.index
        <= lo + l.len() by {
        lemma_first_from(bs, 0, x);
        lemma_numbered_range(l, lo, x);
    }
    assert forall|x: LinearizedSymbol| #[trigger] concat_last(bs).contains(x) implies lo < x.index
        <= lo + l.len() by {
        lemma_last_upto(bs, bs.len() as int, x);
        lemma_numbered_range(l, lo, x);
    }
    assert forall|x: LinearizedSymbol, y: LinearizedSymbol| #[trigger]
        concat_follow(bs).contains((x, y)) implies lo < x.index <= lo + l.len() && lo < y.index
        <= lo + l.len() by {
        lemma_contains_add(follow_inside(bs), bridges(bs, 0), (x, y));
        if follow_inside(bs).contains((x, y)) {
            lemma_follow_inside(bs, x, y);
        } else {
            lemma_bridges(bs, 0, x, y);
        }
        lemma_numbered_range(l, lo, x);
        lemma_numbered_range(l, lo, y);
    }
}

/// The outline of a choice names positions of its range alone.
pub proof fn lemma_choice_between(cs: Seq<ConcatView>, lo: nat)
    requires
        numbered(leaves_of_concats(cs), lo),
    ensures
        outline_choice(cs).between(lo, lo + leaves_of_concats(cs).len()),
{
    let l = leaves_of_concats(cs);
    assert forall|x: LinearizedSymbol| #[trigger] first_of_all(cs).contains(x) implies lo < x.index
        <= lo + l.len() by {
        lemma_first_of_all(cs, x);
        lemma_numbered_range(l, lo, x);
    }
    assert forall|x: LinearizedSymbol| #[trigger] last_of_all(cs).contains(x) implies lo < x.index
        <= lo + l.len() by {
        lemma_last_of_all(cs, x);
        lemma_numbered_range(l, lo, x);
    }
    assert forall|x: LinearizedSymbol, y: LinearizedSymbol| #[trigger]
        follow_of_all(cs).contains((x, y)) implies lo < x.index <= lo + l.len() && lo < y.index
        <= lo + l.len() by {
        lemma_follow_of_all(cs, x, y);
        lemma_numbered_range(l, lo, x);
        lemma_numbered_range(l, lo, y);
    }
}

/// The outline of a concatenation is that of the sequence of the
/// concatenation without its last part, and the last part.
pub proof fn lemma_concat_is_sequence(bs: Seq<BasicView>)
    requires
        bs.len() >= 1,
    ensures
        is_sequence(outline_concat(bs), outline_concat(bs.drop_last()), outline_basic(bs.last())),
{
    assert forall|x: LinearizedSymbol| #[trigger]
        concat_first(bs).contains(x) <==> concat_first(bs.drop_last()).contains(x) || (nullable_all(
            bs.drop_last(),
        ) && first_basic(bs.last()).contains(x)) by {
        lemma_concat_first(bs, x);
    }
    assert forall|x: LinearizedSymbol| #[trigger]
        concat_last(bs).contains(x) <==> last_basic(bs.last()).contains(x) || (nullable_basic(
            bs.last(),
        ) && concat_last(bs.drop_last()).contains(x)) by {
        lemma_concat_last(bs, x);
    }
    assert forall|x: LinearizedSymbol, y: LinearizedSymbol| #[trigger]
        concat_follow(bs).contains((x, y)) <==> concat_follow(bs.drop_last()).contains((x, y))
            || follow_basic(bs.last()).contains((x, y)) || (concat_last(bs.drop_last()).contains(x)
            && first_basic(bs.last()).contains(y)) by {
        lemma_concat_follow(bs, x, y);
    }
}

/// The outline of a choice of concatenations is that of the choice
/// between all but the last of them, and the last.
pub proof fn lemma_choice_is_choice(cs: Seq<ConcatView>)
    requires
        cs.len() >= 1,
    ensures
        is_choice(
            outline_choice(cs),
            outline_choice(cs.drop_last()),
            outline_concat(cs.last().basics),
        ),
{
    let rest = cs.drop_last();
    let c = cs.last();
    assert(first_concat(c) == concat_first(c.basics));
    assert(last_concat(c) == concat_last(c.basics));
    assert(follow_concat(c) == concat_follow(c.basics));
    assert(nullable_concat(c) == nullable_all(c.basics));
    assert(nullable_any(cs) == (nullable_any(rest) || nullable_concat(c)));
    assert forall|x: LinearizedSymbol| #[trigger]
        first_of_all(cs).contains(x) <==> first_of_all(rest).contains(x) || concat_first(
            c.basics,
        ).contains(x) by {
        lemma_contains_add(first_of_all(rest), first_concat(c), x);
    }
    assert forall|x: LinearizedSymbol| #[trigger]
        last_of_all(cs).contains(x) <==> last_of_all(rest).contains(x) || concat_last(
            c.basics,
        ).contains(x) by {
        lemma_contains_add(last_of_all(rest), last_concat(c), x);
    }
    assert forall|x: LinearizedSymbol, y: LinearizedSymbol| #[trigger]
        follow_of_all(cs).contains((x, y)) <==> follow_of_all(rest).contains((x, y))
            || concat_follow(c.basics).contains((x, y)) by {
        lemma_contains_add(follow_of_all(rest), follow_concat(c), (x, y));
    }
}

/// The outline of a repeated basic expression is that of its atomic
/// expression repeated.
pub proof fn lemma_basic_is_repeat(b: BasicView)
    requires
        b.is_iter,
    ensures
        is_repeat(outline_basic(b), outline_atomic(b.atomic)),
{
    let a = b.atomic;
    assert forall|x: LinearizedSymbol, y: LinearizedSymbol| #[trigger]
        follow_basic(b).contains((x, y)) <==> follow_atomic(a).contains((x, y)) || (last_atomic(
            a,
        ).contains(x) && first_atomic(a).contains(y)) by {
        lemma_contains_add(
            follow_atomic(a),
            cartesian_product(last_atomic(a), first_atomic(a)),
            (x, y),
        );
        lemma_product(last_atomic(a), first_atomic(a), x, y);
    }
}

/// An atomic expression generates the runs of its outline.
pub proof fn lemma_atomic_runs(a: AtomicView, lo: nat, p: Seq<LinearizedSymbol>)
    requires
        numbered(leaves_atomic(a), lo),
    ensures
        gen_atomic(a, p) <==> outline_atomic(a).admits(p),
    decreases a, 0nat, 0nat,
{
    match a {
        AtomicView::Symbol(s) => {
            let f = outline_atomic(a);
            if f.admits(p) {
                if p.len() > 1 {
                    assert(f.follow.contains((p[0], p[0int + 1])));
                }
                assert(p =~= seq![s]);
            }
            if p == seq![s] {
                assert(seq![s][0] == s);
            }
        },
        AtomicView::Union(u) => {
            lemma_choice_runs(u.concats, lo, p);
        },
    }
}

/// A repeated atomic expression generates the runs that fall into runs of
/// its outline.
pub proof fn lemma_star_runs(a: AtomicView, lo: nat, p: Seq<LinearizedSymbol>)
    requires
        numbered(leaves_atomic(a), lo),
    ensures
        gen_star(a, p) <==> admits_repeated(outline_atomic(a), p),
    decreases a, 1nat, p.len(),
{
    if p.len() > 0 {
        let f1 = outline_atomic(a);
        assert forall|k: int| 0 < k <= p.len() implies (gen_atomic(a, #[trigger] p.take(k))
            <==> f1.admits(p.take(k))) && (gen_star(a, p.skip(k)) <==> admits_repeated(
            f1,
            p.skip(k),
        )) by {
            lemma_atomic_runs(a, lo, p.take(k));
            lemma_star_runs(a, lo, p.skip(k));
        }
        if gen_star(a, p) {
            let k = choose|k: int|
                0 < k <= p.len() && gen_atomic(a, #[trigger] p.take(k)) && gen_star(a, p.skip(k));
            assert(0 < k <= p.len() && f1.admits(p.take(k)) && admits_repeated(f1, p.skip(k)));
        }
        if admits_repeated(f1, p) {
            let k = choose|k: int|
                0 < k <= p.len() && f1.admits(#[trigger] p.take(k)) && admits_repeated(
                    f1,
                    p.skip(k),
                );
            assert(0 < k <= p.len() && gen_atomic(a, p.take(k)) && gen_star(a, p.skip(k)));
        }
    }
}

/// A basic expression generates the runs of its outline.
pub proof fn lemma_basic_runs(b: BasicView, lo: nat, p: Seq<LinearizedSymbol>)
    requires
        numbered(leaves_basic(b), lo),
    ensures
        gen_basic(b, p) <==> outline_basic(b).admits(p),
    decreases b, 0nat, 0nat,
{
    if b.is_iter {
        lemma_star_runs(b.atomic, lo, p);
        lemma_basic_is_repeat(b);
        if admits_repeated(outline_atomic(b.atomic), p) {
            lemma_repeat_joins(outline_basic(b), outline_atomic(b.atomic), p);
        }
        if outline_basic(b).admits(p) {
            lemma_repeat_splits(outline_basic(b), outline_atomic(b.atomic), p);
        }
    } else {
        lemma_atomic_runs(b.atomic, lo, p);
        assert(outline_basic(b) == outline_atomic(b.atomic));
    }
}

/// A concatenation generates the runs of its outline.
pub proof fn lemma_concat_runs(bs: Seq<BasicView>, lo: nat, p: Seq<LinearizedSymbol>)
    requires
        numbered(leaves_of_basics(bs), lo),
    ensures
        gen_basics(bs, p) <==> outline_concat(bs).admits(p),
    decreases bs, 0nat, 0nat,
{
    let f = outline_concat(bs);
    if bs.len() == 0 {
        assert(f.first =~= Seq::empty());
    } else {
        let rest = bs.drop_last();
        let b = bs.last();
        let f1 = outline_concat(rest);
        let f2 = outline_basic(b);
        let mid = lo + leaves_of_basics(rest).len();
        lemma_numbered_split(leaves_of_basics(rest), leaves_basic(b), lo);
        lemma_concat_is_sequence(bs);
        lemma_concat_between(rest, lo);
        lemma_basic_between(b, mid);
        if gen_basics(bs, p) {
            let k = choose|k: int|
                0 <= k <= p.len() && gen_basics(rest, #[trigger] p.take(k)) && gen_basic(
                    b,
                    p.skip(k),
                );
            lemma_concat_runs(rest, lo, p.take(k));
            lemma_basic_runs(b, mid, p.skip(k));
            lemma_sequence_joins(f, f1, f2, p, k);
        }
        if f.admits(p) {
            let k = lemma_sequence_splits(
                f,
                f1,
                f2,
                lo,
                mid,
                mid + leaves_basic(b).len(),
                p,
            );
            lemma_concat_runs(rest, lo, p.take(k));
            lemma_basic_runs(b, mid, p.skip(k));
            assert(0 <= k <= p.len() && gen_basics(rest, p.take(k)) && gen_basic(b, p.skip(k)));
        }
    }
}

/// A choice of concatenations generates the runs of its outline.
pub proof fn lemma_choice_runs(cs: Seq<ConcatView>, lo: nat, p: Seq<LinearizedSymbol>)
    requires
        numbered(leaves_of_concats(cs), lo),
    ensures
        gen_concats(cs, p) <==> outline_choice(cs).admits(p),
    decreases cs, 0nat, 0nat,
{
    let f = outline_choice(cs);
    if cs.len() == 0 {
        assert(f.first =~= Seq::empty());
    } else {
        let rest = cs.drop_last();
        let c = cs.last();
        let mid = lo + leaves_of_concats(rest).len();
        lemma_numbered_split(leaves_of_concats(rest), leaves_concat(c), lo);
        lemma_choice_is_choice(cs);
        lemma_choice_between(rest, lo);
        lemma_concat_between(c.basics, mid);
        lemma_choice_runs(rest, lo, p);
        lemma_concat_runs(c.basics, mid, p);
        lemma_choice(
            f,
            outline_choice(rest),
            outline_concat(c.basics),
            lo,
            mid,
            mid + leaves_of_basics(c.basics).len(),
            p,
        );
    }
}

// -------------------------------------------------------------------------
// The position automaton reads the runs of the outline
// -------------------------------------------------------------------------

/// The outline of a tree is that of its root.
pub open spec fn outline_tree(t: TreeView) -> Outline {
    outline_choice(t.root.concats)
}

/// `p` begins with a first position and goes on by follow pairs.
pub open spec fn traces(f: Outline, p: Seq<LinearizedSymbol>) -> bool {
    &&& p.len() > 0
    &&& f.first.contains(p[0])
    &&& forall|i: int| 0 <= i < p.len() - 1 ==> f.follow.contains((p[i], #[trigger] p[i + 1]))
}

/// What leads the position automaton into the state `q` is spelled by
/// positions that begin with a first position, go on by follow pairs and
/// end with the position `q`.
pub proof fn lemma_reach_trace(t: TreeView, wild: bool, w: Seq<char>, q: int) -> (p: Seq<
    LinearizedSymbol,
>)
    requires
        t.wf(),
        w.len() > 0,
        reaches(position_nfa(t), wild, w, q),
    ensures
        traces(outline_tree(t), p),
        spells(p, wild, w),
        1 <= q <= t.linearized_symbols,
        p.last() == leaf(t, q),
    decreases w.len(),
{
    let a = position_nfa(t);
    let f = outline_tree(t);
    let r = choose|r: int|
        reaches(a, wild, w.drop_last(), r) && #[trigger] step(a, wild, r, w.last(), q);
    assert(a.labels[r][q] == position_label(t, r, q));
    assert(f.first == first_union(t.root));
    assert(f.follow == follow_union(t.root));
    if w.len() == 1 {
        let p = seq![leaf(t, q)];
        assert(p[0] == leaf(t, q));
        p
    } else {
        let before = lemma_reach_trace(t, wild, w.drop_last(), r);
        let p = before.push(leaf(t, q));
        assert(p[0] == before[0]);
        assert forall|i: int| 0 <= i < p.len() - 1 implies f.follow.contains(
            (p[i], #[trigger] p[i + 1]),
        ) by {
            if i + 1 < before.len() {
                assert(p[i] == before[i]);
                assert(p[i + 1] == before[i + 1]);
            } else {
                assert(p[i] == before.last());
            }
        }
        assert forall|i: int| 0 <= i < p.len() implies label_matches(
            (#[trigger] p[i]).symbol,
            w[i],
            wild,
        ) by {
            if i < before.len() {
                assert(p[i] == before[i]);
                assert(w.drop_last()[i] == w[i]);
            }
        }
        p
    }
}

/// Positions that begin with a first position and go on by follow pairs
/// lead the position automaton into the state of the last of them.
pub proof fn lemma_trace_reach(t: TreeView, wild: bool, p: Seq<LinearizedSymbol>, w: Seq<char>)
    requires
        t.wf(),
        traces(outline_tree(t), p),
        spells(p, wild, w),
    ensures
        1 <= p.last().index <= t.linearized_symbols,
        leaf(t, p.last().index as int) == p.last(),
        reaches(position_nfa(t), wild, w, p.last().index as int),
    decreases p.len(),
{
    let a = position_nfa(t);
    let f = outline_tree(t);
    let q = p.last().index as int;
    assert(f.first == first_union(t.root));
    assert(f.follow == follow_union(t.root));
    if p.len() == 1 {
        lemma_first_is_leaf(t, p[0]);
        assert(a.labels[0][q] == position_label(t, 0, q));
        assert(reaches(a, wild, w.drop_last(), 0));
        assert(step(a, wild, 0, w.last(), q));
    } else {
        let before = p.drop_last();
        assert(before[0] == p[0]);
        assert forall|i: int| 0 <= i < before.len() - 1 implies f.follow.contains(
            (before[i], #[trigger] before[i + 1]),
        ) by {
            assert(f.follow.contains((p[i], p[i + 1])));
        }
        assert forall|i: int| 0 <= i < before.len() implies label_matches(
            (#[trigger] before[i]).symbol,
            w.drop_last()[i],
            wild,
        ) by {
            assert(before[i] == p[i]);
        }
        lemma_trace_reach(t, wild, before, w.drop_last());
        let r = before.last().index as int;
        assert(f.follow.contains((p[p.len() - 2], p[p.len() - 2 + 1])));
        lemma_follow_is_leaf(t, before.last(), p.last());
        assert(a.labels[r][q] == position_label(t, r, q));
        assert(step(a, wild, r, w.last(), q));
    }
}

/// The position automaton of a tree accepts just what the tree matches.
pub proof fn lemma_position_language(t: TreeView, wild: bool, w: Seq<char>)
    requires
        t.wf(),
    ensures
        accepts(position_nfa(t), wild, w) <==> matches_union(t.root, wild, w),
{
    let a = position_nfa(t);
    let f = outline_tree(t);
    assert(f.last == last_union(t.root));
    assert(f.nullable == nullable_union(t.root));
    assert(leaves_union(t.root) == leaves_of_concats(t.root.concats));
    if accepts(a, wild, w) {
        let q = choose|q: int| 0 <= q < a.size && #[trigger] reaches(a, wild, w, q) && a.accepts[q];
        assert(a.accepts[q] == position_accepts(t, q));
        if w.len() == 0 {
            let p = Seq::<LinearizedSymbol>::empty();
            lemma_choice_runs(t.root.concats, 0, p);
            assert(gen_union(t.root, p) && spells(p, wild, w));
        } else {
            let p = lemma_reach_trace(t, wild, w, q);
            assert(f.admits(p));
            lemma_choice_runs(t.root.concats, 0, p);
            assert(gen_union(t.root, p) && spells(p, wild, w));
        }
    }
    if matches_union(t.root, wild, w) {
        let p = choose|p: Seq<LinearizedSymbol>| gen_union(t.root, p) && #[trigger] spells(
            p,
            wild,
            w,
        );
        lemma_choice_runs(t.root.concats, 0, p);
        if p.len() == 0 {
            assert(reaches(a, wild, w, 0));
            assert(a.accepts[0] == position_accepts(t, 0));
        } else {
            lemma_trace_reach(t, wild, p, w);
            let q = p.last().index as int;
            assert(a.accepts[q] == position_accepts(t, q));
            assert(0 <= q < a.size && reaches(a, wild, w, q) && a.accepts[q]);
        }
    }
}

// -------------------------------------------------------------------------
// What the parts of an expression match
// -------------------------------------------------------------------------

/// No position of `l` carries a bracket, a bar, a star or a question
/// mark.
pub open spec fn plain_positions(l: Seq<LinearizedSymbol>) -> bool {
    forall|k: int| 0 <= k < l.len() ==> !is_mark((#[trigger] l[k]).symbol)
}

/// The atomic expression matches `w`.
pub open spec fn matches_atomic(a: AtomicView, wild: bool, w: Seq<char>) -> bool {
    exists|p: Seq<LinearizedSymbol>| gen_atomic(a, p) && #[trigger] spells(p, wild, w)
}

/// `w` falls into parts that the atomic expression matches.
pub open spec fn matches_star(a: AtomicView, wild: bool, w: Seq<char>) -> bool {
    exists|p: Seq<LinearizedSymbol>| gen_star(a, p) && #[trigger] spells(p, wild, w)
}

/// The basic expression matches `w`.
pub open spec fn matches_basic(b: BasicView, wild: bool, w: Seq<char>) -> bool {
    exists|p: Seq<LinearizedSymbol>| gen_basic(b, p) && #[trigger] spells(p, wild, w)
}

/// The concatenation of `bs` matches `w`.
pub open spec fn matches_basics(bs: Seq<BasicView>, wild: bool, w: Seq<char>) -> bool {
    exists|p: Seq<LinearizedSymbol>| gen_basics(bs, p) && #[trigger] spells(p, wild, w)
}

/// One of `cs` matches `w`.
pub open spec fn matches_concats(cs: Seq<ConcatView>, wild: bool, w: Seq<char>) -> bool {
    exists|p: Seq<LinearizedSymbol>| gen_concats(cs, p) && #[trigger] spells(p, wild, w)
}

/// The parts of positions that spell a string spell its parts.
pub proof fn lemma_spells_split(p: Seq<LinearizedSymbol>, wild: bool, w: Seq<char>, k: int)
    requires
        spells(p, wild, w),
        0 <= k <= p.len(),
    ensures
        spells(p.take(k), wild, w.take(k)),
        spells(p.skip(k), wild, w.skip(k)),
{
    assert forall|i: int| 0 <= i < p.take(k).len() implies label_matches(
        (#[trigger] p.take(k)[i]).symbol,
        w.take(k)[i],
        wild,
    ) by {
        assert(p.take(k)[i] == p[i]);
    }
    assert forall|i: int| 0 <= i < p.skip(k).len() implies label_matches(
        (#[trigger] p.skip(k)[i]).symbol,
        w.skip(k)[i],
        wild,
    ) by {
        assert(p.skip(k)[i] == p[k + i]);
    }
}

/// Positions that spell two strings spell the two one after the other.
pub proof fn lemma_spells_join(
    p1: Seq<LinearizedSymbol>,
    p2: Seq<LinearizedSymbol>,
    wild: bool,
    w1: Seq<char>,
    w2: Seq<char>,
)
    requires
        spells(p1, wild, w1),
        spells(p2, wild, w2),
    ensures
        spells(p1 + p2, wild, w1 + w2),
        (p1 + p2).take(p1.len() as int) == p1,
        (p1 + p2).skip(p1.len() as int) == p2,
{
    let p = p1 + p2;
    let w = w1 + w2;
    assert forall|i: int| 0 <= i < p.len() implies label_matches(
        (#[trigger] p[i]).symbol,
        w[i],
        wild,
    ) by {
        if i < p1.len() {
            assert(p[i] == p1[i]);
        } else {
            assert(p[i] == p2[i - p1.len()]);
        }
    }
    assert(p.take(p1.len() as int) =~= p1);
    assert(p.skip(p1.len() as int) =~= p2);
}

/// A position matches the one character that it carries.
pub proof fn lemma_matches_symbol(s: LinearizedSymbol, wild: bool, w: Seq<char>)
    ensures
        matches_atomic(AtomicView::Symbol(s), wild, w) <==> w.len() == 1 && label_matches(
            s.symbol,
            w[0],
            wild,
        ),
{
    let a = AtomicView::Symbol(s);
    if matches_atomic(a, wild, w) {
        let p = choose|p: Seq<LinearizedSymbol>| gen_atomic(a, p) && #[trigger] spells(p, wild, w);
        assert(p[0] == s);
    }
    if w.len() == 1 && label_matches(s.symbol, w[0], wild) {
        let p = seq![s];
        assert(p[0] == s);
        assert(gen_atomic(a, p) && spells(p, wild, w));
    }
}

/// A repeated atomic expression matches the empty string, and what
/// falls into a part that the expression matches and a rest that it
/// matches repeated.
pub proof fn lemma_matches_star(a: AtomicView, wild: bool, w: Seq<char>)
    ensures
        matches_star(a, wild, w) <==> w.len() == 0 || exists|k: int|
            0 < k <= w.len() && matches_atomic(a, wild, #[trigger] w.take(k)) && matches_star(
                a,
                wild,
                w.skip(k),
            ),
{
    if matches_star(a, wild, w) && w.len() > 0 {
        let p = choose|p: Seq<LinearizedSymbol>| gen_star(a, p) && #[trigger] spells(p, wild, w);
        let k = choose|k: int|
            0 < k <= p.len() && gen_atomic(a, #[trigger] p.take(k)) && gen_star(a, p.skip(k));
        lemma_spells_split(p, wild, w, k);
        assert(gen_atomic(a, p.take(k)) && spells(p.take(k), wild, w.take(k)));
        assert(gen_star(a, p.skip(k)) && spells(p.skip(k), wild, w.skip(k)));
        assert(0 < k <= w.len() && matches_atomic(a, wild, w.take(k)) && matches_star(
            a,
            wild,
            w.skip(k),
        ));
    }
    if w.len() == 0 {
        let p = Seq::<LinearizedSymbol>::empty();
        assert(gen_star(a, p) && spells(p, wild, w));
    } else if exists|k: int|
        0 < k <= w.len() && matches_atomic(a, wild, #[trigger] w.take(k)) && matches_star(
            a,
            wild,
            w.skip(k),
        ) {
        let k = choose|k: int|
            0 < k <= w.len() && matches_atomic(a, wild, #[trigger] w.take(k)) && matches_star(
                a,
                wild,
                w.skip(k),
            );
        let p1 = choose|p: Seq<LinearizedSymbol>|
            gen_atomic(a, p) && #[trigger] spells(p, wild, w.take(k));
        let p2 = choose|p: Seq<LinearizedSymbol>|
            gen_star(a, p) && #[trigger] spells(p, wild, w.skip(k));
        lemma_spells_join(p1, p2, wild, w.take(k), w.skip(k));
        assert(w.take(k) + w.skip(k) =~= w);
        let p = p1 + p2;
        assert(0 < k <= p.len() && gen_atomic(a, p.take(k)) && gen_star(a, p.skip(k)));
        assert(gen_star(a, p) && spells(p, wild, w));
    }
}

/// A concatenation matches what falls into a part that the
/// concatenation without its last part matches, and a part that the last
/// part matches.
pub proof fn lemma_matches_basics(bs: Seq<BasicView>, wild: bool, w: Seq<char>)
    ensures
        bs.len() == 0 ==> (matches_basics(bs, wild, w) <==> w.len() == 0),
        bs.len() > 0 ==> (matches_basics(bs, wild, w) <==> exists|k: int|
            0 <= k <= w.len() && matches_basics(bs.drop_last(), wild, #[trigger] w.take(k))
                && matches_basic(bs.last(), wild, w.skip(k))),
{
    if bs.len() == 0 {
        if w.len() == 0 {
            let p = Seq::<LinearizedSymbol>::empty();
            assert(gen_basics(bs, p) && spells(p, wild, w));
        }
    } else {
        let rest = bs.drop_last();
        let b = bs.last();
        if matches_basics(bs, wild, w) {
            let p = choose|p: Seq<LinearizedSymbol>|
                gen_basics(bs, p) && #[trigger] spells(p, wild, w);
            let k = choose|k: int|
                0 <= k <= p.len() && gen_basics(rest, #[trigger] p.take(k)) && gen_basic(
                    b,
                    p.skip(k),
                );
            lemma_spells_split(p, wild, w, k);
            assert(gen_basics(rest, p.take(k)) && spells(p.take(k), wild, w.take(k)));
            assert(gen_basic(b, p.skip(k)) && spells(p.skip(k), wild, w.skip(k)));
            assert(0 <= k <= w.len() && matches_basics(rest, wild, w.take(k)) && matches_basic(
                b,
                wild,
                w.skip(k),
            ));
        }
        if exists|k: int|
            0 <= k <= w.len() && matches_basics(rest, wild, #[trigger] w.take(k)) && matches_basic(
                b,
                wild,
                w.skip(k),
            ) {
            let k = choose|k: int|
                0 <= k <= w.len() && matches_basics(rest, wild, #[trigger] w.take(k))
                    && matches_basic(b, wild, w.skip(k));
            let p1 = choose|p: Seq<LinearizedSymbol>|
                gen_basics(rest, p) && #[trigger] spells(p, wild, w.take(k));
            let p2 = choose|p: Seq<LinearizedSymbol>|
                gen_basic(b, p) && #[trigger] spells(p, wild, w.skip(k));
            lemma_spells_join(p1, p2, wild, w.take(k), w.skip(k));
            assert(w.take(k) + w.skip(k) =~= w);
            let p = p1 + p2;
            assert(0 <= k <= p.len() && gen_basics(rest, p.take(k)) && gen_basic(b, p.skip(k)));
            assert(gen_basics(bs, p) && spells(p, wild, w));
        }
    }
}

/// One of some concatenations matches what one of all but the last
/// matches, and what the last matches.
pub proof fn lemma_matches_concats(cs: Seq<ConcatView>, wild: bool, w: Seq<char>)
    ensures
        cs.len() == 0 ==> !matches_concats(cs, wild, w),
        cs.len() > 0 ==> (matches_concats(cs, wild, w) <==> matches_concats(
            cs.drop_last(),
            wild,
            w,
        ) || matches_basics(cs.last().basics, wild, w)),
{
    if cs.len() > 0 {
        let rest = cs.drop_last();
        let c = cs.last();
        if matches_concats(cs, wild, w) {
            let p = choose|p: Seq<LinearizedSymbol>|
                gen_concats(cs, p) && #[trigger] spells(p, wild, w);
            if gen_concats(rest, p) {
                assert(gen_concats(rest, p) && spells(p, wild, w));
            } else {
                assert(gen_basics(c.basics, p) && spells(p, wild, w));
            }
        }
        if matches_concats(rest, wild, w) {
            let p = choose|p: Seq<LinearizedSymbol>|
                gen_concats(rest, p) && #[trigger] spells(p, wild, w);
            assert(gen_concats(cs, p) && spells(p, wild, w));
        }
        if matches_basics(c.basics, wild, w) {
            let p = choose|p: Seq<LinearizedSymbol>|
                gen_basics(c.basics, p) && #[trigger] spells(p, wild, w);
            assert(gen_concats(cs, p) && spells(p, wild, w));
        }
    }
}

} // verus!
