//! What the text of an expression matches.
//!
//! A text is read as alternatives between bars; an alternative as factors
//! one after the other; a factor as a character or a group in brackets,
//! with a `*` or a `?` behind it or without.
use vstd::prelude::*;
use crate::ndfa::ast::is_mark;
use crate::ndfa::elimination::is_group;
use crate::ndfa::elimination::spliced_label;
use crate::ndfa::elimination::through;
use crate::ndfa::elimination::unfolds;
use crate::ndfa::elimination::wrapped;
use crate::ndfa::elimination::wrapped_if_needed;
use crate::ndfa::language::label_matches;
use crate::parser::group_end;
use crate::parser::round_trip::balanced;
use crate::parser::round_trip::lemma_balanced_add;
use crate::parser::round_trip::lemma_group_ends;
use crate::parser::round_trip::lemma_level_head;
use crate::parser::round_trip::lemma_level_tail;
use crate::parser::round_trip::level;
use crate::parser::round_trip::weight;

verus! {

// -------------------------------------------------------------------------
// Reading
// -------------------------------------------------------------------------

/// `c` stands behind what it applies to.
pub open spec fn is_postfix(c: char) -> bool {
    c == '*' || c == '?'
}

/// The index behind the character or group with which `s` begins, or -1
/// if it begins with neither.
pub open spec fn atom_end(s: Seq<char>) -> int {
    if s.len() == 0 {
        -1
    } else if s[0] == '(' {
        group_end(s, 1, 1)
    } else if is_mark(s[0]) {
        -1
    } else {
        1
    }
}

/// The index behind the factor with which `s` begins, or -1 if it begins
/// with none.
pub open spec fn factor_end(s: Seq<char>) -> int {
    let e = atom_end(s);
    if 0 < e < s.len() && is_postfix(s[e]) {
        e + 1
    } else {
        e
    }
}

/// The index of the first bar from `i` on that stands in no group, where
/// `depth` groups are open at `i`; the length of `s` if there is none.
pub open spec fn bar_at(s: Seq<char>, i: int, depth: int) -> int
    decreases s.len() - i,
{
    if i < 0 || i >= s.len() {
        s.len() as int
    } else if s[i] == '|' && depth == 0 {
        i
    } else {
        bar_at(s, i + 1, depth + weight(s[i]))
    }
}

/// The character or group `a` matches `w`.
pub open spec fn atom_matches(a: Seq<char>, wild: bool, w: Seq<char>) -> bool
    decreases a.len(), 0nat, 0nat,
{
    if a.len() >= 2 && a[0] == '(' {
        alt_matches(a.subrange(1, a.len() - 1), wild, w)
    } else if a.len() == 1 {
        w.len() == 1 && label_matches(a[0], w[0], wild)
    } else {
        false
    }
}

/// `w` falls into parts that the character or group `a` matches, none of
/// them empty.
pub open spec fn star_matches(a: Seq<char>, wild: bool, w: Seq<char>) -> bool
    decreases a.len(), 1nat, w.len(),
{
    w.len() == 0 || exists|k: int|
        0 < k <= w.len() && atom_matches(a, wild, #[trigger] w.take(k)) && star_matches(
            a,
            wild,
            w.skip(k),
        )
}

/// The factor `f` matches `w`.
pub open spec fn factor_matches(f: Seq<char>, wild: bool, w: Seq<char>) -> bool
    decreases f.len(), 2nat, 0nat,
{
    if f.len() >= 2 && f.last() == '*' {
        star_matches(f.drop_last(), wild, w)
    } else if f.len() >= 2 && f.last() == '?' {
        w.len() == 0 || atom_matches(f.drop_last(), wild, w)
    } else {
        atom_matches(f, wild, w)
    }
}

/// `w` falls into parts that the factors of `s` match, one each.
pub open spec fn seq_matches(s: Seq<char>, wild: bool, w: Seq<char>) -> bool
    decreases s.len(), 3nat, 0nat,
{
    if s.len() == 0 {
        w.len() == 0
    } else {
        let e = factor_end(s);
        0 < e <= s.len() && exists|k: int|
            0 <= k <= w.len() && factor_matches(s.take(e), wild, #[trigger] w.take(k))
                && seq_matches(s.skip(e), wild, w.skip(k))
    }
}

/// One of the alternatives of `s` matches `w`.
pub open spec fn alt_matches(s: Seq<char>, wild: bool, w: Seq<char>) -> bool
    decreases s.len(), 4nat, 0nat,
{
    let b = bar_at(s, 0, 0);
    if b < 0 || b >= s.len() {
        seq_matches(s, wild, w)
    } else {
        seq_matches(s.take(b), wild, w) || alt_matches(s.skip(b + 1), wild, w)
    }
}

/// The expression `r`, which stands between `^` and `$`, matches `w`.
pub open spec fn text_matches(r: Seq<char>, wild: bool, w: Seq<char>) -> bool {
    &&& r.len() >= 2
    &&& r[0] == '^'
    &&& r.last() == '$'
    &&& alt_matches(r.subrange(1, r.len() - 1), wild, w)
}

/// `w` falls into parts that `x` matches, none of them empty.
pub open spec fn repeated(x: Seq<char>, wild: bool, w: Seq<char>) -> bool
    decreases w.len(),
{
    w.len() == 0 || exists|k: int|
        0 < k <= w.len() && seq_matches(x, wild, #[trigger] w.take(k)) && repeated(
            x,
            wild,
            w.skip(k),
        )
}

// -------------------------------------------------------------------------
// Texts that read as factors
// -------------------------------------------------------------------------

/// `s` is factors one after the other.
pub open spec fn factors(s: Seq<char>) -> bool
    decreases s.len(),
{
    s.len() == 0 || {
        let e = factor_end(s);
        0 < e <= s.len() && factors(s.skip(e))
    }
}

/// No bar of `s` stands outside every group.
pub open spec fn bar_free(s: Seq<char>) -> bool {
    forall|j: int| 0 <= j < s.len() && s[j] == '|' ==> #[trigger] level(s, j) > 0
}

/// `s` is factors one after the other, with every bracket closed and
/// every bar in a group.
pub open spec fn tidy(s: Seq<char>) -> bool {
    balanced(s) && bar_free(s) && factors(s)
}

/// A group that is closed in a text is closed there whatever follows the
/// text.
pub proof fn lemma_group_end_head(x: Seq<char>, y: Seq<char>, i: int, depth: nat)
    requires
        0 <= i <= x.len(),
        group_end(x, i, depth) >= 0,
    ensures
        group_end(x + y, i, depth) == group_end(x, i, depth),
        i <= group_end(x, i, depth) <= x.len(),
    decreases x.len() - i,
{
    if depth > 0 && i < x.len() {
        assert((x + y)[i] == x[i]);
        if x[i] == '(' {
            lemma_group_end_head(x, y, i + 1, depth + 1);
        } else if x[i] == ')' {
            lemma_group_end_head(x, y, i + 1, (depth - 1) as nat);
        } else {
            lemma_group_end_head(x, y, i + 1, depth);
        }
    }
}

/// The first factor of factors is their first factor whatever follows
/// them, if it is no `*` and no `?`.
pub proof fn lemma_factor_end_head(x: Seq<char>, y: Seq<char>)
    requires
        x.len() > 0,
        0 < factor_end(x) <= x.len(),
        y.len() == 0 || !is_postfix(y[0]),
    ensures
        factor_end(x + y) == factor_end(x),
        (x + y).take(factor_end(x)) == x.take(factor_end(x)),
        (x + y).skip(factor_end(x)) == x.skip(factor_end(x)) + y,
{
    let s = x + y;
    let a = atom_end(x);
    assert(s[0] == x[0]);
    if x[0] == '(' {
        lemma_group_end_head(x, y, 1, 1);
    }
    assert(atom_end(s) == a);
    if a < x.len() {
        assert(s[a] == x[a]);
    } else if y.len() > 0 {
        assert(s[a] == y[0]);
    }
    let e = factor_end(x);
    assert(s.take(e) =~= x.take(e));
    assert(s.skip(e) =~= x.skip(e) + y);
}

/// Factors begin with no `*` and no `?`.
pub proof fn lemma_factors_begin(y: Seq<char>)
    requires
        factors(y),
    ensures
        y.len() == 0 || !is_postfix(y[0]),
{
}

/// Factors after factors are factors.
pub proof fn lemma_factors_add(x: Seq<char>, y: Seq<char>)
    requires
        factors(x),
        factors(y),
    ensures
        factors(x + y),
    decreases x.len(),
{
    if x.len() == 0 {
        assert(x + y =~= y);
    } else {
        lemma_factors_begin(y);
        lemma_factor_end_head(x, y);
        lemma_factors_add(x.skip(factor_end(x)), y);
    }
}

/// What factors after factors match falls into what the first match and
/// what the second match.
pub proof fn lemma_seq_add(x: Seq<char>, y: Seq<char>, wild: bool, w: Seq<char>)
    requires
        factors(x),
        y.len() == 0 || !is_postfix(y[0]),
    ensures
        seq_matches(x + y, wild, w) <==> exists|k: int|
            0 <= k <= w.len() && seq_matches(x, wild, #[trigger] w.take(k)) && seq_matches(
                y,
                wild,
                w.skip(k),
            ),
    decreases x.len(),
{
    if x.len() == 0 {
        assert(x + y =~= y);
        if seq_matches(y, wild, w) {
            assert(w.skip(0) =~= w);
            assert(0 <= 0 <= w.len() && seq_matches(x, wild, w.take(0)) && seq_matches(
                y,
                wild,
                w.skip(0),
            ));
        }
        if exists|k: int|
            0 <= k <= w.len() && seq_matches(x, wild, #[trigger] w.take(k)) && seq_matches(
                y,
                wild,
                w.skip(k),
            ) {
            let k = choose|k: int|
                0 <= k <= w.len() && seq_matches(x, wild, #[trigger] w.take(k)) && seq_matches(
                    y,
                    wild,
                    w.skip(k),
                );
            assert(w.take(k).len() == k);
            assert(w.skip(0) =~= w);
        }
    } else {
        lemma_factor_end_head(x, y);
        let e = factor_end(x);
        let f = x.take(e);
        let r = x.skip(e);
        if seq_matches(x + y, wild, w) {
            let k1 = choose|k: int|
                0 <= k <= w.len() && factor_matches(f, wild, #[trigger] w.take(k)) && seq_matches(
                    r + y,
                    wild,
                    w.skip(k),
                );
            lemma_seq_add(r, y, wild, w.skip(k1));
            let k2 = choose|k: int|
                0 <= k <= w.skip(k1).len() && seq_matches(r, wild, #[trigger] w.skip(k1).take(k))
                    && seq_matches(y, wild, w.skip(k1).skip(k));
            let k = k1 + k2;
            assert(w.take(k).take(k1) =~= w.take(k1));
            assert(w.take(k).skip(k1) =~= w.skip(k1).take(k2));
            assert(w.skip(k) =~= w.skip(k1).skip(k2));
            assert(0 <= k1 <= w.take(k).len() && factor_matches(f, wild, w.take(k).take(k1))
                && seq_matches(r, wild, w.take(k).skip(k1)));
            assert(seq_matches(x, wild, w.take(k)));
        }
        if exists|k: int|
            0 <= k <= w.len() && seq_matches(x, wild, #[trigger] w.take(k)) && seq_matches(
                y,
                wild,
                w.skip(k),
            ) {
            let k = choose|k: int|
                0 <= k <= w.len() && seq_matches(x, wild, #[trigger] w.take(k)) && seq_matches(
                    y,
                    wild,
                    w.skip(k),
                );
            let k1 = choose|k1: int|
                0 <= k1 <= w.take(k).len() && factor_matches(f, wild, #[trigger] w.take(k).take(k1))
                    && seq_matches(r, wild, w.take(k).skip(k1));
            let k2 = k - k1;
            assert(w.take(k).take(k1) =~= w.take(k1));
            assert(w.take(k).skip(k1) =~= w.skip(k1).take(k2));
            assert(w.skip(k) =~= w.skip(k1).skip(k2));
            lemma_seq_add(r, y, wild, w.skip(k1));
            assert(0 <= k2 <= w.skip(k1).len() && seq_matches(r, wild, w.skip(k1).take(k2))
                && seq_matches(y, wild, w.skip(k1).skip(k2)));
            assert(seq_matches(r + y, wild, w.skip(k1)));
            assert(0 <= k1 <= w.len() && factor_matches(f, wild, w.take(k1)) && seq_matches(
                (x + y).skip(e),
                wild,
                w.skip(k1),
            ));
        }
    }
}

// -------------------------------------------------------------------------
// Single factors
// -------------------------------------------------------------------------

/// A text that is one factor matches what the factor matches.
pub proof fn lemma_one_factor(s: Seq<char>, wild: bool, w: Seq<char>)
    requires
        s.len() > 0,
        factor_end(s) == s.len(),
    ensures
        factors(s),
        seq_matches(s, wild, w) <==> factor_matches(s, wild, w),
{
    let e = factor_end(s);
    assert(s.take(e) =~= s);
    assert(s.skip(e) =~= Seq::<char>::empty());
    assert(factors(s.skip(e)));
    if seq_matches(s, wild, w) {
        let k = choose|k: int|
            0 <= k <= w.len() && factor_matches(s.take(e), wild, #[trigger] w.take(k))
                && seq_matches(s.skip(e), wild, w.skip(k));
        assert(w.take(k) =~= w);
    }
    if factor_matches(s, wild, w) {
        let k = w.len() as int;
        assert(w.take(k) =~= w);
        assert(w.skip(k) =~= Seq::<char>::empty());
        assert(0 <= k <= w.len() && factor_matches(s.take(e), wild, w.take(k)) && seq_matches(
            s.skip(e),
            wild,
            w.skip(k),
        ));
    }
}

/// The empty text is tidy and matches the empty string alone.
pub proof fn lemma_tidy_empty()
    ensures
        tidy(Seq::<char>::empty()),
{
    let s = Seq::<char>::empty();
    assert forall|n: int| 0 <= n <= s.len() implies #[trigger] level(s, n) >= 0 by {}
}

/// A character that is no mark is tidy and matches itself.
pub proof fn lemma_tidy_char(c: char, wild: bool, w: Seq<char>)
    requires
        !is_mark(c),
    ensures
        tidy(seq![c]),
        seq_matches(seq![c], wild, w) <==> w.len() == 1 && label_matches(c, w[0], wild),
{
    let s = seq![c];
    assert(s[0] == c);
    assert(level(s, 1) == level(s, 0) + weight(s[0]));
    assert forall|n: int| 0 <= n <= s.len() implies #[trigger] level(s, n) >= 0 by {
        if n == 1 {
        }
    }
    lemma_one_factor(s, wild, w);
}

/// The levels of a text in brackets are one above its own.
pub proof fn lemma_wrapped_level(x: Seq<char>, n: int)
    requires
        0 <= n <= x.len(),
    ensures
        level(wrapped(x), n + 1) == level(x, n) + 1,
        level(wrapped(x), 0) == 0,
        level(wrapped(x), (x.len() + 2) as int) == level(x, x.len() as int),
{
    let o = seq!['('];
    let c = seq![')'];
    assert(level(o, 1) == level(o, 0) + weight(o[0]));
    assert(level(c, 1) == level(c, 0) + weight(c[0]));
    lemma_level_head(o + x, c, n + 1);
    lemma_level_tail(o, x, n);
    lemma_level_tail(o + x, c, 1);
    lemma_level_tail(o, x, x.len() as int);
}

/// A balanced text in brackets is one group, is tidy, and matches what
/// the alternatives of the text match.
pub proof fn lemma_wrapped(x: Seq<char>, wild: bool, w: Seq<char>)
    requires
        balanced(x),
    ensures
        tidy(wrapped(x)),
        is_group(wrapped(x)),
        atom_end(wrapped(x)) == wrapped(x).len(),
        atom_matches(wrapped(x), wild, w) <==> alt_matches(x, wild, w),
        seq_matches(wrapped(x), wild, w) <==> alt_matches(x, wild, w),
{
    let s = wrapped(x);
    assert(s.subrange(1, 1 + x.len() as int) =~= x);
    assert(s[1 + x.len() as int] == ')');
    lemma_group_ends(s, 1, x);
    assert(s.subrange(1, s.len() - 1) =~= x);
    lemma_one_factor(s, wild, w);
    assert forall|n: int| 0 <= n <= s.len() implies #[trigger] level(s, n) >= 0 by {
        if n == 0 {
            lemma_wrapped_level(x, 0);
        } else if n <= x.len() + 1 {
            lemma_wrapped_level(x, n - 1);
            assert(level(x, n - 1) >= 0);
        } else {
            lemma_wrapped_level(x, x.len() as int);
        }
    }
    lemma_wrapped_level(x, x.len() as int);
    assert forall|j: int| 0 <= j < s.len() && s[j] == '|' implies #[trigger] level(s, j) > 0 by {
        lemma_wrapped_level(x, j - 1);
        assert(level(x, j - 1) >= 0);
    }
}

// -------------------------------------------------------------------------
// Bars
// -------------------------------------------------------------------------

/// The bar that is found is the first that stands in no group.
pub proof fn lemma_bar_at(s: Seq<char>, i: int)
    requires
        0 <= i <= s.len(),
    ensures
        i <= bar_at(s, i, level(s, i)) <= s.len(),
        forall|j: int|
            i <= j < bar_at(s, i, level(s, i)) ==> !(s[j] == '|' && #[trigger] level(s, j) == 0),
        bar_at(s, i, level(s, i)) < s.len() ==> s[bar_at(s, i, level(s, i))] == '|' && level(
            s,
            bar_at(s, i, level(s, i)),
        ) == 0,
    decreases s.len() - i,
{
    if i < s.len() && !(s[i] == '|' && level(s, i) == 0) {
        assert(level(s, i + 1) == level(s, i) + weight(s[i]));
        lemma_bar_at(s, i + 1);
    }
}

/// A text without a bar outside its groups is one alternative.
pub proof fn lemma_no_bar(s: Seq<char>, wild: bool, w: Seq<char>)
    requires
        bar_free(s),
    ensures
        alt_matches(s, wild, w) <==> seq_matches(s, wild, w),
{
    lemma_bar_at(s, 0);
    let b = bar_at(s, 0, 0);
    if b < s.len() {
        assert(level(s, b) > 0);
    }
}

/// Two texts with a bar between them match what one of them matches.
pub proof fn lemma_alternatives(f: Seq<char>, t: Seq<char>, wild: bool, w: Seq<char>)
    requires
        balanced(f),
        bar_free(f),
        bar_free(t),
    ensures
        alt_matches(f + seq!['|'] + t, wild, w) <==> seq_matches(f, wild, w) || seq_matches(
            t,
            wild,
            w,
        ),
{
    let s = f + seq!['|'] + t;
    let n = f.len() as int;
    lemma_bar_at(s, 0);
    let b = bar_at(s, 0, 0);
    assert(s[n] == '|');
    lemma_level_head(f + seq!['|'], t, n);
    lemma_level_head(f, seq!['|'], n);
    assert(level(s, n) == 0);
    if b < n {
        assert(s[b] == f[b]);
        lemma_level_head(f + seq!['|'], t, b);
        lemma_level_head(f, seq!['|'], b);
        assert(level(f, b) > 0);
    }
    assert(b == n);
    assert(s.take(n) =~= f);
    assert(s.skip(n + 1) =~= t);
    lemma_no_bar(t, wild, w);
}

/// What stands behind a bar outside every group is balanced if the
/// whole is.
pub proof fn lemma_balanced_behind(x: Seq<char>, b: int)
    requires
        balanced(x),
        0 <= b < x.len(),
        level(x, b + 1) == 0,
    ensures
        balanced(x.skip(b + 1)),
{
    let head = x.take(b + 1);
    let rest = x.skip(b + 1);
    assert(head + rest =~= x);
    lemma_level_head(head, rest, b + 1);
    assert forall|n: int| 0 <= n <= rest.len() implies #[trigger] level(rest, n) >= 0 by {
        lemma_level_tail(head, rest, n);
        assert(level(x, b + 1 + n) >= 0);
    }
    lemma_level_tail(head, rest, rest.len() as int);
}

/// Alternatives with one more alternative behind them match what they
/// matched and what the new one matches.
pub proof fn lemma_alternatives_more(xa: Seq<char>, xc: Seq<char>, wild: bool, w: Seq<char>)
    requires
        balanced(xa),
        bar_free(xc),
    ensures
        alt_matches(xa + seq!['|'] + xc, wild, w) <==> alt_matches(xa, wild, w) || seq_matches(
            xc,
            wild,
            w,
        ),
    decreases xa.len(),
{
    let s = xa + seq!['|'] + xc;
    let n = xa.len() as int;
    lemma_bar_at(xa, 0);
    let b = bar_at(xa, 0, 0);
    if b >= n {
        assert forall|j: int| 0 <= j < xa.len() && xa[j] == '|' implies #[trigger] level(xa, j)
            > 0 by {
            assert(level(xa, j) >= 0);
        }
        lemma_alternatives(xa, xc, wild, w);
        lemma_no_bar(xa, wild, w);
    } else {
        lemma_bar_at(s, 0);
        let bs = bar_at(s, 0, 0);
        assert forall|j: int| 0 <= j <= n implies #[trigger] level(s, j) == level(xa, j) by {
            lemma_level_head(xa + seq!['|'], xc, j);
            lemma_level_head(xa, seq!['|'], j);
        }
        assert(s[b] == xa[b]);
        assert(level(s, b) == 0);
        if bs < b {
            assert(s[bs] == xa[bs]);
            assert(level(xa, bs) == 0);
        }
        assert(bs == b);
        assert(s.take(b) =~= xa.take(b));
        assert(s.skip(b + 1) =~= xa.skip(b + 1) + seq!['|'] + xc);
        assert(level(xa, b + 1) == level(xa, b) + weight(xa[b]));
        lemma_balanced_behind(xa, b);
        lemma_alternatives_more(xa.skip(b + 1), xc, wild, w);
    }
}

// -------------------------------------------------------------------------
// Tidy texts
// -------------------------------------------------------------------------

/// Tidy texts one after the other are tidy.
pub proof fn lemma_tidy_add(x: Seq<char>, y: Seq<char>)
    requires
        tidy(x),
        tidy(y),
    ensures
        tidy(x + y),
{
    lemma_balanced_add(x, y);
    lemma_factors_add(x, y);
    let s = x + y;
    assert forall|j: int| 0 <= j < s.len() && s[j] == '|' implies #[trigger] level(s, j) > 0 by {
        if j < x.len() {
            lemma_level_head(x, y, j);
            assert(s[j] == x[j]);
        } else {
            lemma_level_tail(x, y, j - x.len());
            assert(s[j] == y[j - x.len()]);
        }
    }
}

/// A tidy text of one character is no mark.
pub proof fn lemma_tidy_one(x: Seq<char>)
    requires
        tidy(x),
        x.len() == 1,
    ensures
        !is_mark(x[0]),
        atom_end(x) == 1,
{
    if x[0] == '(' {
        assert(group_end(x, 1, 1) == -1);
    }
}

/// A tidy text, in brackets where needed, is one character or group,
/// which matches what the text matches.
pub proof fn lemma_needed(x: Seq<char>, wild: bool, w: Seq<char>)
    requires
        tidy(x),
    ensures
        tidy(wrapped_if_needed(x)),
        atom_end(wrapped_if_needed(x)) == wrapped_if_needed(x).len(),
        atom_matches(wrapped_if_needed(x), wild, w) <==> seq_matches(x, wild, w),
{
    if x.len() == 1 {
        lemma_tidy_one(x);
        lemma_one_factor(x, wild, w);
    } else if is_group(x) {
        lemma_one_factor(x, wild, w);
    } else {
        lemma_wrapped(x, wild, w);
        lemma_no_bar(x, wild, w);
    }
}

/// One character or group with a `*` or `?` behind it is tidy and one
/// factor.
pub proof fn lemma_postfix(a: Seq<char>, op: char, wild: bool, w: Seq<char>)
    requires
        tidy(a),
        atom_end(a) == a.len(),
        is_postfix(op),
    ensures
        tidy(a + seq![op]),
        seq_matches(a + seq![op], wild, w) <==> factor_matches(a + seq![op], wild, w),
        (a + seq![op]).drop_last() == a,
        (a + seq![op]).last() == op,
        (a + seq![op]).len() >= 2,
{
    let s = a + seq![op];
    let n = a.len() as int;
    assert(s[0] == a[0]);
    if a[0] == '(' {
        lemma_group_end_head(a, seq![op], 1, 1);
    }
    assert(atom_end(s) == n);
    assert(s[n] == op);
    assert(factor_end(s) == n + 1);
    lemma_one_factor(s, wild, w);
    assert(s.drop_last() =~= a);
    assert forall|k: int| 0 <= k <= s.len() implies #[trigger] level(s, k) >= 0 by {
        if k <= n {
            lemma_level_head(a, seq![op], k);
        } else {
            lemma_level_head(a, seq![op], n);
            assert(level(s, n + 1) == level(s, n) + weight(s[n]));
        }
    }
    lemma_level_head(a, seq![op], n);
    assert(level(s, n + 1) == level(s, n) + weight(s[n]));
    assert forall|j: int| 0 <= j < s.len() && s[j] == '|' implies #[trigger] level(s, j) > 0 by {
        lemma_level_head(a, seq![op], j);
        assert(s[j] == a[j]);
    }
}

/// What one character or group matches again and again is what the text
/// in it matches again and again.
pub proof fn lemma_star_repeated(x: Seq<char>, wild: bool, w: Seq<char>)
    requires
        tidy(x),
    ensures
        star_matches(wrapped_if_needed(x), wild, w) <==> repeated(x, wild, w),
    decreases w.len(),
{
    let a = wrapped_if_needed(x);
    if w.len() > 0 {
        assert forall|k: int| 0 < k <= w.len() implies (atom_matches(a, wild, #[trigger] w.take(k))
            <==> seq_matches(x, wild, w.take(k))) && (star_matches(a, wild, w.skip(k))
            <==> repeated(x, wild, w.skip(k))) by {
            lemma_needed(x, wild, w.take(k));
            lemma_star_repeated(x, wild, w.skip(k));
        }
        if star_matches(a, wild, w) {
            let k = choose|k: int|
                0 < k <= w.len() && atom_matches(a, wild, #[trigger] w.take(k)) && star_matches(
                    a,
                    wild,
                    w.skip(k),
                );
            assert(0 < k <= w.len() && seq_matches(x, wild, w.take(k)) && repeated(
                x,
                wild,
                w.skip(k),
            ));
        }
        if repeated(x, wild, w) {
            let k = choose|k: int|
                0 < k <= w.len() && seq_matches(x, wild, #[trigger] w.take(k)) && repeated(
                    x,
                    wild,
                    w.skip(k),
                );
            assert(0 < k <= w.len() && atom_matches(a, wild, w.take(k)) && star_matches(
                a,
                wild,
                w.skip(k),
            ));
        }
    }
}

/// A tidy text with a `*` behind it, in brackets where needed, is tidy
/// and matches what the text matches again and again.
pub proof fn lemma_starred(x: Seq<char>, wild: bool, w: Seq<char>)
    requires
        tidy(x),
    ensures
        tidy(wrapped_if_needed(x) + seq!['*']),
        seq_matches(wrapped_if_needed(x) + seq!['*'], wild, w) <==> repeated(x, wild, w),
{
    lemma_needed(x, wild, w);
    lemma_postfix(wrapped_if_needed(x), '*', wild, w);
    lemma_star_repeated(x, wild, w);
}

/// A tidy text with a `?` behind it, in brackets where needed, is tidy
/// and matches the empty string and what the text matches.
pub proof fn lemma_optional(x: Seq<char>, wild: bool, w: Seq<char>)
    requires
        tidy(x),
    ensures
        tidy(wrapped_if_needed(x) + seq!['?']),
        seq_matches(wrapped_if_needed(x) + seq!['?'], wild, w) <==> w.len() == 0 || seq_matches(
            x,
            wild,
            w,
        ),
{
    lemma_needed(x, wild, w);
    lemma_postfix(wrapped_if_needed(x), '?', wild, w);
}

// -------------------------------------------------------------------------
// The way through a removed state
// -------------------------------------------------------------------------

/// What can be read on the loop at a state: what its label matches again
/// and again, or nothing if it has none.
pub open spec fn around(c: Option<Seq<char>>, wild: bool, u: Seq<char>) -> bool {
    match c {
        Some(x) => repeated(x, wild, u),
        None => u.len() == 0,
    }
}

/// `w` is read into a state up to `a`, on its loop up to `b`, and out of
/// it from there.
pub open spec fn passes(
    incoming: Seq<char>,
    cyclic: Option<Seq<char>>,
    outcoming: Seq<char>,
    wild: bool,
    w: Seq<char>,
    a: int,
    b: int,
) -> bool {
    &&& 0 <= a <= b <= w.len()
    &&& seq_matches(incoming, wild, w.take(a))
    &&& around(cyclic, wild, w.subrange(a, b))
    &&& seq_matches(outcoming, wild, w.skip(b))
}

/// `w` is read into a state, on its loop and out of it.
pub open spec fn goes_through(
    incoming: Seq<char>,
    cyclic: Option<Seq<char>>,
    outcoming: Seq<char>,
    wild: bool,
    w: Seq<char>,
) -> bool {
    exists|a: int, b: int| #[trigger] passes(incoming, cyclic, outcoming, wild, w, a, b)
}

/// The text of the way through a state is tidy and matches what is read
/// into the state, on its loop and out of it.
pub proof fn lemma_through(
    incoming: Seq<char>,
    cyclic: Option<Seq<char>>,
    outcoming: Seq<char>,
    wild: bool,
    w: Seq<char>,
)
    requires
        tidy(incoming),
        tidy(outcoming),
        cyclic matches Some(x) ==> tidy(x),
    ensures
        tidy(through(incoming, cyclic, outcoming)),
        seq_matches(through(incoming, cyclic, outcoming), wild, w) <==> goes_through(
            incoming,
            cyclic,
            outcoming,
            wild,
            w,
        ),
{
    let t = through(incoming, cyclic, outcoming);
    match cyclic {
        None => {
            lemma_tidy_add(incoming, outcoming);
            lemma_factors_begin(outcoming);
            lemma_seq_add(incoming, outcoming, wild, w);
            if seq_matches(t, wild, w) {
                let k = choose|k: int|
                    0 <= k <= w.len() && seq_matches(incoming, wild, #[trigger] w.take(k))
                        && seq_matches(outcoming, wild, w.skip(k));
                assert(passes(incoming, cyclic, outcoming, wild, w, k, k));
            }
            if goes_through(incoming, cyclic, outcoming, wild, w) {
                let (a, b) = choose|a: int, b: int| #[trigger]
                    passes(incoming, cyclic, outcoming, wild, w, a, b);
                assert(w.subrange(a, b).len() == b - a);
                assert(0 <= a <= w.len() && seq_matches(incoming, wild, w.take(a)) && seq_matches(
                    outcoming,
                    wild,
                    w.skip(a),
                ));
            }
        },
        Some(x) => {
            let m = wrapped_if_needed(x) + seq!['*'];
            lemma_starred(x, wild, w);
            lemma_tidy_add(m, outcoming);
            lemma_tidy_add(incoming, m + outcoming);
            assert(t =~= incoming + (m + outcoming));
            lemma_factors_begin(m + outcoming);
            lemma_factors_begin(outcoming);
            lemma_seq_add(incoming, m + outcoming, wild, w);
            if seq_matches(t, wild, w) {
                let a = choose|a: int|
                    0 <= a <= w.len() && seq_matches(incoming, wild, #[trigger] w.take(a))
                        && seq_matches(m + outcoming, wild, w.skip(a));
                lemma_seq_add(m, outcoming, wild, w.skip(a));
                let k = choose|k: int|
                    0 <= k <= w.skip(a).len() && seq_matches(m, wild, #[trigger] w.skip(a).take(k))
                        && seq_matches(outcoming, wild, w.skip(a).skip(k));
                let b = a + k;
                assert(w.skip(a).take(k) =~= w.subrange(a, b));
                assert(w.skip(a).skip(k) =~= w.skip(b));
                lemma_starred(x, wild, w.subrange(a, b));
                assert(passes(incoming, cyclic, outcoming, wild, w, a, b));
            }
            if goes_through(incoming, cyclic, outcoming, wild, w) {
                let (a, b) = choose|a: int, b: int| #[trigger]
                    passes(incoming, cyclic, outcoming, wild, w, a, b);
                let k = b - a;
                assert(w.skip(a).take(k) =~= w.subrange(a, b));
                assert(w.skip(a).skip(k) =~= w.skip(b));
                lemma_starred(x, wild, w.subrange(a, b));
                lemma_seq_add(m, outcoming, wild, w.skip(a));
                assert(0 <= k <= w.skip(a).len() && seq_matches(m, wild, w.skip(a).take(k))
                    && seq_matches(outcoming, wild, w.skip(a).skip(k)));
                assert(0 <= a <= w.len() && seq_matches(incoming, wild, w.take(a)) && seq_matches(
                    m + outcoming,
                    wild,
                    w.skip(a),
                ));
            }
        },
    }
}

/// The label of a transition after a state between its ends was removed
/// is tidy, and matches what its label matched before and what is read
/// on the way through the removed state.
pub proof fn lemma_spliced(
    former: Option<Seq<char>>,
    incoming: Seq<char>,
    cyclic: Option<Seq<char>>,
    outcoming: Seq<char>,
    wild: bool,
    w: Seq<char>,
)
    requires
        tidy(incoming),
        tidy(outcoming),
        cyclic matches Some(x) ==> tidy(x),
        former matches Some(f) ==> tidy(f),
    ensures
        tidy(spliced_label(former, incoming, cyclic, outcoming)),
        seq_matches(spliced_label(former, incoming, cyclic, outcoming), wild, w) <==> (
        former matches Some(f) && seq_matches(f, wild, w)) || goes_through(
            incoming,
            cyclic,
            outcoming,
            wild,
            w,
        ),
{
    let t = through(incoming, cyclic, outcoming);
    let l = spliced_label(former, incoming, cyclic, outcoming);
    lemma_through(incoming, cyclic, outcoming, wild, w);
    if unfolds(former, incoming, cyclic, outcoming) {
        lemma_starred(incoming, wild, w);
        if repeated(incoming, wild, w) && w.len() > 0 {
            let k = choose|k: int|
                0 < k <= w.len() && seq_matches(incoming, wild, #[trigger] w.take(k)) && repeated(
                    incoming,
                    wild,
                    w.skip(k),
                );
            let n = w.len() as int;
            assert(w.subrange(k, n) =~= w.skip(k));
            assert(w.skip(n) =~= Seq::<char>::empty());
            assert(passes(incoming, cyclic, outcoming, wild, w, k, n));
        }
        if goes_through(incoming, cyclic, outcoming, wild, w) {
            let (a, b) = choose|a: int, b: int| #[trigger]
                passes(incoming, cyclic, outcoming, wild, w, a, b);
            assert(w.skip(b).len() == 0);
            assert(w.subrange(a, b) =~= w.skip(a));
            if a == 0 {
                assert(w.skip(0) =~= w);
            } else {
                assert(0 < a <= w.len() && seq_matches(incoming, wild, w.take(a)) && repeated(
                    incoming,
                    wild,
                    w.skip(a),
                ));
            }
        }
    } else {
        match former {
            None => {},
            Some(f) => {
                if f.len() == 0 {
                    lemma_optional(t, wild, w);
                } else {
                    let inner = f + seq!['|'] + t;
                    lemma_alternatives(f, t, wild, w);
                    assert(balanced(inner)) by {
                        let bar = seq!['|'];
                        assert(level(bar, 1) == level(bar, 0) + weight(bar[0]));
                        assert forall|n: int| 0 <= n <= bar.len() implies #[trigger] level(bar, n)
                            >= 0 by {
                            if n == 1 {
                            }
                        }
                        lemma_balanced_add(f, bar);
                        lemma_balanced_add(f + bar, t);
                    }
                    lemma_wrapped(inner, wild, w);
                }
            },
        }
    }
}

// -------------------------------------------------------------------------
// An expression followed by anything
// -------------------------------------------------------------------------

/// With `.` for any character, `.` repeated matches every string.
pub proof fn lemma_anything(u: Seq<char>)
    ensures
        repeated(seq!['.'], true, u),
    decreases u.len(),
{
    if u.len() > 0 {
        lemma_anything(u.skip(1));
        lemma_tidy_char('.', true, u.take(1));
        assert(u.take(1)[0] == u[0]);
        assert(0 < 1 <= u.len() && seq_matches(seq!['.'], true, u.take(1)) && repeated(
            seq!['.'],
            true,
            u.skip(1),
        ));
    }
}

/// With `.` for any character, a balanced text in brackets with `.*`
/// behind it matches a string exactly if the text matches what the string
/// begins with.
pub proof fn lemma_followed_by_anything(x: Seq<char>, v: Seq<char>)
    requires
        balanced(x),
    ensures
        alt_matches(wrapped(x) + seq!['.', '*'], true, v) <==> exists|j: int|
            0 <= j <= v.len() && alt_matches(x, true, #[trigger] v.take(j)),
{
    let group = wrapped(x);
    let dot = seq!['.'];
    let any = wrapped_if_needed(dot) + seq!['*'];
    let text = group + seq!['.', '*'];
    assert(any =~= seq!['.', '*']);
    lemma_wrapped(x, true, v);
    lemma_tidy_char('.', true, v);
    lemma_starred(dot, true, v);
    lemma_tidy_add(group, any);
    lemma_factors_begin(any);
    lemma_seq_add(group, any, true, v);
    lemma_no_bar(text, true, v);
    assert forall|k: int| 0 <= k <= v.len() implies (seq_matches(group, true, #[trigger] v.take(k))
        <==> alt_matches(x, true, v.take(k))) && seq_matches(any, true, v.skip(k)) by {
        lemma_wrapped(x, true, v.take(k));
        lemma_starred(dot, true, v.skip(k));
        lemma_anything(v.skip(k));
    }
    if seq_matches(text, true, v) {
        let k = choose|k: int|
            0 <= k <= v.len() && seq_matches(group, true, #[trigger] v.take(k)) && seq_matches(
                any,
                true,
                v.skip(k),
            );
        assert(0 <= k <= v.len() && alt_matches(x, true, v.take(k)));
    }
    if exists|j: int| 0 <= j <= v.len() && alt_matches(x, true, #[trigger] v.take(j)) {
        let j = choose|j: int| 0 <= j <= v.len() && alt_matches(x, true, #[trigger] v.take(j));
        assert(0 <= j <= v.len() && seq_matches(group, true, v.take(j)) && seq_matches(
            any,
            true,
            v.skip(j),
        ));
    }
}

} // verus!
