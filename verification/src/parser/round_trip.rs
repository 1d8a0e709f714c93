//! The text of the tokens of an expression gives the same tokens again.
use vstd::prelude::*;
use crate::parser::TokenView;
use crate::parser::bracket_end;
use crate::parser::close_of;
use crate::parser::doubled;
use crate::parser::ends_the_string;
use crate::parser::group_end;
use crate::parser::kept_prefix;
use crate::parser::redundant;
use crate::parser::bracketed;
use crate::parser::BracketsTokenType;
use crate::parser::ParseError;
use crate::parser::flushed;
use crate::parser::lemma_extract_bounds;
use crate::parser::lemma_tokens_text_add;
use crate::parser::lemma_tokens_text_push;
use crate::parser::look_tokens_at;
use crate::parser::regex_tokens_at;
use crate::parser::spec_extract;
use crate::parser::token_text;
use crate::parser::spec_parse;
use crate::parser::Group;
use crate::parser::group_kind;
use crate::parser::tokens_text;

verus! {

// -------------------------------------------------------------------------
// Brackets in texts
// -------------------------------------------------------------------------

/// What `c` adds to the number of open brackets.
pub open spec fn weight(c: char) -> int {
    if c == '(' {
        1
    } else if c == ')' {
        -1
    } else {
        0
    }
}

/// The number of brackets that the first `n` characters of `x` leave open.
pub open spec fn level(x: Seq<char>, n: int) -> int
    decreases n,
{
    if n <= 0 {
        0
    } else {
        level(x, n - 1) + weight(x[n - 1])
    }
}

/// Every bracket of `x` is closed in `x`, and none is closed that was not
/// opened.
pub open spec fn balanced(x: Seq<char>) -> bool {
    &&& level(x, x.len() as int) == 0
    &&& forall|n: int| 0 <= n <= x.len() ==> #[trigger] level(x, n) >= 0
}

/// `x` holds no bracket.
pub open spec fn bracket_free(x: Seq<char>) -> bool {
    forall|k: int| 0 <= k < x.len() ==> #[trigger] x[k] != '(' && x[k] != ')'
}

/// The levels of the first of two texts are its own.
pub proof fn lemma_level_head(x: Seq<char>, y: Seq<char>, n: int)
    requires
        0 <= n <= x.len(),
    ensures
        level(x + y, n) == level(x, n),
    decreases n,
{
    if n > 0 {
        lemma_level_head(x, y, n - 1);
        assert((x + y)[n - 1] == x[n - 1]);
    }
}

/// The levels of the second of two texts go on from the level of the first.
pub proof fn lemma_level_tail(x: Seq<char>, y: Seq<char>, n: int)
    requires
        0 <= n <= y.len(),
    ensures
        level(x + y, x.len() + n) == level(x, x.len() as int) + level(y, n),
    decreases n,
{
    if n > 0 {
        lemma_level_tail(x, y, n - 1);
        assert((x + y)[x.len() + n - 1] == y[n - 1]);
    } else {
        lemma_level_head(x, y, x.len() as int);
    }
}

/// Without brackets nothing is left open.
pub proof fn lemma_bracket_free_level(x: Seq<char>, n: int)
    requires
        bracket_free(x),
        0 <= n <= x.len(),
    ensures
        level(x, n) == 0,
    decreases n,
{
    if n > 0 {
        lemma_bracket_free_level(x, n - 1);
        assert(x[n - 1] != '(' && x[n - 1] != ')');
    }
}

/// A text without brackets is balanced.
pub proof fn lemma_bracket_free_balanced(x: Seq<char>)
    requires
        bracket_free(x),
    ensures
        balanced(x),
{
    assert forall|n: int| 0 <= n <= x.len() implies #[trigger] level(x, n) >= 0 by {
        lemma_bracket_free_level(x, n);
    }
    lemma_bracket_free_level(x, x.len() as int);
}

/// Balanced texts one after the other are balanced.
pub proof fn lemma_balanced_add(x: Seq<char>, y: Seq<char>)
    requires
        balanced(x),
        balanced(y),
    ensures
        balanced(x + y),
{
    assert forall|n: int| 0 <= n <= (x + y).len() implies #[trigger] level(x + y, n) >= 0 by {
        if n <= x.len() {
            lemma_level_head(x, y, n);
        } else {
            lemma_level_tail(x, y, n - x.len());
            assert(level(y, n - x.len()) >= 0);
        }
    }
    lemma_level_tail(x, y, y.len() as int);
}

/// A balanced text in a group is balanced, where the group opens with one
/// bracket and characters that are none.
pub proof fn lemma_balanced_group(open: Seq<char>, x: Seq<char>)
    requires
        open.len() >= 1,
        open[0] == '(',
        bracket_free(open.skip(1)),
        balanced(x),
    ensures
        balanced(open + x + seq![')']),
{
    let head = seq!['('];
    let rest = open.skip(1);
    assert(open =~= head + rest);
    assert(level(head, 1) == level(head, 0) + weight(head[0]));
    assert forall|n: int| 0 <= n <= open.len() implies level(open, n) == if n == 0 {
        0int
    } else {
        1int
    } by {
        if n > 0 {
            lemma_level_tail(head, rest, n - 1);
            lemma_bracket_free_level(rest, n - 1);
        }
    }
    let close = seq![')'];
    let whole = open + x + close;
    assert(level(close, 1) == level(close, 0) + weight(close[0]));
    assert forall|n: int| 0 <= n <= whole.len() implies #[trigger] level(whole, n) >= 0 by {
        if n <= open.len() {
            lemma_level_head(open + x, close, n);
            lemma_level_head(open, x, n);
        } else if n <= open.len() + x.len() {
            lemma_level_head(open + x, close, n);
            lemma_level_tail(open, x, n - open.len());
            assert(level(x, n - open.len()) >= 0);
        } else {
            lemma_level_tail(open + x, close, 1);
            lemma_level_tail(open, x, x.len() as int);
        }
    }
    lemma_level_tail(open + x, close, 1);
    lemma_level_tail(open, x, x.len() as int);
}

/// Reading on over the first `k` characters of a balanced part of `s`
/// leaves open what they leave open.
proof fn lemma_scan_part(s: Seq<char>, i: int, x: Seq<char>, depth: nat, k: int)
    requires
        0 <= i,
        i + x.len() <= s.len(),
        s.subrange(i, i + x.len()) == x,
        forall|n: int| 0 <= n <= x.len() ==> #[trigger] level(x, n) >= 0,
        depth >= 1,
        0 <= k <= x.len(),
    ensures
        group_end(s, i + k, (depth + level(x, k)) as nat) == group_end(
            s,
            i + x.len(),
            (depth + level(x, x.len() as int)) as nat,
        ),
    decreases x.len() - k,
{
    if k < x.len() {
        assert(level(x, k) >= 0);
        assert(level(x, k + 1) >= 0);
        assert(level(x, k + 1) == level(x, k) + weight(x[k]));
        assert(s[i + k] == x[k]);
        lemma_scan_part(s, i, x, depth, k + 1);
    }
}

/// Reading on over a balanced part of `s` changes nothing.
pub proof fn lemma_scan(s: Seq<char>, i: int, x: Seq<char>, depth: nat)
    requires
        0 <= i,
        i + x.len() <= s.len(),
        s.subrange(i, i + x.len()) == x,
        balanced(x),
        depth >= 1,
    ensures
        group_end(s, i, depth) == group_end(s, i + x.len(), depth),
{
    lemma_scan_part(s, i, x, depth, 0);
}

/// A group that holds a balanced text ends behind the bracket that
/// follows the text.
pub proof fn lemma_group_ends(s: Seq<char>, i: int, x: Seq<char>)
    requires
        0 <= i,
        i + x.len() < s.len(),
        s.subrange(i, i + x.len()) == x,
        s[i + x.len()] == ')',
        balanced(x),
    ensures
        group_end(s, i, 1) == i + x.len() + 1,
{
    lemma_scan(s, i, x, 1);
    assert(group_end(s, i + x.len() + 1, 0) == i + x.len() + 1);
}

// -------------------------------------------------------------------------
// Brackets among tokens
// -------------------------------------------------------------------------

/// What `t` adds to the number of open brackets.
pub open spec fn token_weight(t: TokenView) -> int {
    if t is OpenBracket {
        1
    } else if t is CloseBracket {
        -1
    } else {
        0
    }
}

/// The number of brackets that the first `n` tokens of `ts` leave open.
pub open spec fn token_level(ts: Seq<TokenView>, n: int) -> int
    decreases n,
{
    if n <= 0 {
        0
    } else {
        token_level(ts, n - 1) + token_weight(ts[n - 1])
    }
}

/// Every bracket of `ts` is closed in `ts`, and none is closed that was
/// not opened.
pub open spec fn tokens_balanced(ts: Seq<TokenView>) -> bool {
    &&& token_level(ts, ts.len() as int) == 0
    &&& forall|n: int| 0 <= n <= ts.len() ==> #[trigger] token_level(ts, n) >= 0
}

/// The levels of the first of two runs of tokens are its own.
pub proof fn lemma_token_level_head(x: Seq<TokenView>, y: Seq<TokenView>, n: int)
    requires
        0 <= n <= x.len(),
    ensures
        token_level(x + y, n) == token_level(x, n),
    decreases n,
{
    if n > 0 {
        lemma_token_level_head(x, y, n - 1);
        assert((x + y)[n - 1] == x[n - 1]);
    }
}

/// The levels of the second of two runs of tokens go on from the level of
/// the first.
pub proof fn lemma_token_level_tail(x: Seq<TokenView>, y: Seq<TokenView>, n: int)
    requires
        0 <= n <= y.len(),
    ensures
        token_level(x + y, x.len() + n) == token_level(x, x.len() as int) + token_level(y, n),
    decreases n,
{
    if n > 0 {
        lemma_token_level_tail(x, y, n - 1);
        assert((x + y)[x.len() + n - 1] == y[n - 1]);
    } else {
        lemma_token_level_head(x, y, x.len() as int);
    }
}

/// Balanced tokens one after the other are balanced.
pub proof fn lemma_tokens_balanced_add(x: Seq<TokenView>, y: Seq<TokenView>)
    requires
        tokens_balanced(x),
        tokens_balanced(y),
    ensures
        tokens_balanced(x + y),
{
    assert forall|n: int| 0 <= n <= (x + y).len() implies #[trigger] token_level(x + y, n)
        >= 0 by {
        if n <= x.len() {
            lemma_token_level_head(x, y, n);
        } else {
            lemma_token_level_tail(x, y, n - x.len());
            assert(token_level(y, n - x.len()) >= 0);
        }
    }
    lemma_token_level_tail(x, y, y.len() as int);
}

/// A token that is no bracket keeps balanced tokens balanced.
pub proof fn lemma_tokens_balanced_push(x: Seq<TokenView>, t: TokenView)
    requires
        tokens_balanced(x),
        !(t is OpenBracket),
        !(t is CloseBracket),
    ensures
        tokens_balanced(x.push(t)),
{
    let y = seq![t];
    assert(token_level(y, 1) == token_level(y, 0) + token_weight(y[0]));
    assert(tokens_balanced(y)) by {
        assert forall|n: int| 0 <= n <= y.len() implies #[trigger] token_level(y, n) >= 0 by {
            if n == 1 {
            }
        }
    }
    lemma_tokens_balanced_add(x, y);
    assert(x.push(t) =~= x + y);
}

/// The tokens `x` between brackets.
pub open spec fn wrap(x: Seq<TokenView>) -> Seq<TokenView> {
    seq![TokenView::OpenBracket] + x + seq![TokenView::CloseBracket]
}

/// The levels of tokens between brackets are one above their own.
pub proof fn lemma_wrap_level(x: Seq<TokenView>, n: int)
    requires
        0 <= n <= x.len(),
    ensures
        token_level(wrap(x), n + 1) == token_level(x, n) + 1,
        token_level(wrap(x), 0) == 0,
        token_level(wrap(x), (x.len() + 2) as int) == token_level(x, x.len() as int),
{
    let o = seq![TokenView::OpenBracket];
    let c = seq![TokenView::CloseBracket];
    assert(token_level(o, 1) == token_level(o, 0) + token_weight(o[0]));
    assert(token_level(c, 1) == token_level(c, 0) + token_weight(c[0]));
    lemma_token_level_head(o + x, c, n + 1);
    lemma_token_level_tail(o, x, n);
    lemma_token_level_tail(o + x, c, 1);
    lemma_token_level_tail(o, x, x.len() as int);
}

/// Balanced tokens between brackets are balanced.
pub proof fn lemma_wrap_balanced(x: Seq<TokenView>)
    requires
        tokens_balanced(x),
    ensures
        tokens_balanced(wrap(x)),
{
    let w = wrap(x);
    lemma_wrap_level(x, 0);
    assert forall|n: int| 0 <= n <= w.len() implies #[trigger] token_level(w, n) >= 0 by {
        if 1 <= n <= x.len() + 1 {
            lemma_wrap_level(x, n - 1);
            assert(token_level(x, n - 1) >= 0);
        }
    }
}

/// Where the bracket that closes `depth` open brackets is found, it is a
/// closing bracket, the tokens up to it close exactly `depth` brackets,
/// and the tokens before it close fewer.
pub proof fn lemma_bracket_end_level(ts: Seq<TokenView>, i: int, depth: nat)
    requires
        0 <= i,
        depth >= 1,
        bracket_end(ts, i, depth) >= 0,
    ensures
        i <= bracket_end(ts, i, depth) < ts.len(),
        ts[bracket_end(ts, i, depth)] is CloseBracket,
        token_level(ts, bracket_end(ts, i, depth) + 1) - token_level(ts, i) == -depth,
        forall|k: int|
            i <= k <= bracket_end(ts, i, depth) ==> #[trigger] token_level(ts, k) - token_level(
                ts,
                i,
            ) > -depth,
    decreases ts.len() - i,
{
    let m = bracket_end(ts, i, depth);
    assert(token_level(ts, i + 1) == token_level(ts, i) + token_weight(ts[i]));
    if ts[i] is OpenBracket {
        lemma_bracket_end_level(ts, i + 1, depth + 1);
        assert forall|k: int| i <= k <= m implies #[trigger] token_level(ts, k) - token_level(ts, i)
            > -depth by {
            if k > i {
                assert(token_level(ts, k) - token_level(ts, i + 1) > -(depth + 1));
            }
        }
    } else if ts[i] is CloseBracket {
        if depth > 1 {
            lemma_bracket_end_level(ts, i + 1, (depth - 1) as nat);
            assert forall|k: int| i <= k <= m implies #[trigger] token_level(ts, k) - token_level(
                ts,
                i,
            ) > -depth by {
                if k > i {
                    assert(token_level(ts, k) - token_level(ts, i + 1) > -(depth - 1));
                }
            }
        }
    } else {
        lemma_bracket_end_level(ts, i + 1, depth);
        assert forall|k: int| i <= k <= m implies #[trigger] token_level(ts, k) - token_level(ts, i)
            > -depth by {
            if k > i {
                assert(token_level(ts, k) - token_level(ts, i + 1) > -depth);
            }
        }
    }
}

/// Where the tokens from `i` on close `depth` brackets, the bracket that
/// closes them is found.
pub proof fn lemma_bracket_end_found(ts: Seq<TokenView>, i: int, depth: nat)
    requires
        0 <= i <= ts.len(),
        depth >= 1,
        token_level(ts, ts.len() as int) - token_level(ts, i) <= -depth,
    ensures
        bracket_end(ts, i, depth) >= 0,
    decreases ts.len() - i,
{
    if i < ts.len() {
        assert(token_level(ts, i + 1) == token_level(ts, i) + token_weight(ts[i]));
        if ts[i] is OpenBracket {
            lemma_bracket_end_found(ts, i + 1, depth + 1);
        } else if ts[i] is CloseBracket {
            if depth > 1 {
                lemma_bracket_end_found(ts, i + 1, (depth - 1) as nat);
            }
        } else {
            lemma_bracket_end_found(ts, i + 1, depth);
        }
    }
}

/// The closing bracket that is found in `x` is found at its place where
/// `x` stands among other tokens.
pub proof fn lemma_bracket_end_shift(
    p: Seq<TokenView>,
    x: Seq<TokenView>,
    q: Seq<TokenView>,
    k: int,
    depth: nat,
)
    requires
        0 <= k,
        bracket_end(x, k, depth) >= 0,
    ensures
        bracket_end(p + x + q, p.len() + k, depth) == p.len() + bracket_end(x, k, depth),
    decreases x.len() - k,
{
    let w = p + x + q;
    if k < x.len() {
        assert(w[p.len() + k] == x[k]);
        if x[k] is OpenBracket {
            lemma_bracket_end_shift(p, x, q, k + 1, depth + 1);
        } else if x[k] is CloseBracket {
            if depth > 1 {
                lemma_bracket_end_shift(p, x, q, k + 1, (depth - 1) as nat);
            }
        } else {
            lemma_bracket_end_shift(p, x, q, k + 1, depth);
        }
    }
}

/// In balanced tokens every opening bracket has its closing bracket.
pub proof fn lemma_open_is_closed(x: Seq<TokenView>, o: int)
    requires
        tokens_balanced(x),
        0 <= o < x.len(),
        x[o] is OpenBracket,
    ensures
        o < close_of(x, o) < x.len(),
{
    assert(token_level(x, o + 1) == token_level(x, o) + token_weight(x[o]));
    assert(token_level(x, o) >= 0);
    lemma_bracket_end_found(x, o + 1, 1);
    lemma_bracket_end_level(x, o + 1, 1);
}

/// Reading on over the first `k` tokens of a balanced part of `ts` leaves
/// open what they leave open.
proof fn lemma_token_scan_part(ts: Seq<TokenView>, i: int, x: Seq<TokenView>, depth: nat, k: int)
    requires
        0 <= i,
        i + x.len() <= ts.len(),
        ts.subrange(i, i + x.len()) == x,
        forall|n: int| 0 <= n <= x.len() ==> #[trigger] token_level(x, n) >= 0,
        depth >= 1,
        0 <= k <= x.len(),
    ensures
        bracket_end(ts, i + k, (depth + token_level(x, k)) as nat) == bracket_end(
            ts,
            i + x.len(),
            (depth + token_level(x, x.len() as int)) as nat,
        ),
    decreases x.len() - k,
{
    if k < x.len() {
        assert(token_level(x, k) >= 0);
        assert(token_level(x, k + 1) >= 0);
        assert(token_level(x, k + 1) == token_level(x, k) + token_weight(x[k]));
        assert(ts[i + k] == x[k]);
        lemma_token_scan_part(ts, i, x, depth, k + 1);
    }
}

/// The bracket that opens `wrap(x)` is closed by the one that ends it.
pub proof fn lemma_wrap_closes(x: Seq<TokenView>)
    requires
        tokens_balanced(x),
    ensures
        close_of(wrap(x), 0) == x.len() + 1,
{
    let w = wrap(x);
    assert(w.subrange(1, 1 + x.len() as int) =~= x);
    lemma_token_scan_part(w, 1, x, 1, 0);
    assert(w[x.len() as int + 1] is CloseBracket);
}

/// The first bracket of `x` is closed by its last token.
pub open spec fn spanning(x: Seq<TokenView>) -> bool {
    x.len() >= 2 && x[0] is OpenBracket && close_of(x, 0) == x.len() - 1
}

/// No pair of brackets of `x` encloses nothing but another pair.
pub open spec fn undoubled(x: Seq<TokenView>) -> bool {
    forall|o: int| !#[trigger] doubled(x, o)
}

/// `x` without its first and last token if they are one pair of brackets.
pub open spec fn kernel(x: Seq<TokenView>) -> Seq<TokenView> {
    if spanning(x) {
        x.subrange(1, x.len() - 1)
    } else {
        x
    }
}

/// The pairs of `wrap(x)` that enclose nothing but another pair are those
/// of `x`, and the outer pair if `x` is one pair.
pub proof fn lemma_wrap_doubled(x: Seq<TokenView>, o: int)
    requires
        tokens_balanced(x),
        0 <= o,
    ensures
        doubled(wrap(x), o + 1) <==> doubled(x, o),
        doubled(wrap(x), 0) <==> spanning(x),
        x.len() >= 1 && x[0] is OpenBracket ==> close_of(wrap(x), 1) == close_of(x, 0) + 1,
{
    let w = wrap(x);
    let p = seq![TokenView::OpenBracket];
    let q = seq![TokenView::CloseBracket];
    lemma_wrap_closes(x);
    if o + 1 < x.len() {
        assert(w[o + 1] == x[o]);
        assert(w[o + 2] == x[o + 1]);
        if x[o] is OpenBracket && x[o + 1] is OpenBracket {
            lemma_open_is_closed(x, o);
            lemma_open_is_closed(x, o + 1);
            lemma_bracket_end_shift(p, x, q, o + 1, 1);
            lemma_bracket_end_shift(p, x, q, o + 2, 1);
        }
    } else if o + 1 == x.len() {
        assert(w[o + 2] is CloseBracket);
    }
    if x.len() >= 1 {
        assert(w[1] == x[0]);
        if x[0] is OpenBracket {
            lemma_open_is_closed(x, 0);
            lemma_bracket_end_shift(p, x, q, 1, 1);
        }
    }
}

proof fn lemma_kept_all(w: Seq<TokenView>, n: int)
    requires
        0 <= n <= w.len(),
        forall|k: int| 0 <= k < w.len() ==> !redundant(w, k),
    ensures
        kept_prefix(w, n) == w.take(n),
    decreases n,
{
    if n > 0 {
        lemma_kept_all(w, n - 1);
        assert(w.take(n) =~= w.take(n - 1).push(w[n - 1]));
    } else {
        assert(w.take(0) =~= Seq::empty());
    }
}

/// What is kept of the first `n` tokens where the tokens at `a` and `b`
/// are the redundant ones.
spec fn kept_but(w: Seq<TokenView>, a: int, b: int, n: int) -> Seq<TokenView> {
    if n <= a {
        w.take(n)
    } else if n <= b {
        w.take(a) + w.subrange(a + 1, n)
    } else {
        w.take(a) + w.subrange(a + 1, b) + w.subrange(b + 1, n)
    }
}

proof fn lemma_kept_but(w: Seq<TokenView>, a: int, b: int, n: int)
    requires
        0 <= a < b < w.len(),
        0 <= n <= w.len(),
        forall|k: int| 0 <= k < w.len() ==> (redundant(w, k) <==> k == a || k == b),
    ensures
        kept_prefix(w, n) == kept_but(w, a, b, n),
    decreases n,
{
    if n > 0 {
        lemma_kept_but(w, a, b, n - 1);
        assert(redundant(w, n - 1) <==> n - 1 == a || n - 1 == b);
        assert(kept_prefix(w, n) =~= kept_but(w, a, b, n));
    } else {
        assert(w.take(0) =~= Seq::empty());
    }
}

/// Balanced tokens without doubled pairs lose, between brackets, their
/// own outer pair if they are one pair, and nothing else.
pub proof fn lemma_bracketed(x: Seq<TokenView>)
    requires
        tokens_balanced(x),
        undoubled(x),
    ensures
        bracketed(x) == wrap(kernel(x)),
{
    let w = wrap(x);
    assert forall|o: int| doubled(w, o) implies o == 0 && spanning(x) by {
        if o >= 1 {
            lemma_wrap_doubled(x, o - 1);
            assert(!doubled(x, o - 1));
        } else {
            lemma_wrap_doubled(x, 0);
        }
    }
    lemma_wrap_doubled(x, 0);
    if spanning(x) {
        let a = 1int;
        let b = x.len() as int;
        assert(close_of(w, 1) == b);
        assert forall|k: int| 0 <= k < w.len() implies (redundant(w, k) <==> k == a || k == b) by {
            if redundant(w, k) {
                let o = choose|o: int|
                    #[trigger] doubled(w, o) && (k == o + 1 || k == close_of(w, o + 1));
                assert(o == 0);
            }
            if k == a || k == b {
                assert(doubled(w, 0) && (k == 0int + 1 || k == close_of(w, 0int + 1)));
            }
        }
        lemma_kept_but(w, a, b, w.len() as int);
        assert(kept_but(w, a, b, w.len() as int) =~= wrap(x.subrange(1, x.len() - 1)));
    } else {
        assert forall|k: int| 0 <= k < w.len() implies !redundant(w, k) by {
            if redundant(w, k) {
                let o = choose|o: int|
                    #[trigger] doubled(w, o) && (k == o + 1 || k == close_of(w, o + 1));
            }
        }
        lemma_kept_all(w, w.len() as int);
        assert(w.take(w.len() as int) =~= w);
    }
}

/// Tokens that are one pair of brackets are their content between
/// brackets, and their content is balanced.
pub proof fn lemma_spanning(x: Seq<TokenView>)
    requires
        tokens_balanced(x),
        spanning(x),
    ensures
        x == wrap(x.subrange(1, x.len() - 1)),
        tokens_balanced(x.subrange(1, x.len() - 1)),
{
    let c = x.subrange(1, x.len() - 1);
    lemma_bracket_end_level(x, 1, 1);
    assert(x =~= wrap(c));
    assert(token_level(x, 1) == token_level(x, 0) + token_weight(x[0]));
    assert forall|n: int| 0 <= n <= c.len() implies #[trigger] token_level(c, n) >= 0 by {
        lemma_wrap_level(c, n);
        assert(token_level(x, n + 1) - token_level(x, 1) > -1);
    }
    lemma_wrap_level(c, c.len() as int);
    assert(token_level(x, x.len() as int) == token_level(x, x.len() - 1) + token_weight(
        x[x.len() - 1],
    ));
}

/// The content of the brackets that `bracketed` puts round balanced tokens
/// without doubled pairs is balanced, has no doubled pair, and is not one
/// pair of brackets; between brackets it is balanced and has no doubled
/// pair.
pub proof fn lemma_kernel(x: Seq<TokenView>)
    requires
        tokens_balanced(x),
        undoubled(x),
    ensures
        tokens_balanced(kernel(x)),
        undoubled(kernel(x)),
        !spanning(kernel(x)),
        tokens_balanced(wrap(kernel(x))),
        undoubled(wrap(kernel(x))),
{
    if spanning(x) {
        let c = kernel(x);
        lemma_spanning(x);
        assert forall|o: int| !#[trigger] doubled(c, o) by {
            if 0 <= o {
                lemma_wrap_doubled(c, o);
                assert(!doubled(x, o + 1));
            }
        }
        lemma_wrap_doubled(c, 0);
        assert(!doubled(x, 0));
    } else {
        lemma_wrap_balanced(x);
        assert forall|o: int| !#[trigger] doubled(wrap(x), o) by {
            if o >= 1 {
                lemma_wrap_doubled(x, o - 1);
                assert(!doubled(x, o - 1));
            } else {
                lemma_wrap_doubled(x, 0);
            }
        }
    }
}

/// Balanced tokens without doubled pairs one after the other have none.
pub proof fn lemma_undoubled_add(a: Seq<TokenView>, b: Seq<TokenView>)
    requires
        tokens_balanced(a),
        tokens_balanced(b),
        undoubled(a),
        undoubled(b),
    ensures
        undoubled(a + b),
{
    let w = a + b;
    let e = Seq::<TokenView>::empty();
    assert forall|o: int| !#[trigger] doubled(w, o) by {
        if doubled(w, o) {
            if o + 1 < a.len() {
                assert(w[o] == a[o] && w[o + 1] == a[o + 1]);
                lemma_open_is_closed(a, o);
                lemma_open_is_closed(a, o + 1);
                assert(w =~= e + a + b);
                lemma_bracket_end_shift(e, a, b, o + 1, 1);
                lemma_bracket_end_shift(e, a, b, o + 2, 1);
                assert(doubled(a, o));
            } else if o + 1 == a.len() {
                assert(w[o] == a[o]);
                assert(token_level(a, o + 1) == token_level(a, o) + token_weight(a[o]));
                assert(token_level(a, o) >= 0);
            } else {
                let k = o - a.len();
                assert(w[o] == b[k] && w[o + 1] == b[k + 1]);
                lemma_open_is_closed(b, k);
                lemma_open_is_closed(b, k + 1);
                assert(w =~= a + b + e);
                lemma_bracket_end_shift(a, b, e, k + 1, 1);
                lemma_bracket_end_shift(a, b, e, k + 2, 1);
                assert(doubled(b, k));
            }
        }
    }
}

/// A token that is no bracket adds no doubled pair.
pub proof fn lemma_undoubled_push(a: Seq<TokenView>, t: TokenView)
    requires
        tokens_balanced(a),
        undoubled(a),
        !(t is OpenBracket),
        !(t is CloseBracket),
    ensures
        undoubled(a.push(t)),
        tokens_balanced(a.push(t)),
{
    let b = seq![t];
    lemma_tokens_balanced_push(Seq::empty(), t);
    assert(Seq::<TokenView>::empty().push(t) =~= b);
    assert forall|o: int| !#[trigger] doubled(b, o) by {
    }
    lemma_undoubled_add(a, b);
    lemma_tokens_balanced_push(a, t);
    assert(a.push(t) =~= a + b);
}

// -------------------------------------------------------------------------
// What the tokeniser keeps while it reads
// -------------------------------------------------------------------------

/// `x` begins with `p`.
pub open spec fn starts_with(x: Seq<char>, p: Seq<char>) -> bool {
    x.len() >= p.len() && x.subrange(0, p.len() as int) == p
}

proof fn lemma_starts_with_less(x: Seq<char>, p: Seq<char>, q: Seq<char>)
    requires
        starts_with(x, p + q),
    ensures
        starts_with(x, p),
{
    assert(x.subrange(0, p.len() as int) =~= (p + q).subrange(0, p.len() as int));
    assert((p + q).subrange(0, p.len() as int) =~= p);
}

proof fn lemma_starts_with_add(p: Seq<char>, q: Seq<char>)
    ensures
        starts_with(p + q, p),
{
    assert((p + q).subrange(0, p.len() as int) =~= p);
}

proof fn lemma_flushed(toks: Seq<TokenView>, s: Seq<char>, b: int, pos: int)
    requires
        0 <= b <= pos <= s.len(),
    ensures
        tokens_text(flushed(toks, s, b, pos)) == tokens_text(toks) + s.subrange(b, pos),
{
    if b < pos {
        lemma_tokens_text_push(toks, TokenView::SymbolSeq(s.subrange(b, pos)));
    } else {
        assert(tokens_text(toks) + s.subrange(b, pos) =~= tokens_text(toks));
    }
}

/// The text of tokens between brackets.
proof fn lemma_wrap_text(x: Seq<TokenView>)
    ensures
        tokens_text(wrap(x)) == seq!['('] + tokens_text(x) + seq![')'],
{
    let o = seq![TokenView::OpenBracket];
    let c = seq![TokenView::CloseBracket];
    lemma_tokens_text_add(o + x, c);
    lemma_tokens_text_add(o, x);
    crate::parser::lemma_text_single(TokenView::OpenBracket);
    crate::parser::lemma_text_single(TokenView::CloseBracket);
}

/// The tokens of a group body go on from the tokens that were read before.
pub proof fn lemma_look_extends(s: Seq<char>, pos: int, b: int, toks: Seq<TokenView>)
    requires
        0 <= b <= pos <= s.len(),
    ensures
        look_tokens_at(s, pos, b, toks) matches Ok(res) ==> res.len() >= toks.len() && res.take(
            toks.len() as int,
        ) == toks && starts_with(tokens_text(res), tokens_text(toks) + s.subrange(b, pos)),
    decreases s.len() - pos,
{
    let fl = flushed(toks, s, b, pos);
    let here = tokens_text(toks) + s.subrange(b, pos);
    lemma_flushed(toks, s, b, pos);
    match look_tokens_at(s, pos, b, toks) {
        Err(e) => {},
        Ok(res) => {
            if pos >= s.len() {
                assert(res.take(toks.len() as int) =~= toks);
                lemma_starts_with_add(here, Seq::empty());
                assert(here + Seq::<char>::empty() =~= here);
            } else if s[pos] == '(' {
                lemma_extract_bounds(s, pos);
                let g = spec_extract(s, pos)->Ok_0;
                let inner = look_tokens_at(g.inner, 0, 0, Seq::empty())->Ok_0;
                let next = fl + bracketed(inner);
                lemma_look_extends(s, g.next, g.next, next);
                assert(res.take(toks.len() as int) =~= next.take(toks.len() as int));
                assert(next.take(toks.len() as int) =~= toks);
                lemma_tokens_text_add(fl, bracketed(inner));
                assert(s.subrange(g.next, g.next) =~= Seq::<char>::empty());
                assert(tokens_text(next) + s.subrange(g.next, g.next) =~= here + tokens_text(
                    bracketed(inner),
                ));
                lemma_starts_with_less(tokens_text(res), here, tokens_text(bracketed(inner)));
            } else if s[pos] == '|' {
                let rest = look_tokens_at(s, pos + 1, pos + 1, Seq::empty())->Ok_0;
                let t = TokenView::Binary(seq!['|']);
                assert(res.take(toks.len() as int) =~= toks);
                lemma_tokens_text_push(fl, t);
                lemma_tokens_text_add(fl.push(t), rest);
                assert(tokens_text(res) =~= here + (seq!['|'] + tokens_text(rest)));
                lemma_starts_with_add(here, seq!['|'] + tokens_text(rest));
            } else if s[pos] == '$' {
                assert(res.take(toks.len() as int) =~= toks);
                lemma_tokens_text_push(fl, TokenView::StringEnd);
                lemma_starts_with_add(here, seq!['$']);
            } else if s[pos] == '*' {
                let t = TokenView::Unary(seq!['*']);
                lemma_look_extends(s, pos + 1, pos + 1, fl.push(t));
                assert(res.take(toks.len() as int) =~= fl.push(t).take(toks.len() as int));
                assert(fl.push(t).take(toks.len() as int) =~= toks);
                lemma_tokens_text_push(fl, t);
                assert(s.subrange(pos + 1, pos + 1) =~= Seq::<char>::empty());
                assert(tokens_text(fl.push(t)) + s.subrange(pos + 1, pos + 1) =~= here + seq!['*']);
                lemma_starts_with_less(tokens_text(res), here, seq!['*']);
            } else {
                lemma_look_extends(s, pos + 1, b, toks);
                assert(s.subrange(b, pos + 1) =~= s.subrange(b, pos) + seq![s[pos]]);
                assert(tokens_text(toks) + s.subrange(b, pos + 1) =~= here + seq![s[pos]]);
                lemma_starts_with_less(tokens_text(res), here, seq![s[pos]]);
            }
        },
    }
}

/// The tokens of an expression body go on from the tokens that were read
/// before.
pub proof fn lemma_regex_extends(s: Seq<char>, pos: int, b: int, toks: Seq<TokenView>)
    requires
        0 <= b <= pos <= s.len(),
    ensures
        regex_tokens_at(s, pos, b, toks) matches Ok(res) ==> res.len() >= toks.len() && res.take(
            toks.len() as int,
        ) == toks && starts_with(tokens_text(res), tokens_text(toks) + s.subrange(b, pos)),
    decreases s.len() - pos,
{
    let fl = flushed(toks, s, b, pos);
    let here = tokens_text(toks) + s.subrange(b, pos);
    lemma_flushed(toks, s, b, pos);
    match regex_tokens_at(s, pos, b, toks) {
        Err(e) => {},
        Ok(res) => {
            if pos >= s.len() {
                assert(res.take(toks.len() as int) =~= toks);
                lemma_starts_with_add(here, Seq::empty());
                assert(here + Seq::<char>::empty() =~= here);
            } else if s[pos] == '(' {
                lemma_extract_bounds(s, pos);
                let g = spec_extract(s, pos)->Ok_0;
                let next = match g.kind {
                    BracketsTokenType::Lookahead => fl.push(
                        TokenView::LookaheadGroup(
                            look_tokens_at(g.inner, 0, 0, Seq::empty())->Ok_0,
                        ),
                    ),
                    BracketsTokenType::Lookbehind => fl.push(
                        TokenView::LookbehindGroup(
                            look_tokens_at(g.inner, 0, 0, Seq::empty())->Ok_0,
                        ),
                    ),
                    BracketsTokenType::SimpleSeq => fl + bracketed(
                        regex_tokens_at(g.inner, 0, 0, Seq::empty())->Ok_0,
                    ),
                };
                lemma_regex_extends(s, g.next, g.next, next);
                assert(res.take(toks.len() as int) =~= next.take(toks.len() as int));
                assert(next.take(toks.len() as int) =~= toks);
                let added = tokens_text(next).skip(here.len() as int);
                match g.kind {
                    BracketsTokenType::Lookahead => {
                        lemma_tokens_text_push(
                            fl,
                            TokenView::LookaheadGroup(
                                look_tokens_at(g.inner, 0, 0, Seq::empty())->Ok_0,
                            ),
                        );
                    },
                    BracketsTokenType::Lookbehind => {
                        lemma_tokens_text_push(
                            fl,
                            TokenView::LookbehindGroup(
                                look_tokens_at(g.inner, 0, 0, Seq::empty())->Ok_0,
                            ),
                        );
                    },
                    BracketsTokenType::SimpleSeq => {
                        lemma_tokens_text_add(
                            fl,
                            bracketed(regex_tokens_at(g.inner, 0, 0, Seq::empty())->Ok_0),
                        );
                    },
                }
                assert(s.subrange(g.next, g.next) =~= Seq::<char>::empty());
                assert(tokens_text(next) + s.subrange(g.next, g.next) =~= here + added);
                lemma_starts_with_less(tokens_text(res), here, added);
            } else if s[pos] == '|' {
                let rest = regex_tokens_at(s, pos + 1, pos + 1, Seq::empty())->Ok_0;
                let t = TokenView::Binary(seq!['|']);
                assert(res.take(toks.len() as int) =~= toks);
                lemma_tokens_text_push(fl, t);
                lemma_tokens_text_add(fl.push(t), rest);
                assert(tokens_text(res) =~= here + (seq!['|'] + tokens_text(rest)));
                lemma_starts_with_add(here, seq!['|'] + tokens_text(rest));
            } else if s[pos] == '*' {
                let t = TokenView::Unary(seq!['*']);
                lemma_regex_extends(s, pos + 1, pos + 1, fl.push(t));
                assert(res.take(toks.len() as int) =~= fl.push(t).take(toks.len() as int));
                assert(fl.push(t).take(toks.len() as int) =~= toks);
                lemma_tokens_text_push(fl, t);
                assert(s.subrange(pos + 1, pos + 1) =~= Seq::<char>::empty());
                assert(tokens_text(fl.push(t)) + s.subrange(pos + 1, pos + 1) =~= here + seq!['*']);
                lemma_starts_with_less(tokens_text(res), here, seq!['*']);
            } else {
                lemma_regex_extends(s, pos + 1, b, toks);
                assert(s.subrange(b, pos + 1) =~= s.subrange(b, pos) + seq![s[pos]]);
                assert(tokens_text(toks) + s.subrange(b, pos + 1) =~= here + seq![s[pos]]);
                lemma_starts_with_less(tokens_text(res), here, seq![s[pos]]);
            }
        },
    }
}

/// The brackets among tokens are in order: balanced, and no pair encloses
/// nothing but another pair.
pub open spec fn brackets_in_order(ts: Seq<TokenView>) -> bool {
    tokens_balanced(ts) && undoubled(ts)
}

proof fn lemma_in_order_add(a: Seq<TokenView>, b: Seq<TokenView>)
    requires
        brackets_in_order(a),
        brackets_in_order(b),
    ensures
        brackets_in_order(a + b),
{
    lemma_tokens_balanced_add(a, b);
    lemma_undoubled_add(a, b);
}

proof fn lemma_in_order_flushed(toks: Seq<TokenView>, s: Seq<char>, b: int, pos: int)
    requires
        brackets_in_order(toks),
    ensures
        brackets_in_order(flushed(toks, s, b, pos)),
{
    if b < pos {
        lemma_undoubled_push(toks, TokenView::SymbolSeq(s.subrange(b, pos)));
    }
}

/// No tokens have their brackets in order.
pub proof fn lemma_in_order_empty()
    ensures
        brackets_in_order(Seq::<TokenView>::empty()),
{
    let e = Seq::<TokenView>::empty();
    assert forall|o: int| !#[trigger] doubled(e, o) by {
    }
}

/// The tokens of a group body have their brackets in order.
pub proof fn lemma_look_in_order(s: Seq<char>, pos: int, b: int, toks: Seq<TokenView>)
    requires
        0 <= b <= pos <= s.len(),
        brackets_in_order(toks),
    ensures
        look_tokens_at(s, pos, b, toks) matches Ok(res) ==> brackets_in_order(res),
    decreases s.len() - pos,
{
    let fl = flushed(toks, s, b, pos);
    lemma_in_order_flushed(toks, s, b, pos);
    lemma_in_order_empty();
    match look_tokens_at(s, pos, b, toks) {
        Err(e) => {},
        Ok(res) => {
            if pos >= s.len() {
            } else if s[pos] == '(' {
                lemma_extract_bounds(s, pos);
                let g = spec_extract(s, pos)->Ok_0;
                let inner = look_tokens_at(g.inner, 0, 0, Seq::empty())->Ok_0;
                lemma_look_in_order(g.inner, 0, 0, Seq::empty());
                lemma_bracketed(inner);
                lemma_kernel(inner);
                lemma_in_order_add(fl, bracketed(inner));
                lemma_look_in_order(s, g.next, g.next, fl + bracketed(inner));
            } else if s[pos] == '|' {
                let rest = look_tokens_at(s, pos + 1, pos + 1, Seq::empty())->Ok_0;
                lemma_look_in_order(s, pos + 1, pos + 1, Seq::empty());
                lemma_undoubled_push(fl, TokenView::Binary(seq!['|']));
                lemma_in_order_add(fl.push(TokenView::Binary(seq!['|'])), rest);
            } else if s[pos] == '$' {
                lemma_undoubled_push(fl, TokenView::StringEnd);
            } else if s[pos] == '*' {
                lemma_undoubled_push(fl, TokenView::Unary(seq!['*']));
                lemma_look_in_order(s, pos + 1, pos + 1, fl.push(TokenView::Unary(seq!['*'])));
            } else {
                lemma_look_in_order(s, pos + 1, b, toks);
            }
        },
    }
}

/// The tokens of an expression body have their brackets in order.
pub proof fn lemma_regex_in_order(s: Seq<char>, pos: int, b: int, toks: Seq<TokenView>)
    requires
        0 <= b <= pos <= s.len(),
        brackets_in_order(toks),
    ensures
        regex_tokens_at(s, pos, b, toks) matches Ok(res) ==> brackets_in_order(res),
    decreases s.len() - pos,
{
    let fl = flushed(toks, s, b, pos);
    lemma_in_order_flushed(toks, s, b, pos);
    lemma_in_order_empty();
    match regex_tokens_at(s, pos, b, toks) {
        Err(e) => {},
        Ok(res) => {
            if pos >= s.len() {
            } else if s[pos] == '(' {
                lemma_extract_bounds(s, pos);
                let g = spec_extract(s, pos)->Ok_0;
                match g.kind {
                    BracketsTokenType::Lookahead => {
                        let t = TokenView::LookaheadGroup(
                            look_tokens_at(g.inner, 0, 0, Seq::empty())->Ok_0,
                        );
                        lemma_undoubled_push(fl, t);
                        lemma_regex_in_order(s, g.next, g.next, fl.push(t));
                    },
                    BracketsTokenType::Lookbehind => {
                        let t = TokenView::LookbehindGroup(
                            look_tokens_at(g.inner, 0, 0, Seq::empty())->Ok_0,
                        );
                        lemma_undoubled_push(fl, t);
                        lemma_regex_in_order(s, g.next, g.next, fl.push(t));
                    },
                    BracketsTokenType::SimpleSeq => {
                        let inner = regex_tokens_at(g.inner, 0, 0, Seq::empty())->Ok_0;
                        lemma_regex_in_order(g.inner, 0, 0, Seq::empty());
                        lemma_bracketed(inner);
                        lemma_kernel(inner);
                        lemma_in_order_add(fl, bracketed(inner));
                        lemma_regex_in_order(s, g.next, g.next, fl + bracketed(inner));
                    },
                }
            } else if s[pos] == '|' {
                let rest = regex_tokens_at(s, pos + 1, pos + 1, Seq::empty())->Ok_0;
                lemma_regex_in_order(s, pos + 1, pos + 1, Seq::empty());
                lemma_undoubled_push(fl, TokenView::Binary(seq!['|']));
                lemma_in_order_add(fl.push(TokenView::Binary(seq!['|'])), rest);
            } else if s[pos] == '*' {
                lemma_undoubled_push(fl, TokenView::Unary(seq!['*']));
                lemma_regex_in_order(s, pos + 1, pos + 1, fl.push(TokenView::Unary(seq!['*'])));
            } else {
                lemma_regex_in_order(s, pos + 1, b, toks);
            }
        },
    }
}

// -------------------------------------------------------------------------
// Reading a group again
// -------------------------------------------------------------------------

/// The characters with which a group of the kind `kind` opens.
pub open spec fn opening(kind: BracketsTokenType) -> Seq<char> {
    match kind {
        BracketsTokenType::Lookahead => seq!['(', '?', '='],
        BracketsTokenType::Lookbehind => seq!['(', '?', '<', '='],
        BracketsTokenType::SimpleSeq => seq!['('],
    }
}

/// Where `t` goes on at `pos` with the opening of a group, a balanced text
/// that is not empty, and a closing bracket, the group that is cut out
/// there holds that text.
pub proof fn lemma_extract_again(t: Seq<char>, pos: int, kind: BracketsTokenType, x: Seq<char>)
    requires
        0 <= pos <= t.len(),
        starts_with(t.skip(pos), opening(kind) + x + seq![')']),
        balanced(x),
        x.len() > 0,
        kind == BracketsTokenType::SimpleSeq ==> x[0] != '?',
    ensures
        spec_extract(t, pos) == Ok::<Group, ParseError>(
            Group { kind, inner: x, next: pos + opening(kind).len() + x.len() + 1 },
        ),
{
    let open = opening(kind);
    let whole = open + x + seq![')'];
    let start = pos + open.len();
    assert forall|k: int| 0 <= k < whole.len() implies t[pos + k] == whole[k] by {
        assert(t.skip(pos).subrange(0, whole.len() as int)[k] == whole[k]);
    }
    assert forall|k: int| 0 <= k < open.len() implies t[pos + k] == open[k] by {
        assert(whole[k] == open[k]);
    }
    assert(t[pos + 0] == open[0]);
    if kind == BracketsTokenType::SimpleSeq {
        assert(t[pos + 1] == whole[1]);
        assert(whole[1] == x[0]);
    } else {
        assert(t[pos + 1] == open[1]);
        assert(t[pos + 2] == open[2]);
        if kind == BracketsTokenType::Lookbehind {
            assert(t[pos + 3] == open[3]);
        }
    }
    assert(group_kind(t, pos) == Ok::<(BracketsTokenType, int), ParseError>((kind, start)));
    assert(t.subrange(start, start + x.len()) =~= x) by {
        assert forall|k: int| 0 <= k < x.len() implies t[start + k] == x[k] by {
            assert(t[pos + (open.len() + k)] == whole[open.len() + k]);
        }
    }
    assert(t[start + x.len()] == ')') by {
        assert(t[pos + (open.len() + x.len())] == whole[(open.len() + x.len()) as int]);
    }
    lemma_group_ends(t, start, x);
    assert(t.subrange(start, start + x.len() + 1 - 1) =~= x);
}

/// The text of what the tokeniser of group bodies made of a text that is
/// not empty is not empty, and begins as that text does.
pub proof fn lemma_look_first(y: Seq<char>)
    requires
        y.len() > 0,
    ensures
        look_tokens_at(y, 0, 0, Seq::empty()) matches Ok(res) ==> tokens_text(res).len() > 0
            && tokens_text(res)[0] == y[0],
{
    let e = Seq::<TokenView>::empty();
    assert(tokens_text(e) =~= Seq::<char>::empty());
    match look_tokens_at(y, 0, 0, e) {
        Err(err) => {},
        Ok(res) => {
            assert(flushed(e, y, 0, 0) == e);
            if y[0] == '(' {
                lemma_extract_bounds(y, 0);
                let g = spec_extract(y, 0)->Ok_0;
                let inner = look_tokens_at(g.inner, 0, 0, e)->Ok_0;
                lemma_in_order_empty();
                lemma_look_in_order(g.inner, 0, 0, e);
                lemma_bracketed(inner);
                lemma_wrap_text(kernel(inner));
                lemma_look_extends(y, g.next, g.next, e + bracketed(inner));
                assert(e + bracketed(inner) =~= bracketed(inner));
                let head = tokens_text(bracketed(inner)) + y.subrange(g.next, g.next);
                assert(tokens_text(res).subrange(0, head.len() as int)[0] == head[0]);
            } else if y[0] == '$' {
                crate::parser::lemma_text_single(TokenView::StringEnd);
                assert(e.push(TokenView::StringEnd) =~= seq![TokenView::StringEnd]);
            } else if y[0] == '|' || y[0] == ')' || y[0] == '*' {
            } else {
                lemma_look_extends(y, 1, 0, e);
                let head = tokens_text(e) + y.subrange(0, 1);
                assert(head =~= seq![y[0]]);
                assert(tokens_text(res).subrange(0, head.len() as int)[0] == head[0]);
            }
        },
    }
}

/// The text of what the tokeniser made of a body that is not empty is not
/// empty, and begins as the body does.
pub proof fn lemma_regex_first(y: Seq<char>)
    requires
        y.len() > 0,
    ensures
        regex_tokens_at(y, 0, 0, Seq::empty()) matches Ok(res) ==> tokens_text(res).len() > 0
            && tokens_text(res)[0] == y[0],
{
    let e = Seq::<TokenView>::empty();
    assert(tokens_text(e) =~= Seq::<char>::empty());
    match regex_tokens_at(y, 0, 0, e) {
        Err(err) => {},
        Ok(res) => {
            assert(flushed(e, y, 0, 0) == e);
            if y[0] == '(' {
                lemma_extract_bounds(y, 0);
                let g = spec_extract(y, 0)->Ok_0;
                lemma_in_order_empty();
                match g.kind {
                    BracketsTokenType::Lookahead => {
                        let t = TokenView::LookaheadGroup(look_tokens_at(g.inner, 0, 0, e)->Ok_0);
                        lemma_regex_extends(y, g.next, g.next, e.push(t));
                        lemma_tokens_text_push(e, t);
                        let head = tokens_text(e.push(t)) + y.subrange(g.next, g.next);
                        assert(head[0] == '(');
                        assert(tokens_text(res).subrange(0, head.len() as int)[0] == head[0]);
                    },
                    BracketsTokenType::Lookbehind => {
                        let t = TokenView::LookbehindGroup(look_tokens_at(g.inner, 0, 0, e)->Ok_0);
                        lemma_regex_extends(y, g.next, g.next, e.push(t));
                        lemma_tokens_text_push(e, t);
                        let head = tokens_text(e.push(t)) + y.subrange(g.next, g.next);
                        assert(head[0] == '(');
                        assert(tokens_text(res).subrange(0, head.len() as int)[0] == head[0]);
                    },
                    BracketsTokenType::SimpleSeq => {
                        let inner = regex_tokens_at(g.inner, 0, 0, e)->Ok_0;
                        lemma_regex_in_order(g.inner, 0, 0, e);
                        lemma_bracketed(inner);
                        lemma_wrap_text(kernel(inner));
                        lemma_regex_extends(y, g.next, g.next, e + bracketed(inner));
                        assert(e + bracketed(inner) =~= bracketed(inner));
                        let head = tokens_text(bracketed(inner)) + y.subrange(g.next, g.next);
                        assert(tokens_text(res).subrange(0, head.len() as int)[0] == head[0]);
                    },
                }
            } else if y[0] == '|' || y[0] == ')' || y[0] == '*' {
            } else {
                lemma_regex_extends(y, 1, 0, e);
                let head = tokens_text(e) + y.subrange(0, 1);
                assert(head =~= seq![y[0]]);
                assert(tokens_text(res).subrange(0, head.len() as int)[0] == head[0]);
            }
        },
    }
}

// -------------------------------------------------------------------------
// Reading the text of the tokens again
// -------------------------------------------------------------------------

proof fn lemma_tail_char(t: Seq<char>, pos: int, x: Seq<char>, base: int)
    requires
        0 <= pos <= t.len(),
        0 <= base < x.len(),
        t.skip(pos) == x.skip(base),
    ensures
        pos < t.len(),
        t[pos] == x[base],
{
    assert(x.skip(base).len() == x.len() - base);
    assert(t.skip(pos).len() == t.len() - pos);
    assert(t.skip(pos)[0] == t[pos]);
    assert(x.skip(base)[0] == x[base]);
}

proof fn lemma_tail_skip(t: Seq<char>, pos: int, x: Seq<char>, base: int, n: int)
    requires
        0 <= pos <= t.len(),
        0 <= base,
        0 <= n,
        base + n <= x.len(),
        t.skip(pos) == x.skip(base),
    ensures
        pos + n <= t.len(),
        t.skip(pos + n) == x.skip(base + n),
{
    assert(x.skip(base).len() == x.len() - base);
    assert(t.skip(pos).len() == t.len() - pos);
    assert(t.skip(pos + n) =~= t.skip(pos).skip(n));
    assert(x.skip(base + n) =~= x.skip(base).skip(n));
}

proof fn lemma_tail_starts(t: Seq<char>, pos: int, x: Seq<char>, p: Seq<char>, q: Seq<char>)
    requires
        0 <= pos <= t.len(),
        starts_with(x, p + q),
        t.skip(pos) == x.skip(p.len() as int),
    ensures
        starts_with(t.skip(pos), q),
{
    assert(x.skip(p.len() as int).subrange(0, q.len() as int) =~= (p + q).subrange(
        0,
        (p + q).len() as int,
    ).skip(p.len() as int)) by {
        assert(x.subrange(0, (p + q).len() as int) == p + q);
        assert forall|k: int| 0 <= k < q.len() implies x.skip(p.len() as int).subrange(
            0,
            q.len() as int,
        )[k] == (p + q)[p.len() + k] by {
            assert(x.subrange(0, (p + q).len() as int)[p.len() + k] == x[p.len() + k]);
        }
    }
    assert((p + q).subrange(0, (p + q).len() as int).skip(p.len() as int) =~= q);
}

proof fn lemma_same_flush(
    toks: Seq<TokenView>,
    s: Seq<char>,
    b: int,
    pos: int,
    t: Seq<char>,
    b2: int,
    pos2: int,
)
    requires
        0 <= b <= pos <= s.len(),
        0 <= b2 <= pos2 <= t.len(),
        t.subrange(b2, pos2) == s.subrange(b, pos),
    ensures
        flushed(toks, t, b2, pos2) == flushed(toks, s, b, pos),
        pos2 - b2 == pos - b,
{
    assert(t.subrange(b2, pos2).len() == pos2 - b2);
    assert(s.subrange(b, pos).len() == pos - b);
}

/// What holds of the content of a group in a group body: its text gives
/// it again, is balanced, is not empty and begins with no `?`; its
/// brackets are in order, and it is not one pair of brackets.
pub open spec fn stands_look(c: Seq<TokenView>) -> bool {
    &&& look_tokens_at(tokens_text(c), 0, 0, Seq::empty()) == Ok::<Seq<TokenView>, ParseError>(c)
    &&& balanced(tokens_text(c))
    &&& tokens_text(c).len() > 0
    &&& tokens_text(c)[0] != '?'
    &&& brackets_in_order(c)
    &&& !spanning(c)
}

/// A group body: the content of the brackets that are put round its
/// tokens stands.
pub proof fn lemma_look_kernel(y: Seq<char>)
    requires
        y.len() > 0,
        y[0] != '?',
        look_tokens_at(y, 0, 0, Seq::empty()) is Ok,
    ensures
        stands_look(kernel(look_tokens_at(y, 0, 0, Seq::empty())->Ok_0)),
    decreases y.len(), y.len() + 1,
{
    let e = Seq::<TokenView>::empty();
    let inner = look_tokens_at(y, 0, 0, e)->Ok_0;
    lemma_in_order_empty();
    lemma_look_in_order(y, 0, 0, e);
    lemma_kernel(inner);
    lemma_look_first(y);
    assert(tokens_text(e) =~= Seq::<char>::empty());
    if spanning(inner) {
        lemma_spanning(inner);
        let c = inner.subrange(1, inner.len() - 1);
        lemma_wrap_text(c);
        assert(tokens_text(inner)[0] == '(');
        assert(flushed(e, y, 0, 0) == e);
        lemma_extract_bounds(y, 0);
        let g = spec_extract(y, 0)->Ok_0;
        let inner0 = look_tokens_at(g.inner, 0, 0, e)->Ok_0;
        let b0 = bracketed(inner0);
        lemma_look_in_order(g.inner, 0, 0, e);
        lemma_bracketed(inner0);
        lemma_kernel(inner0);
        let k0 = kernel(inner0);
        assert(e + b0 =~= b0);
        lemma_look_extends(y, g.next, g.next, b0);
        lemma_wrap_closes(k0);
        let rest = inner.skip(b0.len() as int);
        assert(inner =~= e + b0 + rest) by {
            assert(inner.take(b0.len() as int) == b0);
        }
        lemma_bracket_end_shift(e, b0, rest, 1, 1);
        assert(inner =~= b0);
        assert(c =~= k0);
        assert(g.inner[0] == y[1]);
        lemma_look_kernel(g.inner);
    } else {
        lemma_look_balanced(y, 0, 0, e);
        assert(tokens_text(inner).subrange(0, 0) =~= y.subrange(0, 0));
        assert(tokens_text(inner).skip(0) =~= tokens_text(inner));
        lemma_look_again(y, 0, 0, e, tokens_text(inner), 0, 0);
    }
}

/// The text of the tokens of a group body is balanced.
pub proof fn lemma_look_balanced(s: Seq<char>, pos: int, b: int, toks: Seq<TokenView>)
    requires
        0 <= b <= pos <= s.len(),
        look_tokens_at(s, pos, b, toks) is Ok,
        balanced(tokens_text(toks)),
        bracket_free(s.subrange(b, pos)),
    ensures
        balanced(tokens_text(look_tokens_at(s, pos, b, toks)->Ok_0)),
    decreases s.len(), s.len() - pos,
{
    let e = Seq::<TokenView>::empty();
    let res = look_tokens_at(s, pos, b, toks)->Ok_0;
    let fl = flushed(toks, s, b, pos);
    lemma_flushed(toks, s, b, pos);
    lemma_bracket_free_balanced(s.subrange(b, pos));
    lemma_balanced_add(tokens_text(toks), s.subrange(b, pos));
    assert(tokens_text(e) =~= Seq::<char>::empty());
    assert(bracket_free(Seq::<char>::empty()));
    lemma_bracket_free_balanced(Seq::<char>::empty());
    if pos >= s.len() {
    } else if s[pos] == '(' {
        lemma_extract_bounds(s, pos);
        let g = spec_extract(s, pos)->Ok_0;
        let inner = look_tokens_at(g.inner, 0, 0, e)->Ok_0;
        lemma_in_order_empty();
        lemma_look_in_order(g.inner, 0, 0, e);
        lemma_bracketed(inner);
        assert(g.inner[0] == s[pos + 1]);
        lemma_look_kernel(g.inner);
        let k = kernel(inner);
        lemma_wrap_text(k);
        assert(seq!['('].skip(1) =~= Seq::<char>::empty());
        lemma_balanced_group(seq!['('], tokens_text(k));
        lemma_tokens_text_add(fl, bracketed(inner));
        lemma_balanced_add(tokens_text(fl), tokens_text(bracketed(inner)));
        assert(s.subrange(g.next, g.next) =~= Seq::<char>::empty());
        lemma_look_balanced(s, g.next, g.next, fl + bracketed(inner));
    } else if s[pos] == '|' {
        let rest = look_tokens_at(s, pos + 1, pos + 1, e)->Ok_0;
        let t = TokenView::Binary(seq!['|']);
        assert(s.subrange(pos + 1, pos + 1) =~= Seq::<char>::empty());
        lemma_look_balanced(s, pos + 1, pos + 1, e);
        lemma_tokens_text_push(fl, t);
        assert(bracket_free(seq!['|']));
        lemma_bracket_free_balanced(seq!['|']);
        lemma_balanced_add(tokens_text(fl), seq!['|']);
        lemma_tokens_text_add(fl.push(t), rest);
        lemma_balanced_add(tokens_text(fl.push(t)), tokens_text(rest));
    } else if s[pos] == '$' {
        lemma_tokens_text_push(fl, TokenView::StringEnd);
        assert(bracket_free(seq!['$']));
        lemma_bracket_free_balanced(seq!['$']);
        lemma_balanced_add(tokens_text(fl), seq!['$']);
    } else if s[pos] == '*' {
        let t = TokenView::Unary(seq!['*']);
        lemma_tokens_text_push(fl, t);
        assert(bracket_free(seq!['*']));
        lemma_bracket_free_balanced(seq!['*']);
        lemma_balanced_add(tokens_text(fl), seq!['*']);
        assert(s.subrange(pos + 1, pos + 1) =~= Seq::<char>::empty());
        lemma_look_balanced(s, pos + 1, pos + 1, fl.push(t));
    } else {
        assert(bracket_free(s.subrange(b, pos + 1))) by {
            assert forall|k: int| 0 <= k < s.subrange(b, pos + 1).len() implies #[trigger] s.subrange(
                b,
                pos + 1,
            )[k] != '(' && s.subrange(b, pos + 1)[k] != ')' by {
                if k < pos - b {
                    assert(s.subrange(b, pos)[k] == s[b + k]);
                }
            }
        }
        lemma_look_balanced(s, pos + 1, b, toks);
    }
}

/// None of the tokens is the end of the string.
pub open spec fn no_end(ts: Seq<TokenView>) -> bool {
    forall|k: int| 0 <= k < ts.len() ==> !((#[trigger] ts[k]) is StringEnd)
}

/// None of the tokens but the last is the end of the string.
pub open spec fn end_last(ts: Seq<TokenView>) -> bool {
    forall|k: int| 0 <= k < ts.len() - 1 ==> !((#[trigger] ts[k]) is StringEnd)
}

/// Tokens without the end of the string keep none when redundant
/// brackets are taken out.
pub proof fn lemma_kept_no_end(ts: Seq<TokenView>, n: int)
    requires
        no_end(ts),
        0 <= n <= ts.len(),
    ensures
        no_end(kept_prefix(ts, n)),
    decreases n,
{
    if n > 0 {
        lemma_kept_no_end(ts, n - 1);
        let before = kept_prefix(ts, n - 1);
        let all = kept_prefix(ts, n);
        assert forall|k: int| 0 <= k < all.len() implies !((#[trigger] all[k]) is StringEnd) by {
            if k < before.len() {
                assert(all[k] == before[k]);
            } else {
                assert(all[k] == ts[n - 1]);
            }
        }
    }
}

/// Tokens without the end of the string have none between brackets.
pub proof fn lemma_bracketed_no_end(inner: Seq<TokenView>)
    requires
        no_end(inner),
    ensures
        no_end(bracketed(inner)),
{
    let w = seq![TokenView::OpenBracket] + inner + seq![TokenView::CloseBracket];
    assert forall|k: int| 0 <= k < w.len() implies !((#[trigger] w[k]) is StringEnd) by {
        if 1 <= k <= inner.len() {
            assert(w[k] == inner[k - 1]);
        }
    }
    lemma_kept_no_end(w, w.len() as int);
}

/// In the tokens of a lookahead body the end of the string stands at the
/// end alone, and at most once.
pub proof fn lemma_look_end_last(s: Seq<char>, pos: int, b: int, toks: Seq<TokenView>)
    requires
        0 <= b <= pos <= s.len(),
        no_end(toks),
    ensures
        look_tokens_at(s, pos, b, toks) matches Ok(res) ==> end_last(res),
    decreases s.len(), s.len() - pos,
{
    let e = Seq::<TokenView>::empty();
    let fl = flushed(toks, s, b, pos);
    assert(no_end(fl)) by {
        assert forall|k: int| 0 <= k < fl.len() implies !((#[trigger] fl[k]) is StringEnd) by {
            if k < toks.len() {
                assert(fl[k] == toks[k]);
            }
        }
    }
    match look_tokens_at(s, pos, b, toks) {
        Err(err) => {},
        Ok(res) => {
            if pos >= s.len() {
            } else if s[pos] == '(' {
                lemma_extract_bounds(s, pos);
                let g = spec_extract(s, pos)->Ok_0;
                let inner = look_tokens_at(g.inner, 0, 0, e)->Ok_0;
                lemma_look_end_last(g.inner, 0, 0, e);
                assert(no_end(inner)) by {
                    assert forall|k: int| 0 <= k < inner.len() implies !((#[trigger] inner[k])
                        is StringEnd) by {
                        if k == inner.len() - 1 {
                            assert(!ends_the_string(inner));
                        }
                    }
                }
                lemma_bracketed_no_end(inner);
                let next = fl + bracketed(inner);
                assert forall|k: int| 0 <= k < next.len() implies !((#[trigger] next[k])
                    is StringEnd) by {
                    if k < fl.len() {
                        assert(next[k] == fl[k]);
                    } else {
                        assert(next[k] == bracketed(inner)[k - fl.len()]);
                    }
                }
                lemma_look_end_last(s, g.next, g.next, next);
            } else if s[pos] == '|' {
                let rest = look_tokens_at(s, pos + 1, pos + 1, e)->Ok_0;
                lemma_look_end_last(s, pos + 1, pos + 1, e);
                let head = fl.push(TokenView::Binary(seq!['|']));
                assert forall|k: int| 0 <= k < res.len() - 1 implies !((#[trigger] res[k])
                    is StringEnd) by {
                    if k < fl.len() {
                        assert(res[k] == fl[k]);
                    } else if k == fl.len() {
                        assert(res[k] == head[k]);
                    } else {
                        assert(res[k] == rest[k - head.len()]);
                    }
                }
            } else if s[pos] == ')' {
            } else if s[pos] == '$' {
                assert forall|k: int| 0 <= k < res.len() - 1 implies !((#[trigger] res[k])
                    is StringEnd) by {
                    assert(res[k] == fl[k]);
                }
            } else if s[pos] == '*' {
                let next = fl.push(TokenView::Unary(seq!['*']));
                assert forall|k: int| 0 <= k < next.len() implies !((#[trigger] next[k])
                    is StringEnd) by {
                    if k < fl.len() {
                        assert(next[k] == fl[k]);
                    }
                }
                lemma_look_end_last(s, pos + 1, pos + 1, next);
            } else {
                lemma_look_end_last(s, pos + 1, b, toks);
            }
        },
    }
}

/// The tokens of a group in a lookahead body hold no end of the string,
/// and neither does what stands in their outer brackets.
pub proof fn lemma_group_no_end(y: Seq<char>)
    requires
        look_tokens_at(y, 0, 0, Seq::empty()) matches Ok(inner) && !ends_the_string(inner),
    ensures
        no_end(look_tokens_at(y, 0, 0, Seq::empty())->Ok_0),
        !ends_the_string(kernel(look_tokens_at(y, 0, 0, Seq::empty())->Ok_0)),
{
    let inner = look_tokens_at(y, 0, 0, Seq::empty())->Ok_0;
    lemma_look_end_last(y, 0, 0, Seq::empty());
    assert forall|k: int| 0 <= k < inner.len() implies !((#[trigger] inner[k]) is StringEnd) by {
        if k == inner.len() - 1 {
            assert(!ends_the_string(inner));
        }
    }
    let c = kernel(inner);
    if c.len() > 0 {
        if spanning(inner) {
            assert(c.last() == inner[inner.len() - 2]);
        }
    }
}

/// Where `t` goes on as the text of the tokens of a group body goes on,
/// reading `t` on gives the same tokens.
pub proof fn lemma_look_again(
    s: Seq<char>,
    pos: int,
    b: int,
    toks: Seq<TokenView>,
    t: Seq<char>,
    pos2: int,
    b2: int,
)
    requires
        0 <= b <= pos <= s.len(),
        0 <= b2 <= pos2 <= t.len(),
        look_tokens_at(s, pos, b, toks) is Ok,
        t.subrange(b2, pos2) == s.subrange(b, pos),
        t.skip(pos2) == tokens_text(look_tokens_at(s, pos, b, toks)->Ok_0).skip(
            tokens_text(toks).len() + pos - b,
        ),
    ensures
        look_tokens_at(t, pos2, b2, toks) == look_tokens_at(s, pos, b, toks),
    decreases s.len(), s.len() - pos,
{
    let e = Seq::<TokenView>::empty();
    let res = look_tokens_at(s, pos, b, toks)->Ok_0;
    let fl = flushed(toks, s, b, pos);
    let text = tokens_text(res);
    let base = tokens_text(toks).len() + pos - b;
    lemma_flushed(toks, s, b, pos);
    lemma_same_flush(toks, s, b, pos, t, b2, pos2);
    lemma_look_extends(s, pos, b, toks);
    if pos >= s.len() {
        assert(t.skip(pos2).len() == text.skip(base).len());
    } else if s[pos] == '(' {
        lemma_extract_bounds(s, pos);
        let g = spec_extract(s, pos)->Ok_0;
        let inner = look_tokens_at(g.inner, 0, 0, e)->Ok_0;
        lemma_in_order_empty();
        lemma_look_in_order(g.inner, 0, 0, e);
        lemma_bracketed(inner);
        assert(g.inner[0] == s[pos + 1]);
        lemma_look_kernel(g.inner);
        lemma_group_no_end(g.inner);
        let k = kernel(inner);
        let x = tokens_text(k);
        let group = bracketed(inner);
        let next = fl + group;
        lemma_wrap_text(k);
        lemma_tokens_text_add(fl, group);
        lemma_look_extends(s, g.next, g.next, next);
        assert(s.subrange(g.next, g.next) =~= Seq::<char>::empty());
        assert(tokens_text(next) + s.subrange(g.next, g.next) =~= tokens_text(fl) + tokens_text(
            group,
        ));
        lemma_tail_starts(t, pos2, text, tokens_text(fl), tokens_text(group));
        assert(opening(BracketsTokenType::SimpleSeq) + x + seq![')'] =~= tokens_text(group));
        lemma_extract_again(t, pos2, BracketsTokenType::SimpleSeq, x);
        let next2 = pos2 + 1 + x.len() + 1;
        assert(t.skip(pos2).subrange(0, tokens_text(group).len() as int)[0] == tokens_text(
            group,
        )[0]);
        assert(t[pos2] == '(');
        lemma_bracketed(k);
        assert(bracketed(k) == group);
        lemma_tail_skip(t, pos2, text, base, tokens_text(group).len() as int);
        assert(t.subrange(next2, next2) =~= s.subrange(g.next, g.next));
        lemma_look_again(s, g.next, g.next, next, t, next2, next2);
    } else if s[pos] == '|' {
        let rest = look_tokens_at(s, pos + 1, pos + 1, e)->Ok_0;
        let bar = TokenView::Binary(seq!['|']);
        lemma_tokens_text_push(fl, bar);
        lemma_tokens_text_add(fl.push(bar), rest);
        assert(text =~= tokens_text(fl) + seq!['|'] + tokens_text(rest));
        lemma_tail_char(t, pos2, text, base);
        lemma_tail_skip(t, pos2, text, base, 1);
        assert(tokens_text(e) =~= Seq::<char>::empty());
        assert(text.skip(base + 1) =~= tokens_text(rest).skip(0));
        assert(t.subrange(pos2 + 1, pos2 + 1) =~= s.subrange(pos + 1, pos + 1));
        lemma_look_again(s, pos + 1, pos + 1, e, t, pos2 + 1, pos2 + 1);
    } else if s[pos] == ')' {
    } else if s[pos] == '$' {
        lemma_tokens_text_push(fl, TokenView::StringEnd);
        assert(text =~= tokens_text(fl) + seq!['$']);
        lemma_tail_char(t, pos2, text, base);
        assert(t.skip(pos2).len() == text.skip(base).len());
    } else if s[pos] == '*' {
        let star = TokenView::Unary(seq!['*']);
        lemma_tokens_text_push(fl, star);
        lemma_look_extends(s, pos + 1, pos + 1, fl.push(star));
        assert(s.subrange(pos + 1, pos + 1) =~= Seq::<char>::empty());
        let head = tokens_text(fl.push(star)) + s.subrange(pos + 1, pos + 1);
        assert(head =~= tokens_text(fl) + seq!['*']);
        assert(text.subrange(0, head.len() as int)[base] == head[base]);
        lemma_tail_char(t, pos2, text, base);
        lemma_tail_skip(t, pos2, text, base, 1);
        assert(t.subrange(pos2 + 1, pos2 + 1) =~= s.subrange(pos + 1, pos + 1));
        lemma_look_again(s, pos + 1, pos + 1, fl.push(star), t, pos2 + 1, pos2 + 1);
    } else {
        lemma_look_extends(s, pos + 1, b, toks);
        let head = tokens_text(toks) + s.subrange(b, pos + 1);
        assert(head[base] == s[pos]);
        assert(text.subrange(0, head.len() as int)[base] == head[base]);
        lemma_tail_char(t, pos2, text, base);
        lemma_tail_skip(t, pos2, text, base, 1);
        assert(t.subrange(b2, pos2 + 1) =~= s.subrange(b, pos + 1)) by {
            assert(t.subrange(b2, pos2 + 1) =~= t.subrange(b2, pos2).push(t[pos2]));
            assert(s.subrange(b, pos + 1) =~= s.subrange(b, pos).push(s[pos]));
        }
        lemma_look_again(s, pos + 1, b, toks, t, pos2 + 1, b2);
    }
}

/// What holds of the content of a group in an expression body: its text
/// gives it again, is balanced, is not empty and begins with no `?`; its
/// brackets are in order, and it is not one pair of brackets.
pub open spec fn stands_regex(c: Seq<TokenView>) -> bool {
    &&& regex_tokens_at(tokens_text(c), 0, 0, Seq::empty()) == Ok::<Seq<TokenView>, ParseError>(c)
    &&& balanced(tokens_text(c))
    &&& tokens_text(c).len() > 0
    &&& tokens_text(c)[0] != '?'
    &&& brackets_in_order(c)
    &&& !spanning(c)
}

/// An expression body: the content of the brackets that are put round its
/// tokens stands.
pub proof fn lemma_regex_kernel(y: Seq<char>)
    requires
        y.len() > 0,
        y[0] != '?',
        regex_tokens_at(y, 0, 0, Seq::empty()) is Ok,
    ensures
        stands_regex(kernel(regex_tokens_at(y, 0, 0, Seq::empty())->Ok_0)),
    decreases y.len(), y.len() + 1,
{
    let e = Seq::<TokenView>::empty();
    let inner = regex_tokens_at(y, 0, 0, e)->Ok_0;
    lemma_in_order_empty();
    lemma_regex_in_order(y, 0, 0, e);
    lemma_kernel(inner);
    lemma_regex_first(y);
    assert(tokens_text(e) =~= Seq::<char>::empty());
    if spanning(inner) {
        lemma_spanning(inner);
        let c = inner.subrange(1, inner.len() - 1);
        lemma_wrap_text(c);
        assert(tokens_text(inner)[0] == '(');
        assert(flushed(e, y, 0, 0) == e);
        lemma_extract_bounds(y, 0);
        let g = spec_extract(y, 0)->Ok_0;
        match g.kind {
            BracketsTokenType::Lookahead => {
                let t = TokenView::LookaheadGroup(look_tokens_at(g.inner, 0, 0, e)->Ok_0);
                lemma_regex_extends(y, g.next, g.next, e.push(t));
                assert(inner.take(1)[0] == e.push(t)[0]);
            },
            BracketsTokenType::Lookbehind => {
                let t = TokenView::LookbehindGroup(look_tokens_at(g.inner, 0, 0, e)->Ok_0);
                lemma_regex_extends(y, g.next, g.next, e.push(t));
                assert(inner.take(1)[0] == e.push(t)[0]);
            },
            BracketsTokenType::SimpleSeq => {
                let inner0 = regex_tokens_at(g.inner, 0, 0, e)->Ok_0;
                let b0 = bracketed(inner0);
                lemma_regex_in_order(g.inner, 0, 0, e);
                lemma_bracketed(inner0);
                lemma_kernel(inner0);
                let k0 = kernel(inner0);
                assert(e + b0 =~= b0);
                lemma_regex_extends(y, g.next, g.next, b0);
                lemma_wrap_closes(k0);
                let rest = inner.skip(b0.len() as int);
                assert(inner =~= e + b0 + rest) by {
                    assert(inner.take(b0.len() as int) == b0);
                }
                lemma_bracket_end_shift(e, b0, rest, 1, 1);
                assert(inner =~= b0);
                assert(c =~= k0);
                assert(g.inner[0] == y[1]);
                lemma_regex_kernel(g.inner);
            },
        }
    } else {
        lemma_regex_balanced(y, 0, 0, e);
        assert(tokens_text(inner).subrange(0, 0) =~= y.subrange(0, 0));
        assert(tokens_text(inner).skip(0) =~= tokens_text(inner));
        lemma_regex_again(y, 0, 0, e, tokens_text(inner), 0, 0);
    }
}

/// The text of the tokens of an expression body is balanced.
pub proof fn lemma_regex_balanced(s: Seq<char>, pos: int, b: int, toks: Seq<TokenView>)
    requires
        0 <= b <= pos <= s.len(),
        regex_tokens_at(s, pos, b, toks) is Ok,
        balanced(tokens_text(toks)),
        bracket_free(s.subrange(b, pos)),
    ensures
        balanced(tokens_text(regex_tokens_at(s, pos, b, toks)->Ok_0)),
    decreases s.len(), s.len() - pos,
{
    let e = Seq::<TokenView>::empty();
    let res = regex_tokens_at(s, pos, b, toks)->Ok_0;
    let fl = flushed(toks, s, b, pos);
    lemma_flushed(toks, s, b, pos);
    lemma_bracket_free_balanced(s.subrange(b, pos));
    lemma_balanced_add(tokens_text(toks), s.subrange(b, pos));
    assert(tokens_text(e) =~= Seq::<char>::empty());
    assert(bracket_free(Seq::<char>::empty()));
    lemma_bracket_free_balanced(Seq::<char>::empty());
    if pos >= s.len() {
    } else if s[pos] == '(' {
        lemma_extract_bounds(s, pos);
        let g = spec_extract(s, pos)->Ok_0;
        assert(s.subrange(g.next, g.next) =~= Seq::<char>::empty());
        assert(g.inner.subrange(0, 0) =~= Seq::<char>::empty());
        match g.kind {
            BracketsTokenType::Lookahead => {
                let inner = look_tokens_at(g.inner, 0, 0, e)->Ok_0;
                let t = TokenView::LookaheadGroup(inner);
                lemma_look_balanced(g.inner, 0, 0, e);
                assert(bracket_free(opening(BracketsTokenType::Lookahead).skip(1)));
                lemma_balanced_group(opening(BracketsTokenType::Lookahead), tokens_text(inner));
                lemma_tokens_text_push(fl, t);
                lemma_balanced_add(tokens_text(fl), token_text(t));
                lemma_regex_balanced(s, g.next, g.next, fl.push(t));
            },
            BracketsTokenType::Lookbehind => {
                let inner = look_tokens_at(g.inner, 0, 0, e)->Ok_0;
                let t = TokenView::LookbehindGroup(inner);
                lemma_look_balanced(g.inner, 0, 0, e);
                assert(bracket_free(opening(BracketsTokenType::Lookbehind).skip(1)));
                lemma_balanced_group(opening(BracketsTokenType::Lookbehind), tokens_text(inner));
                lemma_tokens_text_push(fl, t);
                lemma_balanced_add(tokens_text(fl), token_text(t));
                lemma_regex_balanced(s, g.next, g.next, fl.push(t));
            },
            BracketsTokenType::SimpleSeq => {
                let inner = regex_tokens_at(g.inner, 0, 0, e)->Ok_0;
                lemma_in_order_empty();
                lemma_regex_in_order(g.inner, 0, 0, e);
                lemma_bracketed(inner);
                assert(g.inner[0] == s[pos + 1]);
                lemma_regex_kernel(g.inner);
                let k = kernel(inner);
                lemma_wrap_text(k);
                assert(seq!['('].skip(1) =~= Seq::<char>::empty());
                lemma_balanced_group(seq!['('], tokens_text(k));
                lemma_tokens_text_add(fl, bracketed(inner));
                lemma_balanced_add(tokens_text(fl), tokens_text(bracketed(inner)));
                lemma_regex_balanced(s, g.next, g.next, fl + bracketed(inner));
            },
        }
    } else if s[pos] == ')' {
    } else if s[pos] == '|' {
        let rest = regex_tokens_at(s, pos + 1, pos + 1, e)->Ok_0;
        let t = TokenView::Binary(seq!['|']);
        assert(s.subrange(pos + 1, pos + 1) =~= Seq::<char>::empty());
        lemma_regex_balanced(s, pos + 1, pos + 1, e);
        lemma_tokens_text_push(fl, t);
        assert(bracket_free(seq!['|']));
        lemma_bracket_free_balanced(seq!['|']);
        lemma_balanced_add(tokens_text(fl), seq!['|']);
        lemma_tokens_text_add(fl.push(t), rest);
        lemma_balanced_add(tokens_text(fl.push(t)), tokens_text(rest));
    } else if s[pos] == '*' {
        let t = TokenView::Unary(seq!['*']);
        lemma_tokens_text_push(fl, t);
        assert(bracket_free(seq!['*']));
        lemma_bracket_free_balanced(seq!['*']);
        lemma_balanced_add(tokens_text(fl), seq!['*']);
        assert(s.subrange(pos + 1, pos + 1) =~= Seq::<char>::empty());
        lemma_regex_balanced(s, pos + 1, pos + 1, fl.push(t));
    } else {
        assert(bracket_free(s.subrange(b, pos + 1))) by {
            assert forall|k: int| 0 <= k < s.subrange(b, pos + 1).len() implies #[trigger] s.subrange(
                b,
                pos + 1,
            )[k] != '(' && s.subrange(b, pos + 1)[k] != ')' by {
                if k < pos - b {
                    assert(s.subrange(b, pos)[k] == s[b + k]);
                }
            }
        }
        lemma_regex_balanced(s, pos + 1, b, toks);
    }
}

/// Where `t` goes on at `pos2` with a lookahead or lookbehind group whose
/// body gave the tokens `inner`, the group is read from `t` with the same
/// tokens.
proof fn lemma_look_group_again(
    y: Seq<char>,
    kind: BracketsTokenType,
    t: Seq<char>,
    pos2: int,
)
    requires
        kind != BracketsTokenType::SimpleSeq,
        y.len() > 0,
        look_tokens_at(y, 0, 0, Seq::empty()) is Ok,
        0 <= pos2 <= t.len(),
        starts_with(
            t.skip(pos2),
            opening(kind) + tokens_text(look_tokens_at(y, 0, 0, Seq::empty())->Ok_0) + seq![')'],
        ),
    ensures
        spec_extract(t, pos2) == Ok::<Group, ParseError>(
            Group {
                kind,
                inner: tokens_text(look_tokens_at(y, 0, 0, Seq::empty())->Ok_0),
                next: pos2 + opening(kind).len() + tokens_text(
                    look_tokens_at(y, 0, 0, Seq::empty())->Ok_0,
                ).len() + 1,
            },
        ),
        look_tokens_at(
            tokens_text(look_tokens_at(y, 0, 0, Seq::empty())->Ok_0),
            0,
            0,
            Seq::empty(),
        ) == look_tokens_at(y, 0, 0, Seq::empty()),
        t[pos2] == '(',
{
    let e = Seq::<TokenView>::empty();
    let inner = look_tokens_at(y, 0, 0, e)->Ok_0;
    let x = tokens_text(inner);
    assert(tokens_text(e) =~= Seq::<char>::empty());
    assert(bracket_free(Seq::<char>::empty()));
    lemma_bracket_free_balanced(Seq::<char>::empty());
    assert(y.subrange(0, 0) =~= Seq::<char>::empty());
    lemma_look_balanced(y, 0, 0, e);
    lemma_look_first(y);
    lemma_extract_again(t, pos2, kind, x);
    assert(x.subrange(0, 0) =~= y.subrange(0, 0));
    assert(x.skip(0) =~= x);
    lemma_look_again(y, 0, 0, e, x, 0, 0);
    let whole = opening(kind) + x + seq![')'];
    assert(t.skip(pos2).subrange(0, whole.len() as int)[0] == whole[0]);
}

/// Where `t` goes on as the text of the tokens of an expression body goes
/// on, reading `t` on gives the same tokens.
pub proof fn lemma_regex_again(
    s: Seq<char>,
    pos: int,
    b: int,
    toks: Seq<TokenView>,
    t: Seq<char>,
    pos2: int,
    b2: int,
)
    requires
        0 <= b <= pos <= s.len(),
        0 <= b2 <= pos2 <= t.len(),
        regex_tokens_at(s, pos, b, toks) is Ok,
        t.subrange(b2, pos2) == s.subrange(b, pos),
        t.skip(pos2) == tokens_text(regex_tokens_at(s, pos, b, toks)->Ok_0).skip(
            tokens_text(toks).len() + pos - b,
        ),
    ensures
        regex_tokens_at(t, pos2, b2, toks) == regex_tokens_at(s, pos, b, toks),
    decreases s.len(), s.len() - pos,
{
    let e = Seq::<TokenView>::empty();
    let res = regex_tokens_at(s, pos, b, toks)->Ok_0;
    let fl = flushed(toks, s, b, pos);
    let text = tokens_text(res);
    let base = tokens_text(toks).len() + pos - b;
    lemma_flushed(toks, s, b, pos);
    lemma_same_flush(toks, s, b, pos, t, b2, pos2);
    lemma_regex_extends(s, pos, b, toks);
    if pos >= s.len() {
        assert(text.skip(base).len() == text.len() - base);
        assert(t.skip(pos2).len() == t.len() - pos2);
    } else if s[pos] == '(' {
        lemma_extract_bounds(s, pos);
        let g = spec_extract(s, pos)->Ok_0;
        assert(s.subrange(g.next, g.next) =~= Seq::<char>::empty());
        match g.kind {
            BracketsTokenType::Lookahead => {
                let inner = look_tokens_at(g.inner, 0, 0, e)->Ok_0;
                let tk = TokenView::LookaheadGroup(inner);
                let next = fl.push(tk);
                lemma_tokens_text_push(fl, tk);
                lemma_regex_extends(s, g.next, g.next, next);
                assert(tokens_text(next) + s.subrange(g.next, g.next) =~= tokens_text(fl)
                    + token_text(tk));
                lemma_tail_starts(t, pos2, text, tokens_text(fl), token_text(tk));
                lemma_look_group_again(g.inner, BracketsTokenType::Lookahead, t, pos2);
                let next2 = pos2 + token_text(tk).len();
                lemma_tail_skip(t, pos2, text, base, token_text(tk).len() as int);
                assert(t.subrange(next2, next2) =~= s.subrange(g.next, g.next));
                lemma_regex_again(s, g.next, g.next, next, t, next2, next2);
            },
            BracketsTokenType::Lookbehind => {
                let inner = look_tokens_at(g.inner, 0, 0, e)->Ok_0;
                let tk = TokenView::LookbehindGroup(inner);
                let next = fl.push(tk);
                lemma_tokens_text_push(fl, tk);
                lemma_regex_extends(s, g.next, g.next, next);
                assert(tokens_text(next) + s.subrange(g.next, g.next) =~= tokens_text(fl)
                    + token_text(tk));
                lemma_tail_starts(t, pos2, text, tokens_text(fl), token_text(tk));
                lemma_look_group_again(g.inner, BracketsTokenType::Lookbehind, t, pos2);
                let next2 = pos2 + token_text(tk).len();
                lemma_tail_skip(t, pos2, text, base, token_text(tk).len() as int);
                assert(t.subrange(next2, next2) =~= s.subrange(g.next, g.next));
                lemma_regex_again(s, g.next, g.next, next, t, next2, next2);
            },
            BracketsTokenType::SimpleSeq => {
                let inner = regex_tokens_at(g.inner, 0, 0, e)->Ok_0;
                lemma_in_order_empty();
                lemma_regex_in_order(g.inner, 0, 0, e);
                lemma_bracketed(inner);
                assert(g.inner[0] == s[pos + 1]);
                lemma_regex_kernel(g.inner);
                let k = kernel(inner);
                let x = tokens_text(k);
                let group = bracketed(inner);
                let next = fl + group;
                lemma_wrap_text(k);
                lemma_tokens_text_add(fl, group);
                lemma_regex_extends(s, g.next, g.next, next);
                assert(tokens_text(next) + s.subrange(g.next, g.next) =~= tokens_text(fl)
                    + tokens_text(group));
                lemma_tail_starts(t, pos2, text, tokens_text(fl), tokens_text(group));
                assert(opening(BracketsTokenType::SimpleSeq) + x + seq![')'] =~= tokens_text(
                    group,
                ));
                lemma_extract_again(t, pos2, BracketsTokenType::SimpleSeq, x);
                let next2 = pos2 + 1 + x.len() + 1;
                assert(t.skip(pos2).subrange(0, tokens_text(group).len() as int)[0]
                    == tokens_text(group)[0]);
                assert(t[pos2] == '(');
                lemma_bracketed(k);
                assert(bracketed(k) == group);
                lemma_tail_skip(t, pos2, text, base, tokens_text(group).len() as int);
                assert(t.subrange(next2, next2) =~= s.subrange(g.next, g.next));
                lemma_regex_again(s, g.next, g.next, next, t, next2, next2);
            },
        }
    } else if s[pos] == ')' {
    } else if s[pos] == '|' {
        let rest = regex_tokens_at(s, pos + 1, pos + 1, e)->Ok_0;
        let bar = TokenView::Binary(seq!['|']);
        lemma_tokens_text_push(fl, bar);
        lemma_tokens_text_add(fl.push(bar), rest);
        assert(text =~= tokens_text(fl) + seq!['|'] + tokens_text(rest));
        lemma_tail_char(t, pos2, text, base);
        lemma_tail_skip(t, pos2, text, base, 1);
        assert(tokens_text(e) =~= Seq::<char>::empty());
        assert(text.skip(base + 1) =~= tokens_text(rest).skip(0));
        assert(t.subrange(pos2 + 1, pos2 + 1) =~= s.subrange(pos + 1, pos + 1));
        lemma_regex_again(s, pos + 1, pos + 1, e, t, pos2 + 1, pos2 + 1);
    } else if s[pos] == '*' {
        let star = TokenView::Unary(seq!['*']);
        lemma_tokens_text_push(fl, star);
        lemma_regex_extends(s, pos + 1, pos + 1, fl.push(star));
        assert(s.subrange(pos + 1, pos + 1) =~= Seq::<char>::empty());
        let head = tokens_text(fl.push(star)) + s.subrange(pos + 1, pos + 1);
        assert(head =~= tokens_text(fl) + seq!['*']);
        assert(text.subrange(0, head.len() as int)[base] == head[base]);
        lemma_tail_char(t, pos2, text, base);
        lemma_tail_skip(t, pos2, text, base, 1);
        assert(t.subrange(pos2 + 1, pos2 + 1) =~= s.subrange(pos + 1, pos + 1));
        lemma_regex_again(s, pos + 1, pos + 1, fl.push(star), t, pos2 + 1, pos2 + 1);
    } else {
        lemma_regex_extends(s, pos + 1, b, toks);
        let head = tokens_text(toks) + s.subrange(b, pos + 1);
        assert(head[base] == s[pos]);
        assert(text.subrange(0, head.len() as int)[base] == head[base]);
        lemma_tail_char(t, pos2, text, base);
        lemma_tail_skip(t, pos2, text, base, 1);
        assert(t.subrange(b2, pos2 + 1) =~= s.subrange(b, pos + 1)) by {
            assert(t.subrange(b2, pos2 + 1) =~= t.subrange(b2, pos2).push(t[pos2]));
            assert(s.subrange(b, pos + 1) =~= s.subrange(b, pos).push(s[pos]));
        }
        lemma_regex_again(s, pos + 1, b, toks, t, pos2 + 1, b2);
    }
}

/// The text of the tokens of an expression, between the anchors, is an
/// expression with the same tokens.
pub proof fn lemma_round_trip(r: Seq<char>)
    requires
        spec_parse(r) is Ok,
    ensures
        spec_parse(seq!['^'] + tokens_text(spec_parse(r)->Ok_0) + seq!['$']) == spec_parse(r),
{
    let e = Seq::<TokenView>::empty();
    let body = r.subrange(1, r.len() - 1);
    let ts = spec_parse(r)->Ok_0;
    let text = tokens_text(ts);
    let again = seq!['^'] + text + seq!['$'];
    assert(again.subrange(1, again.len() - 1) =~= text);
    assert(again[0] == '^');
    assert(again.last() == '$');
    assert(tokens_text(e) =~= Seq::<char>::empty());
    assert(text.subrange(0, 0) =~= body.subrange(0, 0));
    assert(text.skip(0) =~= text);
    lemma_regex_again(body, 0, 0, e, text, 0, 0);
}

} // verus!
