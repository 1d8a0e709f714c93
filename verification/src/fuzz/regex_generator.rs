//! What the generator of random expressions measures and draws.
use vstd::prelude::*;
use rand::rngs::ThreadRng;
use crate::fuzz::chance::below;
use crate::fuzz::chance::coin;
use crate::fuzz::accepted::lemma_expression_parses;
use crate::fuzz::chance::thread_rng;
use crate::parser::spec_parse;
use crate::ndfa::ast::is_letter;
use crate::text::chars_of;

verus! {

/// The limits of a random expression.
#[derive(Debug, Clone, Copy)]
pub struct Config {
    pub max_lookahead_count: usize,
    pub star_height: usize,
    pub alphabet_size: i32,
    pub max_letter_count: usize,
}

/// A generator of random expressions.
#[derive(Debug)]
pub struct RegexGenerator {
    pub config: Config,
}

/// The number of letters among the first `n` characters of `s`.
pub open spec fn letters_upto(s: Seq<char>, n: int) -> nat
    decreases n,
{
    if n <= 0 {
        0
    } else if is_letter(s[n - 1]) {
        letters_upto(s, n - 1) + 1
    } else {
        letters_upto(s, n - 1)
    }
}

/// The number of letters in `s`.
pub open spec fn letters_in(s: Seq<char>) -> nat {
    letters_upto(s, s.len() as int)
}

/// A lookahead begins at `i`.
pub open spec fn lookahead_at(s: Seq<char>, i: int) -> bool {
    0 <= i && i + 3 <= s.len() && s[i] == '(' && s[i + 1] == '?' && s[i + 2] == '='
}

/// The number of lookaheads that begin in `s` at `i` or behind it.
pub open spec fn lookaheads_from(s: Seq<char>, i: int) -> nat
    decreases s.len() - i,
{
    if i < 0 || i + 3 > s.len() {
        0
    } else if lookahead_at(s, i) {
        lookaheads_from(s, i + 3) + 1
    } else {
        lookaheads_from(s, i + 1)
    }
}

proof fn lemma_lookaheads_bound(s: Seq<char>, i: int)
    requires
        0 <= i <= s.len(),
    ensures
        lookaheads_from(s, i) <= s.len() - i,
    decreases s.len() - i,
{
    if i + 3 <= s.len() {
        if lookahead_at(s, i) {
            lemma_lookaheads_bound(s, i + 3);
        } else {
            lemma_lookaheads_bound(s, i + 1);
        }
    }
}

impl RegexGenerator {
    /// A generator with the limits `config`.
    pub fn new(config: &Config) -> (generator: Self)
        ensures
            generator.config == *config,
    {
        Self {
            config: Config {
                max_lookahead_count: config.max_lookahead_count,
                star_height: config.star_height,
                alphabet_size: config.alphabet_size,
                max_letter_count: config.max_letter_count,
            },
        }
    }

    /// One of the first `alphabet_size` small letters, at random.
    pub fn get_random_symbol(&self) -> (symbol: String)
        requires
            0 < self.config.alphabet_size <= 26,
        ensures
            symbol@.len() == 1,
            'a' <= symbol@[0] <= 'z',
            (symbol@[0] as int) - ('a' as int) < (self.config.alphabet_size as int),
    {
        let mut rng = thread_rng();
        let r = below(&mut rng, self.config.alphabet_size as usize);
        let letter = (97u8 + r as u8) as char;
        let mut symbol = String::new();
        symbol.push(letter);
        symbol
    }

    /// The number of letters in `r`.
    pub fn get_letters_count(&self, r: &str) -> (count: usize)
        ensures
            count == letters_in(r@),
    {
        let chars = chars_of(r);
        let mut count: usize = 0;
        let mut i: usize = 0;
        while i < chars.len()
            invariant
                i <= chars.len(),
                count <= i,
                count == letters_upto(chars@, i as int),
            decreases chars.len() - i,
        {
            if 'a' <= chars[i] && chars[i] <= 'z' {
                count += 1;
            }
            i += 1;
        }
        count
    }

    /// The number of lookaheads that begin in `r`.
    pub fn get_lookahead_count(&self, r: &str) -> (count: usize)
        ensures
            count == lookaheads_from(r@, 0),
    {
        let chars = chars_of(r);
        let n = chars.len();
        let mut count: usize = 0;
        let mut i: usize = 0;
        while n >= 3 && i <= n - 3
            invariant
                n == chars.len(),
                i <= n,
                count <= i,
                count + lookaheads_from(chars@, i as int) == lookaheads_from(chars@, 0),
            decreases n - i,
        {
            if chars[i] == '(' && chars[i + 1] == '?' && chars[i + 2] == '=' {
                count += 1;
                i += 3;
            } else {
                i += 1;
            }
        }
        count
    }
}

// -------------------------------------------------------------------------
// Random expressions
// -------------------------------------------------------------------------

/// The number of draws after which a draw that does not fit is no longer
/// repeated.
pub const DRAW_LIMIT: usize = usize::MAX;

/// `c` is one of the letters that the generator writes.
pub open spec fn is_small(c: char) -> bool {
    'a' <= c <= 'z'
}

/// The number of small letters among the first `n` characters of `s`.
pub open spec fn small_letters_upto(s: Seq<char>, n: int) -> nat
    decreases n,
{
    if n <= 0 {
        0
    } else if is_small(s[n - 1]) {
        small_letters_upto(s, n - 1) + 1
    } else {
        small_letters_upto(s, n - 1)
    }
}

/// The number of small letters in `s`.
pub open spec fn small_letters(s: Seq<char>) -> nat {
    small_letters_upto(s, s.len() as int)
}

proof fn lemma_small_letters_head(a: Seq<char>, b: Seq<char>, n: int)
    requires
        0 <= n <= a.len(),
    ensures
        small_letters_upto(a + b, n) == small_letters_upto(a, n),
    decreases n,
{
    if n > 0 {
        lemma_small_letters_head(a, b, n - 1);
        assert((a + b)[n - 1] == a[n - 1]);
    }
}

proof fn lemma_small_letters_tail(a: Seq<char>, b: Seq<char>, n: int)
    requires
        0 <= n <= b.len(),
    ensures
        small_letters_upto(a + b, a.len() + n) == small_letters(a) + small_letters_upto(b, n),
    decreases n,
{
    if n > 0 {
        lemma_small_letters_tail(a, b, n - 1);
        assert((a + b)[a.len() + n - 1] == b[n - 1]);
    } else {
        lemma_small_letters_head(a, b, a.len() as int);
    }
}

/// The small letters of two texts one after the other are those of both.
pub proof fn lemma_small_letters_add(a: Seq<char>, b: Seq<char>)
    ensures
        small_letters(a + b) == small_letters(a) + small_letters(b),
{
    lemma_small_letters_tail(a, b, b.len() as int);
}

/// One character adds one small letter if it is one, and else none.
pub proof fn lemma_small_letters_push(a: Seq<char>, c: char)
    ensures
        small_letters(a.push(c)) == small_letters(a) + if is_small(c) {
            1nat
        } else {
            0nat
        },
{
    let b = seq![c];
    assert(a.push(c) =~= a + b);
    lemma_small_letters_add(a, b);
    assert(small_letters_upto(b, 1) == small_letters_upto(b, 0) + if is_small(b[0]) {
        1nat
    } else {
        0nat
    });
}

/// The number of small letters in `r`.
fn count_small_letters(r: &String) -> (count: usize)
    ensures
        count == small_letters(r@),
{
    let chars = chars_of(r.as_str());
    let mut count: usize = 0;
    let mut i: usize = 0;
    while i < chars.len()
        invariant
            i <= chars.len(),
            count <= i,
            count == small_letters_upto(chars@, i as int),
        decreases chars.len() - i,
    {
        if 'a' <= chars[i] && chars[i] <= 'z' {
            count += 1;
        }
        i += 1;
    }
    count
}

/// `lhs` and `rhs` one after the other.
fn joined(lhs: &String, rhs: &String) -> (r: String)
    ensures
        r@ == lhs@ + rhs@,
        small_letters(r@) == small_letters(lhs@) + small_letters(rhs@),
        forall|n: int, ahead: bool|
            written(lhs@, n, ahead) && written(rhs@, n, ahead) ==> #[trigger] written(r@, n, ahead),
{
    let mut r = lhs.clone();
    r.append(rhs.as_str());
    proof {
        lemma_small_letters_add(lhs@, rhs@);
        assert forall|n: int, ahead: bool|
            written(lhs@, n, ahead) && written(rhs@, n, ahead) implies #[trigger] written(
            r@,
            n,
            ahead,
        ) by {
            lemma_written_add(lhs@, rhs@, n, ahead);
        }
    }
    r
}

/// `regex` between `open` and `close`, which hold no small letter.
fn enclosed(open: &str, regex: &String, close: &str) -> (r: String)
    requires
        small_letters(open@) == 0,
        small_letters(close@) == 0,
    ensures
        r@ == open@ + regex@ + close@,
        small_letters(r@) == small_letters(regex@),
        forall|n: int, ahead: bool|
            written(open@, n, ahead) && written(regex@, n, ahead) && written(close@, n, ahead)
                ==> #[trigger] written(r@, n, ahead),
{
    let mut r = String::from_str(open);
    r.append(regex.as_str());
    r.append(close);
    proof {
        lemma_small_letters_add(open@, regex@);
        lemma_small_letters_add(open@ + regex@, close@);
        assert forall|n: int, ahead: bool|
            written(open@, n, ahead) && written(regex@, n, ahead) && written(
                close@,
                n,
                ahead,
            ) implies #[trigger] written(r@, n, ahead) by {
            lemma_written_add(open@, regex@, n, ahead);
            lemma_written_add(open@ + regex@, close@, n, ahead);
        }
    }
    r
}

/// The marks that the generator writes hold no small letter.
proof fn lemma_marks()
    ensures
        small_letters("("@) == 0,
        small_letters(")"@) == 0,
        small_letters("|"@) == 0,
        small_letters(")*"@) == 0,
        small_letters("(?="@) == 0,
        small_letters("^"@) == 0,
        small_letters("$"@) == 0,
        small_letters(""@) == 0,
        ""@.len() == 0,
        "^"@ == seq!['^'],
        "$"@ == seq!['$'],
{
    reveal_strlit("(");
    reveal_strlit(")");
    reveal_strlit("|");
    reveal_strlit(")*");
    reveal_strlit("(?=");
    reveal_strlit("^");
    reveal_strlit("$");
    reveal_strlit("");
    reveal_with_fuel(small_letters_upto, 4);
    assert("^"@ =~= seq!['^']);
    assert("$"@ =~= seq!['$']);
}

/// `c` is a character that the generator writes with an alphabet of `n`
/// letters: one of the first `n` small letters, a bracket, a bar or a
/// star, and, where lookaheads may stand, a question mark or an equals
/// sign.
pub open spec fn is_written(c: char, n: int, ahead: bool) -> bool {
    ||| is_small(c) && (c as int) - ('a' as int) < n
    ||| c == '(' || c == ')' || c == '|' || c == '*'
    ||| ahead && (c == '?' || c == '=')
}

/// `s` holds only characters that the generator writes with an alphabet
/// of `n` letters, those of a lookahead only if `ahead` says so.
pub open spec fn written(s: Seq<char>, n: int, ahead: bool) -> bool {
    forall|k: int| 0 <= k < s.len() ==> is_written(#[trigger] s[k], n, ahead)
}

/// What is written one after the other is written.
pub proof fn lemma_written_add(a: Seq<char>, b: Seq<char>, n: int, ahead: bool)
    requires
        written(a, n, ahead),
        written(b, n, ahead),
    ensures
        written(a + b, n, ahead),
{
    assert forall|k: int| 0 <= k < (a + b).len() implies is_written(
        #[trigger] (a + b)[k],
        n,
        ahead,
    ) by {
        if k < a.len() {
            assert((a + b)[k] == a[k]);
        } else {
            assert((a + b)[k] == b[k - a.len()]);
        }
    }
}

/// What is written without lookaheads is written where they may stand.
pub proof fn lemma_written_ahead(s: Seq<char>, n: int)
    requires
        written(s, n, false),
    ensures
        written(s, n, true),
{
}

/// What is written is written where lookaheads may stand.
pub proof fn lemma_written_any(s: Seq<char>, n: int, ahead: bool)
    requires
        written(s, n, ahead),
    ensures
        written(s, n, true),
{
}

/// The marks that the generator writes are written.
proof fn lemma_marks_written(n: int)
    ensures
        written("("@, n, false),
        written(")"@, n, false),
        written("|"@, n, false),
        written(")*"@, n, false),
        written("(?="@, n, true),
        written(""@, n, false),
        "("@.len() == 1,
        "(?="@.len() == 3,
{
    reveal_strlit("(");
    reveal_strlit(")");
    reveal_strlit("|");
    reveal_strlit(")*");
    reveal_strlit("(?=");
    reveal_strlit("");
}

// -------------------------------------------------------------------------
// The expressions that the generator makes
// -------------------------------------------------------------------------

/// The alternation of `a` and `b`, in brackets.
pub open spec fn alternation_text(a: Seq<char>, b: Seq<char>) -> Seq<char> {
    seq!['('] + a + seq!['|'] + b + seq![')']
}

/// `a` in brackets, repeated.
pub open spec fn star_text(a: Seq<char>) -> Seq<char> {
    seq!['('] + a + seq![')', '*']
}

/// The lookahead with the body `body`.
pub open spec fn lookahead_group_text(body: Seq<char>) -> Seq<char> {
    seq!['(', '?', '='] + body + seq![')']
}

/// `x` is an expression that the generator makes with an alphabet of `n`
/// letters: nothing; a letter; two expressions one after the other; an
/// alternation of two expressions in brackets; an expression in brackets
/// with a star, where `height` stars may still be nested; or, where
/// `ahead` allows it, a lookahead whose body is an expression without
/// lookaheads, in which `inner` stars may be nested.
#[verifier::opaque]
pub open spec fn expression(x: Seq<char>, n: int, height: nat, ahead: bool, inner: nat) -> bool
    decreases x.len(),
{
    ||| x.len() == 0
    ||| x.len() == 1 && is_small(x[0]) && (x[0] as int) - ('a' as int) < n
    ||| exists|k: int|
        0 < k < x.len() && expression(#[trigger] x.take(k), n, height, ahead, inner) && expression(
            x.skip(k),
            n,
            height,
            ahead,
            inner,
        )
    ||| x.len() >= 5 && x[0] == '(' && x.last() == ')' && exists|j: int|
        1 < j < x.len() - 2 && x[j] == '|' && expression(
            #[trigger] x.subrange(1, j),
            n,
            height,
            ahead,
            inner,
        ) && expression(x.subrange(j + 1, x.len() - 1), n, height, ahead, inner)
    ||| height > 0 && x.len() >= 4 && x[0] == '(' && x[x.len() - 2] == ')' && x.last() == '*'
        && expression(x.subrange(1, x.len() - 2), n, (height - 1) as nat, ahead, inner)
    ||| ahead && x.len() >= 5 && x[0] == '(' && x[1] == '?' && x[2] == '=' && x.last() == ')'
        && expression(x.subrange(3, x.len() - 1), n, inner, false, inner)
}

/// Nothing is an expression.
pub proof fn lemma_expression_empty(n: int, height: nat, ahead: bool, inner: nat)
    ensures
        expression(""@, n, height, ahead, inner),
{
    reveal(expression);
    reveal_strlit("");
}

/// One of the first `n` small letters is an expression.
pub proof fn lemma_expression_letter(x: Seq<char>, n: int, height: nat, ahead: bool, inner: nat)
    requires
        x.len() == 1,
        is_small(x[0]),
        (x[0] as int) - ('a' as int) < n,
    ensures
        expression(x, n, height, ahead, inner),
{
    reveal(expression);
}

/// What an expression that is not empty is made of: 0 with a letter; 1
/// with two expressions, the first of `at` characters; 2 with an
/// alternation in brackets whose bar stands at `at`; 3 with an expression
/// in brackets with a star; 4 with a lookahead.
pub open spec fn shaped(
    x: Seq<char>,
    n: int,
    height: nat,
    ahead: bool,
    inner: nat,
    shape: int,
    at: int,
) -> bool {
    if shape == 0 {
        x.len() == 1 && is_small(x[0]) && (x[0] as int) - ('a' as int) < n
    } else if shape == 1 {
        0 < at < x.len() && expression(x.take(at), n, height, ahead, inner) && expression(
            x.skip(at),
            n,
            height,
            ahead,
            inner,
        )
    } else if shape == 2 {
        x.len() >= 5 && x[0] == '(' && x.last() == ')' && 1 < at < x.len() - 2 && x[at] == '|'
            && expression(x.subrange(1, at), n, height, ahead, inner) && expression(
            x.subrange(at + 1, x.len() - 1),
            n,
            height,
            ahead,
            inner,
        )
    } else if shape == 3 {
        height > 0 && x.len() >= 4 && x[0] == '(' && x[x.len() - 2] == ')' && x.last() == '*'
            && expression(x.subrange(1, x.len() - 2), n, (height - 1) as nat, ahead, inner)
    } else {
        shape == 4 && ahead && x.len() >= 5 && x[0] == '(' && x[1] == '?' && x[2] == '='
            && x.last() == ')' && expression(x.subrange(3, x.len() - 1), n, inner, false, inner)
    }
}

/// An expression that is not empty is made in one of the five ways.
pub proof fn lemma_expression_shape(x: Seq<char>, n: int, height: nat, ahead: bool, inner: nat) -> (r:
    (int, int))
    requires
        expression(x, n, height, ahead, inner),
        x.len() > 0,
    ensures
        shaped(x, n, height, ahead, inner, r.0, r.1),
{
    reveal(expression);
    if x.len() == 1 && is_small(x[0]) && (x[0] as int) - ('a' as int) < n {
        (0, 0)
    } else if exists|k: int|
        0 < k < x.len() && expression(#[trigger] x.take(k), n, height, ahead, inner) && expression(
            x.skip(k),
            n,
            height,
            ahead,
            inner,
        ) {
        let k = choose|k: int|
            0 < k < x.len() && expression(#[trigger] x.take(k), n, height, ahead, inner)
                && expression(x.skip(k), n, height, ahead, inner);
        (1, k)
    } else if x.len() >= 5 && x[0] == '(' && x.last() == ')' && exists|j: int|
        1 < j < x.len() - 2 && x[j] == '|' && expression(
            #[trigger] x.subrange(1, j),
            n,
            height,
            ahead,
            inner,
        ) && expression(x.subrange(j + 1, x.len() - 1), n, height, ahead, inner) {
        let j = choose|j: int|
            1 < j < x.len() - 2 && x[j] == '|' && expression(
                #[trigger] x.subrange(1, j),
                n,
                height,
                ahead,
                inner,
            ) && expression(x.subrange(j + 1, x.len() - 1), n, height, ahead, inner);
        (2, j)
    } else if height > 0 && x.len() >= 4 && x[0] == '(' && x[x.len() - 2] == ')' && x.last() == '*'
        && expression(x.subrange(1, x.len() - 2), n, (height - 1) as nat, ahead, inner) {
        (3, 0)
    } else {
        (4, 0)
    }
}

/// Two expressions one after the other are an expression.
pub proof fn lemma_expression_concat(
    a: Seq<char>,
    b: Seq<char>,
    n: int,
    height: nat,
    ahead: bool,
    inner: nat,
)
    requires
        expression(a, n, height, ahead, inner),
        expression(b, n, height, ahead, inner),
    ensures
        expression(a + b, n, height, ahead, inner),
{
    reveal(expression);
    let x = a + b;
    if a.len() == 0 {
        assert(x =~= b);
    } else if b.len() == 0 {
        assert(x =~= a);
    } else {
        let k = a.len() as int;
        assert(x.take(k) =~= a);
        assert(x.skip(k) =~= b);
    }
}

/// The alternation of two expressions that are not empty is an
/// expression.
pub proof fn lemma_expression_alternation(
    a: Seq<char>,
    b: Seq<char>,
    n: int,
    height: nat,
    ahead: bool,
    inner: nat,
)
    requires
        a.len() > 0,
        b.len() > 0,
        expression(a, n, height, ahead, inner),
        expression(b, n, height, ahead, inner),
    ensures
        expression(alternation_text(a, b), n, height, ahead, inner),
{
    reveal(expression);
    let x = alternation_text(a, b);
    let j = 1 + a.len() as int;
    assert(x[j] == '|');
    assert(x.subrange(1, j) =~= a);
    assert(x.subrange(j + 1, x.len() - 1) =~= b);
}

/// An expression that is not empty, in brackets with a star, is an
/// expression in which one more star is nested.
pub proof fn lemma_expression_star(a: Seq<char>, n: int, height: nat, ahead: bool, inner: nat)
    requires
        a.len() > 0,
        height > 0,
        expression(a, n, (height - 1) as nat, ahead, inner),
    ensures
        expression(star_text(a), n, height, ahead, inner),
{
    reveal(expression);
    let x = star_text(a);
    assert(x.subrange(1, x.len() - 2) =~= a);
}

/// A lookahead whose body is an expression without lookaheads is an
/// expression where lookaheads may stand.
pub proof fn lemma_expression_lookahead(body: Seq<char>, n: int, height: nat, inner: nat)
    requires
        body.len() > 0,
        expression(body, n, inner, false, inner),
    ensures
        expression(lookahead_group_text(body), n, height, true, inner),
{
    reveal(expression);
    let x = lookahead_group_text(body);
    assert(x.subrange(3, x.len() - 1) =~= body);
}

/// An expression without lookaheads is an expression where lookaheads
/// may stand.
pub proof fn lemma_expression_ahead(x: Seq<char>, n: int, height: nat, inner: nat)
    requires
        expression(x, n, height, false, inner),
    ensures
        expression(x, n, height, true, inner),
    decreases x.len(),
{
    reveal(expression);
    if x.len() == 0 {
    } else if x.len() == 1 && is_small(x[0]) && (x[0] as int) - ('a' as int) < n {
    } else if exists|k: int|
        0 < k < x.len() && expression(#[trigger] x.take(k), n, height, false, inner) && expression(
            x.skip(k),
            n,
            height,
            false,
            inner,
        ) {
        let k = choose|k: int|
            0 < k < x.len() && expression(#[trigger] x.take(k), n, height, false, inner)
                && expression(x.skip(k), n, height, false, inner);
        lemma_expression_ahead(x.take(k), n, height, inner);
        lemma_expression_ahead(x.skip(k), n, height, inner);
    } else if x.len() >= 5 && x[0] == '(' && x.last() == ')' && exists|j: int|
        1 < j < x.len() - 2 && x[j] == '|' && expression(
            #[trigger] x.subrange(1, j),
            n,
            height,
            false,
            inner,
        ) && expression(x.subrange(j + 1, x.len() - 1), n, height, false, inner) {
        let j = choose|j: int|
            1 < j < x.len() - 2 && x[j] == '|' && expression(
                #[trigger] x.subrange(1, j),
                n,
                height,
                false,
                inner,
            ) && expression(x.subrange(j + 1, x.len() - 1), n, height, false, inner);
        lemma_expression_ahead(x.subrange(1, j), n, height, inner);
        lemma_expression_ahead(x.subrange(j + 1, x.len() - 1), n, height, inner);
    } else {
        lemma_expression_ahead(x.subrange(1, x.len() - 2), n, (height - 1) as nat, inner);
    }
}

/// What a random expression is made of next.
#[derive(Debug, Clone, Copy, PartialEq, Eq, Structural)]
pub enum Production {
    /// Two expressions one after the other.
    Concat,
    /// An alternation of two expressions.
    Alternation,
    /// An expression with a star.
    Star,
    /// One letter.
    Symbol,
    /// A lookahead.
    Lookahead,
    /// What was drawn cannot be made within the limits: another draw.
    Again,
}

/// The production that the drawn number stands for in an expression in
/// which lookaheads may stand: 0 for a concatenation; 1 for an
/// alternation, which takes two letters; 2 for a star, which takes a
/// star that may still be nested; 3 for a letter; any other number for a
/// lookahead, which takes a lookahead that may still stand.
pub open spec fn production_for(
    drawn: int,
    letter_count: int,
    star_height: int,
    lookahead_count: int,
) -> Production {
    if drawn == 0 {
        Production::Concat
    } else if drawn == 1 {
        if letter_count < 2 {
            Production::Again
        } else {
            Production::Alternation
        }
    } else if drawn == 2 {
        if star_height == 0 {
            Production::Again
        } else {
            Production::Star
        }
    } else if drawn == 3 {
        Production::Symbol
    } else if lookahead_count == 0 {
        Production::Again
    } else {
        Production::Lookahead
    }
}

/// The production that the drawn number stands for in the body of a
/// lookahead: as in an expression, but any number from 3 on stands for a
/// letter.
pub open spec fn body_production_for(drawn: int, letter_count: int, star_height: int) -> Production {
    if drawn >= 3 {
        Production::Symbol
    } else {
        production_for(drawn, letter_count, star_height, 0)
    }
}

/// The alternation of `lhs` and `rhs`, in brackets.
pub fn alternation(lhs: &String, rhs: &String) -> (r: String)
    ensures
        r@ == alternation_text(lhs@, rhs@),
        small_letters(r@) == small_letters(lhs@) + small_letters(rhs@),
        forall|n: int, ahead: bool|
            written(lhs@, n, ahead) && written(rhs@, n, ahead) ==> #[trigger] written(r@, n, ahead),
{
    proof {
        lemma_marks();
        reveal_strlit("(");
        reveal_strlit("|");
        reveal_strlit(")");
    }
    let both = enclosed("(", lhs, "|");
    let both = joined(&both, rhs);
    let mut closed = both.clone();
    closed.push(')');
    proof {
        lemma_small_letters_push(both@, ')');
        assert(closed@ =~= alternation_text(lhs@, rhs@));
        assert(closed@ =~= both@ + ")"@);
        assert forall|n: int, ahead: bool|
            written(lhs@, n, ahead) && written(rhs@, n, ahead) implies #[trigger] written(
            closed@,
            n,
            ahead,
        ) by {
            lemma_marks_written(n);
            if ahead {
                lemma_written_ahead("("@, n);
                lemma_written_ahead("|"@, n);
                lemma_written_ahead(")"@, n);
            }
            lemma_written_add(both@, ")"@, n, ahead);
        }
    }
    closed
}

/// `regex` in brackets, repeated.
pub fn starred(regex: &String) -> (r: String)
    ensures
        r@ == star_text(regex@),
        small_letters(r@) == small_letters(regex@),
        forall|n: int, ahead: bool| written(regex@, n, ahead) ==> #[trigger] written(r@, n, ahead),
{
    proof {
        lemma_marks();
        reveal_strlit("(");
        reveal_strlit(")*");
    }
    let r = enclosed("(", regex, ")*");
    proof {
        assert(r@ =~= star_text(regex@));
        assert forall|n: int, ahead: bool| written(regex@, n, ahead) implies #[trigger] written(
            r@,
            n,
            ahead,
        ) by {
            lemma_marks_written(n);
            if ahead {
                lemma_written_ahead("("@, n);
                lemma_written_ahead(")*"@, n);
            }
        }
    }
    r
}

/// The lookahead with the body `body`.
pub fn lookahead_group(body: &String) -> (r: String)
    ensures
        r@ == lookahead_group_text(body@),
        small_letters(r@) == small_letters(body@),
        forall|n: int| written(body@, n, true) ==> #[trigger] written(r@, n, true),
{
    proof {
        lemma_marks();
        reveal_strlit("(?=");
        reveal_strlit(")");
    }
    let r = enclosed("(?=", body, ")");
    proof {
        assert(r@ =~= lookahead_group_text(body@));
        assert forall|n: int| written(body@, n, true) implies #[trigger] written(r@, n, true) by {
            lemma_marks_written(n);
            lemma_written_ahead(")"@, n);
        }
    }
    r
}

impl RegexGenerator {
    /// The alphabet is not empty and holds small letters only.
    pub open spec fn wf(&self) -> bool {
        0 < self.config.alphabet_size <= 26
    }

    /// The production that the drawn number stands for in an expression
    /// in which lookaheads may stand.
    pub fn production(
        drawn: usize,
        letter_count: usize,
        star_height: usize,
        lookahead_count: usize,
    ) -> (p: Production)
        ensures
            p == production_for(
                drawn as int,
                letter_count as int,
                star_height as int,
                lookahead_count as int,
            ),
    {
        if drawn == 0 {
            Production::Concat
        } else if drawn == 1 {
            if letter_count < 2 {
                Production::Again
            } else {
                Production::Alternation
            }
        } else if drawn == 2 {
            if star_height == 0 {
                Production::Again
            } else {
                Production::Star
            }
        } else if drawn == 3 {
            Production::Symbol
        } else if lookahead_count == 0 {
            Production::Again
        } else {
            Production::Lookahead
        }
    }

    /// The production that the drawn number stands for in the body of a
    /// lookahead.
    pub fn body_production(drawn: usize, letter_count: usize, star_height: usize) -> (p: Production)
        ensures
            p == body_production_for(drawn as int, letter_count as int, star_height as int),
            p != Production::Lookahead,
    {
        if drawn >= 3 {
            Production::Symbol
        } else {
            Self::production(drawn, letter_count, star_height, 0)
        }
    }

    /// One random letter, as an expression.
    fn symbol(&self) -> (regex: String)
        requires
            self.wf(),
        ensures
            small_letters(regex@) == 1,
            regex@.len() == 1,
            written(regex@, self.config.alphabet_size as int, false),
            forall|height: nat, ahead: bool, inner: nat| #[trigger]
                expression(regex@, self.config.alphabet_size as int, height, ahead, inner),
    {
        let symbol = self.get_random_symbol();
        proof {
            assert(small_letters_upto(symbol@, 1) == small_letters_upto(symbol@, 0) + 1);
            assert forall|height: nat, ahead: bool, inner: nat| #[trigger]
                expression(symbol@, self.config.alphabet_size as int, height, ahead, inner) by {
                lemma_expression_letter(
                    symbol@,
                    self.config.alphabet_size as int,
                    height,
                    ahead,
                    inner,
                );
            }
        }
        symbol
    }

    /// A random expression without lookaheads of at most `letter_count`
    /// letters and stars nested at most `star_height` deep: the body of a
    /// lookahead, or a part of one.
    pub fn generate_lookahead_rec(
        &self,
        rng: &mut ThreadRng,
        letter_count: usize,
        star_height: usize,
        fuel: usize,
    ) -> (regex: String)
        requires
            self.wf(),
        ensures
            small_letters(regex@) <= letter_count,
            letter_count > 0 <==> regex@.len() > 0,
            written(regex@, self.config.alphabet_size as int, false),
            expression(
                regex@,
                self.config.alphabet_size as int,
                star_height as nat,
                false,
                self.config.star_height as nat,
            ),
        decreases fuel,
    {
        let ghost n = self.config.alphabet_size as int;
        let ghost h = star_height as nat;
        let ghost inner = self.config.star_height as nat;
        proof {
            lemma_marks_written(n);
            lemma_marks();
            lemma_expression_empty(n, h, false, inner);
        }
        if letter_count == 0 {
            return String::from_str("");
        }
        if fuel == 0 {
            return self.symbol();
        }
        let drawn = below(rng, 4);
        match Self::body_production(drawn, letter_count, star_height) {
            Production::Concat => {
                let lhs = self.generate_lookahead_rec(rng, letter_count / 2, star_height, fuel - 1);
                let rhs = self.generate_lookahead_rec(
                    rng,
                    letter_count - letter_count / 2,
                    star_height,
                    fuel - 1,
                );
                proof {
                    lemma_expression_concat(lhs@, rhs@, n, h, false, inner);
                }
                joined(&lhs, &rhs)
            },
            Production::Alternation => {
                let mut lhs = String::from_str("");
                let mut rhs = String::from_str("");
                let mut draws: usize = 0;
                while draws < DRAW_LIMIT && (lhs.as_str().is_empty() || rhs.as_str().is_empty()
                    || lhs == rhs)
                    invariant
                        self.wf(),
                        fuel > 0,
                        letter_count >= 2,
                        n == self.config.alphabet_size as int,
                        h == star_height as nat,
                        inner == self.config.star_height as nat,
                        small_letters(lhs@) <= letter_count / 2,
                        small_letters(rhs@) <= letter_count - letter_count / 2,
                        written(lhs@, n, false),
                        written(rhs@, n, false),
                        expression(lhs@, n, h, false, inner),
                        expression(rhs@, n, h, false, inner),
                        draws == 0 ==> lhs@.len() == 0,
                        draws > 0 ==> lhs@.len() > 0 && rhs@.len() > 0,
                    decreases DRAW_LIMIT - draws,
                {
                    lhs = self.generate_lookahead_rec(rng, letter_count / 2, star_height, fuel - 1);
                    rhs = self.generate_lookahead_rec(
                        rng,
                        letter_count - letter_count / 2,
                        star_height,
                        fuel - 1,
                    );
                    draws += 1;
                }
                proof {
                    lemma_expression_alternation(lhs@, rhs@, n, h, false, inner);
                }
                alternation(&lhs, &rhs)
            },
            Production::Star => {
                let regex = self.generate_lookahead_rec(
                    rng,
                    letter_count,
                    star_height - 1,
                    fuel - 1,
                );
                proof {
                    lemma_expression_star(regex@, n, h, false, inner);
                }
                starred(&regex)
            },
            Production::Symbol => self.symbol(),
            _ => self.generate_lookahead_rec(rng, letter_count, star_height, fuel - 1),
        }
    }

    /// The body of a lookahead: random expressions without lookaheads one
    /// after the other, until they have `letter_count` letters.
    pub fn generate_lookahead(&self, rng: &mut ThreadRng, letter_count: usize) -> (regex: String)
        requires
            self.wf(),
        ensures
            small_letters(regex@) <= letter_count,
            letter_count > 0 <==> regex@.len() > 0,
            written(regex@, self.config.alphabet_size as int, false),
            expression(
                regex@,
                self.config.alphabet_size as int,
                self.config.star_height as nat,
                false,
                self.config.star_height as nat,
            ),
    {
        let ghost n = self.config.alphabet_size as int;
        let ghost h = self.config.star_height as nat;
        proof {
            lemma_marks();
            lemma_marks_written(n);
            lemma_expression_empty(n, h, false, h);
        }
        let mut r = String::from_str("");
        let mut draws: usize = 0;
        while draws < DRAW_LIMIT
            invariant
                self.wf(),
                n == self.config.alphabet_size as int,
                h == self.config.star_height as nat,
                small_letters(r@) <= letter_count,
                written(r@, n, false),
                expression(r@, n, h, false, h),
                letter_count == 0 ==> r@.len() == 0,
                draws == 0 ==> r@.len() == 0,
                draws > 0 && letter_count > 0 ==> r@.len() > 0,
            decreases DRAW_LIMIT - draws,
        {
            let k = count_small_letters(&r);
            if k == letter_count {
                return r;
            }
            let more = self.generate_lookahead_rec(
                rng,
                letter_count - k,
                self.config.star_height,
                DRAW_LIMIT,
            );
            proof {
                lemma_expression_concat(r@, more@, n, h, false, h);
            }
            r = joined(&r, &more);
            draws += 1;
        }
        r
    }

    /// A random expression of at most `letter_count` letters, with stars
    /// nested at most `star_height` deep, in which lookaheads may stand if
    /// `lookahead_count` is not 0.
    pub fn generate_rec(
        &self,
        rng: &mut ThreadRng,
        letter_count: usize,
        star_height: usize,
        lookahead_count: usize,
        fuel: usize,
    ) -> (regex: String)
        requires
            self.wf(),
        ensures
            small_letters(regex@) <= letter_count,
            letter_count > 0 <==> regex@.len() > 0,
            written(regex@, self.config.alphabet_size as int, lookahead_count > 0),
            expression(
                regex@,
                self.config.alphabet_size as int,
                star_height as nat,
                lookahead_count > 0,
                self.config.star_height as nat,
            ),
        decreases fuel,
    {
        let ghost n = self.config.alphabet_size as int;
        let ghost h = star_height as nat;
        let ghost inner = self.config.star_height as nat;
        let ghost ahead = lookahead_count > 0;
        proof {
            lemma_marks_written(n);
            lemma_marks();
            lemma_expression_empty(n, h, false, inner);
            lemma_expression_empty(n, h, ahead, inner);
        }
        if letter_count == 0 {
            return String::from_str("");
        }
        if fuel == 0 {
            let letter = self.symbol();
            proof {
                lemma_written_any(letter@, n, false);
            }
            return letter;
        }
        let drawn = below(rng, 5);
        match Self::production(drawn, letter_count, star_height, lookahead_count) {
            Production::Concat => {
                let lhs = self.generate_rec(
                    rng,
                    letter_count / 2,
                    star_height,
                    lookahead_count / 2,
                    fuel - 1,
                );
                let rhs = self.generate_rec(
                    rng,
                    letter_count - letter_count / 2,
                    star_height,
                    lookahead_count - lookahead_count / 2,
                    fuel - 1,
                );
                proof {
                    if ahead {
                        if lookahead_count / 2 == 0 {
                            lemma_written_ahead(lhs@, n);
                            lemma_expression_ahead(lhs@, n, h, inner);
                        }
                        if lookahead_count - lookahead_count / 2 == 0 {
                            lemma_written_ahead(rhs@, n);
                            lemma_expression_ahead(rhs@, n, h, inner);
                        }
                    }
                    lemma_expression_concat(lhs@, rhs@, n, h, ahead, inner);
                }
                joined(&lhs, &rhs)
            },
            Production::Alternation => {
                let mut lhs = String::from_str("");
                let mut rhs = String::from_str("");
                let mut draws: usize = 0;
                while draws < DRAW_LIMIT && (lhs.as_str().is_empty() || rhs.as_str().is_empty()
                    || lhs == rhs)
                    invariant
                        self.wf(),
                        fuel > 0,
                        letter_count >= 2,
                        n == self.config.alphabet_size as int,
                        h == star_height as nat,
                        inner == self.config.star_height as nat,
                        small_letters(lhs@) <= letter_count / 2,
                        small_letters(rhs@) <= letter_count - letter_count / 2,
                        written(lhs@, n, false),
                        written(rhs@, n, false),
                        expression(lhs@, n, h, false, inner),
                        expression(rhs@, n, h, false, inner),
                        draws == 0 ==> lhs@.len() == 0,
                        draws > 0 ==> lhs@.len() > 0 && rhs@.len() > 0,
                    decreases DRAW_LIMIT - draws,
                {
                    lhs = self.generate_rec(rng, letter_count / 2, star_height, 0, fuel - 1);
                    rhs = self.generate_rec(
                        rng,
                        letter_count - letter_count / 2,
                        star_height,
                        0,
                        fuel - 1,
                    );
                    draws += 1;
                }
                let both = alternation(&lhs, &rhs);
                proof {
                    lemma_expression_alternation(lhs@, rhs@, n, h, false, inner);
                    if ahead {
                        lemma_written_ahead(both@, n);
                        lemma_expression_ahead(both@, n, h, inner);
                    }
                }
                both
            },
            Production::Star => {
                let regex = self.generate_rec(rng, letter_count, star_height - 1, 0, fuel - 1);
                let repeated = starred(&regex);
                proof {
                    lemma_expression_star(regex@, n, h, false, inner);
                    if ahead {
                        lemma_written_ahead(repeated@, n);
                        lemma_expression_ahead(repeated@, n, h, inner);
                    }
                }
                repeated
            },
            Production::Symbol => {
                let letter = self.symbol();
                proof {
                    lemma_written_any(letter@, n, false);
                }
                letter
            },
            Production::Lookahead => {
                let body = self.generate_lookahead(rng, letter_count);
                proof {
                    lemma_written_ahead(body@, n);
                    lemma_expression_lookahead(body@, n, h, inner);
                }
                lookahead_group(&body)
            },
            Production::Again => self.generate_rec(
                rng,
                letter_count,
                star_height,
                lookahead_count,
                fuel - 1,
            ),
        }
    }

    /// `rcount` random anchored expressions within the limits of the
    /// generator. Each is made by the productions of the generator, and
    /// the parser takes each.
    pub fn generate(&self, rcount: usize) -> (result: Vec<String>)
        requires
            self.wf(),
        ensures
            result.len() == rcount,
            forall|i: int|
                0 <= i < result.len() ==> (#[trigger] result[i])@.len() >= 2 && result[i]@[0] == '^'
                    && result[i]@.last() == '$' && small_letters(result[i]@)
                    <= self.config.max_letter_count,
            forall|i: int|
                0 <= i < result.len() ==> (self.config.max_letter_count > 0 ==> (
                #[trigger] result[i])@.len() > 2) && written(
                    result[i]@.subrange(1, result[i]@.len() - 1),
                    self.config.alphabet_size as int,
                    true,
                ),
            forall|i: int|
                0 <= i < result.len() ==> expression(
                    (#[trigger] result[i])@.subrange(1, result[i]@.len() - 1),
                    self.config.alphabet_size as int,
                    self.config.star_height as nat,
                    true,
                    self.config.star_height as nat,
                ),
            forall|i: int| 0 <= i < result.len() ==> spec_parse((#[trigger] result[i])@) is Ok,
    {
        let ghost n = self.config.alphabet_size as int;
        let ghost h = self.config.star_height as nat;
        let max_letters = self.config.max_letter_count;
        let max_lookaheads = self.config.max_lookahead_count;
        let star_height = self.config.star_height;
        let mut result: Vec<String> = Vec::new();
        let mut rng = thread_rng();
        proof {
            lemma_marks();
        }
        let mut made: usize = 0;
        while made < rcount
            invariant
                self.wf(),
                max_letters == self.config.max_letter_count,
                max_lookaheads == self.config.max_lookahead_count,
                star_height == self.config.star_height,
                made <= rcount,
                result.len() == made,
                forall|i: int|
                    0 <= i < result.len() ==> (#[trigger] result[i])@.len() >= 2 && result[i]@[0]
                        == '^' && result[i]@.last() == '$' && small_letters(result[i]@)
                        <= max_letters,
                n == self.config.alphabet_size as int,
                h == self.config.star_height as nat,
                forall|i: int|
                    0 <= i < result.len() ==> (max_letters > 0 ==> (#[trigger] result[i])@.len()
                        > 2) && written(result[i]@.subrange(1, result[i]@.len() - 1), n, true),
                forall|i: int|
                    0 <= i < result.len() ==> expression(
                        (#[trigger] result[i])@.subrange(1, result[i]@.len() - 1),
                        n,
                        h,
                        true,
                        h,
                    ),
                forall|i: int| 0 <= i < result.len() ==> spec_parse((#[trigger] result[i])@) is Ok,
            decreases rcount - made,
        {
            proof {
                lemma_marks();
                lemma_marks_written(n);
            }
            let ghost before = result@;
            let alone = coin(&mut rng, 13, 20);
            let mut regex: String;
            if alone || max_lookaheads < 2 || max_letters < 6 {
                regex = self.generate_rec(
                    &mut rng,
                    max_letters,
                    star_height,
                    max_lookaheads,
                    DRAW_LIMIT,
                );
                proof {
                    lemma_written_any(regex@, n, max_lookaheads > 0);
                    if max_lookaheads == 0 {
                        lemma_expression_ahead(regex@, n, h, h);
                    }
                }
                let mut draws: usize = 0;
                let mut filling = true;
                while filling && draws < DRAW_LIMIT
                    invariant
                        self.wf(),
                        small_letters(regex@) <= max_letters,
                        n == self.config.alphabet_size as int,
                        h == self.config.star_height as nat,
                        star_height == self.config.star_height,
                        written(regex@, n, true),
                        expression(regex@, n, h, true, h),
                        max_letters > 0 ==> regex@.len() > 0,
                    decreases DRAW_LIMIT - draws,
                {
                    let c = count_small_letters(&regex);
                    let k = self.get_lookahead_count(regex.as_str());
                    if c == max_letters {
                        filling = false;
                    } else {
                        let left = if k < max_lookaheads {
                            max_lookaheads - k
                        } else {
                            0
                        };
                        let more = self.generate_rec(
                            &mut rng,
                            max_letters - c,
                            star_height,
                            left,
                            DRAW_LIMIT,
                        );
                        proof {
                            lemma_written_any(more@, n, left > 0);
                            if left == 0 {
                                lemma_expression_ahead(more@, n, h, h);
                            }
                            lemma_expression_concat(regex@, more@, n, h, true, h);
                        }
                        regex = joined(&regex, &more);
                    }
                    draws += 1;
                }
            } else {
                let first = self.generate_rec(
                    &mut rng,
                    max_letters / 2,
                    star_height,
                    max_lookaheads / 2,
                    DRAW_LIMIT,
                );
                proof {
                    lemma_written_any(first@, n, max_lookaheads / 2 > 0);
                    if max_lookaheads / 2 == 0 {
                        lemma_expression_ahead(first@, n, h, h);
                    }
                }
                // rhs = alternative with lookahead
                proof {
                    lemma_expression_empty(n, h, true, h);
                }
                let mut second = String::from_str("");
                let mut third = String::from_str("");
                let mut draws: usize = 0;
                while draws < DRAW_LIMIT && Self::get_lookahead_count(self, second.as_str()) == 0
                    && Self::get_lookahead_count(self, third.as_str()) == 0
                    invariant
                        self.wf(),
                        small_letters(second@) <= max_letters / 4,
                        small_letters(third@) <= max_letters / 4,
                        n == self.config.alphabet_size as int,
                        h == self.config.star_height as nat,
                        star_height == self.config.star_height,
                        max_letters >= 6,
                        written(second@, n, true),
                        written(third@, n, true),
                        expression(second@, n, h, true, h),
                        expression(third@, n, h, true, h),
                        draws == 0 ==> second@.len() == 0 && third@.len() == 0,
                        draws > 0 ==> second@.len() > 0 && third@.len() > 0,
                    decreases DRAW_LIMIT - draws,
                {
                    second = self.generate_rec(
                        &mut rng,
                        max_letters / 4,
                        star_height,
                        max_lookaheads / 2 - max_lookaheads / 4,
                        DRAW_LIMIT,
                    );
                    third = self.generate_rec(
                        &mut rng,
                        max_letters / 4,
                        star_height,
                        max_lookaheads / 4,
                        DRAW_LIMIT,
                    );
                    proof {
                        lemma_written_any(second@, n, max_lookaheads / 2 - max_lookaheads / 4 > 0);
                        lemma_written_any(third@, n, max_lookaheads / 4 > 0);
                        if max_lookaheads / 2 - max_lookaheads / 4 == 0 {
                            lemma_expression_ahead(second@, n, h, h);
                        }
                        if max_lookaheads / 4 == 0 {
                            lemma_expression_ahead(third@, n, h, h);
                        }
                    }
                    draws += 1;
                }
                let closed = alternation(&second, &third);
                proof {
                    lemma_expression_alternation(second@, third@, n, h, true, h);
                    lemma_expression_concat(first@, closed@, n, h, true, h);
                }
                regex = joined(&first, &closed);
            }
            proof {
                lemma_marks();
            }
            let anchored = enclosed("^", &regex, "$");
            proof {
                assert(anchored@[0] == '^');
                assert(anchored@.last() == '$');
                assert(anchored@ =~= seq!['^'] + regex@ + seq!['$']);
                assert(anchored@.subrange(1, anchored@.len() - 1) =~= regex@);
                lemma_expression_parses(regex@, n, h, true, h);
            }
            result.push(anchored);
            proof {
                assert forall|i: int| 0 <= i < result.len() implies (#[trigger] result[i])@.len()
                    >= 2 && result[i]@[0] == '^' && result[i]@.last() == '$' && small_letters(
                    result[i]@,
                ) <= max_letters by {
                    if i < before.len() {
                        assert(result[i] == before[i]);
                    } else {
                        assert(result[i] == anchored);
                        assert(anchored@ =~= seq!['^'] + regex@ + seq!['$']);
                    }
                }
                assert forall|i: int| 0 <= i < result.len() implies spec_parse(
                    (#[trigger] result[i])@,
                ) is Ok by {
                    if i < before.len() {
                        assert(result[i] == before[i]);
                    } else {
                        assert(result[i] == anchored);
                    }
                }
                assert forall|i: int| 0 <= i < result.len() implies expression(
                    (#[trigger] result[i])@.subrange(1, result[i]@.len() - 1),
                    n,
                    h,
                    true,
                    h,
                ) by {
                    if i < before.len() {
                        assert(result[i] == before[i]);
                    } else {
                        assert(result[i] == anchored);
                    }
                }
                assert forall|i: int| 0 <= i < result.len() implies (max_letters > 0 ==> (
                #[trigger] result[i])@.len() > 2) && written(
                    result[i]@.subrange(1, result[i]@.len() - 1),
                    n,
                    true,
                ) by {
                    if i < before.len() {
                        assert(result[i] == before[i]);
                    } else {
                        assert(result[i] == anchored);
                    }
                }
            }
            made += 1;
        }
        result
    }
}

} // verus!
