//! The rewriter: from an expression with lookaheads to one automaton.
//!
//! `α(?=β)γ` becomes the concatenation of the automaton of `α` with the
//! intersection of the automata of `β.*` and of `γ`. A lookahead inside a
//! group is reached by rewriting the group and what follows it on their
//! own.
use vstd::prelude::*;
use crate::ndfa::Automata;
use crate::ndfa::Nfa;
use crate::ndfa::epsilon_nfa;
use crate::ndfa::algebra::concat_nfa;
use crate::ndfa::algebra::concatenation;
use crate::ndfa::algebra::union;
use crate::ndfa::algebra::union_nfa;
use crate::ndfa::construction::regex_nfa;
use crate::ndfa::construction::lemma_position_nfa_wf;
use crate::ndfa::grammar::lemma_regex_nfa_language;
use crate::ndfa::language::accepts;
use crate::ndfa::language::lemma_concat_language;
use crate::ndfa::language::splits;
use crate::ndfa::product::intersection;
use crate::ndfa::product::is_intersection;
use crate::ndfa::product::lemma_intersection_language;
use crate::ndfa::product::lemma_intersection_plain;
use crate::ndfa::product::no_wildcard;
use crate::ndfa::product::lemma_intersection_source;
use crate::ndfa::elimination::wrapped;
use crate::ndfa::reading::alt_matches;
use crate::ndfa::reading::lemma_followed_by_anything;
use crate::parser::round_trip::balanced;
use crate::parser::ParseError;
use crate::parser::Token;
use crate::parser::TokenView;
use crate::parser::bracket_end;
use crate::parser::find_bracket_end;
use crate::parser::lemma_group_view;
use crate::parser::lemma_parse_text;
use crate::parser::lemma_text_single;
use crate::parser::lemma_text_split;
use crate::parser::parse;
use crate::parser::spec_parse;
use crate::parser::token_text;
use crate::parser::tokens_string;
use crate::parser::tokens_text;
use crate::parser::views;
use crate::text::chars_of;

verus! {

/// Why an expression could not be turned into an automaton.
#[derive(Debug, Clone, Copy, PartialEq, Eq, Structural)]
pub enum ConvertError {
    /// The expression is not one of the grammar.
    Parse(ParseError),
    /// A part of the expression that has to be a classical expression is
    /// none, or an automaton would have more states than can be counted.
    Construction,
}

/// Where the first lookahead stands: its index, the number of brackets
/// open around it, and the index of the bracket that opens the outermost
/// group around it.
pub struct Cut {
    pub at: int,
    pub depth: int,
    pub opened: int,
}

/// The first lookahead among `ts[i..]`, where `depth` brackets are open
/// before `i`, the outermost of them opened at `opened`.
pub open spec fn first_lookahead(ts: Seq<TokenView>, i: int, depth: int, opened: int) -> Option<Cut>
    decreases ts.len() - i,
{
    if i < 0 || i >= ts.len() {
        None
    } else {
        match ts[i] {
            TokenView::OpenBracket => first_lookahead(
                ts,
                i + 1,
                depth + 1,
                if depth + 1 == 1 {
                    i
                } else {
                    opened
                },
            ),
            TokenView::CloseBracket => first_lookahead(ts, i + 1, depth - 1, opened),
            TokenView::LookaheadGroup(_) => Some(Cut { at: i, depth, opened }),
            _ => first_lookahead(ts, i + 1, depth, opened),
        }
    }
}

/// The index of the first `|` among `ts[i..end]` that stands directly in
/// the group in which `depth` says `i` stands, or 0 if there is none.
pub open spec fn first_bar(ts: Seq<TokenView>, i: int, depth: int, end: int) -> int
    decreases end - i,
{
    if i < 0 || i >= end || i >= ts.len() {
        0
    } else {
        match ts[i] {
            TokenView::OpenBracket => first_bar(ts, i + 1, depth + 1, end),
            TokenView::CloseBracket => first_bar(ts, i + 1, depth - 1, end),
            TokenView::Binary(_) => if depth == 1 {
                i
            } else {
                first_bar(ts, i + 1, depth, end)
            },
            _ => first_bar(ts, i + 1, depth, end),
        }
    }
}

/// `s` between the anchors `^` and `$`.
pub open spec fn anchored(s: Seq<char>) -> Seq<char> {
    seq!['^'] + s + seq!['$']
}

/// The body of a lookahead as a classical expression. Where the body ends
/// with the end of the string, the lookahead reads to the end: the
/// expression is the body without that end. Elsewhere anything may follow
/// what the body matches: the expression is the body in brackets,
/// followed by `.*`.
pub open spec fn lookahead_text(group: Seq<TokenView>) -> Seq<char> {
    if group.len() > 0 && group.last() is StringEnd {
        tokens_text(group.drop_last())
    } else {
        seq!['('] + tokens_text(group) + seq![')', '.', '*']
    }
}

/// What building the automaton of the classical expression `s` gives.
pub open spec fn built(s: Seq<char>, out: Result<Nfa<char>, ConvertError>) -> bool {
    match regex_nfa(s) {
        Some(n) => out == Ok::<Nfa<char>, ConvertError>(n),
        None => out == Err::<Nfa<char>, ConvertError>(ConvertError::Construction),
    }
}

/// What concatenating `a` and `b` gives.
pub open spec fn joined(a: Nfa<char>, b: Nfa<char>, out: Result<Nfa<char>, ConvertError>) -> bool {
    if a.size + b.size - 1 > usize::MAX {
        out == Err::<Nfa<char>, ConvertError>(ConvertError::Construction)
    } else {
        out == Ok::<Nfa<char>, ConvertError>(concat_nfa(a, b))
    }
}

/// What uniting `a` and `b` gives.
pub open spec fn merged(a: Nfa<char>, b: Nfa<char>, out: Result<Nfa<char>, ConvertError>) -> bool {
    if a.size + b.size - 1 > usize::MAX {
        out == Err::<Nfa<char>, ConvertError>(ConvertError::Construction)
    } else {
        out == Ok::<Nfa<char>, ConvertError>(union_nfa(a, b))
    }
}

/// What `α(?=β)γ` gives, where `sub` is what the rewriting of `γ` gave:
/// the automaton of `α`, concatenated with the intersection of the
/// automaton of `beta` with that of `γ`.
pub open spec fn ahead_outcome(
    alpha: Seq<char>,
    beta: Seq<char>,
    sub: Result<Nfa<char>, ConvertError>,
    out: Result<Nfa<char>, ConvertError>,
) -> bool {
    match sub {
        Err(e) => out == Err::<Nfa<char>, ConvertError>(e),
        Ok(g) => exists|x: Nfa<char>|
            #[trigger] is_intersection(regex_nfa(beta)->0, g, x) && joined(
                regex_nfa(alpha)->0,
                x,
                out,
            ),
    }
}

/// What a group with a lookahead in it gives, where `first` and `second`
/// are the automata of its two parts, which are alternatives if `bar`
/// says so and else follow each other: the automaton of `alpha`,
/// concatenated with the union or the concatenation of the two.
pub open spec fn inside_outcome(
    alpha: Seq<char>,
    first: Nfa<char>,
    second: Nfa<char>,
    bar: bool,
    out: Result<Nfa<char>, ConvertError>,
) -> bool {
    if first.size + second.size - 1 > usize::MAX {
        out == Err::<Nfa<char>, ConvertError>(ConvertError::Construction)
    } else if bar {
        joined(regex_nfa(alpha)->0, union_nfa(first, second), out)
    } else {
        joined(regex_nfa(alpha)->0, concat_nfa(first, second), out)
    }
}

/// The text of the tokens `ts[from..to]`.
pub open spec fn slice_text(ts: Seq<TokenView>, from: int, to: int) -> Seq<char> {
    tokens_text(ts.subrange(from, to))
}


// -------------------------------------------------------------------------
// What is rewritten on its own is shorter than the whole
// -------------------------------------------------------------------------

proof fn lemma_text_contains(ts: Seq<TokenView>, k: int)
    requires
        0 <= k < ts.len(),
    ensures
        token_text(ts[k]).len() <= tokens_text(ts).len(),
{
    lemma_text_split(ts, k, k + 1);
    assert(ts.subrange(k, k + 1) =~= seq![ts[k]]);
    lemma_text_single(ts[k]);
}

/// A slice of the tokens and a token outside of it are together no longer
/// than all the tokens.
proof fn lemma_slice_shorter(ts: Seq<TokenView>, a: int, b: int, k: int)
    requires
        0 <= a <= b <= ts.len(),
        0 <= k < ts.len(),
        k < a || k >= b,
    ensures
        slice_text(ts, a, b).len() + token_text(ts[k]).len() <= tokens_text(ts).len(),
{
    lemma_text_split(ts, a, b);
    if k < a {
        let head = ts.subrange(0, a);
        lemma_text_contains(head, k);
    } else {
        let tail = ts.subrange(b, ts.len() as int);
        lemma_text_contains(tail, k - b);
    }
}

proof fn lemma_first_lookahead(ts: Seq<TokenView>, i: int, depth: int, opened: int)
    requires
        0 <= i,
        0 <= opened,
    ensures
        first_lookahead(ts, i, depth, opened) matches Some(cut) ==> i <= cut.at < ts.len()
            && ts[cut.at] is LookaheadGroup && 0 <= cut.opened && (cut.opened == opened
            || cut.opened < cut.at),
    decreases ts.len() - i,
{
    if i < ts.len() {
        match ts[i] {
            TokenView::OpenBracket => {
                lemma_first_lookahead(ts, i + 1, depth + 1, if depth + 1 == 1 {
                    i
                } else {
                    opened
                });
            },
            TokenView::CloseBracket => {
                lemma_first_lookahead(ts, i + 1, depth - 1, opened);
            },
            TokenView::LookaheadGroup(_) => {},
            _ => {
                lemma_first_lookahead(ts, i + 1, depth, opened);
            },
        }
    }
}

/// The bracket that closes a group is a closing bracket behind its start.
pub proof fn lemma_bracket_end(ts: Seq<TokenView>, i: int, depth: nat)
    requires
        0 <= i,
    ensures
        bracket_end(ts, i, depth) == -1 || (i <= bracket_end(ts, i, depth) < ts.len()
            && ts[bracket_end(ts, i, depth)] is CloseBracket),
    decreases ts.len() - i,
{
    if i < ts.len() {
        if ts[i] is OpenBracket {
            lemma_bracket_end(ts, i + 1, depth + 1);
        } else if ts[i] is CloseBracket {
            if depth > 1 {
                lemma_bracket_end(ts, i + 1, (depth - 1) as nat);
            }
        } else {
            lemma_bracket_end(ts, i + 1, depth);
        }
    }
}

/// The first `|` of a group, if there is one, stands in the group.
pub proof fn lemma_first_bar(ts: Seq<TokenView>, i: int, depth: int, end: int)
    requires
        0 < i,
    ensures
        first_bar(ts, i, depth, end) == 0 || (i <= first_bar(ts, i, depth, end) < end && first_bar(
            ts,
            i,
            depth,
            end,
        ) < ts.len()),
    decreases end - i,
{
    if i < end && i < ts.len() {
        match ts[i] {
            TokenView::OpenBracket => {
                lemma_first_bar(ts, i + 1, depth + 1, end);
            },
            TokenView::CloseBracket => {
                lemma_first_bar(ts, i + 1, depth - 1, end);
            },
            TokenView::Binary(_) => {
                if depth != 1 {
                    lemma_first_bar(ts, i + 1, depth, end);
                }
            },
            _ => {
                lemma_first_bar(ts, i + 1, depth, end);
            },
        }
    }
}

/// What follows the first lookahead is, between anchors, shorter than the
/// expression.
pub proof fn lemma_rest_shorter(r: Seq<char>, ts: Seq<TokenView>, cut: Cut)
    requires
        spec_parse(r) == Ok::<Seq<TokenView>, ParseError>(ts),
        first_lookahead(ts, 0, 0, 0) == Some(cut),
    ensures
        0 <= cut.at < ts.len(),
        ts[cut.at] is LookaheadGroup,
        0 <= cut.opened <= cut.at,
        anchored(slice_text(ts, cut.at + 1, ts.len() as int)).len() < r.len(),
{
    lemma_first_lookahead(ts, 0, 0, 0);
    lemma_parse_text(r);
    lemma_slice_shorter(ts, cut.at + 1, ts.len() as int, cut.at);
}

/// The parts of the outermost group around the first lookahead, and what
/// follows the group, are, between anchors, shorter than the expression.
pub proof fn lemma_parts_shorter(r: Seq<char>, ts: Seq<TokenView>, l: int, a: int, b: int)
    requires
        spec_parse(r) == Ok::<Seq<TokenView>, ParseError>(ts),
        0 <= l,
        bracket_end(ts, l + 1, 1) >= 0,
        l + 1 <= a <= b <= ts.len(),
        b <= bracket_end(ts, l + 1, 1) || bracket_end(ts, l + 1, 1) < a,
    ensures
        anchored(slice_text(ts, a, b)).len() < r.len(),
{
    lemma_parse_text(r);
    lemma_bracket_end(ts, l + 1, 1);
    lemma_slice_shorter(ts, a, b, bracket_end(ts, l + 1, 1));
}

// -------------------------------------------------------------------------
// The rewriting
// -------------------------------------------------------------------------

/// What precedes the lookahead at `cut`.
pub open spec fn ahead_alpha(ts: Seq<TokenView>, cut: Cut) -> Seq<char> {
    slice_text(ts, 0, cut.at)
}

/// The body of the lookahead at `cut`, as a classical expression.
pub open spec fn ahead_beta(ts: Seq<TokenView>, cut: Cut) -> Seq<char> {
    lookahead_text(ts[cut.at]->LookaheadGroup_0)
}

/// What follows the lookahead at `cut`, between anchors.
pub open spec fn ahead_gamma(ts: Seq<TokenView>, cut: Cut) -> Seq<char> {
    anchored(slice_text(ts, cut.at + 1, ts.len() as int))
}

/// The index of the bracket that closes the outermost group around the
/// lookahead at `cut`.
pub open spec fn inside_close(ts: Seq<TokenView>, cut: Cut) -> int {
    bracket_end(ts, cut.opened + 1, 1)
}

/// The index of the first `|` that stands directly in that group, or 0.
pub open spec fn inside_bar(ts: Seq<TokenView>, cut: Cut) -> int {
    first_bar(ts, cut.opened + 1, 1, inside_close(ts, cut))
}

/// What precedes that group.
pub open spec fn inside_alpha(ts: Seq<TokenView>, cut: Cut) -> Seq<char> {
    slice_text(ts, 0, cut.opened)
}

/// The first part, between anchors: the group's first alternative if it
/// has alternatives, else its content.
pub open spec fn inside_first(ts: Seq<TokenView>, cut: Cut) -> Seq<char> {
    if inside_bar(ts, cut) == 0 {
        anchored(slice_text(ts, cut.opened + 1, inside_close(ts, cut)))
    } else {
        anchored(slice_text(ts, cut.opened + 1, inside_bar(ts, cut)))
    }
}

/// The second part, between anchors: the rest of the group behind its
/// first `|` if it has alternatives, else what follows the group.
pub open spec fn inside_second(ts: Seq<TokenView>, cut: Cut) -> Seq<char> {
    if inside_bar(ts, cut) == 0 {
        anchored(slice_text(ts, inside_close(ts, cut) + 1, ts.len() as int))
    } else {
        anchored(slice_text(ts, inside_bar(ts, cut) + 1, inside_close(ts, cut)))
    }
}

/// The parts that are rewritten on their own are shorter than the whole.
pub proof fn lemma_cut_shorter(r: Seq<char>, ts: Seq<TokenView>, cut: Cut)
    requires
        spec_parse(r) == Ok::<Seq<TokenView>, ParseError>(ts),
        first_lookahead(ts, 0, 0, 0) == Some(cut),
    ensures
        0 <= cut.opened <= cut.at < ts.len(),
        ts[cut.at] is LookaheadGroup,
        ahead_gamma(ts, cut).len() < r.len(),
        inside_close(ts, cut) >= 0 ==> inside_first(ts, cut).len() < r.len() && inside_second(
            ts,
            cut,
        ).len() < r.len() && cut.opened < inside_close(ts, cut) < ts.len(),
        inside_close(ts, cut) >= 0 && inside_bar(ts, cut) != 0 ==> cut.opened < inside_bar(ts, cut)
            < inside_close(ts, cut),
{
    let l = cut.opened;
    let len = ts.len() as int;
    let close = inside_close(ts, cut);
    let bar = inside_bar(ts, cut);
    lemma_rest_shorter(r, ts, cut);
    lemma_bracket_end(ts, l + 1, 1);
    lemma_first_bar(ts, l + 1, 1, close);
    if close >= 0 {
        if bar == 0 {
            lemma_parts_shorter(r, ts, l, l + 1, close);
            lemma_parts_shorter(r, ts, l, close + 1, len);
        } else {
            lemma_parts_shorter(r, ts, l, l + 1, bar);
            lemma_parts_shorter(r, ts, l, bar + 1, close);
        }
    }
}

/// What the two parts of a group give together, where `first` and
/// `second` are what their rewritings gave, and `bar` is the index of
/// the `|` between them or 0; `second` is none where the first failed.
pub open spec fn inside_parts(
    alpha: Seq<char>,
    first: Result<Nfa<char>, ConvertError>,
    second: Option<Result<Nfa<char>, ConvertError>>,
    bar: int,
    out: Result<Nfa<char>, ConvertError>,
) -> bool {
    match first {
        Err(e) => out == Err::<Nfa<char>, ConvertError>(e),
        Ok(f) => match second {
            None => false,
            Some(Err(e)) => out == Err::<Nfa<char>, ConvertError>(e),
            Some(Ok(s)) => inside_outcome(alpha, f, s, bar != 0, out),
        },
    }
}

/// The rewriting of the anchored expression `r` gives `out`.
///
/// The automaton is fixed but for the numbers that the states of an
/// intersection carry.
#[verifier::opaque]
pub open spec fn rewrites(r: Seq<char>, out: Result<Nfa<char>, ConvertError>) -> bool
    decreases r.len(),
{
    if r == seq!['^', '$'] {
        out == Ok::<Nfa<char>, ConvertError>(epsilon_nfa())
    } else {
        match spec_parse(r) {
            Err(e) => out == Err::<Nfa<char>, ConvertError>(ConvertError::Parse(e)),
            Ok(ts) => match first_lookahead(ts, 0, 0, 0) {
                None => built(tokens_text(ts), out),
                Some(cut) => {
                    proof {
                        lemma_cut_shorter(r, ts, cut);
                    }
                    if cut.depth == 0 {
                        if regex_nfa(ahead_alpha(ts, cut)) is None || regex_nfa(ahead_beta(ts, cut))
                            is None {
                            out == Err::<Nfa<char>, ConvertError>(ConvertError::Construction)
                        } else {
                            exists|sub: Result<Nfa<char>, ConvertError>|
                                rewrites(ahead_gamma(ts, cut), sub) && #[trigger] ahead_outcome(
                                    ahead_alpha(ts, cut),
                                    ahead_beta(ts, cut),
                                    sub,
                                    out,
                                )
                        }
                    } else {
                        if inside_close(ts, cut) < 0 || regex_nfa(inside_alpha(ts, cut)) is None {
                            out == Err::<Nfa<char>, ConvertError>(ConvertError::Construction)
                        } else {
                            exists|
                                first: Result<Nfa<char>, ConvertError>,
                                second: Option<Result<Nfa<char>, ConvertError>>,
                            |
                                #[trigger] inside_parts(
                                    inside_alpha(ts, cut),
                                    first,
                                    second,
                                    inside_bar(ts, cut),
                                    out,
                                ) && rewrites(inside_first(ts, cut), first) && (second matches Some(
                                    s,
                                ) ==> rewrites(inside_second(ts, cut), s))
                        }
                    }
                },
            },
        }
    }
}

/// A lookahead in no group: failure to build the automaton of what
/// precedes it or of its body.
proof fn lemma_ahead_unbuilt(r: Seq<char>, ts: Seq<TokenView>, cut: Cut)
    requires
        r != seq!['^', '$'],
        spec_parse(r) == Ok::<Seq<TokenView>, ParseError>(ts),
        first_lookahead(ts, 0, 0, 0) == Some(cut),
        cut.depth == 0,
        regex_nfa(ahead_alpha(ts, cut)) is None || regex_nfa(ahead_beta(ts, cut)) is None,
    ensures
        rewrites(r, Err::<Nfa<char>, ConvertError>(ConvertError::Construction)),
{
    reveal(rewrites);
}

/// A lookahead in no group: what follows it was rewritten.
proof fn lemma_ahead(
    r: Seq<char>,
    ts: Seq<TokenView>,
    cut: Cut,
    sub: Result<Nfa<char>, ConvertError>,
    out: Result<Nfa<char>, ConvertError>,
)
    requires
        r != seq!['^', '$'],
        spec_parse(r) == Ok::<Seq<TokenView>, ParseError>(ts),
        first_lookahead(ts, 0, 0, 0) == Some(cut),
        cut.depth == 0,
        regex_nfa(ahead_alpha(ts, cut)) is Some,
        regex_nfa(ahead_beta(ts, cut)) is Some,
        rewrites(ahead_gamma(ts, cut), sub),
        ahead_outcome(ahead_alpha(ts, cut), ahead_beta(ts, cut), sub, out),
    ensures
        rewrites(r, out),
{
    reveal(rewrites);
    assert(exists|s: Result<Nfa<char>, ConvertError>|
        rewrites(ahead_gamma(ts, cut), s) && #[trigger] ahead_outcome(
            ahead_alpha(ts, cut),
            ahead_beta(ts, cut),
            s,
            out,
        ));
}

/// A lookahead in a group that is not closed, or behind something that
/// gives no automaton.
proof fn lemma_inside_unbuilt(r: Seq<char>, ts: Seq<TokenView>, cut: Cut)
    requires
        r != seq!['^', '$'],
        spec_parse(r) == Ok::<Seq<TokenView>, ParseError>(ts),
        first_lookahead(ts, 0, 0, 0) == Some(cut),
        cut.depth != 0,
        inside_close(ts, cut) < 0 || regex_nfa(inside_alpha(ts, cut)) is None,
    ensures
        rewrites(r, Err::<Nfa<char>, ConvertError>(ConvertError::Construction)),
{
    reveal(rewrites);
}

/// A lookahead in a group: the parts were rewritten.
proof fn lemma_inside(
    r: Seq<char>,
    ts: Seq<TokenView>,
    cut: Cut,
    first: Result<Nfa<char>, ConvertError>,
    second: Option<Result<Nfa<char>, ConvertError>>,
    out: Result<Nfa<char>, ConvertError>,
)
    requires
        r != seq!['^', '$'],
        spec_parse(r) == Ok::<Seq<TokenView>, ParseError>(ts),
        first_lookahead(ts, 0, 0, 0) == Some(cut),
        cut.depth != 0,
        inside_close(ts, cut) >= 0,
        regex_nfa(inside_alpha(ts, cut)) is Some,
        rewrites(inside_first(ts, cut), first),
        second matches Some(s) ==> rewrites(inside_second(ts, cut), s),
        inside_parts(inside_alpha(ts, cut), first, second, inside_bar(ts, cut), out),
    ensures
        rewrites(r, out),
{
    reveal(rewrites);
    assert(exists|
        f: Result<Nfa<char>, ConvertError>,
        s: Option<Result<Nfa<char>, ConvertError>>,
    |
        #[trigger] inside_parts(inside_alpha(ts, cut), f, s, inside_bar(ts, cut), out) && rewrites(
            inside_first(ts, cut),
            f,
        ) && (s matches Some(x) ==> rewrites(inside_second(ts, cut), x)));
}

/// The empty body gives the automaton of the empty string.
proof fn lemma_rewrites_epsilon()
    ensures
        rewrites(seq!['^', '$'], Ok::<Nfa<char>, ConvertError>(epsilon_nfa())),
{
    reveal(rewrites);
}

/// An expression that is refused gives the error that says why.
proof fn lemma_rewrites_refused(r: Seq<char>, e: ParseError)
    requires
        r != seq!['^', '$'],
        spec_parse(r) == Err::<Seq<TokenView>, ParseError>(e),
    ensures
        rewrites(r, Err::<Nfa<char>, ConvertError>(ConvertError::Parse(e))),
{
    reveal(rewrites);
}

/// An expression without a lookahead gives what building its automaton
/// gives.
proof fn lemma_rewrites_plain(
    r: Seq<char>,
    ts: Seq<TokenView>,
    out: Result<Nfa<char>, ConvertError>,
)
    requires
        r != seq!['^', '$'],
        spec_parse(r) == Ok::<Seq<TokenView>, ParseError>(ts),
        first_lookahead(ts, 0, 0, 0) is None,
    ensures
        rewrites(r, out) <==> built(tokens_text(ts), out),
{
    reveal(rewrites);
}

/// What gave the automaton of an expression whose first lookahead stands
/// in no group.
proof fn lemma_ahead_parts(r: Seq<char>, ts: Seq<TokenView>, cut: Cut, n: Nfa<char>) -> (g: Nfa<
    char,
>)
    requires
        r != seq!['^', '$'],
        spec_parse(r) == Ok::<Seq<TokenView>, ParseError>(ts),
        first_lookahead(ts, 0, 0, 0) == Some(cut),
        cut.depth == 0,
        rewritten_to(r, n),
    ensures
        regex_nfa(ahead_alpha(ts, cut)) is Some,
        regex_nfa(ahead_beta(ts, cut)) is Some,
        rewritten_to(ahead_gamma(ts, cut), g),
        ahead_outcome(
            ahead_alpha(ts, cut),
            ahead_beta(ts, cut),
            Ok::<Nfa<char>, ConvertError>(g),
            Ok::<Nfa<char>, ConvertError>(n),
        ),
{
    reveal(rewrites);
    let out = Ok::<Nfa<char>, ConvertError>(n);
    let sub = choose|sub: Result<Nfa<char>, ConvertError>|
        rewrites(ahead_gamma(ts, cut), sub) && #[trigger] ahead_outcome(
            ahead_alpha(ts, cut),
            ahead_beta(ts, cut),
            sub,
            out,
        );
    sub->Ok_0
}

/// What gave the automaton of an expression whose first lookahead stands
/// in a group.
proof fn lemma_inside_parts(r: Seq<char>, ts: Seq<TokenView>, cut: Cut, n: Nfa<char>) -> (parts: (
    Nfa<char>,
    Nfa<char>,
))
    requires
        r != seq!['^', '$'],
        spec_parse(r) == Ok::<Seq<TokenView>, ParseError>(ts),
        first_lookahead(ts, 0, 0, 0) == Some(cut),
        cut.depth != 0,
        rewritten_to(r, n),
    ensures
        regex_nfa(inside_alpha(ts, cut)) is Some,
        inside_close(ts, cut) >= 0,
        rewritten_to(inside_first(ts, cut), parts.0),
        rewritten_to(inside_second(ts, cut), parts.1),
        inside_outcome(
            inside_alpha(ts, cut),
            parts.0,
            parts.1,
            inside_bar(ts, cut) != 0,
            Ok::<Nfa<char>, ConvertError>(n),
        ),
{
    reveal(rewrites);
    let out = Ok::<Nfa<char>, ConvertError>(n);
    let (first, second) = choose|
        first: Result<Nfa<char>, ConvertError>,
        second: Option<Result<Nfa<char>, ConvertError>>,
    |
        #[trigger] inside_parts(inside_alpha(ts, cut), first, second, inside_bar(ts, cut), out)
            && rewrites(inside_first(ts, cut), first) && (second matches Some(s) ==> rewrites(
            inside_second(ts, cut),
            s,
        ));
    (first->Ok_0, second->0->Ok_0)
}

/// The intersection of the automaton of `beta` with `g`, behind the
/// automaton of `alpha`.
proof fn lemma_ahead_outcome(
    alpha: Seq<char>,
    beta: Seq<char>,
    na: Nfa<char>,
    nb: Nfa<char>,
    g: Nfa<char>,
    x: Nfa<char>,
    out: Result<Nfa<char>, ConvertError>,
)
    requires
        regex_nfa(alpha) == Some(na),
        regex_nfa(beta) == Some(nb),
        is_intersection(nb, g, x),
        joined(na, x, out),
    ensures
        ahead_outcome(alpha, beta, Ok::<Nfa<char>, ConvertError>(g), out),
{
    let sub = Ok::<Nfa<char>, ConvertError>(g);
    assert(is_intersection(regex_nfa(beta)->0, sub->Ok_0, x) && joined(
        regex_nfa(alpha)->0,
        x,
        out,
    ));
}

/// What a call returned, with the automaton taken by its value.
pub open spec fn outcome(res: Result<Automata, ConvertError>) -> Result<Nfa<char>, ConvertError> {
    match res {
        Ok(a) => Ok(a@),
        Err(e) => Err(e),
    }
}

/// The automaton of the classical expression `s`.
pub fn build(s: &str) -> (res: Result<Automata, ConvertError>)
    ensures
        built(s@, outcome(res)),
        res matches Ok(a) ==> a.wf() && a@.start_is_source(),
{
    match Automata::try_from_regex(s) {
        Some(a) => {
            proof {
                if s@.len() > 0 {
                    lemma_position_nfa_wf(crate::ndfa::ast::tree_of(s@)->0);
                }
            }
            Ok(a)
        },
        None => Err(ConvertError::Construction),
    }
}

/// The concatenation of `a1` and `a2`, if its states can be counted.
pub fn join(a1: &Automata, a2: &Automata) -> (res: Result<Automata, ConvertError>)
    requires
        a1.wf(),
        a2.wf(),
    ensures
        joined(a1@, a2@, outcome(res)),
        res matches Ok(a) ==> a.wf() && a@.start_is_source(),
{
    if a1.size - 1 > usize::MAX - a2.size {
        Err(ConvertError::Construction)
    } else {
        Ok(concatenation(a1, a2))
    }
}

fn is_string_end(t: &Token) -> (b: bool)
    ensures
        b == (t@ is StringEnd),
{
    match t {
        Token::StringEnd => true,
        _ => false,
    }
}

/// The index of the first `|` among `tokens[start..end]` that stands
/// directly in the group that begins before `start`, or 0.
fn find_first_bar(tokens: &Vec<Token>, start: usize, end: usize) -> (bar: usize)
    requires
        start <= end <= tokens.len(),
    ensures
        bar == first_bar(views(tokens@), start as int, 1, end as int),
{
    let mut k: usize = start;
    let mut depth: i128 = 1;
    while k < end
        invariant
            start <= k <= end <= tokens.len(),
            -(k - start) <= depth - 1 <= k - start,
            first_bar(views(tokens@), k as int, depth as int, end as int) == first_bar(
                views(tokens@),
                start as int,
                1,
                end as int,
            ),
        decreases end - k,
    {
        match &tokens[k] {
            Token::OpenBracket => {
                depth += 1;
            },
            Token::CloseBracket => {
                depth -= 1;
            },
            Token::Binary(_) => {
                if depth == 1 {
                    return k;
                }
            },
            _ => {},
        }
        k += 1;
    }
    0
}

/// The text of the tokens `tokens[from..to]` between the anchors.
fn anchor(tokens: &Vec<Token>, from: usize, to: usize) -> (s: String)
    requires
        from <= to <= tokens.len(),
    ensures
        s@ == anchored(slice_text(views(tokens@), from as int, to as int)),
{
    let mut s = String::new();
    s.push('^');
    let body = tokens_string(tokens, from, to);
    s.append(body.as_str());
    s.push('$');
    assert(s@ =~= anchored(slice_text(views(tokens@), from as int, to as int)));
    s
}

/// The rewriting of `α(?=β)γ`, where the lookahead is the token `i` and
/// stands in no group.
fn rewrite_ahead(r: &str, tokens: &Vec<Token>, i: usize, Ghost(cut): Ghost<Cut>) -> (res: Result<
    Automata,
    ConvertError,
>)
    requires
        r@ != seq!['^', '$'],
        spec_parse(r@) == Ok::<Seq<TokenView>, ParseError>(views(tokens@)),
        first_lookahead(views(tokens@), 0, 0, 0) == Some(cut),
        cut.at == i,
        cut.depth == 0,
    ensures
        rewrites(r@, outcome(res)),
        res matches Ok(a) ==> a.wf() && a@.start_is_source(),
    decreases r@.len(), 0int,
{
    let ghost ts = views(tokens@);
    let n = tokens.len();
    proof {
        lemma_cut_shorter(r@, ts, cut);
    }
    let alpha = tokens_string(tokens, 0, i);
    let beta = lookahead_string(&tokens[i]);
    let a1 = match build(alpha.as_str()) {
        Err(_) => {
            proof {
                lemma_ahead_unbuilt(r@, ts, cut);
            }
            return Err(ConvertError::Construction);
        },
        Ok(a) => a,
    };
    let a2 = match build(beta.as_str()) {
        Err(_) => {
            proof {
                lemma_ahead_unbuilt(r@, ts, cut);
            }
            return Err(ConvertError::Construction);
        },
        Ok(a) => a,
    };
    let gamma = anchor(tokens, i + 1, n);
    let sub = gen_rec(gamma.as_str());
    match sub {
        Err(e) => {
            proof {
                lemma_ahead(r@, ts, cut, outcome(sub), Err::<Nfa<char>, ConvertError>(e));
            }
            Err(e)
        },
        Ok(g) => {
            let x = intersection(&a2, &g);
            let res = join(&a1, &x);
            proof {
                lemma_intersection_source(a2@, g@, x@);
                lemma_ahead_outcome(alpha@, beta@, a1@, a2@, g@, x@, outcome(res));
                lemma_ahead(r@, ts, cut, Ok::<Nfa<char>, ConvertError>(g@), outcome(res));
            }
            res
        },
    }
}

/// The body of the lookahead `t` as a classical expression.
fn lookahead_string(t: &Token) -> (s: String)
    requires
        t@ is LookaheadGroup,
    ensures
        s@ == lookahead_text(t@->LookaheadGroup_0),
{
    match t {
        Token::LookaheadGroup(group) => {
            proof {
                lemma_group_view(*group);
                assert(views(group@).subrange(0, group.len() as int) =~= views(group@));
            }
            if group.len() > 0 && is_string_end(&group[group.len() - 1]) {
                proof {
                    assert(views(group@).subrange(0, group.len() - 1) =~= views(group@).drop_last());
                }
                tokens_string(group, 0, group.len() - 1)
            } else {
                let body = tokens_string(group, 0, group.len());
                let mut beta = String::new();
                beta.push('(');
                beta.append(body.as_str());
                beta.push(')');
                beta.push('.');
                beta.push('*');
                assert(beta@ =~= seq!['('] + tokens_text(views(group@)) + seq![')', '.', '*']);
                beta
            }
        },
        _ => String::new(),
    }
}

/// The union of `f` and `s` if `bar` says that they are alternatives, else
/// their concatenation, behind `a1`.
fn assemble(a1: &Automata, f: &Automata, s: &Automata, bar: bool, Ghost(alpha): Ghost<Seq<char>>) -> (res:
    Result<Automata, ConvertError>)
    requires
        a1.wf(),
        f.wf(),
        s.wf(),
        regex_nfa(alpha) == Some(a1@),
    ensures
        inside_outcome(alpha, f@, s@, bar, outcome(res)),
        res matches Ok(a) ==> a.wf() && a@.start_is_source(),
{
    if f.size - 1 > usize::MAX - s.size {
        Err(ConvertError::Construction)
    } else if bar {
        join(a1, &union(f, s))
    } else {
        join(a1, &concatenation(f, s))
    }
}

/// The rewriting of an expression whose first lookahead stands in a
/// group, the outermost of which opens at `opened`.
fn rewrite_inside(r: &str, tokens: &Vec<Token>, opened: usize, Ghost(cut): Ghost<Cut>) -> (res:
    Result<Automata, ConvertError>)
    requires
        r@ != seq!['^', '$'],
        spec_parse(r@) == Ok::<Seq<TokenView>, ParseError>(views(tokens@)),
        first_lookahead(views(tokens@), 0, 0, 0) == Some(cut),
        cut.opened == opened,
        cut.depth != 0,
    ensures
        rewrites(r@, outcome(res)),
        res matches Ok(a) ==> a.wf() && a@.start_is_source(),
    decreases r@.len(), 0int,
{
    let ghost ts = views(tokens@);
    let n = tokens.len();
    let l = opened;
    proof {
        lemma_cut_shorter(r@, ts, cut);
    }
    let close = match find_bracket_end(tokens, l + 1) {
        None => {
            proof {
                lemma_inside_unbuilt(r@, ts, cut);
            }
            return Err(ConvertError::Construction);
        },
        Some(close) => close,
    };
    let bar = find_first_bar(tokens, l + 1, close);
    let alpha = tokens_string(tokens, 0, l);
    let a1 = match build(alpha.as_str()) {
        Err(_) => {
            proof {
                lemma_inside_unbuilt(r@, ts, cut);
            }
            return Err(ConvertError::Construction);
        },
        Ok(a) => a,
    };
    let p = if bar == 0 {
        anchor(tokens, l + 1, close)
    } else {
        anchor(tokens, l + 1, bar)
    };
    let q = if bar == 0 {
        anchor(tokens, close + 1, n)
    } else {
        anchor(tokens, bar + 1, close)
    };
    let first = gen_rec(p.as_str());
    let f = match first {
        Err(e) => {
            proof {
                lemma_inside(
                    r@,
                    ts,
                    cut,
                    Err::<Nfa<char>, ConvertError>(e),
                    None,
                    Err::<Nfa<char>, ConvertError>(e),
                );
            }
            return Err(e);
        },
        Ok(f) => f,
    };
    let second = gen_rec(q.as_str());
    let s = match second {
        Err(e) => {
            proof {
                lemma_inside(
                    r@,
                    ts,
                    cut,
                    Ok::<Nfa<char>, ConvertError>(f@),
                    Some(Err::<Nfa<char>, ConvertError>(e)),
                    Err::<Nfa<char>, ConvertError>(e),
                );
            }
            return Err(e);
        },
        Ok(s) => s,
    };
    let res = assemble(&a1, &f, &s, bar != 0, Ghost(alpha@));
    proof {
        lemma_inside(
            r@,
            ts,
            cut,
            Ok::<Nfa<char>, ConvertError>(f@),
            Some(Ok::<Nfa<char>, ConvertError>(s@)),
            outcome(res),
        );
    }
    res
}

/// The automaton of the anchored expression `r`, in which lookaheads may
/// stand.
///
/// An expression without a lookahead gives its position automaton. At the
/// first lookahead the expression is cut: where the lookahead stands in no
/// group, into what precedes it, its body and what follows it; where it
/// stands in a group, into what precedes the group, the group's parts and
/// what follows the group.
pub fn gen_rec(r: &str) -> (res: Result<Automata, ConvertError>)
    ensures
        rewrites(r@, outcome(res)),
        res matches Ok(a) ==> a.wf() && a@.start_is_source(),
    decreases r@.len(), 1int,
{
    let chars = chars_of(r);
    if chars.len() == 2 && chars[0] == '^' && chars[1] == '$' {
        proof {
            assert(r@ =~= seq!['^', '$']);
            lemma_rewrites_epsilon();
        }
        return Ok(Automata::new_epsilon());
    }
    assert(r@ != seq!['^', '$']) by {
        if r@ == seq!['^', '$'] {
            assert(seq!['^', '$'][0] == '^' && seq!['^', '$'][1] == '$');
        }
    }
    let tokens = match parse(r) {
        Err(e) => {
            proof {
                lemma_rewrites_refused(r@, e);
            }
            return Err(ConvertError::Parse(e));
        },
        Ok(tokens) => tokens,
    };
    let ghost ts = views(tokens@);
    let n = tokens.len();
    let mut i: usize = 0;
    let mut depth: i128 = 0;
    let mut opened: usize = 0;
    while i < n
        invariant
            n == tokens.len(),
            ts == views(tokens@),
            r@ != seq!['^', '$'],
            spec_parse(r@) == Ok::<Seq<TokenView>, ParseError>(ts),
            i <= n,
            opened <= i,
            -(i as int) <= depth <= i,
            first_lookahead(ts, i as int, depth as int, opened as int) == first_lookahead(
                ts,
                0,
                0,
                0,
            ),
        decreases n - i,
    {
        match &tokens[i] {
            Token::OpenBracket => {
                depth += 1;
                if depth == 1 {
                    opened = i;
                }
            },
            Token::CloseBracket => {
                depth -= 1;
            },
            Token::LookaheadGroup(_) => {
                let ghost cut = Cut { at: i as int, depth: depth as int, opened: opened as int };
                if depth == 0 {
                    return rewrite_ahead(r, &tokens, i, Ghost(cut));
                } else {
                    return rewrite_inside(r, &tokens, opened, Ghost(cut));
                }
            },
            _ => {},
        }
        i += 1;
    }
    let s = tokens_string(&tokens, 0, n);
    let res = build(s.as_str());
    proof {
        assert(ts.subrange(0, n as int) =~= ts);
        lemma_rewrites_plain(r@, ts, outcome(res));
    }
    res
}


// -------------------------------------------------------------------------
// What the rewriting of a lookahead accepts
// -------------------------------------------------------------------------

/// The rewriting of `r` gives the automaton `n`.
pub open spec fn rewritten_to(r: Seq<char>, n: Nfa<char>) -> bool {
    rewrites(r, Ok::<Nfa<char>, ConvertError>(n))
}

/// An automaton of a classical expression is well formed, nothing leads
/// back into its start state, and its states can be counted.
pub proof fn lemma_regex_nfa_wf(s: Seq<char>)
    requires
        regex_nfa(s) is Some,
    ensures
        regex_nfa(s)->0.wf(),
        regex_nfa(s)->0.start_is_source(),
        regex_nfa(s)->0.size <= usize::MAX,
{
    if s.len() > 0 {
        lemma_position_nfa_wf(crate::ndfa::ast::tree_of(s)->0);
    }
}

/// What the rewriting of a lookahead in no group gives is well formed.
proof fn lemma_ahead_wf(
    alpha: Seq<char>,
    beta: Seq<char>,
    g: Nfa<char>,
    n: Nfa<char>,
)
    requires
        regex_nfa(alpha) is Some,
        regex_nfa(beta) is Some,
        ahead_outcome(
            alpha,
            beta,
            Ok::<Nfa<char>, ConvertError>(g),
            Ok::<Nfa<char>, ConvertError>(n),
        ),
    ensures
        n.wf(),
        n.start_is_source(),
        n.size <= usize::MAX,
{
    let out = Ok::<Nfa<char>, ConvertError>(n);
    let x = choose|x: Nfa<char>|
        #[trigger] is_intersection(regex_nfa(beta)->0, g, x) && joined(regex_nfa(alpha)->0, x, out);
    let s = choose|s: Seq<crate::ndfa::product::ComplexState>|
        crate::ndfa::product::is_product_of(regex_nfa(beta)->0, g, x, s);
    lemma_regex_nfa_wf(alpha);
    crate::ndfa::language::lemma_concat_wf(regex_nfa(alpha)->0, x);
}

/// What the rewriting of a group with a lookahead in it gives is well
/// formed if what the rewritings of its parts gave is.
proof fn lemma_inside_wf(alpha: Seq<char>, f: Nfa<char>, s: Nfa<char>, bar: bool, n: Nfa<char>)
    requires
        regex_nfa(alpha) is Some,
        f.wf(),
        s.wf(),
        inside_outcome(alpha, f, s, bar, Ok::<Nfa<char>, ConvertError>(n)),
    ensures
        n.wf(),
        n.start_is_source(),
        n.size <= usize::MAX,
{
    lemma_regex_nfa_wf(alpha);
    crate::ndfa::language::lemma_union_wf(f, s);
    crate::ndfa::language::lemma_concat_wf(f, s);
    if bar {
        crate::ndfa::language::lemma_concat_wf(regex_nfa(alpha)->0, union_nfa(f, s));
    } else {
        crate::ndfa::language::lemma_concat_wf(regex_nfa(alpha)->0, concat_nfa(f, s));
    }
}

/// Every automaton that the rewriting gives is well formed, nothing leads
/// back into its start state, and its states can be counted.
pub proof fn lemma_rewrites_wf(r: Seq<char>, n: Nfa<char>)
    requires
        rewritten_to(r, n),
    ensures
        n.wf(),
        n.start_is_source(),
        n.size <= usize::MAX,
    decreases r.len(),
{
    if r == seq!['^', '$'] {
        assert(n == epsilon_nfa()) by {
            reveal(rewrites);
        }
    } else {
        match spec_parse(r) {
            Err(e) => {
                assert(false) by {
                    reveal(rewrites);
                }
            },
            Ok(ts) => match first_lookahead(ts, 0, 0, 0) {
                None => {
                    lemma_rewrites_plain(r, ts, Ok::<Nfa<char>, ConvertError>(n));
                    lemma_regex_nfa_wf(tokens_text(ts));
                },
                Some(cut) => {
                    lemma_cut_shorter(r, ts, cut);
                    if cut.depth == 0 {
                        let g = lemma_ahead_parts(r, ts, cut, n);
                        lemma_ahead_wf(ahead_alpha(ts, cut), ahead_beta(ts, cut), g, n);
                    } else {
                        let (f, s) = lemma_inside_parts(r, ts, cut, n);
                        lemma_rewrites_wf(inside_first(ts, cut), f);
                        lemma_rewrites_wf(inside_second(ts, cut), s);
                        lemma_inside_wf(inside_alpha(ts, cut), f, s, inside_bar(ts, cut) != 0, n);
                    }
                },
            },
        }
    }
}

/// `w` falls into a string that `na` accepts and a rest that both `nb`,
/// where `.` stands for any character, and `g` accept.
pub open spec fn looks_ahead(na: Nfa<char>, nb: Nfa<char>, g: Nfa<char>, w: Seq<char>) -> bool {
    exists|k: int|
        0 <= k <= w.len() && #[trigger] accepts(na, false, w.take(k)) && accepts(
            nb,
            true,
            w.skip(k),
        ) && accepts(g, false, w.skip(k))
}

/// The concatenation of `na` with the intersection `x` of `nb` and `g`
/// accepts a string exactly if it falls into a string that `na` accepts and
/// a rest that both `nb` and `g` accept.
pub proof fn lemma_lookahead_language(
    na: Nfa<char>,
    nb: Nfa<char>,
    g: Nfa<char>,
    x: Nfa<char>,
    w: Seq<char>,
)
    requires
        na.wf(),
        nb.wf(),
        g.wf(),
        nb.size <= usize::MAX,
        g.size <= usize::MAX,
        na.start_is_source(),
        nb.start_is_source(),
        is_intersection(nb, g, x),
    ensures
        accepts(concat_nfa(na, x), false, w) <==> looks_ahead(na, nb, g, w),
{
    lemma_intersection_source(nb, g, x);
    assert(x.wf()) by {
        let s = choose|s: Seq<crate::ndfa::product::ComplexState>|
            crate::ndfa::product::is_product_of(nb, g, x, s);
    }
    lemma_concat_language(na, x, false, w);
    if splits(na, x, false, w) {
        let k = choose|k: int|
            0 <= k <= w.len() && #[trigger] accepts(na, false, w.take(k)) && accepts(
                x,
                false,
                w.skip(k),
            );
        lemma_intersection_language(nb, g, x, w.skip(k));
    }
    if looks_ahead(na, nb, g, w) {
        let k = choose|k: int|
            0 <= k <= w.len() && #[trigger] accepts(na, false, w.take(k)) && accepts(
                nb,
                true,
                w.skip(k),
            ) && accepts(g, false, w.skip(k));
        lemma_intersection_language(nb, g, x, w.skip(k));
    }
}

/// The rewriting of `α(?=β)γ`, where the lookahead stands in no group,
/// accepts a string exactly if it falls into a string that `α` accepts and
/// a rest that both `β.*` and the rewriting of `γ` accept: for some
/// automaton `g` that the rewriting of `γ` gives, the automaton `n` of the
/// whole accepts `w` exactly if `w` looks ahead in this way.
pub proof fn lemma_rewrite_of_lookahead(r: Seq<char>, n: Nfa<char>, w: Seq<char>)
    requires
        r != seq!['^', '$'],
        spec_parse(r) is Ok,
        first_lookahead(spec_parse(r)->Ok_0, 0, 0, 0) matches Some(cut) && cut.depth == 0,
        rewritten_to(r, n),
    ensures
        ({
            let ts = spec_parse(r)->Ok_0;
            let cut = first_lookahead(ts, 0, 0, 0)->0;
            &&& regex_nfa(ahead_alpha(ts, cut)) is Some
            &&& regex_nfa(ahead_beta(ts, cut)) is Some
            &&& exists|g: Nfa<char>|
                #[trigger] rewritten_to(ahead_gamma(ts, cut), g) && (accepts(n, false, w)
                    <==> looks_ahead(
                    regex_nfa(ahead_alpha(ts, cut))->0,
                    regex_nfa(ahead_beta(ts, cut))->0,
                    g,
                    w,
                ))
        }),
{
    let ts = spec_parse(r)->Ok_0;
    let cut = first_lookahead(ts, 0, 0, 0)->0;
    let alpha = ahead_alpha(ts, cut);
    let beta = ahead_beta(ts, cut);
    let g = lemma_ahead_parts(r, ts, cut, n);
    let x = choose|x: Nfa<char>|
        #[trigger] is_intersection(regex_nfa(beta)->0, g, x) && joined(
            regex_nfa(alpha)->0,
            x,
            Ok::<Nfa<char>, ConvertError>(n),
        );
    lemma_regex_nfa_wf(alpha);
    lemma_regex_nfa_wf(beta);
    lemma_rewrites_wf(ahead_gamma(ts, cut), g);
    lemma_lookahead_language(regex_nfa(alpha)->0, regex_nfa(beta)->0, g, x, w);
}

/// The rewriting of an expression without a lookahead accepts just what
/// the text of its tokens matches.
pub proof fn lemma_rewrite_of_classical(r: Seq<char>, n: Nfa<char>, wild: bool, w: Seq<char>)
    requires
        r.len() <= usize::MAX,
        r != seq!['^', '$'],
        spec_parse(r) is Ok,
        first_lookahead(spec_parse(r)->Ok_0, 0, 0, 0) is None,
        rewritten_to(r, n),
    ensures
        accepts(n, wild, w) <==> alt_matches(tokens_text(spec_parse(r)->Ok_0), wild, w),
{
    let ts = spec_parse(r)->Ok_0;
    lemma_rewrites_plain(r, ts, Ok::<Nfa<char>, ConvertError>(n));
    lemma_parse_text(r);
    lemma_regex_nfa_language(tokens_text(ts), wild, w);
}

/// `w` falls into a string that the text `alpha` matches and a rest that
/// both the text `beta`, where `.` stands for any character, matches and
/// `g` accepts.
pub open spec fn reads_ahead(alpha: Seq<char>, beta: Seq<char>, g: Nfa<char>, w: Seq<char>) -> bool {
    exists|k: int|
        0 <= k <= w.len() && #[trigger] alt_matches(alpha, false, w.take(k)) && alt_matches(
            beta,
            true,
            w.skip(k),
        ) && accepts(g, false, w.skip(k))
}

/// The rewriting of `α(?=β)γ`, where the lookahead stands in no group,
/// accepts a string exactly if it falls into a string that the text of
/// `α` matches and a rest that both the text of `β.*` matches and the
/// rewriting of `γ` accepts.
pub proof fn lemma_lookahead_reads(r: Seq<char>, n: Nfa<char>, w: Seq<char>)
    requires
        r.len() <= usize::MAX,
        r != seq!['^', '$'],
        spec_parse(r) is Ok,
        first_lookahead(spec_parse(r)->Ok_0, 0, 0, 0) matches Some(cut) && cut.depth == 0,
        rewritten_to(r, n),
    ensures
        ({
            let ts = spec_parse(r)->Ok_0;
            let cut = first_lookahead(ts, 0, 0, 0)->0;
            exists|g: Nfa<char>|
                #[trigger] rewritten_to(ahead_gamma(ts, cut), g) && (accepts(n, false, w)
                    <==> reads_ahead(ahead_alpha(ts, cut), ahead_beta(ts, cut), g, w))
        }),
{
    let ts = spec_parse(r)->Ok_0;
    let cut = first_lookahead(ts, 0, 0, 0)->0;
    let alpha = ahead_alpha(ts, cut);
    let beta = ahead_beta(ts, cut);
    let na = regex_nfa(alpha)->0;
    let nb = regex_nfa(beta)->0;
    lemma_rewrite_of_lookahead(r, n, w);
    let g = choose|g: Nfa<char>|
        #[trigger] rewritten_to(ahead_gamma(ts, cut), g) && (accepts(n, false, w) <==> looks_ahead(
            na,
            nb,
            g,
            w,
        ));
    lemma_parse_text(r);
    lemma_rest_shorter(r, ts, cut);
    lemma_slice_shorter(ts, 0, cut.at, cut.at);
    lemma_text_contains(ts, cut.at);
    assert(beta.len() <= token_text(ts[cut.at]).len());
    assert forall|k: int| 0 <= k <= w.len() implies (accepts(na, false, #[trigger] w.take(k))
        <==> alt_matches(alpha, false, w.take(k))) && (accepts(nb, true, w.skip(k)) <==> alt_matches(
        beta,
        true,
        w.skip(k),
    )) by {
        lemma_regex_nfa_language(alpha, false, w.take(k));
        lemma_regex_nfa_language(beta, true, w.skip(k));
    }
    if looks_ahead(na, nb, g, w) {
        let k = choose|k: int|
            0 <= k <= w.len() && #[trigger] accepts(na, false, w.take(k)) && accepts(
                nb,
                true,
                w.skip(k),
            ) && accepts(g, false, w.skip(k));
        assert(0 <= k <= w.len() && alt_matches(alpha, false, w.take(k)) && alt_matches(
            beta,
            true,
            w.skip(k),
        ) && accepts(g, false, w.skip(k)));
    }
    if reads_ahead(alpha, beta, g, w) {
        let k = choose|k: int|
            0 <= k <= w.len() && #[trigger] alt_matches(alpha, false, w.take(k)) && alt_matches(
                beta,
                true,
                w.skip(k),
            ) && accepts(g, false, w.skip(k));
        assert(0 <= k <= w.len() && accepts(na, false, w.take(k)) && accepts(nb, true, w.skip(k))
            && accepts(g, false, w.skip(k)));
    }
    assert(rewritten_to(ahead_gamma(ts, cut), g) && (accepts(n, false, w) <==> reads_ahead(
        alpha,
        beta,
        g,
        w,
    )));
}

/// `w` falls into a string that the text `alpha` matches and a rest that
/// both the text `beta` matches and `g` accepts, where `.` stands for any
/// character throughout.
pub open spec fn reads_ahead_wild(alpha: Seq<char>, beta: Seq<char>, g: Nfa<char>, w: Seq<char>) -> bool {
    exists|k: int|
        0 <= k <= w.len() && #[trigger] alt_matches(alpha, true, w.take(k)) && alt_matches(
            beta,
            true,
            w.skip(k),
        ) && accepts(g, true, w.skip(k))
}

/// The rewriting of `α(?=β)γ`, where the lookahead stands in no group,
/// read with `.` for any character: where the rewriting of `γ` has no
/// label `.`, it accepts a string exactly if the string falls into a
/// string that the text of `α` matches and a rest that both the body of
/// the lookahead matches and the rewriting of `γ` accepts.
pub proof fn lemma_lookahead_reads_wild(r: Seq<char>, n: Nfa<char>, w: Seq<char>)
    requires
        r.len() <= usize::MAX,
        r != seq!['^', '$'],
        spec_parse(r) is Ok,
        first_lookahead(spec_parse(r)->Ok_0, 0, 0, 0) matches Some(cut) && cut.depth == 0,
        rewritten_to(r, n),
    ensures
        ({
            let ts = spec_parse(r)->Ok_0;
            let cut = first_lookahead(ts, 0, 0, 0)->0;
            exists|g: Nfa<char>|
                #[trigger] rewritten_to(ahead_gamma(ts, cut), g) && (no_wildcard(g) ==> (accepts(
                    n,
                    true,
                    w,
                ) <==> reads_ahead_wild(ahead_alpha(ts, cut), ahead_beta(ts, cut), g, w)))
        }),
{
    let ts = spec_parse(r)->Ok_0;
    let cut = first_lookahead(ts, 0, 0, 0)->0;
    let alpha = ahead_alpha(ts, cut);
    let beta = ahead_beta(ts, cut);
    let na = regex_nfa(alpha)->0;
    let nb = regex_nfa(beta)->0;
    let g = lemma_ahead_parts(r, ts, cut, n);
    let x = choose|x: Nfa<char>|
        #[trigger] is_intersection(nb, g, x) && joined(na, x, Ok::<Nfa<char>, ConvertError>(n));
    lemma_regex_nfa_wf(alpha);
    lemma_regex_nfa_wf(beta);
    lemma_rewrites_wf(ahead_gamma(ts, cut), g);
    lemma_intersection_source(nb, g, x);
    assert(x.wf()) by {
        let s = choose|s: Seq<crate::ndfa::product::ComplexState>|
            crate::ndfa::product::is_product_of(nb, g, x, s);
    }
    lemma_concat_language(na, x, true, w);
    lemma_parse_text(r);
    lemma_rest_shorter(r, ts, cut);
    lemma_slice_shorter(ts, 0, cut.at, cut.at);
    lemma_text_contains(ts, cut.at);
    lemma_lookahead_text_shorter(ts[cut.at]->LookaheadGroup_0);
    if no_wildcard(g) {
        assert forall|k: int| 0 <= k <= w.len() implies (accepts(na, true, #[trigger] w.take(k))
            <==> alt_matches(alpha, true, w.take(k))) && (accepts(x, true, w.skip(k)) <==> alt_matches(
            beta,
            true,
            w.skip(k),
        ) && accepts(g, true, w.skip(k))) by {
            lemma_regex_nfa_language(alpha, true, w.take(k));
            lemma_regex_nfa_language(beta, true, w.skip(k));
            lemma_intersection_plain(nb, g, x, w.skip(k));
        }
        if splits(na, x, true, w) {
            let k = choose|k: int|
                0 <= k <= w.len() && #[trigger] accepts(na, true, w.take(k)) && accepts(
                    x,
                    true,
                    w.skip(k),
                );
            assert(0 <= k <= w.len() && alt_matches(alpha, true, w.take(k)) && alt_matches(
                beta,
                true,
                w.skip(k),
            ) && accepts(g, true, w.skip(k)));
        }
        if reads_ahead_wild(alpha, beta, g, w) {
            let k = choose|k: int|
                0 <= k <= w.len() && #[trigger] alt_matches(alpha, true, w.take(k)) && alt_matches(
                    beta,
                    true,
                    w.skip(k),
                ) && accepts(g, true, w.skip(k));
            assert(0 <= k <= w.len() && accepts(na, true, w.take(k)) && accepts(x, true, w.skip(k)));
        }
    }
    assert(rewritten_to(ahead_gamma(ts, cut), g) && (no_wildcard(g) ==> (accepts(n, true, w)
        <==> reads_ahead_wild(alpha, beta, g, w))));
}

/// The body of a lookahead as a classical expression is no longer than
/// the text of the lookahead.
proof fn lemma_lookahead_text_shorter(group: Seq<TokenView>)
    ensures
        lookahead_text(group).len() <= token_text(TokenView::LookaheadGroup(group)).len(),
{
    if group.len() > 0 && group.last() is StringEnd {
        lemma_text_split(group, 0, group.len() - 1);
        assert(group.subrange(0, group.len() - 1) =~= group.drop_last());
    }
}

/// What the body of a lookahead asks of what follows it, with `.` for any
/// character: where the body does not end with the end of the string,
/// that the body matches what the rest begins with; where it does, that
/// the body without that end matches the rest.
pub proof fn lemma_lookahead_body(group: Seq<TokenView>, v: Seq<char>)
    requires
        balanced(tokens_text(group)),
    ensures
        !(group.len() > 0 && group.last() is StringEnd) ==> (alt_matches(
            lookahead_text(group),
            true,
            v,
        ) <==> exists|j: int|
            0 <= j <= v.len() && alt_matches(tokens_text(group), true, #[trigger] v.take(j))),
        group.len() > 0 && group.last() is StringEnd ==> (alt_matches(lookahead_text(group), true, v)
            <==> alt_matches(tokens_text(group.drop_last()), true, v)),
{
    if !(group.len() > 0 && group.last() is StringEnd) {
        let x = tokens_text(group);
        assert(lookahead_text(group) =~= wrapped(x) + seq!['.', '*']);
        lemma_followed_by_anything(x, v);
    }
}

} // verus!
