//! The grammar of anchored expressions, stated on the text alone, and that
//! the tokeniser takes exactly the expressions of the grammar.
use vstd::prelude::*;
use crate::parser::BracketsTokenType;
use crate::parser::TokenView;
use crate::parser::bracketed;
use crate::parser::ends_the_string;
use crate::parser::flushed;
use crate::parser::group_end;
use crate::parser::group_kind;
use crate::parser::lemma_extract_bounds;
use crate::parser::look_tokens_at;
use crate::parser::regex_tokens_at;
use crate::parser::spec_extract;
use crate::parser::spec_parse;
use crate::parser::star_refused;
use crate::parser::round_trip::kernel;
use crate::parser::round_trip::lemma_bracketed;
use crate::parser::round_trip::lemma_bracketed_no_end;
use crate::parser::round_trip::lemma_group_no_end;
use crate::parser::round_trip::lemma_in_order_empty;
use crate::parser::round_trip::lemma_look_in_order;
use crate::parser::round_trip::lemma_regex_in_order;
use crate::parser::round_trip::lemma_spanning;
use crate::parser::round_trip::no_end;
use crate::parser::round_trip::spanning;
use crate::parser::round_trip::tokens_balanced;
use crate::parser::round_trip::undoubled;
use crate::parser::round_trip::wrap;

verus! {

// -------------------------------------------------------------------------
// The grammar
// -------------------------------------------------------------------------

/// The body of a lookahead or lookbehind is well formed from `pos` on,
/// where `some` says that something stands before `pos` in the
/// alternative that `pos` stands in.
///
/// A group has to be closed, to hold something well formed, to begin with
/// no `?`, and not to end with `$`. A closing bracket cannot stand
/// without its opening bracket. A bar has to have something before it and
/// something behind it. A `$` can only be the last character. A star has
/// to have something before it. Any other character stands for itself.
pub open spec fn look_well(s: Seq<char>, pos: int, some: bool) -> bool
    decreases s.len(), s.len() - pos,
{
    if pos < 0 || pos >= s.len() {
        true
    } else if s[pos] == '(' {
        match spec_extract(s, pos) {
            Err(_) => false,
            Ok(g) => {
                proof {
                    lemma_extract_bounds(s, pos);
                }
                g.kind == BracketsTokenType::SimpleSeq && look_well(g.inner, 0, false)
                    && g.inner.last() != '$' && look_well(s, g.next, true)
            },
        }
    } else if s[pos] == '|' {
        some && pos + 1 < s.len() && look_well(s, pos + 1, false)
    } else if s[pos] == ')' {
        false
    } else if s[pos] == '$' {
        pos + 1 == s.len()
    } else if s[pos] == '*' {
        some && look_well(s, pos + 1, true)
    } else {
        look_well(s, pos + 1, true)
    }
}

/// The body of an expression is well formed from `pos` on, where `some`
/// says that something stands before `pos` in the alternative that `pos`
/// stands in, and `ahead` that it is a lookahead that stands just before
/// `pos`.
///
/// A group has to be closed and to hold something well formed: an
/// expression body, or, behind `(?=` or `(?<=`, the body of a lookahead;
/// no other character can follow `(?`. A closing bracket cannot stand
/// without its opening bracket. A bar has to have something before it and
/// something behind it. A star has to have something before it that is
/// no lookahead. Any other character stands for itself.
pub open spec fn regex_well(s: Seq<char>, pos: int, some: bool, ahead: bool) -> bool
    decreases s.len(), s.len() - pos,
{
    if pos < 0 || pos >= s.len() {
        true
    } else if s[pos] == '(' {
        match spec_extract(s, pos) {
            Err(_) => false,
            Ok(g) => {
                proof {
                    lemma_extract_bounds(s, pos);
                }
                match g.kind {
                    BracketsTokenType::Lookahead => look_well(g.inner, 0, false) && regex_well(
                        s,
                        g.next,
                        true,
                        true,
                    ),
                    BracketsTokenType::Lookbehind => look_well(g.inner, 0, false) && regex_well(
                        s,
                        g.next,
                        true,
                        false,
                    ),
                    BracketsTokenType::SimpleSeq => regex_well(g.inner, 0, false, false)
                        && regex_well(s, g.next, true, false),
                }
            },
        }
    } else if s[pos] == ')' {
        false
    } else if s[pos] == '|' {
        some && pos + 1 < s.len() && regex_well(s, pos + 1, false, false)
    } else if s[pos] == '*' {
        some && !ahead && regex_well(s, pos + 1, true, false)
    } else {
        regex_well(s, pos + 1, true, false)
    }
}

/// `r` is an expression of the grammar: it begins with `^`, ends with
/// `$`, and what stands between them is a well-formed body.
pub open spec fn well_formed(r: Seq<char>) -> bool {
    &&& r.len() >= 2
    &&& r[0] == '^'
    &&& r.last() == '$'
    &&& regex_well(r.subrange(1, r.len() - 1), 0, false, false)
}

// -------------------------------------------------------------------------
// Tokens that something can follow
// -------------------------------------------------------------------------

/// The tokens are not empty, do not end with an opening bracket, and do
/// not end with a pair of brackets with nothing between them.
pub open spec fn full(ts: Seq<TokenView>) -> bool {
    &&& ts.len() > 0
    &&& !(ts.last() is OpenBracket)
    &&& ts.last() is CloseBracket ==> ts.len() >= 2 && !(ts[ts.len() - 2] is OpenBracket)
}

/// There are no tokens, or the tokens are full.
pub open spec fn settled(ts: Seq<TokenView>) -> bool {
    ts.len() == 0 || full(ts)
}

/// What stands in the outer brackets of full balanced tokens is not
/// empty and does not end with an opening bracket.
pub proof fn lemma_kernel_full(ts: Seq<TokenView>)
    requires
        full(ts),
        tokens_balanced(ts),
    ensures
        kernel(ts).len() > 0,
        !(kernel(ts).last() is OpenBracket),
{
    if spanning(ts) {
        lemma_spanning(ts);
        let c = ts.subrange(1, ts.len() - 1);
        assert(ts == wrap(c));
        assert(ts.last() is CloseBracket);
        assert(ts[0] is OpenBracket);
        assert(c.last() == ts[ts.len() - 2]);
    }
}

/// Full tokens in order, between brackets behind other tokens, are full,
/// and a star can follow them.
pub proof fn lemma_group_full(fl: Seq<TokenView>, innr: Seq<TokenView>)
    requires
        full(innr),
        tokens_balanced(innr),
        undoubled(innr),
    ensures
        full(fl + bracketed(innr)),
        (fl + bracketed(innr)).last() is CloseBracket,
        !star_refused(fl + bracketed(innr)),
{
    lemma_bracketed(innr);
    lemma_kernel_full(innr);
    let k = kernel(innr);
    let w = wrap(k);
    let t = fl + w;
    assert(w.last() is CloseBracket);
    assert(w[w.len() - 2] == k.last());
    assert(t.last() == w.last());
    assert(t[t.len() - 2] == w[w.len() - 2]);
}

/// A group ends behind a closing bracket.
pub proof fn lemma_group_end_close(s: Seq<char>, i: int, depth: nat)
    requires
        0 <= i,
        depth >= 1,
        group_end(s, i, depth) >= 0,
    ensures
        i < group_end(s, i, depth) <= s.len(),
        s[group_end(s, i, depth) - 1] == ')',
    decreases s.len() - i,
{
    if i < s.len() {
        if s[i] == '(' {
            lemma_group_end_close(s, i + 1, depth + 1);
        } else if s[i] == ')' {
            if depth > 1 {
                lemma_group_end_close(s, i + 1, (depth - 1) as nat);
            }
        } else {
            lemma_group_end_close(s, i + 1, depth);
        }
    }
}

/// The group that is cut out of a text ends with a closing bracket.
pub proof fn lemma_extract_close(s: Seq<char>, pos: int)
    requires
        0 <= pos,
        spec_extract(s, pos) is Ok,
    ensures
        s[spec_extract(s, pos)->Ok_0.next - 1] == ')',
{
    match group_kind(s, pos) {
        Err(e) => {},
        Ok((kind, start)) => {
            lemma_group_end_close(s, start, 1);
        },
    }
}

// -------------------------------------------------------------------------
// The tokeniser takes the expressions of the grammar, and no others
// -------------------------------------------------------------------------

/// The tokeniser of lookahead bodies succeeds from `pos` on exactly if the
/// body is well formed from there. Its tokens hold those that were read
/// before, are not empty if something was left to read, and end with the
/// end of the string exactly if the text ends with `$`.
pub proof fn lemma_look_reads(s: Seq<char>, pos: int, b: int, toks: Seq<TokenView>)
    requires
        0 <= b <= pos <= s.len(),
        no_end(toks),
    ensures
        look_tokens_at(s, pos, b, toks) is Ok <==> look_well(
            s,
            pos,
            flushed(toks, s, b, pos).len() > 0,
        ),
        look_tokens_at(s, pos, b, toks) matches Ok(res) ==> res.len() >= flushed(
            toks,
            s,
            b,
            pos,
        ).len() && (pos < s.len() ==> res.len() > 0) && (ends_the_string(res) <==> pos < s.len()
            && s.last() == '$'),
    decreases s.len(), s.len() - pos,
{
    let e = Seq::<TokenView>::empty();
    let fl = flushed(toks, s, b, pos);
    assert(no_end(fl)) by {
        assert forall|k: int| 0 <= k < fl.len() implies !((#[trigger] fl[k]) is StringEnd) by {
            if k < toks.len() {
                assert(fl[k] == toks[k]);
            }
        }
    }
    assert(no_end(e));
    lemma_in_order_empty();
    if pos >= s.len() {
        if fl.len() > 0 {
            assert(!(fl[fl.len() - 1] is StringEnd));
        }
    } else if s[pos] == '(' {
        lemma_extract_bounds(s, pos);
        match spec_extract(s, pos) {
            Err(_) => {},
            Ok(g) => {
                lemma_extract_close(s, pos);
                if g.kind == BracketsTokenType::SimpleSeq {
                    lemma_look_reads(g.inner, 0, 0, e);
                    assert(flushed(e, g.inner, 0, 0) == e);
                    match look_tokens_at(g.inner, 0, 0, e) {
                        Err(_) => {},
                        Ok(inner) => {
                            if !ends_the_string(inner) {
                                lemma_group_no_end(g.inner);
                                lemma_bracketed_no_end(inner);
                                let t = fl + bracketed(inner);
                                assert(no_end(t)) by {
                                    assert forall|k: int| 0 <= k < t.len() implies !((
                                    #[trigger] t[k]) is StringEnd) by {
                                        if k < fl.len() {
                                            assert(t[k] == fl[k]);
                                        } else {
                                            assert(t[k] == bracketed(inner)[k - fl.len()]);
                                        }
                                    }
                                }
                                lemma_look_in_order(g.inner, 0, 0, e);
                                lemma_bracketed(inner);
                                assert(bracketed(inner).len() >= 2);
                                lemma_look_reads(s, g.next, g.next, t);
                                assert(flushed(t, s, g.next, g.next) == t);
                                if g.next >= s.len() {
                                    assert(!(t[t.len() - 1] is StringEnd));
                                }
                            }
                        },
                    }
                }
            },
        }
    } else if s[pos] == '|' {
        if fl.len() > 0 {
            lemma_look_reads(s, pos + 1, pos + 1, e);
            assert(flushed(e, s, pos + 1, pos + 1) == e);
            match look_tokens_at(s, pos + 1, pos + 1, e) {
                Err(_) => {},
                Ok(rest) => {
                    if rest.len() > 0 {
                        let res = fl.push(TokenView::Binary(seq!['|'])) + rest;
                        assert(res.last() == rest.last());
                    }
                },
            }
        }
    } else if s[pos] == ')' {
    } else if s[pos] == '$' {
        if pos + 1 == s.len() {
            let res = fl.push(TokenView::StringEnd);
            assert(res.last() is StringEnd);
        }
    } else if s[pos] == '*' {
        if fl.len() > 0 {
            let t = fl.push(TokenView::Unary(seq!['*']));
            assert(no_end(t)) by {
                assert forall|k: int| 0 <= k < t.len() implies !((#[trigger] t[k]) is StringEnd) by {
                    if k < fl.len() {
                        assert(t[k] == fl[k]);
                    }
                }
            }
            lemma_look_reads(s, pos + 1, pos + 1, t);
            assert(flushed(t, s, pos + 1, pos + 1) == t);
            if pos + 1 >= s.len() {
                assert(!(t[t.len() - 1] is StringEnd));
            }
        }
    } else {
        lemma_look_reads(s, pos + 1, b, toks);
        let t = flushed(toks, s, b, pos + 1);
        assert(t.len() > 0);
        assert(t.len() >= fl.len());
    }
}

/// The tokeniser of expression bodies succeeds from `pos` on exactly if
/// the body is well formed from there. Its tokens are settled, hold those
/// that were read before, and are not empty if something was left to
/// read.
pub proof fn lemma_regex_reads(s: Seq<char>, pos: int, b: int, toks: Seq<TokenView>)
    requires
        0 <= b <= pos <= s.len(),
        settled(flushed(toks, s, b, pos)),
    ensures
        regex_tokens_at(s, pos, b, toks) is Ok <==> regex_well(
            s,
            pos,
            flushed(toks, s, b, pos).len() > 0,
            flushed(toks, s, b, pos).len() > 0 && flushed(toks, s, b, pos).last() is LookaheadGroup,
        ),
        regex_tokens_at(s, pos, b, toks) matches Ok(res) ==> settled(res) && res.len() >= flushed(
            toks,
            s,
            b,
            pos,
        ).len() && (pos < s.len() ==> res.len() > 0),
    decreases s.len(), s.len() - pos,
{
    let e = Seq::<TokenView>::empty();
    let fl = flushed(toks, s, b, pos);
    assert(no_end(e));
    lemma_in_order_empty();
    if pos >= s.len() {
    } else if s[pos] == '(' {
        lemma_extract_bounds(s, pos);
        match spec_extract(s, pos) {
            Err(_) => {},
            Ok(g) => {
                match g.kind {
                    BracketsTokenType::Lookahead => {
                        lemma_look_reads(g.inner, 0, 0, e);
                        assert(flushed(e, g.inner, 0, 0) == e);
                        match look_tokens_at(g.inner, 0, 0, e) {
                            Err(_) => {},
                            Ok(inner) => {
                                let t = fl.push(TokenView::LookaheadGroup(inner));
                                assert(flushed(t, s, g.next, g.next) == t);
                                lemma_regex_reads(s, g.next, g.next, t);
                            },
                        }
                    },
                    BracketsTokenType::Lookbehind => {
                        lemma_look_reads(g.inner, 0, 0, e);
                        assert(flushed(e, g.inner, 0, 0) == e);
                        match look_tokens_at(g.inner, 0, 0, e) {
                            Err(_) => {},
                            Ok(inner) => {
                                let t = fl.push(TokenView::LookbehindGroup(inner));
                                assert(flushed(t, s, g.next, g.next) == t);
                                lemma_regex_reads(s, g.next, g.next, t);
                            },
                        }
                    },
                    BracketsTokenType::SimpleSeq => {
                        assert(flushed(e, g.inner, 0, 0) == e);
                        lemma_regex_reads(g.inner, 0, 0, e);
                        match regex_tokens_at(g.inner, 0, 0, e) {
                            Err(_) => {},
                            Ok(inner) => {
                                lemma_regex_in_order(g.inner, 0, 0, e);
                                lemma_group_full(fl, inner);
                                let t = fl + bracketed(inner);
                                assert(flushed(t, s, g.next, g.next) == t);
                                lemma_regex_reads(s, g.next, g.next, t);
                            },
                        }
                    },
                }
            },
        }
    } else if s[pos] == ')' {
    } else if s[pos] == '|' {
        if fl.len() > 0 {
            assert(flushed(e, s, pos + 1, pos + 1) == e);
            lemma_regex_reads(s, pos + 1, pos + 1, e);
            match regex_tokens_at(s, pos + 1, pos + 1, e) {
                Err(_) => {},
                Ok(rest) => {
                    if rest.len() > 0 {
                        let res = fl.push(TokenView::Binary(seq!['|'])) + rest;
                        assert(res.last() == rest.last());
                        if rest.len() >= 2 {
                            assert(res[res.len() - 2] == rest[rest.len() - 2]);
                        }
                    }
                },
            }
        }
    } else if s[pos] == '*' {
        if !star_refused(fl) {
            let t = fl.push(TokenView::Unary(seq!['*']));
            assert(flushed(t, s, pos + 1, pos + 1) == t);
            lemma_regex_reads(s, pos + 1, pos + 1, t);
        }
    } else {
        let t = flushed(toks, s, b, pos + 1);
        assert(t.len() > 0);
        assert(t.last() is SymbolSeq);
        lemma_regex_reads(s, pos + 1, b, toks);
    }
}

/// The parser takes an expression exactly if it is an expression of the
/// grammar.
pub proof fn lemma_parse_grammar(r: Seq<char>)
    ensures
        spec_parse(r) is Ok <==> well_formed(r),
{
    if r.len() >= 2 && r[0] == '^' && r.last() == '$' {
        let body = r.subrange(1, r.len() - 1);
        let e = Seq::<TokenView>::empty();
        assert(flushed(e, body, 0, 0) == e);
        lemma_regex_reads(body, 0, 0, e);
    }
}

} // verus!
