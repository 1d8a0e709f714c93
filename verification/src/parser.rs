//! Tokeniser for anchored expressions with lookahead and lookbehind groups.
use vstd::prelude::*;
use crate::text::chars_of;
use crate::text::string_of_range;
use crate::text::copy_range;

pub mod round_trip;
pub mod well_formed;

verus! {

/// One lexical element of an expression.
#[derive(Debug)]
pub enum Token {
    Binary(String),
    Unary(String),
    SymbolSeq(String),
    LookaheadGroup(Vec<Token>),
    LookbehindGroup(Vec<Token>),
    StringEnd,
    OpenBracket,
    CloseBracket,
}

/// What a `(` opens.
#[derive(Debug, Clone, Copy, PartialEq, Eq, Structural)]
pub enum BracketsTokenType {
    Lookahead,
    Lookbehind,
    SimpleSeq,
}

/// Why an expression was rejected.
#[derive(Debug, Clone, Copy, PartialEq, Eq, Structural)]
pub enum ParseError {
    InvalidBegin,
    InvalidEnd,
    InvalidBrackets,
    InvalidLookahead,
    InvalidOperation,
    EmptyBrackets,
}

/// The text that names an error.
pub open spec fn error_text(e: ParseError) -> Seq<char> {
    match e {
        ParseError::InvalidBegin => "regex must be begin with '^'"@,
        ParseError::InvalidEnd => "regex must be end with '$'"@,
        ParseError::InvalidBrackets => "invalid brackets sequence"@,
        ParseError::InvalidLookahead => "invalid lookahead operation"@,
        ParseError::InvalidOperation => "invalid operation"@,
        ParseError::EmptyBrackets => "empty brackets"@,
    }
}

impl ParseError {
    /// The text that names the error: the same for the same error, and
    /// another for each error.
    pub fn to_string(&self) -> (s: String)
        ensures
            s@ == error_text(*self),
    {
        match self {
            ParseError::InvalidBegin => String::from_str("regex must be begin with '^'"),
            ParseError::InvalidEnd => String::from_str("regex must be end with '$'"),
            ParseError::InvalidBrackets => String::from_str("invalid brackets sequence"),
            ParseError::InvalidLookahead => String::from_str("invalid lookahead operation"),
            ParseError::InvalidOperation => String::from_str("invalid operation"),
            ParseError::EmptyBrackets => String::from_str("empty brackets"),
        }
    }
}

/// The texts of two errors are the same only if the errors are.
pub proof fn lemma_error_texts_differ(a: ParseError, b: ParseError)
    requires
        error_text(a) == error_text(b),
    ensures
        a == b,
{
    reveal_strlit("regex must be begin with '^'");
    reveal_strlit("regex must be end with '$'");
    reveal_strlit("invalid brackets sequence");
    reveal_strlit("invalid lookahead operation");
    reveal_strlit("invalid operation");
    reveal_strlit("empty brackets");
    assert(error_text(ParseError::InvalidBegin).len() == 28);
    assert(error_text(ParseError::InvalidEnd).len() == 26);
    assert(error_text(ParseError::InvalidBrackets).len() == 25);
    assert(error_text(ParseError::InvalidLookahead).len() == 27);
    assert(error_text(ParseError::InvalidOperation).len() == 17);
    assert(error_text(ParseError::EmptyBrackets).len() == 14);
}

/// The mathematical value of a [`Token`].
pub enum TokenView {
    Binary(Seq<char>),
    Unary(Seq<char>),
    SymbolSeq(Seq<char>),
    LookaheadGroup(Seq<TokenView>),
    LookbehindGroup(Seq<TokenView>),
    StringEnd,
    OpenBracket,
    CloseBracket,
}

impl View for Token {
    type V = TokenView;

    open spec fn view(&self) -> TokenView
        decreases self,
    {
        match self {
            Token::Binary(s) => TokenView::Binary(s@),
            Token::Unary(s) => TokenView::Unary(s@),
            Token::SymbolSeq(s) => TokenView::SymbolSeq(s@),
            Token::LookaheadGroup(g) => TokenView::LookaheadGroup(
                Seq::new(
                    g.len() as nat,
                    |i: int|
                        if 0 <= i < g.len() {
                            g[i].view()
                        } else {
                            TokenView::StringEnd
                        },
                ),
            ),
            Token::LookbehindGroup(g) => TokenView::LookbehindGroup(
                Seq::new(
                    g.len() as nat,
                    |i: int|
                        if 0 <= i < g.len() {
                            g[i].view()
                        } else {
                            TokenView::StringEnd
                        },
                ),
            ),
            Token::StringEnd => TokenView::StringEnd,
            Token::OpenBracket => TokenView::OpenBracket,
            Token::CloseBracket => TokenView::CloseBracket,
        }
    }
}

/// The values of a run of tokens.
pub open spec fn views(ts: Seq<Token>) -> Seq<TokenView> {
    Seq::new(ts.len(), |i: int| ts[i]@)
}

/// The value of a group holds the values of its tokens.
pub proof fn lemma_group_view(g: Vec<Token>)
    ensures
        Token::LookaheadGroup(g)@ == TokenView::LookaheadGroup(views(g@)),
        Token::LookbehindGroup(g)@ == TokenView::LookbehindGroup(views(g@)),
{
    assert(Token::LookaheadGroup(g)@->LookaheadGroup_0 =~= views(g@));
    assert(Token::LookbehindGroup(g)@->LookbehindGroup_0 =~= views(g@));
}

/// The values of tokens with one more token.
pub proof fn lemma_views_push(ts: Seq<Token>, t: Token)
    ensures
        views(ts.push(t)) == views(ts).push(t@),
{
    assert(views(ts.push(t)) =~= views(ts).push(t@));
}

/// The values of tokens one after the other.
pub proof fn lemma_views_add(a: Seq<Token>, b: Seq<Token>)
    ensures
        views(a + b) == views(a) + views(b),
{
    assert(views(a + b) =~= views(a) + views(b));
}


// -------------------------------------------------------------------------
// The text of tokens
// -------------------------------------------------------------------------

/// The text that a token stands for.
pub open spec fn token_text(t: TokenView) -> Seq<char>
    decreases t,
{
    match t {
        TokenView::Binary(s) => s,
        TokenView::Unary(s) => s,
        TokenView::SymbolSeq(s) => s,
        TokenView::LookaheadGroup(g) => seq!['(', '?', '='] + tokens_text(g) + seq![')'],
        TokenView::LookbehindGroup(g) => seq!['(', '?', '<', '='] + tokens_text(g) + seq![')'],
        TokenView::StringEnd => seq!['$'],
        TokenView::OpenBracket => seq!['('],
        TokenView::CloseBracket => seq![')'],
    }
}

/// The texts of a run of tokens, one after the other.
pub open spec fn tokens_text(ts: Seq<TokenView>) -> Seq<char>
    decreases ts,
{
    if ts.len() == 0 {
        Seq::empty()
    } else {
        tokens_text(ts.drop_last()) + token_text(ts.last())
    }
}

// -------------------------------------------------------------------------
// Groups
// -------------------------------------------------------------------------

/// The index just behind the `)` that closes `depth` open brackets when
/// reading `s` from `i`, or -1 if they are never closed.
pub open spec fn group_end(s: Seq<char>, i: int, depth: nat) -> int
    decreases s.len() - i,
{
    if depth == 0 {
        i
    } else if i < 0 || i >= s.len() {
        -1
    } else if s[i] == '(' {
        group_end(s, i + 1, depth + 1)
    } else if s[i] == ')' {
        group_end(s, i + 1, (depth - 1) as nat)
    } else {
        group_end(s, i + 1, depth)
    }
}

/// The kind of the group whose `(` stands at `pos`, and the index at which
/// its content begins.
pub open spec fn group_kind(s: Seq<char>, pos: int) -> Result<(BracketsTokenType, int), ParseError> {
    if pos + 1 >= s.len() {
        Err(ParseError::InvalidBrackets)
    } else if s[pos + 1] != '?' {
        Ok((BracketsTokenType::SimpleSeq, pos + 1))
    } else if pos + 2 < s.len() && s[pos + 2] == '=' {
        Ok((BracketsTokenType::Lookahead, pos + 3))
    } else if pos + 3 < s.len() && s[pos + 2] == '<' && s[pos + 3] == '=' {
        Ok((BracketsTokenType::Lookbehind, pos + 4))
    } else {
        Err(ParseError::InvalidLookahead)
    }
}

/// A group cut out of an expression: its kind, the text between its
/// brackets, and the index just behind its closing bracket.
pub struct Group {
    pub kind: BracketsTokenType,
    pub inner: Seq<char>,
    pub next: int,
}

/// The group whose `(` stands at `pos`.
pub open spec fn spec_extract(s: Seq<char>, pos: int) -> Result<Group, ParseError> {
    match group_kind(s, pos) {
        Err(e) => Err(e),
        Ok((kind, start)) => {
            let end = group_end(s, start, 1);
            if end < 0 {
                Err(ParseError::InvalidBrackets)
            } else if end - 1 <= start {
                Err(ParseError::EmptyBrackets)
            } else {
                Ok(Group { kind, inner: s.subrange(start, end - 1), next: end })
            }
        },
    }
}

/// A group ends behind its brackets and inside the text.
pub proof fn lemma_group_end_bounds(s: Seq<char>, i: int, depth: nat)
    requires
        0 <= i,
    ensures
        group_end(s, i, depth) == -1 || (i + depth <= group_end(s, i, depth) <= s.len() + (if depth
            == 0 {
            i
        } else {
            0
        })),
    decreases s.len() - i,
{
    if depth == 0 {
    } else if i >= s.len() {
    } else if s[i] == '(' {
        lemma_group_end_bounds(s, i + 1, depth + 1);
    } else if s[i] == ')' {
        lemma_group_end_bounds(s, i + 1, (depth - 1) as nat);
    } else {
        lemma_group_end_bounds(s, i + 1, depth);
    }
}

/// A group lies behind its `(`, inside the text, and is shorter than what
/// was left of the text.
pub proof fn lemma_extract_bounds(s: Seq<char>, pos: int)
    requires
        0 <= pos,
    ensures
        spec_extract(s, pos) matches Ok(g) ==> pos + 2 < g.next <= s.len() && 0 < g.inner.len() < s.len()
            - pos - 1,
{
    match group_kind(s, pos) {
        Err(e) => {},
        Ok((kind, start)) => {
            lemma_group_end_bounds(s, start, 1);
        },
    }
}

// -------------------------------------------------------------------------
// Redundant brackets
// -------------------------------------------------------------------------

/// The index of the `CloseBracket` that closes `depth` open brackets when
/// reading `ts` from `i`, or -1 if there is none.
pub open spec fn bracket_end(ts: Seq<TokenView>, i: int, depth: nat) -> int
    decreases ts.len() - i,
{
    if i < 0 || i >= ts.len() {
        -1
    } else if ts[i] is OpenBracket {
        bracket_end(ts, i + 1, depth + 1)
    } else if ts[i] is CloseBracket {
        if depth <= 1 {
            i
        } else {
            bracket_end(ts, i + 1, (depth - 1) as nat)
        }
    } else {
        bracket_end(ts, i + 1, depth)
    }
}

/// The index of the bracket that closes the one opened at `o`.
pub open spec fn close_of(ts: Seq<TokenView>, o: int) -> int {
    bracket_end(ts, o + 1, 1)
}

/// The pair of brackets opened at `o` encloses nothing but the pair opened
/// at `o + 1`.
pub open spec fn doubled(ts: Seq<TokenView>, o: int) -> bool {
    &&& 0 <= o
    &&& o + 1 < ts.len()
    &&& ts[o] is OpenBracket
    &&& ts[o + 1] is OpenBracket
    &&& close_of(ts, o + 1) >= 0
    &&& close_of(ts, o) == close_of(ts, o + 1) + 1
}

/// The token at `k` is a bracket of an inner pair of doubled brackets.
pub open spec fn redundant(ts: Seq<TokenView>, k: int) -> bool {
    exists|o: int| #[trigger] doubled(ts, o) && (k == o + 1 || k == close_of(ts, o + 1))
}

/// The first `n` tokens of `ts` without the redundant brackets.
pub open spec fn kept_prefix(ts: Seq<TokenView>, n: int) -> Seq<TokenView>
    decreases n,
{
    if n <= 0 {
        Seq::empty()
    } else if redundant(ts, n - 1) {
        kept_prefix(ts, n - 1)
    } else {
        kept_prefix(ts, n - 1).push(ts[n - 1])
    }
}

/// `ts` with every doubled pair of brackets `((X))` reduced to `(X)`.
pub open spec fn simplified(ts: Seq<TokenView>) -> Seq<TokenView> {
    kept_prefix(ts, ts.len() as int)
}

// -------------------------------------------------------------------------
// The grammar
// -------------------------------------------------------------------------

/// `toks`, followed by the literal run `s[b..pos]` if it is not empty.
pub open spec fn flushed(toks: Seq<TokenView>, s: Seq<char>, b: int, pos: int) -> Seq<TokenView> {
    if b < pos {
        toks.push(TokenView::SymbolSeq(s.subrange(b, pos)))
    } else {
        toks
    }
}

/// A bracketed run of tokens, without redundant brackets.
pub open spec fn bracketed(inner: Seq<TokenView>) -> Seq<TokenView> {
    simplified(seq![TokenView::OpenBracket] + inner + seq![TokenView::CloseBracket])
}

/// `*` cannot follow the tokens `toks`.
pub open spec fn star_refused(toks: Seq<TokenView>) -> bool {
    ||| toks.len() == 0
    ||| (toks.len() > 2 && toks[toks.len() - 1] is CloseBracket && toks[toks.len() - 2] is OpenBracket)
    ||| toks.last() is LookaheadGroup
}

/// The tokens end with the end of the string.
pub open spec fn ends_the_string(toks: Seq<TokenView>) -> bool {
    toks.len() > 0 && toks.last() is StringEnd
}

/// The tokens of the body of a lookahead or lookbehind group, read from `pos`
/// on, where `toks` were read before and a literal run began at `b`. The
/// end of the string can stand at the end of the body alone: not before
/// its end, and not in a group of the body.
pub open spec fn look_tokens_at(s: Seq<char>, pos: int, b: int, toks: Seq<TokenView>) -> Result<
    Seq<TokenView>,
    ParseError,
>
    decreases s.len() - pos,
{
    if pos < 0 || pos >= s.len() {
        Ok(flushed(toks, s, b, pos))
    } else if s[pos] == '(' {
        match spec_extract(s, pos) {
            Err(e) => Err(e),
            Ok(g) => {
                proof {
                    lemma_extract_bounds(s, pos);
                }
                if g.kind != BracketsTokenType::SimpleSeq {
                    Err(ParseError::InvalidLookahead)
                } else {
                    match look_tokens_at(g.inner, 0, 0, Seq::empty()) {
                        Err(e) => Err(e),
                        Ok(inner) => if ends_the_string(inner) {
                            Err(ParseError::InvalidLookahead)
                        } else {
                            look_tokens_at(
                                s,
                                g.next,
                                g.next,
                                flushed(toks, s, b, pos) + bracketed(inner),
                            )
                        },
                    }
                }
            },
        }
    } else if s[pos] == '|' {
        if flushed(toks, s, b, pos).len() == 0 {
            Err(ParseError::InvalidOperation)
        } else {
            match look_tokens_at(s, pos + 1, pos + 1, Seq::empty()) {
                Err(e) => Err(e),
                Ok(rest) => if rest.len() == 0 {
                    Err(ParseError::InvalidOperation)
                } else {
                    Ok(flushed(toks, s, b, pos).push(TokenView::Binary(seq!['|'])) + rest)
                },
            }
        }
    } else if s[pos] == ')' {
        Err(ParseError::InvalidBrackets)
    } else if s[pos] == '$' {
        if pos + 1 < s.len() {
            Err(ParseError::InvalidLookahead)
        } else {
            Ok(flushed(toks, s, b, pos).push(TokenView::StringEnd))
        }
    } else if s[pos] == '*' {
        if flushed(toks, s, b, pos).len() == 0 {
            Err(ParseError::InvalidOperation)
        } else {
            look_tokens_at(
                s,
                pos + 1,
                pos + 1,
                flushed(toks, s, b, pos).push(TokenView::Unary(seq!['*'])),
            )
        }
    } else {
        look_tokens_at(s, pos + 1, b, toks)
    }
}

/// The tokens of an expression body, read from `pos` on, where `toks` were
/// read before and a literal run began at `b`.
pub open spec fn regex_tokens_at(s: Seq<char>, pos: int, b: int, toks: Seq<TokenView>) -> Result<
    Seq<TokenView>,
    ParseError,
>
    decreases s.len() - pos,
{
    if pos < 0 || pos >= s.len() {
        Ok(flushed(toks, s, b, pos))
    } else if s[pos] == '(' {
        match spec_extract(s, pos) {
            Err(e) => Err(e),
            Ok(g) => {
                proof {
                    lemma_extract_bounds(s, pos);
                }
                match g.kind {
                    BracketsTokenType::Lookahead => match look_tokens_at(g.inner, 0, 0, Seq::empty()) {
                        Err(e) => Err(e),
                        Ok(inner) => regex_tokens_at(
                            s,
                            g.next,
                            g.next,
                            flushed(toks, s, b, pos).push(TokenView::LookaheadGroup(inner)),
                        ),
                    },
                    BracketsTokenType::Lookbehind => match look_tokens_at(g.inner, 0, 0, Seq::empty()) {
                        Err(e) => Err(e),
                        Ok(inner) => regex_tokens_at(
                            s,
                            g.next,
                            g.next,
                            flushed(toks, s, b, pos).push(TokenView::LookbehindGroup(inner)),
                        ),
                    },
                    BracketsTokenType::SimpleSeq => match regex_tokens_at(g.inner, 0, 0, Seq::empty()) {
                        Err(e) => Err(e),
                        Ok(inner) => regex_tokens_at(
                            s,
                            g.next,
                            g.next,
                            flushed(toks, s, b, pos) + bracketed(inner),
                        ),
                    },
                }
            },
        }
    } else if s[pos] == ')' {
        Err(ParseError::InvalidBrackets)
    } else if s[pos] == '|' {
        if flushed(toks, s, b, pos).len() == 0 {
            Err(ParseError::InvalidOperation)
        } else {
            match regex_tokens_at(s, pos + 1, pos + 1, Seq::empty()) {
                Err(e) => Err(e),
                Ok(rest) => if rest.len() == 0 {
                    Err(ParseError::InvalidOperation)
                } else {
                    Ok(flushed(toks, s, b, pos).push(TokenView::Binary(seq!['|'])) + rest)
                },
            }
        }
    } else if s[pos] == '*' {
        if star_refused(flushed(toks, s, b, pos)) {
            Err(ParseError::InvalidOperation)
        } else {
            regex_tokens_at(
                s,
                pos + 1,
                pos + 1,
                flushed(toks, s, b, pos).push(TokenView::Unary(seq!['*'])),
            )
        }
    } else {
        regex_tokens_at(s, pos + 1, b, toks)
    }
}

/// The tokens of an expression body.
pub open spec fn regex_tokens(s: Seq<char>) -> Result<Seq<TokenView>, ParseError> {
    regex_tokens_at(s, 0, 0, Seq::empty())
}

/// The tokens of an anchored expression `^body$`.
pub open spec fn spec_parse(r: Seq<char>) -> Result<Seq<TokenView>, ParseError> {
    if r.len() == 0 || r[0] != '^' {
        Err(ParseError::InvalidBegin)
    } else if r.len() < 2 || r.last() != '$' {
        Err(ParseError::InvalidEnd)
    } else {
        regex_tokens(r.subrange(1, r.len() - 1))
    }
}

/// What a parse returned, with the tokens taken by their values.
pub open spec fn parsed(res: Result<Vec<Token>, ParseError>) -> Result<Seq<TokenView>, ParseError> {
    match res {
        Ok(ts) => Ok(views(ts@)),
        Err(e) => Err(e),
    }
}


// -------------------------------------------------------------------------
// Rendering
// -------------------------------------------------------------------------

/// The text of tokens with one more token.
pub proof fn lemma_tokens_text_push(ts: Seq<TokenView>, t: TokenView)
    ensures
        tokens_text(ts.push(t)) == tokens_text(ts) + token_text(t),
{
    assert(ts.push(t).drop_last() =~= ts);
}

/// The text of tokens one after the other.
pub proof fn lemma_tokens_text_add(a: Seq<TokenView>, b: Seq<TokenView>)
    ensures
        tokens_text(a + b) == tokens_text(a) + tokens_text(b),
    decreases b.len(),
{
    if b.len() == 0 {
        assert(a + b =~= a);
        assert(tokens_text(a) + tokens_text(b) =~= tokens_text(a));
    } else {
        lemma_tokens_text_add(a, b.drop_last());
        assert((a + b).drop_last() =~= a + b.drop_last());
        assert(tokens_text(a + b) =~= tokens_text(a) + tokens_text(b));
    }
}

impl Token {
    /// The text of the token, as it stands in an expression.
    pub fn to_string(&self) -> (s: String)
        ensures
            s@ == token_text(self@),
        decreases self,
    {
        match self {
            Token::Binary(b) => b.clone(),
            Token::Unary(b) => b.clone(),
            Token::SymbolSeq(b) => b.clone(),
            Token::LookaheadGroup(g) => {
                let mut s = String::from_str("(?=");
                proof {
                    reveal_strlit("(?=");
                    lemma_group_view(*g);
                    assert(s@ =~= seq!['(', '?', '=']);
                }
                let mut i: usize = 0;
                assert(decreases_to!(self => g));
                while i < g.len()
                    invariant
                        i <= g.len(),
                        s@ == seq!['(', '?', '='] + tokens_text(views(g@).take(i as int)),
                        decreases_to!(self => g),
                    decreases g.len() - i,
                {
                    let t = g[i].to_string();
                    s.append(t.as_str());
                    proof {
                        lemma_text_take(views(g@), i as int);
                    }
                    i += 1;
                }
                s.push(')');
                proof {
                    assert(views(g@).take(g.len() as int) =~= views(g@));
                }
                s
            },
            Token::LookbehindGroup(g) => {
                let mut s = String::from_str("(?<=");
                proof {
                    reveal_strlit("(?<=");
                    lemma_group_view(*g);
                    assert(s@ =~= seq!['(', '?', '<', '=']);
                }
                let mut i: usize = 0;
                assert(decreases_to!(self => g));
                while i < g.len()
                    invariant
                        i <= g.len(),
                        s@ == seq!['(', '?', '<', '='] + tokens_text(views(g@).take(i as int)),
                        decreases_to!(self => g),
                    decreases g.len() - i,
                {
                    let t = g[i].to_string();
                    s.append(t.as_str());
                    proof {
                        lemma_text_take(views(g@), i as int);
                    }
                    i += 1;
                }
                s.push(')');
                proof {
                    assert(views(g@).take(g.len() as int) =~= views(g@));
                }
                s
            },
            Token::StringEnd => {
                let s = String::from_str("$");
                proof {
                    reveal_strlit("$");
                    assert(s@ =~= seq!['$']);
                }
                s
            },
            Token::OpenBracket => {
                let s = String::from_str("(");
                proof {
                    reveal_strlit("(");
                    assert(s@ =~= seq!['(']);
                }
                s
            },
            Token::CloseBracket => {
                let s = String::from_str(")");
                proof {
                    reveal_strlit(")");
                    assert(s@ =~= seq![')']);
                }
                s
            },
        }
    }
}

proof fn lemma_text_take(ts: Seq<TokenView>, i: int)
    requires
        0 <= i < ts.len(),
    ensures
        tokens_text(ts.take(i + 1)) == tokens_text(ts.take(i)) + token_text(ts[i]),
{
    assert(ts.take(i + 1) =~= ts.take(i).push(ts[i]));
    lemma_tokens_text_push(ts.take(i), ts[i]);
}

/// The text of the tokens `ts[from..to]`, one after the other.
pub fn tokens_string(ts: &Vec<Token>, from: usize, to: usize) -> (s: String)
    requires
        from <= to <= ts.len(),
    ensures
        s@ == tokens_text(views(ts@).subrange(from as int, to as int)),
{
    let mut s = String::new();
    let mut i: usize = from;
    while i < to
        invariant
            from <= i <= to <= ts.len(),
            s@ == tokens_text(views(ts@).subrange(from as int, i as int)),
        decreases to - i,
    {
        let t = ts[i].to_string();
        s.append(t.as_str());
        proof {
            let v = views(ts@);
            assert(v.subrange(from as int, i + 1) =~= v.subrange(from as int, i as int).push(
                v[i as int],
            ));
            lemma_tokens_text_push(v.subrange(from as int, i as int), v[i as int]);
        }
        i += 1;
    }
    s
}

// -------------------------------------------------------------------------
// Redundant brackets
// -------------------------------------------------------------------------

/// Whether the token is an opening bracket.
pub fn is_open(t: &Token) -> (b: bool)
    ensures
        b == (t@ is OpenBracket),
{
    match t {
        Token::OpenBracket => true,
        _ => false,
    }
}

/// Whether the token is a closing bracket.
pub fn is_close(t: &Token) -> (b: bool)
    ensures
        b == (t@ is CloseBracket),
{
    match t {
        Token::CloseBracket => true,
        _ => false,
    }
}

fn is_lookahead(t: &Token) -> (b: bool)
    ensures
        b == (t@ is LookaheadGroup),
{
    match t {
        Token::LookaheadGroup(_) => true,
        _ => false,
    }
}

/// The index of the bracket that closes one open bracket when reading
/// from `start`.
pub fn find_bracket_end(ts: &Vec<Token>, start: usize) -> (r: Option<usize>)
    requires
        start <= ts.len(),
    ensures
        match r {
            Some(k) => bracket_end(views(ts@), start as int, 1) == k && k < ts.len(),
            None => bracket_end(views(ts@), start as int, 1) == -1,
        },
{
    let mut i: usize = start;
    // brackets opened since `start` and still open
    let mut nested: usize = 0;
    while i < ts.len()
        invariant
            start <= i <= ts.len(),
            nested <= i - start,
            bracket_end(views(ts@), i as int, (nested + 1) as nat) == bracket_end(
                views(ts@),
                start as int,
                1,
            ),
        decreases ts.len() - i,
    {
        if is_open(&ts[i]) {
            nested += 1;
        } else if is_close(&ts[i]) {
            if nested == 0 {
                return Some(i);
            }
            nested -= 1;
        }
        i += 1;
    }
    None
}

/// The token at `k` is a bracket of an inner pair of the doubled brackets
/// that open before `bound`.
pub open spec fn redundant_below(ts: Seq<TokenView>, bound: int, k: int) -> bool {
    exists|o: int|
        0 <= o < bound && #[trigger] doubled(ts, o) && (k == o + 1 || k == close_of(ts, o + 1))
}

proof fn lemma_redundant_step(ts: Seq<TokenView>, bound: int, k: int)
    requires
        0 <= bound,
    ensures
        redundant_below(ts, bound + 1, k) == (redundant_below(ts, bound, k) || (doubled(ts, bound)
            && (k == bound + 1 || k == close_of(ts, bound + 1)))),
{
    if redundant_below(ts, bound + 1, k) {
        let o = choose|o: int|
            0 <= o < bound + 1 && #[trigger] doubled(ts, o) && (k == o + 1 || k == close_of(
                ts,
                o + 1,
            ));
        if o < bound {
            assert(redundant_below(ts, bound, k));
        }
    }
    if redundant_below(ts, bound, k) {
        let o = choose|o: int|
            0 <= o < bound && #[trigger] doubled(ts, o) && (k == o + 1 || k == close_of(ts, o + 1));
        assert(0 <= o < bound + 1 && doubled(ts, o));
    }
    if doubled(ts, bound) && (k == bound + 1 || k == close_of(ts, bound + 1)) {
        assert(redundant_below(ts, bound + 1, k));
    }
}

proof fn lemma_redundant_all(ts: Seq<TokenView>, bound: int, k: int)
    requires
        bound + 1 >= ts.len(),
    ensures
        redundant(ts, k) == redundant_below(ts, bound, k),
{
    if redundant(ts, k) {
        let o = choose|o: int| #[trigger] doubled(ts, o) && (k == o + 1 || k == close_of(ts, o + 1));
        assert(0 <= o < bound);
    }
}

/// Reduces every doubled pair of brackets `((X))` to `(X)`.
pub fn simplify_brackets(tokens: Vec<Token>) -> (res: Vec<Token>)
    ensures
        views(res@) == simplified(views(tokens@)),
{
    let n = tokens.len();
    let ghost ts = views(tokens@);
    let mut marks: Vec<bool> = Vec::new();
    while marks.len() < n
        invariant
            marks.len() <= n,
            forall|k: int| 0 <= k < marks.len() ==> !marks[k],
        decreases n - marks.len(),
    {
        marks.push(false);
    }
    let mut o: usize = 0;
    while n > 0 && o < n - 1
        invariant
            n == tokens.len(),
            o <= n,
            marks.len() == n,
            ts == views(tokens@),
            forall|k: int| 0 <= k < n ==> marks[k] == redundant_below(ts, o as int, k),
        decreases n - o,
    {
        let ghost before = marks@;
        if is_open(&tokens[o]) && is_open(&tokens[o + 1]) {
            let outer = find_bracket_end(&tokens, o + 1);
            let inner = find_bracket_end(&tokens, o + 2);
            match (outer, inner) {
                (Some(c0), Some(c1)) => {
                    if c0 == c1 + 1 {
                        marks.set(o + 1, true);
                        marks.set(c1, true);
                    }
                },
                _ => {},
            }
        }
        proof {
            assert forall|k: int| 0 <= k < n implies marks[k] == redundant_below(ts, o + 1, k) by {
                lemma_redundant_step(ts, o as int, k);
                assert(before[k] == redundant_below(ts, o as int, k));
            }
        }
        o += 1;
    }
    let mut res: Vec<Token> = Vec::new();
    let mut k: usize = 0;
    for t in it: tokens.into_iter()
        invariant
            k == it.index(),
            it.seq() == tokens@,
            n == tokens@.len(),
            marks.len() == n,
            ts == views(tokens@),
            o + 1 >= n,
            forall|k: int| 0 <= k < n ==> marks[k] == redundant_below(ts, o as int, k),
            views(res@) == kept_prefix(ts, k as int),
    {
        proof {
            lemma_redundant_all(ts, o as int, k as int);
            lemma_views_push(res@, t);
        }
        if !marks[k] {
            res.push(t);
        }
        k += 1;
    }
    res
}


// -------------------------------------------------------------------------
// The tokeniser
// -------------------------------------------------------------------------

/// Cuts out the group whose `(` stands at `pos`: its kind, the text between
/// its brackets and the index just behind its closing bracket.
pub fn extract(s: &Vec<char>, pos: usize) -> (res: Result<
    (BracketsTokenType, Vec<char>, usize),
    ParseError,
>)
    requires
        pos < s.len(),
    ensures
        match res {
            Ok((kind, inner, next)) => spec_extract(s@, pos as int) == Ok::<Group, ParseError>(
                Group { kind, inner: inner@, next: next as int },
            ),
            Err(e) => spec_extract(s@, pos as int) == Err::<Group, ParseError>(e),
        },
{
    let n = s.len();
    if pos + 1 >= n {
        return Err(ParseError::InvalidBrackets);
    }
    let mut kind = BracketsTokenType::SimpleSeq;
    let mut start: usize = pos + 1;
    if s[pos + 1] == '?' {
        if pos + 2 < n && s[pos + 2] == '=' {
            kind = BracketsTokenType::Lookahead;
            start = pos + 3;
        } else if pos + 2 < n && pos + 3 < n && s[pos + 2] == '<' && s[pos + 3] == '=' {
            kind = BracketsTokenType::Lookbehind;
            start = pos + 4;
        } else {
            return Err(ParseError::InvalidLookahead);
        }
    }
    assert(group_kind(s@, pos as int) == Ok::<(BracketsTokenType, int), ParseError>(
        (kind, start as int),
    ));
    let mut i: usize = start;
    // brackets opened inside the group and still open
    let mut nested: usize = 0;
    let mut closed = false;
    while i < n && !closed
        invariant
            n == s.len(),
            start <= i <= n,
            nested <= i - start,
            closed ==> i > start && nested == 0,
            group_end(s@, i as int, if closed {
                0nat
            } else {
                (nested + 1) as nat
            }) == group_end(s@, start as int, 1),
        decreases n - i,
    {
        if s[i] == '(' {
            nested += 1;
        } else if s[i] == ')' {
            if nested == 0 {
                closed = true;
            } else {
                nested -= 1;
            }
        }
        i += 1;
    }
    if !closed {
        return Err(ParseError::InvalidBrackets);
    }
    if i - 1 <= start {
        return Err(ParseError::EmptyBrackets);
    }
    let inner = copy_range(s, start, i - 1);
    Ok((kind, inner, i))
}

/// Appends the literal run `s[b..pos]` to `tokens` if it is not empty.
fn flush(tokens: &mut Vec<Token>, s: &Vec<char>, b: usize, pos: usize)
    requires
        b <= pos <= s.len(),
    ensures
        views(final(tokens)@) == flushed(views(old(tokens)@), s@, b as int, pos as int),
{
    if b < pos {
        let run = string_of_range(s, b, pos);
        let t = Token::SymbolSeq(run);
        proof {
            lemma_views_push(tokens@, t);
        }
        tokens.push(t);
    }
}

/// Appends the bracketed tokens `inner`, without redundant brackets, to
/// `tokens`.
fn push_bracketed(tokens: &mut Vec<Token>, inner: Vec<Token>)
    ensures
        views(final(tokens)@) == views(old(tokens)@) + bracketed(views(inner@)),
{
    let mut inner = inner;
    let ghost inner0 = inner@;
    let mut tmp: Vec<Token> = Vec::new();
    tmp.push(Token::OpenBracket);
    tmp.append(&mut inner);
    tmp.push(Token::CloseBracket);
    proof {
        assert(views(tmp@) =~= seq![TokenView::OpenBracket] + views(inner0) + seq![
            TokenView::CloseBracket,
        ]);
    }
    let mut tmp = simplify_brackets(tmp);
    proof {
        lemma_views_add(tokens@, tmp@);
    }
    tokens.append(&mut tmp);
}

fn binary_token() -> (t: Token)
    ensures
        t@ == TokenView::Binary(seq!['|']),
{
    let s = String::from_str("|");
    proof {
        reveal_strlit("|");
        assert(s@ =~= seq!['|']);
    }
    Token::Binary(s)
}

fn unary_token() -> (t: Token)
    ensures
        t@ == TokenView::Unary(seq!['*']),
{
    let s = String::from_str("*");
    proof {
        reveal_strlit("*");
        assert(s@ =~= seq!['*']);
    }
    Token::Unary(s)
}

/// Whether the tokens end with the end of the string.
pub fn ends_with_string_end(tokens: &Vec<Token>) -> (b: bool)
    ensures
        b == ends_the_string(views(tokens@)),
{
    if tokens.len() == 0 {
        return false;
    }
    match &tokens[tokens.len() - 1] {
        Token::StringEnd => true,
        _ => false,
    }
}

/// Tokenises the body of a lookahead or lookbehind group from `start` on.
pub fn parse_look_operator(s: &Vec<char>, start: usize) -> (res: Result<Vec<Token>, ParseError>)
    requires
        start <= s.len(),
    ensures
        parsed(res) == look_tokens_at(s@, start as int, start as int, Seq::empty()),
    decreases s.len() - start,
{
    let n = s.len();
    let mut tokens: Vec<Token> = Vec::new();
    let mut pos: usize = start;
    let mut b: usize = start;
    assert(views(tokens@) =~= Seq::<TokenView>::empty());
    while pos < n
        invariant
            n == s.len(),
            start <= b <= pos <= n,
            look_tokens_at(s@, pos as int, b as int, views(tokens@)) == look_tokens_at(
                s@,
                start as int,
                start as int,
                Seq::empty(),
            ),
        decreases n - pos,
    {
        let c = s[pos];
        if c == '(' {
            flush(&mut tokens, s, b, pos);
            proof {
                lemma_extract_bounds(s@, pos as int);
            }
            match extract(s, pos) {
                Err(e) => {
                    return Err(e);
                },
                Ok((kind, inner, next)) => {
                    match kind {
                        BracketsTokenType::SimpleSeq => {
                            match parse_look_operator(&inner, 0) {
                                Err(e) => {
                                    return Err(e);
                                },
                                Ok(group) => {
                                    if ends_with_string_end(&group) {
                                        return Err(ParseError::InvalidLookahead);
                                    }
                                    push_bracketed(&mut tokens, group);
                                    pos = next;
                                    b = next;
                                },
                            }
                        },
                        _ => {
                            return Err(ParseError::InvalidLookahead);
                        },
                    }
                },
            }
        } else if c == '|' {
            flush(&mut tokens, s, b, pos);
            if tokens.len() == 0 {
                return Err(ParseError::InvalidOperation);
            }
            match parse_look_operator(s, pos + 1) {
                Err(e) => {
                    return Err(e);
                },
                Ok(rest) => {
                    let mut rest = rest;
                    if rest.len() == 0 {
                        return Err(ParseError::InvalidOperation);
                    }
                    let t = binary_token();
                    proof {
                        lemma_views_push(tokens@, t);
                        lemma_views_add(tokens@.push(t), rest@);
                    }
                    tokens.push(t);
                    tokens.append(&mut rest);
                    return Ok(tokens);
                },
            }
        } else if c == ')' {
            return Err(ParseError::InvalidBrackets);
        } else if c == '$' {
            if pos + 1 < n {
                return Err(ParseError::InvalidLookahead);
            }
            flush(&mut tokens, s, b, pos);
            proof {
                lemma_views_push(tokens@, Token::StringEnd);
            }
            tokens.push(Token::StringEnd);
            return Ok(tokens);
        } else if c == '*' {
            flush(&mut tokens, s, b, pos);
            if tokens.len() == 0 {
                return Err(ParseError::InvalidOperation);
            }
            let t = unary_token();
            proof {
                lemma_views_push(tokens@, t);
            }
            tokens.push(t);
            pos += 1;
            b = pos;
        } else {
            pos += 1;
        }
    }
    flush(&mut tokens, s, b, pos);
    Ok(tokens)
}

/// `*` cannot follow `tokens`.
fn refuses_star(tokens: &Vec<Token>) -> (b: bool)
    ensures
        b == star_refused(views(tokens@)),
{
    let n = tokens.len();
    if n == 0 {
        return true;
    }
    if n > 2 && is_close(&tokens[n - 1]) && is_open(&tokens[n - 2]) {
        return true;
    }
    is_lookahead(&tokens[n - 1])
}

/// Tokenises an expression body from `start` on.
pub fn parse_regex(s: &Vec<char>, start: usize) -> (res: Result<Vec<Token>, ParseError>)
    requires
        start <= s.len(),
    ensures
        parsed(res) == regex_tokens_at(s@, start as int, start as int, Seq::empty()),
    decreases s.len() - start,
{
    let n = s.len();
    let mut tokens: Vec<Token> = Vec::new();
    let mut pos: usize = start;
    let mut b: usize = start;
    assert(views(tokens@) =~= Seq::<TokenView>::empty());
    while pos < n
        invariant
            n == s.len(),
            start <= b <= pos <= n,
            regex_tokens_at(s@, pos as int, b as int, views(tokens@)) == regex_tokens_at(
                s@,
                start as int,
                start as int,
                Seq::empty(),
            ),
        decreases n - pos,
    {
        let c = s[pos];
        if c == '(' {
            flush(&mut tokens, s, b, pos);
            proof {
                lemma_extract_bounds(s@, pos as int);
            }
            match extract(s, pos) {
                Err(e) => {
                    return Err(e);
                },
                Ok((kind, inner, next)) => {
                    match kind {
                        BracketsTokenType::Lookahead => {
                            match parse_look_operator(&inner, 0) {
                                Err(e) => {
                                    return Err(e);
                                },
                                Ok(group) => {
                                    let t = Token::LookaheadGroup(group);
                                    proof {
                                        lemma_group_view(group);
                                        lemma_views_push(tokens@, t);
                                    }
                                    tokens.push(t);
                                },
                            }
                        },
                        BracketsTokenType::Lookbehind => {
                            match parse_look_operator(&inner, 0) {
                                Err(e) => {
                                    return Err(e);
                                },
                                Ok(group) => {
                                    let t = Token::LookbehindGroup(group);
                                    proof {
                                        lemma_group_view(group);
                                        lemma_views_push(tokens@, t);
                                    }
                                    tokens.push(t);
                                },
                            }
                        },
                        BracketsTokenType::SimpleSeq => {
                            match parse_regex(&inner, 0) {
                                Err(e) => {
                                    return Err(e);
                                },
                                Ok(group) => {
                                    push_bracketed(&mut tokens, group);
                                },
                            }
                        },
                    }
                    pos = next;
                    b = next;
                },
            }
        } else if c == ')' {
            return Err(ParseError::InvalidBrackets);
        } else if c == '|' {
            flush(&mut tokens, s, b, pos);
            if tokens.len() == 0 {
                return Err(ParseError::InvalidOperation);
            }
            match parse_regex(s, pos + 1) {
                Err(e) => {
                    return Err(e);
                },
                Ok(rest) => {
                    let mut rest = rest;
                    if rest.len() == 0 {
                        return Err(ParseError::InvalidOperation);
                    }
                    let t = binary_token();
                    proof {
                        lemma_views_push(tokens@, t);
                        lemma_views_add(tokens@.push(t), rest@);
                    }
                    tokens.push(t);
                    tokens.append(&mut rest);
                    return Ok(tokens);
                },
            }
        } else if c == '*' {
            flush(&mut tokens, s, b, pos);
            if refuses_star(&tokens) {
                return Err(ParseError::InvalidOperation);
            }
            let t = unary_token();
            proof {
                lemma_views_push(tokens@, t);
            }
            tokens.push(t);
            pos += 1;
            b = pos;
        } else {
            pos += 1;
        }
    }
    flush(&mut tokens, s, b, pos);
    Ok(tokens)
}

/// Tokenises the anchored expression `r`, which has the form `^body$`.
///
/// The result is `Ok` exactly for the expressions that the grammar admits;
/// every other expression is rejected with the error that says why.
pub fn parse(r: &str) -> (res: Result<Vec<Token>, ParseError>)
    ensures
        parsed(res) == spec_parse(r@),
        res is Ok <==> crate::parser::well_formed::well_formed(r@),
{
    proof {
        crate::parser::well_formed::lemma_parse_grammar(r@);
    }
    let s = chars_of(r);
    let n = s.len();
    if n == 0 || s[0] != '^' {
        return Err(ParseError::InvalidBegin);
    }
    if n < 2 || s[n - 1] != '$' {
        return Err(ParseError::InvalidEnd);
    }
    let body = copy_range(&s, 1, n - 1);
    parse_regex(&body, 0)
}


// -------------------------------------------------------------------------
// The text of what was read is no longer than what was read
// -------------------------------------------------------------------------

/// The text of a run of tokens falls into the texts of its parts.
pub proof fn lemma_text_split(ts: Seq<TokenView>, a: int, b: int)
    requires
        0 <= a <= b <= ts.len(),
    ensures
        tokens_text(ts) == tokens_text(ts.subrange(0, a)) + tokens_text(ts.subrange(a, b))
            + tokens_text(ts.subrange(b, ts.len() as int)),
{
    let x = ts.subrange(0, a);
    let y = ts.subrange(a, b);
    let z = ts.subrange(b, ts.len() as int);
    assert(ts =~= (x + y) + z);
    lemma_tokens_text_add(x + y, z);
    lemma_tokens_text_add(x, y);
}

proof fn lemma_kept_prefix_text(ts: Seq<TokenView>, n: int)
    requires
        0 <= n <= ts.len(),
    ensures
        tokens_text(kept_prefix(ts, n)).len() <= tokens_text(ts.take(n)).len(),
    decreases n,
{
    if n > 0 {
        lemma_kept_prefix_text(ts, n - 1);
        lemma_text_take(ts, n - 1);
        if !redundant(ts, n - 1) {
            lemma_tokens_text_push(kept_prefix(ts, n - 1), ts[n - 1]);
        }
    }
}

/// Brackets in brackets, without the redundant ones, are no longer than
/// their content and two brackets.
pub proof fn lemma_bracketed_text(inner: Seq<TokenView>)
    ensures
        tokens_text(bracketed(inner)).len() <= tokens_text(inner).len() + 2,
{
    let ts = seq![TokenView::OpenBracket] + inner + seq![TokenView::CloseBracket];
    lemma_kept_prefix_text(ts, ts.len() as int);
    assert(ts.take(ts.len() as int) =~= ts);
    lemma_tokens_text_add(seq![TokenView::OpenBracket] + inner, seq![TokenView::CloseBracket]);
    lemma_tokens_text_add(seq![TokenView::OpenBracket], inner);
    lemma_text_single(TokenView::OpenBracket);
    lemma_text_single(TokenView::CloseBracket);
}

/// The text of one token.
pub proof fn lemma_text_single(t: TokenView)
    ensures
        tokens_text(seq![t]) == token_text(t),
{
    lemma_tokens_text_push(Seq::empty(), t);
    assert(Seq::<TokenView>::empty().push(t) =~= seq![t]);
    assert(tokens_text(Seq::empty()) + token_text(t) =~= token_text(t));
}

proof fn lemma_flushed_text(toks: Seq<TokenView>, s: Seq<char>, b: int, pos: int)
    requires
        0 <= b <= pos <= s.len(),
    ensures
        tokens_text(flushed(toks, s, b, pos)).len() == tokens_text(toks).len() + pos - b,
{
    if b < pos {
        lemma_tokens_text_push(toks, TokenView::SymbolSeq(s.subrange(b, pos)));
    }
}

/// The text of the tokens of a group body is no longer than the body.
pub proof fn lemma_look_tokens_text(s: Seq<char>, pos: int, b: int, toks: Seq<TokenView>)
    requires
        0 <= b <= pos <= s.len(),
    ensures
        look_tokens_at(s, pos, b, toks) matches Ok(res) ==> tokens_text(res).len() <= tokens_text(
            toks,
        ).len() + s.len() - b,
    decreases s.len() - pos,
{
    let fl = flushed(toks, s, b, pos);
    lemma_flushed_text(toks, s, b, pos);
    if pos >= s.len() {
    } else if s[pos] == '(' {
        lemma_extract_bounds(s, pos);
        match spec_extract(s, pos) {
            Err(e) => {},
            Ok(g) => {
                if g.kind == BracketsTokenType::SimpleSeq {
                    lemma_look_tokens_text(g.inner, 0, 0, Seq::empty());
                    match look_tokens_at(g.inner, 0, 0, Seq::empty()) {
                        Err(e) => {},
                        Ok(inner) => {
                            lemma_bracketed_text(inner);
                            lemma_tokens_text_add(fl, bracketed(inner));
                            lemma_look_tokens_text(s, g.next, g.next, fl + bracketed(inner));
                        },
                    }
                }
            },
        }
    } else if s[pos] == '|' {
        lemma_look_tokens_text(s, pos + 1, pos + 1, Seq::empty());
        match look_tokens_at(s, pos + 1, pos + 1, Seq::empty()) {
            Err(e) => {},
            Ok(rest) => {
                let t = TokenView::Binary(seq!['|']);
                lemma_tokens_text_push(fl, t);
                lemma_tokens_text_add(fl.push(t), rest);
            },
        }
    } else if s[pos] == ')' {
    } else if s[pos] == '$' {
        lemma_tokens_text_push(fl, TokenView::StringEnd);
    } else if s[pos] == '*' {
        let t = TokenView::Unary(seq!['*']);
        lemma_tokens_text_push(fl, t);
        lemma_look_tokens_text(s, pos + 1, pos + 1, fl.push(t));
    } else {
        lemma_look_tokens_text(s, pos + 1, b, toks);
    }
}

/// The text of the tokens of an expression body is no longer than the
/// body.
pub proof fn lemma_regex_tokens_text(s: Seq<char>, pos: int, b: int, toks: Seq<TokenView>)
    requires
        0 <= b <= pos <= s.len(),
    ensures
        regex_tokens_at(s, pos, b, toks) matches Ok(res) ==> tokens_text(res).len() <= tokens_text(
            toks,
        ).len() + s.len() - b,
    decreases s.len() - pos,
{
    let fl = flushed(toks, s, b, pos);
    lemma_flushed_text(toks, s, b, pos);
    if pos >= s.len() {
    } else if s[pos] == '(' {
        lemma_extract_bounds(s, pos);
        match spec_extract(s, pos) {
            Err(e) => {},
            Ok(g) => {
                match g.kind {
                    BracketsTokenType::Lookahead => {
                        lemma_look_tokens_text(g.inner, 0, 0, Seq::empty());
                        match look_tokens_at(g.inner, 0, 0, Seq::empty()) {
                            Err(e) => {},
                            Ok(inner) => {
                                let t = TokenView::LookaheadGroup(inner);
                                lemma_tokens_text_push(fl, t);
                                lemma_regex_tokens_text(s, g.next, g.next, fl.push(t));
                            },
                        }
                    },
                    BracketsTokenType::Lookbehind => {
                        lemma_look_tokens_text(g.inner, 0, 0, Seq::empty());
                        match look_tokens_at(g.inner, 0, 0, Seq::empty()) {
                            Err(e) => {},
                            Ok(inner) => {
                                let t = TokenView::LookbehindGroup(inner);
                                lemma_tokens_text_push(fl, t);
                                lemma_regex_tokens_text(s, g.next, g.next, fl.push(t));
                            },
                        }
                    },
                    BracketsTokenType::SimpleSeq => {
                        lemma_regex_tokens_text(g.inner, 0, 0, Seq::empty());
                        match regex_tokens_at(g.inner, 0, 0, Seq::empty()) {
                            Err(e) => {},
                            Ok(inner) => {
                                lemma_bracketed_text(inner);
                                lemma_tokens_text_add(fl, bracketed(inner));
                                lemma_regex_tokens_text(s, g.next, g.next, fl + bracketed(inner));
                            },
                        }
                    },
                }
            },
        }
    } else if s[pos] == ')' {
    } else if s[pos] == '|' {
        lemma_regex_tokens_text(s, pos + 1, pos + 1, Seq::empty());
        match regex_tokens_at(s, pos + 1, pos + 1, Seq::empty()) {
            Err(e) => {},
            Ok(rest) => {
                let t = TokenView::Binary(seq!['|']);
                lemma_tokens_text_push(fl, t);
                lemma_tokens_text_add(fl.push(t), rest);
            },
        }
    } else if s[pos] == '*' {
        let t = TokenView::Unary(seq!['*']);
        lemma_tokens_text_push(fl, t);
        lemma_regex_tokens_text(s, pos + 1, pos + 1, fl.push(t));
    } else {
        lemma_regex_tokens_text(s, pos + 1, b, toks);
    }
}

/// The text of the tokens of an anchored expression is shorter than the
/// expression by the two anchors at least.
pub proof fn lemma_parse_text(r: Seq<char>)
    ensures
        spec_parse(r) matches Ok(ts) ==> tokens_text(ts).len() + 2 <= r.len(),
{
    if r.len() >= 2 {
        lemma_regex_tokens_text(r.subrange(1, r.len() - 1), 0, 0, Seq::empty());
    }
}

} // verus!
