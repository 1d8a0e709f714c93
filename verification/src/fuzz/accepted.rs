//! The parser takes what the generator of expressions makes.
use vstd::prelude::*;
use crate::fuzz::regex_generator::expression;
use crate::fuzz::regex_generator::is_small;
use crate::fuzz::regex_generator::lemma_expression_shape;
use crate::parser::BracketsTokenType;
use crate::parser::Group;
use crate::parser::ParseError;
use crate::parser::spec_extract;
use crate::parser::spec_parse;
use crate::parser::round_trip::balanced;
use crate::parser::round_trip::bracket_free;
use crate::parser::round_trip::lemma_balanced_add;
use crate::parser::round_trip::lemma_balanced_group;
use crate::parser::round_trip::lemma_bracket_free_balanced;
use crate::parser::round_trip::lemma_extract_again;
use crate::parser::round_trip::opening;
use crate::parser::well_formed::lemma_parse_grammar;
use crate::parser::well_formed::look_well;
use crate::parser::well_formed::regex_well;

verus! {

// -------------------------------------------------------------------------
// The brackets of an expression
// -------------------------------------------------------------------------

/// An expression is balanced, and begins with a letter or a bracket.
pub proof fn lemma_expression_balanced(x: Seq<char>, n: int, height: nat, ahead: bool, inner: nat)
    requires
        expression(x, n, height, ahead, inner),
    ensures
        balanced(x),
        x.len() > 0 ==> is_small(x[0]) || x[0] == '(',
        x.len() > 0 ==> x.last() != '$',
    decreases x.len(),
{
    let bar = seq!['|'];
    let star = seq!['*'];
    assert(bracket_free(Seq::<char>::empty()));
    lemma_bracket_free_balanced(Seq::<char>::empty());
    assert(bracket_free(bar)) by {
        assert(bar[0] == '|');
    }
    lemma_bracket_free_balanced(bar);
    assert(bracket_free(star)) by {
        assert(star[0] == '*');
    }
    lemma_bracket_free_balanced(star);
    if x.len() == 0 {
        assert(x =~= Seq::<char>::empty());
    } else {
        let shape = lemma_expression_shape(x, n, height, ahead, inner);
        if shape.0 == 0 {
            assert(bracket_free(x));
            lemma_bracket_free_balanced(x);
        } else if shape.0 == 1 {
            let k = shape.1;
            lemma_expression_balanced(x.take(k), n, height, ahead, inner);
            lemma_expression_balanced(x.skip(k), n, height, ahead, inner);
            lemma_balanced_add(x.take(k), x.skip(k));
            assert(x.take(k) + x.skip(k) =~= x);
            assert(x.take(k)[0] == x[0]);
            assert(x.skip(k).last() == x.last());
        } else if shape.0 == 2 {
            let j = shape.1;
            let a = x.subrange(1, j);
            let c = x.subrange(j + 1, x.len() - 1);
            lemma_expression_balanced(a, n, height, ahead, inner);
            lemma_expression_balanced(c, n, height, ahead, inner);
            lemma_balanced_add(a, bar);
            lemma_balanced_add(a + bar, c);
            let open = seq!['('];
            assert(bracket_free(open.skip(1)));
            lemma_balanced_group(open, a + bar + c);
            assert(x =~= open + (a + bar + c) + seq![')']);
        } else if shape.0 == 3 {
            let a = x.subrange(1, x.len() - 2);
            lemma_expression_balanced(a, n, (height - 1) as nat, ahead, inner);
            let open = seq!['('];
            assert(bracket_free(open.skip(1)));
            lemma_balanced_group(open, a);
            lemma_balanced_add(open + a + seq![')'], star);
            assert(x =~= open + a + seq![')'] + star);
        } else {
            let l = x.subrange(3, x.len() - 1);
            lemma_expression_balanced(l, n, inner, false, inner);
            let open = seq!['(', '?', '='];
            assert(bracket_free(open.skip(1))) by {
                assert(open.skip(1)[0] == '?');
                assert(open.skip(1)[1] == '=');
            }
            lemma_balanced_group(open, l);
            assert(x =~= open + l + seq![')']);
        }
    }
}

// -------------------------------------------------------------------------
// Reading an expression
// -------------------------------------------------------------------------

/// What stands in the brackets of an alternation of two expressions is
/// balanced, begins with no question mark and ends with no `$`.
pub proof fn lemma_alternation_inside(
    x: Seq<char>,
    j: int,
    n: int,
    height: nat,
    ahead: bool,
    inner: nat,
)
    requires
        x.len() >= 5,
        1 < j < x.len() - 2,
        x[j] == '|',
        expression(x.subrange(1, j), n, height, ahead, inner),
        expression(x.subrange(j + 1, x.len() - 1), n, height, ahead, inner),
    ensures
        balanced(x.subrange(1, x.len() - 1)),
        x.subrange(1, x.len() - 1)[0] != '?',
        x.subrange(1, x.len() - 1)[j - 1] == '|',
        x.subrange(1, x.len() - 1).last() != '$',
{
    let a = x.subrange(1, j);
    let c = x.subrange(j + 1, x.len() - 1);
    let y = x.subrange(1, x.len() - 1);
    let bar = seq!['|'];
    assert(y =~= a + bar + c);
    lemma_expression_balanced(a, n, height, ahead, inner);
    lemma_expression_balanced(c, n, height, ahead, inner);
    assert(bracket_free(bar)) by {
        assert(bar[0] == '|');
    }
    lemma_bracket_free_balanced(bar);
    lemma_balanced_add(a, bar);
    lemma_balanced_add(a + bar, c);
    assert(y[0] == a[0]);
    assert(y.last() == c.last());
}

/// A group that stands in a text is cut out of it with what stands in
/// its brackets.
pub proof fn lemma_group_cut(y: Seq<char>, kind: BracketsTokenType, s: Seq<char>, pos: int)
    requires
        0 <= pos,
        pos + opening(kind).len() + y.len() + 1 <= s.len(),
        balanced(y),
        y.len() > 0,
        kind == BracketsTokenType::SimpleSeq ==> y[0] != '?',
        s.subrange(pos, pos + opening(kind).len() + y.len() + 1) == opening(kind) + y + seq![')'],
    ensures
        s[pos] == '(',
        spec_extract(s, pos) == Ok::<Group, ParseError>(
            Group { kind, inner: y, next: pos + opening(kind).len() + y.len() + 1 },
        ),
{
    let whole = opening(kind) + y + seq![')'];
    assert(s.skip(pos).subrange(0, whole.len() as int) =~= s.subrange(
        pos,
        pos + opening(kind).len() + y.len() + 1,
    ));
    lemma_extract_again(s, pos, kind, y);
    assert(s.subrange(pos, pos + opening(kind).len() + y.len() + 1)[0] == whole[0]);
}

/// A letter in the body of a lookahead.
pub proof fn lemma_look_letter(s: Seq<char>, pos: int, some: bool)
    requires
        0 <= pos < s.len(),
        is_small(s[pos]),
    ensures
        look_well(s, pos, some) == look_well(s, pos + 1, true),
{
}

/// A group in the body of a lookahead, whose content is well formed.
pub proof fn lemma_look_group(y: Seq<char>, s: Seq<char>, pos: int, some: bool)
    requires
        0 <= pos,
        pos + y.len() + 2 <= s.len(),
        balanced(y),
        y.len() > 0,
        y[0] != '?',
        y.last() != '$',
        s.subrange(pos, pos + y.len() + 2) == opening(BracketsTokenType::SimpleSeq) + y + seq![')'],
        look_well(y, 0, false),
    ensures
        look_well(s, pos, some) == look_well(s, pos + y.len() + 2, true),
{
    lemma_group_cut(y, BracketsTokenType::SimpleSeq, s, pos);
}

/// Two alternatives with a bar between them, in the body of a lookahead.
pub proof fn lemma_look_bar(y: Seq<char>, m: int)
    requires
        0 < m,
        m + 1 < y.len(),
        y[m] == '|',
        look_well(y, 0, false) == look_well(y, m, true),
        look_well(y, m + 1, false) == look_well(y, y.len() as int, true),
    ensures
        look_well(y, 0, false),
{
}

/// A star in the body of a lookahead, with something before it.
pub proof fn lemma_look_star(s: Seq<char>, pos: int)
    requires
        0 <= pos < s.len(),
        s[pos] == '*',
    ensures
        look_well(s, pos, true) == look_well(s, pos + 1, true),
{
}

/// A letter in an expression body.
pub proof fn lemma_regex_letter(s: Seq<char>, pos: int, some: bool, before: bool)
    requires
        0 <= pos < s.len(),
        is_small(s[pos]),
    ensures
        regex_well(s, pos, some, before) == regex_well(s, pos + 1, true, false),
{
}

/// A group in an expression body, whose content is well formed.
pub proof fn lemma_regex_group(y: Seq<char>, s: Seq<char>, pos: int, some: bool, before: bool)
    requires
        0 <= pos,
        pos + y.len() + 2 <= s.len(),
        balanced(y),
        y.len() > 0,
        y[0] != '?',
        s.subrange(pos, pos + y.len() + 2) == opening(BracketsTokenType::SimpleSeq) + y + seq![')'],
        regex_well(y, 0, false, false),
    ensures
        regex_well(s, pos, some, before) == regex_well(s, pos + y.len() + 2, true, false),
{
    lemma_group_cut(y, BracketsTokenType::SimpleSeq, s, pos);
}

/// A lookahead in an expression body, whose body is well formed.
pub proof fn lemma_regex_lookahead(l: Seq<char>, s: Seq<char>, pos: int, some: bool, before: bool)
    requires
        0 <= pos,
        pos + l.len() + 4 <= s.len(),
        balanced(l),
        l.len() > 0,
        s.subrange(pos, pos + l.len() + 4) == opening(BracketsTokenType::Lookahead) + l + seq![')'],
        look_well(l, 0, false),
    ensures
        regex_well(s, pos, some, before) == regex_well(s, pos + l.len() + 4, true, true),
{
    lemma_group_cut(l, BracketsTokenType::Lookahead, s, pos);
}

/// Two alternatives with a bar between them, in an expression body.
pub proof fn lemma_regex_bar(y: Seq<char>, m: int, first: bool, second: bool)
    requires
        0 < m,
        m + 1 < y.len(),
        y[m] == '|',
        regex_well(y, 0, false, false) == regex_well(y, m, true, first),
        regex_well(y, m + 1, false, false) == regex_well(y, y.len() as int, true, second),
    ensures
        regex_well(y, 0, false, false),
{
}

/// A star behind a group in an expression body.
pub proof fn lemma_regex_star(s: Seq<char>, pos: int)
    requires
        0 <= pos < s.len(),
        s[pos] == '*',
    ensures
        regex_well(s, pos, true, false) == regex_well(s, pos + 1, true, false),
{
}

/// The parts of an expression that stands in a text stand in the text.
pub proof fn lemma_parts_stand(x: Seq<char>, s: Seq<char>, pos: int, k: int)
    requires
        0 <= pos,
        pos + x.len() <= s.len(),
        s.subrange(pos, pos + x.len()) == x,
        0 <= k <= x.len(),
    ensures
        s.subrange(pos, pos + k) == x.take(k),
        s.subrange(pos + k, pos + k + x.skip(k).len()) == x.skip(k),
        x.len() > 0 ==> s[pos] == x[0] && s[pos + x.len() - 1] == x.last(),
{
    assert(s.subrange(pos, pos + k) =~= x.take(k));
    assert(s.subrange(pos + k, pos + k + x.skip(k).len()) =~= x.skip(k));
    if x.len() > 0 {
        assert(s.subrange(pos, pos + x.len())[0] == s[pos]);
        assert(s.subrange(pos, pos + x.len())[x.len() - 1] == s[pos + x.len() - 1]);
    }
}

/// The alternatives of an alternation stand in what its brackets hold.
pub proof fn lemma_alternatives_stand(x: Seq<char>, j: int)
    requires
        x.len() >= 5,
        1 < j < x.len() - 2,
        x[0] == '(',
        x.last() == ')',
    ensures
        ({
            let y = x.subrange(1, x.len() - 1);
            let a = x.subrange(1, j);
            let c = x.subrange(j + 1, x.len() - 1);
            &&& y.subrange(0, a.len() as int) == a
            &&& y.subrange(a.len() as int + 1, a.len() as int + 1 + c.len() as int) == c
            &&& x == opening(BracketsTokenType::SimpleSeq) + y + seq![')']
            &&& a.len() == j - 1
            &&& y.len() == x.len() - 2
        }),
{
    let y = x.subrange(1, x.len() - 1);
    let a = x.subrange(1, j);
    let c = x.subrange(j + 1, x.len() - 1);
    assert(y.subrange(0, a.len() as int) =~= a);
    assert(y.subrange(a.len() as int + 1, a.len() as int + 1 + c.len() as int) =~= c);
    assert(x =~= opening(BracketsTokenType::SimpleSeq) + y + seq![')']);
}

/// A starred group that stands in a text: the group stands in the text,
/// with the star behind it.
pub proof fn lemma_starred_stands(x: Seq<char>, s: Seq<char>, pos: int)
    requires
        0 <= pos,
        pos + x.len() <= s.len(),
        s.subrange(pos, pos + x.len()) == x,
        x.len() >= 4,
        x[0] == '(',
        x[x.len() - 2] == ')',
        x.last() == '*',
    ensures
        ({
            let a = x.subrange(1, x.len() - 2);
            &&& a.subrange(0, a.len() as int) == a
            &&& s.subrange(pos, pos + a.len() + 2) == opening(BracketsTokenType::SimpleSeq) + a
                + seq![')']
            &&& s[pos + a.len() + 2] == '*'
            &&& a.len() + 3 == x.len()
        }),
{
    let a = x.subrange(1, x.len() - 2);
    assert(a.subrange(0, a.len() as int) =~= a);
    assert(s.subrange(pos, pos + a.len() + 2) =~= x.subrange(0, a.len() as int + 2));
    assert(x.subrange(0, a.len() as int + 2) =~= opening(BracketsTokenType::SimpleSeq) + a + seq![
        ')',
    ]);
    assert(s.subrange(pos, pos + x.len())[x.len() - 1] == s[pos + x.len() - 1]);
}

/// A lookahead that stands in a text: its body.
pub proof fn lemma_lookahead_stands(x: Seq<char>)
    requires
        x.len() >= 5,
        x[0] == '(',
        x[1] == '?',
        x[2] == '=',
        x.last() == ')',
    ensures
        ({
            let l = x.subrange(3, x.len() - 1);
            &&& l.subrange(0, l.len() as int) == l
            &&& x == opening(BracketsTokenType::Lookahead) + l + seq![')']
            &&& l.len() + 4 == x.len()
        }),
{
    let l = x.subrange(3, x.len() - 1);
    assert(l.subrange(0, l.len() as int) =~= l);
    assert(x =~= opening(BracketsTokenType::Lookahead) + l + seq![')']);
}

/// Where an expression without lookaheads stands in the body of a
/// lookahead, the body is well formed from its start on exactly if it is
/// well formed from its end on, with something before.
pub proof fn lemma_look_takes(
    x: Seq<char>,
    n: int,
    height: nat,
    inner: nat,
    s: Seq<char>,
    pos: int,
    some: bool,
)
    requires
        expression(x, n, height, false, inner),
        x.len() > 0,
        0 <= pos,
        pos + x.len() <= s.len(),
        s.subrange(pos, pos + x.len()) == x,
    ensures
        look_well(s, pos, some) == look_well(s, pos + x.len(), true),
    decreases x.len(),
{
    let shape = lemma_expression_shape(x, n, height, false, inner);
    lemma_parts_stand(x, s, pos, if shape.0 == 1 {
        shape.1
    } else {
        0
    });
    if shape.0 == 0 {
        lemma_look_letter(s, pos, some);
    } else if shape.0 == 1 {
        let k = shape.1;
        lemma_look_takes(x.take(k), n, height, inner, s, pos, some);
        lemma_look_takes(x.skip(k), n, height, inner, s, pos + k, true);
    } else if shape.0 == 2 {
        let j = shape.1;
        let a = x.subrange(1, j);
        let c = x.subrange(j + 1, x.len() - 1);
        let y = x.subrange(1, x.len() - 1);
        let m = a.len() as int;
        lemma_alternation_inside(x, j, n, height, false, inner);
        lemma_alternatives_stand(x, j);
        lemma_look_takes(a, n, height, inner, y, 0, false);
        lemma_look_takes(c, n, height, inner, y, m + 1, false);
        lemma_look_bar(y, m);
        lemma_look_group(y, s, pos, some);
    } else {
        let a = x.subrange(1, x.len() - 2);
        lemma_expression_balanced(a, n, (height - 1) as nat, false, inner);
        lemma_starred_stands(x, s, pos);
        lemma_look_takes(a, n, (height - 1) as nat, inner, a, 0, false);
        lemma_look_group(a, s, pos, some);
        lemma_look_star(s, pos + a.len() + 2);
    }
}

/// Where an expression stands in an expression body, the body is well
/// formed from its start on exactly if it is well formed from its end on,
/// with something before.
pub proof fn lemma_regex_takes(
    x: Seq<char>,
    n: int,
    height: nat,
    ahead: bool,
    inner: nat,
    s: Seq<char>,
    pos: int,
    some: bool,
    before: bool,
) -> (after: bool)
    requires
        expression(x, n, height, ahead, inner),
        x.len() > 0,
        0 <= pos,
        pos + x.len() <= s.len(),
        s.subrange(pos, pos + x.len()) == x,
    ensures
        regex_well(s, pos, some, before) == regex_well(s, pos + x.len(), true, after),
    decreases x.len(),
{
    let shape = lemma_expression_shape(x, n, height, ahead, inner);
    lemma_parts_stand(x, s, pos, if shape.0 == 1 {
        shape.1
    } else {
        0
    });
    if shape.0 == 0 {
        lemma_regex_letter(s, pos, some, before);
        false
    } else if shape.0 == 1 {
        let k = shape.1;
        let mid = lemma_regex_takes(x.take(k), n, height, ahead, inner, s, pos, some, before);
        lemma_regex_takes(x.skip(k), n, height, ahead, inner, s, pos + k, true, mid)
    } else if shape.0 == 2 {
        let j = shape.1;
        let a = x.subrange(1, j);
        let c = x.subrange(j + 1, x.len() - 1);
        let y = x.subrange(1, x.len() - 1);
        let m = a.len() as int;
        lemma_alternation_inside(x, j, n, height, ahead, inner);
        lemma_alternatives_stand(x, j);
        let first = lemma_regex_takes(a, n, height, ahead, inner, y, 0, false, false);
        let second = lemma_regex_takes(c, n, height, ahead, inner, y, m + 1, false, false);
        lemma_regex_bar(y, m, first, second);
        lemma_regex_group(y, s, pos, some, before);
        false
    } else if shape.0 == 3 {
        let a = x.subrange(1, x.len() - 2);
        lemma_expression_balanced(a, n, (height - 1) as nat, ahead, inner);
        lemma_starred_stands(x, s, pos);
        let last = lemma_regex_takes(a, n, (height - 1) as nat, ahead, inner, a, 0, false, false);
        lemma_regex_group(a, s, pos, some, before);
        lemma_regex_star(s, pos + a.len() + 2);
        false
    } else {
        let l = x.subrange(3, x.len() - 1);
        lemma_expression_balanced(l, n, inner, false, inner);
        lemma_lookahead_stands(x);
        lemma_look_takes(l, n, inner, inner, l, 0, false);
        lemma_regex_lookahead(l, s, pos, some, before);
        true
    }
}

/// The parser takes every expression that the generator makes, between
/// the anchors.
pub proof fn lemma_expression_parses(x: Seq<char>, n: int, height: nat, ahead: bool, inner: nat)
    requires
        expression(x, n, height, ahead, inner),
    ensures
        spec_parse(seq!['^'] + x + seq!['$']) is Ok,
{
    let r = seq!['^'] + x + seq!['$'];
    assert(r.subrange(1, r.len() - 1) =~= x);
    if x.len() > 0 {
        assert(x.subrange(0, x.len() as int) =~= x);
        let after = lemma_regex_takes(x, n, height, ahead, inner, x, 0, false, false);
    }
    lemma_parse_grammar(r);
}

} // verus!
