//! Position trees of classical expressions.
//!
//! ```text
//! Union  ::= Concat ('|' Concat)*
//! Concat ::= Basic (Basic)*
//! Basic  ::= Atomic ('*')?
//! Atomic ::= letter | '^' | '$' | '.' | '(' Union ')'
//! ```
//!
//! A letter is one of the small letters `a` to `z`.
use vstd::prelude::*;

verus! {

/// `c` is a letter of the alphabet: one of the small letters `a` to `z`.
pub open spec fn is_letter(c: char) -> bool {
    'a' <= c <= 'z'
}

/// One occurrence of a character in an expression, numbered from 1 in
/// reading order.
#[derive(Debug, Copy, Clone, PartialEq, Eq, Structural)]
pub struct LinearizedSymbol {
    pub symbol: char,
    pub index: usize,
}

/// A position, or an alternation in brackets.
#[derive(Debug)]
pub enum Atomic {
    LinearizedSymbol(LinearizedSymbol),
    Union(Union),
}

/// An atomic expression, repeated as often as wanted if `is_iter` is set.
#[derive(Debug)]
pub struct Basic {
    pub atomic: Atomic,
    pub is_iter: bool,
}

/// Basic expressions one after the other.
#[derive(Debug)]
pub struct Concat {
    pub basics: Vec<Basic>,
}

/// Concatenations as alternatives.
#[derive(Debug)]
pub struct Union {
    pub concats: Vec<Concat>,
}

/// The position tree of an expression, with the number of its positions.
#[derive(Debug)]
pub struct Tree {
    pub root: Union,
    pub linearized_symbols: usize,
}

/// The mathematical value of an [`Atomic`].
pub enum AtomicView {
    Symbol(LinearizedSymbol),
    Union(UnionView),
}

/// The mathematical value of a [`Basic`].
pub struct BasicView {
    pub atomic: AtomicView,
    pub is_iter: bool,
}

/// The mathematical value of a [`Concat`].
pub struct ConcatView {
    pub basics: Seq<BasicView>,
}

/// The mathematical value of a [`Union`].
pub struct UnionView {
    pub concats: Seq<ConcatView>,
}

/// The mathematical value of a [`Tree`].
pub struct TreeView {
    pub root: UnionView,
    pub linearized_symbols: nat,
}

/// The value of an atomic expression.
pub open spec fn atomic_view(a: Atomic) -> AtomicView
    decreases a,
{
    match a {
        Atomic::LinearizedSymbol(s) => AtomicView::Symbol(s),
        Atomic::Union(u) => AtomicView::Union(union_view(u)),
    }
}

/// The value of a basic expression.
pub open spec fn basic_view(b: Basic) -> BasicView
    decreases b,
{
    BasicView { atomic: atomic_view(b.atomic), is_iter: b.is_iter }
}

/// The value of a concatenation.
pub open spec fn concat_view(c: Concat) -> ConcatView
    decreases c,
{
    ConcatView {
        basics: Seq::new(
            c.basics.len() as nat,
            |i: int|
                if 0 <= i < c.basics.len() {
                    basic_view(c.basics[i])
                } else {
                    BasicView {
                        atomic: AtomicView::Union(UnionView { concats: Seq::empty() }),
                        is_iter: false,
                    }
                },
        ),
    }
}

/// The value of an alternation.
pub open spec fn union_view(u: Union) -> UnionView
    decreases u,
{
    UnionView {
        concats: Seq::new(
            u.concats.len() as nat,
            |i: int|
                if 0 <= i < u.concats.len() {
                    concat_view(u.concats[i])
                } else {
                    ConcatView { basics: Seq::empty() }
                },
        ),
    }
}

impl View for Atomic {
    type V = AtomicView;

    open spec fn view(&self) -> AtomicView {
        atomic_view(*self)
    }
}

impl View for Basic {
    type V = BasicView;

    open spec fn view(&self) -> BasicView {
        basic_view(*self)
    }
}

impl View for Concat {
    type V = ConcatView;

    open spec fn view(&self) -> ConcatView {
        concat_view(*self)
    }
}

impl View for Union {
    type V = UnionView;

    open spec fn view(&self) -> UnionView {
        union_view(*self)
    }
}

impl View for Tree {
    type V = TreeView;

    open spec fn view(&self) -> TreeView {
        TreeView { root: self.root@, linearized_symbols: self.linearized_symbols as nat }
    }
}

/// The values of a run of basic expressions.
pub open spec fn basic_views(bs: Seq<Basic>) -> Seq<BasicView> {
    Seq::new(bs.len(), |i: int| bs[i]@)
}

/// The values of a run of concatenations.
pub open spec fn concat_views(cs: Seq<Concat>) -> Seq<ConcatView> {
    Seq::new(cs.len(), |i: int| cs[i]@)
}

/// The value of a concatenation holds the values of its parts.
pub proof fn lemma_concat_view(c: Concat)
    ensures
        c@.basics == basic_views(c.basics@),
{
    assert(c@.basics =~= basic_views(c.basics@));
}

/// The value of an alternation holds the values of its alternatives.
pub proof fn lemma_union_view(u: Union)
    ensures
        u@.concats == concat_views(u.concats@),
{
    assert(u@.concats =~= concat_views(u.concats@));
}

// -------------------------------------------------------------------------
// Nullable, first, last, follow
// -------------------------------------------------------------------------

/// The expression matches the empty string.
pub open spec fn nullable_atomic(a: AtomicView) -> bool
    decreases a,
{
    match a {
        AtomicView::Symbol(_) => false,
        AtomicView::Union(u) => nullable_union(u),
    }
}

/// A basic expression matches the empty string if it is repeated or its
/// atomic expression does.
pub open spec fn nullable_basic(b: BasicView) -> bool
    decreases b,
{
    b.is_iter || nullable_atomic(b.atomic)
}

/// Every one of `bs` matches the empty string.
pub open spec fn nullable_all(bs: Seq<BasicView>) -> bool
    decreases bs,
{
    if bs.len() == 0 {
        true
    } else {
        nullable_all(bs.drop_last()) && nullable_basic(bs.last())
    }
}

/// A concatenation matches the empty string if all its parts do.
pub open spec fn nullable_concat(c: ConcatView) -> bool
    decreases c,
{
    nullable_all(c.basics)
}

/// One of `cs` matches the empty string.
pub open spec fn nullable_any(cs: Seq<ConcatView>) -> bool
    decreases cs,
{
    if cs.len() == 0 {
        false
    } else {
        nullable_any(cs.drop_last()) || nullable_concat(cs.last())
    }
}

/// An alternation matches the empty string if one of its alternatives
/// does.
pub open spec fn nullable_union(u: UnionView) -> bool
    decreases u,
{
    nullable_any(u.concats)
}

/// The positions at which a match of the expression can begin.
pub open spec fn first_atomic(a: AtomicView) -> Seq<LinearizedSymbol>
    decreases a,
{
    match a {
        AtomicView::Symbol(s) => seq![s],
        AtomicView::Union(u) => first_union(u),
    }
}

/// The first positions of a basic expression are those of its atomic
/// expression.
pub open spec fn first_basic(b: BasicView) -> Seq<LinearizedSymbol>
    decreases b,
{
    first_atomic(b.atomic)
}

/// The first positions of `bs[from..]` read as a concatenation: those of
/// its head, and those of what follows as long as what stands before
/// matches the empty string.
pub open spec fn first_from(bs: Seq<BasicView>, from: int) -> Seq<LinearizedSymbol>
    decreases bs, bs.len() - from,
{
    if from < 0 || from >= bs.len() {
        Seq::empty()
    } else if nullable_basic(bs[from]) {
        first_basic(bs[from]) + first_from(bs, from + 1)
    } else {
        first_basic(bs[from])
    }
}

/// The first positions of a concatenation.
pub open spec fn first_concat(c: ConcatView) -> Seq<LinearizedSymbol>
    decreases c,
{
    first_from(c.basics, 0)
}

/// The first positions of the concatenations `cs`, one after the other.
pub open spec fn first_of_all(cs: Seq<ConcatView>) -> Seq<LinearizedSymbol>
    decreases cs,
{
    if cs.len() == 0 {
        Seq::empty()
    } else {
        first_of_all(cs.drop_last()) + first_concat(cs.last())
    }
}

/// The first positions of an alternation are those of its alternatives.
pub open spec fn first_union(u: UnionView) -> Seq<LinearizedSymbol>
    decreases u,
{
    first_of_all(u.concats)
}

/// The positions at which a match of the expression can end.
pub open spec fn last_atomic(a: AtomicView) -> Seq<LinearizedSymbol>
    decreases a,
{
    match a {
        AtomicView::Symbol(s) => seq![s],
        AtomicView::Union(u) => last_union(u),
    }
}

/// The last positions of a basic expression are those of its atomic
/// expression.
pub open spec fn last_basic(b: BasicView) -> Seq<LinearizedSymbol>
    decreases b,
{
    last_atomic(b.atomic)
}

/// The last positions of `bs[..upto]` read as a concatenation, from its
/// end backwards.
pub open spec fn last_upto(bs: Seq<BasicView>, upto: int) -> Seq<LinearizedSymbol>
    decreases bs, upto,
{
    if upto <= 0 || upto > bs.len() {
        Seq::empty()
    } else if nullable_basic(bs[upto - 1]) {
        last_basic(bs[upto - 1]) + last_upto(bs, upto - 1)
    } else {
        last_basic(bs[upto - 1])
    }
}

/// The last positions of a concatenation.
pub open spec fn last_concat(c: ConcatView) -> Seq<LinearizedSymbol>
    decreases c,
{
    last_upto(c.basics, c.basics.len() as int)
}

/// The last positions of the concatenations `cs`, one after the other.
pub open spec fn last_of_all(cs: Seq<ConcatView>) -> Seq<LinearizedSymbol>
    decreases cs,
{
    if cs.len() == 0 {
        Seq::empty()
    } else {
        last_of_all(cs.drop_last()) + last_concat(cs.last())
    }
}

/// The last positions of an alternation are those of its alternatives.
pub open spec fn last_union(u: UnionView) -> Seq<LinearizedSymbol>
    decreases u,
{
    last_of_all(u.concats)
}

/// The pairs of `a` and `b[..n]`, for one `a`.
pub open spec fn pairs_with(a: LinearizedSymbol, b: Seq<LinearizedSymbol>) -> Seq<
    (LinearizedSymbol, LinearizedSymbol),
> {
    Seq::new(b.len(), |j: int| (a, b[j]))
}

/// Every pair of one of `a` and one of `b`, ordered by `a` first.
pub open spec fn cartesian_product(a: Seq<LinearizedSymbol>, b: Seq<LinearizedSymbol>) -> Seq<
    (LinearizedSymbol, LinearizedSymbol),
>
    decreases a.len(),
{
    if a.len() == 0 {
        Seq::empty()
    } else {
        cartesian_product(a.drop_last(), b) + pairs_with(a.last(), b)
    }
}

/// The pairs that lead from `bs[i]` into `bs[j..]`, as far as what lies
/// between matches the empty string.
pub open spec fn bridges_from(bs: Seq<BasicView>, i: int, j: int) -> Seq<
    (LinearizedSymbol, LinearizedSymbol),
>
    decreases bs.len() - j,
{
    if i < 0 || j <= i || j >= bs.len() {
        Seq::empty()
    } else if nullable_basic(bs[j]) {
        cartesian_product(last_basic(bs[i]), first_basic(bs[j])) + bridges_from(bs, i, j + 1)
    } else {
        cartesian_product(last_basic(bs[i]), first_basic(bs[j]))
    }
}

/// The pairs that lead from one of `bs[i..]` into a later one.
pub open spec fn bridges(bs: Seq<BasicView>, i: int) -> Seq<(LinearizedSymbol, LinearizedSymbol)>
    decreases bs.len() - i,
{
    if i < 0 || i + 1 >= bs.len() {
        Seq::empty()
    } else {
        bridges_from(bs, i, i + 1) + bridges(bs, i + 1)
    }
}

/// The pairs of positions of which the second can follow the first at once
/// in a match.
pub open spec fn follow_atomic(a: AtomicView) -> Seq<(LinearizedSymbol, LinearizedSymbol)>
    decreases a,
{
    match a {
        AtomicView::Symbol(_) => Seq::empty(),
        AtomicView::Union(u) => follow_union(u),
    }
}

/// The follow pairs of a basic expression: those of its atomic expression,
/// and, if it is repeated, the pairs that lead from its last positions
/// back to its first.
pub open spec fn follow_basic(b: BasicView) -> Seq<(LinearizedSymbol, LinearizedSymbol)>
    decreases b,
{
    if b.is_iter {
        follow_atomic(b.atomic) + cartesian_product(last_atomic(b.atomic), first_atomic(b.atomic))
    } else {
        follow_atomic(b.atomic)
    }
}

/// The follow pairs inside each of `bs`, one after the other.
pub open spec fn follow_inside(bs: Seq<BasicView>) -> Seq<(LinearizedSymbol, LinearizedSymbol)>
    decreases bs,
{
    if bs.len() == 0 {
        Seq::empty()
    } else {
        follow_inside(bs.drop_last()) + follow_basic(bs.last())
    }
}

/// The follow pairs of a concatenation: those inside its parts, then those
/// that lead from one part into a later one.
pub open spec fn follow_concat(c: ConcatView) -> Seq<(LinearizedSymbol, LinearizedSymbol)>
    decreases c,
{
    follow_inside(c.basics) + bridges(c.basics, 0)
}

/// The follow pairs of the concatenations `cs`, one after the other.
pub open spec fn follow_of_all(cs: Seq<ConcatView>) -> Seq<(LinearizedSymbol, LinearizedSymbol)>
    decreases cs,
{
    if cs.len() == 0 {
        Seq::empty()
    } else {
        follow_of_all(cs.drop_last()) + follow_concat(cs.last())
    }
}

/// The follow pairs of an alternation are those of its alternatives.
pub open spec fn follow_union(u: UnionView) -> Seq<(LinearizedSymbol, LinearizedSymbol)>
    decreases u,
{
    follow_of_all(u.concats)
}


// -------------------------------------------------------------------------
// Positions in reading order
// -------------------------------------------------------------------------

/// The positions of the expression in reading order.
pub open spec fn leaves_atomic(a: AtomicView) -> Seq<LinearizedSymbol>
    decreases a,
{
    match a {
        AtomicView::Symbol(s) => seq![s],
        AtomicView::Union(u) => leaves_union(u),
    }
}

/// The positions of a basic expression in reading order.
pub open spec fn leaves_basic(b: BasicView) -> Seq<LinearizedSymbol>
    decreases b,
{
    leaves_atomic(b.atomic)
}

/// The positions of `bs` in reading order.
pub open spec fn leaves_of_basics(bs: Seq<BasicView>) -> Seq<LinearizedSymbol>
    decreases bs,
{
    if bs.len() == 0 {
        Seq::empty()
    } else {
        leaves_of_basics(bs.drop_last()) + leaves_basic(bs.last())
    }
}

/// The positions of a concatenation in reading order.
pub open spec fn leaves_concat(c: ConcatView) -> Seq<LinearizedSymbol>
    decreases c,
{
    leaves_of_basics(c.basics)
}

/// The positions of `cs` in reading order.
pub open spec fn leaves_of_concats(cs: Seq<ConcatView>) -> Seq<LinearizedSymbol>
    decreases cs,
{
    if cs.len() == 0 {
        Seq::empty()
    } else {
        leaves_of_concats(cs.drop_last()) + leaves_concat(cs.last())
    }
}

/// The positions of an alternation in reading order.
pub open spec fn leaves_union(u: UnionView) -> Seq<LinearizedSymbol>
    decreases u,
{
    leaves_of_concats(u.concats)
}

/// The positions `l` carry the numbers `from + 1`, `from + 2`, ... in order.
pub open spec fn numbered(l: Seq<LinearizedSymbol>, from: nat) -> bool {
    forall|k: int| 0 <= k < l.len() ==> (#[trigger] l[k]).index == from + k + 1
}

impl TreeView {
    /// Every position carries a number of its own, and the numbers are
    /// 1, 2, ..., `linearized_symbols` in reading order.
    pub open spec fn wf(self) -> bool {
        &&& leaves_union(self.root).len() == self.linearized_symbols
        &&& numbered(leaves_union(self.root), 0)
    }
}

/// Positions that continue the numbering of others are numbered with
/// them.
pub proof fn lemma_numbered_add(a: Seq<LinearizedSymbol>, b: Seq<LinearizedSymbol>, from: nat)
    requires
        numbered(a, from),
        numbered(b, from + a.len()),
    ensures
        numbered(a + b, from),
{
    assert forall|k: int| 0 <= k < (a + b).len() implies (#[trigger] (a + b)[k]).index == from + k
        + 1 by {
        if k < a.len() {
            assert((a + b)[k] == a[k]);
        } else {
            assert((a + b)[k] == b[k - a.len()]);
        }
    }
}

// -------------------------------------------------------------------------
// The grammar
// -------------------------------------------------------------------------

/// `c` is a bracket, a bar, a star or a question mark.
pub open spec fn is_mark(c: char) -> bool {
    c == '(' || c == ')' || c == '|' || c == '*' || c == '?'
}

/// A character that stands for itself as a position: a letter, an anchor
/// or the dot.
pub open spec fn is_terminal(c: char) -> bool {
    is_letter(c) || c == '^' || c == '$' || c == '.'
}

/// A character with which an atomic expression can begin.
pub open spec fn is_atomic_start(c: char) -> bool {
    is_terminal(c) || c == '('
}

/// What was read of an expression: its value, the index behind it, and the
/// number of positions numbered so far.
pub struct Parsed<T> {
    pub value: T,
    pub next: int,
    pub count: nat,
}

/// The atomic expression that begins at `pos`: a position, or an
/// alternation in brackets.
pub open spec fn atomic_at(s: Seq<char>, pos: int, count: nat) -> Option<Parsed<AtomicView>>
    decreases s.len() - pos, 0int,
{
    if pos < 0 || pos >= s.len() {
        None
    } else if s[pos] == '(' {
        match union_at(s, pos + 1, count) {
            None => None,
            Some(u) => if 0 <= u.next < s.len() && s[u.next] == ')' {
                Some(Parsed { value: AtomicView::Union(u.value), next: u.next + 1, count: u.count })
            } else {
                None
            },
        }
    } else if is_terminal(s[pos]) {
        Some(
            Parsed {
                value: AtomicView::Symbol(
                    LinearizedSymbol { symbol: s[pos], index: (count + 1) as usize },
                ),
                next: pos + 1,
                count: count + 1,
            },
        )
    } else {
        None
    }
}

/// The basic expression that begins at `pos`: an atomic expression, and a
/// `*` if one follows.
pub open spec fn basic_at(s: Seq<char>, pos: int, count: nat) -> Option<Parsed<BasicView>>
    decreases s.len() - pos, 1int,
{
    match atomic_at(s, pos, count) {
        None => None,
        Some(a) => if 0 <= a.next < s.len() && s[a.next] == '*' {
            Some(
                Parsed {
                    value: BasicView { atomic: a.value, is_iter: true },
                    next: a.next + 1,
                    count: a.count,
                },
            )
        } else {
            Some(
                Parsed {
                    value: BasicView { atomic: a.value, is_iter: false },
                    next: a.next,
                    count: a.count,
                },
            )
        },
    }
}

/// The concatenation that began with `acc` and goes on at `pos`.
pub open spec fn concat_rest(s: Seq<char>, pos: int, count: nat, acc: Seq<BasicView>) -> Option<
    Parsed<ConcatView>,
>
    decreases s.len() - pos, 2int,
{
    if 0 <= pos < s.len() && is_atomic_start(s[pos]) {
        match basic_at(s, pos, count) {
            None => None,
            Some(b) => if pos < b.next <= s.len() {
                concat_rest(s, b.next, b.count, acc.push(b.value))
            } else {
                None
            },
        }
    } else {
        Some(Parsed { value: ConcatView { basics: acc }, next: pos, count })
    }
}

/// The concatenation that begins at `pos`.
pub open spec fn concat_at(s: Seq<char>, pos: int, count: nat) -> Option<Parsed<ConcatView>>
    decreases s.len() - pos, 3int,
{
    match basic_at(s, pos, count) {
        None => None,
        Some(b) => if pos <= b.next <= s.len() {
            concat_rest(s, b.next, b.count, seq![b.value])
        } else {
            None
        },
    }
}

/// The alternation that began with `acc` and goes on at `pos`.
pub open spec fn union_rest(s: Seq<char>, pos: int, count: nat, acc: Seq<ConcatView>) -> Option<
    Parsed<UnionView>,
>
    decreases s.len() - pos, 4int,
{
    if 0 <= pos < s.len() && s[pos] == '|' {
        match concat_at(s, pos + 1, count) {
            None => None,
            Some(c) => if pos < c.next <= s.len() {
                union_rest(s, c.next, c.count, acc.push(c.value))
            } else {
                None
            },
        }
    } else {
        Some(Parsed { value: UnionView { concats: acc }, next: pos, count })
    }
}

/// The alternation that begins at `pos`.
pub open spec fn union_at(s: Seq<char>, pos: int, count: nat) -> Option<Parsed<UnionView>>
    decreases s.len() - pos, 5int,
{
    match concat_at(s, pos, count) {
        None => None,
        Some(c) => if pos <= c.next <= s.len() {
            union_rest(s, c.next, c.count, seq![c.value])
        } else {
            None
        },
    }
}

/// The position tree of `s`, where all of `s` is one expression of the
/// grammar.
pub open spec fn tree_of(s: Seq<char>) -> Option<TreeView> {
    match union_at(s, 0, 0) {
        None => None,
        Some(u) => if u.next == s.len() {
            Some(TreeView { root: u.value, linearized_symbols: u.count })
        } else {
            None
        },
    }
}


// -------------------------------------------------------------------------
// Builders
// -------------------------------------------------------------------------

impl LinearizedSymbol {
    /// A position with the character `symbol` and the number `index`.
    pub fn new(symbol: char, index: usize) -> (s: Self)
        ensures
            s == (LinearizedSymbol { symbol, index }),
    {
        Self { symbol, index }
    }
}

impl Basic {
    /// A basic expression.
    pub fn new(atomic: Atomic, is_iter: bool) -> (b: Self)
        ensures
            b == (Basic { atomic, is_iter }),
            b@ == (BasicView { atomic: atomic@, is_iter }),
    {
        Self { atomic, is_iter }
    }
}

impl Concat {
    /// A concatenation of `basics`.
    pub fn new(basics: Vec<Basic>) -> (c: Self)
        ensures
            c == (Concat { basics }),
            c@ == (ConcatView { basics: basic_views(basics@) }),
    {
        let c = Self { basics };
        proof {
            lemma_concat_view(c);
        }
        c
    }
}

impl Union {
    /// An alternation of `concats`.
    pub fn new(concats: Vec<Concat>) -> (u: Self)
        ensures
            u == (Union { concats }),
            u@ == (UnionView { concats: concat_views(concats@) }),
    {
        let u = Self { concats };
        proof {
            lemma_union_view(u);
        }
        u
    }

    /// The alternation of nothing.
    pub fn default() -> (u: Self)
        ensures
            u@ == (UnionView { concats: Seq::empty() }),
    {
        let u = Self::new(Vec::<Concat>::new());
        assert(concat_views(u.concats@) =~= Seq::empty());
        u
    }
}

// -------------------------------------------------------------------------
// The parser
// -------------------------------------------------------------------------

/// What the parser returned is what the grammar says.
pub open spec fn agrees<T: View>(r: Option<(T, usize, usize)>, p: Option<Parsed<T::V>>) -> bool {
    match r {
        Some((v, next, cnt)) => p == Some(
            Parsed { value: v@, next: next as int, count: cnt as nat },
        ),
        None => p is None,
    }
}

/// What was read lies in the text, and its positions continue the
/// numbering.
pub open spec fn advances(
    len: nat,
    pos: usize,
    count: usize,
    next: usize,
    cnt: usize,
    leaves: Seq<LinearizedSymbol>,
) -> bool {
    &&& pos < next <= len
    &&& count <= cnt
    &&& cnt - count <= next - pos
    &&& leaves.len() == cnt - count
    &&& numbered(leaves, count as nat)
}

/// The positions of a concatenation with one more part.
pub proof fn lemma_leaves_push_basic(bs: Seq<BasicView>, b: BasicView)
    ensures
        leaves_of_basics(bs.push(b)) == leaves_of_basics(bs) + leaves_basic(b),
{
    assert(bs.push(b).drop_last() =~= bs);
}

/// The positions of an alternation with one more alternative.
pub proof fn lemma_leaves_push_concat(cs: Seq<ConcatView>, c: ConcatView)
    ensures
        leaves_of_concats(cs.push(c)) == leaves_of_concats(cs) + leaves_concat(c),
{
    assert(cs.push(c).drop_last() =~= cs);
}

/// The positions of a concatenation of one part.
pub proof fn lemma_leaves_single_basic(b: BasicView)
    ensures
        leaves_of_basics(seq![b]) == leaves_basic(b),
{
    lemma_leaves_push_basic(Seq::empty(), b);
    assert(Seq::<BasicView>::empty().push(b) =~= seq![b]);
    assert(leaves_of_basics(Seq::empty()) + leaves_basic(b) =~= leaves_basic(b));
}

/// The positions of an alternation of one alternative.
pub proof fn lemma_leaves_single_concat(c: ConcatView)
    ensures
        leaves_of_concats(seq![c]) == leaves_concat(c),
{
    lemma_leaves_push_concat(Seq::empty(), c);
    assert(Seq::<ConcatView>::empty().push(c) =~= seq![c]);
    assert(leaves_of_concats(Seq::empty()) + leaves_concat(c) =~= leaves_concat(c));
}

proof fn lemma_basic_views_push(bs: Seq<Basic>, b: Basic)
    ensures
        basic_views(bs.push(b)) == basic_views(bs).push(b@),
{
    assert(basic_views(bs.push(b)) =~= basic_views(bs).push(b@));
}

proof fn lemma_concat_views_push(cs: Seq<Concat>, c: Concat)
    ensures
        concat_views(cs.push(c)) == concat_views(cs).push(c@),
{
    assert(concat_views(cs.push(c)) =~= concat_views(cs).push(c@));
}

impl Tree {
    /// Whether `symbol` stands for itself as a position.
    pub fn is_terminal(symbol: char) -> (b: bool)
        ensures
            b == is_terminal(symbol),
    {
        ('a' <= symbol && symbol <= 'z') || symbol == '^' || symbol == '$' || symbol == '.'
    }

    /// Whether an atomic expression can begin with `symbol`.
    pub fn is_atomic_start(symbol: char) -> (b: bool)
        ensures
            b == is_atomic_start(symbol),
    {
        Self::is_terminal(symbol) || symbol == '('
    }

    fn parse_atomic(s: &Vec<char>, pos: usize, count: usize) -> (r: Option<(Atomic, usize, usize)>)
        requires
            pos <= s.len(),
            count <= pos,
        ensures
            agrees(r, atomic_at(s@, pos as int, count as nat)),
            r matches Some((v, next, cnt)) ==> advances(
                s@.len(),
                pos,
                count,
                next,
                cnt,
                leaves_atomic(v@),
            ),
        decreases s.len() - pos, 0int,
    {
        if pos >= s.len() {
            return None;
        }
        let symbol = s[pos];
        if symbol == '(' {
            match Self::parse_union(s, pos + 1, count) {
                None => None,
                Some((u, next, cnt)) => {
                    if next < s.len() && s[next] == ')' {
                        Some((Atomic::Union(u), next + 1, cnt))
                    } else {
                        None
                    }
                },
            }
        } else if Self::is_terminal(symbol) {
            let leaf = LinearizedSymbol::new(symbol, count + 1);
            proof {
                assert(leaves_atomic(AtomicView::Symbol(leaf)) =~= seq![leaf]);
            }
            Some((Atomic::LinearizedSymbol(leaf), pos + 1, count + 1))
        } else {
            None
        }
    }

    fn parse_basic(s: &Vec<char>, pos: usize, count: usize) -> (r: Option<(Basic, usize, usize)>)
        requires
            pos <= s.len(),
            count <= pos,
        ensures
            agrees(r, basic_at(s@, pos as int, count as nat)),
            r matches Some((v, next, cnt)) ==> advances(
                s@.len(),
                pos,
                count,
                next,
                cnt,
                leaves_basic(v@),
            ),
        decreases s.len() - pos, 1int,
    {
        match Self::parse_atomic(s, pos, count) {
            None => None,
            Some((atomic, next, cnt)) => {
                if next < s.len() && s[next] == '*' {
                    Some((Basic::new(atomic, true), next + 1, cnt))
                } else {
                    Some((Basic::new(atomic, false), next, cnt))
                }
            },
        }
    }

    fn parse_concat(s: &Vec<char>, pos: usize, count: usize) -> (r: Option<(Concat, usize, usize)>)
        requires
            pos <= s.len(),
            count <= pos,
        ensures
            agrees(r, concat_at(s@, pos as int, count as nat)),
            r matches Some((v, next, cnt)) ==> advances(
                s@.len(),
                pos,
                count,
                next,
                cnt,
                leaves_concat(v@),
            ),
        decreases s.len() - pos, 3int,
    {
        match Self::parse_basic(s, pos, count) {
            None => None,
            Some((first, next, cnt)) => {
                let ghost first_view = first@;
                let mut basics: Vec<Basic> = Vec::new();
                proof {
                    lemma_basic_views_push(basics@, first);
                    assert(basic_views(basics@.push(first)) =~= seq![first_view]);
                    lemma_leaves_single_basic(first_view);
                }
                basics.push(first);
                let mut p: usize = next;
                let mut n: usize = cnt;
                while p < s.len() && Self::is_atomic_start(s[p])
                    invariant
                        count <= pos < p <= s.len(),
                        concat_rest(s@, p as int, n as nat, basic_views(basics@)) == concat_at(
                            s@,
                            pos as int,
                            count as nat,
                        ),
                        advances(
                            s@.len(),
                            pos,
                            count,
                            p,
                            n,
                            leaves_of_basics(basic_views(basics@)),
                        ),
                    decreases s.len() - p,
                {
                    match Self::parse_basic(s, p, n) {
                        None => {
                            return None;
                        },
                        Some((b, next2, cnt2)) => {
                            proof {
                                lemma_basic_views_push(basics@, b);
                                lemma_leaves_push_basic(basic_views(basics@), b@);
                                lemma_numbered_add(
                                    leaves_of_basics(basic_views(basics@)),
                                    leaves_basic(b@),
                                    count as nat,
                                );
                            }
                            basics.push(b);
                            p = next2;
                            n = cnt2;
                        },
                    }
                }
                Some((Concat::new(basics), p, n))
            },
        }
    }

    fn parse_union(s: &Vec<char>, pos: usize, count: usize) -> (r: Option<(Union, usize, usize)>)
        requires
            pos <= s.len(),
            count <= pos,
        ensures
            agrees(r, union_at(s@, pos as int, count as nat)),
            r matches Some((v, next, cnt)) ==> advances(
                s@.len(),
                pos,
                count,
                next,
                cnt,
                leaves_union(v@),
            ),
        decreases s.len() - pos, 5int,
    {
        match Self::parse_concat(s, pos, count) {
            None => None,
            Some((first, next, cnt)) => {
                let ghost first_view = first@;
                let mut concats: Vec<Concat> = Vec::new();
                proof {
                    lemma_concat_views_push(concats@, first);
                    assert(concat_views(concats@.push(first)) =~= seq![first_view]);
                    lemma_leaves_single_concat(first_view);
                }
                concats.push(first);
                let mut p: usize = next;
                let mut n: usize = cnt;
                while p < s.len() && s[p] == '|'
                    invariant
                        count <= pos < p <= s.len(),
                        union_rest(s@, p as int, n as nat, concat_views(concats@)) == union_at(
                            s@,
                            pos as int,
                            count as nat,
                        ),
                        advances(
                            s@.len(),
                            pos,
                            count,
                            p,
                            n,
                            leaves_of_concats(concat_views(concats@)),
                        ),
                    decreases s.len() - p,
                {
                    match Self::parse_concat(s, p + 1, n) {
                        None => {
                            return None;
                        },
                        Some((c, next2, cnt2)) => {
                            proof {
                                lemma_concat_views_push(concats@, c);
                                lemma_leaves_push_concat(concat_views(concats@), c@);
                                lemma_numbered_add(
                                    leaves_of_concats(concat_views(concats@)),
                                    leaves_concat(c@),
                                    count as nat,
                                );
                            }
                            concats.push(c);
                            p = next2;
                            n = cnt2;
                        },
                    }
                }
                Some((Union::new(concats), p, n))
            },
        }
    }

    /// The tree without positions.
    pub fn default() -> (t: Self)
        ensures
            t@ == (TreeView { root: UnionView { concats: Seq::empty() }, linearized_symbols: 0 }),
    {
        Self { linearized_symbols: 0, root: Union::default() }
    }

    /// The position tree of `regex`, if all of `regex` is one expression of
    /// the grammar.
    pub fn try_from_regex(regex: &str) -> (r: Option<Self>)
        ensures
            match r {
                Some(t) => tree_of(regex@) == Some(t@) && t@.wf(),
                None => tree_of(regex@) is None,
            },
    {
        let s = crate::text::chars_of(regex);
        match Self::parse_union(&s, 0, 0) {
            None => None,
            Some((root, next, cnt)) => {
                if next == s.len() {
                    Some(Self { root, linearized_symbols: cnt })
                } else {
                    None
                }
            },
        }
    }

    /// The position tree of `regex`, which is an expression of the grammar.
    pub fn from_regex(regex: &str) -> (t: Self)
        requires
            tree_of(regex@) is Some,
        ensures
            tree_of(regex@) == Some(t@),
            t@.wf(),
    {
        match Self::try_from_regex(regex) {
            Some(t) => t,
            None => {
                proof {
                    assert(false);
                }
                Self::default()
            },
        }
    }
}


// -------------------------------------------------------------------------
// Nullable, first, last, follow: computed
// -------------------------------------------------------------------------

/// One of `cs` matches the empty string exactly if `nullable_any` says so.
pub proof fn lemma_nullable_any(cs: Seq<ConcatView>)
    ensures
        nullable_any(cs) <==> exists|i: int| 0 <= i < cs.len() && nullable_concat(#[trigger] cs[i]),
    decreases cs.len(),
{
    if cs.len() > 0 {
        lemma_nullable_any(cs.drop_last());
        if nullable_any(cs.drop_last()) {
            let i = choose|i: int|
                0 <= i < cs.drop_last().len() && nullable_concat(#[trigger] cs.drop_last()[i]);
            assert(cs[i] == cs.drop_last()[i]);
        }
        if exists|i: int| 0 <= i < cs.len() && nullable_concat(#[trigger] cs[i]) {
            let i = choose|i: int| 0 <= i < cs.len() && nullable_concat(#[trigger] cs[i]);
            if i < cs.len() - 1 {
                assert(cs.drop_last()[i] == cs[i]);
            }
        }
    }
}

/// All of `bs` match the empty string exactly if `nullable_all` says so.
pub proof fn lemma_nullable_all(bs: Seq<BasicView>)
    ensures
        nullable_all(bs) <==> forall|i: int| 0 <= i < bs.len() ==> nullable_basic(#[trigger] bs[i]),
    decreases bs.len(),
{
    if bs.len() > 0 {
        lemma_nullable_all(bs.drop_last());
        if nullable_all(bs) {
            assert forall|i: int| 0 <= i < bs.len() implies nullable_basic(#[trigger] bs[i]) by {
                if i < bs.len() - 1 {
                    assert(bs.drop_last()[i] == bs[i]);
                }
            }
        }
        if forall|i: int| 0 <= i < bs.len() ==> nullable_basic(#[trigger] bs[i]) {
            assert forall|i: int| 0 <= i < bs.drop_last().len() implies nullable_basic(
                #[trigger] bs.drop_last()[i],
            ) by {
                assert(bs.drop_last()[i] == bs[i]);
            }
        }
    }
}

proof fn lemma_first_of_all_take(cs: Seq<ConcatView>, i: int)
    requires
        0 <= i < cs.len(),
    ensures
        first_of_all(cs.take(i + 1)) == first_of_all(cs.take(i)) + first_concat(cs[i]),
{
    assert(cs.take(i + 1).drop_last() =~= cs.take(i));
}

proof fn lemma_last_of_all_take(cs: Seq<ConcatView>, i: int)
    requires
        0 <= i < cs.len(),
    ensures
        last_of_all(cs.take(i + 1)) == last_of_all(cs.take(i)) + last_concat(cs[i]),
{
    assert(cs.take(i + 1).drop_last() =~= cs.take(i));
}

proof fn lemma_follow_of_all_take(cs: Seq<ConcatView>, i: int)
    requires
        0 <= i < cs.len(),
    ensures
        follow_of_all(cs.take(i + 1)) == follow_of_all(cs.take(i)) + follow_concat(cs[i]),
{
    assert(cs.take(i + 1).drop_last() =~= cs.take(i));
}

proof fn lemma_follow_inside_take(bs: Seq<BasicView>, i: int)
    requires
        0 <= i < bs.len(),
    ensures
        follow_inside(bs.take(i + 1)) == follow_inside(bs.take(i)) + follow_basic(bs[i]),
{
    assert(bs.take(i + 1).drop_last() =~= bs.take(i));
}

proof fn lemma_product_take(a: Seq<LinearizedSymbol>, b: Seq<LinearizedSymbol>, i: int)
    requires
        0 <= i < a.len(),
    ensures
        cartesian_product(a.take(i + 1), b) == cartesian_product(a.take(i), b) + pairs_with(a[i], b),
{
    assert(a.take(i + 1).drop_last() =~= a.take(i));
}

impl Tree {
    // Epsilon satisfiability
    /// Whether the expression matches the empty string.
    pub fn does_epsilon_satisfy(&self) -> (b: bool)
        ensures
            b == nullable_union(self@.root),
    {
        Self::does_epsilon_satisfy_union(&self.root)
    }

    /// Whether the alternation matches the empty string.
    pub fn does_epsilon_satisfy_union(union: &Union) -> (b: bool)
        ensures
            b == nullable_union(union@),
        decreases union,
    {
        proof {
            lemma_union_view(*union);
            lemma_nullable_any(union@.concats);
        }
        assert(decreases_to!(union => union.concats));
        let mut i: usize = 0;
        while i < union.concats.len()
            invariant
                i <= union.concats.len(),
                union@.concats == concat_views(union.concats@),
                forall|k: int| 0 <= k < i ==> !nullable_concat(#[trigger] union@.concats[k]),
                decreases_to!(union => union.concats),
                nullable_any(union@.concats) <==> exists|i: int|
                    0 <= i < union@.concats.len() && nullable_concat(#[trigger] union@.concats[i]),
            decreases union.concats.len() - i,
        {
            if Self::does_epsilon_satisfy_concat(&union.concats[i]) {
                assert(nullable_concat(union@.concats[i as int]));
                return true;
            }
            i += 1;
        }
        false
    }

    /// Whether the concatenation matches the empty string.
    pub fn does_epsilon_satisfy_concat(concat: &Concat) -> (b: bool)
        ensures
            b == nullable_concat(concat@),
        decreases concat,
    {
        proof {
            lemma_concat_view(*concat);
            lemma_nullable_all(concat@.basics);
        }
        assert(decreases_to!(concat => concat.basics));
        let mut i: usize = 0;
        while i < concat.basics.len()
            invariant
                i <= concat.basics.len(),
                concat@.basics == basic_views(concat.basics@),
                forall|k: int| 0 <= k < i ==> nullable_basic(#[trigger] concat@.basics[k]),
                decreases_to!(concat => concat.basics),
                nullable_all(concat@.basics) <==> forall|i: int|
                    0 <= i < concat@.basics.len() ==> nullable_basic(#[trigger] concat@.basics[i]),
            decreases concat.basics.len() - i,
        {
            if !Self::does_epsilon_satisfy_basic(&concat.basics[i]) {
                assert(!nullable_basic(concat@.basics[i as int]));
                return false;
            }
            i += 1;
        }
        true
    }

    /// Whether the basic expression matches the empty string.
    pub fn does_epsilon_satisfy_basic(basic: &Basic) -> (b: bool)
        ensures
            b == nullable_basic(basic@),
        decreases basic,
    {
        basic.is_iter || Self::does_epsilon_satisfy_atomic(&basic.atomic)
    }

    /// Whether the atomic expression matches the empty string.
    pub fn does_epsilon_satisfy_atomic(atomic: &Atomic) -> (b: bool)
        ensures
            b == nullable_atomic(atomic@),
        decreases atomic,
    {
        match atomic {
            Atomic::LinearizedSymbol(_linearized_symbol) => false,
            Atomic::Union(union) => Self::does_epsilon_satisfy_union(union),
        }
    }

    // First-set
    /// The positions at which a match can begin.
    pub fn get_first_set(&self) -> (first_set: Vec<LinearizedSymbol>)
        ensures
            first_set@ == first_union(self@.root),
    {
        Self::get_first_of_union(&self.root)
    }

    /// The first positions of the alternation.
    pub fn get_first_of_union(union: &Union) -> (first_set: Vec<LinearizedSymbol>)
        ensures
            first_set@ == first_union(union@),
        decreases union,
    {
        let mut first_set: Vec<LinearizedSymbol> = Vec::new();
        proof {
            lemma_union_view(*union);
        }
        assert(decreases_to!(union => union.concats));
        let mut i: usize = 0;
        while i < union.concats.len()
            invariant
                i <= union.concats.len(),
                union@.concats == concat_views(union.concats@),
                first_set@ == first_of_all(union@.concats.take(i as int)),
                decreases_to!(union => union.concats),
            decreases union.concats.len() - i,
        {
            let mut part = Self::get_first_of_concat(&union.concats[i]);
            proof {
                lemma_first_of_all_take(union@.concats, i as int);
            }
            first_set.append(&mut part);
            i += 1;
        }
        proof {
            assert(union@.concats.take(i as int) =~= union@.concats);
        }
        first_set
    }

    /// The first positions of the concatenation.
    pub fn get_first_of_concat(concat: &Concat) -> (first_set: Vec<LinearizedSymbol>)
        ensures
            first_set@ == first_concat(concat@),
        decreases concat,
    {
        let mut first_set: Vec<LinearizedSymbol> = Vec::new();
        proof {
            lemma_concat_view(*concat);
        }
        assert(decreases_to!(concat => concat.basics));
        let mut i: usize = 0;
        while i < concat.basics.len()
            invariant
                i <= concat.basics.len(),
                concat@.basics == basic_views(concat.basics@),
                first_set@ + first_from(concat@.basics, i as int) == first_concat(concat@),
                decreases_to!(concat => concat.basics),
            decreases concat.basics.len() - i,
        {
            let ghost before = first_set@;
            let mut part = Self::get_first_of_basic(&concat.basics[i]);
            first_set.append(&mut part);
            if !Self::does_epsilon_satisfy_basic(&concat.basics[i]) {
                return first_set;
            }
            proof {
                let bs = concat@.basics;
                assert(before + (first_basic(bs[i as int]) + first_from(bs, i + 1)) =~= first_set@
                    + first_from(bs, i + 1));
            }
            i += 1;
        }
        proof {
            assert(first_set@ + Seq::<LinearizedSymbol>::empty() =~= first_set@);
        }
        first_set
    }

    /// The first positions of the basic expression.
    pub fn get_first_of_basic(basic: &Basic) -> (first_set: Vec<LinearizedSymbol>)
        ensures
            first_set@ == first_basic(basic@),
        decreases basic,
    {
        Self::get_first_of_atomic(&basic.atomic)
    }

    /// The first positions of the atomic expression.
    pub fn get_first_of_atomic(atomic: &Atomic) -> (first_set: Vec<LinearizedSymbol>)
        ensures
            first_set@ == first_atomic(atomic@),
        decreases atomic,
    {
        match atomic {
            Atomic::LinearizedSymbol(linearized_symbol) => {
                let mut v: Vec<LinearizedSymbol> = Vec::new();
                v.push(*linearized_symbol);
                assert(v@ =~= seq![*linearized_symbol]);
                v
            },
            Atomic::Union(union) => Self::get_first_of_union(union),
        }
    }

    // Last-set
    /// The positions at which a match can end.
    pub fn get_last_set(&self) -> (last_set: Vec<LinearizedSymbol>)
        ensures
            last_set@ == last_union(self@.root),
    {
        Self::get_last_of_union(&self.root)
    }

    /// The last positions of the alternation.
    pub fn get_last_of_union(union: &Union) -> (last_set: Vec<LinearizedSymbol>)
        ensures
            last_set@ == last_union(union@),
        decreases union,
    {
        let mut last_set: Vec<LinearizedSymbol> = Vec::new();
        proof {
            lemma_union_view(*union);
        }
        assert(decreases_to!(union => union.concats));
        let mut i: usize = 0;
        while i < union.concats.len()
            invariant
                i <= union.concats.len(),
                union@.concats == concat_views(union.concats@),
                last_set@ == last_of_all(union@.concats.take(i as int)),
                decreases_to!(union => union.concats),
            decreases union.concats.len() - i,
        {
            let mut part = Self::get_last_of_concat(&union.concats[i]);
            proof {
                lemma_last_of_all_take(union@.concats, i as int);
            }
            last_set.append(&mut part);
            i += 1;
        }
        proof {
            assert(union@.concats.take(i as int) =~= union@.concats);
        }
        last_set
    }

    /// The last positions of the concatenation.
    pub fn get_last_of_concat(concat: &Concat) -> (last_set: Vec<LinearizedSymbol>)
        ensures
            last_set@ == last_concat(concat@),
        decreases concat,
    {
        let mut last_set: Vec<LinearizedSymbol> = Vec::new();
        proof {
            lemma_concat_view(*concat);
        }
        assert(decreases_to!(concat => concat.basics));
        let mut upto: usize = concat.basics.len();
        while upto > 0
            invariant
                upto <= concat.basics.len(),
                concat@.basics == basic_views(concat.basics@),
                last_set@ + last_upto(concat@.basics, upto as int) == last_concat(concat@),
                decreases_to!(concat => concat.basics),
            decreases upto,
        {
            let ghost before = last_set@;
            let mut part = Self::get_last_of_basic(&concat.basics[upto - 1]);
            last_set.append(&mut part);
            if !Self::does_epsilon_satisfy_basic(&concat.basics[upto - 1]) {
                return last_set;
            }
            proof {
                let bs = concat@.basics;
                assert(before + (last_basic(bs[upto - 1]) + last_upto(bs, upto - 1)) =~= last_set@
                    + last_upto(bs, upto - 1));
            }
            upto -= 1;
        }
        proof {
            assert(last_set@ + Seq::<LinearizedSymbol>::empty() =~= last_set@);
        }
        last_set
    }

    /// The last positions of the basic expression.
    pub fn get_last_of_basic(basic: &Basic) -> (last_set: Vec<LinearizedSymbol>)
        ensures
            last_set@ == last_basic(basic@),
        decreases basic,
    {
        Self::get_last_of_atomic(&basic.atomic)
    }

    /// The last positions of the atomic expression.
    pub fn get_last_of_atomic(atomic: &Atomic) -> (last_set: Vec<LinearizedSymbol>)
        ensures
            last_set@ == last_atomic(atomic@),
        decreases atomic,
    {
        match atomic {
            Atomic::LinearizedSymbol(linearized_symbol) => {
                let mut v: Vec<LinearizedSymbol> = Vec::new();
                v.push(*linearized_symbol);
                assert(v@ =~= seq![*linearized_symbol]);
                v
            },
            Atomic::Union(union) => Self::get_last_of_union(union),
        }
    }

    // Follow-set
    /// Every pair of one of `first_set` and one of `second_set`.
    pub fn get_cartesian_product(
        first_set: &Vec<LinearizedSymbol>,
        second_set: &Vec<LinearizedSymbol>,
    ) -> (result: Vec<(LinearizedSymbol, LinearizedSymbol)>)
        ensures
            result@ == cartesian_product(first_set@, second_set@),
    {
        let mut result: Vec<(LinearizedSymbol, LinearizedSymbol)> = Vec::new();
        let mut i: usize = 0;
        while i < first_set.len()
            invariant
                i <= first_set.len(),
                result@ == cartesian_product(first_set@.take(i as int), second_set@),
            decreases first_set.len() - i,
        {
            let ghost before = result@;
            let mut j: usize = 0;
            while j < second_set.len()
                invariant
                    i < first_set.len(),
                    j <= second_set.len(),
                    result@ == before + pairs_with(first_set@[i as int], second_set@.take(j as int)),
                decreases second_set.len() - j,
            {
                result.push((first_set[i], second_set[j]));
                proof {
                    assert(pairs_with(first_set@[i as int], second_set@.take(j + 1)) =~= pairs_with(
                        first_set@[i as int],
                        second_set@.take(j as int),
                    ).push((first_set@[i as int], second_set@[j as int])));
                }
                j += 1;
            }
            proof {
                assert(second_set@.take(j as int) =~= second_set@);
                lemma_product_take(first_set@, second_set@, i as int);
            }
            i += 1;
        }
        proof {
            assert(first_set@.take(i as int) =~= first_set@);
        }
        result
    }

    /// The pairs of positions of which the second can follow the first at
    /// once.
    pub fn get_follow_set(&self) -> (follow_set: Vec<(LinearizedSymbol, LinearizedSymbol)>)
        ensures
            follow_set@ == follow_union(self@.root),
    {
        Self::get_follow_of_union(&self.root)
    }

    /// The follow pairs of the alternation.
    pub fn get_follow_of_union(union: &Union) -> (follow_set: Vec<
        (LinearizedSymbol, LinearizedSymbol),
    >)
        ensures
            follow_set@ == follow_union(union@),
        decreases union,
    {
        let mut follow_set: Vec<(LinearizedSymbol, LinearizedSymbol)> = Vec::new();
        proof {
            lemma_union_view(*union);
        }
        assert(decreases_to!(union => union.concats));
        let mut i: usize = 0;
        while i < union.concats.len()
            invariant
                i <= union.concats.len(),
                union@.concats == concat_views(union.concats@),
                follow_set@ == follow_of_all(union@.concats.take(i as int)),
                decreases_to!(union => union.concats),
            decreases union.concats.len() - i,
        {
            let mut part = Self::get_follow_of_concat(&union.concats[i]);
            proof {
                lemma_follow_of_all_take(union@.concats, i as int);
            }
            follow_set.append(&mut part);
            i += 1;
        }
        proof {
            assert(union@.concats.take(i as int) =~= union@.concats);
        }
        follow_set
    }

    /// The follow pairs of the concatenation.
    pub fn get_follow_of_concat(concat: &Concat) -> (follow_set: Vec<
        (LinearizedSymbol, LinearizedSymbol),
    >)
        ensures
            follow_set@ == follow_concat(concat@),
        decreases concat,
    {
        let mut follow_set: Vec<(LinearizedSymbol, LinearizedSymbol)> = Vec::new();
        let basics = &concat.basics;
        let ghost bs = concat@.basics;
        proof {
            lemma_concat_view(*concat);
        }
        assert(decreases_to!(concat => concat.basics));
        let mut k: usize = 0;
        while k < basics.len()
            invariant
                k <= basics.len(),
                basics == &concat.basics,
                bs == basic_views(basics@),
                follow_set@ == follow_inside(bs.take(k as int)),
                decreases_to!(concat => concat.basics),
            decreases basics.len() - k,
        {
            let mut part = Self::get_follow_of_basic(&basics[k]);
            proof {
                lemma_follow_inside_take(bs, k as int);
            }
            follow_set.append(&mut part);
            k += 1;
        }
        proof {
            assert(bs.take(k as int) =~= bs);
            assert(follow_set@ + bridges(bs, 0) =~= follow_concat(concat@));
        }
        let mut i: usize = 0;
        while basics.len() > 0 && i < basics.len() - 1
            invariant
                i <= basics.len(),
                bs == basic_views(basics@),
                bs == concat@.basics,
                follow_set@ + bridges(bs, i as int) == follow_concat(concat@),
            decreases basics.len() - i,
        {
            let ghost before = follow_set@;
            let last_of_i = Self::get_last_of_basic(&basics[i]);
            let mut j: usize = i + 1;
            let mut open = true;
            while open && j < basics.len()
                invariant
                    i < j <= basics.len(),
                    bs == basic_views(basics@),
                    last_of_i@ == last_basic(bs[i as int]),
                    open ==> before + bridges_from(bs, i as int, i + 1) == follow_set@
                        + bridges_from(bs, i as int, j as int),
                    !open ==> before + bridges_from(bs, i as int, i + 1) == follow_set@,
                decreases basics.len() - j + (if open {
                    1int
                } else {
                    0int
                }),
            {
                let ghost inner_before = follow_set@;
                let first_of_j = Self::get_first_of_basic(&basics[j]);
                let mut part = Self::get_cartesian_product(&last_of_i, &first_of_j);
                follow_set.append(&mut part);
                if !Self::does_epsilon_satisfy_basic(&basics[j]) {
                    open = false;
                } else {
                    proof {
                        let p = cartesian_product(last_basic(bs[i as int]), first_basic(bs[j as int]));
                        assert(inner_before + (p + bridges_from(bs, i as int, j + 1)) =~= (
                        inner_before + p) + bridges_from(bs, i as int, j + 1));
                    }
                    j += 1;
                }
            }
            proof {
                assert(follow_set@ == before + bridges_from(bs, i as int, i + 1)) by {
                    if open {
                        assert(follow_set@ + Seq::<(LinearizedSymbol, LinearizedSymbol)>::empty()
                            =~= follow_set@);
                    }
                }
                assert(before + (bridges_from(bs, i as int, i + 1) + bridges(bs, i + 1)) =~= (before
                    + bridges_from(bs, i as int, i + 1)) + bridges(bs, i + 1));
            }
            i += 1;
        }
        proof {
            assert(follow_set@ + Seq::<(LinearizedSymbol, LinearizedSymbol)>::empty()
                =~= follow_set@);
        }
        follow_set
    }

    /// The follow pairs of the basic expression.
    pub fn get_follow_of_basic(basic: &Basic) -> (follow_set: Vec<
        (LinearizedSymbol, LinearizedSymbol),
    >)
        ensures
            follow_set@ == follow_basic(basic@),
        decreases basic,
    {
        let atomic = &basic.atomic;
        let mut follow_set = Self::get_follow_of_atomic(atomic);
        if basic.is_iter {
            let mut loops = Self::get_cartesian_product(
                &Self::get_last_of_atomic(atomic),
                &Self::get_first_of_atomic(atomic),
            );
            follow_set.append(&mut loops);
        }
        follow_set
    }

    /// The follow pairs of the atomic expression.
    pub fn get_follow_of_atomic(atomic_exp: &Atomic) -> (follow_set: Vec<
        (LinearizedSymbol, LinearizedSymbol),
    >)
        ensures
            follow_set@ == follow_atomic(atomic_exp@),
        decreases atomic_exp,
    {
        match atomic_exp {
            Atomic::LinearizedSymbol(_linearized_symbol) => Vec::new(),
            Atomic::Union(union) => Self::get_follow_of_union(union),
        }
    }
}

} // verus!
