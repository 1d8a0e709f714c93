//! Intersection of automata by the product construction.
//!
//! A state of the product is a pair of states together with the character
//! on which the pair was entered. The product is explored forwards from
//! the pair of start states; the states from which no accepting state can
//! be reached are dropped.
use vstd::prelude::*;
use vstd::arithmetic::div_mod::lemma_fundamental_div_mod_converse;
use vstd::set_lib::lemma_int_range;
use vstd::set_lib::lemma_len_subset;
use vstd::set_lib::set_int_range;
use crate::ndfa::Automata;
use crate::ndfa::Nfa;
use crate::ndfa::ARBITARY;
use crate::ndfa::language::accepts;
use crate::ndfa::language::reaches;
use crate::ndfa::language::step;

verus! {

/// A state of the product: a state of each automaton, and the character
/// on which the pair was entered.
#[derive(Debug, Clone, Copy, PartialEq, Eq, Structural)]
pub struct ComplexState {
    pub a1_index: usize,
    pub symbol: char,
    pub a2_index: usize,
}

/// The pair of start states.
pub open spec fn start_state() -> ComplexState {
    ComplexState { a1_index: 0, symbol: '\0', a2_index: 0 }
}

/// Both parts of `s` are states of their automata.
pub open spec fn in_product(a: Nfa<char>, b: Nfa<char>, s: ComplexState) -> bool {
    s.a1_index < a.size && s.a2_index < b.size
}

/// The product can go from `s` to `t`: both automata have the transition,
/// `t` was entered on the label of `b`, and the label of `a` is the same
/// or stands for any character.
pub open spec fn product_edge(a: Nfa<char>, b: Nfa<char>, s: ComplexState, t: ComplexState) -> bool {
    let la = a.labels[s.a1_index as int][t.a1_index as int];
    let lb = b.labels[s.a2_index as int][t.a2_index as int];
    &&& in_product(a, b, s)
    &&& in_product(a, b, t)
    &&& la is Some
    &&& lb == Some(t.symbol)
    &&& (la == lb || la == Some('.'))
}

/// Both parts of `s` accept.
pub open spec fn product_accepts(a: Nfa<char>, b: Nfa<char>, s: ComplexState) -> bool {
    in_product(a, b, s) && a.accepts[s.a1_index as int] && b.accepts[s.a2_index as int]
}

/// `s` is reached from the pair of start states in `n` steps.
pub open spec fn reach_in(a: Nfa<char>, b: Nfa<char>, n: nat, s: ComplexState) -> bool
    decreases n,
{
    if n == 0 {
        s == start_state()
    } else {
        exists|p: ComplexState|
            reach_in(a, b, (n - 1) as nat, p) && #[trigger] product_edge(a, b, p, s)
    }
}

/// `s` is reached from the pair of start states.
pub open spec fn reachable(a: Nfa<char>, b: Nfa<char>, s: ComplexState) -> bool {
    exists|n: nat| reach_in(a, b, n, s)
}

/// An accepting state is reached from `s` in `n` steps.
pub open spec fn coreach_in(a: Nfa<char>, b: Nfa<char>, n: nat, s: ComplexState) -> bool
    decreases n,
{
    if n == 0 {
        product_accepts(a, b, s)
    } else {
        exists|t: ComplexState|
            #[trigger] product_edge(a, b, s, t) && coreach_in(a, b, (n - 1) as nat, t)
    }
}

/// An accepting state is reached from `s`.
pub open spec fn coreachable(a: Nfa<char>, b: Nfa<char>, s: ComplexState) -> bool {
    exists|n: nat| coreach_in(a, b, n, s)
}

/// `s` lies on a way from the pair of start states to an accepting state.
pub open spec fn useful(a: Nfa<char>, b: Nfa<char>, s: ComplexState) -> bool {
    reachable(a, b, s) && coreachable(a, b, s)
}

/// `states` are the states of the product that are reached from the pair
/// of start states, each once, the pair of start states first.
pub open spec fn explored(a: Nfa<char>, b: Nfa<char>, states: Seq<ComplexState>) -> bool {
    &&& states.len() >= 1
    &&& states[0] == start_state()
    &&& states.no_duplicates()
    &&& forall|x: int|
        0 <= x < states.len() ==> in_product(a, b, #[trigger] states[x]) && reachable(
            a,
            b,
            states[x],
        )
    &&& forall|x: int, t: ComplexState|
        0 <= x < states.len() && #[trigger] product_edge(a, b, states[x], t) ==> states.contains(t)
}

/// What was explored holds every state that is reached.
pub proof fn lemma_explored_complete(
    a: Nfa<char>,
    b: Nfa<char>,
    states: Seq<ComplexState>,
    n: nat,
    s: ComplexState,
)
    requires
        explored(a, b, states),
        reach_in(a, b, n, s),
    ensures
        states.contains(s),
    decreases n,
{
    if n == 0 {
        assert(states[0] == s);
    } else {
        let p = choose|p: ComplexState|
            reach_in(a, b, (n - 1) as nat, p) && #[trigger] product_edge(a, b, p, s);
        lemma_explored_complete(a, b, states, (n - 1) as nat, p);
        let x = choose|x: int| 0 <= x < states.len() && states[x] == p;
        assert(product_edge(a, b, states[x], s));
    }
}

// -------------------------------------------------------------------------
// Counting
// -------------------------------------------------------------------------

/// Different numbers below `m` are at most `m` numbers.
pub proof fn lemma_distinct_bounded(s: Seq<int>, m: int)
    requires
        0 <= m,
        s.no_duplicates(),
        forall|i: int| 0 <= i < s.len() ==> 0 <= #[trigger] s[i] < m,
    ensures
        s.len() <= m,
{
    s.unique_seq_to_set();
    lemma_int_range(0, m);
    assert(s.to_set().subset_of(set_int_range(0, m))) by {
        assert forall|v: int| s.to_set().contains(v) implies set_int_range(0, m).contains(v) by {
            let i = choose|i: int| 0 <= i < s.len() && s[i] == v;
            assert(0 <= s[i] < m);
        }
    }
    lemma_len_subset(s.to_set(), set_int_range(0, m));
}

/// The number that stands for the triple `(i, j, k)` of numbers below `n`.
pub open spec fn code(n: int, i: int, j: int, k: int) -> int {
    (i * n + j) * n + k
}

proof fn lemma_code_injective(n: int, i: int, j: int, k: int, i2: int, j2: int, k2: int)
    requires
        0 <= j < n,
        0 <= k < n,
        0 <= j2 < n,
        0 <= k2 < n,
        code(n, i, j, k) == code(n, i2, j2, k2),
    ensures
        i == i2,
        j == j2,
        k == k2,
{
    lemma_fundamental_div_mod_converse(code(n, i, j, k), n, i * n + j, k);
    lemma_fundamental_div_mod_converse(code(n, i2, j2, k2), n, i2 * n + j2, k2);
    lemma_fundamental_div_mod_converse(i * n + j, n, i, j);
    lemma_fundamental_div_mod_converse(i2 * n + j2, n, i2, j2);
}

proof fn lemma_code_bounded(m: int, n: int, i: int, j: int, k: int)
    requires
        0 <= i < m,
        0 <= j < n,
        0 <= k < n,
    ensures
        0 <= code(n, i, j, k) < m * n * n,
{
    assert(0 <= (i * n + j) * n + k < m * n * n) by (nonlinear_arith)
        requires
            0 <= i < m,
            0 <= j < n,
            0 <= k < n,
    {
        assert(i * n + j <= (m - 1) * n + n - 1);
        assert((i * n + j) * n <= ((m - 1) * n + n - 1) * n);
        assert(((m - 1) * n + n - 1) * n == m * n * n - n);
    }
}

/// States that were entered from states of `b` as `origin` says: every
/// state but the first was entered on the label that leads from its origin
/// to its second part.
pub open spec fn entered_from(b: Nfa<char>, states: Seq<ComplexState>, origin: Seq<int>) -> bool {
    &&& origin.len() == states.len()
    &&& forall|x: int|
        1 <= x < states.len() ==> 0 <= #[trigger] origin[x] < b.size && b.labels[origin[x]][states[x].a2_index as int]
            == Some(states[x].symbol)
}

/// Different states of the product are no more than the triples of a state
/// of `a` and two states of `b`, and one.
proof fn lemma_states_bounded(
    a: Nfa<char>,
    b: Nfa<char>,
    states: Seq<ComplexState>,
    origin: Seq<int>,
)
    requires
        states.len() >= 1,
        states.no_duplicates(),
        forall|x: int| 0 <= x < states.len() ==> in_product(a, b, #[trigger] states[x]),
        entered_from(b, states, origin),
    ensures
        states.len() <= a.size * b.size * b.size + 1,
{
    let n = b.size as int;
    let codes = Seq::new(
        (states.len() - 1) as nat,
        |k: int| code(n, states[k + 1].a1_index as int, origin[k + 1], states[k + 1].a2_index as int),
    );
    assert forall|k: int| 0 <= k < codes.len() implies 0 <= #[trigger] codes[k] < a.size * n * n by {
        assert(in_product(a, b, states[k + 1]));
        assert(0 <= origin[k + 1] < n);
        lemma_code_bounded(
            a.size as int,
            n,
            states[k + 1].a1_index as int,
            origin[k + 1],
            states[k + 1].a2_index as int,
        );
    }
    assert forall|k: int, l: int|
        0 <= k < codes.len() && 0 <= l < codes.len() && k != l implies codes[k] != codes[l] by {
        assert(in_product(a, b, states[k + 1]));
        assert(in_product(a, b, states[l + 1]));
        assert(0 <= origin[k + 1] < n);
        assert(0 <= origin[l + 1] < n);
        if codes[k] == codes[l] {
            lemma_code_injective(
                n,
                states[k + 1].a1_index as int,
                origin[k + 1],
                states[k + 1].a2_index as int,
                states[l + 1].a1_index as int,
                origin[l + 1],
                states[l + 1].a2_index as int,
            );
            assert(states[k + 1] == states[l + 1]);
        }
    }
    assert(0 <= a.size * n * n) by (nonlinear_arith)
        requires
            0 <= a.size,
            0 <= n,
    ;
    lemma_distinct_bounded(codes, a.size * n * n);
}


// -------------------------------------------------------------------------
// Exploring forwards
// -------------------------------------------------------------------------

/// The pair of start states.
pub fn seed() -> (s: ComplexState)
    ensures
        s == start_state(),
{
    ComplexState { a1_index: 0, symbol: '\0', a2_index: 0 }
}

/// The place of `t` among `states`, if it is one of them.
pub fn find_state(states: &Vec<ComplexState>, t: ComplexState) -> (r: Option<usize>)
    ensures
        match r {
            Some(k) => k < states.len() && states[k as int] == t,
            None => !states@.contains(t),
        },
{
    let mut k: usize = 0;
    while k < states.len()
        invariant
            k <= states.len(),
            forall|x: int| 0 <= x < k ==> states[x] != t,
        decreases states.len() - k,
    {
        let s = states[k];
        if s.a1_index == t.a1_index && s.symbol == t.symbol && s.a2_index == t.a2_index {
            return Some(k);
        }
        k += 1;
    }
    None
}

/// Every state to which `s` leads with a first part below `i`, or with the
/// first part `i` and a second part below `j`, is among `states`.
spec fn covered(
    a: Nfa<char>,
    b: Nfa<char>,
    states: Seq<ComplexState>,
    s: ComplexState,
    i: int,
    j: int,
) -> bool {
    forall|t: ComplexState|
        #[trigger] product_edge(a, b, s, t) && (t.a1_index < i || (t.a1_index == i && t.a2_index
            < j)) ==> states.contains(t)
}

/// What holds of the states found so far, of which the first `done` were
/// gone through.
spec fn exploring(
    a: Nfa<char>,
    b: Nfa<char>,
    states: Seq<ComplexState>,
    origin: Seq<int>,
    done: int,
) -> bool {
    &&& states.len() >= 1
    &&& states[0] == start_state()
    &&& states.no_duplicates()
    &&& entered_from(b, states, origin)
    &&& forall|x: int|
        0 <= x < states.len() ==> in_product(a, b, #[trigger] states[x]) && reachable(
            a,
            b,
            states[x],
        )
    &&& forall|x: int, t: ComplexState|
        0 <= x < done && #[trigger] product_edge(a, b, states[x], t) ==> states.contains(t)
}

proof fn lemma_step_reachable(a: Nfa<char>, b: Nfa<char>, s: ComplexState, t: ComplexState)
    requires
        reachable(a, b, s),
        product_edge(a, b, s, t),
    ensures
        reachable(a, b, t),
{
    let n = choose|n: nat| reach_in(a, b, n, s);
    assert(reach_in(a, b, n + 1, t));
}

/// Entering `child` from `states[from]` keeps what holds of the states
/// found so far.
proof fn lemma_enter(
    a: Nfa<char>,
    b: Nfa<char>,
    states: Seq<ComplexState>,
    origin: Seq<int>,
    done: int,
    from: int,
    child: ComplexState,
    i: int,
    j: int,
)
    requires
        a.wf(),
        b.wf(),
        exploring(a, b, states, origin, done),
        0 <= done <= from < states.len(),
        product_edge(a, b, states[from], child),
        child.a1_index == i,
        child.a2_index == j,
        covered(a, b, states, states[from], i, j),
    ensures
        ({
            let after = if states.contains(child) {
                states
            } else {
                states.push(child)
            };
            let origin_after = if states.contains(child) {
                origin
            } else {
                origin.push(states[from].a2_index as int)
            };
            &&& exploring(a, b, after, origin_after, done)
            &&& covered(a, b, after, states[from], i, j + 1)
            &&& after[from] == states[from]
        }),
{
    let s = states[from];
    lemma_step_reachable(a, b, s, child);
    if states.contains(child) {
        assert forall|t: ComplexState|
            #[trigger] product_edge(a, b, s, t) && (t.a1_index < i || (t.a1_index == i
                && t.a2_index < j + 1)) implies states.contains(t) by {
            if t.a1_index == i && t.a2_index == j {
                assert(t == child);
            }
        }
    } else {
        let after = states.push(child);
        let origin_after = origin.push(s.a2_index as int);
        assert forall|t: ComplexState| states.contains(t) implies after.contains(t) by {
            let k = choose|k: int| 0 <= k < states.len() && states[k] == t;
            assert(after[k] == t);
        }
        assert(after[states.len() as int] == child);
        assert(after.no_duplicates());
        assert(entered_from(b, after, origin_after)) by {
            assert forall|x: int| 1 <= x < after.len() implies 0 <= #[trigger] origin_after[x]
                < b.size && b.labels[origin_after[x]][after[x].a2_index as int] == Some(
                after[x].symbol,
            ) by {
                if x < states.len() {
                    assert(origin_after[x] == origin[x]);
                    assert(after[x] == states[x]);
                } else {
                    assert(in_product(a, b, s));
                }
            }
        }
        assert forall|x: int| 0 <= x < after.len() implies in_product(a, b, #[trigger] after[x])
            && reachable(a, b, after[x]) by {
            if x < states.len() {
                assert(after[x] == states[x]);
            }
        }
        assert forall|x: int, t: ComplexState|
            0 <= x < done && #[trigger] product_edge(a, b, after[x], t) implies after.contains(
            t,
        ) by {
            assert(after[x] == states[x]);
            assert(states.contains(t));
        }
        assert forall|t: ComplexState|
            #[trigger] product_edge(a, b, s, t) && (t.a1_index < i || (t.a1_index == i
                && t.a2_index < j + 1)) implies after.contains(t) by {
            if t.a1_index == i && t.a2_index == j {
                assert(t == child);
            } else {
                assert(states.contains(t));
            }
        }
    }
}

/// The states of the product of `a1` and `a2` that are reached from the
/// pair of start states, in the order in which a search in breadth finds
/// them.
pub fn intersection_bfs(a1: &Automata, a2: &Automata) -> (states: Vec<ComplexState>)
    requires
        a1.wf(),
        a2.wf(),
    ensures
        explored(a1@, a2@, states@),
{
    let ghost a = a1@;
    let ghost b = a2@;
    let mut states: Vec<ComplexState> = Vec::new();
    states.push(seed());
    let ghost mut origin: Seq<int> = seq![0int];
    proof {
        assert(reach_in(a, b, 0, start_state()));
        assert(states@.no_duplicates());
    }
    let mut head: usize = 0;
    while head < states.len()
        invariant
            a == a1@,
            b == a2@,
            a1.wf(),
            a2.wf(),
            head <= states.len(),
            exploring(a, b, states@, origin, head as int),
        decreases a.size * b.size * b.size + 1 - head,
    {
        let state = states[head];
        assert(in_product(a, b, states@[head as int]));
        let mut i: usize = 0;
        while i < a1.size
            invariant
                a == a1@,
                b == a2@,
                a1.wf(),
                a2.wf(),
                i <= a1.size,
                head < states.len(),
                state == states@[head as int],
                in_product(a, b, state),
                exploring(a, b, states@, origin, head as int),
                covered(a, b, states@, state, i as int, 0),
            decreases a1.size - i,
        {
            let label1 = a1.label(state.a1_index, i);
            let mut j: usize = 0;
            while j < a2.size
                invariant
                    a == a1@,
                    b == a2@,
                    a1.wf(),
                    a2.wf(),
                    i < a1.size,
                    j <= a2.size,
                    head < states.len(),
                    state == states@[head as int],
                    in_product(a, b, state),
                    label1 == a.labels[state.a1_index as int][i as int],
                    exploring(a, b, states@, origin, head as int),
                    covered(a, b, states@, state, i as int, j as int),
                decreases a2.size - j,
            {
                let label2 = a2.label(state.a2_index, j);
                let mut entered = false;
                match (label1, label2) {
                    (Some(symbol1), Some(symbol2)) => {
                        if symbol1 == symbol2 || symbol1 == ARBITARY {
                            let child = ComplexState { a1_index: i, symbol: symbol2, a2_index: j };
                            proof {
                                assert(product_edge(a, b, state, child));
                                lemma_enter(
                                    a,
                                    b,
                                    states@,
                                    origin,
                                    head as int,
                                    head as int,
                                    child,
                                    i as int,
                                    j as int,
                                );
                            }
                            match find_state(&states, child) {
                                Some(_) => {},
                                None => {
                                    states.push(child);
                                    proof {
                                        origin = origin.push(state.a2_index as int);
                                    }
                                },
                            }
                            entered = true;
                        }
                    },
                    _ => {},
                }
                proof {
                    if !entered {
                        assert forall|t: ComplexState|
                            #[trigger] product_edge(a, b, state, t) && (t.a1_index < i || (
                            t.a1_index == i && t.a2_index < j + 1)) implies states@.contains(t) by {
                            if t.a1_index == i && t.a2_index == j {
                                assert(false);
                            }
                        }
                    }
                }
                j += 1;
            }
            proof {
                assert forall|t: ComplexState|
                    #[trigger] product_edge(a, b, state, t) && (t.a1_index < i + 1 || (t.a1_index
                        == i + 1 && t.a2_index < 0)) implies states@.contains(t) by {
                    assert(t.a1_index < i || (t.a1_index == i && t.a2_index < j));
                }
            }
            i += 1;
        }
        proof {
            assert forall|x: int, t: ComplexState|
                0 <= x < head + 1 && #[trigger] product_edge(a, b, states@[x], t) implies states@.contains(
                t,
            ) by {
                if x == head {
                    assert(t.a1_index < i);
                }
            }
            lemma_states_bounded(a, b, states@, origin);
        }
        head += 1;
    }
    states
}


// -------------------------------------------------------------------------
// Dropping the traps
// -------------------------------------------------------------------------

/// Whether the product can go from `s` to `t`.
pub fn has_edge(a1: &Automata, a2: &Automata, s: ComplexState, t: ComplexState) -> (e: bool)
    requires
        a1.wf(),
        a2.wf(),
        in_product(a1@, a2@, s),
        in_product(a1@, a2@, t),
    ensures
        e == product_edge(a1@, a2@, s, t),
{
    match (a1.label(s.a1_index, t.a1_index), a2.label(s.a2_index, t.a2_index)) {
        (Some(symbol1), Some(symbol2)) => symbol2 == t.symbol && (symbol1 == symbol2 || symbol1
            == ARBITARY),
        _ => false,
    }
}

/// Whether both parts of `s` accept.
pub fn is_finite_pair(a1: &Automata, a2: &Automata, s: ComplexState) -> (f: bool)
    requires
        a1.wf(),
        a2.wf(),
        in_product(a1@, a2@, s),
    ensures
        f == product_accepts(a1@, a2@, s),
{
    a1.is_finite_state(s.a1_index) && a2.is_finite_state(s.a2_index)
}

/// `alive` marks the states from which an accepting state is reached.
pub open spec fn pruned(a: Nfa<char>, b: Nfa<char>, states: Seq<ComplexState>, alive: Seq<bool>) -> bool {
    &&& alive.len() == states.len()
    &&& forall|x: int|
        0 <= x < states.len() ==> #[trigger] alive[x] == coreachable(a, b, states[x])
}

/// Marks that are closed backwards hold every state from which an
/// accepting state is reached.
proof fn lemma_closed_marks(
    a: Nfa<char>,
    b: Nfa<char>,
    states: Seq<ComplexState>,
    alive: Seq<bool>,
    n: nat,
    x: int,
)
    requires
        explored(a, b, states),
        alive.len() == states.len(),
        forall|x: int| 0 <= x < states.len() && product_accepts(a, b, states[x]) ==> #[trigger] alive[x],
        forall|x: int, y: int|
            0 <= x < states.len() && 0 <= y < states.len() && alive[y] && #[trigger] product_edge(
                a,
                b,
                states[x],
                states[y],
            ) ==> alive[x],
        0 <= x < states.len(),
        coreach_in(a, b, n, states[x]),
    ensures
        alive[x],
    decreases n,
{
    if n > 0 {
        let t = choose|t: ComplexState|
            #[trigger] product_edge(a, b, states[x], t) && coreach_in(a, b, (n - 1) as nat, t);
        assert(states.contains(t));
        let y = choose|y: int| 0 <= y < states.len() && states[y] == t;
        lemma_closed_marks(a, b, states, alive, (n - 1) as nat, y);
        assert(product_edge(a, b, states[x], states[y]));
    }
}

proof fn lemma_step_coreachable(a: Nfa<char>, b: Nfa<char>, s: ComplexState, t: ComplexState)
    requires
        product_edge(a, b, s, t),
        coreachable(a, b, t),
    ensures
        coreachable(a, b, s),
{
    let n = choose|n: nat| coreach_in(a, b, n, t);
    assert(coreach_in(a, b, n + 1, s));
}

proof fn lemma_order_bounded(order: Seq<usize>, n: int)
    requires
        0 <= n,
        order.no_duplicates(),
        forall|k: int| 0 <= k < order.len() ==> #[trigger] order[k] < n,
    ensures
        order.len() <= n,
{
    let ints = Seq::new(order.len(), |k: int| order[k] as int);
    assert forall|k: int| 0 <= k < ints.len() implies 0 <= #[trigger] ints[k] < n by {
        assert(order[k] < n);
    }
    lemma_distinct_bounded(ints, n);
}

/// What holds of the marks while the search goes backwards: `order` lists
/// the marked states, each once; every marked state reaches an accepting
/// state, every accepting state is marked, and whatever leads to one of
/// the first `done` of `order` is marked.
spec fn pruning(
    a: Nfa<char>,
    b: Nfa<char>,
    states: Seq<ComplexState>,
    alive: Seq<bool>,
    order: Seq<usize>,
    done: int,
) -> bool {
    &&& alive.len() == states.len()
    &&& order.no_duplicates()
    &&& forall|k: int| 0 <= k < order.len() ==> #[trigger] order[k] < states.len() && alive[order[k] as int]
    &&& forall|x: int|
        0 <= x < states.len() && #[trigger] alive[x] ==> order.contains(x as usize) && coreachable(
            a,
            b,
            states[x],
        )
    &&& forall|k: int, x: int|
        0 <= k < done && 0 <= x < states.len() && #[trigger] product_edge(
            a,
            b,
            states[x],
            states[order[k] as int],
        ) ==> alive[x]
}

proof fn lemma_mark(
    a: Nfa<char>,
    b: Nfa<char>,
    states: Seq<ComplexState>,
    alive: Seq<bool>,
    order: Seq<usize>,
    done: int,
    x: usize,
)
    requires
        pruning(a, b, states, alive, order, done),
        0 <= done <= order.len(),
        x < states.len(),
        !alive[x as int],
        coreachable(a, b, states[x as int]),
    ensures
        pruning(a, b, states, alive.update(x as int, true), order.push(x), done),
{
    let alive2 = alive.update(x as int, true);
    let order2 = order.push(x);
    assert(order2.no_duplicates()) by {
        assert forall|k: int, l: int|
            0 <= k < order2.len() && 0 <= l < order2.len() && k != l implies order2[k]
            != order2[l] by {
            if k < order.len() {
                assert(alive[order[k] as int]);
            }
            if l < order.len() {
                assert(alive[order[l] as int]);
            }
        }
    }
    assert forall|y: int| 0 <= y < states.len() && #[trigger] alive2[y] implies order2.contains(
        y as usize,
    ) && coreachable(a, b, states[y]) by {
        if y == x {
            assert(order2[order.len() as int] == x);
        } else {
            assert(alive[y]);
            let k = choose|k: int| 0 <= k < order.len() && order[k] == y as usize;
            assert(order2[k] == y as usize);
        }
    }
    assert forall|k: int, y: int|
        0 <= k < done && 0 <= y < states.len() && #[trigger] product_edge(
            a,
            b,
            states[y],
            states[order2[k] as int],
        ) implies alive2[y] by {
        assert(order2[k] == order[k]);
        assert(alive[y]);
    }
}

/// Marks the states from which an accepting state is reached, by a search
/// that goes backwards from the accepting states.
pub fn remove_traps(a1: &Automata, a2: &Automata, states: &Vec<ComplexState>) -> (alive: Vec<bool>)
    requires
        a1.wf(),
        a2.wf(),
        explored(a1@, a2@, states@),
    ensures
        pruned(a1@, a2@, states@, alive@),
{
    let ghost a = a1@;
    let ghost b = a2@;
    let n = states.len();
    let mut alive: Vec<bool> = Vec::new();
    let mut order: Vec<usize> = Vec::new();
    let mut x: usize = 0;
    while x < n
        invariant
            a == a1@,
            b == a2@,
            a1.wf(),
            a2.wf(),
            explored(a, b, states@),
            n == states.len(),
            x <= n,
            alive.len() == x,
            order@.no_duplicates(),
            forall|k: int| 0 <= k < order.len() ==> #[trigger] order[k] < x && alive[order[k] as int],
            forall|y: int|
                0 <= y < x ==> #[trigger] alive[y] == product_accepts(a, b, states[y]) && (alive[y]
                    ==> order@.contains(y as usize)),
        decreases n - x,
    {
        let ghost order0 = order@;
        let accepting = is_finite_pair(a1, a2, states[x]);
        alive.push(accepting);
        if accepting {
            order.push(x);
        }
        proof {
            assert forall|y: int| 0 <= y < x + 1 && #[trigger] alive[y] implies order@.contains(
                y as usize,
            ) by {
                if y < x {
                    let k = choose|k: int| 0 <= k < order0.len() && order0[k] == y as usize;
                    assert(order@[k] == y as usize);
                } else {
                    assert(order@[order0.len() as int] == x);
                }
            }
        }
        x += 1;
    }
    proof {
        assert forall|y: int| 0 <= y < n && #[trigger] alive[y] implies coreachable(
            a,
            b,
            states[y],
        ) by {
            assert(coreach_in(a, b, 0, states[y]));
        }
    }
    let mut head: usize = 0;
    while head < order.len()
        invariant
            a == a1@,
            b == a2@,
            a1.wf(),
            a2.wf(),
            explored(a, b, states@),
            n == states.len(),
            head <= order.len(),
            pruning(a, b, states@, alive@, order@, head as int),
            forall|y: int| 0 <= y < n && product_accepts(a, b, states[y]) ==> #[trigger] alive[y],
        decreases n - head,
    {
        let target = states[order[head]];
        let ghost cur = order[head as int];
        assert(alive[cur as int]);
        let mut x: usize = 0;
        while x < n
            invariant
                a == a1@,
                b == a2@,
                a1.wf(),
                a2.wf(),
                explored(a, b, states@),
                n == states.len(),
                x <= n,
                head < order.len(),
                cur == order[head as int],
                target == states[cur as int],
                coreachable(a, b, target),
                pruning(a, b, states@, alive@, order@, head as int),
                forall|y: int| 0 <= y < n && product_accepts(a, b, states[y]) ==> #[trigger] alive[y],
                forall|y: int|
                    0 <= y < x && #[trigger] product_edge(a, b, states[y], target) ==> alive[y],
            decreases n - x,
        {
            assert(in_product(a, b, states@[x as int]));
            assert(in_product(a, b, states@[cur as int]));
            if !alive[x] && has_edge(a1, a2, states[x], target) {
                proof {
                    lemma_step_coreachable(a, b, states@[x as int], target);
                    lemma_mark(a, b, states@, alive@, order@, head as int, x);
                }
                alive.set(x, true);
                order.push(x);
            }
            x += 1;
        }
        proof {
            lemma_order_bounded(order@, n as int);
            assert forall|k: int, y: int|
                0 <= k < head + 1 && 0 <= y < n && #[trigger] product_edge(
                    a,
                    b,
                    states[y],
                    states[order[k] as int],
                ) implies alive[y] by {
                if k == head {
                    assert(product_edge(a, b, states[y], target));
                }
            }
        }
        head += 1;
    }
    proof {
        assert forall|x: int, y: int|
            0 <= x < n && 0 <= y < n && alive[y] && #[trigger] product_edge(
                a,
                b,
                states[x],
                states[y],
            ) implies alive[x] by {
            let k = choose|k: int| 0 <= k < order.len() && order[k] == y as usize;
            assert(product_edge(a, b, states[x], states[order[k] as int]));
        }
        assert forall|x: int| 0 <= x < n implies #[trigger] alive[x] == coreachable(
            a,
            b,
            states[x],
        ) by {
            if coreachable(a, b, states[x]) {
                let m = choose|m: nat| coreach_in(a, b, m, states[x]);
                lemma_closed_marks(a, b, states@, alive@, m, x);
            }
        }
    }
    alive
}


// -------------------------------------------------------------------------
// The intersection
// -------------------------------------------------------------------------

/// The label from the state that stands for `s[x]` to the one that stands
/// for `s[y]`.
pub open spec fn product_label(
    a: Nfa<char>,
    b: Nfa<char>,
    s: Seq<ComplexState>,
    x: int,
    y: int,
) -> Option<char> {
    if useful(a, b, s[x]) && useful(a, b, s[y]) && product_edge(a, b, s[x], s[y]) {
        Some(s[y].symbol)
    } else {
        None
    }
}

/// `r` is the product of `a` and `b` without its traps, where state `x` of
/// `r` stands for the state `s[x]` of the product: state 0 stands for the
/// pair of start states, and the other states for the other states of the
/// product that lie on a way from the pair of start states to an accepting
/// state, each for one.
pub open spec fn is_product_of(a: Nfa<char>, b: Nfa<char>, r: Nfa<char>, s: Seq<ComplexState>) -> bool {
    &&& r.wf()
    &&& s.len() == r.size
    &&& s[0] == start_state()
    &&& s.no_duplicates()
    &&& forall|t: ComplexState| #[trigger] useful(a, b, t) ==> s.contains(t)
    &&& forall|x: int| 1 <= x < s.len() ==> useful(a, b, #[trigger] s[x])
    &&& forall|x: int, y: int|
        0 <= x < r.size && 0 <= y < r.size ==> #[trigger] r.labels[x][y] == product_label(
            a,
            b,
            s,
            x,
            y,
        )
    &&& forall|x: int|
        0 <= x < r.size ==> #[trigger] r.accepts[x] == (useful(a, b, s[x]) && product_accepts(
            a,
            b,
            s[x],
        ))
}

/// `r` is the product of `a` and `b` without its traps, under some
/// numbering of its states that gives the pair of start states the
/// number 0.
pub open spec fn is_intersection(a: Nfa<char>, b: Nfa<char>, r: Nfa<char>) -> bool {
    exists|s: Seq<ComplexState>| is_product_of(a, b, r, s)
}

/// Where an accepting state is reached from a state that is reached, it is
/// reached from the pair of start states.
proof fn lemma_seed_coreachable(a: Nfa<char>, b: Nfa<char>, n: nat, t: ComplexState)
    requires
        reach_in(a, b, n, t),
        coreachable(a, b, t),
    ensures
        coreachable(a, b, start_state()),
    decreases n,
{
    if n > 0 {
        let p = choose|p: ComplexState|
            reach_in(a, b, (n - 1) as nat, p) && #[trigger] product_edge(a, b, p, t);
        lemma_step_coreachable(a, b, p, t);
        lemma_seed_coreachable(a, b, (n - 1) as nat, p);
    }
}

/// The states `kept` are those of `states` that `alive` marks, in their
/// order: `kept[k]` is `states[src[k]]`.
spec fn keeping(
    states: Seq<ComplexState>,
    alive: Seq<bool>,
    kept: Seq<ComplexState>,
    src: Seq<int>,
    upto: int,
) -> bool {
    &&& src.len() == kept.len()
    &&& forall|k: int|
        0 <= k < kept.len() ==> 0 <= #[trigger] src[k] < upto && kept[k] == states[src[k]]
            && alive[src[k]]
    &&& forall|k: int, l: int| 0 <= k < l < kept.len() ==> #[trigger] src[k] < #[trigger] src[l]
    &&& forall|y: int| 0 <= y < upto && #[trigger] alive[y] ==> src.contains(y)
}

proof fn lemma_kept(
    a: Nfa<char>,
    b: Nfa<char>,
    states: Seq<ComplexState>,
    alive: Seq<bool>,
    kept: Seq<ComplexState>,
    src: Seq<int>,
)
    requires
        explored(a, b, states),
        pruned(a, b, states, alive),
        keeping(states, alive, kept, src, states.len() as int),
    ensures
        kept.no_duplicates(),
        forall|k: int|
            0 <= k < kept.len() ==> in_product(a, b, #[trigger] kept[k]) && useful(a, b, kept[k]),
        forall|t: ComplexState| #[trigger] useful(a, b, t) ==> kept.contains(t),
        kept.len() > 0 ==> kept[0] == start_state(),
{
    assert forall|k: int, l: int| 0 <= k < kept.len() && 0 <= l < kept.len() && k != l implies kept[k]
        != kept[l] by {
        if k < l {
            assert(src[k] < src[l]);
        } else {
            assert(src[l] < src[k]);
        }
    }
    assert forall|k: int| 0 <= k < kept.len() implies in_product(a, b, #[trigger] kept[k])
        && useful(a, b, kept[k]) by {
        assert(in_product(a, b, states[src[k]]));
        assert(alive[src[k]]);
    }
    assert forall|t: ComplexState| #[trigger] useful(a, b, t) implies kept.contains(t) by {
        let n = choose|n: nat| reach_in(a, b, n, t);
        lemma_explored_complete(a, b, states, n, t);
        let y = choose|y: int| 0 <= y < states.len() && states[y] == t;
        assert(alive[y]);
        let k = choose|k: int| 0 <= k < src.len() && src[k] == y;
        assert(kept[k] == t);
    }
    if kept.len() > 0 {
        assert(useful(a, b, kept[0]));
        let n = choose|n: nat| reach_in(a, b, n, kept[0]);
        lemma_seed_coreachable(a, b, n, kept[0]);
        assert(alive[0]);
        let k = choose|k: int| 0 <= k < src.len() && src[k] == 0;
        if k > 0 {
            assert(src[0] < src[k]);
        }
    }
}

/// The intersection of `a1` and `a2`: their product without its traps.
///
/// A transition of `a1` with the label `.` goes together with every
/// transition of `a2`; any other goes together with the transitions of
/// `a2` that have the same label.
pub fn intersection(a1: &Automata, a2: &Automata) -> (automata: Automata)
    requires
        a1.wf(),
        a2.wf(),
    ensures
        automata.wf(),
        is_intersection(a1@, a2@, automata@),
{
    let ghost a = a1@;
    let ghost b = a2@;
    let states = intersection_bfs(a1, a2);
    let alive = remove_traps(a1, a2, &states);
    let n = states.len();
    let mut kept: Vec<ComplexState> = Vec::new();
    let ghost mut src: Seq<int> = Seq::empty();
    let mut x: usize = 0;
    while x < n
        invariant
            n == states.len(),
            alive.len() == n,
            x <= n,
            keeping(states@, alive@, kept@, src, x as int),
        decreases n - x,
    {
        let ghost src0 = src;
        if alive[x] {
            kept.push(states[x]);
            proof {
                src = src.push(x as int);
            }
        }
        proof {
            assert forall|y: int| 0 <= y < x + 1 && #[trigger] alive[y] implies src.contains(y) by {
                if y < x {
                    let k = choose|k: int| 0 <= k < src0.len() && src0[k] == y;
                    assert(src[k] == y);
                } else {
                    assert(src[src0.len() as int] == y);
                }
            }
        }
        x += 1;
    }
    proof {
        lemma_kept(a, b, states@, alive@, kept@, src);
    }
    if kept.len() == 0 {
        let automata = Automata::new_empty();
        proof {
            let s = seq![start_state()];
            assert(!useful(a, b, start_state())) by {
                if useful(a, b, start_state()) {
                    assert(kept@.contains(start_state()));
                }
            }
            assert forall|t: ComplexState| #[trigger] useful(a, b, t) implies s.contains(t) by {
                assert(kept@.contains(t));
            }
            assert(is_product_of(a, b, automata@, s));
        }
        return automata;
    }
    let size = kept.len();
    let mut transition_matrix: Vec<Vec<Option<char>>> = Vec::new();
    let mut start_states: Vec<bool> = Vec::new();
    let mut finite_states: Vec<bool> = Vec::new();
    let mut x: usize = 0;
    while x < size
        invariant
            a == a1@,
            b == a2@,
            a1.wf(),
            a2.wf(),
            size == kept.len(),
            x <= size,
            forall|k: int|
                0 <= k < kept.len() ==> in_product(a, b, #[trigger] kept[k]) && useful(
                    a,
                    b,
                    kept[k],
                ),
            transition_matrix.len() == x,
            start_states.len() == x,
            finite_states.len() == x,
            forall|k: int|
                0 <= k < x ==> (#[trigger] transition_matrix[k])@ == Seq::new(
                    size as nat,
                    |y: int| product_label(a, b, kept@, k, y),
                ),
            forall|k: int| 0 <= k < x ==> #[trigger] start_states[k] == (k == 0),
            forall|k: int|
                0 <= k < x ==> #[trigger] finite_states[k] == product_accepts(a, b, kept[k]),
        decreases size - x,
    {
        let from = kept[x];
        let mut row: Vec<Option<char>> = Vec::new();
        let mut y: usize = 0;
        while y < size
            invariant
                a == a1@,
                b == a2@,
                a1.wf(),
                a2.wf(),
                size == kept.len(),
                x < size,
                y <= size,
                from == kept[x as int],
                forall|k: int|
                    0 <= k < kept.len() ==> in_product(a, b, #[trigger] kept[k]) && useful(
                        a,
                        b,
                        kept[k],
                    ),
                row.len() == y,
                forall|k: int|
                    0 <= k < y ==> #[trigger] row[k] == product_label(a, b, kept@, x as int, k),
            decreases size - y,
        {
            let to = kept[y];
            let label = if has_edge(a1, a2, from, to) {
                Some(to.symbol)
            } else {
                None
            };
            row.push(label);
            y += 1;
        }
        assert(row@ =~= Seq::new(size as nat, |y: int| product_label(a, b, kept@, x as int, y)));
        transition_matrix.push(row);
        start_states.push(x == 0);
        finite_states.push(is_finite_pair(a1, a2, from));
        x += 1;
    }
    let automata = Automata { size, transition_matrix, start_states, finite_states };
    proof {
        assert(automata@.labels =~~= Seq::new(
            size as nat,
            |x: int| Seq::new(size as nat, |y: int| product_label(a, b, kept@, x, y)),
        ));
        assert(is_product_of(a, b, automata@, kept@));
    }
    automata
}


// -------------------------------------------------------------------------
// The language of the intersection
// -------------------------------------------------------------------------

/// The place of `t` in `s`.
pub open spec fn place_of(s: Seq<ComplexState>, t: ComplexState) -> int {
    choose|x: int| 0 <= x < s.len() && s[x] == t
}

/// Where the intersection is in a state after it has read `w`, the two
/// automata can be in the two parts of the state that it stands for.
proof fn lemma_product_projects(
    a: Nfa<char>,
    b: Nfa<char>,
    r: Nfa<char>,
    s: Seq<ComplexState>,
    w: Seq<char>,
    x: int,
)
    requires
        a.wf(),
        b.wf(),
        is_product_of(a, b, r, s),
        reaches(r, false, w, x),
    ensures
        0 <= x < r.size,
        reaches(a, true, w, s[x].a1_index as int),
        reaches(b, false, w, s[x].a2_index as int),
    decreases w.len(),
{
    if w.len() > 0 {
        let v = w.drop_last();
        let c = w.last();
        let p = choose|p: int| reaches(r, false, v, p) && #[trigger] step(r, false, p, c, x);
        lemma_product_projects(a, b, r, s, v, p);
        assert(r.labels[p][x] == product_label(a, b, s, p, x));
        assert(product_edge(a, b, s[p], s[x]));
        assert(step(a, true, s[p].a1_index as int, c, s[x].a1_index as int));
        assert(step(b, false, s[p].a2_index as int, c, s[x].a2_index as int));
    }
}

/// The state of the product in which the two automata are after `w`, one
/// in `qa` and the other in `qb`.
pub open spec fn joint_state(w: Seq<char>, qa: int, qb: int) -> ComplexState {
    if w.len() == 0 {
        start_state()
    } else {
        ComplexState { a1_index: qa as usize, symbol: w.last(), a2_index: qb as usize }
    }
}

/// Where the two automata can be in `qa` and `qb` after `w`, and an
/// accepting state of the product is reached from there, the intersection
/// can be in the state that stands for the pair.
proof fn lemma_product_joins(
    a: Nfa<char>,
    b: Nfa<char>,
    r: Nfa<char>,
    s: Seq<ComplexState>,
    w: Seq<char>,
    qa: int,
    qb: int,
)
    requires
        a.wf(),
        b.wf(),
        a.size <= usize::MAX,
        b.size <= usize::MAX,
        is_product_of(a, b, r, s),
        reaches(a, true, w, qa),
        reaches(b, false, w, qb),
        coreachable(a, b, joint_state(w, qa, qb)),
    ensures
        reach_in(a, b, w.len(), joint_state(w, qa, qb)),
        s.contains(joint_state(w, qa, qb)),
        reaches(r, false, w, place_of(s, joint_state(w, qa, qb))),
    decreases w.len(),
{
    let t = joint_state(w, qa, qb);
    if w.len() == 0 {
        assert(s[0] == t);
        assert(place_of(s, t) == 0);
    } else {
        let v = w.drop_last();
        let c = w.last();
        let pa = choose|pa: int| reaches(a, true, v, pa) && #[trigger] step(a, true, pa, c, qa);
        let pb = choose|pb: int| reaches(b, false, v, pb) && #[trigger] step(b, false, pb, c, qb);
        let u = joint_state(v, pa, pb);
        assert(product_edge(a, b, u, t));
        lemma_step_coreachable(a, b, u, t);
        lemma_product_joins(a, b, r, s, v, pa, pb);
        assert(reach_in(a, b, w.len(), t));
        assert(reach_in(a, b, v.len(), u));
        assert(useful(a, b, t));
        assert(useful(a, b, u));
        let x = place_of(s, t);
        let y = place_of(s, u);
        assert(r.labels[y][x] == product_label(a, b, s, y, x));
        assert(step(r, false, y, c, x));
    }
}

/// The intersection accepts a string exactly if `a` accepts it, where `.`
/// stands for any character, and `b` accepts it as it is written.
pub proof fn lemma_intersection_language(a: Nfa<char>, b: Nfa<char>, r: Nfa<char>, w: Seq<char>)
    requires
        a.wf(),
        b.wf(),
        a.size <= usize::MAX,
        b.size <= usize::MAX,
        is_intersection(a, b, r),
    ensures
        accepts(r, false, w) <==> accepts(a, true, w) && accepts(b, false, w),
{
    let s = choose|s: Seq<ComplexState>| is_product_of(a, b, r, s);
    if accepts(r, false, w) {
        let x = choose|x: int| 0 <= x < r.size && #[trigger] reaches(r, false, w, x) && r.accepts[x];
        lemma_product_projects(a, b, r, s, w, x);
        assert(product_accepts(a, b, s[x]));
        assert(reaches(a, true, w, s[x].a1_index as int));
        assert(reaches(b, false, w, s[x].a2_index as int));
    }
    if accepts(a, true, w) && accepts(b, false, w) {
        let qa = choose|qa: int| 0 <= qa < a.size && #[trigger] reaches(a, true, w, qa) && a.accepts[qa];
        let qb = choose|qb: int|
            0 <= qb < b.size && #[trigger] reaches(b, false, w, qb) && b.accepts[qb];
        let t = joint_state(w, qa, qb);
        assert(coreach_in(a, b, 0, t));
        lemma_product_joins(a, b, r, s, w, qa, qb);
        let x = place_of(s, t);
        assert(useful(a, b, t));
        assert(r.accepts[x]);
    }
}

/// No transition of the automaton has the label `.`.
pub open spec fn no_wildcard(n: Nfa<char>) -> bool {
    forall|i: int, j: int|
        0 <= i < n.size && 0 <= j < n.size ==> #[trigger] n.labels[i][j] != Some('.')
}

/// Without the label `.` it makes no difference whether `.` stands for any
/// character.
pub proof fn lemma_no_wildcard(n: Nfa<char>, w: Seq<char>, q: int)
    requires
        no_wildcard(n),
    ensures
        reaches(n, true, w, q) <==> reaches(n, false, w, q),
    decreases w.len(),
{
    if w.len() > 0 {
        let v = w.drop_last();
        let c = w.last();
        if reaches(n, true, w, q) {
            let p = choose|p: int| reaches(n, true, v, p) && #[trigger] step(n, true, p, c, q);
            lemma_no_wildcard(n, v, p);
            assert(n.labels[p][q] != Some('.'));
            assert(step(n, false, p, c, q));
        }
        if reaches(n, false, w, q) {
            let p = choose|p: int| reaches(n, false, v, p) && #[trigger] step(n, false, p, c, q);
            lemma_no_wildcard(n, v, p);
            assert(step(n, true, p, c, q));
        }
    }
}

proof fn lemma_no_wildcard_accepts(n: Nfa<char>, w: Seq<char>)
    requires
        no_wildcard(n),
    ensures
        accepts(n, true, w) <==> accepts(n, false, w),
{
    if accepts(n, true, w) {
        let q = choose|q: int| 0 <= q < n.size && #[trigger] reaches(n, true, w, q) && n.accepts[q];
        lemma_no_wildcard(n, w, q);
    }
    if accepts(n, false, w) {
        let q = choose|q: int| 0 <= q < n.size && #[trigger] reaches(n, false, w, q) && n.accepts[q];
        lemma_no_wildcard(n, w, q);
    }
}

/// The intersection with an automaton without the label `.` has none
/// either.
pub proof fn lemma_intersection_no_wildcard(a: Nfa<char>, b: Nfa<char>, r: Nfa<char>)
    requires
        is_intersection(a, b, r),
        no_wildcard(b),
    ensures
        no_wildcard(r),
{
    let s = choose|s: Seq<ComplexState>| is_product_of(a, b, r, s);
    assert forall|i: int, j: int| 0 <= i < r.size && 0 <= j < r.size implies #[trigger] r.labels[i][j]
        != Some('.') by {
        assert(r.labels[i][j] == product_label(a, b, s, i, j));
        if r.labels[i][j] is Some {
            assert(b.labels[s[i].a2_index as int][s[j].a2_index as int] != Some('.'));
        }
    }
}

/// Where the second automaton has no label `.`, the intersection accepts a
/// string exactly if both automata accept it.
pub proof fn lemma_intersection_plain(a: Nfa<char>, b: Nfa<char>, r: Nfa<char>, w: Seq<char>)
    requires
        a.wf(),
        b.wf(),
        a.size <= usize::MAX,
        b.size <= usize::MAX,
        is_intersection(a, b, r),
        no_wildcard(b),
    ensures
        accepts(r, true, w) <==> accepts(a, true, w) && accepts(b, true, w),
{
    lemma_intersection_language(a, b, r, w);
    lemma_intersection_no_wildcard(a, b, r);
    lemma_no_wildcard_accepts(r, w);
    lemma_no_wildcard_accepts(b, w);
}

/// Nothing leads back into the start state of the intersection if nothing
/// leads back into the start state of the first automaton.
pub proof fn lemma_intersection_source(a: Nfa<char>, b: Nfa<char>, r: Nfa<char>)
    requires
        a.wf(),
        b.wf(),
        a.start_is_source(),
        is_intersection(a, b, r),
    ensures
        r.start_is_source(),
{
    let s = choose|s: Seq<ComplexState>| is_product_of(a, b, r, s);
    assert forall|i: int| 0 <= i < r.size implies (#[trigger] r.labels[i])[0] is None by {
        assert(r.labels[i][0] == product_label(a, b, s, i, 0));
        if r.labels[i][0] is Some {
            assert(a.labels[s[i].a1_index as int][0] is None);
        }
    }
}

} // verus!
