//! Random strings along the ways of an automaton.
use std::collections::HashSet;
use std::collections::VecDeque;
use vstd::prelude::*;
use vstd::arithmetic::div_mod::lemma_fundamental_div_mod_converse;
use rand::rngs::ThreadRng;
use crate::fuzz::chance::below;
use crate::fuzz::chance::coin;
use crate::fuzz::chance::pick;
use crate::fuzz::chance::thread_rng;
use crate::fuzz::matrix::Matrix;
use crate::fuzz::matrix::at;
use crate::fuzz::matrix::cell;
use crate::fuzz::matrix::cells;
use crate::fuzz::matrix::dot_upto;
use crate::fuzz::matrix::product;
use crate::fuzz::matrix::rows;
use crate::fuzz::matrix::side;
use crate::fuzz::matrix::square;
use crate::ndfa::Automata;
use crate::ndfa::Nfa;
use crate::ndfa::START;

verus! {

// -------------------------------------------------------------------------
// Reachability
// -------------------------------------------------------------------------

/// There is a transition from `i` to `j`.
pub open spec fn adjacent(a: Nfa<char>, i: int, j: int) -> bool {
    0 <= i < a.size && 0 <= j < a.size && a.labels[i][j] is Some
}

/// There is a way of `len` transitions from `i` to `j`.
pub open spec fn walk(a: Nfa<char>, i: int, j: int, len: nat) -> bool
    decreases len,
{
    if len == 0 {
        false
    } else if len == 1 {
        adjacent(a, i, j)
    } else {
        exists|k: int| walk(a, i, k, (len - 1) as nat) && #[trigger] adjacent(a, k, j)
    }
}

/// There is a way of at least one and at most `n` transitions from `i` to
/// `j`.
pub open spec fn reach_within(a: Nfa<char>, i: int, j: int, n: nat) -> bool {
    exists|len: nat| 1 <= len <= n && #[trigger] walk(a, i, j, len)
}

/// 1 for true, 0 for false.
pub open spec fn bit(b: bool) -> usize {
    if b {
        1
    } else {
        0
    }
}

/// The matrix holds, at row `i` and column `j`, 1 if `f` says so and else
/// 0.
pub open spec fn marks(m: Matrix, n: nat, f: spec_fn(int, int) -> bool) -> bool {
    &&& side(m) == n
    &&& cells(m).len() == n * n
    &&& forall|i: int, j: int| 0 <= i < n && 0 <= j < n ==> #[trigger] at(m, i, j) == bit(f(i, j))
}

/// The place of row `i` and column `j` among the numbers of a matrix of
/// `n` rows.
proof fn lemma_place(n: int, i: int, j: int)
    requires
        0 <= i < n,
        0 <= j < n,
    ensures
        0 <= i * n + j < n * n,
        (i * n + j) / n == i,
        (i * n + j) % n == j,
{
    lemma_fundamental_div_mod_converse(i * n + j, n, i, j);
    assert(i * n + j < n * n) by (nonlinear_arith)
        requires
            0 <= i < n,
            0 <= j < n,
    ;
    assert(0 <= i * n) by (nonlinear_arith)
        requires
            0 <= i,
            0 <= n,
    ;
}

/// Row and column of the place `k`.
proof fn lemma_unplace(n: int, k: int)
    requires
        0 <= n,
        0 <= k < n * n,
    ensures
        0 <= k / n < n,
        0 <= k % n < n,
        (k / n) * n + k % n == k,
{
    assert(n > 0) by (nonlinear_arith)
        requires
            0 <= n,
            0 <= k < n * n,
    ;
    vstd::arithmetic::div_mod::lemma_fundamental_div_mod(k, n);
    vstd::arithmetic::div_mod::lemma_mod_bound(k, n);
    assert(0 <= k / n < n) by (nonlinear_arith)
        requires
            0 <= k < n * n,
            n > 0,
            k == n * (k / n) + k % n,
            0 <= k % n < n,
    ;
    assert((k / n) * n == n * (k / n)) by (nonlinear_arith);
}

/// The sum of products of marks counts the places at which both are set.
proof fn lemma_dot_of_marks(a: Matrix, b: Matrix, n: nat, i: int, j: int, k: int)
    requires
        0 <= i < n,
        0 <= j < n,
        0 <= k <= n,
        side(a) == n,
        side(b) == n,
        forall|x: int, y: int| 0 <= x < n && 0 <= y < n ==> 0 <= #[trigger] at(a, x, y) <= 1,
        forall|x: int, y: int| 0 <= x < n && 0 <= y < n ==> 0 <= #[trigger] at(b, x, y) <= 1,
    ensures
        0 <= dot_upto(a, b, i, j, k) <= k,
        dot_upto(a, b, i, j, k) > 0 <==> exists|x: int|
            0 <= x < k && #[trigger] at(a, i, x) == 1 && at(b, x, j) == 1,
    decreases k,
{
    if k > 0 {
        lemma_dot_of_marks(a, b, n, i, j, k - 1);
        let p = at(a, i, k - 1);
        let q = at(b, k - 1, j);
        assert(0 <= p <= 1 && 0 <= q <= 1);
        assert(p * q == if p == 1 && q == 1 {
            1int
        } else {
            0int
        }) by (nonlinear_arith)
            requires
                0 <= p <= 1,
                0 <= q <= 1,
        ;
        if dot_upto(a, b, i, j, k - 1) > 0 {
            let x = choose|x: int| 0 <= x < k - 1 && #[trigger] at(a, i, x) == 1 && at(b, x, j) == 1;
            assert(0 <= x < k && at(a, i, x) == 1 && at(b, x, j) == 1);
        }
        if exists|x: int| 0 <= x < k && #[trigger] at(a, i, x) == 1 && at(b, x, j) == 1 {
            let x = choose|x: int| 0 <= x < k && #[trigger] at(a, i, x) == 1 && at(b, x, j) == 1;
            if x < k - 1 {
                assert(0 <= x < k - 1 && at(a, i, x) == 1 && at(b, x, j) == 1);
            }
        }
    }
}

/// The matrix of `n` rows that holds 1 where `f` says so, read off the
/// numbers `v`.
proof fn lemma_marks_of_cells(m: Matrix, n: nat, f: spec_fn(int, int) -> bool)
    requires
        side(m) == n,
        cells(m).len() == n * n,
        forall|k: int| 0 <= k < n * n ==> #[trigger] cells(m)[k] == bit(f(k / (n as int), k % (n as int))),
    ensures
        marks(m, n, f),
{
    assert forall|i: int, j: int| 0 <= i < n && 0 <= j < n implies #[trigger] at(m, i, j) == bit(
        f(i, j),
    ) by {
        lemma_place(n as int, i, j);
    }
}

/// Which states are reached from which: as a matrix of marks, as the lists
/// of the states that are reached from each state, and as the sets of the
/// states from which each state is reached.
pub struct Reachability {
    pub matrix: Matrix,
    pub as_outcoming: Vec<Vec<usize>>,
    pub as_incoming: Vec<HashSet<usize>>,
}

impl Reachability {
    /// The three fields say the same of the automaton `a`: `j` is marked
    /// for `i` exactly if there is a way of at least one and at most as
    /// many transitions as `a` has states from `i` to `j`.
    pub open spec fn describes(&self, a: Nfa<char>) -> bool {
        &&& marks(self.matrix, a.size, |i: int, j: int| reach_within(a, i, j, a.size))
        &&& self.as_outcoming.len() == a.size
        &&& self.as_incoming.len() == a.size
        &&& forall|i: int, j: int|
            0 <= i < a.size && 0 <= j < a.size ==> (#[trigger] self.as_outcoming[i]@.contains(
                j as usize,
            ) <==> reach_within(a, i, j, a.size))
        &&& forall|i: int, k: int|
            0 <= i < a.size && 0 <= k < self.as_outcoming[i].len() ==> #[trigger] self.as_outcoming[i][k]
                < a.size
        &&& forall|i: int, j: int|
            0 <= i < a.size && 0 <= j < a.size ==> (#[trigger] self.as_incoming[j]@.contains(
                i as usize,
            ) <==> reach_within(a, i, j, a.size))
    }

    /// The marks of the transitions of `a`.
    fn adjacency(a: &Automata) -> (v: Vec<usize>)
        requires
            a.wf(),
            a.size * a.size <= usize::MAX,
        ensures
            v.len() == a.size * a.size,
            forall|k: int|
                0 <= k < a.size * a.size ==> #[trigger] v[k] == bit(
                    adjacent(a@, k / (a.size as int), k % (a.size as int)),
                ),
    {
        let n = a.size;
        let total = n * n;
        let mut v: Vec<usize> = Vec::new();
        let mut k: usize = 0;
        while k < total
            invariant
                a.wf(),
                n == a.size,
                total == n * n,
                k <= total,
                v.len() == k,
                forall|x: int|
                    0 <= x < k ==> #[trigger] v[x] == bit(
                        adjacent(a@, x / (n as int), x % (n as int)),
                    ),
            decreases total - k,
        {
            proof {
                lemma_unplace(n as int, k as int);
            }
            let mark: usize = if a.label(k / n, k % n).is_some() {
                1
            } else {
                0
            };
            v.push(mark);
            k += 1;
        }
        v
    }

    /// The matrix of the states that are reached from each state of `a`.
    pub fn get_matrix(a: &Automata) -> (m: Matrix)
        requires
            a.wf(),
            a.size * a.size <= usize::MAX,
        ensures
            marks(m, a.size as nat, |i: int, j: int| reach_within(a@, i, j, a.size as nat)),
    {
        let ghost nfa = a@;
        let n = a.size;
        let total = n * n;
        let adjacency_vec = Self::adjacency(a);
        let adjacency_matrix = square(n, adjacency_vec.clone());
        let mut reach: Vec<usize> = adjacency_vec.clone();
        let mut composition_matrix = square(n, adjacency_vec);
        proof {
            lemma_marks_of_cells(adjacency_matrix, n as nat, |i: int, j: int| adjacent(nfa, i, j));
            lemma_marks_of_cells(
                composition_matrix,
                n as nat,
                |i: int, j: int| walk(nfa, i, j, 1),
            );
            assert forall|k: int| 0 <= k < total implies #[trigger] reach[k] == bit(
                reach_within(nfa, k / (n as int), k % (n as int), 1),
            ) by {
                let i = k / (n as int);
                let j = k % (n as int);
                if adjacent(nfa, i, j) {
                    assert(walk(nfa, i, j, 1));
                }
            }
        }
        let mut t: usize = 1;
        while t < n
            invariant
                nfa == a@,
                a.wf(),
                n == a.size,
                total == n * n,
                1 <= t,
                t <= n || n == 0,
                marks(adjacency_matrix, n as nat, |i: int, j: int| adjacent(nfa, i, j)),
                marks(composition_matrix, n as nat, |i: int, j: int| walk(nfa, i, j, t as nat)),
                reach.len() == total,
                forall|k: int|
                    0 <= k < total ==> #[trigger] reach[k] == bit(
                        reach_within(nfa, k / (n as int), k % (n as int), t as nat),
                    ),
            decreases n - t,
        {
            proof {
                assert forall|i: int, j: int| 0 <= i < n && 0 <= j < n implies #[trigger] dot_upto(
                    composition_matrix,
                    adjacency_matrix,
                    i,
                    j,
                    n as int,
                ) <= usize::MAX by {
                    lemma_dot_of_marks(composition_matrix, adjacency_matrix, n as nat, i, j, n as int);
                }
            }
            let next = product(&composition_matrix, &adjacency_matrix);
            let mut composition: Vec<usize> = Vec::new();
            let mut k: usize = 0;
            while k < total
                invariant
                    nfa == a@,
                    a.wf(),
                    n == a.size,
                    total == n * n,
                    1 <= t < n,
                    k <= total,
                    side(next) == n,
                    marks(adjacency_matrix, n as nat, |i: int, j: int| adjacent(nfa, i, j)),
                    marks(
                        composition_matrix,
                        n as nat,
                        |i: int, j: int| walk(nfa, i, j, t as nat),
                    ),
                    forall|i: int, j: int|
                        0 <= i < n && 0 <= j < n ==> #[trigger] at(next, i, j) == dot_upto(
                            composition_matrix,
                            adjacency_matrix,
                            i,
                            j,
                            n as int,
                        ),
                    composition.len() == k,
                    forall|x: int|
                        0 <= x < k ==> #[trigger] composition[x] == bit(
                            walk(nfa, x / (n as int), x % (n as int), (t + 1) as nat),
                        ),
                    reach.len() == total,
                    forall|x: int|
                        0 <= x < k ==> #[trigger] reach[x] == bit(
                            reach_within(nfa, x / (n as int), x % (n as int), (t + 1) as nat),
                        ),
                    forall|x: int|
                        k <= x < total ==> #[trigger] reach[x] == bit(
                            reach_within(nfa, x / (n as int), x % (n as int), t as nat),
                        ),
                decreases total - k,
            {
                proof {
                    lemma_unplace(n as int, k as int);
                }
                let ghost i = k as int / (n as int);
                let ghost j = k as int % (n as int);
                let ways = cell(&next, k / n, k % n);
                let mark: usize = if ways > 0 {
                    1
                } else {
                    0
                };
                proof {
                    lemma_dot_of_marks(composition_matrix, adjacency_matrix, n as nat, i, j, n as int);
                    lemma_walk_step(nfa, composition_matrix, adjacency_matrix, i, j, t as nat);
                    lemma_reach_step(nfa, i, j, t as nat);
                }
                composition.push(mark);
                if mark == 1 {
                    reach.set(k, 1);
                }
                k += 1;
            }
            composition_matrix = square(n, composition);
            proof {
                lemma_marks_of_cells(
                    composition_matrix,
                    n as nat,
                    |i: int, j: int| walk(nfa, i, j, (t + 1) as nat),
                );
            }
            t += 1;
        }
        let m = square(n, reach);
        proof {
            if n == 0 {
                assert(false);
            }
            lemma_marks_of_cells(m, n as nat, |i: int, j: int| reach_within(nfa, i, j, n as nat));
        }
        m
    }
}

/// A way of one more transition goes over a state to which a way leads and
/// from which a transition leads on.
proof fn lemma_walk_step(a: Nfa<char>, c: Matrix, adj: Matrix, i: int, j: int, t: nat)
    requires
        a.wf(),
        1 <= t,
        0 <= i < a.size,
        0 <= j < a.size,
        marks(adj, a.size, |x: int, y: int| adjacent(a, x, y)),
        marks(c, a.size, |x: int, y: int| walk(a, x, y, t)),
    ensures
        walk(a, i, j, t + 1) <==> exists|x: int|
            0 <= x < a.size && #[trigger] at(c, i, x) == 1 && at(adj, x, j) == 1,
{
    if walk(a, i, j, t + 1) {
        let k = choose|k: int| walk(a, i, k, t) && #[trigger] adjacent(a, k, j);
        assert(at(c, i, k) == bit(walk(a, i, k, t)));
        assert(at(adj, k, j) == bit(adjacent(a, k, j)));
    }
    if exists|x: int| 0 <= x < a.size && #[trigger] at(c, i, x) == 1 && at(adj, x, j) == 1 {
        let x = choose|x: int| 0 <= x < a.size && #[trigger] at(c, i, x) == 1 && at(adj, x, j) == 1;
        assert(at(c, i, x) == bit(walk(a, i, x, t)));
        assert(at(adj, x, j) == bit(adjacent(a, x, j)));
        assert(walk(a, i, x, t) && adjacent(a, x, j));
    }
}

/// A way of at most one more transition is a way of at most as many as
/// before, or of exactly one more.
proof fn lemma_reach_step(a: Nfa<char>, i: int, j: int, t: nat)
    ensures
        reach_within(a, i, j, t + 1) <==> reach_within(a, i, j, t) || walk(a, i, j, t + 1),
{
    if reach_within(a, i, j, t + 1) {
        let len = choose|len: nat| 1 <= len <= t + 1 && #[trigger] walk(a, i, j, len);
        if len <= t {
            assert(reach_within(a, i, j, t));
        }
    }
    if reach_within(a, i, j, t) {
        let len = choose|len: nat| 1 <= len <= t && #[trigger] walk(a, i, j, len);
        assert(1 <= len <= t + 1 && walk(a, i, j, len));
    }
    if walk(a, i, j, t + 1) {
        assert(1 <= t + 1 <= t + 1 && walk(a, i, j, (t + 1) as nat));
    }
}


broadcast use vstd::std_specs::hash::group_hash_axioms;

impl Reachability {
    /// For each row of the matrix, the columns at which a number above 0
    /// stands, in rising order.
    pub fn get_outcoming(matrix: &Matrix) -> (outcoming: Vec<Vec<usize>>)
        ensures
            outcoming.len() == side(*matrix),
            forall|i: int, j: int|
                0 <= i < side(*matrix) && 0 <= j < side(*matrix) ==> (
                #[trigger] outcoming[i]@.contains(j as usize) <==> at(*matrix, i, j) > 0),
            forall|i: int, k: int|
                0 <= i < side(*matrix) && 0 <= k < outcoming[i].len() ==> #[trigger] outcoming[i][k]
                    < side(*matrix),
    {
        let n = rows(matrix);
        let mut outcoming: Vec<Vec<usize>> = Vec::new();
        let mut i: usize = 0;
        while i < n
            invariant
                n == side(*matrix),
                i <= n,
                outcoming.len() == i,
                forall|x: int, j: int|
                    0 <= x < i && 0 <= j < n ==> (#[trigger] outcoming[x]@.contains(j as usize)
                        <==> at(*matrix, x, j) > 0),
                forall|x: int, k: int|
                    0 <= x < i && 0 <= k < outcoming[x].len() ==> #[trigger] outcoming[x][k] < n,
            decreases n - i,
        {
            let mut row: Vec<usize> = Vec::new();
            let mut j: usize = 0;
            while j < n
                invariant
                    n == side(*matrix),
                    i < n,
                    j <= n,
                    forall|y: int|
                        0 <= y < n ==> (#[trigger] row@.contains(y as usize) <==> y < j && at(
                            *matrix,
                            i as int,
                            y,
                        ) > 0),
                    forall|k: int| 0 <= k < row.len() ==> #[trigger] row[k] < j,
                decreases n - j,
            {
                let ghost before = row@;
                let paths_count = cell(matrix, i, j);
                if paths_count > 0 {
                    row.push(j);
                }
                proof {
                    assert forall|y: int| 0 <= y < n implies (#[trigger] row@.contains(y as usize)
                        <==> y < j + 1 && at(*matrix, i as int, y) > 0) by {
                        if before.contains(y as usize) {
                            let k = choose|k: int| 0 <= k < before.len() && before[k] == y as usize;
                            assert(row@[k] == y as usize);
                        }
                        if row@.contains(y as usize) {
                            let k = choose|k: int| 0 <= k < row@.len() && row@[k] == y as usize;
                            if k < before.len() {
                                assert(before[k] == y as usize);
                            }
                        }
                        if y == j && paths_count > 0 {
                            assert(row@[before.len() as int] == j);
                        }
                    }
                }
                j += 1;
            }
            outcoming.push(row);
            i += 1;
        }
        outcoming
    }

    /// For each state, the set of the states in whose list it stands.
    pub fn get_incoming(outcoming: &Vec<Vec<usize>>) -> (incoming: Vec<HashSet<usize>>)
        requires
            forall|i: int, k: int|
                0 <= i < outcoming.len() && 0 <= k < outcoming[i].len() ==> #[trigger] outcoming[i][k]
                    < outcoming.len(),
        ensures
            incoming.len() == outcoming.len(),
            forall|i: int, j: int|
                0 <= i < outcoming.len() && 0 <= j < outcoming.len() ==> (
                #[trigger] incoming[j]@.contains(i as usize) <==> outcoming[i]@.contains(j as usize)),
    {
        let n = outcoming.len();
        let mut incoming: Vec<HashSet<usize>> = Vec::new();
        let mut j: usize = 0;
        while j < n
            invariant
                j <= n,
                incoming.len() == j,
                forall|y: int| 0 <= y < j ==> (#[trigger] incoming[y])@ == Set::<usize>::empty(),
            decreases n - j,
        {
            incoming.push(HashSet::new());
            j += 1;
        }
        let mut i: usize = 0;
        while i < n
            invariant
                n == outcoming.len(),
                i <= n,
                incoming.len() == n,
                forall|x: int, k: int|
                    0 <= x < n && 0 <= k < outcoming[x].len() ==> #[trigger] outcoming[x][k] < n,
                forall|x: int, y: int|
                    0 <= x < n && 0 <= y < n ==> (#[trigger] incoming[y]@.contains(x as usize)
                        <==> x < i && outcoming[x]@.contains(y as usize)),
            decreases n - i,
        {
            let row = &outcoming[i];
            let mut k: usize = 0;
            while k < row.len()
                invariant
                    n == outcoming.len(),
                    i < n,
                    row == &outcoming[i as int],
                    k <= row.len(),
                    incoming.len() == n,
                    forall|z: int| 0 <= z < row.len() ==> #[trigger] row[z] < n,
                    forall|x: int, y: int|
                        0 <= x < n && 0 <= y < n ==> (#[trigger] incoming[y]@.contains(x as usize)
                            <==> (x < i && outcoming[x]@.contains(y as usize)) || (x == i
                            && row@.take(k as int).contains(y as usize))),
                decreases row.len() - k,
            {
                let target = row[k];
                let ghost before = incoming@;
                incoming[target].insert(i);
                proof {
                    assert forall|x: int, y: int| 0 <= x < n && 0 <= y < n implies (
                    #[trigger] incoming[y]@.contains(x as usize) <==> (x < i
                        && outcoming[x]@.contains(y as usize)) || (x == i && row@.take(
                        k + 1,
                    ).contains(y as usize))) by {
                        assert(before[y]@.contains(x as usize) <==> (x < i
                            && outcoming[x]@.contains(y as usize)) || (x == i && row@.take(
                            k as int,
                        ).contains(y as usize)));
                        crate::ndfa::construction::lemma_contains_add(
                            row@.take(k as int),
                            seq![target],
                            y as usize,
                        );
                        assert(row@.take(k + 1) =~= row@.take(k as int) + seq![target]);
                        if seq![target].contains(y as usize) {
                            let z = choose|z: int|
                                0 <= z < seq![target].len() && seq![target][z] == y as usize;
                            assert(target == y);
                        }
                        if target == y {
                            assert(seq![target][0] == y as usize);
                        }
                    }
                }
                k += 1;
            }
            proof {
                assert(row@.take(k as int) =~= row@);
            }
            i += 1;
        }
        incoming
    }

    /// What is reached from what in `a`.
    pub fn from_automata(a: &Automata) -> (reachability: Self)
        requires
            a.wf(),
            a.size * a.size <= usize::MAX,
        ensures
            reachability.describes(a@),
    {
        let matrix = Self::get_matrix(a);
        let as_outcoming = Self::get_outcoming(&matrix);
        let as_incoming = Self::get_incoming(&as_outcoming);
        proof {
            assert forall|i: int, j: int| 0 <= i < a.size && 0 <= j < a.size implies (
            #[trigger] as_outcoming[i]@.contains(j as usize) <==> reach_within(
                a@,
                i,
                j,
                a.size as nat,
            )) by {
                assert(at(matrix, i, j) == bit(reach_within(a@, i, j, a.size as nat)));
            }
        }
        Self { matrix, as_outcoming, as_incoming }
    }
}


// -------------------------------------------------------------------------
// Walking the automaton
// -------------------------------------------------------------------------

/// There is a transition from `i` to `j` with the label `c`.
pub open spec fn labelled(a: Nfa<char>, i: int, c: char, j: int) -> bool {
    0 <= i < a.size && 0 <= j < a.size && a.labels[i][j] == Some(c)
}

/// The labels of a way from `p` to `q` spell `w`.
pub open spec fn leads(a: Nfa<char>, p: int, w: Seq<char>, q: int) -> bool
    decreases w.len(),
{
    if w.len() == 0 {
        p == q && 0 <= p < a.size
    } else {
        exists|mid: int| leads(a, p, w.drop_last(), mid) && #[trigger] labelled(a, mid, w.last(), q)
    }
}

/// A transition into `i` is a step towards `to`: `i` is `to`, or `to` is
/// reached from `i`.
pub open spec fn towards(a: Nfa<char>, i: int, to: int) -> bool {
    i == to || reach_within(a, i, to, a.size)
}

/// The words that continue `prefix` from `state` by one step towards `to`,
/// each with the state that it leads to, for the states below `upto` in
/// rising order.
pub open spec fn step_words(
    a: Nfa<char>,
    prefix: Seq<char>,
    state: int,
    to: int,
    upto: int,
) -> Seq<(Seq<char>, int)>
    decreases upto,
{
    if upto <= 0 {
        Seq::empty()
    } else {
        let rest = step_words(a, prefix, state, to, upto - 1);
        if towards(a, upto - 1, to) && a.labels[state][upto - 1] is Some {
            rest.push((prefix.push(a.labels[state][upto - 1]->0), upto - 1))
        } else {
            rest
        }
    }
}

/// The words of a queue with the states that they lead to.
pub open spec fn queued(q: Seq<(Vec<char>, usize)>) -> Seq<(Seq<char>, int)> {
    Seq::new(q.len(), |k: int| (q[k].0@, q[k].1 as int))
}

/// The texts of words.
pub open spec fn word_texts(words: Seq<Vec<char>>) -> Seq<Seq<char>> {
    Seq::new(words.len(), |k: int| words[k]@)
}

/// The words one after the other.
pub open spec fn joined_text(words: Seq<Seq<char>>) -> Seq<char>
    decreases words.len(),
{
    if words.len() == 0 {
        Seq::empty()
    } else {
        joined_text(words.drop_last()) + words.last()
    }
}

/// A step of a word that leads from `from` to `state` leads from `from`
/// on.
pub proof fn lemma_step_words_lead(
    a: Nfa<char>,
    from: int,
    prefix: Seq<char>,
    state: int,
    to: int,
    upto: int,
)
    requires
        a.wf(),
        leads(a, from, prefix, state),
        0 <= state < a.size,
        0 <= upto <= a.size,
    ensures
        forall|k: int|
            0 <= k < step_words(a, prefix, state, to, upto).len() ==> leads(
                a,
                from,
                (#[trigger] step_words(a, prefix, state, to, upto)[k]).0,
                step_words(a, prefix, state, to, upto)[k].1,
            ),
    decreases upto,
{
    if upto > 0 {
        lemma_step_words_lead(a, from, prefix, state, to, upto - 1);
        let rest = step_words(a, prefix, state, to, upto - 1);
        if towards(a, upto - 1, to) && a.labels[state][upto - 1] is Some {
            let c = a.labels[state][upto - 1]->0;
            let w = prefix.push(c);
            assert(w.drop_last() =~= prefix);
            assert(labelled(a, state, w.last(), upto - 1));
            assert(leads(a, from, w, upto - 1));
        }
    }
}

/// What makes strings along the ways of an automaton.
pub struct StringGenerator<'a> {
    pub automata: &'a Automata,
    pub reachability: Reachability,
    pub rng: ThreadRng,
}

impl<'a> StringGenerator<'a> {
    /// The automaton is well formed and the reachability is its own.
    pub open spec fn wf(&self) -> bool {
        self.automata.wf() && self.reachability.describes(self.automata@)
    }

    /// A generator for the automaton `automata`.
    pub fn from_automata(automata: &'a Automata) -> (generator: Self)
        requires
            automata.wf(),
            automata.size * automata.size <= usize::MAX,
        ensures
            generator.wf(),
            generator.automata == automata,
    {
        Self { automata, reachability: Reachability::from_automata(automata), rng: thread_rng() }
    }

    /// Whether a random walk that stands at `current` ends there, where
    /// `heads` is what the coin showed: it ends if nothing is reached from
    /// `current`, or if `current` accepts and the coin showed heads.
    pub fn chain_stops(&self, current: usize, heads: bool) -> (stops: bool)
        requires
            self.wf(),
            current < self.automata.size,
        ensures
            stops == (self.reachability.as_outcoming[current as int].len() == 0 || (
            self.automata@.accepts[current as int] && heads)),
    {
        self.reachability.as_outcoming[current].len() == 0 || (self.automata.is_finite_state(
            current,
        ) && heads)
    }

    /// The next state of a random walk that stands at `current`: none if
    /// nothing is reached from `current`, or, by a chance of 1 in 5, if
    /// `current` accepts; else one of the states that are reached from
    /// `current`.
    pub fn chain_step(&mut self, current: usize) -> (next: Option<usize>)
        requires
            old(self).wf(),
            current < old(self).automata.size,
        ensures
            final(self).wf(),
            final(self).automata == old(self).automata,
            final(self).reachability == old(self).reachability,
            next matches Some(s) ==> s < old(self).automata.size && reach_within(
                old(self).automata@,
                current as int,
                s as int,
                old(self).automata.size as nat,
            ),
            next is None ==> old(self).automata@.accepts[current as int] || old(
                self,
            ).reachability.as_outcoming[current as int].len() == 0,
            old(self).reachability.as_outcoming[current as int].len() == 0 ==> next is None,
    {
        let ghost a = self.automata@;
        let heads = coin(&mut self.rng, 1, 5);
        if self.chain_stops(current, heads) {
            return None;
        }
        let next = pick(&mut self.rng, &self.reachability.as_outcoming[current]);
        proof {
            let s = next->0;
            let k = choose|k: int|
                0 <= k < self.reachability.as_outcoming[current as int].len()
                    && self.reachability.as_outcoming[current as int][k] == s;
            assert(self.reachability.as_outcoming[current as int][k] < a.size);
            assert(self.reachability.as_outcoming[current as int]@.contains((s as int) as usize));
        }
        next
    }

    /// The chain of states of a walk that ended in `current`: the chain of
    /// the empty string, twice the start state, if it ended in the start
    /// state.
    pub fn close_chain(states: Vec<usize>, current: usize) -> (chain: Vec<usize>)
        ensures
            chain@ == if current == START {
                seq![START, START]
            } else {
                states@
            },
    {
        if current == START {
            let mut chain: Vec<usize> = Vec::new();
            chain.push(START);
            chain.push(START);
            assert(chain@ =~= seq![START, START]);
            chain
        } else {
            states
        }
    }

    /// One step of the search for a word from the state where the search
    /// began to `to`, where `heads` is what the coin showed. The first
    /// word of the queue is taken out. It is the word that was looked for
    /// if it cannot go on towards `to`, or if it leads to `to`, the coin
    /// showed heads, and it is not empty. Else every word that continues
    /// it by one step towards `to` is put at the end of the queue.
    pub fn word_step_on(&self, queue: &mut VecDeque<(Vec<char>, usize)>, to: usize, heads: bool) -> (word:
        Option<Vec<char>>)
        requires
            self.wf(),
            to < self.automata.size,
            old(queue).len() > 0,
            forall|k: int| 0 <= k < old(queue).len() ==> (#[trigger] old(queue)@[k]).1
                < self.automata.size,
        ensures
            forall|k: int| 0 <= k < final(queue).len() ==> (#[trigger] final(queue)@[k]).1
                < self.automata.size,
            word is Some <==> step_words(
                self.automata@,
                old(queue)@[0].0@,
                old(queue)@[0].1 as int,
                to as int,
                self.automata.size as int,
            ).len() == 0 || (old(queue)@[0].1 == to && heads && old(queue)@[0].0.len() > 0),
            match word {
                Some(w) => {
                    &&& w@ == old(queue)@[0].0@
                    &&& final(queue)@ == old(queue)@.drop_first()
                },
                None => {
                    &&& queued(final(queue)@) == queued(old(queue)@.drop_first()) + step_words(
                        self.automata@,
                        old(queue)@[0].0@,
                        old(queue)@[0].1 as int,
                        to as int,
                        self.automata.size as int,
                    )
                    &&& final(queue).len() > 0
                },
            },
    {
        let ghost a = self.automata@;
        let n = self.automata.size;
        let (word_prefix, state) = match queue.pop_front() {
            Some(front) => front,
            None => {
                proof {
                    assert(false);
                }
                (Vec::new(), 0)
            },
        };
        let ghost rest = queue@;
        let mut outcoming: Vec<(Vec<char>, usize)> = Vec::new();
        let mut i: usize = 0;
        while i < n
            invariant
                a == self.automata@,
                self.wf(),
                n == self.automata.size,
                state < n,
                to < n,
                i <= n,
                queued(outcoming@) == step_words(a, word_prefix@, state as int, to as int, i as int),
                forall|k: int| 0 <= k < outcoming.len() ==> (#[trigger] outcoming[k]).1 < n,
            decreases n - i,
        {
            let ghost before = outcoming@;
            let near = self.reachability.as_incoming[to].contains(&i) || to == i;
            proof {
                assert(self.reachability.as_incoming[to as int]@.contains((i as int) as usize)
                    <==> reach_within(a, i as int, to as int, a.size));
                assert(near == towards(a, i as int, to as int));
            }
            if near {
                match self.automata.label(state, i) {
                    Some(letter) => {
                        let mut word = crate::text::copy_range(&word_prefix, 0, word_prefix.len());
                        assert(word_prefix@.subrange(0, word_prefix.len() as int) =~= word_prefix@);
                        word.push(letter);
                        outcoming.push((word, i));
                        proof {
                            assert(queued(outcoming@) =~= queued(before).push(
                                (word_prefix@.push(letter), i as int),
                            ));
                        }
                    },
                    None => {},
                }
            }
            i += 1;
        }
        if outcoming.len() == 0 || (state == to && heads && word_prefix.len() > 0) {
            return Some(word_prefix);
        }
        let mut k: usize = 0;
        let ghost found = outcoming@;
        let mut outcoming = outcoming;
        while outcoming.len() > 0
            invariant
                queue@ + outcoming@ == rest + found,
                forall|k: int| 0 <= k < outcoming.len() ==> (#[trigger] outcoming[k]).1 < n,
                forall|k: int| 0 <= k < queue.len() ==> (#[trigger] queue@[k]).1 < n,
            decreases outcoming.len(),
        {
            let ghost q0 = queue@;
            let ghost o0 = outcoming@;
            let head = outcoming.remove(0);
            queue.push_back(head);
            proof {
                assert(queue@ + outcoming@ =~= q0 + o0);
            }
        }
        proof {
            assert(queue@ =~= rest + found);
            assert(queued(queue@) =~= queued(rest) + queued(found));
            assert(rest =~= old(queue)@.drop_first());
        }
        None
    }

    /// One step of the search for a word from the state where the search
    /// began to `to`. The first word of the queue is taken out. It is the
    /// word that was looked for if it cannot go on towards `to`, or if it
    /// leads to `to`, a coin says so by a chance of 2 in 5, and it is not
    /// empty. Else every word that continues it by one step towards `to`
    /// is put at the end of the queue.
    pub fn word_step(&mut self, queue: &mut VecDeque<(Vec<char>, usize)>, to: usize) -> (word:
        Option<Vec<char>>)
        requires
            old(self).wf(),
            to < old(self).automata.size,
            old(queue).len() > 0,
            forall|k: int| 0 <= k < old(queue).len() ==> (#[trigger] old(queue)@[k]).1 < old(
                self,
            ).automata.size,
        ensures
            final(self).wf(),
            final(self).automata == old(self).automata,
            final(self).reachability == old(self).reachability,
            forall|k: int| 0 <= k < final(queue).len() ==> (#[trigger] final(queue)@[k]).1 < old(
                self,
            ).automata.size,
            match word {
                Some(w) => {
                    &&& w@ == old(queue)@[0].0@
                    &&& final(queue)@ == old(queue)@.drop_first()
                    &&& step_words(
                        old(self).automata@,
                        w@,
                        old(queue)@[0].1 as int,
                        to as int,
                        old(self).automata.size as int,
                    ).len() == 0 || (old(queue)@[0].1 == to && w.len() > 0)
                },
                None => {
                    &&& queued(final(queue)@) == queued(old(queue)@.drop_first()) + step_words(
                        old(self).automata@,
                        old(queue)@[0].0@,
                        old(queue)@[0].1 as int,
                        to as int,
                        old(self).automata.size as int,
                    )
                    &&& step_words(
                        old(self).automata@,
                        old(queue)@[0].0@,
                        old(queue)@[0].1 as int,
                        to as int,
                        old(self).automata.size as int,
                    ).len() > 0
                    &&& final(queue).len() > 0
                },
            },
    {
        let heads = coin(&mut self.rng, 2, 5);
        self.word_step_on(queue, to, heads)
    }
}


// -------------------------------------------------------------------------
// Mutations
// -------------------------------------------------------------------------

/// `s` with the elements at `i` and `j` exchanged.
pub open spec fn swapped<T>(s: Seq<T>, i: int, j: int) -> Seq<T> {
    s.update(i, s[j]).update(j, s[i])
}

/// The number of the kinds of mutation.
pub const MUTATIONS_COUNT: usize = 6;

/// Two of the words were exchanged, if there were two.
pub open spec fn words_swapped(before: Seq<Vec<char>>, after: Seq<Vec<char>>) -> bool {
    if before.len() <= 1 {
        after == before
    } else {
        exists|i: int, j: int|
            0 <= i < before.len() && 0 <= j < before.len() && after == #[trigger] swapped(
                before,
                i,
                j,
            )
    }
}

/// Two letters of one of the words were exchanged, if it had two.
pub open spec fn letters_swapped(before: Seq<Vec<char>>, after: Seq<Vec<char>>) -> bool {
    if before.len() == 0 {
        after == before
    } else {
        exists|i: int, j: int, k: int| #[trigger] letters_swapped_at(before, after, i, j, k)
    }
}

/// The letters `j` and `k` of the word `i` were exchanged, if it had two
/// letters.
pub open spec fn letters_swapped_at(
    before: Seq<Vec<char>>,
    after: Seq<Vec<char>>,
    i: int,
    j: int,
    k: int,
) -> bool {
    0 <= i < before.len() && word_texts(after) == word_texts(before).update(
        i,
        if before[i].len() <= 1 {
            before[i]@
        } else {
            swapped(before[i]@, j, k)
        },
    ) && (before[i].len() > 1 ==> 0 <= j < before[i].len() && 0 <= k < before[i].len())
}

/// One of the words was doubled, if there was one.
pub open spec fn word_doubled(before: Seq<Vec<char>>, after: Seq<Vec<char>>) -> bool {
    if before.len() == 0 {
        after == before
    } else {
        exists|i: int|
            0 <= i < before.len() && word_texts(after) == #[trigger] word_texts(before).insert(
                i,
                before[i]@,
            )
    }
}

/// One letter of one of the words was doubled, if it had one.
pub open spec fn letter_doubled(before: Seq<Vec<char>>, after: Seq<Vec<char>>) -> bool {
    if before.len() == 0 {
        after == before
    } else {
        exists|i: int, j: int| #[trigger] letter_doubled_at(before, after, i, j)
    }
}

/// The letter `j` of the word `i` was doubled, if it had a letter.
pub open spec fn letter_doubled_at(before: Seq<Vec<char>>, after: Seq<Vec<char>>, i: int, j: int) -> bool {
    0 <= i < before.len() && word_texts(after) == word_texts(before).update(
        i,
        if before[i].len() == 0 {
            before[i]@
        } else {
            before[i]@.insert(j, before[i]@[j])
        },
    ) && (before[i].len() > 0 ==> 0 <= j < before[i].len())
}

/// One of the words was taken out, if there was one.
pub open spec fn word_removed(before: Seq<Vec<char>>, after: Seq<Vec<char>>) -> bool {
    if before.len() == 0 {
        after == before
    } else {
        exists|i: int| 0 <= i < before.len() && after == #[trigger] before.remove(i)
    }
}

/// One letter of one of the words was taken out, if it had one.
pub open spec fn letter_removed(before: Seq<Vec<char>>, after: Seq<Vec<char>>) -> bool {
    if before.len() == 0 {
        after == before
    } else {
        exists|i: int, j: int| #[trigger] letter_removed_at(before, after, i, j)
    }
}

/// The letter `j` of the word `i` was taken out, if it had a letter.
pub open spec fn letter_removed_at(before: Seq<Vec<char>>, after: Seq<Vec<char>>, i: int, j: int) -> bool {
    0 <= i < before.len() && word_texts(after) == word_texts(before).update(
        i,
        if before[i].len() == 0 {
            before[i]@
        } else {
            before[i]@.remove(j)
        },
    ) && (before[i].len() > 0 ==> 0 <= j < before[i].len())
}

/// One of the six mutations was applied.
pub open spec fn mutated_once(before: Seq<Vec<char>>, after: Seq<Vec<char>>) -> bool {
    ||| words_swapped(before, after)
    ||| letters_swapped(before, after)
    ||| word_doubled(before, after)
    ||| letter_doubled(before, after)
    ||| word_removed(before, after)
    ||| letter_removed(before, after)
}

/// The mutation of the kind `kind` was applied.
pub open spec fn mutation(kind: int, before: Seq<Vec<char>>, after: Seq<Vec<char>>) -> bool {
    if kind == 0 {
        words_swapped(before, after)
    } else if kind == 1 {
        letters_swapped(before, after)
    } else if kind == 2 {
        word_doubled(before, after)
    } else if kind == 3 {
        letter_doubled(before, after)
    } else if kind == 4 {
        word_removed(before, after)
    } else {
        letter_removed(before, after)
    }
}

/// `after` is what `n` mutations, one after the other, made of `before`.
pub open spec fn mutated_times(before: Seq<Vec<char>>, after: Seq<Vec<char>>, n: nat) -> bool
    decreases n,
{
    if n == 0 {
        after == before
    } else {
        exists|mid: Seq<Vec<char>>|
            mutated_times(before, mid, (n - 1) as nat) && #[trigger] mutated_once(mid, after)
    }
}

/// `after` is what mutations, one after the other, made of `before`.
pub open spec fn mutated(before: Seq<Vec<char>>, after: Seq<Vec<char>>) -> bool {
    exists|n: nat| mutated_times(before, after, n)
}

impl<'a> StringGenerator<'a> {
    /// The index of one of the words.
    pub fn choose_word(&mut self, words: &Vec<Vec<char>>) -> (i: usize)
        requires
            words.len() > 0,
        ensures
            i < words.len(),
            final(self).automata == old(self).automata,
            final(self).reachability == old(self).reachability,
    {
        below(&mut self.rng, words.len())
    }

    /// The index of one of the letters of the word.
    pub fn choose_letter(&mut self, word: &Vec<char>) -> (j: usize)
        requires
            word.len() > 0,
        ensures
            j < word.len(),
            final(self).automata == old(self).automata,
            final(self).reachability == old(self).reachability,
    {
        below(&mut self.rng, word.len())
    }

    /// Exchanges two of the words, if there are two.
    pub fn swap_words(&mut self, words: &mut Vec<Vec<char>>)
        ensures
            final(self).automata == old(self).automata,
            final(self).reachability == old(self).reachability,
            words_swapped(old(words)@, final(words)@),
    {
        if words.len() <= 1 {
            return ;
        }
        let i = self.choose_word(words);
        let j = self.choose_word(words);
        if i != j {
            let lo = if i < j {
                i
            } else {
                j
            };
            let hi = if i < j {
                j
            } else {
                i
            };
            let upper = words.remove(hi);
            let lower = words.remove(lo);
            words.insert(lo, upper);
            words.insert(hi, lower);
        }
        proof {
            assert(words@ =~= swapped(old(words)@, i as int, j as int));
        }
    }

    /// Exchanges two letters of one of the words, if it has two.
    pub fn swap_letters(&mut self, words: &mut Vec<Vec<char>>)
        ensures
            final(self).automata == old(self).automata,
            final(self).reachability == old(self).reachability,
            letters_swapped(old(words)@, final(words)@),
    {
        if words.len() == 0 {
            return ;
        }
        let i = self.choose_word(words);
        if words[i].len() <= 1 {
            proof {
                assert(word_texts(words@) =~= word_texts(old(words)@).update(
                    i as int,
                    old(words)[i as int]@,
                ));
                assert(letters_swapped_at(old(words)@, words@, i as int, 0, 0));
            }
            return ;
        }
        let j = self.choose_letter(&words[i]);
        let k = self.choose_letter(&words[i]);
        let first = words[i][j];
        let second = words[i][k];
        words[i][j] = second;
        words[i][k] = first;
        proof {
            assert(words[i as int]@ =~= swapped(old(words)[i as int]@, j as int, k as int));
            assert(word_texts(words@) =~= word_texts(old(words)@).update(
                i as int,
                swapped(old(words)[i as int]@, j as int, k as int),
            ));
            assert(letters_swapped_at(old(words)@, words@, i as int, j as int, k as int));
        }
    }

    /// Doubles one of the words, if there is one.
    pub fn duplicate_word(&mut self, words: &mut Vec<Vec<char>>)
        ensures
            final(self).automata == old(self).automata,
            final(self).reachability == old(self).reachability,
            word_doubled(old(words)@, final(words)@),
    {
        if words.len() == 0 {
            return ;
        }
        let i = self.choose_word(words);
        let copy = crate::text::copy_range(&words[i], 0, words[i].len());
        words.insert(i, copy);
        proof {
            assert(old(words)[i as int]@.subrange(0, old(words)[i as int].len() as int)
                =~= old(words)[i as int]@);
            assert(word_texts(words@) =~= word_texts(old(words)@).insert(
                i as int,
                old(words)[i as int]@,
            ));
        }
    }

    /// Doubles one letter of one of the words, if it has one.
    pub fn duplicate_letter(&mut self, words: &mut Vec<Vec<char>>)
        ensures
            final(self).automata == old(self).automata,
            final(self).reachability == old(self).reachability,
            letter_doubled(old(words)@, final(words)@),
    {
        if words.len() == 0 {
            return ;
        }
        let i = self.choose_word(words);
        if words[i].len() == 0 {
            proof {
                assert(word_texts(words@) =~= word_texts(old(words)@).update(
                    i as int,
                    old(words)[i as int]@,
                ));
                assert(letter_doubled_at(old(words)@, words@, i as int, 0));
            }
            return ;
        }
        let j = self.choose_letter(&words[i]);
        let letter = words[i][j];
        words[i].insert(j, letter);
        proof {
            assert(word_texts(words@) =~= word_texts(old(words)@).update(
                i as int,
                old(words)[i as int]@.insert(j as int, old(words)[i as int]@[j as int]),
            ));
            assert(letter_doubled_at(old(words)@, words@, i as int, j as int));
        }
    }

    /// Takes one of the words out, if there is one.
    pub fn remove_word(&mut self, words: &mut Vec<Vec<char>>)
        ensures
            final(self).automata == old(self).automata,
            final(self).reachability == old(self).reachability,
            word_removed(old(words)@, final(words)@),
    {
        if words.len() == 0 {
            return ;
        }
        let i = self.choose_word(words);
        words.remove(i);
    }

    /// Takes one letter out of one of the words, if it has one.
    pub fn remove_letter(&mut self, words: &mut Vec<Vec<char>>)
        ensures
            final(self).automata == old(self).automata,
            final(self).reachability == old(self).reachability,
            letter_removed(old(words)@, final(words)@),
    {
        if words.len() == 0 {
            return ;
        }
        let i = self.choose_word(words);
        if words[i].len() == 0 {
            proof {
                assert(word_texts(words@) =~= word_texts(old(words)@).update(
                    i as int,
                    old(words)[i as int]@,
                ));
                assert(letter_removed_at(old(words)@, words@, i as int, 0));
            }
            return ;
        }
        let j = self.choose_letter(&words[i]);
        words[i].remove(j);
        proof {
            assert(word_texts(words@) =~= word_texts(old(words)@).update(
                i as int,
                old(words)[i as int]@.remove(j as int),
            ));
            assert(letter_removed_at(old(words)@, words@, i as int, j as int));
        }
    }

    /// Applies the mutation of the kind `kind`: 0 exchanges two words, 1
    /// exchanges two letters of a word, 2 doubles a word, 3 doubles a
    /// letter, 4 takes a word out, and any other kind takes a letter out.
    pub fn mutate_as(&mut self, words: &mut Vec<Vec<char>>, kind: usize)
        ensures
            final(self).automata == old(self).automata,
            final(self).reachability == old(self).reachability,
            mutation(kind as int, old(words)@, final(words)@),
    {
        if kind == 0 {
            self.swap_words(words);
        } else if kind == 1 {
            self.swap_letters(words);
        } else if kind == 2 {
            self.duplicate_word(words);
        } else if kind == 3 {
            self.duplicate_letter(words);
        } else if kind == 4 {
            self.remove_word(words);
        } else {
            self.remove_letter(words);
        }
    }

    /// By a chance of 4 in 5, applies one kind of mutation, chosen at
    /// random, and says that it did.
    pub fn mutate_step(&mut self, words: &mut Vec<Vec<char>>) -> (mutated: bool)
        ensures
            final(self).automata == old(self).automata,
            final(self).reachability == old(self).reachability,
            !mutated ==> final(words)@ == old(words)@,
            mutated ==> mutated_once(old(words)@, final(words)@),
    {
        if !coin(&mut self.rng, 4, 5) {
            return false;
        }
        let kind = below(&mut self.rng, MUTATIONS_COUNT);
        self.mutate_as(words, kind);
        true
    }

    /// The words one after the other.
    pub fn join_words(&self, words: &Vec<Vec<char>>) -> (result: String)
        ensures
            result@ == joined_text(word_texts(words@)),
    {
        let mut result = String::new();
        let mut i: usize = 0;
        while i < words.len()
            invariant
                i <= words.len(),
                result@ == joined_text(word_texts(words@).take(i as int)),
            decreases words.len() - i,
        {
            let word = crate::text::string_of(&words[i]);
            result.append(word.as_str());
            proof {
                let t = word_texts(words@);
                assert(t.take(i + 1).drop_last() =~= t.take(i as int));
            }
            i += 1;
        }
        proof {
            assert(word_texts(words@).take(i as int) =~= word_texts(words@));
        }
        result
    }
}

// -------------------------------------------------------------------------
// Whole walks
// -------------------------------------------------------------------------

/// The number of steps after which a random walk or a run of mutations
/// ends whatever the coin shows.
pub const WALK_LIMIT: usize = usize::MAX;

/// `states` is a chain of states of a walk: it begins with the start
/// state, has a second state, and each state is the next one or leads
/// towards it.
pub open spec fn chained(a: Nfa<char>, states: Seq<usize>) -> bool {
    &&& states.len() >= 2
    &&& states[0] == START
    &&& forall|i: int| 0 <= i < states.len() ==> #[trigger] states[i] < a.size
    &&& forall|i: int|
        0 <= i < states.len() - 1 ==> towards(a, #[trigger] states[i] as int, states[i + 1] as int)
}

/// Each of `words` spells a way from one state of the chain to the next.
pub open spec fn walked(a: Nfa<char>, states: Seq<usize>, words: Seq<Seq<char>>) -> bool {
    &&& words.len() == states.len() - 1
    &&& forall|i: int|
        0 <= i < words.len() ==> leads(
            a,
            states[i] as int,
            #[trigger] words[i],
            states[i + 1] as int,
        )
}

/// Every word of the queue spells a way from `from` to its state, and its
/// state is `to` or leads towards it.
pub open spec fn on_the_way(a: Nfa<char>, from: int, to: int, q: Seq<(Seq<char>, int)>) -> bool {
    forall|k: int|
        0 <= k < q.len() ==> leads(a, from, (#[trigger] q[k]).0, q[k].1) && towards(a, q[k].1, to)
            && 0 <= q[k].1 < a.size
}

/// A way begins with a transition.
proof fn lemma_walk_first(a: Nfa<char>, i: int, j: int, len: nat) -> (m: int)
    requires
        len >= 1,
        walk(a, i, j, len),
    ensures
        adjacent(a, i, m),
        len == 1 ==> m == j,
        len > 1 ==> walk(a, m, j, (len - 1) as nat),
    decreases len,
{
    if len == 1 {
        j
    } else {
        let k = choose|k: int| walk(a, i, k, (len - 1) as nat) && #[trigger] adjacent(a, k, j);
        let m = lemma_walk_first(a, i, k, (len - 1) as nat);
        if len - 1 > 1 {
            assert(walk(a, m, k, (len - 2) as nat) && adjacent(a, k, j));
        }
        m
    }
}

/// Where a state from which a transition leads out is a step towards
/// `to`, there is a word that continues by one step.
proof fn lemma_step_words_some(
    a: Nfa<char>,
    prefix: Seq<char>,
    state: int,
    to: int,
    upto: int,
    m: int,
)
    requires
        0 <= m < upto,
        towards(a, m, to),
        a.labels[state][m] is Some,
    ensures
        step_words(a, prefix, state, to, upto).len() > 0,
    decreases upto,
{
    if m < upto - 1 {
        lemma_step_words_some(a, prefix, state, to, upto - 1, m);
    }
}

/// A state that leads towards `to` and from which no word continues
/// towards `to` is `to`.
proof fn lemma_dead_end(a: Nfa<char>, prefix: Seq<char>, state: int, to: int)
    requires
        a.wf(),
        0 <= state < a.size,
        0 <= to < a.size,
        towards(a, state, to),
        step_words(a, prefix, state, to, a.size as int).len() == 0,
    ensures
        state == to,
{
    if state != to {
        let len = choose|len: nat| 1 <= len <= a.size && #[trigger] walk(a, state, to, len);
        let m = lemma_walk_first(a, state, to, len);
        if len > 1 {
            assert(1 <= len - 1 <= a.size && walk(a, m, to, (len - 1) as nat));
        }
        lemma_step_words_some(a, prefix, state, to, a.size as int, m);
    }
}

/// The words that continue by one step lead to states towards `to`.
proof fn lemma_step_words_towards(a: Nfa<char>, prefix: Seq<char>, state: int, to: int, upto: int)
    requires
        0 <= upto <= a.size,
    ensures
        forall|k: int|
            0 <= k < step_words(a, prefix, state, to, upto).len() ==> towards(
                a,
                (#[trigger] step_words(a, prefix, state, to, upto)[k]).1,
                to,
            ) && 0 <= step_words(a, prefix, state, to, upto)[k].1 < a.size,
    decreases upto,
{
    if upto > 0 {
        lemma_step_words_towards(a, prefix, state, to, upto - 1);
        let rest = step_words(a, prefix, state, to, upto - 1);
        let all = step_words(a, prefix, state, to, upto);
        assert forall|k: int| 0 <= k < all.len() implies towards(a, (#[trigger] all[k]).1, to) && 0
            <= all[k].1 < a.size by {
            if k < rest.len() {
                assert(all[k] == rest[k]);
            }
        }
    }
}

/// A step of the search keeps the words of the queue on the way.
proof fn lemma_search_step(
    a: Nfa<char>,
    from: int,
    to: int,
    before: Seq<(Seq<char>, int)>,
    after: Seq<(Seq<char>, int)>,
)
    requires
        a.wf(),
        0 <= to < a.size,
        before.len() > 0,
        on_the_way(a, from, to, before),
        after == before.drop_first() + step_words(
            a,
            before[0].0,
            before[0].1,
            to,
            a.size as int,
        ),
    ensures
        on_the_way(a, from, to, after),
{
    let steps = step_words(a, before[0].0, before[0].1, to, a.size as int);
    assert(leads(a, from, before[0].0, before[0].1));
    lemma_step_words_lead(a, from, before[0].0, before[0].1, to, a.size as int);
    lemma_step_words_towards(a, before[0].0, before[0].1, to, a.size as int);
    let rest = before.drop_first();
    assert forall|k: int| 0 <= k < after.len() implies leads(a, from, (#[trigger] after[k]).0, after[k].1)
        && towards(a, after[k].1, to) && 0 <= after[k].1 < a.size by {
        if k < rest.len() {
            assert(after[k] == before[k + 1]);
        } else {
            assert(after[k] == steps[k - rest.len()]);
        }
    }
}

/// Ways one after the other are a way.
pub proof fn lemma_leads_add(a: Nfa<char>, p: int, u: Seq<char>, q: int, v: Seq<char>, r: int)
    requires
        leads(a, p, u, q),
        leads(a, q, v, r),
    ensures
        leads(a, p, u + v, r),
    decreases v.len(),
{
    if v.len() == 0 {
        assert(u + v =~= u);
    } else {
        let mid = choose|mid: int| leads(a, q, v.drop_last(), mid) && #[trigger] labelled(a, mid, v.last(), r);
        lemma_leads_add(a, p, u, q, v.drop_last(), mid);
        assert((u + v).drop_last() =~= u + v.drop_last());
        assert((u + v).last() == v.last());
    }
}

/// The automaton can be where a way from its start state leads.
pub proof fn lemma_leads_reaches(a: Nfa<char>, wild: bool, w: Seq<char>, q: int)
    requires
        leads(a, 0, w, q),
    ensures
        crate::ndfa::language::reaches(a, wild, w, q),
    decreases w.len(),
{
    if w.len() > 0 {
        let mid = choose|mid: int| leads(a, 0, w.drop_last(), mid) && #[trigger] labelled(a, mid, w.last(), q);
        lemma_leads_reaches(a, wild, w.drop_last(), mid);
        assert(crate::ndfa::language::step(a, wild, mid, w.last(), q));
    }
}

/// The words of a walk, one after the other, spell a way from the first
/// state of the chain to the state behind the first `n` words.
proof fn lemma_walk_leads(a: Nfa<char>, states: Seq<usize>, words: Seq<Seq<char>>, n: int)
    requires
        walked(a, states, words),
        states.len() >= 1,
        states[0] < a.size,
        0 <= n <= words.len(),
    ensures
        leads(a, states[0] as int, joined_text(words.take(n)), states[n] as int),
    decreases n,
{
    if n > 0 {
        lemma_walk_leads(a, states, words, n - 1);
        assert(words.take(n).drop_last() =~= words.take(n - 1));
        assert(words.take(n).last() == words[n - 1]);
        lemma_leads_add(
            a,
            states[0] as int,
            joined_text(words.take(n - 1)),
            states[n - 1] as int,
            words[n - 1],
            states[n] as int,
        );
    } else {
        assert(words.take(0) =~= Seq::<Seq<char>>::empty());
    }
}

/// The string that the words of a walk make, before it is mutated, is
/// accepted by the automaton if the chain of the walk ends in an accepting
/// state.
pub proof fn lemma_walk_accepted(
    a: Nfa<char>,
    wild: bool,
    states: Seq<usize>,
    words: Seq<Seq<char>>,
)
    requires
        a.wf(),
        chained(a, states),
        walked(a, states, words),
        a.accepts[states.last() as int],
    ensures
        crate::ndfa::language::accepts(a, wild, joined_text(words)),
{
    lemma_walk_leads(a, states, words, words.len() as int);
    assert(words.take(words.len() as int) =~= words);
    lemma_leads_reaches(a, wild, joined_text(words), states.last() as int);
}

/// Nothing is reached from the state `q`.
pub open spec fn dead_end(a: Nfa<char>, q: int) -> bool {
    forall|t: int| 0 <= t < a.size ==> !#[trigger] reach_within(a, q, t, a.size)
}

/// The chain ends where a walk ends: in a state that accepts, or in one
/// from which nothing is reached.
pub open spec fn halted(a: Nfa<char>, states: Seq<usize>) -> bool {
    a.accepts[states.last() as int] || dead_end(a, states.last() as int)
}

/// Every state from which nothing is reached accepts.
pub open spec fn no_trap_end(a: Nfa<char>) -> bool {
    forall|q: int| 0 <= q < a.size && #[trigger] dead_end(a, q) ==> a.accepts[q]
}

/// Every state accepts, or there is a way from it to a state that
/// accepts.
pub open spec fn hopeful(a: Nfa<char>) -> bool {
    forall|q: int|
        0 <= q < a.size ==> #[trigger] a.accepts[q] || exists|t: int, len: nat|
            len >= 1 && #[trigger] walk(a, q, t, len) && a.accepts[t]
}

/// Where every state accepts or leads to a state that accepts, every
/// state from which nothing is reached accepts.
pub proof fn lemma_hopeful(a: Nfa<char>)
    requires
        a.wf(),
        hopeful(a),
    ensures
        no_trap_end(a),
{
    assert forall|q: int| 0 <= q < a.size && #[trigger] dead_end(a, q) implies a.accepts[q] by {
        if !a.accepts[q] {
            let (t, len) = choose|t: int, len: nat|
                len >= 1 && #[trigger] walk(a, q, t, len) && a.accepts[t];
            let m = lemma_walk_first(a, q, t, len);
            assert(walk(a, q, m, 1));
            assert(reach_within(a, q, m, a.size));
        }
    }
}

/// The string that the words of a walk make, before it is mutated, is
/// accepted by the automaton, if every state from which nothing is
/// reached accepts.
pub proof fn lemma_fresh_string_accepted(
    a: Nfa<char>,
    wild: bool,
    states: Seq<usize>,
    words: Seq<Seq<char>>,
)
    requires
        a.wf(),
        no_trap_end(a),
        chained(a, states),
        halted(a, states),
        walked(a, states, words),
    ensures
        crate::ndfa::language::accepts(a, wild, joined_text(words)),
{
    assert(states[states.len() - 1] < a.size);
    lemma_walk_accepted(a, wild, states, words);
}

/// The letters of the words of a queue, and one more for each word.
pub open spec fn weight(q: Seq<(Seq<char>, int)>) -> int
    decreases q.len(),
{
    if q.len() == 0 {
        0
    } else {
        weight(q.drop_last()) + q.last().0.len() + 1
    }
}

/// What the weight of a queue of words stays below.
pub open spec fn weight_limit() -> int {
    (usize::MAX + 1) * (usize::MAX + 1)
}

/// The weight of two queues one after the other is that of both.
pub proof fn lemma_weight_add(a: Seq<(Seq<char>, int)>, b: Seq<(Seq<char>, int)>)
    ensures
        weight(a + b) == weight(a) + weight(b),
        weight(a) >= 0,
    decreases b.len(),
{
    lemma_weight_least(a);
    if b.len() == 0 {
        assert(a + b =~= a);
    } else {
        assert((a + b).drop_last() =~= a + b.drop_last());
        lemma_weight_add(a, b.drop_last());
    }
}

/// No weight is below 0.
pub proof fn lemma_weight_least(a: Seq<(Seq<char>, int)>)
    ensures
        weight(a) >= 0,
    decreases a.len(),
{
    if a.len() > 0 {
        lemma_weight_least(a.drop_last());
    }
}

/// A queue weighs as much as its first word and the rest.
pub proof fn lemma_weight_first(q: Seq<(Seq<char>, int)>)
    requires
        q.len() > 0,
    ensures
        weight(q) == q[0].0.len() + 1 + weight(q.drop_first()),
{
    let head = seq![q[0]];
    assert(head + q.drop_first() =~= q);
    lemma_weight_add(head, q.drop_first());
    assert(head.drop_last() =~= Seq::<(Seq<char>, int)>::empty());
    assert(head.last() == q[0]);
    assert(weight(head.drop_last()) == 0);
    assert(weight(head) == weight(head.drop_last()) + head.last().0.len() + 1);
}

/// A queue whose first word is replaced, at its end, by longer words, one
/// at least, weighs more.
pub proof fn lemma_weight_grows(q: Seq<(Seq<char>, int)>, grown: Seq<(Seq<char>, int)>)
    requires
        q.len() > 0,
        grown.len() > 0,
        forall|k: int| 0 <= k < grown.len() ==> (#[trigger] grown[k]).0.len() == q[0].0.len() + 1,
    ensures
        weight(q.drop_first() + grown) > weight(q),
{
    lemma_weight_first(q);
    lemma_weight_first(grown);
    lemma_weight_least(grown.drop_first());
    lemma_weight_add(q.drop_first(), grown);
}

/// The weight of a queue of words that a machine holds stays below the
/// limit.
pub proof fn lemma_weight_bound(q: Seq<(Vec<char>, usize)>)
    requires
        q.len() <= usize::MAX,
    ensures
        0 <= weight(queued(q)) <= q.len() * (usize::MAX + 1),
        weight(queued(q)) < weight_limit(),
    decreases q.len(),
{
    let m = usize::MAX + 1;
    if q.len() > 0 {
        lemma_weight_bound(q.drop_last());
        assert(queued(q).drop_last() =~= queued(q.drop_last()));
        assert(queued(q).last().0 == q.last().0@);
        assert(q.last().0@.len() == q.last().0.len());
        assert((q.len() - 1) * m + m == q.len() * m) by (nonlinear_arith);
    }
    assert(q.len() * m < m * m) by (nonlinear_arith)
        requires
            0 <= q.len() < m,
    ;
}

/// Nothing continues the empty word from `from` towards `to`: no
/// transition leads from `from` to `to` or to a state from which `to` is
/// reached.
pub open spec fn stuck(a: Nfa<char>, from: int, to: int) -> bool {
    step_words(a, Seq::empty(), from, to, a.size as int).len() == 0
}

/// Nothing continues the empty word from the state `i` of the chain
/// towards the next.
pub open spec fn stuck_at(a: Nfa<char>, states: Seq<usize>, i: int) -> bool {
    stuck(a, states[i] as int, states[i + 1] as int)
}

/// Every word that continues a word by one step is longer by one letter.
pub proof fn lemma_step_words_longer(
    a: Nfa<char>,
    prefix: Seq<char>,
    state: int,
    to: int,
    upto: int,
)
    ensures
        forall|k: int|
            0 <= k < step_words(a, prefix, state, to, upto).len() ==> (#[trigger] step_words(
                a,
                prefix,
                state,
                to,
                upto,
            )[k]).0.len() == prefix.len() + 1,
    decreases upto,
{
    if upto > 0 {
        lemma_step_words_longer(a, prefix, state, to, upto - 1);
        let rest = step_words(a, prefix, state, to, upto - 1);
        let all = step_words(a, prefix, state, to, upto);
        assert forall|k: int| 0 <= k < all.len() implies (#[trigger] all[k]).0.len() == prefix.len()
            + 1 by {
            if k < rest.len() {
                assert(all[k] == rest[k]);
            }
        }
    }
}

/// `s` is the string that the words `after` make, which mutations made of
/// the words `words` of a walk along the chain `states`, which ends where
/// a walk ends.
pub open spec fn made_of(
    a: Nfa<char>,
    states: Seq<usize>,
    words: Seq<Vec<char>>,
    after: Seq<Vec<char>>,
    s: Seq<char>,
) -> bool {
    &&& chained(a, states)
    &&& halted(a, states)
    &&& walked(a, states, word_texts(words))
    &&& mutated(words, after)
    &&& s == joined_text(word_texts(after))
}

/// `s` is made by mutations of the words of a walk of the automaton.
pub open spec fn generated(a: Nfa<char>, s: Seq<char>) -> bool {
    exists|states: Seq<usize>, words: Seq<Vec<char>>, after: Seq<Vec<char>>| #[trigger]
        made_of(a, states, words, after, s)
}

/// Every one of the words is empty.
pub open spec fn blank(words: Seq<Vec<char>>) -> bool {
    forall|k: int| 0 <= k < words.len() ==> (#[trigger] words[k])@.len() == 0
}

/// A mutation of empty words leaves empty words.
pub proof fn lemma_mutated_once_blank(before: Seq<Vec<char>>, after: Seq<Vec<char>>)
    requires
        blank(before),
        mutated_once(before, after),
    ensures
        blank(after),
{
    let tb = word_texts(before);
    let ta = word_texts(after);
    assert(ta.len() == after.len());
    assert(tb.len() == before.len());
    assert forall|k: int| 0 <= k < before.len() implies (#[trigger] tb[k]).len() == 0 by {
        assert(tb[k] == before[k]@);
    }
    if before.len() == 0 {
    } else if words_swapped(before, after) {
        if before.len() > 1 {
            let (i, j) = choose|i: int, j: int|
                0 <= i < before.len() && 0 <= j < before.len() && after == #[trigger] swapped(
                    before,
                    i,
                    j,
                );
            assert forall|k: int| 0 <= k < after.len() implies (#[trigger] after[k])@.len()
                == 0 by {
                if k == j {
                    assert(after[k] == before[i]);
                } else if k == i {
                    assert(after[k] == before[j]);
                } else {
                    assert(after[k] == before[k]);
                }
            }
        }
    } else if word_removed(before, after) {
        let i = choose|i: int| 0 <= i < before.len() && after == #[trigger] before.remove(i);
        assert forall|k: int| 0 <= k < after.len() implies (#[trigger] after[k])@.len() == 0 by {
            if k < i {
                assert(after[k] == before[k]);
            } else {
                assert(after[k] == before[k + 1]);
            }
        }
    } else if word_doubled(before, after) {
        let i = choose|i: int| 0 <= i < before.len() && ta == #[trigger] tb.insert(i, before[i]@);
        tb.insert_ensures(i, before[i]@);
        assert forall|k: int| 0 <= k < after.len() implies (#[trigger] after[k])@.len() == 0 by {
            assert(ta[k] == after[k]@);
            if k < i {
                assert(ta[k] == tb[k]);
            } else if k == i {
                assert(ta[k] == before[i]@);
            } else {
                assert(ta[k] == tb[k - 1]);
            }
        }
    } else {
        let i = if letters_swapped(before, after) {
            let (i, j, k) = choose|i: int, j: int, k: int| #[trigger]
                letters_swapped_at(before, after, i, j, k);
            i
        } else if letter_doubled(before, after) {
            let (i, j) = choose|i: int, j: int| #[trigger] letter_doubled_at(before, after, i, j);
            i
        } else {
            let (i, j) = choose|i: int, j: int| #[trigger] letter_removed_at(before, after, i, j);
            i
        };
        assert(before[i]@.len() == 0);
        assert(ta == tb.update(i, before[i]@));
        assert forall|k: int| 0 <= k < after.len() implies (#[trigger] after[k])@.len() == 0 by {
            assert(ta[k] == after[k]@);
            if k != i {
                assert(ta[k] == tb[k]);
            }
        }
    }
}

/// Mutations of empty words leave empty words.
pub proof fn lemma_mutated_blank(before: Seq<Vec<char>>, after: Seq<Vec<char>>, n: nat)
    requires
        blank(before),
        mutated_times(before, after, n),
    ensures
        blank(after),
    decreases n,
{
    if n > 0 {
        let mid = choose|mid: Seq<Vec<char>>|
            mutated_times(before, mid, (n - 1) as nat) && #[trigger] mutated_once(mid, after);
        lemma_mutated_blank(before, mid, (n - 1) as nat);
        lemma_mutated_once_blank(mid, after);
    }
}

/// Empty words make the empty string.
pub proof fn lemma_joined_blank(words: Seq<Seq<char>>)
    requires
        forall|k: int| 0 <= k < words.len() ==> (#[trigger] words[k]).len() == 0,
    ensures
        joined_text(words).len() == 0,
    decreases words.len(),
{
    if words.len() > 0 {
        assert forall|k: int| 0 <= k < words.drop_last().len() implies (#[trigger] words.drop_last()[k]).len()
            == 0 by {
            assert(words.drop_last()[k] == words[k]);
        }
        lemma_joined_blank(words.drop_last());
    }
}

/// In the automaton of the empty string nothing continues a word.
pub proof fn lemma_epsilon_stuck(from: int, to: int)
    requires
        0 <= from < 1,
    ensures
        stuck(crate::ndfa::epsilon_nfa(), from, to),
{
    let a = crate::ndfa::epsilon_nfa();
    assert(a.labels[from][0] is None);
    assert(step_words(a, Seq::empty(), from, to, 0).len() == 0);
}

impl<'a> StringGenerator<'a> {
    /// The chain of states of a random walk from the start state.
    pub fn gen_states_chain(&mut self) -> (states: Vec<usize>)
        requires
            old(self).wf(),
        ensures
            final(self).wf(),
            final(self).automata == old(self).automata,
            final(self).reachability == old(self).reachability,
            chained(old(self).automata@, states@),
            old(self).automata@.accepts[states@.last() as int] || old(
                self,
            ).reachability.as_outcoming[states@.last() as int].len() == 0,
            halted(old(self).automata@, states@),
    {
        let ghost a = self.automata@;
        let mut states: Vec<usize> = Vec::new();
        states.push(START);
        let mut current_state: usize = START;
        let mut walking = true;
        let mut steps: usize = 0;
        while walking && steps < WALK_LIMIT
            invariant
                a == self.automata@,
                self.wf(),
                self.automata == old(self).automata,
                self.reachability == old(self).reachability,
                states.len() >= 1,
                states[0] == START,
                current_state == states[states.len() - 1],
                forall|i: int| 0 <= i < states.len() ==> #[trigger] states[i] < a.size,
                forall|i: int|
                    0 <= i < states.len() - 1 ==> towards(
                        a,
                        #[trigger] states[i] as int,
                        states[i + 1] as int,
                    ),
                states.len() == 1 ==> current_state == START,
                walking ==> states.len() == steps + 1,
                !walking ==> a.accepts[current_state as int]
                    || self.reachability.as_outcoming[current_state as int].len() == 0,
            decreases WALK_LIMIT - steps,
        {
            match self.chain_step(current_state) {
                None => {
                    walking = false;
                },
                Some(next_state) => {
                    states.push(next_state);
                    current_state = next_state;
                },
            }
            steps += 1;
        }
        // Epsilon corner case
        let chain = Self::close_chain(states, current_state);
        proof {
            if current_state == START {
                assert(towards(a, 0, 0));
            }
            assert(chain@.last() == current_state);
            if self.reachability.as_outcoming[current_state as int].len() == 0 {
                assert forall|t: int| 0 <= t < a.size implies !#[trigger] reach_within(
                    a,
                    current_state as int,
                    t,
                    a.size,
                ) by {
                    assert(!self.reachability.as_outcoming[current_state as int]@.contains(
                        t as usize,
                    ));
                }
            }
        }
        chain
    }

    /// A word that spells a way from `from` to `to`, by a search in
    /// breadth that a coin ends.
    pub fn gen_word(&mut self, from: usize, to: usize) -> (word: Option<Vec<char>>)
        requires
            old(self).wf(),
            from < old(self).automata.size,
            to < old(self).automata.size,
            towards(old(self).automata@, from as int, to as int),
        ensures
            final(self).wf(),
            final(self).automata == old(self).automata,
            final(self).reachability == old(self).reachability,
            word is Some,
            word matches Some(w) ==> leads(old(self).automata@, from as int, w@, to as int),
            word matches Some(w) ==> (w@.len() == 0 <==> stuck(
                old(self).automata@,
                from as int,
                to as int,
            )),
    {
        let ghost a = self.automata@;
        let mut states_deq: VecDeque<(Vec<char>, usize)> = VecDeque::new();
        states_deq.push_back((Vec::new(), from));
        let mut found: Option<Vec<char>> = None;
        let ghost mut steps: nat = 0;
        proof {
            assert(queued(states_deq@)[0] == (Seq::<char>::empty(), from as int));
            assert(leads(a, from as int, Seq::<char>::empty(), from as int));
        }
        while found.is_none()
            invariant
                a == self.automata@,
                self.wf(),
                self.automata == old(self).automata,
                self.reachability == old(self).reachability,
                to < a.size,
                found is None ==> states_deq.len() > 0 && on_the_way(
                    a,
                    from as int,
                    to as int,
                    queued(states_deq@),
                ),
                found matches Some(w) ==> leads(a, from as int, w@, to as int),
                steps == 0 ==> found is None && queued(states_deq@) == seq![
                    (Seq::<char>::empty(), from as int),
                ],
                steps > 0 && found is None ==> !stuck(a, from as int, to as int) && forall|k: int|
                    0 <= k < states_deq.len() ==> (#[trigger] queued(states_deq@)[k]).0.len() > 0,
                found matches Some(w) ==> (w@.len() == 0 <==> stuck(a, from as int, to as int)),
            decreases
                    if found is Some {
                        0
                    } else {
                        weight_limit() - weight(queued(states_deq@))
                    },
        {
            let ghost before = states_deq@;
            proof {
                assert forall|k: int| 0 <= k < states_deq.len() implies (#[trigger] states_deq@[k]).1
                    < a.size by {
                    assert(queued(states_deq@)[k].1 < a.size);
                }
                assert(queued(before)[0] == (before[0].0@, before[0].1 as int));
                lemma_weight_bound(before);
            }
            found = self.word_step(&mut states_deq, to);
            proof {
                lemma_weight_bound(states_deq@);
                if found is None {
                    lemma_step_words_longer(
                        a,
                        before[0].0@,
                        before[0].1 as int,
                        to as int,
                        a.size as int,
                    );
                    assert(queued(before.drop_first()) =~= queued(before).drop_first());
                    lemma_weight_grows(
                        queued(before),
                        step_words(a, before[0].0@, before[0].1 as int, to as int, a.size as int),
                    );
                }
            }
            proof {
                let grown = step_words(a, before[0].0@, before[0].1 as int, to as int, a.size as int);
                lemma_step_words_longer(a, before[0].0@, before[0].1 as int, to as int, a.size as int);
                if steps == 0 {
                    assert(before[0].0@ =~= Seq::<char>::empty());
                    assert(before[0].1 == from);
                    assert(before.len() == 1);
                }
                if found is Some {
                    let w = found->0@;
                    if step_words(a, w, before[0].1 as int, to as int, a.size as int).len() == 0 {
                        lemma_dead_end(a, w, before[0].1 as int, to as int);
                    }
                } else {
                    assert forall|k: int| 0 <= k < states_deq.len() implies (#[trigger] queued(
                        states_deq@,
                    )[k]).0.len() > 0 by {
                        let rest = queued(before.drop_first());
                        let all = queued(states_deq@);
                        assert(all == rest + grown);
                        assert(all.len() == states_deq.len());
                        if k < rest.len() {
                            assert(all[k] == rest[k]);
                            assert(rest[k] == queued(before)[k + 1]);
                        } else {
                            let at = k - rest.len();
                            assert(0 <= at < grown.len());
                            assert((rest + grown)[k] == grown[at]);
                            assert(grown[at].0.len() == before[0].0@.len() + 1);
                        }
                    }
                    if steps == 0 {
                        assert(queued(before.drop_first()).len() == 0);
                        assert(grown.len() > 0);
                    }
                    assert(queued(before.drop_first()) =~= queued(before).drop_first());
                    lemma_search_step(
                        a,
                        from as int,
                        to as int,
                        queued(before),
                        queued(states_deq@),
                    );
                }
            }
            proof {
                steps = steps + 1;
            }
        }
        found
    }

    /// The words of a walk along the chain `states_chain`, one for each
    /// step of the chain.
    pub fn gen_words_chain(&mut self, states_chain: &Vec<usize>) -> (words: Option<Vec<Vec<char>>>)
        requires
            old(self).wf(),
            chained(old(self).automata@, states_chain@),
        ensures
            final(self).wf(),
            final(self).automata == old(self).automata,
            final(self).reachability == old(self).reachability,
            words is Some,
            words matches Some(ws) ==> walked(old(self).automata@, states_chain@, word_texts(ws@)),
            words matches Some(ws) ==> forall|i: int|
                0 <= i < states_chain.len() - 1 && #[trigger] stuck_at(
                    old(self).automata@,
                    states_chain@,
                    i,
                ) ==> ws[i]@.len() == 0,
    {
        let ghost a = self.automata@;
        let mut words_chain: Vec<Vec<char>> = Vec::new();
        if states_chain.len() == 2 && states_chain[0] == START && states_chain[1] == START {
            words_chain.push(Vec::new());
            proof {
                assert(word_texts(words_chain@)[0] =~= Seq::<char>::empty());
                assert(leads(a, 0, Seq::<char>::empty(), 0));
            }
            return Some(words_chain);
        }
        let mut i: usize = 0;
        while i + 1 < states_chain.len()
            invariant
                a == self.automata@,
                self.wf(),
                self.automata == old(self).automata,
                self.reachability == old(self).reachability,
                chained(a, states_chain@),
                i + 1 <= states_chain.len(),
                words_chain.len() == i,
                forall|k: int|
                    0 <= k < i ==> leads(
                        a,
                        states_chain[k] as int,
                        #[trigger] word_texts(words_chain@)[k],
                        states_chain[k + 1] as int,
                    ),
                forall|k: int|
                    0 <= k < i && #[trigger] stuck_at(a, states_chain@, k) ==> words_chain[k]@.len()
                        == 0,
            decreases states_chain.len() - i,
        {
            let ghost before = words_chain@;
            assert(states_chain[i as int] < a.size);
            assert(states_chain[i + 1] < a.size);
            assert(towards(a, states_chain[i as int] as int, states_chain[i + 1] as int));
            match self.gen_word(states_chain[i], states_chain[i + 1]) {
                None => {
                    return None;
                },
                Some(word) => {
                    words_chain.push(word);
                    proof {
                        assert forall|k: int|
                            0 <= k < i + 1 && #[trigger] stuck_at(
                                a,
                                states_chain@,
                                k,
                            ) implies words_chain[k]@.len() == 0 by {
                            if k < i {
                                assert(words_chain[k] == before[k]);
                            }
                        }
                        assert forall|k: int| 0 <= k < i + 1 implies leads(
                            a,
                            states_chain[k] as int,
                            #[trigger] word_texts(words_chain@)[k],
                            states_chain[k + 1] as int,
                        ) by {
                            if k < i {
                                assert(word_texts(words_chain@)[k] == word_texts(before)[k]);
                            }
                        }
                    }
                },
            }
            i += 1;
        }
        Some(words_chain)
    }

    /// Applies mutations, chosen at random, as long as a coin says so by a
    /// chance of 4 in 5.
    pub fn mutate(&mut self, words: &mut Vec<Vec<char>>)
        ensures
            final(self).automata == old(self).automata,
            final(self).reachability == old(self).reachability,
            mutated(old(words)@, final(words)@),
    {
        let mut mutating = true;
        let mut steps: usize = 0;
        let ghost mut times: nat = 0;
        while mutating && steps < WALK_LIMIT
            invariant
                self.automata == old(self).automata,
                self.reachability == old(self).reachability,
                mutated_times(old(words)@, words@, times),
            decreases WALK_LIMIT - steps,
        {
            let ghost before = words@;
            mutating = self.mutate_step(words);
            proof {
                if mutating {
                    assert(mutated_times(old(words)@, before, times) && mutated_once(
                        before,
                        words@,
                    ));
                    times = times + 1;
                }
            }
            steps += 1;
        }
    }

    /// `count` strings along random walks of the automaton, mutated at
    /// random; none if the automaton is empty.
    pub fn gen_strings(&mut self, count: usize) -> (strings: Vec<String>)
        requires
            old(self).wf(),
        ensures
            final(self).wf(),
            final(self).automata == old(self).automata,
            strings.len() <= count,
            crate::ndfa::is_empty_nfa(old(self).automata@) ==> strings.len() == 0,
            !crate::ndfa::is_empty_nfa(old(self).automata@) ==> strings.len() == count,
            forall|i: int|
                0 <= i < strings.len() ==> generated(old(self).automata@, (#[trigger] strings[i])@),
            old(self).automata@ == crate::ndfa::epsilon_nfa() ==> strings.len() == count && forall|
                i: int,
            | 0 <= i < strings.len() ==> (#[trigger] strings[i])@.len() == 0,
    {
        // Empty automata corner case
        if self.automata.is_empty() {
            return Vec::new();
        }
        let ghost a = self.automata@;
        let mut strings: Vec<String> = Vec::new();
        let mut made: usize = 0;
        while made < count
            invariant
                self.wf(),
                self.automata == old(self).automata,
                a == self.automata@,
                made <= count,
                strings.len() == made,
                forall|i: int| 0 <= i < strings.len() ==> generated(a, (#[trigger] strings[i])@),
                a == crate::ndfa::epsilon_nfa() ==> strings.len() == made && forall|i: int|
                    0 <= i < strings.len() ==> (#[trigger] strings[i])@.len() == 0,
            decreases count - made,
        {
            let ghost so_far = strings@;
            let states = self.gen_states_chain();
            proof {
                if a == crate::ndfa::epsilon_nfa() {
                    assert forall|i: int| 0 <= i < states.len() - 1 implies #[trigger] stuck_at(
                        a,
                        states@,
                        i,
                    ) by {
                        assert(states[i] < a.size);
                        lemma_epsilon_stuck(states[i] as int, states[i + 1] as int);
                    }
                }
            }
            match self.gen_words_chain(&states) {
                Some(words) => {
                    let ghost walk = words@;
                    let mut words = words;
                    self.mutate(&mut words);
                    let string = self.join_words(&words);
                    proof {
                        assert(made_of(a, states@, walk, words@, string@));
                        if a == crate::ndfa::epsilon_nfa() {
                            assert forall|k: int| 0 <= k < walk.len() implies (#[trigger] walk[k])@.len()
                                == 0 by {
                                assert(stuck_at(a, states@, k));
                            }
                            let n = choose|n: nat| mutated_times(walk, words@, n);
                            lemma_mutated_blank(walk, words@, n);
                            assert forall|k: int| 0 <= k < word_texts(words@).len() implies (
                            #[trigger] word_texts(words@)[k]).len() == 0 by {
                                assert(word_texts(words@)[k] == words[k]@);
                            }
                            lemma_joined_blank(word_texts(words@));
                        }
                    }
                    strings.push(string);
                    proof {
                        assert forall|i: int| 0 <= i < strings.len() implies generated(
                            a,
                            (#[trigger] strings[i])@,
                        ) by {
                            if i < so_far.len() {
                                assert(strings[i] == so_far[i]);
                            }
                        }
                        if a == crate::ndfa::epsilon_nfa() {
                            assert forall|i: int| 0 <= i < strings.len() implies (
                            #[trigger] strings[i])@.len() == 0 by {
                                if i < so_far.len() {
                                    assert(strings[i] == so_far[i]);
                                }
                            }
                        }
                    }
                },
                None => {},
            }
            made += 1;
        }
        strings
    }
}

} // verus!
