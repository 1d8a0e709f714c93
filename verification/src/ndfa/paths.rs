//! What an automaton with expressions as labels accepts, and that state
//! elimination keeps it.
use vstd::prelude::*;
use crate::ndfa::Nfa;
use crate::ndfa::elimination::absorbed;
use crate::ndfa::elimination::absorbed_upto;
use crate::ndfa::elimination::eliminated;
use crate::ndfa::elimination::moved;
use crate::ndfa::elimination::pick_from;
use crate::ndfa::elimination::prepared;
use crate::ndfa::elimination::regex_of;
use crate::ndfa::elimination::reduced;
use crate::ndfa::elimination::removed;
use crate::ndfa::ast::TreeView;
use crate::ndfa::ast::leaves_union;
use crate::ndfa::construction::position_label;
use crate::ndfa::construction::position_nfa;
use crate::ndfa::construction::lemma_position_nfa_wf;
use crate::ndfa::language::accepts;
use crate::ndfa::language::reaches;
use crate::ndfa::language::step;
use crate::ndfa::meaning::lemma_position_language;
use crate::ndfa::meaning::matches_union;
use crate::ndfa::meaning::plain_positions;
use crate::ndfa::reading::around;
use crate::ndfa::ast::is_mark;
use crate::ndfa::reading::lemma_no_bar;
use crate::ndfa::reading::lemma_tidy_char;
use crate::ndfa::reading::lemma_tidy_empty;
use crate::ndfa::reading::text_matches;
use crate::ndfa::reading::goes_through;
use crate::ndfa::reading::lemma_spliced;
use crate::ndfa::reading::repeated;
use crate::ndfa::reading::seq_matches;
use crate::ndfa::reading::tidy;
use crate::ndfa::reading::passes;

verus! {

// -------------------------------------------------------------------------
// Runs
// -------------------------------------------------------------------------

/// Every label is a tidy text.
pub open spec fn tidy_labels(m: Nfa<Seq<char>>) -> bool {
    forall|i: int, j: int|
        0 <= i < m.size && 0 <= j < m.size && (#[trigger] m.labels[i][j]) is Some ==> tidy(
            m.labels[i][j]->0,
        )
}

/// The label of the transition from `p` to `q` matches `u`.
pub open spec fn edge(m: Nfa<Seq<char>>, wild: bool, p: int, u: Seq<char>, q: int) -> bool {
    &&& 0 <= p < m.size
    &&& 0 <= q < m.size
    &&& m.labels[p][q] matches Some(l) && seq_matches(l, wild, u)
}

/// The automaton can read `w` on `n` transitions from the start state to
/// `q`.
pub open spec fn runs(m: Nfa<Seq<char>>, wild: bool, w: Seq<char>, q: int, n: nat) -> bool
    decreases n,
{
    if n == 0 {
        w.len() == 0 && q == 0
    } else {
        exists|k: int, p: int|
            0 <= k <= w.len() && runs(m, wild, w.take(k), p, (n - 1) as nat) && #[trigger] edge(
                m,
                wild,
                p,
                w.skip(k),
                q,
            )
    }
}

/// The automaton can read `w` on `n` transitions from the start state to
/// `q` without entering the state `x`.
pub open spec fn runs_without(
    m: Nfa<Seq<char>>,
    x: int,
    wild: bool,
    w: Seq<char>,
    q: int,
    n: nat,
) -> bool
    decreases n,
{
    if n == 0 {
        w.len() == 0 && q == 0
    } else {
        q != x && exists|k: int, p: int|
            0 <= k <= w.len() && runs_without(m, x, wild, w.take(k), p, (n - 1) as nat)
                && #[trigger] edge(m, wild, p, w.skip(k), q)
    }
}

/// The automaton accepts `w`: it can read `w` from the start state to an
/// accepting state.
pub open spec fn accepts_text(m: Nfa<Seq<char>>, wild: bool, w: Seq<char>) -> bool {
    exists|q: int, n: nat| #[trigger] runs(m, wild, w, q, n) && 0 <= q < m.size && m.accepts[q]
}

/// A run goes on by a transition.
pub proof fn lemma_run_push(
    m: Nfa<Seq<char>>,
    wild: bool,
    w: Seq<char>,
    p: int,
    n: nat,
    u: Seq<char>,
    q: int,
)
    requires
        runs(m, wild, w, p, n),
        edge(m, wild, p, u, q),
    ensures
        runs(m, wild, w + u, q, n + 1),
{
    let k = w.len() as int;
    assert((w + u).take(k) =~= w);
    assert((w + u).skip(k) =~= u);
    assert(0 <= k <= (w + u).len() && runs(m, wild, (w + u).take(k), p, n) && edge(
        m,
        wild,
        p,
        (w + u).skip(k),
        q,
    ));
}

/// A run that avoids a state goes on by a transition into another state.
pub proof fn lemma_run_without_push(
    m: Nfa<Seq<char>>,
    x: int,
    wild: bool,
    w: Seq<char>,
    p: int,
    n: nat,
    u: Seq<char>,
    q: int,
)
    requires
        runs_without(m, x, wild, w, p, n),
        edge(m, wild, p, u, q),
        q != x,
    ensures
        runs_without(m, x, wild, w + u, q, n + 1),
{
    let k = w.len() as int;
    assert((w + u).take(k) =~= w);
    assert((w + u).skip(k) =~= u);
    assert(0 <= k <= (w + u).len() && runs_without(m, x, wild, (w + u).take(k), p, n) && edge(
        m,
        wild,
        p,
        (w + u).skip(k),
        q,
    ));
}

/// A run that avoids a state ends in another state.
pub proof fn lemma_run_without_end(
    m: Nfa<Seq<char>>,
    x: int,
    wild: bool,
    w: Seq<char>,
    q: int,
    n: nat,
)
    requires
        x != 0,
        runs_without(m, x, wild, w, q, n),
    ensures
        q != x,
{
}

/// One more part can stand behind parts that a text matches.
pub proof fn lemma_repeated_push(x: Seq<char>, wild: bool, u: Seq<char>, v: Seq<char>)
    requires
        repeated(x, wild, u),
        seq_matches(x, wild, v),
    ensures
        repeated(x, wild, u + v),
    decreases u.len(),
{
    if v.len() == 0 {
        assert(u + v =~= u);
    } else if u.len() == 0 {
        let k = v.len() as int;
        assert(u + v =~= v);
        assert(v.take(k) =~= v);
        assert(repeated(x, wild, v.skip(k)));
        assert(0 < k <= v.len() && seq_matches(x, wild, v.take(k)) && repeated(x, wild, v.skip(k)));
    } else {
        let k = choose|k: int|
            0 < k <= u.len() && seq_matches(x, wild, #[trigger] u.take(k)) && repeated(
                x,
                wild,
                u.skip(k),
            );
        lemma_repeated_push(x, wild, u.skip(k), v);
        assert((u + v).take(k) =~= u.take(k));
        assert((u + v).skip(k) =~= u.skip(k) + v);
        assert(0 < k <= (u + v).len() && seq_matches(x, wild, (u + v).take(k)) && repeated(
            x,
            wild,
            (u + v).skip(k),
        ));
    }
}

/// A run that has come to a state goes on around its loop.
pub proof fn lemma_run_around(
    m: Nfa<Seq<char>>,
    wild: bool,
    w: Seq<char>,
    x: int,
    n: nat,
    u: Seq<char>,
) -> (n2: nat)
    requires
        runs(m, wild, w, x, n),
        0 <= x < m.size,
        around(m.labels[x][x], wild, u),
    ensures
        runs(m, wild, w + u, x, n2),
    decreases u.len(),
{
    if u.len() == 0 {
        assert(w + u =~= w);
        n
    } else {
        let c = m.labels[x][x]->0;
        let k = choose|k: int|
            0 < k <= u.len() && seq_matches(c, wild, #[trigger] u.take(k)) && repeated(
                c,
                wild,
                u.skip(k),
            );
        lemma_run_push(m, wild, w, x, n, u.take(k), x);
        let n2 = lemma_run_around(m, wild, w + u.take(k), x, n + 1, u.skip(k));
        assert(w + u.take(k) + u.skip(k) =~= w + u);
        n2
    }
}

// -------------------------------------------------------------------------
// Writing the ways through a state into the other labels
// -------------------------------------------------------------------------

/// The automaton in which the ways through `k` are written into every
/// label.
pub open spec fn absorbed_all(m: Nfa<Seq<char>>, k: int) -> Nfa<Seq<char>> {
    absorbed_upto(m, k, m.size as int, 0)
}

/// `k` is a state of `m` other than the start state, and `m` is well
/// formed with tidy labels.
pub open spec fn ready(m: Nfa<Seq<char>>, k: int) -> bool {
    m.wf() && tidy_labels(m) && 0 < k < m.size
}

/// What a label matches once the ways through `k` are written into it:
/// what it matched, and what is read on the way through `k`.
pub proof fn lemma_absorbed_edge(
    m: Nfa<Seq<char>>,
    k: int,
    wild: bool,
    p: int,
    u: Seq<char>,
    q: int,
)
    requires
        ready(m, k),
        0 <= p < m.size,
        0 <= q < m.size,
        p != k,
        q != k,
    ensures
        edge(absorbed_all(m, k), wild, p, u, q) <==> edge(m, wild, p, u, q) || (m.labels[p][k]
            is Some && m.labels[k][q] is Some && goes_through(
            m.labels[p][k]->0,
            m.labels[k][k],
            m.labels[k][q]->0,
            wild,
            u,
        )),
{
    let m1 = absorbed_all(m, k);
    assert(m1.labels[p][q] == absorbed(m, k, p, q));
    if m.labels[p][k] is Some && m.labels[k][q] is Some {
        assert(tidy(m.labels[p][k]->0));
        assert(tidy(m.labels[k][q]->0));
        if m.labels[k][k] is Some {
            assert(tidy(m.labels[k][k]->0));
        }
        if m.labels[p][q] is Some {
            assert(tidy(m.labels[p][q]->0));
        }
        lemma_spliced(
            m.labels[p][q],
            m.labels[p][k]->0,
            m.labels[k][k],
            m.labels[k][q]->0,
            wild,
            u,
        );
    }
}

/// The labels stay tidy when the ways through `k` are written into them.
pub proof fn lemma_absorbed_tidy(m: Nfa<Seq<char>>, k: int)
    requires
        ready(m, k),
    ensures
        ready(absorbed_all(m, k), k),
        absorbed_all(m, k).size == m.size,
        absorbed_all(m, k).starts == m.starts,
        absorbed_all(m, k).accepts == m.accepts,
        forall|x: int, y: int|
            0 <= x < m.size && 0 <= y < m.size ==> (#[trigger] absorbed_all(m, k).labels[x][y])
                == absorbed(m, k, x, y),
{
    let m1 = absorbed_all(m, k);
    assert forall|i: int, j: int|
        0 <= i < m1.size && 0 <= j < m1.size && (#[trigger] m1.labels[i][j]) is Some implies tidy(
        m1.labels[i][j]->0,
    ) by {
        assert(m1.labels[i][j] == absorbed(m, k, i, j));
        if i != k && j != k && m.labels[i][k] is Some && m.labels[k][j] is Some {
            assert(tidy(m.labels[i][k]->0));
            assert(tidy(m.labels[k][j]->0));
            if m.labels[k][k] is Some {
                assert(tidy(m.labels[k][k]->0));
            }
            if m.labels[i][j] is Some {
                assert(tidy(m.labels[i][j]->0));
            }
            lemma_spliced(
                m.labels[i][j],
                m.labels[i][k]->0,
                m.labels[k][k],
                m.labels[k][j]->0,
                false,
                Seq::<char>::empty(),
            );
        } else {
            assert(m.labels[i][j] is Some);
            assert(tidy(m.labels[i][j]->0));
        }
    }
}

/// What the automaton reads without entering `k`, once the ways through
/// `k` are written into its labels, it could read before.
pub proof fn lemma_expand(m: Nfa<Seq<char>>, k: int, wild: bool, w: Seq<char>, q: int, n: nat) -> (n2:
    nat)
    requires
        ready(m, k),
        runs_without(absorbed_all(m, k), k, wild, w, q, n),
    ensures
        runs(m, wild, w, q, n2),
        q != k,
    decreases n,
{
    if n == 0 {
        0
    } else {
        let m1 = absorbed_all(m, k);
        let (j, p) = choose|j: int, p: int|
            0 <= j <= w.len() && runs_without(m1, k, wild, w.take(j), p, (n - 1) as nat)
                && #[trigger] edge(m1, wild, p, w.skip(j), q);
        let n1 = lemma_expand(m, k, wild, w.take(j), p, (n - 1) as nat);
        let u = w.skip(j);
        lemma_absorbed_edge(m, k, wild, p, u, q);
        assert(w.take(j) + u =~= w);
        if edge(m, wild, p, u, q) {
            lemma_run_push(m, wild, w.take(j), p, n1, u, q);
            n1 + 1
        } else {
            let i = m.labels[p][k]->0;
            let c = m.labels[k][k];
            let o = m.labels[k][q]->0;
            let (a, b) = choose|a: int, b: int| #[trigger] passes(i, c, o, wild, u, a, b);
            lemma_run_push(m, wild, w.take(j), p, n1, u.take(a), k);
            let n3 = lemma_run_around(
                m,
                wild,
                w.take(j) + u.take(a),
                k,
                n1 + 1,
                u.subrange(a, b),
            );
            lemma_run_push(
                m,
                wild,
                w.take(j) + u.take(a) + u.subrange(a, b),
                k,
                n3,
                u.skip(b),
                q,
            );
            assert(w.take(j) + u.take(a) + u.subrange(a, b) + u.skip(b) =~= w);
            n3 + 1
        }
    }
}

/// What the automaton reads into a state other than `k`, it reads
/// without entering `k` once the ways through `k` are written into its
/// labels.
pub proof fn lemma_collapse(m: Nfa<Seq<char>>, k: int, wild: bool, w: Seq<char>, q: int, n: nat) -> (n2:
    nat)
    requires
        ready(m, k),
        runs(m, wild, w, q, n),
        q != k,
    ensures
        runs_without(absorbed_all(m, k), k, wild, w, q, n2),
    decreases n, 0nat,
{
    if n == 0 {
        0
    } else {
        let m1 = absorbed_all(m, k);
        let (j, p) = choose|j: int, p: int|
            0 <= j <= w.len() && runs(m, wild, w.take(j), p, (n - 1) as nat) && #[trigger] edge(
                m,
                wild,
                p,
                w.skip(j),
                q,
            );
        let u = w.skip(j);
        if p != k {
            let n1 = lemma_collapse(m, k, wild, w.take(j), p, (n - 1) as nat);
            lemma_absorbed_edge(m, k, wild, p, u, q);
            lemma_run_without_push(m1, k, wild, w.take(j), p, n1, u, q);
            assert(w.take(j) + u =~= w);
            n1 + 1
        } else {
            let r = lemma_collapse_into(m, k, wild, w.take(j), (n - 1) as nat);
            let i = r.0;
            let a = r.1;
            let b = r.2;
            let n1 = r.3;
            let v = w.skip(a);
            assert(v.take(b - a) =~= w.take(j).subrange(a, b));
            assert(v.subrange(b - a, j - a) =~= w.take(j).skip(b));
            assert(v.skip(j - a) =~= u);
            assert(passes(
                m.labels[i][k]->0,
                m.labels[k][k],
                m.labels[k][q]->0,
                wild,
                v,
                b - a,
                j - a,
            ));
            lemma_absorbed_edge(m, k, wild, i, v, q);
            assert(w.take(j).take(a) =~= w.take(a));
            lemma_run_without_push(m1, k, wild, w.take(a), i, n1, v, q);
            assert(w.take(a) + v =~= w);
            n1 + 1
        }
    }
}

/// What the automaton reads into `k` falls into what it reads into a
/// state before `k` without entering `k`, once the ways through `k` are
/// written into its labels; what the label from there to `k` matches;
/// and what is read on the loop at `k`.
pub proof fn lemma_collapse_into(m: Nfa<Seq<char>>, k: int, wild: bool, w: Seq<char>, n: nat) -> (r:
    (int, int, int, nat))
    requires
        ready(m, k),
        runs(m, wild, w, k, n),
    ensures
        0 <= r.0 < m.size,
        r.0 != k,
        0 <= r.1 <= r.2 <= w.len(),
        runs_without(absorbed_all(m, k), k, wild, w.take(r.1), r.0, r.3),
        edge(m, wild, r.0, w.subrange(r.1, r.2), k),
        around(m.labels[k][k], wild, w.skip(r.2)),
    decreases n, 1nat,
{
    let (j, p) = choose|j: int, p: int|
        0 <= j <= w.len() && runs(m, wild, w.take(j), p, (n - 1) as nat) && #[trigger] edge(
            m,
            wild,
            p,
            w.skip(j),
            k,
        );
    let u = w.skip(j);
    let end = w.len() as int;
    if p != k {
        let n1 = lemma_collapse(m, k, wild, w.take(j), p, (n - 1) as nat);
        assert(w.subrange(j, end) =~= u);
        assert(w.skip(end) =~= Seq::<char>::empty());
        (p, j, end, n1)
    } else {
        let r = lemma_collapse_into(m, k, wild, w.take(j), (n - 1) as nat);
        assert(w.take(j).take(r.1) =~= w.take(r.1));
        assert(w.take(j).subrange(r.1, r.2) =~= w.subrange(r.1, r.2));
        assert(w.take(j).skip(r.2) + u =~= w.skip(r.2));
        lemma_repeated_push(m.labels[k][k]->0, wild, w.take(j).skip(r.2), u);
        r
    }
}

// -------------------------------------------------------------------------
// Removing a state
// -------------------------------------------------------------------------

/// Where the state `q` stands once `k` was replaced by the last state.
pub open spec fn settled(size: nat, k: int, q: int) -> int {
    if q == size - 1 {
        k
    } else {
        q
    }
}

/// What the automaton reads without entering `k`, it reads without the
/// state `k`.
pub proof fn lemma_removed_keeps(
    m: Nfa<Seq<char>>,
    k: int,
    wild: bool,
    w: Seq<char>,
    q: int,
    n: nat,
)
    requires
        m.wf(),
        0 < k < m.size,
        runs_without(m, k, wild, w, q, n),
    ensures
        runs(removed(m, k), wild, w, settled(m.size, k, q), n),
    decreases n,
{
    if n > 0 {
        let m2 = removed(m, k);
        let (j, p) = choose|j: int, p: int|
            0 <= j <= w.len() && runs_without(m, k, wild, w.take(j), p, (n - 1) as nat)
                && #[trigger] edge(m, wild, p, w.skip(j), q);
        lemma_removed_keeps(m, k, wild, w.take(j), p, (n - 1) as nat);
        lemma_run_without_end(m, k, wild, w.take(j), p, (n - 1) as nat);
        let p2 = settled(m.size, k, p);
        let q2 = settled(m.size, k, q);
        assert(moved(m.size, k, p2) == p);
        assert(moved(m.size, k, q2) == q);
        assert(m2.labels[p2][q2] == m.labels[p][q]);
        assert(0 <= j <= w.len() && runs(m2, wild, w.take(j), p2, (n - 1) as nat) && edge(
            m2,
            wild,
            p2,
            w.skip(j),
            q2,
        ));
    }
}

/// What the automaton reads without the state `k`, it read without
/// entering `k`.
pub proof fn lemma_removed_kept(
    m: Nfa<Seq<char>>,
    k: int,
    wild: bool,
    w: Seq<char>,
    x: int,
    n: nat,
)
    requires
        m.wf(),
        0 < k < m.size,
        runs(removed(m, k), wild, w, x, n),
    ensures
        runs_without(m, k, wild, w, moved(m.size, k, x), n),
        0 <= x < m.size - 1,
    decreases n,
{
    if n > 0 {
        let m2 = removed(m, k);
        let (j, p) = choose|j: int, p: int|
            0 <= j <= w.len() && runs(m2, wild, w.take(j), p, (n - 1) as nat) && #[trigger] edge(
                m2,
                wild,
                p,
                w.skip(j),
                x,
            );
        lemma_removed_kept(m, k, wild, w.take(j), p, (n - 1) as nat);
        let p1 = moved(m.size, k, p);
        let x1 = moved(m.size, k, x);
        assert(m2.labels[p][x] == m.labels[p1][x1]);
        assert(0 <= j <= w.len() && runs_without(m, k, wild, w.take(j), p1, (n - 1) as nat)
            && edge(m, wild, p1, w.skip(j), x1));
    }
}

/// Eliminating a state that does not accept keeps what the automaton
/// accepts.
pub proof fn lemma_eliminated_language(m: Nfa<Seq<char>>, k: int, wild: bool, w: Seq<char>)
    requires
        ready(m, k),
        !m.accepts[k],
    ensures
        accepts_text(eliminated(m, k), wild, w) <==> accepts_text(m, wild, w),
{
    let m1 = absorbed_all(m, k);
    let m2 = eliminated(m, k);
    lemma_absorbed_tidy(m, k);
    assert(m2 == removed(m1, k));
    if accepts_text(m, wild, w) {
        let (q, n) = choose|q: int, n: nat| #[trigger]
            runs(m, wild, w, q, n) && 0 <= q < m.size && m.accepts[q];
        let n2 = lemma_collapse(m, k, wild, w, q, n);
        lemma_removed_keeps(m1, k, wild, w, q, n2);
        let q2 = settled(m.size, k, q);
        assert(moved(m.size, k, q2) == q);
        assert(runs(m2, wild, w, q2, n2) && 0 <= q2 < m2.size && m2.accepts[q2]);
    }
    if accepts_text(m2, wild, w) {
        let (x, n) = choose|x: int, n: nat| #[trigger]
            runs(m2, wild, w, x, n) && 0 <= x < m2.size && m2.accepts[x];
        lemma_removed_kept(m1, k, wild, w, x, n);
        let q = moved(m.size, k, x);
        let n2 = lemma_expand(m, k, wild, w, q, n);
        assert(runs(m, wild, w, q, n2) && 0 <= q < m.size && m.accepts[q]);
    }
}

// -------------------------------------------------------------------------
// Eliminating every state between start and end
// -------------------------------------------------------------------------

/// The automaton is well formed with tidy labels; `end` is its one
/// accepting state, from which nothing leads on; and nothing leads back
/// into the start state.
pub open spec fn funnel(m: Nfa<Seq<char>>, end: int) -> bool {
    &&& m.wf()
    &&& tidy_labels(m)
    &&& 0 < end < m.size
    &&& forall|i: int| 0 <= i < m.size ==> (#[trigger] m.accepts[i] <==> i == end)
    &&& forall|i: int| 0 <= i < m.size ==> (#[trigger] m.labels[i])[0] is None
    &&& forall|j: int| 0 <= j < m.size ==> (#[trigger] m.labels[end][j]) is None
}

/// Eliminating a state between start and end leaves a funnel.
pub proof fn lemma_eliminated_funnel(m: Nfa<Seq<char>>, end: int, k: int)
    requires
        funnel(m, end),
        0 < k < m.size,
        k != end,
    ensures
        funnel(eliminated(m, k), settled(m.size, k, end)),
        eliminated(m, k).size == m.size - 1,
{
    let m1 = absorbed_all(m, k);
    let m2 = eliminated(m, k);
    let end2 = settled(m.size, k, end);
    lemma_absorbed_tidy(m, k);
    assert(m2 == removed(m1, k));
    assert forall|i: int, j: int|
        0 <= i < m2.size && 0 <= j < m2.size && (#[trigger] m2.labels[i][j]) is Some implies tidy(
        m2.labels[i][j]->0,
    ) by {
        let i1 = moved(m.size, k, i);
        let j1 = moved(m.size, k, j);
        assert(m2.labels[i][j] == m1.labels[i1][j1]);
    }
    assert forall|i: int| 0 <= i < m2.size implies (#[trigger] m2.accepts[i] <==> i == end2) by {
        let i1 = moved(m.size, k, i);
        assert(m2.accepts[i] == m.accepts[i1]);
    }
    assert forall|i: int| 0 <= i < m2.size implies (#[trigger] m2.labels[i])[0] is None by {
        let i1 = moved(m.size, k, i);
        assert(m2.labels[i][0] == m1.labels[i1][0]);
        assert(m1.labels[i1][0] == absorbed(m, k, i1, 0));
        assert(m.labels[k][0] is None);
        assert(m.labels[i1][0] is None);
    }
    assert forall|j: int| 0 <= j < m2.size implies (#[trigger] m2.labels[end2][j]) is None by {
        let j1 = moved(m.size, k, j);
        assert(moved(m.size, k, end2) == end);
        assert(m2.labels[end2][j] == m1.labels[end][j1]);
        assert(m1.labels[end][j1] == absorbed(m, k, end, j1));
        assert(m.labels[end][k] is None);
        assert(m.labels[end][j1] is None);
    }
    assert forall|i: int| 0 <= i < m2.size implies #[trigger] m2.starts[i] == (i == 0) by {
        let i1 = moved(m.size, k, i);
        assert(m2.starts[i] == m.starts[i1]);
    }
}

/// The state that is picked is the first that neither starts nor
/// accepts.
pub proof fn lemma_pick_from(m: Nfa<Seq<char>>, from: int)
    requires
        0 <= from <= m.size,
    ensures
        from <= pick_from(m, from) <= m.size,
        pick_from(m, from) < m.size ==> !m.starts[pick_from(m, from)] && !m.accepts[pick_from(
            m,
            from,
        )],
        forall|x: int|
            from <= x < pick_from(m, from) ==> #[trigger] m.starts[x] || m.accepts[x],
    decreases m.size - from,
{
    if from < m.size && (m.starts[from] || m.accepts[from]) {
        lemma_pick_from(m, from + 1);
    }
}

/// Eliminating every state between start and end leaves the start state
/// and the end, and keeps what the automaton accepts.
pub proof fn lemma_reduced(m: Nfa<Seq<char>>, end: int, wild: bool, w: Seq<char>)
    requires
        funnel(m, end),
    ensures
        funnel(reduced(m), 1),
        reduced(m).size == 2,
        accepts_text(reduced(m), wild, w) <==> accepts_text(m, wild, w),
    decreases m.size,
{
    let k = pick_from(m, 0);
    lemma_pick_from(m, 0);
    if k < m.size {
        assert(m.starts[k] == (k == 0));
        lemma_eliminated_funnel(m, end, k);
        lemma_eliminated_language(m, k, wild, w);
        lemma_reduced(eliminated(m, k), settled(m.size, k, end), wild, w);
    } else {
        if m.size > 2 {
            let x = if end == 1 {
                2int
            } else {
                1int
            };
            assert(m.starts[x] || m.accepts[x]);
            assert(m.starts[x] == (x == 0));
        }
    }
}

/// An automaton of a start state and an end accepts what the label
/// between them matches.
pub proof fn lemma_two_states(m: Nfa<Seq<char>>, wild: bool, w: Seq<char>)
    requires
        funnel(m, 1),
        m.size == 2,
    ensures
        accepts_text(m, wild, w) <==> edge(m, wild, 0, w, 1),
{
    if accepts_text(m, wild, w) {
        let (q, n) = choose|q: int, n: nat| #[trigger]
            runs(m, wild, w, q, n) && 0 <= q < m.size && m.accepts[q];
        assert(q == 1);
        let (j, p) = choose|j: int, p: int|
            0 <= j <= w.len() && runs(m, wild, w.take(j), p, (n - 1) as nat) && #[trigger] edge(
                m,
                wild,
                p,
                w.skip(j),
                1,
            );
        assert(m.labels[1][1] is None);
        assert(p == 0);
        if n - 1 > 0 {
            let (j0, p0) = choose|j0: int, p0: int|
                0 <= j0 <= w.take(j).len() && runs(
                    m,
                    wild,
                    w.take(j).take(j0),
                    p0,
                    (n - 2) as nat,
                ) && #[trigger] edge(m, wild, p0, w.take(j).skip(j0), 0);
            assert(m.labels[p0][0] is None);
        }
        assert(w.take(j).len() == 0);
        assert(w.skip(j) =~= w);
    }
    if edge(m, wild, 0, w, 1) {
        assert(runs(m, wild, Seq::<char>::empty(), 0, 0));
        lemma_run_push(m, wild, Seq::<char>::empty(), 0, 0, w, 1);
        assert(Seq::<char>::empty() + w =~= w);
        assert(runs(m, wild, w, 1, 1) && 0 <= 1 < m.size && m.accepts[1]);
    }
}

// -------------------------------------------------------------------------
// From an automaton to its expression
// -------------------------------------------------------------------------

/// No label of the automaton is a bracket, a bar, a star or a question
/// mark.
pub open spec fn plain_labels(a: Nfa<char>) -> bool {
    forall|i: int, j: int|
        0 <= i < a.size && 0 <= j < a.size ==> ((#[trigger] a.labels[i][j]) matches Some(c)
            ==> !is_mark(c))
}

/// The automaton with an end of its own is a funnel.
pub proof fn lemma_prepared_funnel(a: Nfa<char>)
    requires
        a.wf(),
        a.start_is_source(),
        plain_labels(a),
    ensures
        funnel(prepared(a), a.size as int),
{
    let m = prepared(a);
    assert forall|i: int, j: int|
        0 <= i < m.size && 0 <= j < m.size && (#[trigger] m.labels[i][j]) is Some implies tidy(
        m.labels[i][j]->0,
    ) by {
        if i < a.size && j < a.size {
            let c = a.labels[i][j]->0;
            lemma_tidy_char(c, false, Seq::<char>::empty());
        } else {
            lemma_tidy_empty();
        }
    }
    assert forall|i: int| 0 <= i < m.size implies (#[trigger] m.labels[i])[0] is None by {
        if i < a.size {
            assert(a.labels[i][0] is None);
        }
    }
}

/// What leads the automaton into a state leads the automaton with an end
/// of its own there.
pub proof fn lemma_prepared_keeps(a: Nfa<char>, wild: bool, w: Seq<char>, q: int)
    requires
        a.wf(),
        plain_labels(a),
        reaches(a, wild, w, q),
    ensures
        0 <= q < a.size,
        runs(prepared(a), wild, w, q, w.len()),
    decreases w.len(),
{
    if w.len() > 0 {
        let m = prepared(a);
        let p = choose|p: int|
            reaches(a, wild, w.drop_last(), p) && #[trigger] step(a, wild, p, w.last(), q);
        lemma_prepared_keeps(a, wild, w.drop_last(), p);
        let c = a.labels[p][q]->0;
        let u = seq![w.last()];
        assert(u[0] == w.last());
        lemma_tidy_char(c, wild, u);
        assert(m.labels[p][q] == Some(seq![c]));
        assert(edge(m, wild, p, u, q));
        lemma_run_push(m, wild, w.drop_last(), p, (w.len() - 1) as nat, u, q);
        assert(w.drop_last() + u =~= w);
    }
}

/// What leads the automaton with an end of its own into a state of the
/// automaton leads the automaton there.
pub proof fn lemma_prepared_kept(a: Nfa<char>, wild: bool, w: Seq<char>, q: int, n: nat)
    requires
        a.wf(),
        plain_labels(a),
        runs(prepared(a), wild, w, q, n),
        q < a.size,
    ensures
        reaches(a, wild, w, q),
    decreases n,
{
    if n > 0 {
        let m = prepared(a);
        let (j, p) = choose|j: int, p: int|
            0 <= j <= w.len() && runs(m, wild, w.take(j), p, (n - 1) as nat) && #[trigger] edge(
                m,
                wild,
                p,
                w.skip(j),
                q,
            );
        assert(p < a.size);
        lemma_prepared_kept(a, wild, w.take(j), p, (n - 1) as nat);
        let c = a.labels[p][q]->0;
        let u = w.skip(j);
        assert(m.labels[p][q] == Some(seq![c]));
        lemma_tidy_char(c, wild, u);
        assert(w.take(j) =~= w.drop_last());
        assert(u[0] == w.last());
        assert(step(a, wild, p, w.last(), q));
    }
}

/// The automaton with an end of its own accepts what the automaton
/// accepts.
pub proof fn lemma_prepared_language(a: Nfa<char>, wild: bool, w: Seq<char>)
    requires
        a.wf(),
        plain_labels(a),
    ensures
        accepts_text(prepared(a), wild, w) <==> accepts(a, wild, w),
{
    let m = prepared(a);
    let end = a.size as int;
    let none = Seq::<char>::empty();
    if accepts(a, wild, w) {
        let q = choose|q: int| 0 <= q < a.size && #[trigger] reaches(a, wild, w, q) && a.accepts[q];
        lemma_prepared_keeps(a, wild, w, q);
        assert(m.labels[q][end] == Some(none));
        assert(edge(m, wild, q, none, end));
        lemma_run_push(m, wild, w, q, w.len(), none, end);
        assert(w + none =~= w);
        assert(runs(m, wild, w, end, w.len() + 1) && 0 <= end < m.size && m.accepts[end]);
    }
    if accepts_text(m, wild, w) {
        let (x, n) = choose|x: int, n: nat| #[trigger]
            runs(m, wild, w, x, n) && 0 <= x < m.size && m.accepts[x];
        assert(x == end);
        let (j, p) = choose|j: int, p: int|
            0 <= j <= w.len() && runs(m, wild, w.take(j), p, (n - 1) as nat) && #[trigger] edge(
                m,
                wild,
                p,
                w.skip(j),
                end,
            );
        assert(p < a.size && a.accepts[p]);
        assert(m.labels[p][end] == Some(none));
        assert(w.skip(j).len() == 0);
        assert(w.take(j) =~= w);
        lemma_prepared_kept(a, wild, w, p, (n - 1) as nat);
        assert(0 <= p < a.size && reaches(a, wild, w, p) && a.accepts[p]);
    }
}

/// The expression that state elimination reads off an automaton matches
/// just what the automaton accepts; where it reads off none, the
/// automaton accepts nothing.
pub proof fn lemma_regex_of_language(a: Nfa<char>, wild: bool, w: Seq<char>)
    requires
        a.wf(),
        a.start_is_source(),
        plain_labels(a),
    ensures
        accepts(a, wild, w) <==> (regex_of(a) matches Some(r) && text_matches(r, wild, w)),
{
    let m = reduced(prepared(a));
    lemma_prepared_funnel(a);
    lemma_prepared_language(a, wild, w);
    lemma_reduced(prepared(a), a.size as int, wild, w);
    lemma_two_states(m, wild, w);
    if m.labels[0][1] is Some {
        let l = m.labels[0][1]->0;
        let r = seq!['^'] + l + seq!['$'];
        assert(tidy(l));
        assert(r.subrange(1, r.len() - 1) =~= l);
        lemma_no_bar(l, wild, w);
    }
}

/// No position of the tree carries a bracket, a bar, a star or a question
/// mark.
pub open spec fn plain_tree(t: TreeView) -> bool {
    plain_positions(leaves_union(t.root))
}

/// From an expression to its automaton and back: the expression that
/// state elimination reads off the position automaton of a tree matches
/// just what the tree matches.
pub proof fn lemma_there_and_back(t: TreeView, wild: bool, w: Seq<char>)
    requires
        t.wf(),
        plain_tree(t),
    ensures
        matches_union(t.root, wild, w) <==> (regex_of(position_nfa(t)) matches Some(r)
            && text_matches(r, wild, w)),
{
    let a = position_nfa(t);
    lemma_position_nfa_wf(t);
    lemma_position_language(t, wild, w);
    assert forall|i: int, j: int| 0 <= i < a.size && 0 <= j < a.size implies ((
    #[trigger] a.labels[i][j]) matches Some(c) ==> !is_mark(c)) by {
        assert(a.labels[i][j] == position_label(t, i, j));
        if a.labels[i][j] is Some {
            assert(!is_mark(leaves_union(t.root)[j - 1].symbol));
        }
    }
    lemma_regex_of_language(a, wild, w);
}

} // verus!
