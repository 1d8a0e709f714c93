//! The language of an automaton, and what union and concatenation do to it.
use vstd::prelude::*;
use crate::ndfa::Nfa;
use crate::ndfa::empty_nfa;
use crate::ndfa::epsilon_nfa;
use crate::ndfa::is_empty_nfa;
use crate::ndfa::algebra::union_nfa;
use crate::ndfa::algebra::union_label;
use crate::ndfa::algebra::union_accepts;
use crate::ndfa::algebra::concat_nfa;
use crate::ndfa::algebra::spliced_nfa;
use crate::ndfa::algebra::concat_label;
use crate::ndfa::algebra::concat_accepts;

verus! {

/// A transition labelled `label` can be taken on the character `c`. With
/// `wild`, the label `.` stands for any character.
pub open spec fn label_matches(label: char, c: char, wild: bool) -> bool {
    label == c || (wild && label == '.')
}

/// The automaton can go from `p` to `q` on `c`.
pub open spec fn step(a: Nfa<char>, wild: bool, p: int, c: char, q: int) -> bool {
    &&& 0 <= p < a.size
    &&& 0 <= q < a.size
    &&& a.labels[p][q] matches Some(l) && label_matches(l, c, wild)
}

/// The automaton can be in `q` after it has read `w` from the start state.
pub open spec fn reaches(a: Nfa<char>, wild: bool, w: Seq<char>, q: int) -> bool
    decreases w.len(),
{
    if w.len() == 0 {
        q == 0
    } else {
        exists|p: int| reaches(a, wild, w.drop_last(), p) && #[trigger] step(a, wild, p, w.last(), q)
    }
}

/// `w` is in the language of the automaton.
pub open spec fn accepts(a: Nfa<char>, wild: bool, w: Seq<char>) -> bool {
    exists|q: int| 0 <= q < a.size && #[trigger] reaches(a, wild, w, q) && a.accepts[q]
}

/// Where nothing leads back into the start state, it is reached by the
/// empty string alone.
pub proof fn lemma_start_only_at_first(a: Nfa<char>, wild: bool, w: Seq<char>)
    requires
        a.wf(),
        a.start_is_source(),
        reaches(a, wild, w, 0),
    ensures
        w.len() == 0,
{
    if w.len() > 0 {
        let p = choose|p: int|
            reaches(a, wild, w.drop_last(), p) && #[trigger] step(a, wild, p, w.last(), 0);
        assert(a.labels[p][0] is None);
    }
}

/// The empty automaton accepts nothing.
pub proof fn lemma_empty_language(a: Nfa<char>, wild: bool, w: Seq<char>)
    requires
        a.wf(),
        is_empty_nfa(a),
    ensures
        !accepts(a, wild, w),
{
    if accepts(a, wild, w) {
        let q = choose|q: int| 0 <= q < a.size && #[trigger] reaches(a, wild, w, q) && a.accepts[q];
        assert(q == 0);
    }
}

/// The epsilon automaton accepts the empty string and nothing else.
pub proof fn lemma_epsilon_language(wild: bool, w: Seq<char>)
    ensures
        accepts(epsilon_nfa(), wild, w) <==> w.len() == 0,
{
    let a = epsilon_nfa();
    if w.len() == 0 {
        assert(reaches(a, wild, w, 0));
    }
    if accepts(a, wild, w) && w.len() > 0 {
        let q = choose|q: int| 0 <= q < a.size && #[trigger] reaches(a, wild, w, q) && a.accepts[q];
        let p = choose|p: int|
            reaches(a, wild, w.drop_last(), p) && #[trigger] step(a, wild, p, w.last(), q);
        assert(a.labels[p][q] is None);
    }
}

// -------------------------------------------------------------------------
// Union
// -------------------------------------------------------------------------

/// The union of well-formed automata is well formed, and nothing leads
/// back into its start state.
pub proof fn lemma_union_wf(a: Nfa<char>, b: Nfa<char>)
    requires
        a.wf(),
        b.wf(),
    ensures
        union_nfa(a, b).wf(),
        union_nfa(a, b).start_is_source(),
{
}

/// What state `q` of the union stands for: the merged start state, a state
/// of `a`, or a state of `b`.
pub open spec fn union_reach(a: Nfa<char>, b: Nfa<char>, wild: bool, w: Seq<char>, q: int) -> bool {
    if q == 0 {
        w.len() == 0
    } else if q < a.size {
        reaches(a, wild, w, q)
    } else {
        reaches(b, wild, w, q - a.size + 1)
    }
}

proof fn lemma_union_reaches(a: Nfa<char>, b: Nfa<char>, wild: bool, w: Seq<char>, q: int)
    requires
        a.wf(),
        b.wf(),
        a.start_is_source(),
        b.start_is_source(),
        0 <= q < a.size + b.size - 1,
    ensures
        reaches(union_nfa(a, b), wild, w, q) <==> union_reach(a, b, wild, w, q),
    decreases w.len(),
{
    let r = union_nfa(a, b);
    let m = a.size as int;
    if w.len() == 0 {
    } else {
        let v = w.drop_last();
        let c = w.last();
        if reaches(r, wild, w, q) {
            let p = choose|p: int| reaches(r, wild, v, p) && #[trigger] step(r, wild, p, c, q);
            assert(r.labels[p][q] == union_label(a, b, p, q));
            lemma_union_reaches(a, b, wild, v, p);
            if p == 0 {
                assert(reaches(a, wild, v, 0));
                assert(reaches(b, wild, v, 0));
                if q < m {
                    assert(step(a, wild, 0, c, q));
                } else {
                    assert(step(b, wild, 0, c, q - m + 1));
                }
            } else if p < m {
                assert(step(a, wild, p, c, q));
            } else {
                assert(step(b, wild, p - m + 1, c, q - m + 1));
            }
        }
        if union_reach(a, b, wild, w, q) {
            if q == 0 {
            } else if q < m {
                let p = choose|p: int| reaches(a, wild, v, p) && #[trigger] step(a, wild, p, c, q);
                if p == 0 {
                    lemma_start_only_at_first(a, wild, v);
                }
                lemma_union_reaches(a, b, wild, v, p);
                assert(r.labels[p][q] == union_label(a, b, p, q));
                assert(step(r, wild, p, c, q));
            } else {
                let j = q - m + 1;
                let p = choose|p: int| reaches(b, wild, v, p) && #[trigger] step(b, wild, p, c, j);
                if p == 0 {
                    lemma_start_only_at_first(b, wild, v);
                    lemma_union_reaches(a, b, wild, v, 0);
                    assert(r.labels[0][q] == union_label(a, b, 0, q));
                    assert(step(r, wild, 0, c, q));
                } else {
                    lemma_union_reaches(a, b, wild, v, p + m - 1);
                    assert(r.labels[p + m - 1][q] == union_label(a, b, p + m - 1, q));
                    assert(step(r, wild, p + m - 1, c, q));
                }
            }
        }
    }
}

/// The union accepts a string exactly if one of the two automata does.
pub proof fn lemma_union_language(a: Nfa<char>, b: Nfa<char>, wild: bool, w: Seq<char>)
    requires
        a.wf(),
        b.wf(),
        a.start_is_source(),
        b.start_is_source(),
    ensures
        accepts(union_nfa(a, b), wild, w) <==> accepts(a, wild, w) || accepts(b, wild, w),
{
    let r = union_nfa(a, b);
    let m = a.size as int;
    if accepts(r, wild, w) {
        let q = choose|q: int| 0 <= q < r.size && #[trigger] reaches(r, wild, w, q) && r.accepts[q];
        lemma_union_reaches(a, b, wild, w, q);
        assert(r.accepts[q] == union_accepts(a, b, q));
        if q == 0 {
            assert(reaches(a, wild, w, 0));
            assert(reaches(b, wild, w, 0));
        } else if q < m {
            assert(reaches(a, wild, w, q));
        } else {
            assert(reaches(b, wild, w, q - m + 1));
        }
    }
    if accepts(a, wild, w) {
        let q = choose|q: int| 0 <= q < a.size && #[trigger] reaches(a, wild, w, q) && a.accepts[q];
        if q == 0 {
            lemma_start_only_at_first(a, wild, w);
        }
        lemma_union_reaches(a, b, wild, w, q);
        assert(r.accepts[q] == union_accepts(a, b, q));
        assert(reaches(r, wild, w, q));
    }
    if accepts(b, wild, w) {
        let q = choose|q: int| 0 <= q < b.size && #[trigger] reaches(b, wild, w, q) && b.accepts[q];
        if q == 0 {
            lemma_start_only_at_first(b, wild, w);
            lemma_union_reaches(a, b, wild, w, 0);
            assert(r.accepts[0] == union_accepts(a, b, 0));
            assert(reaches(r, wild, w, 0));
        } else {
            lemma_union_reaches(a, b, wild, w, q + m - 1);
            assert(r.accepts[q + m - 1] == union_accepts(a, b, q + m - 1));
            assert(reaches(r, wild, w, q + m - 1));
        }
    }
}


// -------------------------------------------------------------------------
// Concatenation
// -------------------------------------------------------------------------

/// The concatenation of well-formed automata is well formed, and nothing
/// leads back into its start state.
pub proof fn lemma_concat_wf(a: Nfa<char>, b: Nfa<char>)
    requires
        a.wf(),
        b.wf(),
    ensures
        concat_nfa(a, b).wf(),
        concat_nfa(a, b).start_is_source(),
{
}

/// `w` falls into a string that `a` accepts and a rest on which `b` goes
/// from its start state to `j`.
pub open spec fn crossing(a: Nfa<char>, b: Nfa<char>, wild: bool, w: Seq<char>, j: int) -> bool {
    exists|k: int|
        0 <= k <= w.len() && #[trigger] accepts(a, wild, w.take(k)) && reaches(b, wild, w.skip(k), j)
}

/// What state `q` of the concatenation stands for: a state of `a`, or a
/// state of `b` after `a` has accepted.
pub open spec fn concat_reach(a: Nfa<char>, b: Nfa<char>, wild: bool, w: Seq<char>, q: int) -> bool {
    if q < a.size {
        reaches(a, wild, w, q)
    } else {
        crossing(a, b, wild, w, q - a.size + 1)
    }
}

proof fn lemma_concat_reaches(a: Nfa<char>, b: Nfa<char>, wild: bool, w: Seq<char>, q: int)
    requires
        a.wf(),
        b.wf(),
        a.start_is_source(),
        b.start_is_source(),
        0 <= q < a.size + b.size - 1,
    ensures
        reaches(spliced_nfa(a, b), wild, w, q) <==> concat_reach(a, b, wild, w, q),
    decreases w.len(),
{
    let r = spliced_nfa(a, b);
    let m = a.size as int;
    let j = q - m + 1;
    if w.len() == 0 {
        if q >= m && crossing(a, b, wild, w, j) {
            let k = choose|k: int|
                0 <= k <= w.len() && #[trigger] accepts(a, wild, w.take(k)) && reaches(
                    b,
                    wild,
                    w.skip(k),
                    j,
                );
            assert(w.skip(k).len() == 0);
        }
    } else {
        let v = w.drop_last();
        let c = w.last();
        if reaches(r, wild, w, q) {
            let p = choose|p: int| reaches(r, wild, v, p) && #[trigger] step(r, wild, p, c, q);
            assert(r.labels[p][q] == concat_label(a, b, p, q));
            lemma_concat_reaches(a, b, wild, v, p);
            if q < m {
                assert(step(a, wild, p, c, q));
            } else if p < m {
                assert(accepts(a, wild, v));
                let k = v.len() as int;
                assert(w.take(k) =~= v);
                let u = w.skip(k);
                assert(u.drop_last() =~= Seq::<char>::empty());
                assert(u.last() == c);
                assert(reaches(b, wild, u.drop_last(), 0));
                assert(step(b, wild, 0, u.last(), j));
                assert(reaches(b, wild, w.skip(k), j));
                assert(accepts(a, wild, w.take(k)));
            } else {
                let pj = p - m + 1;
                assert(step(b, wild, pj, c, j));
                let k = choose|k: int|
                    0 <= k <= v.len() && #[trigger] accepts(a, wild, v.take(k)) && reaches(
                        b,
                        wild,
                        v.skip(k),
                        pj,
                    );
                assert(w.take(k) =~= v.take(k));
                assert(w.skip(k).drop_last() =~= v.skip(k));
                assert(w.skip(k).last() == c);
                assert(reaches(b, wild, w.skip(k), j));
                assert(accepts(a, wild, w.take(k)));
            }
        }
        if concat_reach(a, b, wild, w, q) {
            if q < m {
                let p = choose|p: int| reaches(a, wild, v, p) && #[trigger] step(a, wild, p, c, q);
                lemma_concat_reaches(a, b, wild, v, p);
                assert(a.labels[p][0] is None);
                assert(r.labels[p][q] == concat_label(a, b, p, q));
                assert(step(r, wild, p, c, q));
            } else {
                let k = choose|k: int|
                    0 <= k <= w.len() && #[trigger] accepts(a, wild, w.take(k)) && reaches(
                        b,
                        wild,
                        w.skip(k),
                        j,
                    );
                let u = w.skip(k);
                if u.len() == 0 {
                    assert(false);
                }
                assert(u.drop_last() =~= v.skip(k));
                assert(u.last() == c);
                let pj = choose|pj: int|
                    reaches(b, wild, u.drop_last(), pj) && #[trigger] step(b, wild, pj, c, j);
                if pj == 0 {
                    lemma_start_only_at_first(b, wild, v.skip(k));
                    assert(w.take(k) =~= v);
                    let pa = choose|pa: int|
                        0 <= pa < a.size && #[trigger] reaches(a, wild, v, pa) && a.accepts[pa];
                    lemma_concat_reaches(a, b, wild, v, pa);
                    assert(r.labels[pa][q] == concat_label(a, b, pa, q));
                    assert(step(r, wild, pa, c, q));
                } else {
                    assert(w.take(k) =~= v.take(k));
                    assert(accepts(a, wild, v.take(k)));
                    assert(crossing(a, b, wild, v, pj));
                    lemma_concat_reaches(a, b, wild, v, pj + m - 1);
                    assert(r.labels[pj + m - 1][q] == concat_label(a, b, pj + m - 1, q));
                    assert(step(r, wild, pj + m - 1, c, q));
                }
            }
        }
    }
}

/// `w` falls into a string that `a` accepts and a rest that `b` accepts.
pub open spec fn splits(a: Nfa<char>, b: Nfa<char>, wild: bool, w: Seq<char>) -> bool {
    exists|k: int|
        0 <= k <= w.len() && #[trigger] accepts(a, wild, w.take(k)) && accepts(b, wild, w.skip(k))
}

/// The concatenation accepts a string exactly if it falls into a string
/// that the first automaton accepts and a rest that the second accepts.
pub proof fn lemma_concat_language(a: Nfa<char>, b: Nfa<char>, wild: bool, w: Seq<char>)
    requires
        a.wf(),
        b.wf(),
        a.start_is_source(),
        b.start_is_source(),
    ensures
        accepts(concat_nfa(a, b), wild, w) <==> splits(a, b, wild, w),
{
    let m = a.size as int;
    if is_empty_nfa(a) || is_empty_nfa(b) {
        lemma_empty_language(empty_nfa(), wild, w);
        if splits(a, b, wild, w) {
            let k = choose|k: int|
                0 <= k <= w.len() && #[trigger] accepts(a, wild, w.take(k)) && accepts(
                    b,
                    wild,
                    w.skip(k),
                );
            if is_empty_nfa(a) {
                lemma_empty_language(a, wild, w.take(k));
            } else {
                lemma_empty_language(b, wild, w.skip(k));
            }
        }
    } else {
        let r = spliced_nfa(a, b);
        if accepts(r, wild, w) {
            let q = choose|q: int|
                0 <= q < r.size && #[trigger] reaches(r, wild, w, q) && r.accepts[q];
            lemma_concat_reaches(a, b, wild, w, q);
            assert(r.accepts[q] == concat_accepts(a, b, q));
            if q < m {
                let k = w.len() as int;
                assert(w.take(k) =~= w);
                assert(w.skip(k) =~= Seq::<char>::empty());
                assert(reaches(b, wild, w.skip(k), 0));
                assert(accepts(b, wild, w.skip(k)));
                assert(accepts(a, wild, w.take(k)));
            } else {
                let j = q - m + 1;
                let k = choose|k: int|
                    0 <= k <= w.len() && #[trigger] accepts(a, wild, w.take(k)) && reaches(
                        b,
                        wild,
                        w.skip(k),
                        j,
                    );
                assert(accepts(b, wild, w.skip(k)));
            }
        }
        if splits(a, b, wild, w) {
            let k = choose|k: int|
                0 <= k <= w.len() && #[trigger] accepts(a, wild, w.take(k)) && accepts(
                    b,
                    wild,
                    w.skip(k),
                );
            let qb = choose|qb: int|
                0 <= qb < b.size && #[trigger] reaches(b, wild, w.skip(k), qb) && b.accepts[qb];
            if qb == 0 {
                lemma_start_only_at_first(b, wild, w.skip(k));
                assert(w.take(k) =~= w);
                let qa = choose|qa: int|
                    0 <= qa < a.size && #[trigger] reaches(a, wild, w, qa) && a.accepts[qa];
                lemma_concat_reaches(a, b, wild, w, qa);
                assert(r.accepts[qa] == concat_accepts(a, b, qa));
                assert(reaches(r, wild, w, qa));
            } else {
                assert(crossing(a, b, wild, w, qb));
                lemma_concat_reaches(a, b, wild, w, qb + m - 1);
                assert(r.accepts[qb + m - 1] == concat_accepts(a, b, qb + m - 1));
                assert(reaches(r, wild, w, qb + m - 1));
            }
        }
    }
}


// -------------------------------------------------------------------------
// Reading a string
// -------------------------------------------------------------------------

/// One of the first `bound` states that `current` marks leads to `q` on
/// `c`.
pub open spec fn entered(
    a: Nfa<char>,
    wild: bool,
    current: Seq<bool>,
    c: char,
    q: int,
    bound: int,
) -> bool {
    exists|p: int| 0 <= p < bound && current[p] && #[trigger] step(a, wild, p, c, q)
}

proof fn lemma_entered(a: Nfa<char>, wild: bool, current: Seq<bool>, w: Seq<char>, k: int, q: int)
    requires
        a.wf(),
        0 <= k < w.len(),
        current.len() == a.size,
        forall|p: int| 0 <= p < a.size ==> #[trigger] current[p] == reaches(a, wild, w.take(k), p),
    ensures
        entered(a, wild, current, w[k], q, a.size as int) <==> reaches(a, wild, w.take(k + 1), q),
{
    let u = w.take(k + 1);
    assert(u.drop_last() =~= w.take(k));
    assert(u.last() == w[k]);
    if entered(a, wild, current, w[k], q, a.size as int) {
        let p = choose|p: int| 0 <= p < a.size && current[p] && #[trigger] step(a, wild, p, w[k], q);
        assert(reaches(a, wild, u.drop_last(), p));
        assert(step(a, wild, p, u.last(), q));
    }
    if reaches(a, wild, u, q) {
        let p = choose|p: int| reaches(a, wild, u.drop_last(), p) && #[trigger] step(a, wild, p, u.last(), q);
        assert(current[p]);
        assert(step(a, wild, p, w[k], q));
    }
}

impl crate::ndfa::Automata {
    /// Whether the automaton accepts `input`. With `wild`, the label `.`
    /// stands for any character.
    pub fn accepts(&self, input: &str, wild: bool) -> (b: bool)
        requires
            self.wf(),
        ensures
            b == accepts(self@, wild, input@),
    {
        let ghost a = self@;
        let w = crate::text::chars_of(input);
        let n = self.size;
        let mut current: Vec<bool> = Vec::new();
        let mut q: usize = 0;
        while q < n
            invariant
                q <= n,
                current.len() == q,
                forall|p: int| 0 <= p < q ==> #[trigger] current[p] == (p == 0),
            decreases n - q,
        {
            current.push(q == 0);
            q += 1;
        }
        proof {
            assert(w@.take(0) =~= Seq::<char>::empty());
        }
        let mut k: usize = 0;
        while k < w.len()
            invariant
                a == self@,
                self.wf(),
                n == self.size,
                k <= w.len(),
                current.len() == n,
                forall|p: int|
                    0 <= p < n ==> #[trigger] current[p] == reaches(a, wild, w@.take(k as int), p),
            decreases w.len() - k,
        {
            let c = w[k];
            let mut next: Vec<bool> = Vec::new();
            let mut q: usize = 0;
            while q < n
                invariant
                    a == self@,
                    self.wf(),
                    n == self.size,
                    q <= n,
                    current.len() == n,
                    next.len() == q,
                    forall|t: int|
                        0 <= t < q ==> #[trigger] next[t] == entered(a, wild, current@, c, t, n as int),
                decreases n - q,
            {
                let mut found = false;
                let mut p: usize = 0;
                while p < n
                    invariant
                        a == self@,
                        self.wf(),
                        n == self.size,
                        p <= n,
                        q < n,
                        current.len() == n,
                        found == entered(a, wild, current@, c, q as int, p as int),
                    decreases n - p,
                {
                    let ghost before = found;
                    if current[p] {
                        match self.label(p, q) {
                            Some(l) => {
                                if l == c || (wild && l == crate::ndfa::ARBITARY) {
                                    found = true;
                                }
                            },
                            None => {},
                        }
                    }
                    proof {
                        let here = current[p as int] && step(a, wild, p as int, c, q as int);
                        assert(found == (before || here));
                        if entered(a, wild, current@, c, q as int, p + 1) {
                            let x = choose|x: int|
                                0 <= x < p + 1 && current[x] && #[trigger] step(
                                    a,
                                    wild,
                                    x,
                                    c,
                                    q as int,
                                );
                            if x < p {
                                assert(entered(a, wild, current@, c, q as int, p as int));
                            }
                        }
                        if before {
                            let x = choose|x: int|
                                0 <= x < p && current[x] && #[trigger] step(a, wild, x, c, q as int);
                            assert(0 <= x < p + 1 && current[x] && step(a, wild, x, c, q as int));
                        }
                    }
                    p += 1;
                }
                next.push(found);
                q += 1;
            }
            proof {
                assert forall|t: int| 0 <= t < n implies #[trigger] next[t] == reaches(
                    a,
                    wild,
                    w@.take(k + 1),
                    t,
                ) by {
                    lemma_entered(a, wild, current@, w@, k as int, t);
                }
            }
            current = next;
            k += 1;
        }
        proof {
            assert(w@.take(k as int) =~= input@);
        }
        let mut q: usize = 0;
        while q < n
            invariant
                a == self@,
                self.wf(),
                n == self.size,
                q <= n,
                current.len() == n,
                forall|p: int| 0 <= p < n ==> #[trigger] current[p] == reaches(a, wild, input@, p),
                forall|p: int| 0 <= p < q ==> !(#[trigger] reaches(a, wild, input@, p) && a.accepts[p]),
            decreases n - q,
        {
            if current[q] && self.is_finite_state(q) {
                assert(reaches(a, wild, input@, q as int));
                return true;
            }
            q += 1;
        }
        false
    }
}

// -------------------------------------------------------------------------
// Union and concatenation, all in one
// -------------------------------------------------------------------------

/// The union of two automata into whose start states nothing leads back:
/// it has the states of both with the start states merged; state 0 is its
/// one start state, and accepts if one of the two start states does; and
/// it accepts a string exactly if one of the two automata does.
pub proof fn lemma_union_law(a: Nfa<char>, b: Nfa<char>, wild: bool, w: Seq<char>)
    requires
        a.wf(),
        b.wf(),
        a.start_is_source(),
        b.start_is_source(),
    ensures
        union_nfa(a, b).size == a.size + b.size - 1,
        union_nfa(a, b).wf(),
        union_nfa(a, b).start_is_source(),
        union_nfa(a, b).accepts[0] == (a.accepts[0] || b.accepts[0]),
        accepts(union_nfa(a, b), wild, w) <==> accepts(a, wild, w) || accepts(b, wild, w),
{
    lemma_union_wf(a, b);
    lemma_union_language(a, b, wild, w);
}

/// The concatenation of two automata into whose start states nothing
/// leads back: state 0 is its one start state, nothing leads back into
/// it, and it accepts a string exactly if the string falls into a string
/// that the first automaton accepts and a rest that the second accepts.
pub proof fn lemma_concat_law(a: Nfa<char>, b: Nfa<char>, wild: bool, w: Seq<char>)
    requires
        a.wf(),
        b.wf(),
        a.start_is_source(),
        b.start_is_source(),
    ensures
        concat_nfa(a, b).wf(),
        concat_nfa(a, b).start_is_source(),
        accepts(concat_nfa(a, b), wild, w) <==> splits(a, b, wild, w),
{
    lemma_concat_wf(a, b);
    lemma_concat_language(a, b, wild, w);
}

} // verus!
