//! Union and concatenation of automata.
//!
//! Both lay the states out as the start state, then the other states of
//! the first automaton, then the other states of the second.
use vstd::prelude::*;
use crate::ndfa::Automata;
use crate::ndfa::Nfa;
use crate::ndfa::empty_nfa;
use crate::ndfa::is_empty_nfa;

verus! {

/// The label from `x` to `y` in the union of `a` and `b`.
pub open spec fn union_label(a: Nfa<char>, b: Nfa<char>, x: int, y: int) -> Option<char> {
    let m = a.size as int;
    if y < 1 {
        None
    } else if x == 0 {
        if y < m {
            a.labels[0][y]
        } else {
            b.labels[0][y - m + 1]
        }
    } else if x < m {
        if y < m {
            a.labels[x][y]
        } else {
            None
        }
    } else {
        if y < m {
            None
        } else {
            b.labels[x - m + 1][y - m + 1]
        }
    }
}

/// Whether `x` accepts in the union of `a` and `b`.
pub open spec fn union_accepts(a: Nfa<char>, b: Nfa<char>, x: int) -> bool {
    let m = a.size as int;
    if x == 0 {
        a.accepts[0] || b.accepts[0]
    } else if x < m {
        a.accepts[x]
    } else {
        b.accepts[x - m + 1]
    }
}

/// The union of `a` and `b`: their start states are merged into one.
pub open spec fn union_nfa(a: Nfa<char>, b: Nfa<char>) -> Nfa<char> {
    let size = (a.size + b.size - 1) as nat;
    Nfa {
        size,
        labels: Seq::new(size, |x: int| Seq::new(size, |y: int| union_label(a, b, x, y))),
        starts: Seq::new(size, |x: int| x == 0),
        accepts: Seq::new(size, |x: int| union_accepts(a, b, x)),
    }
}

/// The label from `x` to `y` in the concatenation of `a` and `b`.
pub open spec fn concat_label(a: Nfa<char>, b: Nfa<char>, x: int, y: int) -> Option<char> {
    let m = a.size as int;
    if y < 1 {
        None
    } else if x < m {
        if y < m {
            a.labels[x][y]
        } else if a.accepts[x] {
            b.labels[0][y - m + 1]
        } else {
            None
        }
    } else {
        if y < m {
            None
        } else {
            b.labels[x - m + 1][y - m + 1]
        }
    }
}

/// Whether `x` accepts in the concatenation of `a` and `b`.
pub open spec fn concat_accepts(a: Nfa<char>, b: Nfa<char>, x: int) -> bool {
    let m = a.size as int;
    if x < m {
        b.accepts[0] && a.accepts[x]
    } else {
        b.accepts[x - m + 1]
    }
}

/// The states of `a` followed by those of `b` but its start state, whose
/// transitions leave every accepting state of `a` instead.
pub open spec fn spliced_nfa(a: Nfa<char>, b: Nfa<char>) -> Nfa<char> {
    let size = (a.size + b.size - 1) as nat;
    Nfa {
        size,
        labels: Seq::new(size, |x: int| Seq::new(size, |y: int| concat_label(a, b, x, y))),
        starts: Seq::new(size, |x: int| x == 0),
        accepts: Seq::new(size, |x: int| concat_accepts(a, b, x)),
    }
}

/// The concatenation of `a` and `b`: empty if one of them is.
pub open spec fn concat_nfa(a: Nfa<char>, b: Nfa<char>) -> Nfa<char> {
    if is_empty_nfa(a) || is_empty_nfa(b) {
        empty_nfa()
    } else {
        spliced_nfa(a, b)
    }
}

impl Automata {
    /// The label of the transition from `i` to `j`, if there is one.
    pub fn label(&self, i: usize, j: usize) -> (l: Option<char>)
        requires
            self.wf(),
            i < self.size,
            j < self.size,
        ensures
            l == self@.labels[i as int][j as int],
    {
        proof {
            self.lemma_shape();
        }
        self.transition_matrix[i][j]
    }
}

/// The union of `a1` and `a2`.
pub fn union(a1: &Automata, a2: &Automata) -> (automata: Automata)
    requires
        a1.wf(),
        a2.wf(),
        a1.size + a2.size - 1 <= usize::MAX,
    ensures
        automata.wf(),
        automata@ == union_nfa(a1@, a2@),
{
    let m = a1.size;
    let size = a1.size - 1 + a2.size;
    let mut transition_matrix: Vec<Vec<Option<char>>> = Vec::new();
    let mut start_states: Vec<bool> = Vec::new();
    let mut finite_states: Vec<bool> = Vec::new();
    let mut x: usize = 0;
    while x < size
        invariant
            a1.wf(),
            a2.wf(),
            m == a1.size,
            size == a1.size + a2.size - 1,
            x <= size,
            transition_matrix.len() == x,
            start_states.len() == x,
            finite_states.len() == x,
            forall|k: int|
                0 <= k < x ==> (#[trigger] transition_matrix[k])@ == Seq::new(
                    size as nat,
                    |y: int| union_label(a1@, a2@, k, y),
                ),
            forall|k: int| 0 <= k < x ==> #[trigger] start_states[k] == (k == 0),
            forall|k: int| 0 <= k < x ==> #[trigger] finite_states[k] == union_accepts(a1@, a2@, k),
        decreases size - x,
    {
        let mut row: Vec<Option<char>> = Vec::new();
        let mut y: usize = 0;
        while y < size
            invariant
                a1.wf(),
                a2.wf(),
                m == a1.size,
                size == a1.size + a2.size - 1,
                x < size,
                y <= size,
                row.len() == y,
                forall|k: int| 0 <= k < y ==> #[trigger] row[k] == union_label(a1@, a2@, x as int, k),
            decreases size - y,
        {
            let label = if y < 1 {
                None
            } else if x == 0 {
                if y < m {
                    a1.label(0, y)
                } else {
                    a2.label(0, y - m + 1)
                }
            } else if x < m {
                if y < m {
                    a1.label(x, y)
                } else {
                    None
                }
            } else {
                if y < m {
                    None
                } else {
                    a2.label(x - m + 1, y - m + 1)
                }
            };
            row.push(label);
            y += 1;
        }
        assert(row@ =~= Seq::new(size as nat, |y: int| union_label(a1@, a2@, x as int, y)));
        transition_matrix.push(row);
        start_states.push(x == 0);
        let accepting = if x == 0 {
            a1.is_finite_state(0) || a2.is_finite_state(0)
        } else if x < m {
            a1.is_finite_state(x)
        } else {
            a2.is_finite_state(x - m + 1)
        };
        finite_states.push(accepting);
        x += 1;
    }
    let automata = Automata { size, transition_matrix, start_states, finite_states };
    assert(automata@ =~~= union_nfa(a1@, a2@));
    automata
}

/// The concatenation of `a1` and `a2`.
pub fn concatenation(a1: &Automata, a2: &Automata) -> (automata: Automata)
    requires
        a1.wf(),
        a2.wf(),
        a1.size + a2.size - 1 <= usize::MAX,
    ensures
        automata.wf(),
        automata@ == concat_nfa(a1@, a2@),
{
    if a1.is_empty() || a2.is_empty() {
        return Automata::new_empty();
    }
    let m = a1.size;
    let size = a1.size - 1 + a2.size;
    let mut transition_matrix: Vec<Vec<Option<char>>> = Vec::new();
    let mut start_states: Vec<bool> = Vec::new();
    let mut finite_states: Vec<bool> = Vec::new();
    let mut x: usize = 0;
    while x < size
        invariant
            a1.wf(),
            a2.wf(),
            m == a1.size,
            size == a1.size + a2.size - 1,
            x <= size,
            transition_matrix.len() == x,
            start_states.len() == x,
            finite_states.len() == x,
            forall|k: int|
                0 <= k < x ==> (#[trigger] transition_matrix[k])@ == Seq::new(
                    size as nat,
                    |y: int| concat_label(a1@, a2@, k, y),
                ),
            forall|k: int| 0 <= k < x ==> #[trigger] start_states[k] == (k == 0),
            forall|k: int| 0 <= k < x ==> #[trigger] finite_states[k] == concat_accepts(a1@, a2@, k),
        decreases size - x,
    {
        let mut row: Vec<Option<char>> = Vec::new();
        let mut y: usize = 0;
        while y < size
            invariant
                a1.wf(),
                a2.wf(),
                m == a1.size,
                size == a1.size + a2.size - 1,
                x < size,
                y <= size,
                row.len() == y,
                forall|k: int| 0 <= k < y ==> #[trigger] row[k] == concat_label(a1@, a2@, x as int, k),
            decreases size - y,
        {
            let label = if y < 1 {
                None
            } else if x < m {
                if y < m {
                    a1.label(x, y)
                } else if a1.is_finite_state(x) {
                    a2.label(0, y - m + 1)
                } else {
                    None
                }
            } else {
                if y < m {
                    None
                } else {
                    a2.label(x - m + 1, y - m + 1)
                }
            };
            row.push(label);
            y += 1;
        }
        assert(row@ =~= Seq::new(size as nat, |y: int| concat_label(a1@, a2@, x as int, y)));
        transition_matrix.push(row);
        start_states.push(x == 0);
        let accepting = if x < m {
            a2.is_finite_state(0) && a1.is_finite_state(x)
        } else {
            a2.is_finite_state(x - m + 1)
        };
        finite_states.push(accepting);
        x += 1;
    }
    let automata = Automata { size, transition_matrix, start_states, finite_states };
    assert(automata@ =~~= spliced_nfa(a1@, a2@));
    automata
}

} // verus!
