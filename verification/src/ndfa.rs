//! Non-deterministic finite automata over a matrix of labels.
//!
//! State 0 is the start state. Between two states there is at most one
//! transition; its label stands in the matrix of transitions.
use vstd::prelude::*;

pub use crate::ndfa::algebra::concatenation;
pub use crate::ndfa::algebra::union;
pub use crate::ndfa::product::intersection;

pub mod ast;
pub mod algebra;
pub mod construction;
pub mod elimination;
pub mod grammar;
pub mod language;
pub mod meaning;
pub mod paths;
pub mod product;
pub mod reading;
pub mod shape;

verus! {

/// The index of the start state.
pub const START: usize = 0;

/// The label that stands for any character.
pub const ARBITARY: char = '.';

/// An automaton of `size` states with labels of type `T`.
#[derive(Debug)]
pub struct Automata<T = char> {
    pub size: usize,
    pub transition_matrix: Vec<Vec<Option<T>>>,
    pub start_states: Vec<bool>,
    pub finite_states: Vec<bool>,
}

/// The mathematical value of an [`Automata`].
#[verifier::ext_equal]
pub struct Nfa<T> {
    pub size: nat,
    pub labels: Seq<Seq<Option<T>>>,
    pub starts: Seq<bool>,
    pub accepts: Seq<bool>,
}

impl<T> Nfa<T> {
    /// The matrix is square, the masks are as long as it, and state 0 is
    /// the one start state.
    pub open spec fn wf(self) -> bool {
        &&& self.size >= 1
        &&& self.labels.len() == self.size
        &&& forall|i: int| 0 <= i < self.size ==> (#[trigger] self.labels[i]).len() == self.size
        &&& self.starts.len() == self.size
        &&& self.accepts.len() == self.size
        &&& forall|i: int| 0 <= i < self.size ==> #[trigger] self.starts[i] == (i == 0)
    }

    /// No transition leads back into the start state.
    pub open spec fn start_is_source(self) -> bool {
        forall|i: int| 0 <= i < self.size ==> (#[trigger] self.labels[i])[0] is None
    }

    /// The automaton of `size` states without transitions and accepting
    /// states.
    pub open spec fn blank(size: nat) -> Nfa<T> {
        Nfa {
            size,
            labels: Seq::new(size, |i: int| Seq::new(size, |j: int| None)),
            starts: Seq::new(size, |i: int| i == 0),
            accepts: Seq::new(size, |i: int| false),
        }
    }
}

impl<T> View for Automata<T> {
    type V = Nfa<T>;

    open spec fn view(&self) -> Nfa<T> {
        Nfa {
            size: self.size as nat,
            labels: Seq::new(
                self.transition_matrix.len() as nat,
                |i: int| self.transition_matrix[i]@,
            ),
            starts: self.start_states@,
            accepts: self.finite_states@,
        }
    }
}

/// The automaton that accepts nothing.
pub open spec fn empty_nfa() -> Nfa<char> {
    Nfa::blank(1)
}

/// The automaton that accepts the empty string and nothing else.
pub open spec fn epsilon_nfa() -> Nfa<char> {
    Nfa { accepts: seq![true], ..Nfa::blank(1) }
}

/// The automaton has one state, which does not accept and has no loop.
pub open spec fn is_empty_nfa(a: Nfa<char>) -> bool {
    a.size == 1 && a.starts[0] && a.labels[0][0] is None && !a.accepts[0]
}

impl<T> Automata<T> {
    /// The automaton is well formed.
    pub open spec fn wf(&self) -> bool {
        self@.wf()
    }

    /// An automaton of `size` states without transitions and accepting
    /// states.
    pub fn new(size: usize) -> (a: Self)
        requires
            size >= 1,
        ensures
            a.wf(),
            a@ == Nfa::<T>::blank(size as nat),
    {
        let mut start_states: Vec<bool> = Vec::new();
        let mut finite_states: Vec<bool> = Vec::new();
        let mut transition_matrix: Vec<Vec<Option<T>>> = Vec::new();
        let mut i: usize = 0;
        while i < size
            invariant
                i <= size,
                start_states.len() == i,
                finite_states.len() == i,
                transition_matrix.len() == i,
                forall|k: int| 0 <= k < i ==> #[trigger] start_states[k] == (k == 0),
                forall|k: int| 0 <= k < i ==> !#[trigger] finite_states[k],
                forall|k: int|
                    0 <= k < i ==> (#[trigger] transition_matrix[k])@ == Seq::new(
                        size as nat,
                        |j: int| None::<T>,
                    ),
            decreases size - i,
        {
            let mut row: Vec<Option<T>> = Vec::new();
            let mut j: usize = 0;
            while j < size
                invariant
                    j <= size,
                    row.len() == j,
                    forall|k: int| 0 <= k < j ==> #[trigger] row[k] is None,
                decreases size - j,
            {
                row.push(None);
                j += 1;
            }
            assert(row@ =~= Seq::new(size as nat, |j: int| None::<T>));
            transition_matrix.push(row);
            start_states.push(i == START);
            finite_states.push(false);
            i += 1;
        }
        let a = Self { start_states, transition_matrix, finite_states, size };
        assert(a@ =~~= Nfa::<T>::blank(size as nat));
        a
    }

    /// The fields of a well-formed automaton have the lengths that its
    /// value has.
    pub proof fn lemma_shape(&self)
        requires
            self.wf(),
        ensures
            self.transition_matrix.len() == self.size,
            self.start_states.len() == self.size,
            self.finite_states.len() == self.size,
            forall|i: int|
                0 <= i < self.size ==> (#[trigger] self.transition_matrix[i]).len() == self.size,
            forall|i: int|
                0 <= i < self.size ==> #[trigger] self@.labels[i] == self.transition_matrix[i]@,
    {
        assert forall|i: int| 0 <= i < self.size implies (#[trigger] self.transition_matrix[i]).len()
            == self.size by {
            assert(self@.labels[i].len() == self.size);
        }
    }

    /// Whether `i` is the start state.
    pub fn is_start_state(&self, i: usize) -> (b: bool)
        requires
            self.wf(),
            i < self.size,
        ensures
            b == self@.starts[i as int],
            b == (i == 0),
    {
        self.start_states[i]
    }

    /// Whether the state `i` accepts.
    pub fn is_finite_state(&self, i: usize) -> (b: bool)
        requires
            self.wf(),
            i < self.size,
        ensures
            b == self@.accepts[i as int],
    {
        self.finite_states[i]
    }

    /// Puts `label` on the transition from `i` to `j`.
    pub fn set_label(&mut self, i: usize, j: usize, label: Option<T>)
        requires
            old(self).wf(),
            i < old(self).size,
            j < old(self).size,
        ensures
            final(self).wf(),
            final(self)@ == (Nfa {
                labels: old(self)@.labels.update(
                    i as int,
                    old(self)@.labels[i as int].update(j as int, label),
                ),
                ..old(self)@
            }),
    {
        proof {
            self.lemma_shape();
        }
        self.transition_matrix[i][j] = label;
        assert(self@ =~~= (Nfa {
            labels: old(self)@.labels.update(
                i as int,
                old(self)@.labels[i as int].update(j as int, label),
            ),
            ..old(self)@
        }));
    }

    /// Makes state `i` accepting or not.
    pub fn set_finite(&mut self, i: usize, accepting: bool)
        requires
            old(self).wf(),
            i < old(self).size,
        ensures
            final(self).wf(),
            final(self)@ == (Nfa {
                accepts: old(self)@.accepts.update(i as int, accepting),
                ..old(self)@
            }),
    {
        self.finite_states.set(i, accepting);
        assert(self@ =~~= (Nfa {
            accepts: old(self)@.accepts.update(i as int, accepting),
            ..old(self)@
        }));
    }
}

impl Automata {
    /// The automaton that accepts nothing.
    pub fn new_empty() -> (a: Self)
        ensures
            a.wf(),
            a@ == empty_nfa(),
    {
        Self::new(1)
    }

    /// The automaton that accepts the empty string and nothing else.
    pub fn new_epsilon() -> (a: Self)
        ensures
            a.wf(),
            a@ == epsilon_nfa(),
    {
        let mut automata = Self::new(1);
        automata.set_finite(START, true);
        assert(automata@ =~~= epsilon_nfa());
        automata
    }

    /// Whether the automaton has one state, which does not accept and has
    /// no loop.
    pub fn is_empty(&self) -> (b: bool)
        requires
            self.wf(),
        ensures
            b == is_empty_nfa(self@),
    {
        proof {
            self.lemma_shape();
        }
        self.size == 1 && self.is_start_state(START) && self.transition_matrix[START][START].is_none()
            && !self.is_finite_state(START)
    }
}

} // verus!
