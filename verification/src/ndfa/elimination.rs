//! From an automaton back to an expression, by state elimination.
//!
//! The automaton gets one accepting state of its own. Then the states
//! between the start state and that state are removed one after the other,
//! the lowest first; the ways through a removed state are written into the
//! labels of the transitions that remain.
use vstd::prelude::*;
use crate::ndfa::Automata;
use crate::ndfa::Nfa;
use crate::ndfa::START;
use crate::parser::group_end;
use crate::text::chars_of;

verus! {

// -------------------------------------------------------------------------
// Labels
// -------------------------------------------------------------------------

/// `s` is one group: its first bracket is closed by its last character.
pub open spec fn is_group(s: Seq<char>) -> bool {
    s.len() >= 2 && s[0] == '(' && s.last() == ')' && group_end(s, 1, 1) == s.len()
}

/// `s` in brackets.
pub open spec fn wrapped(s: Seq<char>) -> Seq<char> {
    seq!['('] + s + seq![')']
}

/// `s`, in brackets unless it is a single character or one group.
pub open spec fn wrapped_if_needed(s: Seq<char>) -> Seq<char> {
    if s.len() == 1 || is_group(s) {
        s
    } else {
        wrapped(s)
    }
}

/// The way through the removed state adds nothing but repetitions of the
/// label that leads into it.
pub open spec fn unfolds(
    former: Option<Seq<char>>,
    incoming: Seq<char>,
    cyclic: Option<Seq<char>>,
    outcoming: Seq<char>,
) -> bool {
    former == Some(Seq::<char>::empty()) && cyclic == Some(incoming) && outcoming.len() == 0
}

/// The way through the removed state: in, around as often as wanted, out.
pub open spec fn through(incoming: Seq<char>, cyclic: Option<Seq<char>>, outcoming: Seq<char>) -> Seq<
    char,
> {
    match cyclic {
        Some(c) => incoming + wrapped_if_needed(c) + seq!['*'] + outcoming,
        None => incoming + outcoming,
    }
}

/// The label of a transition after a state between its ends was removed,
/// where `former` was its label before, and `incoming`, `cyclic` and
/// `outcoming` are the labels into, around and out of the removed state.
pub open spec fn spliced_label(
    former: Option<Seq<char>>,
    incoming: Seq<char>,
    cyclic: Option<Seq<char>>,
    outcoming: Seq<char>,
) -> Seq<char> {
    if unfolds(former, incoming, cyclic, outcoming) {
        wrapped_if_needed(incoming) + seq!['*']
    } else {
        match former {
            None => through(incoming, cyclic, outcoming),
            Some(f) => if f.len() == 0 {
                wrapped_if_needed(through(incoming, cyclic, outcoming)) + seq!['?']
            } else {
                wrapped(f + seq!['|'] + through(incoming, cyclic, outcoming))
            },
        }
    }
}

/// The text of a label.
pub open spec fn text_of(l: Option<String>) -> Option<Seq<char>> {
    match l {
        Some(s) => Some(s@),
        None => None,
    }
}

/// The automaton with its labels taken as texts.
pub open spec fn texts(n: Nfa<String>) -> Nfa<Seq<char>> {
    Nfa {
        size: n.size,
        labels: Seq::new(
            n.labels.len(),
            |i: int| Seq::new(n.labels[i].len(), |j: int| text_of(n.labels[i][j])),
        ),
        starts: n.starts,
        accepts: n.accepts,
    }
}

// -------------------------------------------------------------------------
// Elimination
// -------------------------------------------------------------------------

/// The automaton with one more state, which alone accepts: every state
/// that accepted has a transition with the empty label into it.
pub open spec fn prepared(a: Nfa<char>) -> Nfa<Seq<char>> {
    let size = a.size + 1;
    Nfa {
        size,
        labels: Seq::new(
            size,
            |i: int|
                Seq::new(
                    size,
                    |j: int|
                        if i < a.size && j < a.size {
                            match a.labels[i][j] {
                                Some(c) => Some(seq![c]),
                                None => None,
                            }
                        } else if i < a.size && a.accepts[i] {
                            Some(Seq::<char>::empty())
                        } else {
                            None
                        },
                ),
        ),
        starts: Seq::new(size, |i: int| i == 0),
        accepts: Seq::new(size, |i: int| i == a.size),
    }
}

/// The first state from `from` on that neither starts nor accepts, or the
/// number of states if there is none.
pub open spec fn pick_from(m: Nfa<Seq<char>>, from: int) -> int
    decreases m.size - from,
{
    if from < 0 || from >= m.size {
        m.size as int
    } else if !m.starts[from] && !m.accepts[from] {
        from
    } else {
        pick_from(m, from + 1)
    }
}

/// The label from `i` to `j` once the ways through `k` are written into
/// it.
pub open spec fn absorbed(m: Nfa<Seq<char>>, k: int, i: int, j: int) -> Option<Seq<char>> {
    if i != k && j != k && m.labels[i][k] is Some && m.labels[k][j] is Some {
        Some(spliced_label(m.labels[i][j], m.labels[i][k]->0, m.labels[k][k], m.labels[k][j]->0))
    } else {
        m.labels[i][j]
    }
}

/// The automaton in which the ways through `k` are written into the
/// labels from `(0, 0)` up to, but without, `(i, j)`, row by row.
pub open spec fn absorbed_upto(m: Nfa<Seq<char>>, k: int, i: int, j: int) -> Nfa<Seq<char>> {
    Nfa {
        labels: Seq::new(
            m.size,
            |x: int|
                Seq::new(
                    m.size,
                    |y: int|
                        if x < i || (x == i && y < j) {
                            absorbed(m, k, x, y)
                        } else {
                            m.labels[x][y]
                        },
                ),
        ),
        ..m
    }
}

/// The state that stands at `x` once `k` was replaced by the last state.
pub open spec fn moved(size: nat, k: int, x: int) -> int {
    if x == k {
        size - 1
    } else {
        x
    }
}

/// The automaton without the state `k`, whose place the last state takes.
pub open spec fn removed(m: Nfa<Seq<char>>, k: int) -> Nfa<Seq<char>> {
    let size = (m.size - 1) as nat;
    Nfa {
        size,
        labels: Seq::new(
            size,
            |x: int| Seq::new(size, |y: int| m.labels[moved(m.size, k, x)][moved(m.size, k, y)]),
        ),
        starts: Seq::new(size, |x: int| m.starts[moved(m.size, k, x)]),
        accepts: Seq::new(size, |x: int| m.accepts[moved(m.size, k, x)]),
    }
}

/// The automaton after the state `k` was eliminated.
pub open spec fn eliminated(m: Nfa<Seq<char>>, k: int) -> Nfa<Seq<char>> {
    removed(absorbed_upto(m, k, m.size as int, 0), k)
}

/// The automaton after every state that neither starts nor accepts was
/// eliminated, the lowest first.
pub open spec fn reduced(m: Nfa<Seq<char>>) -> Nfa<Seq<char>>
    decreases m.size,
{
    let k = pick_from(m, 0);
    if 0 <= k < m.size {
        reduced(eliminated(m, k))
    } else {
        m
    }
}

/// The expression that state elimination reads off the automaton: the
/// label that is left between the start state and the accepting state,
/// between `^` and `$`; none if no label is left.
pub open spec fn regex_of(a: Nfa<char>) -> Option<Seq<char>> {
    let m = reduced(prepared(a));
    match m.labels[0][m.size - 1] {
        Some(l) => Some(seq!['^'] + l + seq!['$']),
        None => None,
    }
}


/// A copy of `l`.
fn copy_label(l: &Option<String>) -> (r: Option<String>)
    ensures
        text_of(r) == text_of(*l),
{
    match l {
        Some(s) => Some(s.clone()),
        None => None,
    }
}

/// Whether `chars` is one group.
fn is_one_group(chars: &Vec<char>) -> (g: bool)
    ensures
        g == is_group(chars@),
{
    let n = chars.len();
    if n < 2 || chars[0] != '(' || chars[n - 1] != ')' {
        return false;
    }
    let mut i: usize = 1;
    // brackets opened behind the first and still open
    let mut nested: usize = 0;
    while i < n
        invariant
            n == chars.len(),
            n >= 2,
            chars[0] == '(',
            chars[n - 1] == ')',
            1 <= i <= n,
            nested <= i - 1,
            group_end(chars@, i as int, (nested + 1) as nat) == group_end(chars@, 1, 1),
        decreases n - i,
    {
        if chars[i] == '(' {
            nested += 1;
        } else if chars[i] == ')' {
            if nested == 0 {
                assert(group_end(chars@, i + 1, 0) == i + 1);
                return i + 1 == n;
            }
            nested -= 1;
        }
        i += 1;
    }
    false
}

impl Automata<String> {
    /// Whether the way through the removed state adds nothing but
    /// repetitions of the label that leads into it.
    pub fn is_unfold_axiom_applicable(
        former_regex_opt: &Option<String>,
        incoming_regex: &String,
        cyclic_regex_opt: &Option<String>,
        outcoming_regex: &String,
    ) -> (b: bool)
        ensures
            b == unfolds(
                text_of(*former_regex_opt),
                incoming_regex@,
                text_of(*cyclic_regex_opt),
                outcoming_regex@,
            ),
    {
        let former_is_epsilon = match former_regex_opt {
            Some(former) => former.as_str().is_empty(),
            None => false,
        };
        let cyclic_is_incoming = match cyclic_regex_opt {
            Some(cyclic) => *cyclic == *incoming_regex,
            None => false,
        };
        proof {
            if former_regex_opt is Some {
                assert(former_is_epsilon <==> text_of(*former_regex_opt) == Some(
                    Seq::<char>::empty(),
                )) by {
                    if former_is_epsilon {
                        assert(former_regex_opt->0@ =~= Seq::<char>::empty());
                    }
                }
            }
        }
        former_is_epsilon && cyclic_is_incoming && outcoming_regex.as_str().is_empty()
    }

    /// `regex` in brackets.
    pub fn wrap(regex: &String) -> (r: String)
        ensures
            r@ == wrapped(regex@),
    {
        let mut r = String::new();
        r.push('(');
        r.append(regex.as_str());
        r.push(')');
        assert(r@ =~= wrapped(regex@));
        r
    }

    /// `regex`, in brackets unless it is a single character or one group.
    pub fn wrap_if_needed(regex: &String) -> (r: String)
        ensures
            r@ == wrapped_if_needed(regex@),
    {
        let chars = chars_of(regex.as_str());
        if chars.len() == 1 || is_one_group(&chars) {
            regex.clone()
        } else {
            Self::wrap(regex)
        }
    }

    /// The label of a transition after a state between its ends was
    /// removed.
    pub fn splice(
        former_regex_opt: &Option<String>,
        incoming_regex: &String,
        cyclic_regex_opt: &Option<String>,
        outcoming_regex: &String,
    ) -> (r: String)
        ensures
            r@ == spliced_label(
                text_of(*former_regex_opt),
                incoming_regex@,
                text_of(*cyclic_regex_opt),
                outcoming_regex@,
            ),
    {
        // Optimisations
        if Self::is_unfold_axiom_applicable(
            former_regex_opt,
            incoming_regex,
            cyclic_regex_opt,
            outcoming_regex,
        ) {
            let mut r = Self::wrap_if_needed(incoming_regex);
            r.push('*');
            return r;
        }
        // Common scenario
        let mut result = String::new();
        let mut can_be_epsilon = false;
        let mut must_be_wrapped = false;
        match former_regex_opt {
            Some(former_regex) => {
                if former_regex.as_str().is_empty() {
                    can_be_epsilon = true;
                } else {
                    must_be_wrapped = true;
                    result.append(former_regex.as_str());
                    result.push('|');
                }
            },
            None => {},
        }
        let ghost prefix = result@;
        result.append(incoming_regex.as_str());
        match cyclic_regex_opt {
            Some(cyclic_regex) => {
                let star = Self::wrap_if_needed(cyclic_regex);
                result.append(star.as_str());
                result.push('*');
            },
            None => {},
        }
        if !outcoming_regex.as_str().is_empty() {
            result.append(outcoming_regex.as_str());
        }
        proof {
            let way = through(incoming_regex@, text_of(*cyclic_regex_opt), outcoming_regex@);
            assert(result@ =~= prefix + way);
            if must_be_wrapped {
                assert(prefix =~= former_regex_opt->0@ + seq!['|']);
                assert(result@ =~= former_regex_opt->0@ + seq!['|'] + way);
            } else {
                assert(prefix =~= Seq::<char>::empty());
                assert(result@ =~= way);
            }
        }
        if must_be_wrapped {
            result = Self::wrap(&result);
        }
        if can_be_epsilon {
            result = Self::wrap_if_needed(&result);
            result.push('?');
        }
        result
    }

    /// Writes the way from `incoming` through `current` to `outcoming` into
    /// the label from `incoming` to `outcoming`.
    pub fn eliminate_transition(&mut self, incoming: usize, current: usize, outcoming: usize)
        requires
            old(self).wf(),
            incoming < old(self).size,
            current < old(self).size,
            outcoming < old(self).size,
            old(self)@.labels[incoming as int][current as int] is Some,
            old(self)@.labels[current as int][outcoming as int] is Some,
        ensures
            final(self).wf(),
            texts(final(self)@) == (Nfa {
                labels: texts(old(self)@).labels.update(
                    incoming as int,
                    texts(old(self)@).labels[incoming as int].update(
                        outcoming as int,
                        Some(
                            spliced_label(
                                texts(old(self)@).labels[incoming as int][outcoming as int],
                                texts(old(self)@).labels[incoming as int][current as int]->0,
                                texts(old(self)@).labels[current as int][current as int],
                                texts(old(self)@).labels[current as int][outcoming as int]->0,
                            ),
                        ),
                    ),
                ),
                ..texts(old(self)@)
            }),
    {
        proof {
            self.lemma_shape();
        }
        let former_regex_opt = copy_label(&self.transition_matrix[incoming][outcoming]);
        let incoming_regex_opt = copy_label(&self.transition_matrix[incoming][current]);
        let cyclic_regex_opt = copy_label(&self.transition_matrix[current][current]);
        let outcoming_regex_opt = copy_label(&self.transition_matrix[current][outcoming]);
        match (incoming_regex_opt, outcoming_regex_opt) {
            (Some(incoming_regex), Some(outcoming_regex)) => {
                let label = Self::splice(
                    &former_regex_opt,
                    &incoming_regex,
                    &cyclic_regex_opt,
                    &outcoming_regex,
                );
                self.set_label(incoming, outcoming, Some(label));
                assert(texts(self@) =~~= (Nfa {
                    labels: texts(old(self)@).labels.update(
                        incoming as int,
                        texts(old(self)@).labels[incoming as int].update(
                            outcoming as int,
                            Some(label@),
                        ),
                    ),
                    ..texts(old(self)@)
                }));
            },
            _ => {
                assert(false);
            },
        }
    }

    /// Removes the state `i`; the last state takes its place.
    pub fn eliminate_state(&mut self, i: usize)
        requires
            old(self).wf(),
            1 <= i < old(self).size,
        ensures
            final(self).wf(),
            texts(final(self)@) == removed(texts(old(self)@), i as int),
    {
        proof {
            self.lemma_shape();
            assert(self.wf());
        }
        let ghost rows = self.transition_matrix@;
        let ghost before = *self;
        let n = self.size;
        self.start_states.swap_remove(i);
        self.transition_matrix.swap_remove(i);
        let mut r: usize = 0;
        while r < n - 1
            invariant
                1 <= i < n,
                r <= n - 1,
                rows.len() == n,
                self.size == n,
                self.finite_states == before.finite_states,
                self.start_states@ == before.start_states@.update(
                    i as int,
                    before.start_states@.last(),
                ).drop_last(),
                forall|x: int| 0 <= x < n ==> (#[trigger] rows[x]).len() == n,
                self.transition_matrix.len() == n - 1,
                forall|x: int|
                    0 <= x < r ==> (#[trigger] self.transition_matrix[x])@ == rows[moved(
                        n as nat,
                        i as int,
                        x,
                    )]@.update(i as int, rows[moved(n as nat, i as int, x)]@.last()).drop_last(),
                forall|x: int|
                    r <= x < n - 1 ==> #[trigger] self.transition_matrix[x] == rows[moved(
                        n as nat,
                        i as int,
                        x,
                    )],
            decreases n - 1 - r,
        {
            self.transition_matrix[r].swap_remove(i);
            r += 1;
        }
        self.finite_states.swap_remove(i);
        self.size -= 1;
        proof {
            assert(self@.labels.len() == n - 1);
            assert forall|x: int| 0 <= x < n - 1 implies (#[trigger] self@.labels[x]).len() == n
                - 1 by {
                assert(self.transition_matrix[x]@.len() == n - 1);
            }
            assert(before.finite_states@.len() == n);
            assert(before.start_states@.len() == n);
            assert(texts(self@) =~~= removed(texts(old(self)@), i as int)) by {
                assert forall|x: int, y: int| 0 <= x < n - 1 && 0 <= y < n - 1 implies texts(
                    self@,
                ).labels[x][y] == removed(texts(old(self)@), i as int).labels[x][y] by {
                    assert(self.transition_matrix[x]@[y] == rows[moved(n as nat, i as int, x)]@[moved(
                        n as nat,
                        i as int,
                        y,
                    )]);
                }
            }
        }
    }
}


proof fn lemma_texts_shape(a: &Automata<String>)
    requires
        a.wf(),
    ensures
        texts(a@).wf(),
        texts(a@).size == a.size,
        a.transition_matrix.len() == a.size,
        forall|i: int| 0 <= i < a.size ==> (#[trigger] a.transition_matrix[i]).len() == a.size,
        forall|i: int, j: int|
            0 <= i < a.size && 0 <= j < a.size ==> #[trigger] texts(a@).labels[i][j] == text_of(
                a.transition_matrix[i][j],
            ),
        forall|i: int, j: int|
            0 <= i < a.size && 0 <= j < a.size ==> #[trigger] a@.labels[i][j]
                == a.transition_matrix[i][j],
{
    a.lemma_shape();
}

/// Before any label was rewritten the automaton is as it was.
proof fn lemma_absorbed_start(m: Nfa<Seq<char>>, k: int)
    requires
        m.wf(),
    ensures
        absorbed_upto(m, k, 0, 0) == m,
{
    assert(absorbed_upto(m, k, 0, 0) =~~= m);
}

/// A row without a transition into `k` stays as it was.
proof fn lemma_absorbed_row_skip(m: Nfa<Seq<char>>, k: int, i: int)
    requires
        m.wf(),
        0 <= i < m.size,
        i == k || m.labels[i][k] is None,
    ensures
        absorbed_upto(m, k, i + 1, 0) == absorbed_upto(m, k, i, 0),
{
    assert(absorbed_upto(m, k, i + 1, 0) =~~= absorbed_upto(m, k, i, 0));
}

/// A row that was gone through to its end is done.
proof fn lemma_absorbed_row_end(m: Nfa<Seq<char>>, k: int, i: int)
    requires
        m.wf(),
        0 <= i < m.size,
    ensures
        absorbed_upto(m, k, i, m.size as int) == absorbed_upto(m, k, i + 1, 0),
{
    assert(absorbed_upto(m, k, i, m.size as int) =~~= absorbed_upto(m, k, i + 1, 0));
}

/// A label without a way through `k` stays as it was.
proof fn lemma_absorbed_skip(m: Nfa<Seq<char>>, k: int, i: int, j: int)
    requires
        m.wf(),
        0 <= i < m.size,
        0 <= j < m.size,
        0 <= k < m.size,
        i == k || j == k || m.labels[i][k] is None || m.labels[k][j] is None,
    ensures
        absorbed_upto(m, k, i, j + 1) == absorbed_upto(m, k, i, j),
{
    assert(absorbed_upto(m, k, i, j + 1) =~~= absorbed_upto(m, k, i, j));
}

/// Rewriting the label from `i` to `j` is the next step.
proof fn lemma_absorbed_step(m: Nfa<Seq<char>>, k: int, i: int, j: int)
    requires
        m.wf(),
        0 <= i < m.size,
        0 <= j < m.size,
        0 <= k < m.size,
        i != k,
        j != k,
        m.labels[i][k] is Some,
        m.labels[k][j] is Some,
    ensures
        ({
            let cur = absorbed_upto(m, k, i, j);
            &&& cur.labels[i][k] is Some
            &&& cur.labels[k][j] is Some
            &&& absorbed_upto(m, k, i, j + 1) == (Nfa {
                labels: cur.labels.update(
                    i,
                    cur.labels[i].update(
                        j,
                        Some(
                            spliced_label(
                                cur.labels[i][j],
                                cur.labels[i][k]->0,
                                cur.labels[k][k],
                                cur.labels[k][j]->0,
                            ),
                        ),
                    ),
                ),
                ..cur
            })
        }),
{
    let cur = absorbed_upto(m, k, i, j);
    assert(cur.labels[i][j] == m.labels[i][j]);
    assert(cur.labels[i][k] == m.labels[i][k]);
    assert(cur.labels[k][k] == m.labels[k][k]);
    assert(cur.labels[k][j] == m.labels[k][j]);
    assert(absorbed_upto(m, k, i, j + 1) =~~= (Nfa {
        labels: cur.labels.update(
            i,
            cur.labels[i].update(
                j,
                Some(
                    spliced_label(
                        cur.labels[i][j],
                        cur.labels[i][k]->0,
                        cur.labels[k][k],
                        cur.labels[k][j]->0,
                    ),
                ),
            ),
        ),
        ..cur
    }));
}

impl Automata<char> {
    /// The automaton with one more state, which alone accepts, and with
    /// texts for labels.
    pub fn prepare_for_state_elimination(&self) -> (automata: Automata<String>)
        requires
            self.wf(),
            self.size < usize::MAX,
        ensures
            automata.wf(),
            texts(automata@) == prepared(self@),
    {
        let n = self.size;
        let size = n + 1;
        let mut transition_matrix: Vec<Vec<Option<String>>> = Vec::new();
        let mut start_states: Vec<bool> = Vec::new();
        let mut finite_states: Vec<bool> = Vec::new();
        let mut i: usize = 0;
        while i < size
            invariant
                self.wf(),
                n == self.size,
                size == n + 1,
                i <= size,
                transition_matrix.len() == i,
                start_states.len() == i,
                finite_states.len() == i,
                forall|k: int| 0 <= k < i ==> (#[trigger] transition_matrix[k]).len() == size,
                forall|k: int, j: int|
                    0 <= k < i && 0 <= j < size ==> text_of(#[trigger] transition_matrix[k][j])
                        == prepared(self@).labels[k][j],
                forall|k: int| 0 <= k < i ==> #[trigger] start_states[k] == (k == 0),
                forall|k: int| 0 <= k < i ==> #[trigger] finite_states[k] == (k == n),
            decreases size - i,
        {
            let mut row: Vec<Option<String>> = Vec::new();
            let mut j: usize = 0;
            while j < size
                invariant
                    self.wf(),
                    n == self.size,
                    size == n + 1,
                    i < size,
                    j <= size,
                    row.len() == j,
                    forall|k: int|
                        0 <= k < j ==> text_of(#[trigger] row[k]) == prepared(
                            self@,
                        ).labels[i as int][k],
                decreases size - j,
            {
                let label = if i < n && j < n {
                    match self.label(i, j) {
                        Some(symbol) => {
                            let mut text = String::new();
                            text.push(symbol);
                            assert(text@ =~= seq![symbol]);
                            Some(text)
                        },
                        None => None,
                    }
                } else if i < n && self.is_finite_state(i) {
                    Some(String::new())
                } else {
                    None
                };
                row.push(label);
                j += 1;
            }
            transition_matrix.push(row);
            start_states.push(i == START);
            finite_states.push(i == n);
            i += 1;
        }
        let automata = Automata::<String> { size, transition_matrix, start_states, finite_states };
        assert(texts(automata@) =~~= prepared(self@));
        automata
    }

    /// The expression that state elimination reads off the automaton, or
    /// none if the automaton accepts nothing.
    pub fn to_regex(&self) -> (r: Option<String>)
        requires
            self.wf(),
            self.size < usize::MAX,
        ensures
            text_of(r) == regex_of(self@),
    {
        let mut automata = self.prepare_for_state_elimination();
        loop
            invariant
                automata.wf(),
                reduced(texts(automata@)) == reduced(prepared(self@)),
            decreases automata.size,
        {
            proof {
                lemma_texts_shape(&automata);
            }
            let ghost m0 = texts(automata@);
            let n = automata.size;
            let mut current: usize = START;
            while current < n && (automata.is_start_state(current) || automata.is_finite_state(
                current,
            ))
                invariant
                    automata.wf(),
                    n == automata.size,
                    m0 == texts(automata@),
                    current <= n,
                    pick_from(m0, current as int) == pick_from(m0, 0),
                decreases n - current,
            {
                current += 1;
            }
            if current == n {
                proof {
                    automata.lemma_shape();
                }
                return match &automata.transition_matrix[START][n - 1] {
                    Some(regex) => {
                        let mut r = String::new();
                        r.push('^');
                        r.append(regex.as_str());
                        r.push('$');
                        assert(r@ =~= seq!['^'] + regex@ + seq!['$']);
                        Some(r)
                    },
                    None => None,
                };
            }
            assert(current >= 1);
            proof {
                lemma_absorbed_start(m0, current as int);
            }
            let mut i: usize = 0;
            while i < n
                invariant
                    automata.wf(),
                    n == automata.size,
                    m0.size == n,
                    m0.wf(),
                    1 <= current < n,
                    i <= n,
                    texts(automata@) == absorbed_upto(m0, current as int, i as int, 0),
                decreases n - i,
            {
                proof {
                    lemma_texts_shape(&automata);
                    assert(absorbed_upto(m0, current as int, i as int, 0).labels[i as int][current as int]
                        == m0.labels[i as int][current as int]);
                }
                if i != current && automata.transition_matrix[i][current].is_some() {
                    let mut j: usize = 0;
                    while j < n
                        invariant
                            automata.wf(),
                            n == automata.size,
                            m0.size == n,
                            m0.wf(),
                            1 <= current < n,
                            i < n,
                            i != current,
                            m0.labels[i as int][current as int] is Some,
                            j <= n,
                            texts(automata@) == absorbed_upto(m0, current as int, i as int, j as int),
                        decreases n - j,
                    {
                        proof {
                            lemma_texts_shape(&automata);
                            assert(absorbed_upto(
                                m0,
                                current as int,
                                i as int,
                                j as int,
                            ).labels[current as int][j as int] == m0.labels[current as int][j as int]);
                        }
                        if j != current && automata.transition_matrix[current][j].is_some() {
                            proof {
                                lemma_absorbed_step(m0, current as int, i as int, j as int);
                            }
                            automata.eliminate_transition(i, current, j);
                        } else {
                            proof {
                                lemma_absorbed_skip(m0, current as int, i as int, j as int);
                            }
                        }
                        j += 1;
                    }
                    proof {
                        lemma_absorbed_row_end(m0, current as int, i as int);
                    }
                } else {
                    proof {
                        lemma_absorbed_row_skip(m0, current as int, i as int);
                    }
                }
                i += 1;
            }
            automata.eliminate_state(current);
        }
    }
}

} // verus!
