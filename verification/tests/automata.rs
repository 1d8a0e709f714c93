use lookahead_regex::ndfa::algebra::{concatenation, union};
use lookahead_regex::ndfa::ast::{Atomic, Basic, Concat, LinearizedSymbol, Tree, Union};
use lookahead_regex::ndfa::product::intersection;
use lookahead_regex::ndfa::Automata;

fn indices(symbols: &[LinearizedSymbol]) -> Vec<usize> {
    symbols.iter().map(|s| s.index).collect()
}

fn pairs(follow: &[(LinearizedSymbol, LinearizedSymbol)]) -> Vec<(usize, usize)> {
    follow.iter().map(|(p, q)| (p.index, q.index)).collect()
}

fn leaves(union: &Union, out: &mut Vec<LinearizedSymbol>) {
    for concat in &union.concats {
        for basic in &concat.basics {
            match &basic.atomic {
                Atomic::LinearizedSymbol(s) => out.push(*s),
                Atomic::Union(u) => leaves(u, out),
            }
        }
    }
}

#[test]
fn tree_positions_are_numbered_in_reading_order() {
    let tree = Tree::from_regex("(ab|b)*a(c|d*)");
    let mut all = Vec::new();
    leaves(&tree.root, &mut all);
    assert_eq!(tree.linearized_symbols, 6);
    assert_eq!(indices(&all), vec![1, 2, 3, 4, 5, 6]);
    let symbols: String = all.iter().map(|s| s.symbol).collect();
    assert_eq!(symbols, "abbacd");
}

#[test]
fn tree_of_a_single_letter() {
    let tree = Tree::from_regex("a");
    assert_eq!(tree.linearized_symbols, 1);
    assert_eq!(tree.root.concats.len(), 1);
    assert_eq!(tree.root.concats[0].basics.len(), 1);
    assert!(!tree.root.concats[0].basics[0].is_iter);
    assert!(matches!(
        tree.root.concats[0].basics[0].atomic,
        Atomic::LinearizedSymbol(LinearizedSymbol { symbol: 'a', index: 1 })
    ));
}

#[test]
fn tree_takes_anchors_and_the_dot_as_positions() {
    let tree = Tree::from_regex("^.$");
    assert_eq!(tree.linearized_symbols, 3);
    assert_eq!(indices(&tree.get_first_set()), vec![1]);
    assert_eq!(indices(&tree.get_last_set()), vec![3]);
}

#[test]
fn marks_are_no_positions() {
    for c in ['a', 'm', 'z', '^', '$', '.'] {
        assert!(Tree::is_terminal(c));
        assert!(Tree::is_atomic_start(c));
    }
    for c in [')', '|', '*', '?', '9', ' ', '+', 'A', 'Z', '\u{e9}', '`', '{'] {
        assert!(!Tree::is_terminal(c));
        assert!(!Tree::is_atomic_start(c));
    }
    assert!(!Tree::is_terminal('('));
    assert!(Tree::is_atomic_start('('));
}

#[test]
fn tree_is_refused_outside_the_grammar() {
    assert!(Tree::try_from_regex("").is_none());
    assert!(Tree::try_from_regex("a|").is_none());
    assert!(Tree::try_from_regex("|a").is_none());
    assert!(Tree::try_from_regex("*a").is_none());
    assert!(Tree::try_from_regex("(a").is_none());
    assert!(Tree::try_from_regex("a)").is_none());
    assert!(Tree::try_from_regex("()").is_none());
    assert!(Tree::try_from_regex("a9").is_none());
    assert!(Tree::try_from_regex("(?<=a)b").is_none());
    assert!(Tree::try_from_regex("a**").is_none());
    assert!(Tree::try_from_regex("a*(b|c)*").is_some());
}

#[test]
fn nullable_follows_the_definition() {
    assert!(!Tree::from_regex("a").does_epsilon_satisfy());
    assert!(Tree::from_regex("a*").does_epsilon_satisfy());
    assert!(Tree::from_regex("a|b*").does_epsilon_satisfy());
    assert!(!Tree::from_regex("a*b").does_epsilon_satisfy());
    assert!(Tree::from_regex("a*b*").does_epsilon_satisfy());
    assert!(Tree::from_regex("(a*)(b|c*)").does_epsilon_satisfy());
    assert!(!Tree::from_regex("(a|b)(c*)").does_epsilon_satisfy());
}

#[test]
fn first_goes_on_through_nullable_heads() {
    assert_eq!(indices(&Tree::from_regex("abc").get_first_set()), vec![1]);
    assert_eq!(indices(&Tree::from_regex("a*bc").get_first_set()), vec![1, 2]);
    assert_eq!(indices(&Tree::from_regex("a*b*c").get_first_set()), vec![1, 2, 3]);
    assert_eq!(indices(&Tree::from_regex("(a|b)c").get_first_set()), vec![1, 2]);
    // a group that matches the empty string without a star of its own
    assert_eq!(indices(&Tree::from_regex("(a*)b").get_first_set()), vec![1, 2]);
}

#[test]
fn last_goes_back_through_nullable_tails() {
    assert_eq!(indices(&Tree::from_regex("abc").get_last_set()), vec![3]);
    assert_eq!(indices(&Tree::from_regex("abc*").get_last_set()), vec![3, 2]);
    assert_eq!(indices(&Tree::from_regex("ab*c*").get_last_set()), vec![3, 2, 1]);
    assert_eq!(indices(&Tree::from_regex("a(b|c)").get_last_set()), vec![2, 3]);
    assert_eq!(indices(&Tree::from_regex("a(b*)").get_last_set()), vec![2, 1]);
}

#[test]
fn follow_holds_neighbours_bridges_and_loops() {
    assert_eq!(pairs(&Tree::from_regex("ab").get_follow_set()), vec![(1, 2)]);
    assert_eq!(pairs(&Tree::from_regex("a*").get_follow_set()), vec![(1, 1)]);
    assert_eq!(pairs(&Tree::from_regex("ab*c").get_follow_set()), vec![(2, 2), (1, 2), (1, 3), (2, 3)]);
    assert_eq!(
        pairs(&Tree::from_regex("(ab|b)*a").get_follow_set()),
        vec![(1, 2), (2, 1), (2, 3), (3, 1), (3, 3), (2, 4), (3, 4)]
    );
    assert_eq!(pairs(&Tree::from_regex("a|b").get_follow_set()), vec![]);
}

#[test]
fn cartesian_product_orders_by_the_first_set() {
    let a = vec![LinearizedSymbol::new('a', 1), LinearizedSymbol::new('b', 2)];
    let b = vec![LinearizedSymbol::new('c', 3), LinearizedSymbol::new('d', 4)];
    assert_eq!(pairs(&Tree::get_cartesian_product(&a, &b)), vec![(1, 3), (1, 4), (2, 3), (2, 4)]);
    assert_eq!(pairs(&Tree::get_cartesian_product(&a, &vec![])), vec![]);
}

#[test]
fn builders_keep_what_they_are_given() {
    let s = LinearizedSymbol::new('x', 7);
    assert_eq!((s.symbol, s.index), ('x', 7));
    let basic = Basic::new(Atomic::LinearizedSymbol(s), true);
    assert!(basic.is_iter);
    let concat = Concat::new(vec![basic]);
    assert_eq!(concat.basics.len(), 1);
    let union = Union::new(vec![concat]);
    assert_eq!(union.concats.len(), 1);
    assert_eq!(Union::default().concats.len(), 0);
    assert_eq!(Tree::default().linearized_symbols, 0);
    assert!(Tree::is_atomic_start('a'));
    assert!(Tree::is_atomic_start('('));
    assert!(Tree::is_atomic_start('.'));
    assert!(!Tree::is_atomic_start('*'));
    assert!(!Tree::is_atomic_start('7'));
}

#[test]
fn empty_and_epsilon_automata() {
    let empty = Automata::new_empty();
    assert_eq!(empty.size, 1);
    assert!(empty.is_start_state(0));
    assert!(!empty.is_finite_state(0));
    assert!(empty.is_empty());
    assert!(!empty.accepts("", true));
    assert!(!empty.accepts("a", true));
    assert_eq!(empty.to_regex(), None);

    let epsilon = Automata::new_epsilon();
    assert_eq!(epsilon.size, 1);
    assert!(epsilon.is_finite_state(0));
    assert!(!epsilon.is_empty());
    assert!(epsilon.accepts("", true));
    assert!(!epsilon.accepts("a", true));
    assert_eq!(epsilon.to_regex(), Some("^$".to_string()));
}

#[test]
fn empty_expression_gives_the_epsilon_automaton() {
    let a = Automata::from_regex("");
    assert_eq!(a.size, 1);
    assert!(a.is_finite_state(0));
    assert_eq!(a.to_regex(), Some("^$".to_string()));
}

#[test]
fn position_automaton_of_abc() {
    let a = Automata::from_regex("abc");
    assert_eq!(a.size, 4);
    assert_eq!(a.transition_matrix[0], vec![None, Some('a'), None, None]);
    assert_eq!(a.transition_matrix[1], vec![None, None, Some('b'), None]);
    assert_eq!(a.transition_matrix[2], vec![None, None, None, Some('c')]);
    assert_eq!(a.transition_matrix[3], vec![None, None, None, None]);
    for i in 0..4 {
        assert_eq!(a.is_start_state(i), i == 0);
        assert_eq!(a.is_finite_state(i), i == 3);
    }
    assert!(a.accepts("abc", true));
    for w in ["", "a", "ab", "abcc", "abd", "bc"] {
        assert!(!a.accepts(w, true));
    }
    assert_eq!(a.to_regex(), Some("^abc$".to_string()));
}

#[test]
fn star_accepts_every_repetition() {
    let a = Automata::from_regex("a*");
    for w in ["", "a", "aa", "aaaaaaa"] {
        assert!(a.accepts(w, true));
    }
    assert!(!a.accepts("b", true));
    assert!(!a.accepts("ab", true));
    assert_eq!(a.to_regex(), Some("^a*$".to_string()));
}

#[test]
fn dot_star_accepts_every_string() {
    let a = Automata::from_regex(".*");
    for w in ["", "a", "zebra", "a.b", "..", "abcabcabc"] {
        assert!(a.accepts(w, true));
    }
    // read as it is written, the dot is a character like any other
    assert!(a.accepts("..", false));
    assert!(!a.accepts("a", false));
}

#[test]
fn strings_that_end_in_a() {
    let a = Automata::from_regex("(a|b)*a");
    for w in ["a", "aa", "ba", "abababa", "bbbba"] {
        assert!(a.accepts(w, true));
    }
    for w in ["", "b", "ab", "aab", "ac"] {
        assert!(!a.accepts(w, true));
    }
}

#[test]
fn alternation_under_a_star() {
    let a = Automata::from_regex("(ab|b)*a");
    for w in ["a", "aba", "ba", "abba"] {
        assert!(a.accepts(w, true));
    }
    for w in ["", "ab", "aa", "abab"] {
        assert!(!a.accepts(w, true));
    }
    assert_eq!(
        a.to_regex(),
        Some("^((a|ab(ab)*a)|(b|ab(ab)*b)(b|ab(ab)*b)*(a|ab(ab)*a))$".to_string())
    );
}

#[test]
fn nothing_leads_back_into_the_start_state() {
    for r in ["abc", "(a|b)*a", "a*b*", "(ab|b)*a"] {
        let a = Automata::from_regex(r);
        for i in 0..a.size {
            assert!(a.transition_matrix[i][0].is_none());
        }
        let u = union(&a, &Automata::from_regex("c*"));
        for i in 0..u.size {
            assert!(u.transition_matrix[i][0].is_none());
        }
    }
}

#[test]
fn union_lays_the_states_out_side_by_side() {
    let a = Automata::from_regex("ab");
    let b = Automata::from_regex("c*");
    let u = union(&a, &b);
    assert_eq!(u.size, 4);
    assert_eq!(u.transition_matrix[0], vec![None, Some('a'), None, Some('c')]);
    assert_eq!(u.transition_matrix[1], vec![None, None, Some('b'), None]);
    assert_eq!(u.transition_matrix[2], vec![None, None, None, None]);
    assert_eq!(u.transition_matrix[3], vec![None, None, None, Some('c')]);
    let accepting: Vec<bool> = (0..4).map(|i| u.is_finite_state(i)).collect();
    assert_eq!(accepting, vec![true, false, true, true]);
}

#[test]
fn union_accepts_what_either_accepts() {
    let a = Automata::from_regex("(ab)*");
    let b = Automata::from_regex("a|b*c");
    let u = union(&a, &b);
    for w in ["", "a", "ab", "abab", "c", "bc", "bbc", "b", "aba", "abc", "ac", "ba"] {
        assert_eq!(u.accepts(w, true), a.accepts(w, true) || b.accepts(w, true));
    }
}

#[test]
fn concatenation_splices_the_second_behind_the_accepting_states() {
    let a = Automata::from_regex("a*");
    let b = Automata::from_regex("b");
    let c = concatenation(&a, &b);
    assert_eq!(c.size, 3);
    assert_eq!(c.transition_matrix[0], vec![None, Some('a'), Some('b')]);
    assert_eq!(c.transition_matrix[1], vec![None, Some('a'), Some('b')]);
    assert_eq!(c.transition_matrix[2], vec![None, None, None]);
    let accepting: Vec<bool> = (0..3).map(|i| c.is_finite_state(i)).collect();
    assert_eq!(accepting, vec![false, false, true]);
}

#[test]
fn concatenation_accepts_the_strings_that_split() {
    let a = Automata::from_regex("(a|b)*");
    let b = Automata::from_regex("ab*");
    let c = concatenation(&a, &b);
    for w in ["", "a", "b", "ab", "ba", "abb", "bab", "bba", "bbb", "aab"] {
        let chars: Vec<char> = w.chars().collect();
        let mut splits = false;
        for k in 0..=chars.len() {
            let head: String = chars[..k].iter().collect();
            let tail: String = chars[k..].iter().collect();
            splits = splits || (a.accepts(&head, true) && b.accepts(&tail, true));
        }
        assert_eq!(c.accepts(w, true), splits);
    }
}

#[test]
fn concatenation_with_an_empty_automaton_is_empty() {
    let a = Automata::from_regex("ab");
    assert!(concatenation(&a, &Automata::new_empty()).is_empty());
    assert!(concatenation(&Automata::new_empty(), &a).is_empty());
    let e = concatenation(&a, &Automata::new_epsilon());
    assert!(e.accepts("ab", true));
    assert!(!e.accepts("a", true));
}

#[test]
fn intersection_accepts_what_both_accept() {
    let a = Automata::from_regex("(a|b)*a");
    let b = Automata::from_regex("a(a|b)*");
    let x = intersection(&a, &b);
    for w in ["", "a", "b", "aa", "ab", "ba", "aba", "abba", "bab", "abab"] {
        assert_eq!(x.accepts(w, true), a.accepts(w, true) && b.accepts(w, true));
    }
    for i in 0..x.size {
        assert_eq!(x.is_start_state(i), i == 0);
    }
}

#[test]
fn intersection_drops_the_traps() {
    // ab and ac share the way over a, from where nothing accepts
    let x = intersection(&Automata::from_regex("ab"), &Automata::from_regex("ac"));
    assert_eq!(x.size, 1);
    assert!(x.is_empty());
    // a(b|c) and ab: the state entered on c is never built, the others stay
    let y = intersection(&Automata::from_regex("a(b|c)"), &Automata::from_regex("ab"));
    assert_eq!(y.size, 3);
    assert_eq!(y.to_regex(), Some("^ab$".to_string()));
}

#[test]
fn wildcard_counts_in_the_first_automaton_only() {
    let any = Automata::from_regex(".*");
    let ab = Automata::from_regex("ab");
    let x = intersection(&any, &ab);
    assert!(x.accepts("ab", true));
    assert!(!x.accepts("a", true));
    assert_eq!(x.to_regex(), Some("^ab$".to_string()));
    // the other way round the dot of the second automaton is a character
    let y = intersection(&ab, &any);
    assert!(y.is_empty());
    // a dot on both sides goes together, and gives a dot
    let z = intersection(&any, &Automata::from_regex("a."));
    assert!(z.accepts("ab", true));
    assert!(z.accepts("a.", false));
    assert!(!z.accepts("ab", false));
}

#[test]
fn state_elimination_writes_choices_and_loops() {
    assert_eq!(Automata::from_regex("a|b").to_regex(), Some("^(a|b)$".to_string()));
    assert_eq!(Automata::from_regex("ab*").to_regex(), Some("^(a|abb*)$".to_string()));
    assert_eq!(Automata::from_regex("(ab)*").to_regex(), Some("^(ab)*$".to_string()));
    assert_eq!(Automata::from_regex("a*b").to_regex(), Some("^(b|aa*b)$".to_string()));
}

#[test]
fn wrapping_leaves_single_characters_and_groups_alone() {
    let wrap = |s: &str| Automata::<String>::wrap_if_needed(&s.to_string());
    assert_eq!(wrap("a"), "a");
    assert_eq!(wrap("ab"), "(ab)");
    assert_eq!(wrap("(ab)"), "(ab)");
    assert_eq!(wrap("(a)(b)"), "((a)(b))");
    assert_eq!(wrap("((a)b)"), "((a)b)");
    assert_eq!(wrap(""), "()");
    assert_eq!(wrap("()"), "()");
    assert_eq!(Automata::<String>::wrap(&"a".to_string()), "(a)");
}

#[test]
fn splicing_follows_the_four_cases() {
    let s = |x: &str| x.to_string();
    let splice = |f: Option<&str>, i: &str, c: Option<&str>, o: &str| {
        Automata::<String>::splice(&f.map(s), &s(i), &c.map(s), &s(o))
    };
    assert_eq!(splice(None, "a", None, "b"), "ab");
    assert_eq!(splice(None, "a", Some("c"), "b"), "ac*b");
    assert_eq!(splice(None, "a", Some("cd"), ""), "a(cd)*");
    assert_eq!(splice(Some("x"), "a", None, "b"), "(x|ab)");
    assert_eq!(splice(Some("x"), "a", Some("c"), "b"), "(x|ac*b)");
    assert_eq!(splice(Some(""), "a", None, "b"), "(ab)?");
    assert_eq!(splice(Some(""), "a", None, ""), "a?");
    assert_eq!(splice(Some(""), "a", Some("c"), ""), "(ac*)?");
    // the way through adds nothing but repetitions
    assert_eq!(splice(Some(""), "a", Some("a"), ""), "a*");
    assert_eq!(splice(Some(""), "ab", Some("ab"), ""), "(ab)*");
    assert!(Automata::<String>::is_unfold_axiom_applicable(&Some(s("")), &s("a"), &Some(s("a")), &s("")));
    assert!(!Automata::<String>::is_unfold_axiom_applicable(&None, &s("a"), &Some(s("a")), &s("")));
    assert!(!Automata::<String>::is_unfold_axiom_applicable(&Some(s("")), &s("a"), &Some(s("b")), &s("")));
    assert!(!Automata::<String>::is_unfold_axiom_applicable(&Some(s("")), &s("a"), &Some(s("a")), &s("c")));
}

#[test]
fn elimination_removes_a_state_by_swapping_in_the_last() {
    let mut m = Automata::from_regex("abc").prepare_for_state_elimination();
    assert_eq!(m.size, 5);
    assert_eq!(m.transition_matrix[3][4], Some(String::new()));
    assert!(m.is_finite_state(4));
    m.eliminate_transition(0, 1, 2);
    assert_eq!(m.transition_matrix[0][2], Some("ab".to_string()));
    m.eliminate_state(1);
    assert_eq!(m.size, 4);
    // the accepting state stands where state 1 stood
    assert!(m.is_finite_state(1));
    assert_eq!(m.transition_matrix[0][2], Some("ab".to_string()));
    assert_eq!(m.transition_matrix[3][1], Some(String::new()));
}

#[test]
fn to_regex_agrees_with_the_automaton_on_a_matcher() {
    for r in ["abc", "a*", "(ab|b)*a", "(a|b)*a", "a(b|c)*d", "a*b*", "(a|b)(c|d)"] {
        let a = Automata::from_regex(r);
        let regex = fancy_regex::Regex::new(&a.to_regex().unwrap()).unwrap();
        for w in ["", "a", "b", "ab", "ba", "abc", "aba", "abba", "ad", "abcd", "acbd", "bd", "aab", "bb"] {
            assert_eq!(regex.is_match(w).unwrap(), a.accepts(w, true), "{} on {:?}", r, w);
        }
    }
}
