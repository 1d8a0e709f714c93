use std::collections::VecDeque;

use lookahead_regex::convertor::{gen_rec, ConvertError};
use lookahead_regex::fuzz::regex_generator::{
    alternation, lookahead_group, starred, Config, Production, RegexGenerator,
};
use lookahead_regex::fuzz::runner::{
    check_string, check_string_noting, check_strings, check_strings_noting, classical_pattern,
    count_failures, judge, oracle_pattern, run_tests, run_tests_for_regex, RunError, Verdict,
};
use lookahead_regex::parser::ParseError;
use lookahead_regex::fuzz::str_generator::{Reachability, StringGenerator};
use lookahead_regex::ndfa::Automata;

fn sorted(set: &std::collections::HashSet<usize>) -> Vec<usize> {
    let mut v: Vec<usize> = set.iter().copied().collect();
    v.sort();
    v
}

#[test]
fn reachability_of_a_word() {
    let a = Automata::from_regex("abc");
    let r = Reachability::from_automata(&a);
    assert_eq!(r.as_outcoming, vec![vec![1, 2, 3], vec![2, 3], vec![3], vec![]]);
    assert_eq!(sorted(&r.as_incoming[0]), Vec::<usize>::new());
    assert_eq!(sorted(&r.as_incoming[1]), vec![0]);
    assert_eq!(sorted(&r.as_incoming[3]), vec![0, 1, 2]);
}

#[test]
fn reachability_goes_round_a_loop() {
    // 0 -a-> 1 -b-> 2 -a-> 1
    let a = Automata::from_regex("(ab)*");
    let r = Reachability::from_automata(&a);
    assert_eq!(r.as_outcoming, vec![vec![1, 2], vec![1, 2], vec![1, 2]]);
    assert_eq!(sorted(&r.as_incoming[2]), vec![0, 1, 2]);
    assert_eq!(sorted(&r.as_incoming[0]), Vec::<usize>::new());
}

#[test]
fn reachability_does_not_overflow_on_many_ways() {
    // the ways from the start state are counted in thousands of millions of
    // millions; the marks stay marks
    let a = Automata::from_regex("(a|b|c|d|e|f|g|h)*");
    let r = Reachability::from_automata(&a);
    assert_eq!(r.as_outcoming.len(), 9);
    for i in 0..9 {
        assert_eq!(r.as_outcoming[i], vec![1, 2, 3, 4, 5, 6, 7, 8]);
    }
    let b = Automata::from_regex("((a|b)(c|d)(e|f)(g|h)(i|j)(k|l)(m|n)(o|p)(q|r)(s|t)(u|v)(w|x)(y|z))*");
    let r = Reachability::from_automata(&b);
    for i in 0..b.size {
        assert_eq!(r.as_outcoming[i].len(), 26);
    }
}

#[test]
fn outcoming_and_incoming_say_the_same() {
    let a = gen_rec("^(a|b)*(?=.*c)(a|b)*c$").unwrap();
    let r = Reachability::from_automata(&a);
    for i in 0..a.size {
        for j in 0..a.size {
            assert_eq!(r.as_outcoming[i].contains(&j), r.as_incoming[j].contains(&i));
        }
    }
}

#[test]
fn chain_steps_follow_the_reachability() {
    let a = Automata::from_regex("(ab|b)*a");
    let mut g = StringGenerator::from_automata(&a);
    for _ in 0..200 {
        let mut current = 0;
        let mut steps = 0;
        while let Some(next) = g.chain_step(current) {
            assert!(g.reachability.as_outcoming[current].contains(&next));
            current = next;
            steps += 1;
            if steps > 10_000 {
                break;
            }
        }
        if steps <= 10_000 {
            assert!(a.is_finite_state(current) || g.reachability.as_outcoming[current].is_empty());
        }
    }
}

#[test]
fn chain_of_the_empty_string() {
    assert_eq!(StringGenerator::close_chain(vec![0], 0), vec![0, 0]);
    assert_eq!(StringGenerator::close_chain(vec![0, 2, 1], 1), vec![0, 2, 1]);
}

#[test]
fn word_steps_spell_a_way() {
    let a = Automata::from_regex("abc");
    let mut g = StringGenerator::from_automata(&a);
    for _ in 0..50 {
        let mut queue = VecDeque::new();
        queue.push_back((Vec::new(), 0usize));
        let mut word = None;
        while word.is_none() {
            word = g.word_step(&mut queue, 3);
        }
        assert_eq!(word.unwrap(), vec!['a', 'b', 'c']);
    }
}

#[test]
fn word_step_puts_the_next_words_at_the_end() {
    let a = Automata::from_regex("a(b|c)d");
    let mut g = StringGenerator::from_automata(&a);
    let mut queue = VecDeque::new();
    queue.push_back((vec!['a'], 1usize));
    queue.push_back((vec!['x'], 1usize));
    assert_eq!(g.word_step(&mut queue, 4), None);
    let left: Vec<(Vec<char>, usize)> = queue.into_iter().collect();
    assert_eq!(left, vec![(vec!['x'], 1), (vec!['a', 'b'], 2), (vec!['a', 'c'], 3)]);
}

#[test]
fn words_of_a_loop_lead_to_the_goal() {
    let a = Automata::from_regex("(ab)*");
    let mut g = StringGenerator::from_automata(&a);
    for _ in 0..100 {
        let mut queue = VecDeque::new();
        queue.push_back((Vec::new(), 2usize));
        let mut word = None;
        let mut steps = 0;
        while word.is_none() && steps < 1000 {
            word = g.word_step(&mut queue, 2);
            steps += 1;
        }
        if let Some(w) = word {
            // from state 2 back to state 2: ab, abab, ...
            let s: String = w.iter().collect();
            assert!(!s.is_empty());
            assert_eq!(s.len() % 2, 0);
            assert_eq!(s, "ab".repeat(s.len() / 2));
        }
    }
}

fn words() -> Vec<Vec<char>> {
    vec!["ab".chars().collect(), "cde".chars().collect(), "f".chars().collect()]
}

fn letters(words: &Vec<Vec<char>>) -> Vec<char> {
    let mut all: Vec<char> = words.iter().flatten().copied().collect();
    all.sort();
    all
}

#[test]
fn swapping_keeps_the_words_and_the_letters() {
    let a = Automata::new_epsilon();
    let mut g = StringGenerator::from_automata(&a);
    for _ in 0..50 {
        let mut w = words();
        g.swap_words(&mut w);
        let mut got = w.clone();
        got.sort();
        let mut expected = words();
        expected.sort();
        assert_eq!(got, expected);

        let mut w = words();
        g.swap_letters(&mut w);
        assert_eq!(w.len(), 3);
        for i in 0..3 {
            let mut got = w[i].clone();
            got.sort();
            assert_eq!(got, words()[i]);
        }
    }
    let mut one = vec![vec!['a']];
    g.swap_words(&mut one);
    g.swap_letters(&mut one);
    assert_eq!(one, vec![vec!['a']]);
    let mut none: Vec<Vec<char>> = vec![];
    g.swap_words(&mut none);
    g.swap_letters(&mut none);
    assert!(none.is_empty());
}

#[test]
fn duplicating_adds_one_word_or_one_letter() {
    let a = Automata::new_epsilon();
    let mut g = StringGenerator::from_automata(&a);
    for _ in 0..50 {
        let mut w = words();
        g.duplicate_word(&mut w);
        assert_eq!(w.len(), 4);
        let i = (0..3).find(|&i| w[i] == w[i + 1]).unwrap();
        let mut back = w.clone();
        back.remove(i);
        assert_eq!(back, words());

        let mut w = words();
        g.duplicate_letter(&mut w);
        assert_eq!(w.len(), 3);
        assert_eq!(letters(&w).len(), 7);
        assert!((0..3).any(|i| w[i].len() == words()[i].len() + 1
            && (0..words()[i].len()).any(|j| {
                let mut expected = words()[i].clone();
                expected.insert(j, expected[j]);
                expected == w[i]
            })));
    }
    let mut none: Vec<Vec<char>> = vec![];
    g.duplicate_word(&mut none);
    g.duplicate_letter(&mut none);
    assert!(none.is_empty());
    let mut hollow: Vec<Vec<char>> = vec![vec![]];
    g.duplicate_letter(&mut hollow);
    assert_eq!(hollow, vec![Vec::<char>::new()]);
}

#[test]
fn removing_takes_one_word_or_one_letter() {
    let a = Automata::new_epsilon();
    let mut g = StringGenerator::from_automata(&a);
    for _ in 0..50 {
        let mut w = words();
        g.remove_word(&mut w);
        assert_eq!(w.len(), 2);
        assert!((0..3).any(|i| {
            let mut expected = words();
            expected.remove(i);
            expected == w
        }));

        let mut w = words();
        g.remove_letter(&mut w);
        assert_eq!(w.len(), 3);
        assert_eq!(letters(&w).len(), 5);
    }
    let mut none: Vec<Vec<char>> = vec![];
    g.remove_word(&mut none);
    g.remove_letter(&mut none);
    assert!(none.is_empty());
}

#[test]
fn chosen_indices_lie_in_range() {
    let a = Automata::new_epsilon();
    let mut g = StringGenerator::from_automata(&a);
    let w = words();
    let mut seen = [false; 3];
    for _ in 0..200 {
        let i = g.choose_word(&w);
        assert!(i < 3);
        seen[i] = true;
        assert!(g.choose_letter(&w[1]) < 3);
    }
    assert_eq!(seen, [true, true, true]);
}

#[test]
fn a_step_that_did_not_mutate_changed_nothing() {
    let a = Automata::new_epsilon();
    let mut g = StringGenerator::from_automata(&a);
    let mut stayed = 0;
    for _ in 0..200 {
        let mut w = words();
        if !g.mutate_step(&mut w) {
            assert_eq!(w, words());
            stayed += 1;
        }
    }
    // a chance of 1 in 5 to stay
    assert!(stayed > 0 && stayed < 200);
}

#[test]
fn joining_puts_the_words_one_after_the_other() {
    let a = Automata::new_epsilon();
    let g = StringGenerator::from_automata(&a);
    assert_eq!(g.join_words(&words()), "abcdef");
    assert_eq!(g.join_words(&vec![]), "");
    assert_eq!(g.join_words(&vec![vec![], vec!['x'], vec![]]), "x");
}

#[test]
fn verdicts() {
    assert_eq!(judge(Some(true), Some(true)), Verdict::Agree);
    assert_eq!(judge(Some(false), Some(false)), Verdict::Agree);
    assert_eq!(judge(Some(true), Some(false)), Verdict::Disagree);
    assert_eq!(judge(Some(false), Some(true)), Verdict::Disagree);
    assert_eq!(judge(None, Some(true)), Verdict::Skipped);
    assert_eq!(judge(Some(true), None), Verdict::Skipped);
    assert_eq!(judge(None, None), Verdict::Skipped);
    assert_eq!(
        count_failures(&vec![Verdict::Agree, Verdict::Disagree, Verdict::Skipped, Verdict::Disagree]),
        2
    );
    assert_eq!(count_failures(&vec![]), 0);
}

#[test]
fn pattern_for_the_matcher() {
    assert_eq!(oracle_pattern("^a\u{3b5}b$"), "^a(.?)b$");
    assert_eq!(oracle_pattern("^(a|b)*$"), "^(a|b)*$");
    assert_eq!(oracle_pattern("\u{3b5}\u{3b5}"), "(.?)(.?)");
    assert_eq!(oracle_pattern(""), "");
    assert_eq!(classical_pattern(&Automata::from_regex("ab")), "^ab$");
    assert_eq!(classical_pattern(&Automata::new_empty()), "^$");
    assert_eq!(classical_pattern(&Automata::new_epsilon()), "^$");
}

#[test]
fn strings_are_checked_against_both_expressions() {
    let with = fancy_regex::Regex::new("^a(?=b)b$").unwrap();
    let without = fancy_regex::Regex::new("^ab$").unwrap();
    let wrong = fancy_regex::Regex::new("^a$").unwrap();
    assert_eq!(check_string(&with, &without, "ab"), Verdict::Agree);
    assert_eq!(check_string(&with, &without, "a"), Verdict::Agree);
    assert_eq!(check_string(&with, &wrong, "ab"), Verdict::Disagree);
    assert_eq!(check_string(&with, &wrong, "a"), Verdict::Disagree);
    assert_eq!(check_string(&with, &wrong, "b"), Verdict::Agree);
}

#[test]
fn letters_and_lookaheads_are_counted() {
    let g = RegexGenerator::new(&Config {
        max_lookahead_count: 4,
        star_height: 2,
        alphabet_size: 3,
        max_letter_count: 10,
    });
    assert_eq!(g.config.max_lookahead_count, 4);
    assert_eq!(g.config.star_height, 2);
    assert_eq!(g.config.alphabet_size, 3);
    assert_eq!(g.config.max_letter_count, 10);
    assert_eq!(g.get_letters_count(""), 0);
    assert_eq!(g.get_letters_count("a(b|c)*(?=d)"), 4);
    assert_eq!(g.get_letters_count("(?=.*)"), 0);
    assert_eq!(g.get_lookahead_count(""), 0);
    assert_eq!(g.get_lookahead_count("(?"), 0);
    assert_eq!(g.get_lookahead_count("(?=a)"), 1);
    assert_eq!(g.get_lookahead_count("a(?=b)(c(?=d))(?<=e)"), 2);
    assert_eq!(g.get_lookahead_count("(?=(?=(?="), 3);
}

#[test]
fn random_symbols_come_from_the_alphabet() {
    let g = RegexGenerator::new(&Config {
        max_lookahead_count: 0,
        star_height: 0,
        alphabet_size: 3,
        max_letter_count: 1,
    });
    let mut seen = [false; 3];
    for _ in 0..200 {
        let s = g.get_random_symbol();
        assert!(s == "a" || s == "b" || s == "c");
        seen[(s.as_bytes()[0] - b'a') as usize] = true;
    }
    assert_eq!(seen, [true, true, true]);
}

#[test]
fn strings_are_checked_in_order() {
    let strings = vec!["ab".to_string(), "a".to_string(), "b".to_string(), "abb".to_string()];
    assert_eq!(
        check_strings("^a(?=b)b*$", "^ab$", &strings),
        Some(vec![Verdict::Agree, Verdict::Agree, Verdict::Agree, Verdict::Disagree])
    );
    assert_eq!(check_strings("^a(?=b)b*$", "^ab$", &vec![]), Some(vec![]));
    assert_eq!(check_strings("^(a$", "^ab$", &strings), None);
    assert_eq!(check_strings("^a$", "^ab)$", &strings), None);
}

#[test]
fn chains_begin_at_the_start_state_and_follow_the_reachability() {
    let a = Automata::from_regex("(ab|b)*a(c|d)");
    let mut g = StringGenerator::from_automata(&a);
    for _ in 0..200 {
        let chain = g.gen_states_chain();
        assert!(chain.len() >= 2);
        assert_eq!(chain[0], 0);
        for i in 0..chain.len() - 1 {
            assert!(
                chain[i] == chain[i + 1] || g.reachability.as_outcoming[chain[i]].contains(&chain[i + 1])
            );
        }
        // every state of this automaton leads to an accepting one
        assert!(a.is_finite_state(chain[chain.len() - 1]));
    }
}

#[test]
fn chain_of_the_epsilon_automaton() {
    let a = Automata::new_epsilon();
    let mut g = StringGenerator::from_automata(&a);
    assert_eq!(g.gen_states_chain(), vec![0, 0]);
    assert_eq!(g.gen_words_chain(&vec![0, 0]), Some(vec![vec![]]));
}

#[test]
fn generated_words_lead_from_state_to_state() {
    let a = Automata::from_regex("a(b|c)*d");
    let mut g = StringGenerator::from_automata(&a);
    for _ in 0..100 {
        // from the start state to the state of d
        let word: String = g.gen_word(0, 4).unwrap().iter().collect();
        assert!(a.accepts(&word, true), "{:?}", word);
    }
    assert_eq!(g.gen_word(0, 1), Some(vec!['a']));
}

#[test]
fn strings_of_a_walk_are_accepted_before_they_are_mutated() {
    for r in ["^(ab|b)*a$", "^a(?=.*b)(a|b)*$", "^(a|b)*(?=.*c)(a|b)*c$", "^a*$", "^$"] {
        let a = gen_rec(r).unwrap();
        let mut g = StringGenerator::from_automata(&a);
        for _ in 0..100 {
            let chain = g.gen_states_chain();
            let words = g.gen_words_chain(&chain).unwrap();
            assert_eq!(words.len(), chain.len() - 1);
            let string = g.join_words(&words);
            if a.is_finite_state(chain[chain.len() - 1]) {
                assert!(a.accepts(&string, true), "{} on {:?}", r, string);
            }
        }
    }
}

#[test]
fn strings_are_generated_as_asked_for() {
    let a = Automata::from_regex("(ab)*c");
    let mut g = StringGenerator::from_automata(&a);
    assert_eq!(g.gen_strings(0).len(), 0);
    assert_eq!(g.gen_strings(25).len(), 25);
    let empty = Automata::new_empty();
    let mut g = StringGenerator::from_automata(&empty);
    assert_eq!(g.gen_strings(10).len(), 0);
    let epsilon = Automata::new_epsilon();
    let mut g = StringGenerator::from_automata(&epsilon);
    // the one word of the chain of the empty string is empty, and so is
    // every string that mutations make of it
    for s in g.gen_strings(20) {
        assert_eq!(s, "");
    }
}

#[test]
fn mutating_leaves_words_of_the_same_letters_or_fewer_or_doubled() {
    let a = Automata::new_epsilon();
    let mut g = StringGenerator::from_automata(&a);
    for _ in 0..50 {
        let mut w = words();
        g.mutate(&mut w);
        for word in &w {
            for c in word {
                assert!("abcdef".contains(*c));
            }
        }
    }
}

#[test]
fn generated_expressions_are_anchored_and_within_the_limits() {
    let g = RegexGenerator::new(&Config {
        max_lookahead_count: 4,
        star_height: 2,
        alphabet_size: 3,
        max_letter_count: 10,
    });
    let regexes = g.generate(40);
    assert_eq!(regexes.len(), 40);
    for r in &regexes {
        assert!(r.starts_with('^') && r.ends_with('$'), "{}", r);
        assert!(g.get_letters_count(r) <= 10, "{}", r);
        assert!(g.get_lookahead_count(r) <= 4, "{}", r);
        for c in r.chars() {
            assert!("abc()|*?=^$".contains(c), "{}", r);
        }
        // what is generated is an expression of the grammar
        assert!(lookahead_regex::parser::parse(r).is_ok(), "{}", r);
    }
    assert_eq!(g.generate(0).len(), 0);
}

#[test]
fn generated_parts_keep_to_their_letters() {
    let g = RegexGenerator::new(&Config {
        max_lookahead_count: 2,
        star_height: 1,
        alphabet_size: 2,
        max_letter_count: 6,
    });
    let mut rng = rand::thread_rng();
    for n in 0..8 {
        for _ in 0..20 {
            let r = g.generate_rec(&mut rng, n, 1, 2, usize::MAX);
            assert!(g.get_letters_count(&r) <= n, "{}", r);
            if n == 0 {
                assert_eq!(r, "");
            }
            let l = g.generate_lookahead(&mut rng, n);
            assert_eq!(g.get_letters_count(&l), n, "{}", l);
            assert_eq!(g.get_lookahead_count(&l), 0);
            let p = g.generate_lookahead_rec(&mut rng, n, 1, usize::MAX);
            assert!(g.get_letters_count(&p) <= n);
            assert_eq!(p.is_empty(), n == 0);
        }
    }
    // without fuel a part is one letter
    let r = g.generate_rec(&mut rng, 5, 1, 2, 0);
    assert!(r == "a" || r == "b");
}

#[test]
fn an_expression_is_compared_with_its_rewriting() {
    for r in ["^(a|b)*a$", "^a(?=b)b*$", "^ab*(c|d)$", "^$"] {
        let report = run_tests_for_regex(r, 8).unwrap();
        assert!(report.strings.len() <= 8);
        assert_eq!(report.verdicts.len(), report.strings.len());
        assert_eq!(count_failures(&report.verdicts), 0);
        assert!(fancy_regex::Regex::new(&report.pattern).is_ok());
    }
    assert_eq!(run_tests_for_regex("^abc$", 3).unwrap().pattern, "^abc$");
    assert_eq!(run_tests_for_regex("^abc$", 3).unwrap().expression, "^abc$");
    assert_eq!(run_tests_for_regex("^a(?=b)c$", 3).unwrap().expression, "^$");
    assert_eq!(run_tests_for_regex("^abc$", 0).unwrap().strings.len(), 0);
}

#[test]
fn what_cannot_be_rewritten_is_not_compared() {
    assert_eq!(
        run_tests_for_regex("^a(b$", 3).unwrap_err(),
        RunError::Convert(ConvertError::Parse(ParseError::InvalidBrackets))
    );
    assert_eq!(
        run_tests_for_regex("^a|(?=b)c$", 3).unwrap_err(),
        RunError::Convert(ConvertError::Construction)
    );
}

#[test]
fn random_expressions_are_compared_one_by_one() {
    let cfg = Config { max_lookahead_count: 0, star_height: 1, alphabet_size: 2, max_letter_count: 4 };
    let reports = run_tests(5, 4, &cfg);
    assert_eq!(reports.len(), 5);
    for (r, outcome) in &reports {
        assert!(r.starts_with('^') && r.ends_with('$'));
        if let Ok(report) = outcome {
            assert!(report.strings.len() <= 4);
            assert_eq!(report.verdicts.len(), report.strings.len());
        }
    }
    assert_eq!(run_tests(0, 4, &cfg).len(), 0);
}

#[test]
fn each_kind_of_mutation_does_its_own() {
    let a = Automata::from_regex("ab");
    let mut g = StringGenerator::from_automata(&a);
    for _ in 0..50 {
        let mut w = words();
        g.mutate_as(&mut w, 0);
        assert_eq!(w.len(), words().len());
        let mut sorted_words = w.clone();
        sorted_words.sort();
        let mut expected = words();
        expected.sort();
        assert_eq!(sorted_words, expected);

        let mut w = words();
        g.mutate_as(&mut w, 1);
        assert_eq!(w.len(), words().len());
        let mut got = letters(&w);
        got.sort();
        let mut expected = letters(&words());
        expected.sort();
        assert_eq!(got, expected);

        let mut w = words();
        g.mutate_as(&mut w, 2);
        assert_eq!(w.len(), words().len() + 1);
        assert!(letters(&w).len() > letters(&words()).len());

        let mut w = words();
        g.mutate_as(&mut w, 3);
        assert_eq!(w.len(), words().len());
        assert_eq!(letters(&w).len(), letters(&words()).len() + 1);

        let mut w = words();
        g.mutate_as(&mut w, 4);
        assert_eq!(w.len(), words().len() - 1);

        let mut w = words();
        g.mutate_as(&mut w, 5);
        assert_eq!(w.len(), words().len());
        assert_eq!(letters(&w).len() + 1, letters(&words()).len());

        // any other number takes a letter out too
        let mut w = words();
        g.mutate_as(&mut w, 17);
        assert_eq!(w.len(), words().len());
        assert_eq!(letters(&w).len() + 1, letters(&words()).len());
    }
    let mut none: Vec<Vec<char>> = vec![];
    for kind in 0..6 {
        g.mutate_as(&mut none, kind);
        assert!(none.is_empty());
    }
}

#[test]
fn mutations_of_empty_words_leave_empty_words() {
    let a = Automata::new_epsilon();
    let mut g = StringGenerator::from_automata(&a);
    for _ in 0..100 {
        let mut w: Vec<Vec<char>> = vec![vec![], vec![]];
        g.mutate(&mut w);
        assert!(w.iter().all(|word| word.is_empty()));
        assert_eq!(g.join_words(&w), "");
    }
}

#[test]
fn a_word_is_empty_where_nothing_goes_on() {
    let a = Automata::from_regex("ab");
    let mut g = StringGenerator::from_automata(&a);
    for _ in 0..20 {
        // nothing leads on from the last state
        assert_eq!(g.gen_word(2, 2), Some(vec![]));
        // a transition leads on from the start state
        assert_eq!(g.gen_word(0, 1), Some(vec!['a']));
        assert_eq!(g.gen_word(0, 2), Some(vec!['a', 'b']));
        assert_eq!(g.gen_words_chain(&vec![0, 2, 2]), Some(vec![vec!['a', 'b'], vec![]]));
    }
    let looped = Automata::from_regex("a*");
    let mut g = StringGenerator::from_automata(&looped);
    for _ in 0..20 {
        // a word round the loop has a letter at least
        let word = g.gen_word(1, 1).unwrap();
        assert!(!word.is_empty());
        assert!(word.iter().all(|c| *c == 'a'));
    }
}

#[test]
fn the_epsilon_automaton_gives_the_empty_string_only() {
    let a = Automata::new_epsilon();
    let mut g = StringGenerator::from_automata(&a);
    for count in [0, 1, 7, 30] {
        let strings = g.gen_strings(count);
        assert_eq!(strings.len(), count);
        assert!(strings.iter().all(|s| s.is_empty()));
    }
}

#[test]
fn generated_parts_are_written_with_the_alphabet_and_the_marks() {
    let g = RegexGenerator::new(&Config {
        max_lookahead_count: 2,
        star_height: 2,
        alphabet_size: 2,
        max_letter_count: 6,
    });
    let mut rng = rand::thread_rng();
    for n in 0..8 {
        for _ in 0..30 {
            let r = g.generate_rec(&mut rng, n, 2, 0, usize::MAX);
            assert_eq!(r.is_empty(), n == 0, "{}", r);
            assert!(r.chars().all(|c| "ab()|*".contains(c)), "{}", r);
            let r = g.generate_rec(&mut rng, n, 2, 2, usize::MAX);
            assert_eq!(r.is_empty(), n == 0, "{}", r);
            assert!(r.chars().all(|c| "ab()|*?=".contains(c)), "{}", r);
            let l = g.generate_lookahead(&mut rng, n);
            assert_eq!(l.is_empty(), n == 0, "{}", l);
            assert!(l.chars().all(|c| "ab()|*".contains(c)), "{}", l);
            let p = g.generate_lookahead_rec(&mut rng, n, 2, usize::MAX);
            assert!(p.chars().all(|c| "ab()|*".contains(c)), "{}", p);
        }
    }
}

#[test]
fn a_walk_ends_where_the_coin_or_the_automaton_says() {
    let word = Automata::from_regex("ab");
    let g = StringGenerator::from_automata(&word);
    for heads in [false, true] {
        // nothing is reached from the last state
        assert!(g.chain_stops(2, heads));
        // the first two states do not accept and lead on
        assert!(!g.chain_stops(0, heads));
        assert!(!g.chain_stops(1, heads));
    }
    let star = Automata::from_regex("a*");
    let g = StringGenerator::from_automata(&star);
    // both states accept and lead on: the coin decides
    for state in [0, 1] {
        assert!(g.chain_stops(state, true));
        assert!(!g.chain_stops(state, false));
    }
}

#[test]
fn chains_end_in_an_accepting_state_or_a_dead_end() {
    for r in ["ab", "a*", "(ab|b)*a(c|d)", "a(b|c)*d"] {
        let a = Automata::from_regex(r);
        let mut g = StringGenerator::from_automata(&a);
        for _ in 0..100 {
            let chain = g.gen_states_chain();
            let last = chain[chain.len() - 1];
            assert!(a.is_finite_state(last) || g.reachability.as_outcoming[last].is_empty());
            let words = g.gen_words_chain(&chain).unwrap();
            assert!(a.accepts(&g.join_words(&words), true), "{}", r);
        }
    }
}

#[test]
fn a_step_of_the_search_goes_by_the_coin() {
    let word = Automata::from_regex("ab");
    let g = StringGenerator::from_automata(&word);
    for heads in [false, true] {
        // the empty word goes on, whatever the coin shows
        let mut queue: VecDeque<(Vec<char>, usize)> = VecDeque::from(vec![(vec![], 0)]);
        assert_eq!(g.word_step_on(&mut queue, 1, heads), None);
        assert_eq!(queue, VecDeque::from(vec![(vec!['a'], 1)]));
        // a word that cannot go on is the word, whatever the coin shows
        assert_eq!(g.word_step_on(&mut queue, 1, heads), Some(vec!['a']));
        assert!(queue.is_empty());
    }
    let star = Automata::from_regex("a*");
    let g = StringGenerator::from_automata(&star);
    // a word that has arrived and can go on: the coin decides
    let mut queue: VecDeque<(Vec<char>, usize)> = VecDeque::from(vec![(vec!['a'], 1)]);
    assert_eq!(g.word_step_on(&mut queue, 1, false), None);
    assert_eq!(queue, VecDeque::from(vec![(vec!['a', 'a'], 1)]));
    assert_eq!(g.word_step_on(&mut queue, 1, true), Some(vec!['a', 'a']));
    // the empty word goes on even if the coin shows heads
    let mut queue: VecDeque<(Vec<char>, usize)> = VecDeque::from(vec![(vec![], 1)]);
    assert_eq!(g.word_step_on(&mut queue, 1, true), None);
    assert_eq!(queue, VecDeque::from(vec![(vec!['a'], 1)]));
}

#[test]
fn as_many_strings_as_asked_for_unless_the_automaton_is_empty() {
    for r in ["^ab$", "^a*$", "^(a|b)*(?=.*c)(a|b)*c$", "^$"] {
        let a = gen_rec(r).unwrap();
        let mut g = StringGenerator::from_automata(&a);
        for count in [0, 1, 12] {
            assert_eq!(g.gen_strings(count).len(), count, "{}", r);
        }
    }
    let a = gen_rec("^a(?=b)c$").unwrap();
    let mut g = StringGenerator::from_automata(&a);
    assert_eq!(g.gen_strings(12).len(), 0);
}

#[test]
fn generated_expressions_are_written_and_not_empty() {
    let g = RegexGenerator::new(&Config {
        max_lookahead_count: 3,
        star_height: 2,
        alphabet_size: 2,
        max_letter_count: 7,
    });
    for r in g.generate(60) {
        assert!(r.len() > 2, "{}", r);
        assert!(r[1..r.len() - 1].chars().all(|c| "ab()|*?=".contains(c)), "{}", r);
    }
    let none = RegexGenerator::new(&Config {
        max_lookahead_count: 3,
        star_height: 2,
        alphabet_size: 2,
        max_letter_count: 0,
    });
    for r in none.generate(5) {
        assert_eq!(r, "^$");
    }
}

#[test]
fn a_note_stands_for_each_skipped_string_and_for_no_other() {
    let with = fancy_regex::Regex::new("^a(?=b)b*$").unwrap();
    let without = fancy_regex::Regex::new("^ab$").unwrap();
    assert_eq!(check_string_noting(&with, &without, "ab"), (Verdict::Agree, None));
    assert_eq!(check_string_noting(&with, &without, "abb"), (Verdict::Disagree, None));
    // a pattern on which the matcher runs out of steps
    let hard = fancy_regex::Regex::new("^(a|aa)*(?=b)b\\1$").unwrap_or(with.clone());
    let text = "a".repeat(40);
    let (verdict, note) = check_string_noting(&hard, &without, &text);
    assert_eq!(note.is_some(), verdict == Verdict::Skipped);
    let strings = vec!["ab".to_string(), "abb".to_string()];
    let (verdicts, notes) = check_strings_noting("^a(?=b)b*$", "^ab$", &strings).unwrap();
    assert_eq!(verdicts, vec![Verdict::Agree, Verdict::Disagree]);
    assert_eq!(notes, vec![None, None]);
    assert_eq!(check_strings_noting("^(a$", "^ab$", &strings), None);
    let report = run_tests_for_regex("^(a|b)*a$", 6).unwrap();
    assert_eq!(report.strings.len(), 6);
    assert_eq!(report.notes.len(), 6);
    assert!(report.notes.iter().all(|n| n.is_none()));
}

#[test]
fn the_drawn_number_says_what_is_made() {
    // in an expression: concatenation, alternation, star, letter, lookahead
    assert_eq!(RegexGenerator::production(0, 5, 1, 1), Production::Concat);
    assert_eq!(RegexGenerator::production(1, 5, 1, 1), Production::Alternation);
    assert_eq!(RegexGenerator::production(2, 5, 1, 1), Production::Star);
    assert_eq!(RegexGenerator::production(3, 5, 1, 1), Production::Symbol);
    assert_eq!(RegexGenerator::production(4, 5, 1, 1), Production::Lookahead);
    assert_eq!(RegexGenerator::production(9, 5, 1, 1), Production::Lookahead);
    // what the limits do not allow is drawn again
    assert_eq!(RegexGenerator::production(1, 1, 1, 1), Production::Again);
    assert_eq!(RegexGenerator::production(1, 2, 1, 1), Production::Alternation);
    assert_eq!(RegexGenerator::production(2, 5, 0, 1), Production::Again);
    assert_eq!(RegexGenerator::production(4, 5, 1, 0), Production::Again);
    assert_eq!(RegexGenerator::production(0, 1, 0, 0), Production::Concat);
    assert_eq!(RegexGenerator::production(3, 1, 0, 0), Production::Symbol);
    // in the body of a lookahead there is no lookahead
    assert_eq!(RegexGenerator::body_production(0, 5, 1), Production::Concat);
    assert_eq!(RegexGenerator::body_production(1, 5, 1), Production::Alternation);
    assert_eq!(RegexGenerator::body_production(1, 1, 1), Production::Again);
    assert_eq!(RegexGenerator::body_production(2, 5, 1), Production::Star);
    assert_eq!(RegexGenerator::body_production(2, 5, 0), Production::Again);
    assert_eq!(RegexGenerator::body_production(3, 5, 1), Production::Symbol);
    assert_eq!(RegexGenerator::body_production(4, 5, 1), Production::Symbol);
}

#[test]
fn productions_are_written_with_their_marks() {
    let a = "ab".to_string();
    let b = "c".to_string();
    assert_eq!(alternation(&a, &b), "(ab|c)");
    assert_eq!(starred(&a), "(ab)*");
    assert_eq!(lookahead_group(&b), "(?=c)");
    assert_eq!(starred(&alternation(&a, &b)), "((ab|c))*");
}

#[test]
fn stars_are_nested_no_deeper_than_allowed() {
    fn depth(r: &str) -> usize {
        // the deepest nesting of groups that carry a star, outside lookaheads
        let chars: Vec<char> = r.chars().collect();
        let mut close = vec![0usize; chars.len()];
        let mut open: Vec<usize> = vec![];
        for (i, c) in chars.iter().enumerate() {
            if *c == '(' {
                open.push(i);
            } else if *c == ')' {
                close[open.pop().unwrap()] = i;
            }
        }
        fn walk(chars: &[char], close: &[usize], from: usize, to: usize) -> usize {
            let mut best = 0;
            let mut i = from;
            while i < to {
                if chars[i] == '(' {
                    let end = close[i];
                    let inside = walk(chars, close, i + 1, end);
                    let star = end + 1 < chars.len() && chars[end + 1] == '*';
                    best = best.max(inside + if star { 1 } else { 0 });
                    i = end + 1;
                } else {
                    i += 1;
                }
            }
            best
        }
        walk(&chars, &close, 0, chars.len())
    }
    assert_eq!(depth("a(b)*((c)*d)*"), 2);
    let mut rng = rand::thread_rng();
    for height in 0..3 {
        let g = RegexGenerator::new(&Config {
            max_lookahead_count: 2,
            star_height: height,
            alphabet_size: 2,
            max_letter_count: 8,
        });
        for _ in 0..60 {
            let r = g.generate_rec(&mut rng, 8, height, 2, usize::MAX);
            assert!(depth(&r) <= height, "{}", r);
            let l = g.generate_lookahead(&mut rng, 6);
            assert!(depth(&l) <= height, "{}", l);
        }
        for r in g.generate(30) {
            assert!(depth(&r[1..r.len() - 1]) <= height, "{}", r);
        }
    }
}

#[test]
fn the_parser_takes_what_the_generator_makes() {
    for (lookaheads, height, letters) in [(0, 0, 1), (0, 2, 5), (3, 1, 6), (4, 2, 10), (2, 3, 12)] {
        let g = RegexGenerator::new(&Config {
            max_lookahead_count: lookaheads,
            star_height: height,
            alphabet_size: 3,
            max_letter_count: letters,
        });
        for r in g.generate(50) {
            assert!(lookahead_regex::parser::parse(&r).is_ok(), "{}", r);
        }
    }
    let mut rng = rand::thread_rng();
    let g = RegexGenerator::new(&Config {
        max_lookahead_count: 2,
        star_height: 2,
        alphabet_size: 2,
        max_letter_count: 8,
    });
    for n in 1..9 {
        for _ in 0..30 {
            let r = format!("^{}$", g.generate_rec(&mut rng, n, 2, 2, usize::MAX));
            assert!(lookahead_regex::parser::parse(&r).is_ok(), "{}", r);
            let l = format!("^a(?={})$", g.generate_lookahead(&mut rng, n));
            assert!(lookahead_regex::parser::parse(&l).is_ok(), "{}", l);
        }
    }
}
