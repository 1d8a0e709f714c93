use lookahead_regex::convertor::{gen_rec, ConvertError};
use lookahead_regex::parser::ParseError;

fn accepted(r: &str, words: &[&str]) -> Vec<String> {
    let a = gen_rec(r).unwrap();
    words.iter().filter(|w| a.accepts(w, true)).map(|w| w.to_string()).collect()
}

const WORDS: [&str; 16] = [
    "", "a", "b", "c", "ab", "ac", "ba", "bc", "aab", "aba", "abc", "abba", "aabc", "abd", "cd", "bbc",
];

#[test]
fn empty_body_gives_the_epsilon_automaton() {
    let a = gen_rec("^$").unwrap();
    assert_eq!(a.size, 1);
    assert!(a.is_finite_state(0));
    assert!(a.accepts("", true));
    assert!(!a.accepts("a", true));
    assert_eq!(a.to_regex(), Some("^$".to_string()));
}

#[test]
fn plain_word() {
    let a = gen_rec("^abc$").unwrap();
    assert_eq!(a.size, 4);
    assert_eq!(accepted("^abc$", &WORDS), vec!["abc"]);
    assert_eq!(a.to_regex(), Some("^abc$".to_string()));
}

#[test]
fn plain_star() {
    let a = gen_rec("^a*$").unwrap();
    for w in ["", "a", "aa", "aaaa"] {
        assert!(a.accepts(w, true));
    }
    assert!(!a.accepts("b", true));
}

#[test]
fn plain_alternation_under_a_star() {
    assert_eq!(accepted("^(ab|b)*a$", &WORDS), vec!["a", "ba", "aba", "abba"]);
}

#[test]
fn rewritten_dot_star_accepts_everything() {
    assert_eq!(accepted("^.*$", &WORDS).len(), WORDS.len());
}

#[test]
fn rewritten_strings_that_end_in_a() {
    assert_eq!(accepted("^(a|b)*a$", &WORDS), vec!["a", "ba", "aba", "abba"]);
}

#[test]
fn lookahead_that_the_rest_meets() {
    let a = gen_rec("^a(?=b)b$").unwrap();
    assert_eq!(accepted("^a(?=b)b$", &WORDS), vec!["ab"]);
    assert_eq!(a.to_regex(), Some("^ab$".to_string()));
}

#[test]
fn lookahead_that_the_rest_cannot_meet() {
    let a = gen_rec("^a(?=b)c$").unwrap();
    assert!(a.is_empty());
    assert_eq!(accepted("^a(?=b)c$", &WORDS), Vec::<String>::new());
    assert_eq!(a.to_regex(), None);
}

#[test]
fn lookahead_cuts_the_rest_down() {
    assert_eq!(accepted("^a(?=.*b)(a|b)*$", &WORDS), vec!["ab", "aab", "aba", "abba"]);
    assert_eq!(accepted("^(a|b)*(?=.*c)(a|b)*c$", &WORDS), vec!["c", "ac", "bc", "abc", "aabc", "bbc"]);
}

#[test]
fn lookahead_to_the_end_of_the_string() {
    // the body reads to the end: what follows has to be what the body is
    let a = gen_rec("^(?=a$)a$").unwrap();
    assert!(a.accepts("a", true));
    assert!(a.accepts("a", false));
    for w in ["", "aa", "b", "ab", "a$", "$"] {
        assert!(!a.accepts(w, true), "{:?}", w);
    }
    assert_eq!(a.to_regex(), Some("^a$".to_string()));

    let a = gen_rec("^a(?=ab$)ab$").unwrap();
    assert!(a.accepts("aab", true));
    for w in ["", "a", "ab", "abc", "aabc", "aa", "aab$", "aabb"] {
        assert!(!a.accepts(w, true), "{:?}", w);
    }

    let a = gen_rec("^(a|b)*(?=.*c$)(a|b)*c$").unwrap();
    for w in ["c", "ac", "bc", "abc", "aabc", "bbc", "babac"] {
        assert!(a.accepts(w, true), "{:?}", w);
    }
    for w in ["", "a", "ab", "ca", "cc", "acb", "abc$", "abcc"] {
        assert!(!a.accepts(w, true), "{:?}", w);
    }

    // a lookahead that is nothing but the end of the string
    let a = gen_rec("^a(?=$)$").unwrap();
    assert!(a.accepts("a", true));
    assert!(!a.accepts("", true));
    assert!(!a.accepts("aa", true));
    assert!(gen_rec("^a(?=$)b$").unwrap().is_empty());

    // without the end of the string anything may follow the body
    let a = gen_rec("^a(?=a)ab$").unwrap();
    assert!(a.accepts("aab", true));
    assert!(!a.accepts("aa", true));
}

#[test]
fn wildcard_of_the_rest_does_not_meet_a_letter_of_the_lookahead() {
    // the rest stands on the second side of the intersection
    assert!(gen_rec("^a(?=b).*$").unwrap().is_empty());
}

#[test]
fn lookahead_in_a_group() {
    assert_eq!(accepted("^(a(?=b)b)c$", &WORDS), vec!["abc"]);
    assert_eq!(accepted("^x(a(?=b)b)c$", &["xabc", "abc", "xab"]), vec!["xabc"]);
}

#[test]
fn lookahead_in_an_alternative_drops_what_follows_the_group() {
    let a = gen_rec("^(a(?=b)b|c)d$").unwrap();
    assert_eq!(accepted("^(a(?=b)b|c)d$", &WORDS), vec!["c", "ab"]);
    assert_eq!(a.to_regex(), Some("^(ab|c)$".to_string()));
}

#[test]
fn parse_errors_come_through() {
    assert_eq!(gen_rec("abc").unwrap_err(), ConvertError::Parse(ParseError::InvalidBegin));
    assert_eq!(gen_rec("^abc").unwrap_err(), ConvertError::Parse(ParseError::InvalidEnd));
    assert_eq!(gen_rec("^a(b$").unwrap_err(), ConvertError::Parse(ParseError::InvalidBrackets));
    assert_eq!(gen_rec("^a(?b)$").unwrap_err(), ConvertError::Parse(ParseError::InvalidLookahead));
    assert_eq!(gen_rec("^a()$").unwrap_err(), ConvertError::Parse(ParseError::EmptyBrackets));
    assert_eq!(gen_rec("^*a$").unwrap_err(), ConvertError::Parse(ParseError::InvalidOperation));
    // the star behind the group is what follows the group, and begins with a star
    assert_eq!(gen_rec("^x(a(?=b)b)*$").unwrap_err(), ConvertError::Parse(ParseError::InvalidOperation));
}

#[test]
fn what_is_no_classical_expression_gives_no_automaton() {
    assert_eq!(gen_rec("^(?<=abc)abc$").unwrap_err(), ConvertError::Construction);
    assert_eq!(gen_rec("^a|(?=b)c$").unwrap_err(), ConvertError::Construction);
    assert_eq!(gen_rec("^test|iu9$").unwrap_err(), ConvertError::Construction);
}

#[test]
fn rewritten_expression_agrees_with_a_backtracking_matcher() {
    for r in [
        "^a(?=b)b$",
        "^a(?=.*b)(a|b)*$",
        "^(a|b)*(?=.*c)(a|b)*c$",
        "^(a(?=b)b)c$",
        "^a(?=b)c$",
        "^(?=a$)a$",
        "^a(?=ab$)ab$",
        "^(a|b)*(?=.*c$)(a|b)*c$",
        "^a(?=b|a)(a|b)*$",
        "^(?=ab|b)(a|b)*$",
    ] {
        let a = gen_rec(r).unwrap();
        let with_lookahead = fancy_regex::Regex::new(r).unwrap();
        let without = a.to_regex().map(|x| fancy_regex::Regex::new(&x).unwrap());
        for w in WORDS {
            let expected = with_lookahead.is_match(w).unwrap();
            assert_eq!(a.accepts(w, true), expected, "{} on {:?}", r, w);
            let got = match &without {
                Some(x) => x.is_match(w).unwrap(),
                None => false,
            };
            assert_eq!(got, expected, "{} on {:?}", r, w);
        }
    }
}

#[test]
fn lookahead_with_alternatives() {
    // each alternative of the body may be followed by anything
    let a = gen_rec("^a(?=b|c)(b|c)d$").unwrap();
    assert!(a.accepts("abd", true));
    assert!(a.accepts("acd", true));
    assert!(!a.accepts("ad", true));
    assert!(!a.accepts("ab", true));
    assert!(gen_rec("^a(?=b|c)dd$").unwrap().is_empty());
    let a = gen_rec("^(?=ab|b)(a|b)*$").unwrap();
    for w in ["ab", "b", "abb", "ba", "bab", "aba"] {
        assert!(a.accepts(w, true), "{:?}", w);
    }
    for w in ["", "a", "aa", "aab"] {
        assert!(!a.accepts(w, true), "{:?}", w);
    }
    // to the end of the string, each alternative has to be all that follows
    let a = gen_rec("^a(?=b|cc$)(b|c)*$").unwrap();
    assert!(a.accepts("ab", true));
    assert!(a.accepts("acc", true));
    assert!(!a.accepts("abb", true));
    assert!(!a.accepts("ac", true));
}
