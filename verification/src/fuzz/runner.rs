//! Judging the rewriting by a backtracking matcher.
use vstd::prelude::*;
use fancy_regex::Error;
use fancy_regex::Regex;
use crate::convertor::ConvertError;
use crate::convertor::gen_rec;
use crate::convertor::rewrites;
use crate::convertor::rewritten_to;
use crate::fuzz::regex_generator::Config;
use crate::fuzz::regex_generator::RegexGenerator;
use crate::fuzz::str_generator::StringGenerator;
use crate::fuzz::str_generator::generated;
use crate::ndfa::Automata;
use crate::ndfa::Nfa;
use crate::ndfa::elimination::regex_of;
use crate::text::chars_of;

verus! {

/// A compiled expression of `fancy_regex`.
#[verifier::external_type_specification]
#[verifier::external_body]
pub struct ExRegex(Regex);

/// The error of `fancy_regex`.
#[verifier::external_type_specification]
#[verifier::external_body]
pub struct ExError(Error);

/// Whether `fancy_regex` takes the pattern.
pub uninterp spec fn compiles(pattern: Seq<char>) -> bool;

/// The pattern that a compiled expression was made of, as
/// `Regex::as_str` returns it.
pub uninterp spec fn pattern_text(regex: Regex) -> Seq<char>;

/// What `Regex::is_match` answers when the compiled expression is run on
/// the text: whether it matches, or none where the run fails.
pub uninterp spec fn answers(regex: Regex, text: Seq<char>) -> Option<bool>;

/// `Regex::new` compiles the pattern, or says why it cannot. Whether it
/// can depends on the pattern alone, and the compiled expression keeps
/// the pattern that it was made of.
#[verifier::external_body]
pub(crate) fn compile(pattern: &str) -> (compiled: Result<Regex, Error>)
    ensures
        compiled is Ok <==> compiles(pattern@),
        compiled matches Ok(regex) ==> pattern_text(regex) == pattern@,
{
    Regex::new(pattern)
}

/// The answer in what a run returned: none for an error.
pub open spec fn answer_of(matched: Result<bool, Error>) -> Option<bool> {
    match matched {
        Ok(b) => Some(b),
        Err(_) => None,
    }
}

/// The `Display` of the matcher's error writes its text.
#[verifier::external_body]
pub(crate) fn explain(error: &Error) -> (text: String) {
    format!("{}", error)
}

/// `Regex::is_match` says whether the compiled expression matches the
/// text, or why it could not be run. What it says depends on the
/// compiled expression and the text alone.
#[verifier::external_body]
pub(crate) fn run(regex: &Regex, text: &str) -> (matched: Result<bool, Error>)
    ensures
        answer_of(matched) == answers(*regex, text@),
{
    regex.is_match(text)
}

/// What the comparison of the two expressions on one string showed.
#[derive(Debug, Clone, Copy, PartialEq, Eq, Structural)]
pub enum Verdict {
    /// Both expressions match, or neither does.
    Agree,
    /// One expression matches and the other does not.
    Disagree,
    /// The matcher failed on one of the expressions.
    Skipped,
}

/// The verdict on a string on which the expression with lookaheads gave
/// `with_lookahead` and the one without gave `without_lookahead`; none
/// stands for a failure of the matcher.
pub open spec fn judged(with_lookahead: Option<bool>, without_lookahead: Option<bool>) -> Verdict {
    match (with_lookahead, without_lookahead) {
        (Some(lhs), Some(rhs)) => if lhs == rhs {
            Verdict::Agree
        } else {
            Verdict::Disagree
        },
        _ => Verdict::Skipped,
    }
}

/// The verdict on a string.
pub fn judge(with_lookahead: Option<bool>, without_lookahead: Option<bool>) -> (verdict: Verdict)
    ensures
        verdict == judged(with_lookahead, without_lookahead),
{
    match with_lookahead {
        None => Verdict::Skipped,
        Some(lhs) => match without_lookahead {
            None => Verdict::Skipped,
            Some(rhs) => if lhs == rhs {
                Verdict::Agree
            } else {
                Verdict::Disagree
            },
        },
    }
}

/// The sign of the empty string in an expression.
pub const EPSILON: char = '\u{3b5}';

/// `s` with every sign of the empty string replaced by `(.?)`.
pub open spec fn without_epsilon(s: Seq<char>) -> Seq<char>
    decreases s.len(),
{
    if s.len() == 0 {
        Seq::empty()
    } else if s.last() == EPSILON {
        without_epsilon(s.drop_last()) + seq!['(', '.', '?', ')']
    } else {
        without_epsilon(s.drop_last()).push(s.last())
    }
}

/// The pattern that is handed to the matcher for `regex`: every sign of the
/// empty string becomes `(.?)`.
pub fn oracle_pattern(regex: &str) -> (pattern: String)
    ensures
        pattern@ == without_epsilon(regex@),
{
    let chars = chars_of(regex);
    let mut pattern = String::new();
    let mut i: usize = 0;
    while i < chars.len()
        invariant
            i <= chars.len(),
            pattern@ == without_epsilon(chars@.take(i as int)),
        decreases chars.len() - i,
    {
        proof {
            assert(chars@.take(i + 1).drop_last() =~= chars@.take(i as int));
        }
        if chars[i] == EPSILON {
            pattern.push('(');
            pattern.push('.');
            pattern.push('?');
            pattern.push(')');
            proof {
                assert(pattern@ =~= without_epsilon(chars@.take(i as int)) + seq!['(', '.', '?', ')']);
            }
        } else {
            pattern.push(chars[i]);
        }
        i += 1;
    }
    proof {
        assert(chars@.take(i as int) =~= chars@);
    }
    pattern
}

/// What the matcher made of a run: its answer, or the text of its error.
fn noted(matched: Result<bool, Error>) -> (r: (Option<bool>, Option<String>))
    ensures
        r.0 == answer_of(matched),
        r.1 is Some <==> matched is Err,
{
    match matched {
        Ok(b) => (Some(b), None),
        Err(e) => (None, Some(explain(&e))),
    }
}

/// Compares the expression with lookaheads and the one without on `text`,
/// and notes the text of the matcher's error where it failed, that of the
/// first expression before that of the second. The verdict is the one
/// that `judged` gives for the matcher's two answers.
pub fn check_string_noting(with_lookahead: &Regex, without_lookahead: &Regex, text: &str) -> (r: (
    Verdict,
    Option<String>,
))
    ensures
        r.0 == judged(answers(*with_lookahead, text@), answers(*without_lookahead, text@)),
        r.1 is Some <==> r.0 == Verdict::Skipped,
{
    let lhs = noted(run(with_lookahead, text));
    let rhs = noted(run(without_lookahead, text));
    let verdict = judge(lhs.0, rhs.0);
    let note = match lhs.1 {
        Some(text) => Some(text),
        None => rhs.1,
    };
    (verdict, note)
}

/// Compares the expression with lookaheads and the one without on `text`.
/// The verdict is the one that `judged` gives for the matcher's two
/// answers.
pub fn check_string(with_lookahead: &Regex, without_lookahead: &Regex, text: &str) -> (verdict:
    Verdict)
    ensures
        verdict == judged(answers(*with_lookahead, text@), answers(*without_lookahead, text@)),
{
    check_string_noting(with_lookahead, without_lookahead, text).0
}

/// The verdicts and the notes go together: a note stands for each string
/// that was skipped, and for no other.
pub open spec fn noted_well(verdicts: Seq<Verdict>, notes: Seq<Option<String>>) -> bool {
    &&& notes.len() == verdicts.len()
    &&& forall|k: int|
        0 <= k < verdicts.len() ==> ((#[trigger] notes[k]) is Some <==> verdicts[k]
            == Verdict::Skipped)
}

/// Each verdict is the one that `judged` gives for what the matcher
/// answers when the two compiled expressions are run on the string of
/// the same place.
pub open spec fn judged_all(
    with_lookahead: Regex,
    without_lookahead: Regex,
    strings: Seq<String>,
    verdicts: Seq<Verdict>,
) -> bool {
    &&& verdicts.len() == strings.len()
    &&& forall|i: int|
        0 <= i < strings.len() ==> #[trigger] verdicts[i] == judged(
            answers(with_lookahead, strings[i]@),
            answers(without_lookahead, strings[i]@),
        )
}

/// The verdicts are those on `strings` of two compiled expressions that
/// were made of the patterns `with_lookahead` and `without_lookahead`.
pub open spec fn judged_by(
    with_lookahead: Seq<char>,
    without_lookahead: Seq<char>,
    strings: Seq<String>,
    verdicts: Seq<Verdict>,
) -> bool {
    exists|lhs: Regex, rhs: Regex|
        pattern_text(lhs) == with_lookahead && pattern_text(rhs) == without_lookahead
            && #[trigger] judged_all(lhs, rhs, strings, verdicts)
}

/// Compares the two expressions on each of `strings`: none if the matcher
/// refuses one of the expressions, else one verdict for each string, in
/// order, and with it the text of the matcher's error where it failed.
pub fn check_strings_noting(
    with_lookahead: &str,
    without_lookahead: &str,
    strings: &Vec<String>,
) -> (checked: Option<(Vec<Verdict>, Vec<Option<String>>)>)
    ensures
        checked is Some <==> compiles(with_lookahead@) && compiles(without_lookahead@),
        checked matches Some(c) ==> judged_by(with_lookahead@, without_lookahead@, strings@, c.0@)
            && noted_well(c.0@, c.1@),
{
    let lhs = match compile(with_lookahead) {
        Ok(regex) => regex,
        Err(_) => {
            return None;
        },
    };
    let rhs = match compile(without_lookahead) {
        Ok(regex) => regex,
        Err(_) => {
            return None;
        },
    };
    let mut verdicts: Vec<Verdict> = Vec::new();
    let mut notes: Vec<Option<String>> = Vec::new();
    let mut i: usize = 0;
    while i < strings.len()
        invariant
            i <= strings.len(),
            verdicts.len() == i,
            noted_well(verdicts@, notes@),
            judged_all(lhs, rhs, strings@.take(i as int), verdicts@),
        decreases strings.len() - i,
    {
        let ghost v0 = verdicts@;
        let ghost n0 = notes@;
        let (verdict, note) = check_string_noting(&lhs, &rhs, strings[i].as_str());
        verdicts.push(verdict);
        notes.push(note);
        proof {
            let done = strings@.take(i + 1);
            assert forall|k: int| 0 <= k < done.len() implies #[trigger] verdicts[k] == judged(
                answers(lhs, done[k]@),
                answers(rhs, done[k]@),
            ) by {
                if k < v0.len() {
                    assert(verdicts[k] == v0[k]);
                    assert(done[k] == strings@.take(i as int)[k]);
                }
            }
            assert forall|k: int| 0 <= k < verdicts.len() implies ((#[trigger] notes[k]) is Some
                <==> verdicts[k] == Verdict::Skipped) by {
                if k < v0.len() {
                    assert(notes[k] == n0[k]);
                    assert(verdicts[k] == v0[k]);
                }
            }
        }
        i += 1;
    }
    proof {
        assert(strings@.take(i as int) =~= strings@);
        assert(judged_all(lhs, rhs, strings@, verdicts@));
    }
    Some((verdicts, notes))
}

/// Compares the two expressions on each of `strings`: none if the matcher
/// refuses one of the expressions, else one verdict for each string, in
/// order.
pub fn check_strings(with_lookahead: &str, without_lookahead: &str, strings: &Vec<String>) -> (verdicts:
    Option<Vec<Verdict>>)
    ensures
        verdicts is Some <==> compiles(with_lookahead@) && compiles(without_lookahead@),
        verdicts matches Some(v) ==> judged_by(with_lookahead@, without_lookahead@, strings@, v@),
{
    match check_strings_noting(with_lookahead, without_lookahead, strings) {
        Some(checked) => Some(checked.0),
        None => None,
    }
}

/// The classical expression of the automaton `n`: `^$` where state
/// elimination leaves no label.
pub open spec fn expression_of(n: Nfa<char>) -> Seq<char> {
    match regex_of(n) {
        Some(regex) => regex,
        None => seq!['^', '$'],
    }
}

/// The classical expression of the automaton `n` as the matcher takes it.
pub open spec fn pattern_of(n: Nfa<char>) -> Seq<char> {
    without_epsilon(expression_of(n))
}

/// The classical expression of `automata`: `^$` where state elimination
/// leaves no label.
pub fn classical_expression(automata: &Automata) -> (expression: String)
    requires
        automata.wf(),
        automata.size < usize::MAX,
    ensures
        expression@ == expression_of(automata@),
{
    match automata.to_regex() {
        Some(regex) => regex,
        None => {
            let mut empty = String::new();
            empty.push('^');
            empty.push('$');
            assert(empty@ =~= seq!['^', '$']);
            empty
        },
    }
}

/// The classical expression of `automata` as the matcher takes it: `^$`
/// where state elimination leaves no label.
pub fn classical_pattern(automata: &Automata) -> (pattern: String)
    requires
        automata.wf(),
        automata.size < usize::MAX,
    ensures
        pattern@ == pattern_of(automata@),
{
    let regex = classical_expression(automata);
    oracle_pattern(regex.as_str())
}

/// The number of verdicts that are `Disagree`.
pub open spec fn failures(verdicts: Seq<Verdict>) -> nat
    decreases verdicts.len(),
{
    if verdicts.len() == 0 {
        0
    } else if verdicts.last() == Verdict::Disagree {
        failures(verdicts.drop_last()) + 1
    } else {
        failures(verdicts.drop_last())
    }
}

/// The number of strings on which the two expressions disagreed.
pub fn count_failures(verdicts: &Vec<Verdict>) -> (count: usize)
    ensures
        count == failures(verdicts@),
{
    let mut count: usize = 0;
    let mut i: usize = 0;
    while i < verdicts.len()
        invariant
            i <= verdicts.len(),
            count <= i,
            count == failures(verdicts@.take(i as int)),
        decreases verdicts.len() - i,
    {
        proof {
            assert(verdicts@.take(i + 1).drop_last() =~= verdicts@.take(i as int));
        }
        if verdicts[i] == Verdict::Disagree {
            count += 1;
        }
        i += 1;
    }
    proof {
        assert(verdicts@.take(i as int) =~= verdicts@);
    }
    count
}

/// What the comparison of an expression with its rewriting showed.
#[derive(Debug)]
pub struct Report {
    /// The rewriting as state elimination wrote it.
    pub expression: String,
    /// The rewriting, as the matcher takes it.
    pub pattern: String,
    /// The strings on which the two were compared.
    pub strings: Vec<String>,
    /// The verdict on each of the strings, in order.
    pub verdicts: Vec<Verdict>,
    /// For each string that was skipped, the text of the matcher's error.
    pub notes: Vec<Option<String>>,
}

/// Why an expression could not be compared with its rewriting.
#[derive(Debug, Clone, Copy, PartialEq, Eq, Structural)]
pub enum RunError {
    /// The expression could not be rewritten.
    Convert(ConvertError),
    /// The automaton has more states than the generator of strings can
    /// take.
    TooLarge,
    /// The matcher does not take the expression or its rewriting.
    Refused,
}

/// The generator of strings can take an automaton of `size` states.
pub open spec fn fits(size: nat) -> bool {
    size < usize::MAX && size * size <= usize::MAX
}

/// What comparing the expression `r` with its rewriting on `count`
/// strings gives.
pub open spec fn compared(r: Seq<char>, count: nat, res: Result<Report, RunError>) -> bool {
    match res {
        Err(RunError::Convert(e)) => rewrites(r, Err::<Nfa<char>, ConvertError>(e)),
        Err(RunError::TooLarge) => exists|n: Nfa<char>| #[trigger] rewritten_to(r, n) && !fits(n.size),
        Err(RunError::Refused) => exists|n: Nfa<char>|
            #[trigger] rewritten_to(r, n) && fits(n.size) && !(compiles(r) && compiles(
                pattern_of(n),
            )),
        Ok(report) => {
            &&& exists|n: Nfa<char>|
                #[trigger] rewritten_to(r, n) && fits(n.size) && report.expression@
                    == expression_of(n) && report.pattern@ == pattern_of(n) && told(
                    n,
                    count,
                    report.strings@,
                )
            &&& compiles(r)
            &&& compiles(report.pattern@)
            &&& judged_by(r, report.pattern@, report.strings@, report.verdicts@)
            &&& noted_well(report.verdicts@, report.notes@)
        },
    }
}

/// `strings` are what the generator of strings makes of the automaton `n`
/// when `count` are asked for: none if `n` accepts nothing, else `count`
/// strings, each made by mutations of the words of a walk of `n`.
pub open spec fn told(n: Nfa<char>, count: nat, strings: Seq<String>) -> bool {
    &&& strings.len() == if crate::ndfa::is_empty_nfa(n) {
        0
    } else {
        count
    }
    &&& forall|i: int| 0 <= i < strings.len() ==> generated(n, (#[trigger] strings[i])@)
}

/// Rewrites the expression `r`, makes `strs_count` strings along the ways
/// of its automaton, and compares `r` with its rewriting on each of them
/// by the matcher.
pub fn run_tests_for_regex(r: &str, strs_count: usize) -> (res: Result<Report, RunError>)
    ensures
        compared(r@, strs_count as nat, res),
{
    let automata = match gen_rec(r) {
        Ok(automata) => automata,
        Err(e) => {
            return Err(RunError::Convert(e));
        },
    };
    assert(rewritten_to(r@, automata@));
    if automata.size == usize::MAX || automata.size.checked_mul(automata.size).is_none() {
        return Err(RunError::TooLarge);
    }
    let expression = classical_expression(&automata);
    let pattern = oracle_pattern(expression.as_str());
    let mut generator = StringGenerator::from_automata(&automata);
    let strings = generator.gen_strings(strs_count);
    assert(told(automata@, strs_count as nat, strings@));
    match check_strings_noting(r, pattern.as_str(), &strings) {
        None => Err(RunError::Refused),
        Some(checked) => Ok(
            Report { expression, pattern, strings, verdicts: checked.0, notes: checked.1 },
        ),
    }
}

/// Makes `regex_count` random expressions within the limits `cfg` and
/// compares each with its rewriting on `strs_count` strings.
pub fn run_tests(regex_count: usize, strs_count: usize, cfg: &Config) -> (reports: Vec<
    (String, Result<Report, RunError>),
>)
    requires
        0 < cfg.alphabet_size <= 26,
    ensures
        reports.len() == regex_count,
        forall|i: int|
            0 <= i < reports.len() ==> compared(
                (#[trigger] reports[i]).0@,
                strs_count as nat,
                reports[i].1,
            ),
{
    let generator = RegexGenerator::new(cfg);
    let regexes = generator.generate(regex_count);
    let mut reports: Vec<(String, Result<Report, RunError>)> = Vec::new();
    let mut i: usize = 0;
    while i < regexes.len()
        invariant
            i <= regexes.len(),
            reports.len() == i,
            forall|k: int|
                0 <= k < reports.len() ==> compared(
                    (#[trigger] reports[k]).0@,
                    strs_count as nat,
                    reports[k].1,
                ),
        decreases regexes.len() - i,
    {
        let regex = regexes[i].clone();
        let report = run_tests_for_regex(regex.as_str(), strs_count);
        reports.push((regex, report));
        i += 1;
    }
    reports
}

} // verus!
