use lookahead_regex::parser::{parse, ParseError, Token};

#[test]
fn invalid_begin() {
    let regex = "test$".to_string();
    let res = parse(&regex);
    assert!(res.is_err());
}

#[test]
fn invalid_end() {
    let regex = "^test".to_string();
    let res = parse(&regex);
    assert!(res.is_err());
}

#[test]
fn simple_string() {
    let regex = "^test$".to_string();
    let res = parse(&regex);
    assert!(res.is_ok());
    let tokens = res.unwrap();
    assert!(tokens.len() == 1);
    assert!(matches!(tokens[0], Token::SymbolSeq { .. }));
}

#[test]
fn simple_unary() {
    let regex = "^test*$";
    let res = parse(regex);
    assert!(res.is_ok_and(|tokens| tokens.len() == 2
        && matches!(tokens[0], Token::SymbolSeq { .. })
        && matches!(tokens[1], Token::Unary { .. })));
}

#[test]
fn simple_binary() {
    let regex = "^test|iu9$";
    let res = parse(regex);
    assert!(res.is_ok_and(|tokens| tokens.len() == 3
        && matches!(tokens[0], Token::SymbolSeq { .. })
        && matches!(tokens[1], Token::Binary { .. })
        && matches!(tokens[2], Token::SymbolSeq { .. })));
}

#[test]
fn invalid_binary() {
    let regex = "^5|$";
    assert!(parse(regex).is_err());

    let regex = "^|6$";
    assert!(parse(regex).is_err());

    let regex = "^|$";
    assert!(parse(regex).is_err());
}

#[test]
fn invalid_unary() {
    let regex = "^*abcd$";
    assert!(parse(regex).is_err());

    let regex = "^ab()*cd$";
    assert!(parse(regex).is_err());

    let regex = "^ab(())*cd$";

    assert!(parse(regex).is_err());
}

#[test]
fn invalid_brackets() {
    let regex1 = "^test((abc)$".to_string();
    let regex2 = "^testabc)$".to_string();
    let regex3 = "^testabc($".to_string();

    let res = parse(&regex1);
    assert!(res.is_err());

    let res = parse(&regex2);
    assert!(res.is_err());

    let res = parse(&regex3);
    assert!(res.is_err());
}

#[test]
fn valid_brackets() {
    let regex1 = "^test(abc)$".to_string();

    let res = parse(&regex1);
    assert!(res.is_ok());

    let tokens = res.unwrap();
    assert_eq!(tokens.len(), 4);

    assert!(matches!(tokens[0], Token::SymbolSeq(..)));
    assert!(matches!(tokens[1], Token::OpenBracket));
    assert!(matches!(tokens[2], Token::SymbolSeq(..)));
    assert!(matches!(tokens[3], Token::CloseBracket));
}

#[test]
fn valid_brackets_hard() {
    let regex = "^(te|st)*(abc)$".to_string();

    let res = parse(&regex);

    assert!(res.is_ok_and(|tokens| tokens.len() == 9
        && matches!(tokens[0], Token::OpenBracket)
        && matches!(tokens[1], Token::SymbolSeq(..))
        && matches!(tokens[2], Token::Binary(..))
        && matches!(tokens[3], Token::SymbolSeq(..))
        && matches!(tokens[4], Token::CloseBracket)
        && matches!(tokens[5], Token::Unary(..))
        && matches!(tokens[6], Token::OpenBracket)
        && matches!(tokens[7], Token::SymbolSeq(..))
        && matches!(tokens[8], Token::CloseBracket)));

    let regex = "^(test|(abc)*)*(abc)$".to_string();

    let res = parse(&regex);
    assert!(res.is_ok_and(|tokens| tokens.len() == 12
        && matches!(tokens[0], Token::OpenBracket)
        && matches!(tokens[1], Token::SymbolSeq(..))
        && matches!(tokens[2], Token::Binary(..))
        && matches!(tokens[3], Token::OpenBracket)
        && matches!(tokens[4], Token::SymbolSeq(..))
        && matches!(tokens[5], Token::CloseBracket)
        && matches!(tokens[6], Token::Unary(..))
        && matches!(tokens[7], Token::CloseBracket)
        && matches!(tokens[8], Token::Unary(..))
        && matches!(tokens[9], Token::OpenBracket)
        && matches!(tokens[10], Token::SymbolSeq(..))
        && matches!(tokens[11], Token::CloseBracket)));

    let regex = "^(((test)))$";
    let res = parse(regex);

    assert!(res.is_ok());

    let res = res.unwrap();

    assert_eq!(res.len(), 3);
    assert!(matches!(res[0], Token::OpenBracket));
    assert!(matches!(res[1], Token::SymbolSeq(..)));
    assert!(matches!(res[2], Token::CloseBracket));

    let regex = "^(((test|((abc))*)))*(((abc)))$".to_string();

    let res = parse(&regex);
    assert!(res.is_ok_and(|tokens| tokens.len() == 12
        && matches!(tokens[0], Token::OpenBracket)
        && matches!(tokens[1], Token::SymbolSeq(..))
        && matches!(tokens[2], Token::Binary(..))
        && matches!(tokens[3], Token::OpenBracket)
        && matches!(tokens[4], Token::SymbolSeq(..))
        && matches!(tokens[5], Token::CloseBracket)
        && matches!(tokens[6], Token::Unary(..))
        && matches!(tokens[7], Token::CloseBracket)
        && matches!(tokens[8], Token::Unary(..))
        && matches!(tokens[9], Token::OpenBracket)
        && matches!(tokens[10], Token::SymbolSeq(..))
        && matches!(tokens[11], Token::CloseBracket)));
}

#[test]
fn lookahead_simple() {
    let regex = "^a(?=abc)$";

    let res = parse(regex);

    assert!(res.is_ok_and(|tokens| {
        tokens.len() == 2
            && matches!(tokens[0], Token::SymbolSeq(..))
            && matches!(&tokens[1], Token::LookaheadGroup(group) if group.len() == 1
                    && matches!(&group[0], Token::SymbolSeq(l) if l == "abc"))
    }));

    let regex = "^a(?=abc$)$";
    let res = parse(regex);

    assert!(res.is_ok_and(|tokens| tokens.len() == 2
        && matches!(tokens[0], Token::SymbolSeq(..))
        && matches!(tokens[1], Token::LookaheadGroup(..))));

    let l = parse(regex).unwrap();

    assert!(
        matches!(&l[1], Token::LookaheadGroup(group) if group.len() == 2
                     && matches!(&group[0], Token::SymbolSeq(..))
                     && matches!(&group[1], Token::StringEnd))
    );
}

#[test]
fn lookahead_invalid() {
    let regex = "^a(?=abc))$";
    assert!(parse(regex).is_err());

    let regex = "^a(?=abc)*abc$";
    assert!(parse(regex).is_err());
}

#[test]
fn lookbehind_simple() {
    let regex = "^(?<=abc)abc$";

    let res = parse(regex);

    assert!(res.is_ok());

    let res = res.unwrap();

    assert_eq!(res.len(), 2);
    assert!(matches!(res[0], Token::LookbehindGroup(..)));
    assert!(matches!(res[1], Token::SymbolSeq(..)));
}

#[test]
fn brackets_simplification() {
    let regex = "^a((ab*c))$";

    let res = parse(regex);

    assert!(res.is_ok());

    let tokens = res.unwrap();

    assert_eq!(tokens.len(), 6);
    assert!(matches!(tokens[0], Token::SymbolSeq(..)));
    assert!(matches!(tokens[1], Token::OpenBracket));
    assert!(matches!(tokens[2], Token::SymbolSeq(..)));
    assert!(matches!(tokens[3], Token::Unary(..)));
    assert!(matches!(tokens[4], Token::SymbolSeq(..)));
    assert!(matches!(tokens[5], Token::CloseBracket));
}

#[test]
fn lookahead_hard() {
    let regex = "^a(?=((ab)*c|kd))abc$";

    assert!(parse(regex).is_ok_and(|tokens| tokens.len() == 3
        && matches!(tokens[0], Token::SymbolSeq(..))
        && matches!(tokens[1], Token::LookaheadGroup(..))
        && matches!(tokens[2], Token::SymbolSeq(..))));

    let regex = "^a(?=(abc|kd))abc$";

    assert!(parse(regex).is_ok_and(|tokens| tokens.len() == 3
        && matches!(tokens[0], Token::SymbolSeq(..))
        && matches!(tokens[1], Token::LookaheadGroup(..))
        && matches!(tokens[2], Token::SymbolSeq(..))));
}

#[test]
fn each_error_has_its_input() {
    assert_eq!(parse("").unwrap_err(), ParseError::InvalidBegin);
    assert_eq!(parse("a$").unwrap_err(), ParseError::InvalidBegin);
    assert_eq!(parse("^").unwrap_err(), ParseError::InvalidEnd);
    assert_eq!(parse("^a").unwrap_err(), ParseError::InvalidEnd);
    assert_eq!(parse("^a)$").unwrap_err(), ParseError::InvalidBrackets);
    assert_eq!(parse("^a($").unwrap_err(), ParseError::InvalidBrackets);
    assert_eq!(parse("^a(b$").unwrap_err(), ParseError::InvalidBrackets);
    assert_eq!(parse("^a(?b)$").unwrap_err(), ParseError::InvalidLookahead);
    assert_eq!(parse("^a(?<b)$").unwrap_err(), ParseError::InvalidLookahead);
    assert_eq!(parse("^a(?=b$c)$").unwrap_err(), ParseError::InvalidLookahead);
    assert_eq!(parse("^a(?=(?=b))$").unwrap_err(), ParseError::InvalidLookahead);
    assert_eq!(parse("^*a$").unwrap_err(), ParseError::InvalidOperation);
    assert_eq!(parse("^a|$").unwrap_err(), ParseError::InvalidOperation);
    assert_eq!(parse("^|a$").unwrap_err(), ParseError::InvalidOperation);
    assert_eq!(parse("^(?=a)*$").unwrap_err(), ParseError::InvalidOperation);
    assert_eq!(parse("^a()$").unwrap_err(), ParseError::EmptyBrackets);
    assert_eq!(parse("^a(?=)$").unwrap_err(), ParseError::EmptyBrackets);
}

#[test]
fn empty_body_has_no_tokens() {
    assert_eq!(parse("^$").unwrap().len(), 0);
}

#[test]
fn token_text_is_what_was_read() {
    let tokens = parse("^a((b|c))*(?=d.*$)(?<=e)f$").unwrap();
    let mut text = String::new();
    for t in tokens.iter() {
        text.push_str(&t.to_string());
    }
    assert_eq!(text, "a(b|c)*(?=d.*$)(?<=e)f");
}

#[test]
fn parse_round_trips_on_its_own_output() {
    for r in ["^abc$", "^a(b|c)*d$", "^a(?=b(c|d)*$)bcd$", "^(((a)))*b|c(d)$", "^(?<=ab)c*$"] {
        let tokens = parse(r).unwrap();
        let mut text = String::from("^");
        for t in tokens.iter() {
            text.push_str(&t.to_string());
        }
        text.push('$');
        let again = parse(&text).unwrap();
        assert_eq!(format!("{:?}", again), format!("{:?}", tokens));
    }
}

#[test]
fn the_end_of_the_string_stands_at_the_end_of_a_lookahead_alone() {
    // not in a group of the body
    assert_eq!(parse("^a(?=(a$)b)c$").unwrap_err(), ParseError::InvalidLookahead);
    assert_eq!(parse("^a(?=(a$))c$").unwrap_err(), ParseError::InvalidLookahead);
    assert_eq!(parse("^a(?=(a|b$))c$").unwrap_err(), ParseError::InvalidLookahead);
    assert_eq!(parse("^a(?=((a$)))c$").unwrap_err(), ParseError::InvalidLookahead);
    assert_eq!(parse("^a(?=b(c(a$)))c$").unwrap_err(), ParseError::InvalidLookahead);
    // not before the end of the body
    assert_eq!(parse("^a(?=a$b)c$").unwrap_err(), ParseError::InvalidLookahead);
    assert_eq!(parse("^a(?=$b)c$").unwrap_err(), ParseError::InvalidLookahead);
    assert_eq!(parse("^a(?=a$|b)c$").unwrap_err(), ParseError::InvalidLookahead);
    assert_eq!(parse("^a(?=a$$)c$").unwrap_err(), ParseError::InvalidLookahead);
    // at the end of the body it is the last token, and the only one
    for r in ["^a(?=(a)b$)c$", "^a(?=a|b$)c$", "^a(?=$)c$", "^a(?=(a|b)*$)c$"] {
        let tokens = parse(r).unwrap();
        match &tokens[1] {
            Token::LookaheadGroup(body) => {
                assert!(matches!(body.last(), Some(Token::StringEnd)), "{}", r);
                let ends = body.iter().filter(|t| matches!(t, Token::StringEnd)).count();
                assert_eq!(ends, 1, "{}", r);
            },
            other => panic!("{:?}", other),
        }
    }
    // a group of the body without it is read as before
    assert!(parse("^a(?=(ab)c)c$").is_ok());
}

#[test]
fn each_error_has_a_text_of_its_own() {
    assert_eq!(ParseError::InvalidBegin.to_string(), "regex must be begin with '^'");
    assert_eq!(ParseError::InvalidEnd.to_string(), "regex must be end with '$'");
    assert_eq!(ParseError::InvalidBrackets.to_string(), "invalid brackets sequence");
    assert_eq!(ParseError::InvalidLookahead.to_string(), "invalid lookahead operation");
    assert_eq!(ParseError::InvalidOperation.to_string(), "invalid operation");
    assert_eq!(ParseError::EmptyBrackets.to_string(), "empty brackets");
    assert_eq!(parse("abc$").unwrap_err().to_string(), "regex must be begin with '^'");
    assert_eq!(parse("^a()$").unwrap_err().to_string(), "empty brackets");
}

#[test]
fn what_the_grammar_refuses_is_refused() {
    // anchors
    for r in ["", "a", "a$", "^a", "^", "$"] {
        assert!(parse(r).is_err(), "{:?}", r);
    }
    // brackets that are not closed or not opened, and empty groups
    for r in ["^(a$", "^a)$", "^((a)$", "^()$", "^a()b$", "^(?=)$", "^(?<=)a$"] {
        assert!(parse(r).is_err(), "{:?}", r);
    }
    // a star without something before it, or behind a lookahead
    for r in ["^*$", "^(*a)$", "^a|*b$", "^a(?=b)*c$"] {
        assert!(parse(r).is_err(), "{:?}", r);
    }
    // a bar without something on a side
    for r in ["^|a$", "^a|$", "^(a|)$", "^(|a)$", "^a||b$"] {
        assert!(parse(r).is_err(), "{:?}", r);
    }
    // a question mark behind a bracket that opens no lookahead
    for r in ["^(?a)$", "^(?<a)$", "^(?!a)$", "^(?$"] {
        assert!(parse(r).is_err(), "{:?}", r);
    }
    // what the grammar takes
    for r in ["^$", "^a$", "^a*$", "^a**$", "^(a)*$", "^((a))$", "^a|b$", "^(a|b)*c$", "^a(?=b)c$",
        "^a(?<=b)*c$", "^a(?=b$)c$", "^a(?=(b|c)*d)$", "^a.b$"] {
        assert!(parse(r).is_ok(), "{:?}", r);
    }
}
