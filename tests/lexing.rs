use lexer::{
    build_prec_table, first_match, group_tokens, lookup_prec, store_value, AstAny, AstError,
    AstResult, DelimPair, GroupOrToken, Handler, LexPrec, LexToken, Lexer,
};
use regex::Regex;

struct Quiet;

impl Handler for Quiet {
    fn on_read(&mut self, _token: &mut LexToken) -> AstResult<AstAny> {
        Ok(AstAny::Unknow)
    }
}

struct Recorder {
    seen: Vec<String>,
    fail_on: Option<String>,
}

impl Handler for Recorder {
    fn on_read(&mut self, token: &mut LexToken) -> AstResult<AstAny> {
        let v = token.get_value().to_string();
        self.seen.push(v.clone());
        if self.fail_on.as_deref() == Some(v.as_str()) {
            return Err(AstError::Handler(v));
        }
        Ok(AstAny::Int(token.subs.len() as i64))
    }
}

fn arith(text: &str) -> Lexer<Quiet> {
    let mut lex = Lexer::new(text.to_string(), Quiet);
    lex.add_regex("num", Regex::new(r"[0-9]+").unwrap());
    lex
}

fn flat_values(lex: &mut Lexer<Quiet>) -> Vec<String> {
    lex.read_tokens().iter().map(|t| t.get_value().to_string()).collect()
}

fn values(ts: &[LexToken]) -> Vec<String> {
    ts.iter().map(|t| t.get_value().to_string()).collect()
}

#[test]
fn balanced_nesting() {
    let mut lex = arith("(1+2)*3");
    assert_eq!(flat_values(&mut lex), vec!["(", "1", "+", "2", ")", "*", "3"]);

    let mut lex = arith("(1+2)*3");
    assert!(lex.parser_token().is_ok());
    let roots = &lex.tokenstack;
    assert_eq!(values(roots), vec!["(", "*", "3"]);
    assert_eq!(values(&roots[0].subs), vec!["1", "+", "2", ")"]);
    assert!(roots[1].subs.is_empty());
    assert!(roots[2].subs.is_empty());
}

#[test]
fn imbalance_detection() {
    let mut lex = arith("(1+2");
    match lex.parser_token() {
        Err(AstError::NoMatchClose { ty, lexeme, lineno }) => {
            assert_eq!(ty, "lit");
            assert_eq!(lexeme, "(");
            assert_eq!(lineno, 1);
        }
        other => panic!("expected an unmatched opener, got {:?}", other),
    }
}

#[test]
fn imbalance_reports_outermost_opener() {
    let mut lex = arith("[\n(1");
    match lex.parser_token() {
        Err(AstError::NoMatchClose { ty, lexeme, lineno }) => {
            assert_eq!(ty, "lit");
            assert_eq!(lexeme, "[");
            assert_eq!(lineno, 1);
        }
        other => panic!("expected an unmatched opener, got {:?}", other),
    }
}

#[test]
fn nested_groups() {
    let mut lex = arith("((1))");
    assert!(lex.parser_token().is_ok());
    let roots = &lex.tokenstack;
    assert_eq!(roots.len(), 1);
    assert_eq!(roots[0].get_value(), "(");
    let inner = &roots[0].subs;
    assert_eq!(values(inner), vec!["(", ")"]);
    assert_eq!(values(&inner[0].subs), vec!["1", ")"]);
    assert!(inner[1].subs.is_empty());
}

#[test]
fn stray_closer_is_a_root() {
    let mut lex = arith("1)");
    assert!(lex.parser_token().is_ok());
    assert_eq!(values(&lex.tokenstack), vec!["1", ")"]);
}

#[test]
fn mismatched_closer_stays_inside() {
    let mut lex = arith("(1]");
    match lex.parser_token() {
        Err(AstError::NoMatchClose { lexeme, .. }) => assert_eq!(lexeme, "("),
        other => panic!("expected an unmatched opener, got {:?}", other),
    }
}

#[test]
fn first_registered_rule_wins() {
    let mut lex = Lexer::new("abc".to_string(), Quiet);
    lex.add_regex("short", Regex::new(r"ab").unwrap());
    lex.add_regex("long", Regex::new(r"abc").unwrap());
    let t = lex.get_token().unwrap();
    assert_eq!(t.ty, "short");
    assert_eq!(t.get_value(), "ab");

    let mut lex = Lexer::new("abc".to_string(), Quiet);
    lex.add_regex("long", Regex::new(r"abc").unwrap());
    lex.add_regex("short", Regex::new(r"ab").unwrap());
    let t = lex.get_token().unwrap();
    assert_eq!(t.ty, "long");
    assert_eq!(t.get_value(), "abc");
}

#[test]
fn first_match_picks_earliest_hit() {
    let found = vec![None, Some((4, 6)), Some((3, 3)), Some((3, 5)), Some((3, 9))];
    assert_eq!(first_match(&found, 3), Some(3));
    assert_eq!(first_match(&found, 4), Some(1));
    assert_eq!(first_match(&found, 7), None);
    assert_eq!(first_match(&vec![], 0), None);
}

#[test]
fn precedence_last_declaration_wins() {
    let rules = vec![
        LexPrec::new("lit", true, vec!["-", "+"]),
        LexPrec::new("lit", true, vec!["*", "/"]),
        LexPrec::new("lit", false, vec!["-"]),
    ];
    let table = build_prec_table(&rules);
    assert_eq!(lookup_prec(&table, "lit", "-"), Some((false, 2)));
    assert_eq!(lookup_prec(&table, "lit", "+"), Some((true, 0)));
    assert_eq!(lookup_prec(&table, "lit", "/"), Some((true, 1)));
    assert_eq!(lookup_prec(&table, "lit", "%"), None);
    assert_eq!(lookup_prec(&table, "id", "+"), None);
}

#[test]
fn default_precedence() {
    let lex = Lexer::new(String::new(), Quiet);
    assert_eq!(lex.get_prec("lit", "-"), Some((false, 2)));
    assert_eq!(lex.get_prec("lit", "+"), Some((true, 0)));
    assert_eq!(lex.get_prec("lit", "*"), Some((true, 1)));
    assert_eq!(lex.get_prec("lit", "^"), None);
}

#[test]
fn boundary_safety_multibyte() {
    let text = "αβ + é€😀 γ";
    let mut lex = Lexer::new(text.to_string(), Quiet);
    lex.add_regex("greek", Regex::new(r"\p{Greek}+").unwrap());
    let toks = lex.read_tokens();
    assert_eq!(values(&toks), vec!["αβ", "+", "γ"]);
    for t in &toks {
        assert!(text.is_char_boundary(t.start));
        assert!(text.is_char_boundary(t.end));
        assert!(t.start < t.end);
    }
    assert_eq!(lex.pos, text.len());
}

#[test]
fn next_pos_follows_character_width() {
    let lex = Lexer::new("aé€😀".to_string(), Quiet);
    assert_eq!(lex.get_next_pos(0), Some(1));
    assert_eq!(lex.get_next_pos(1), Some(3));
    assert_eq!(lex.get_next_pos(3), Some(6));
    assert_eq!(lex.get_next_pos(6), Some(10));
    assert_eq!(lex.get_next_pos(10), None);
    assert_eq!(lex.get_next_pos(2), Some(3));
}

#[test]
fn coverage_skips_ignorable_and_unknown() {
    let text = " 12 \t#+ 3@";
    let mut lex = arith(text);
    let toks = lex.read_tokens();
    assert_eq!(values(&toks), vec!["12", "+", "3"]);
    let spans: Vec<(usize, usize)> = toks.iter().map(|t| (t.start, t.end)).collect();
    assert_eq!(spans, vec![(1, 3), (6, 7), (8, 9)]);
    for w in toks.windows(2) {
        assert!(w[0].end <= w[1].start);
    }
    assert_eq!(lex.pos, text.len());
    assert!(lex.get_token().is_none());
}

#[test]
fn empty_text_has_no_tokens() {
    let mut lex = arith("");
    assert!(lex.get_token().is_none());
    assert!(lex.parser_token().is_ok());
    assert!(lex.tokenstack.is_empty());
}

#[test]
fn zero_width_match_is_not_a_token() {
    let mut lex = Lexer::new("#x".to_string(), Quiet);
    lex.add_regex("maybe", Regex::new(r"x*").unwrap());
    let toks = lex.read_tokens();
    assert_eq!(values(&toks), vec!["x"]);
    assert_eq!(toks[0].ty, "maybe");
}

#[test]
fn line_numbers() {
    let mut lex = arith("1\n+\n\n2");
    let toks = lex.read_tokens();
    let lines: Vec<usize> = toks.iter().map(|t| t.lineno).collect();
    assert_eq!(lines, vec![1, 2, 4]);
    assert_eq!(lex.get_now_lineno(0), 1);
    assert_eq!(lex.get_now_lineno(2), 2);
    assert_eq!(lex.get_now_lineno(6), 4);
}

#[test]
fn literal_token_fields() {
    let mut lex = arith("  *");
    let t = lex.get_token().unwrap();
    assert_eq!(t.ty, "lit");
    assert_eq!((t.start, t.end, t.lineno), (2, 3, 1));
    assert!(t.subs.is_empty());
    assert!(matches!(t.value, AstAny::Unknow));
    assert_eq!(lex.pos, 3);
}

#[test]
fn custom_delimiter_pair() {
    let mut lex = Lexer::new("<a>b".to_string(), Quiet);
    lex.add_regex("id", Regex::new(r"[a-z]+").unwrap());
    lex.add_hash_match("lit", "<", ">");
    assert!(lex.parser_token().is_ok());
    assert_eq!(values(&lex.tokenstack), vec!["<", "b"]);
    assert_eq!(values(&lex.tokenstack[0].subs), vec!["a", ">"]);
}

#[test]
fn group_tokens_directly() {
    let mut lex = arith("{1}2");
    let flat = lex.read_tokens();
    let pairs = vec![DelimPair { ty: "lit", open: "{", close: "}" }];
    let tree = group_tokens(flat, &pairs).unwrap();
    assert_eq!(values(&tree), vec!["{", "2"]);
    assert_eq!(values(&tree[0].subs), vec!["1", "}"]);

    let mut lex = arith("{1}2");
    let flat = lex.read_tokens();
    let tree = group_tokens(flat, &vec![]).unwrap();
    assert_eq!(values(&tree), vec!["{", "1", "}", "2"]);
}

#[test]
fn eval_visits_roots_in_order() {
    let mut lex = Lexer::new("(1+2)*3".to_string(), Recorder { seen: vec![], fail_on: None });
    lex.add_regex("num", Regex::new(r"[0-9]+").unwrap());
    assert!(matches!(lex.eval(), Ok(AstAny::Unknow)));
    assert_eq!(lex.handler.seen, vec!["(", "*", "3"]);
    assert!(lex.tokenstack.is_empty());
}

#[test]
fn eval_stops_at_handler_error() {
    let rec = Recorder { seen: vec![], fail_on: Some("*".to_string()) };
    let mut lex = Lexer::new("(1+2)*3".to_string(), rec);
    lex.add_regex("num", Regex::new(r"[0-9]+").unwrap());
    match lex.eval() {
        Err(AstError::Handler(v)) => assert_eq!(v, "*"),
        other => panic!("expected the handler's error, got {:?}", other),
    }
    assert_eq!(lex.handler.seen, vec!["(", "*"]);
}

#[test]
fn eval_reports_imbalance() {
    let mut lex = Lexer::new("(1".to_string(), Recorder { seen: vec![], fail_on: None });
    lex.add_regex("num", Regex::new(r"[0-9]+").unwrap());
    assert!(matches!(lex.eval(), Err(AstError::NoMatchClose { .. })));
    assert!(lex.handler.seen.is_empty());
}

#[test]
fn base_token_and_groups() {
    let mut lex = arith("(7)");
    assert!(lex.parser_token().is_ok());
    let head = &lex.tokenstack[0];
    let base = head.clone_base_token();
    assert_eq!(base.get_value(), "(");
    assert_eq!((base.start, base.end, base.lineno), (head.start, head.end, head.lineno));
    assert!(base.subs.is_empty());
    assert_eq!(head.subs.len(), 2);

    match GroupOrToken::group() {
        GroupOrToken::Group(v) => assert!(v.is_empty()),
        _ => panic!("expected a group"),
    }
    match GroupOrToken::group_by_token(base) {
        GroupOrToken::Group(v) => {
            assert_eq!(v.len(), 1);
            assert_eq!(v[0].get_value(), "(");
        }
        _ => panic!("expected a group"),
    }
}

#[test]
fn outermost_opener_across_lines() {
    let mut lex = arith("(\n(1");
    match lex.parser_token() {
        Err(AstError::NoMatchClose { ty, lexeme, lineno }) => {
            assert_eq!((ty, lexeme.as_str(), lineno), ("lit", "(", 1));
        }
        other => panic!("expected an unmatched opener, got {:?}", other),
    }
}

#[test]
fn crossed_brackets_leave_outer_open() {
    let mut lex = Lexer::new("[(])".to_string(), Quiet);
    match lex.parser_token() {
        Err(AstError::NoMatchClose { lexeme, lineno, .. }) => {
            assert_eq!(lexeme, "[");
            assert_eq!(lineno, 1);
        }
        other => panic!("expected an unmatched opener, got {:?}", other),
    }
}

#[test]
fn default_configuration() {
    let lex = Lexer::new("x".to_string(), Quiet);
    assert_eq!(lex.ignore, " \t");
    assert_eq!(lex.literals, "+-*/%^<>=!?()[]{}.,;:");
    let pairs: Vec<(&str, &str, &str)> =
        lex.hash_matchs.iter().map(|p| (p.ty, p.open, p.close)).collect();
    assert_eq!(pairs, vec![("lit", "(", ")"), ("lit", "{", "}"), ("lit", "[", "]")]);
    let precs: Vec<(&str, bool, Vec<&str>)> =
        lex.precs.iter().map(|p| (p.ty, p.left, p.precs.clone())).collect();
    assert_eq!(
        precs,
        vec![("lit", true, vec!["+", "-"]), ("lit", true, vec!["*", "/"]), ("lit", false, vec!["-"])]
    );
    assert!(lex.res.is_empty() && lex.tokenstack.is_empty());
    assert_eq!(lex.pos, 0);
}

#[test]
fn later_pair_replaces_closer() {
    let mut lex = Lexer::new("(1>".to_string(), Quiet);
    lex.add_regex("num", Regex::new(r"[0-9]+").unwrap());
    lex.add_hash_match("lit", "(", ">");
    assert!(lex.parser_token().is_ok());
    assert_eq!(values(&lex.tokenstack), vec!["("]);
    assert_eq!(values(&lex.tokenstack[0].subs), vec!["1", ">"]);
}

#[test]
fn store_value_keeps_token_on_error() {
    let mut lex = arith("7");
    let mut t = lex.get_token().unwrap();
    assert!(store_value(&mut t, Ok(AstAny::Int(7))).is_ok());
    assert!(matches!(t.value, AstAny::Int(7)));
    match store_value(&mut t, Err(AstError::Handler("bad".to_string()))) {
        Err(AstError::Handler(m)) => assert_eq!(m, "bad"),
        other => panic!("expected the error back, got {:?}", other),
    }
    assert!(matches!(t.value, AstAny::Int(7)));
}

#[test]
fn eval_on_empty_text_succeeds() {
    let mut lex = Lexer::new("  ".to_string(), Recorder { seen: vec![], fail_on: None });
    assert!(matches!(lex.eval(), Ok(AstAny::Unknow)));
    assert!(lex.handler.seen.is_empty());
}
