use opg::lexical::symbol_index;
use opg::lexical::Token;
use opg::lexical::TokenClass;
use opg::lexical::dec_string;
use opg::precedence::PFunc;
use opg::precedence::PrecedenceGrammar;
use opg::precedence::OPG;
use opg::syntax::Quad;
use opg::syntax::Syntax;
use opg::syntax::SyntaxError;

fn tok(name: &str, class: TokenClass) -> Token {
    Token { name: name.to_string(), class }
}

fn rel(entries: &[(usize, usize)]) -> Vec<Vec<bool>> {
    let mut m = vec![vec![false; 24]; 24];
    for &(a, b) in entries {
        m[a][b] = true;
    }
    m
}

/// A small grammar over the fixed symbol table: the start marker
/// yields `=`, `=` yields `+`, both take `;`, and the start marker
/// pairs with `;`.
fn build_grammar() -> OPG {
    let mut g = OPG::new();
    g.takes = rel(&[(1, 22), (2, 22)]);
    g.yields = rel(&[(0, 1), (1, 2)]);
    g.equal = rel(&[(0, 22)]);
    g.m_dimension = 24;
    g.shrink_precedence();
    g
}

fn build_pfunc() -> PFunc {
    PFunc::new(&build_grammar())
}

fn assignment_tokens() -> Vec<Token> {
    vec![
        tok("a", TokenClass::Identifier),
        tok("=", TokenClass::Op),
        tok("b", TokenClass::Identifier),
        tok("+", TokenClass::Op),
        tok("c", TokenClass::Identifier),
        tok(";", TokenClass::Delimiter),
    ]
}

#[test]
fn syntax_test1() {
    let stream = Syntax::tokens_from_memory(&assignment_tokens());
    let mut syn = Syntax::new(stream, build_pfunc());
    syn.complete_analysis().unwrap();
    syn.consume_polish().unwrap();
}

#[test]
fn syntax_test2() {
    let toks = vec![
        tok("x", TokenClass::Identifier),
        tok("=", TokenClass::Op),
        tok("y", TokenClass::Identifier),
        tok(";", TokenClass::Delimiter),
    ];
    let stream = Syntax::tokens_from_memory(&toks);
    let mut syn = Syntax::new(stream, build_pfunc());
    syn.complete_analysis().unwrap();
    syn.consume_polish().unwrap();
}

#[test]
fn syntax_test3() {
    let toks = vec![
        tok("a", TokenClass::Identifier),
        tok("=", TokenClass::Op),
        tok("b", TokenClass::Identifier),
        tok("+", TokenClass::Op),
        tok("c", TokenClass::Identifier),
        tok(";", TokenClass::Delimiter),
        tok("d", TokenClass::Identifier),
        tok("=", TokenClass::Op),
        tok("e", TokenClass::Identifier),
        tok("+", TokenClass::Op),
        tok("f", TokenClass::Identifier),
        tok(";", TokenClass::Delimiter),
    ];
    let stream = Syntax::tokens_from_memory(&toks);
    let mut syn = Syntax::new(stream, build_pfunc());
    syn.complete_analysis().unwrap();
    syn.consume_polish().unwrap();

    for quad in syn.quads.iter() {
        println!(
            "{},{},{},{}",
            quad.op.name, quad.param_one.name, quad.param_two.name, quad.temp.name
        );
    }
    assert_eq!(syn.quads.len(), 4);
    assert_eq!(syn.quads[1].temp, Token::empty());
    assert_eq!(syn.quads[2].temp, tok("temp2", TokenClass::Identifier));
}

#[test]
fn assignment_parses_to_polish_order() {
    let stream = Syntax::tokens_from_memory(&assignment_tokens());
    let mut syn = Syntax::new(stream, build_pfunc());
    syn.complete_analysis().unwrap();
    let names: Vec<&str> = syn.polish.iter().map(|t| t.name.as_str()).collect();
    assert_eq!(names, vec!["a", "b", "c", "+", "=", ";"]);
}

#[test]
fn assignment_quads_use_one_temporary() {
    let stream = Syntax::tokens_from_memory(&assignment_tokens());
    let mut syn = Syntax::new(stream, build_pfunc());
    syn.complete_analysis().unwrap();
    syn.consume_polish().unwrap();
    let expected = vec![
        Quad {
            op: tok("+", TokenClass::Op),
            param_one: tok("c", TokenClass::Identifier),
            param_two: tok("b", TokenClass::Identifier),
            temp: tok("temp1", TokenClass::Identifier),
        },
        Quad {
            op: tok("=", TokenClass::Op),
            param_one: tok("temp1", TokenClass::Identifier),
            param_two: tok("a", TokenClass::Identifier),
            temp: Token::empty(),
        },
    ];
    assert_eq!(syn.quads, expected);
}

#[test]
fn unknown_spelling_stops_the_parse_at_once() {
    let toks = vec![
        tok("a", TokenClass::Identifier),
        tok("?", TokenClass::Op),
        tok("b", TokenClass::Identifier),
    ];
    let stream = Syntax::tokens_from_memory(&toks);
    let mut syn = Syntax::new(stream, build_pfunc());
    let err = syn.complete_analysis().unwrap_err();
    assert_eq!(err, SyntaxError::UndefinedPrecedence(tok("?", TokenClass::Op)));
    // the stream holds [terminator, a, ?, b]; nothing after `?` was read
    assert_eq!(syn.pos, 3);
}

#[test]
fn unclassified_token_stops_the_parse() {
    let toks = vec![
        tok("a", TokenClass::Identifier),
        tok("\u{1}", TokenClass::Unknown),
    ];
    let stream = Syntax::tokens_from_memory(&toks);
    let mut syn = Syntax::new(stream, build_pfunc());
    let err = syn.complete_analysis().unwrap_err();
    assert_eq!(
        err,
        SyntaxError::UndefinedPrecedence(tok("\u{1}", TokenClass::Unknown))
    );
}

#[test]
fn empty_stream_is_rejected() {
    let mut syn = Syntax::new(Vec::new(), build_pfunc());
    assert_eq!(
        syn.complete_analysis(),
        Err(SyntaxError::UnexpectedEndOfInput)
    );
}

#[test]
fn lone_operator_underflows_the_value_stack() {
    let mut syn = Syntax::new(Vec::new(), build_pfunc());
    syn.polish = vec![tok("+", TokenClass::Op)];
    assert_eq!(syn.consume_polish(), Err(SyntaxError::UnexpectedEndOfInput));
}

#[test]
fn get_pops_a_single_operand() {
    let mut syn = Syntax::new(Vec::new(), build_pfunc());
    syn.polish = vec![
        tok("x", TokenClass::Identifier),
        tok("GET", TokenClass::ReservedWord),
    ];
    syn.consume_polish().unwrap();
    assert_eq!(syn.quads.len(), 1);
    assert_eq!(syn.quads[0].op, tok("GET", TokenClass::ReservedWord));
    assert_eq!(syn.quads[0].param_one, tok("x", TokenClass::Identifier));
    assert_eq!(syn.quads[0].param_two, Token::empty());
}

#[test]
fn terminator_marks_the_start_of_the_stream() {
    let toks = vec![tok("a", TokenClass::Identifier)];
    let stream = Syntax::tokens_from_memory(&toks);
    assert_eq!(stream.len(), 2);
    assert_eq!(stream[0], Token::terminator());
    assert_eq!(stream[1], tok("a", TokenClass::Identifier));
}

#[test]
fn temporaries_are_numbered_in_decimal() {
    assert_eq!(Token::temp_gen(1).name, "temp1");
    assert_eq!(Token::temp_gen(12).name, "temp12");
    assert_eq!(Token::temp_gen(305).name, "temp305");
    assert_eq!(Token::temp_gen(7).class, TokenClass::Identifier);
    assert_eq!(dec_string(0), "0");
    assert_eq!(dec_string(120), "120");
}

#[test]
fn symbol_table_is_total() {
    assert_eq!(symbol_index("="), 1);
    assert_eq!(symbol_index("=="), 11);
    assert_eq!(symbol_index("CONST"), 21);
    assert_eq!(symbol_index(","), 23);
    assert_eq!(symbol_index("q"), 0);
    assert_eq!(symbol_index("Terminator"), 0);
}

#[test]
fn precedence_functions_reproduce_the_relations() {
    let p = build_pfunc();
    // start marker yields `=`
    assert!(p.f[0] < p.g[1]);
    // `=` yields `+`
    assert!(p.f[1] < p.g[2]);
    // `+` takes `;` and `=` takes `;`
    assert!(p.f[2] > p.g[22]);
    assert!(p.f[1] > p.g[22]);
    // start marker pairs with `;`
    assert_eq!(p.f[0], p.g[22]);
}

#[test]
fn rebuilding_the_functions_is_deterministic() {
    let first = build_grammar();
    let second = build_grammar();
    assert_eq!(first.f, second.f);
    assert_eq!(first.g, second.g);
}

#[test]
fn token_lines_parse_into_tokens() {
    let mut stack: Vec<Token> = Vec::new();
    assert!(Syntax::parse_token(&mut stack, "count Identifier"));
    assert!(Syntax::parse_token(&mut stack, "= Op"));
    assert!(Syntax::parse_token(&mut stack, "< RelationOp"));
    assert_eq!(stack[0], tok("count", TokenClass::Identifier));
    assert_eq!(stack[1], tok("=", TokenClass::Op));
    assert_eq!(stack[2], tok("<", TokenClass::Op));
}

#[test]
fn malformed_token_lines_push_nothing() {
    let mut stack: Vec<Token> = Vec::new();
    assert!(!Syntax::parse_token(&mut stack, "lonely"));
    assert!(!Syntax::parse_token(&mut stack, "x Widget"));
    assert!(!Syntax::parse_token(&mut stack, " Identifier"));
    assert_eq!(stack.len(), 0);
}
