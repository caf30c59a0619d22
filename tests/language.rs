use rlox::environment::Environment;
use rlox::interpreter::{value_text, Interpreter};
use rlox::pipeline::run;
use rlox::{FloatArith, Object, Scanner, Token, Tokentype};

struct F64Host;

impl FloatArith for F64Host {
    fn widen(&self, i: i64) -> u64 {
        (i as f64).to_bits()
    }

    fn sum(&self, a: u64, b: u64) -> u64 {
        (f64::from_bits(a) + f64::from_bits(b)).to_bits()
    }

    fn difference(&self, a: u64, b: u64) -> u64 {
        (f64::from_bits(a) - f64::from_bits(b)).to_bits()
    }

    fn product(&self, a: u64, b: u64) -> u64 {
        (f64::from_bits(a) * f64::from_bits(b)).to_bits()
    }

    fn quotient(&self, a: u64, b: u64) -> u64 {
        (f64::from_bits(a) / f64::from_bits(b)).to_bits()
    }

    fn parse_decimal(&self, text: &str) -> u64 {
        text.parse::<f64>().unwrap().to_bits()
    }

    fn render(&self, bits: u64) -> String {
        format!("{}", f64::from_bits(bits))
    }
}

fn output_of(source: &str) -> Vec<String> {
    let mut interpreter = Interpreter::new();
    interpreter.run_source(source.to_string(), &F64Host);
    interpreter.output.clone()
}

fn scan(source: &str) -> (Vec<Token>, Vec<String>) {
    let mut scanner = Scanner::new(source.to_string());
    scanner.scan_tokens(&F64Host);
    scanner.into_parts()
}

fn kinds(source: &str) -> Vec<Tokentype> {
    scan(source).0.iter().map(|t| t.tokentype).collect()
}

fn name(lexeme: &str) -> Token {
    Token::new(Tokentype::Identifier, lexeme.to_string(), Object::Null, 1)
}

#[test]
fn integer_arithmetic_is_exact() {
    assert_eq!(
        output_of("print 7 + 5; print 7 - 5; print 7 * 5; print -3 * 4;"),
        vec!["12", "2", "35", "-12"]
    );
}

#[test]
fn integer_division_gives_a_float() {
    assert_eq!(output_of("print 7 / 2; print 6 / 3;"), vec!["3.5", "2"]);
    let r = Object::IntValue(6).divide(&Object::IntValue(3), &F64Host);
    assert_eq!(r, Object::FloatValue(2.0f64.to_bits()));
}

#[test]
fn division_by_zero_follows_ieee() {
    assert_eq!(output_of("print 1 / 0; print -1 / 0; print 0 / 0;"), vec!["inf", "-inf", "NaN"]);
}

#[test]
fn integer_overflow_wraps() {
    assert_eq!(
        output_of("print 9223372036854775807 + 1;"),
        vec!["-9223372036854775808"]
    );
}

#[test]
fn mixed_arithmetic_widens() {
    assert_eq!(output_of("print 1 + 0.5; print 2.5 * 2; print 3 - 0.5;"), vec!["1.5", "5", "2.5"]);
}

#[test]
fn numbers_equal_themselves() {
    assert_eq!(
        output_of("print 1 == 1; print 1.5 == 1.5; print 1 == 1.0; print 2.0 == 2; print 1 != 1;"),
        vec!["True", "True", "True", "True", "False"]
    );
}

#[test]
fn nan_equals_itself() {
    let nan = Object::FloatValue(f64::NAN.to_bits());
    assert!(nan.equals(&nan));
    assert!(nan.equals(&Object::FloatValue((-f64::NAN).to_bits())));
    assert!(!nan.equals(&Object::FloatValue(1.0f64.to_bits())));
    assert!(!nan.less(&nan, false, &F64Host));
    assert_eq!(output_of("var n = 0 / 0; print n == n; print n != n;"), vec!["True", "False"]);
}

#[test]
fn zeros_of_both_signs_are_equal() {
    let pos = Object::FloatValue(0.0f64.to_bits());
    let neg = Object::FloatValue((-0.0f64).to_bits());
    assert!(pos.equals(&neg));
    assert!(!pos.less(&neg, true, &F64Host));
    assert!(pos.less(&neg, false, &F64Host));
}

#[test]
fn float_ordering_follows_values() {
    let a = Object::FloatValue((-2.5f64).to_bits());
    let b = Object::FloatValue(1.25f64.to_bits());
    assert!(a.less(&b, true, &F64Host));
    assert!(!b.less(&a, true, &F64Host));
    assert_eq!(output_of("print 1.5 < 2.5; print 2.5 <= 1.5; print 3 > 2.5;"), vec!["True", "False", "True"]);
}

#[test]
fn strings_and_numbers_are_never_ordered() {
    assert_eq!(
        output_of("print \"a\" < 1; print \"a\" <= 1; print \"a\" > 1; print \"a\" >= 1;"),
        vec!["False", "False", "False", "False"]
    );
    assert_eq!(
        output_of("print 1 < \"a\"; print 1 >= \"a\"; print true < false;"),
        vec!["False", "False", "False"]
    );
}

#[test]
fn truthiness_of_zero_and_empty() {
    assert_eq!(output_of("print !0; print !0.0; print !\"\"; print !nil; print !false;"), vec!["True"; 5]);
    assert_eq!(output_of("print !1; print !\"x\"; print !true; print !0.5;"), vec!["False"; 4]);
}

#[test]
fn is_truthy_gives_true_or_false() {
    assert_eq!(rlox::is_truthy(&Object::IntValue(0)), Object::False);
    assert_eq!(rlox::is_truthy(&Object::StringValue("x".to_string())), Object::True);
    assert_eq!(rlox::is_truthy(&Object::Null), Object::False);
    assert_eq!(rlox::bool(true), Object::True);
    assert_eq!(rlox::bool(false), Object::False);
}

#[test]
fn negation() {
    assert_eq!(output_of("print -5; print -(-5); print -2.5; print -\"a\";"), vec!["-5", "5", "-2.5", "Nil"]);
}

#[test]
fn block_shadowing() {
    assert_eq!(output_of("var x = 1; { var x = 2; print x; } print x;"), vec!["2", "1"]);
}

#[test]
fn block_variables_are_gone_after_the_block() {
    assert_eq!(
        output_of("{ var y = 1; } print y;"),
        vec!["Undefined variable 'y'.", "Nil"]
    );
}

#[test]
fn assignment_in_block_reaches_outer_scope() {
    assert_eq!(output_of("var a = 1; { a = 2; } print a;"), vec!["2"]);
}

#[test]
fn assignment_to_undeclared_name() {
    assert_eq!(
        output_of("x = 5; print x;"),
        vec!["Undefined variable 'x'.", "Undefined variable 'x'.", "Nil"]
    );
}

#[test]
fn assignment_yields_its_value() {
    assert_eq!(output_of("var a; print a = 3; print a;"), vec!["3", "3"]);
    assert_eq!(output_of("print b = 4;"), vec!["Undefined variable 'b'.", "4"]);
}

#[test]
fn redeclaration_replaces_binding() {
    assert_eq!(output_of("var x = 1; var x = 2; print x;"), vec!["2"]);
}

#[test]
fn declaration_without_initializer_is_nil() {
    assert_eq!(output_of("var x; print x;"), vec!["Nil"]);
}

#[test]
fn string_concatenation() {
    assert_eq!(output_of("print \"a\" + \"b\"; print \"a\" + 1; print 1 + \"a\";"), vec!["ab", "Nil", "Nil"]);
}

#[test]
fn mismatched_arithmetic_is_nil() {
    assert_eq!(output_of("print true - 1; print nil * 2; print \"a\" / 2;"), vec!["Nil", "Nil", "Nil"]);
}

#[test]
fn printed_forms() {
    assert_eq!(
        output_of("print true; print false; print nil; print \"hi\"; print 0; print 2.25;"),
        vec!["True", "False", "Nil", "hi", "0", "2.25"]
    );
}

#[test]
fn integer_literal_round_trip() {
    let (tokens, _) = scan("42");
    let literal = tokens[0].literal.clone();
    assert_eq!(literal, Object::IntValue(42));
    let text = value_text(&literal, &F64Host);
    assert_eq!(text, "42");
    let (again, _) = scan(&text);
    assert!(again[0].literal.equals(&literal));
}

#[test]
fn string_literal_round_trip() {
    let (tokens, _) = scan("\"hello world\"");
    let literal = tokens[0].literal.clone();
    assert_eq!(literal, Object::StringValue("hello world".to_string()));
    let text = value_text(&literal, &F64Host);
    let (again, _) = scan(&format!("\"{}\"", text));
    assert!(again[0].literal.equals(&literal));
}

#[test]
fn float_literal_round_trip() {
    let (tokens, _) = scan("2.5");
    let literal = tokens[0].literal.clone();
    assert_eq!(literal, Object::FloatValue(2.5f64.to_bits()));
    let text = value_text(&literal, &F64Host);
    let (again, _) = scan(&text);
    assert!(again[0].literal.equals(&literal));
}

#[test]
fn unterminated_string_is_reported() {
    let out = output_of("print \"abc");
    assert_eq!(out[0], "[line 1] Error: Unterminated string.");
    let (tokens, diagnostics) = scan("print \"abc");
    assert_eq!(diagnostics, vec!["[line 1] Error: Unterminated string."]);
    assert_eq!(tokens.len(), 2);
    assert_eq!(tokens[1].tokentype, Tokentype::Eof);
}

#[test]
fn scanner_operators() {
    assert_eq!(
        kinds("( ) { } , . - + ; * / ! != = == < <= > >="),
        vec![
            Tokentype::LeftParen,
            Tokentype::RightParen,
            Tokentype::LeftBrace,
            Tokentype::RightBrace,
            Tokentype::Comma,
            Tokentype::Dot,
            Tokentype::Minus,
            Tokentype::Plus,
            Tokentype::Semicolon,
            Tokentype::Star,
            Tokentype::Slash,
            Tokentype::Bang,
            Tokentype::BangEqual,
            Tokentype::Equal,
            Tokentype::EqualEqual,
            Tokentype::Less,
            Tokentype::LessEqual,
            Tokentype::Greater,
            Tokentype::GreaterEqual,
            Tokentype::Eof,
        ]
    );
}

#[test]
fn scanner_keywords_and_identifiers() {
    assert_eq!(
        kinds("and class else false for fun if nil or print return super this true var while foo _bar x1"),
        vec![
            Tokentype::And,
            Tokentype::Class,
            Tokentype::Else,
            Tokentype::False,
            Tokentype::For,
            Tokentype::Fun,
            Tokentype::If,
            Tokentype::Nil,
            Tokentype::Or,
            Tokentype::Print,
            Tokentype::Return,
            Tokentype::Super,
            Tokentype::This,
            Tokentype::True,
            Tokentype::Var,
            Tokentype::While,
            Tokentype::Identifier,
            Tokentype::Identifier,
            Tokentype::Identifier,
            Tokentype::Eof,
        ]
    );
}

#[test]
fn scanner_comments_and_lines() {
    let (tokens, diagnostics) = scan("a // comment\n/* block\ncomment */ b\n\"x\ny\" c");
    assert!(diagnostics.is_empty());
    let lines: Vec<usize> = tokens.iter().map(|t| t.line).collect();
    let lexemes: Vec<&str> = tokens.iter().map(|t| t.lexeme.as_str()).collect();
    assert_eq!(lexemes, vec!["a", "b", "\"x\ny\"", "c", ""]);
    assert_eq!(lines, vec![1, 3, 5, 5, 5]);
}

#[test]
fn scanner_unterminated_block_comment() {
    let (tokens, diagnostics) = scan("a /* never closed");
    assert!(diagnostics.is_empty());
    assert_eq!(tokens.len(), 2);
}

#[test]
fn scanner_numbers() {
    let (tokens, _) = scan("12 3.25 7. 8");
    assert_eq!(tokens[0].literal, Object::IntValue(12));
    assert_eq!(tokens[1].literal, Object::FloatValue(3.25f64.to_bits()));
    assert_eq!(tokens[2].literal, Object::IntValue(7));
    assert_eq!(tokens[3].tokentype, Tokentype::Dot);
    assert_eq!(tokens[4].literal, Object::IntValue(8));
}

#[test]
fn scanner_number_out_of_range() {
    let (tokens, diagnostics) = scan("99999999999999999999 1");
    assert_eq!(diagnostics, vec!["[line 1] Error: Number out of range."]);
    assert_eq!(tokens[0].literal, Object::IntValue(1));
}

#[test]
fn scanner_unexpected_character() {
    let (tokens, diagnostics) = scan("a @ b");
    assert_eq!(diagnostics, vec!["[line 1] Error: Unexpected token."]);
    assert_eq!(tokens.len(), 3);
}

#[test]
fn scanner_character_classes() {
    assert!(rlox::is_digit('7'));
    assert!(!rlox::is_digit('a'));
    assert!(rlox::is_alpha('_'));
    assert!(rlox::is_alpha('Q'));
    assert!(!rlox::is_alpha('3'));
    assert!(rlox::is_alpha_numeric('3'));
    assert!(!rlox::is_alpha_numeric('-'));
}

#[test]
fn precedence_and_associativity() {
    assert_eq!(
        output_of("print 1 + 2 * 3; print (1 + 2) * 3; print 10 - 3 - 2; print 1 < 2 == true;"),
        vec!["7", "9", "5", "True"]
    );
}

#[test]
fn invalid_assignment_target() {
    let (statements, diagnostics) = run("1 + 2 = 3;".to_string(), &F64Host);
    assert_eq!(statements.len(), 0);
    assert_eq!(diagnostics, vec!["[line 1] Error at '=': Invalid assignment target."]);
}

#[test]
fn missing_expression_recovers_at_next_statement() {
    let out = output_of("print ; print 1;");
    assert_eq!(out, vec!["[line 1] Error at ';': Expect expression.", "1"]);
}

#[test]
fn missing_semicolon_is_reported() {
    let out = output_of("print 1");
    assert_eq!(out, vec!["[line 1] Error at end: Expect ';' after value.", "1"]);
}

#[test]
fn missing_closing_brace_is_reported() {
    let out = output_of("{ print 1;");
    assert_eq!(out, vec!["[line 1] Error at end: Expect '}' after block.", "1"]);
}

#[test]
fn variables_persist_between_runs() {
    let mut interpreter = Interpreter::new();
    interpreter.run_source("var x = 3;".to_string(), &F64Host);
    interpreter.run_source("print x;".to_string(), &F64Host);
    assert_eq!(interpreter.output, vec!["3"]);
}

#[test]
fn environment_scopes() {
    let mut global = Environment::new();
    global.define("a".to_string(), Object::IntValue(1));
    assert_eq!(global.get(name("a")), Ok(Object::IntValue(1)));
    assert_eq!(global.get(name("b")), Err("Undefined variable 'b'.".to_string()));
    let mut inner = Environment::new_with_enclosing(global);
    assert_eq!(inner.depth(), 2);
    inner.define("a".to_string(), Object::IntValue(2));
    assert_eq!(inner.get(name("a")), Ok(Object::IntValue(2)));
    let mut outer = inner.get_enclosing().unwrap();
    assert_eq!(outer.get(name("a")), Ok(Object::IntValue(1)));
    assert!(outer.get_enclosing().is_none());
}

#[test]
fn environment_assign() {
    let mut global = Environment::new();
    global.define("a".to_string(), Object::IntValue(1));
    let mut inner = Environment::new_with_enclosing(global);
    assert_eq!(inner.assign(name("a"), &Object::IntValue(5)), Ok(()));
    assert_eq!(inner.get(name("a")), Ok(Object::IntValue(5)));
    assert_eq!(
        inner.assign(name("z"), &Object::IntValue(1)),
        Err("Undefined variable 'z'.".to_string())
    );
    assert!(inner.get(name("z")).is_err());
    inner.pop_scope();
    assert_eq!(inner.depth(), 1);
    assert_eq!(inner.get(name("a")), Ok(Object::IntValue(5)));
}

#[test]
fn token_new_keeps_fields() {
    let t = Token::new(Tokentype::Number, "12".to_string(), Object::IntValue(12), 4);
    assert_eq!(t.tokentype, Tokentype::Number);
    assert_eq!(t.lexeme, "12");
    assert_eq!(t.literal, Object::IntValue(12));
    assert_eq!(t.line, 4);
}

#[test]
fn value_text_of_negative_integer() {
    assert_eq!(value_text(&Object::IntValue(-120), &F64Host), "-120");
    assert_eq!(value_text(&Object::IntValue(i64::MIN), &F64Host), "-9223372036854775808");
}

#[test]
fn integer_float_equality_is_exact() {
    assert_eq!(
        output_of("print 9007199254740993 == 9007199254740992.0; print 9007199254740992 == 9007199254740992.0; print 0.5 == 0; print -2 == -2.0;"),
        vec!["False", "True", "False", "True"]
    );
    let min = Object::IntValue(i64::MIN);
    assert!(min.equals(&Object::FloatValue((-9223372036854775808.0f64).to_bits())));
    assert!(!min.equals(&Object::FloatValue(9223372036854775808.0f64.to_bits())));
    assert!(!Object::IntValue(1).equals(&Object::FloatValue(f64::INFINITY.to_bits())));
    assert!(Object::IntValue(0).equals(&Object::FloatValue((-0.0f64).to_bits())));
}

#[test]
fn deep_grouping_is_reported() {
    let source = format!("print {}1{};", "(".repeat(100), ")".repeat(100));
    let out = output_of(&source);
    assert_eq!(out[0], "[line 1] Error at '(': Too much nesting.");
    let fine = format!("print {}1{};", "(".repeat(60), ")".repeat(60));
    assert_eq!(output_of(&fine), vec!["1"]);
}

#[test]
fn deep_unary_and_blocks_are_reported() {
    let unary = format!("print {}1;", "-".repeat(100));
    assert!(output_of(&unary)[0].ends_with("Too much nesting."));
    let blocks = format!("{}{}", "{".repeat(70), "}".repeat(70));
    assert!(output_of(&blocks)[0].ends_with("Too much nesting."));
}

#[test]
fn long_chains_are_cut_off_in_evaluation() {
    let source = format!("print 1{};", " + 1".repeat(1500));
    assert_eq!(
        output_of(&source),
        vec!["Expression nested too deeply.", "Expression nested too deeply.", "Nil"]
    );
    let fine = format!("print 1{};", " + 1".repeat(500));
    assert_eq!(output_of(&fine), vec!["501"]);
}

#[test]
fn parser_builds_precedence_tree() {
    let (tokens, _) = scan("1 + 2 * 3; a = b = 4;");
    let mut parser = rlox::Parser::new(tokens);
    let statements = parser.parse();
    assert!(parser.diagnostics.is_empty());
    assert_eq!(statements.len(), 2);
    match &statements[0] {
        rlox::Stmt::Expression { expression: rlox::Expr::Binary { left, operator, right } } => {
            assert_eq!(operator.tokentype, Tokentype::Plus);
            assert!(matches!(**left, rlox::Expr::Literal { value: Object::IntValue(1) }));
            match &**right {
                rlox::Expr::Binary { operator, .. } => assert_eq!(operator.tokentype, Tokentype::Star),
                other => panic!("unexpected {:?}", other),
            }
        }
        other => panic!("unexpected {:?}", other),
    }
    match &statements[1] {
        rlox::Stmt::Expression { expression: rlox::Expr::Assign { name, value } } => {
            assert_eq!(name.lexeme, "a");
            assert!(matches!(**value, rlox::Expr::Assign { .. }));
        }
        other => panic!("unexpected {:?}", other),
    }
}

#[test]
fn interpret_runs_parsed_statements() {
    let (statements, diagnostics) = run("var a = 2; print a * 21;".to_string(), &F64Host);
    assert!(diagnostics.is_empty());
    let mut interpreter = Interpreter::new();
    interpreter.interpret(statements, &F64Host);
    assert_eq!(interpreter.output, vec!["42"]);
}

#[test]
fn malformed_declaration_is_skipped() {
    let (statements, diagnostics) = run("var = 1; print 2;".to_string(), &F64Host);
    assert_eq!(diagnostics, vec!["[line 1] Error at '=': Expect variable name."]);
    assert_eq!(statements.len(), 1);
    assert!(matches!(
        &statements[0],
        rlox::Stmt::Print { expression: rlox::Expr::Literal { value: Object::IntValue(2) } }
    ));
}

#[test]
fn unterminated_string_leaves_no_statement() {
    let (statements, diagnostics) = run("print \"abc".to_string(), &F64Host);
    assert!(statements.is_empty());
    assert_eq!(
        diagnostics,
        vec!["[line 1] Error: Unterminated string.", "[line 1] Error at end: Expect expression."]
    );
}

#[test]
fn synchronize_stops_before_statement_keyword() {
    let (statements, diagnostics) = run("1 + ; var x = 3; print x;".to_string(), &F64Host);
    assert_eq!(diagnostics.len(), 1);
    assert_eq!(statements.len(), 2);
}
