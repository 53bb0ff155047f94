use minicc::parse::{Node, Operator, Parser, ParserError};
use minicc::token::{Token, TokenType, Tokenizer};

fn parse(source: &str) -> Result<Vec<Node>, ParserError> {
    let tokens = Tokenizer::new(source).tokenize().unwrap();
    Parser::new(tokens).program()
}

fn one(source: &str) -> Node {
    let mut code = parse(source).unwrap();
    assert_eq!(code.len(), 1);
    code.remove(0)
}

fn unexpected(source: &str) -> String {
    match parse(source) {
        Err(ParserError::UnexpectedToken(text)) => text,
        Ok(code) => panic!("parsed: {:?}", code),
    }
}

fn num(val: i32) -> Node {
    Node::new_node_num(val)
}

fn var(name: &str) -> Node {
    Node::new_node_ident(name.to_string())
}

fn bin(op: Operator, lhs: Node, rhs: Node) -> Node {
    Node::new_node(op, lhs, rhs)
}

#[test]
fn product_binds_tighter_than_sum() {
    assert_eq!(
        one("1+2*3;"),
        bin(Operator::Add, num(1), bin(Operator::Mul, num(2), num(3)))
    );
    assert_eq!(
        one("1*2+3;"),
        bin(Operator::Add, bin(Operator::Mul, num(1), num(2)), num(3))
    );
}

#[test]
fn assignment_leans_to_the_right() {
    assert_eq!(
        one("a=b=1;"),
        bin(Operator::Assign, var("a"), bin(Operator::Assign, var("b"), num(1)))
    );
}

#[test]
fn missing_operand_names_the_semicolon() {
    assert_eq!(parse("1 + ;"), Err(ParserError::UnexpectedToken(";".to_string())));
}

#[test]
fn constructors_build_the_variants() {
    assert_eq!(num(7), Node::NumberLiteral(7));
    assert_eq!(var("abc"), Node::VariableRef("abc".to_string()));
    assert_eq!(
        bin(Operator::Sub, num(1), var("x")),
        Node::BinaryOp(
            Operator::Sub,
            Box::new(Node::NumberLiteral(1)),
            Box::new(Node::VariableRef("x".to_string()))
        )
    );
}

#[test]
fn sums_and_products_lean_to_the_left() {
    assert_eq!(
        one("1-2-3;"),
        bin(Operator::Sub, bin(Operator::Sub, num(1), num(2)), num(3))
    );
    assert_eq!(
        one("1-2+3;"),
        bin(Operator::Add, bin(Operator::Sub, num(1), num(2)), num(3))
    );
    assert_eq!(
        one("8/4/2;"),
        bin(Operator::Div, bin(Operator::Div, num(8), num(4)), num(2))
    );
    assert_eq!(
        one("8/4*2;"),
        bin(Operator::Mul, bin(Operator::Div, num(8), num(4)), num(2))
    );
}

#[test]
fn parentheses_group() {
    assert_eq!(
        one("(1+2)*3;"),
        bin(Operator::Mul, bin(Operator::Add, num(1), num(2)), num(3))
    );
    assert_eq!(one("((7));"), num(7));
    assert_eq!(
        one("1-(2-3);"),
        bin(Operator::Sub, num(1), bin(Operator::Sub, num(2), num(3)))
    );
    assert_eq!(
        one("a=(b=1)+2;"),
        bin(
            Operator::Assign,
            var("a"),
            bin(Operator::Add, bin(Operator::Assign, var("b"), num(1)), num(2))
        )
    );
}

#[test]
fn variables_keep_their_whole_name() {
    assert_eq!(one("foo_1;"), var("foo_1"));
    assert_eq!(
        one("total = price * count;"),
        bin(Operator::Assign, var("total"), bin(Operator::Mul, var("price"), var("count")))
    );
}

#[test]
fn anything_may_stand_left_of_an_assignment() {
    assert_eq!(
        one("(a+b)=1;"),
        bin(Operator::Assign, bin(Operator::Add, var("a"), var("b")), num(1))
    );
    assert_eq!(one("1=2;"), bin(Operator::Assign, num(1), num(2)));
    assert_eq!(
        one("a+1=2;"),
        bin(Operator::Assign, bin(Operator::Add, var("a"), num(1)), num(2))
    );
}

#[test]
fn a_program_is_a_sequence_of_statements() {
    assert_eq!(parse(""), Ok(vec![]));
    assert_eq!(parse("  "), Ok(vec![]));
    assert_eq!(
        parse("a=1; b=2; a+b;"),
        Ok(vec![
            bin(Operator::Assign, var("a"), num(1)),
            bin(Operator::Assign, var("b"), num(2)),
            bin(Operator::Add, var("a"), var("b")),
        ])
    );
}

#[test]
fn missing_semicolon_names_what_stands_there() {
    assert_eq!(unexpected("1"), "EOF");
    assert_eq!(unexpected("1 2;"), "2");
    assert_eq!(unexpected("a=1; b=2"), "EOF");
    assert_eq!(unexpected("1+2)"), ")");
}

#[test]
fn missing_parenthesis_names_what_stands_there() {
    assert_eq!(unexpected("(1+2;"), ";");
    assert_eq!(unexpected("(1"), "EOF");
    assert_eq!(unexpected("((1);"), ";");
}

#[test]
fn missing_operand_names_what_stands_there() {
    assert_eq!(unexpected(";"), ";");
    assert_eq!(unexpected("1+*2;"), "*");
    assert_eq!(unexpected("a=;"), ";");
    assert_eq!(unexpected("()"), ")");
    assert_eq!(unexpected("1*"), "EOF");
    assert_eq!(unexpected("-1;"), "-");
}

#[test]
fn the_first_violation_is_reported() {
    assert_eq!(unexpected("(()x"), ")");
    assert_eq!(unexpected("a=1; +; *;"), "+");
    assert_eq!(unexpected("((+)x);"), "+");
}

#[test]
fn the_grammar_has_no_return_statement() {
    assert_eq!(unexpected("return x;"), "return");
    assert_eq!(unexpected("x = 2*3+4; return x;"), "return");
    assert_eq!(unexpected("1 + return;"), "return");
}

#[test]
fn parsing_stops_at_the_first_end_of_input() {
    let tokens = vec![
        Token::with_val(1, "1".to_string()),
        Token::with_symbol(';', ";".to_string()),
        Token::eof("EOF".to_string()),
        Token::with_val(2, "2".to_string()),
        Token::with_symbol(';', ";".to_string()),
        Token::eof("EOF".to_string()),
    ];
    assert_eq!(Parser::new(tokens).program(), Ok(vec![num(1)]));
}

#[test]
fn tokens_need_not_come_from_text() {
    let tokens = vec![
        Token { ty: TokenType::Number(-5), input: "minus five".to_string() },
        Token { ty: TokenType::Symbol('?'), input: "what".to_string() },
        Token { ty: TokenType::EndOfInput, input: "the end".to_string() },
    ];
    assert_eq!(
        Parser::new(tokens).program(),
        Err(ParserError::UnexpectedToken("what".to_string()))
    );
}

#[test]
fn parsing_again_finds_the_end_or_the_same_error() {
    let mut parser = Parser::new(Tokenizer::new("1;2;").tokenize().unwrap());
    assert_eq!(parser.program(), Ok(vec![num(1), num(2)]));
    assert_eq!(parser.program(), Ok(vec![]));
    let mut parser = Parser::new(Tokenizer::new("1;+").tokenize().unwrap());
    assert_eq!(parser.program(), Err(ParserError::UnexpectedToken("+".to_string())));
    assert_eq!(parser.program(), Err(ParserError::UnexpectedToken("+".to_string())));
}

#[test]
fn error_message_names_the_token() {
    let error = ParserError::UnexpectedToken(";".to_string());
    assert_eq!(error.to_string(), "Unexpected token: ;");
    assert_eq!(error.description(), ";");
    assert_eq!(parse("1 + ;").unwrap_err().to_string(), "Unexpected token: ;");
}

#[test]
fn a_copy_of_a_tree_is_the_same_tree() {
    let tree = one("a = (b + 1) * 2;");
    assert_eq!(tree.clone(), tree);
    let statement = Node::ReturnStatement(Box::new(tree));
    assert_eq!(statement.clone(), statement);
}
