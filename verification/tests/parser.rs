use pl0::ast::{BiOp, ExOp, Sign};
use pl0::lexer::{r_lexer, Token};
use pl0::parser::{program, AstNode, ParseError};

fn number(n: i32) -> AstNode<'static> {
    AstNode::Factor(Box::new(AstNode::Number(n)))
}

fn name(text: &'static str) -> AstNode<'static> {
    AstNode::Factor(Box::new(AstNode::Ident(text)))
}

fn ident(text: &'static str) -> Box<AstNode<'static>> {
    Box::new(AstNode::Ident(text))
}

fn term(factors: Vec<AstNode<'static>>, ops: Vec<BiOp>) -> AstNode<'static> {
    AstNode::Term { factors, ops }
}

fn sum(terms: Vec<AstNode<'static>>, signs: Vec<Sign>) -> AstNode<'static> {
    AstNode::Expression { terms, signs }
}

fn plain(factor: AstNode<'static>) -> AstNode<'static> {
    sum(vec![term(vec![factor], vec![])], vec![])
}

fn block(statement: AstNode<'static>) -> AstNode<'static> {
    AstNode::Block {
        const_decl: vec![],
        var_decl: vec![],
        procedures: vec![],
        statement: Box::new(statement),
    }
}

fn parse(source: &'static str) -> Result<AstNode<'static>, ParseError> {
    let tokens = r_lexer(source).expect("the text has tokens");
    program(&tokens)
}

#[test]
fn a_product_is_one_term_of_a_sum() {
    let expected = block(AstNode::ExclaimationMark(Box::new(sum(
        vec![
            term(vec![number(2)], vec![]),
            term(vec![number(3), number(4)], vec![BiOp::Mul]),
        ],
        vec![Sign::Plus],
    ))));
    assert_eq!(parse("! 2 + 3 * 4."), Ok(expected));
}

#[test]
fn a_sum_without_leading_sign_has_one_sign_less_than_terms() {
    let expected = block(AstNode::ExclaimationMark(Box::new(sum(
        vec![term(vec![number(5)], vec![]), term(vec![number(2)], vec![])],
        vec![Sign::Minus],
    ))));
    assert_eq!(parse("! 5 - 2."), Ok(expected));
}

#[test]
fn a_sum_with_leading_sign_has_as_many_signs_as_terms() {
    let expected = block(AstNode::ExclaimationMark(Box::new(sum(
        vec![
            term(vec![number(0)], vec![]),
            term(vec![number(5)], vec![]),
            term(vec![number(2)], vec![]),
        ],
        vec![Sign::Minus, Sign::Plus, Sign::Minus],
    ))));
    assert_eq!(parse("! -0 + 5 - 2."), Ok(expected));
    let positive = block(AstNode::ExclaimationMark(Box::new(sum(
        vec![term(vec![number(5)], vec![])],
        vec![Sign::Plus],
    ))));
    assert_eq!(parse("! +5."), Ok(positive));
}

#[test]
fn parentheses_make_a_factor_of_an_expression() {
    let inner = sum(
        vec![term(vec![number(1)], vec![]), term(vec![name("x")], vec![])],
        vec![Sign::Plus],
    );
    let expected = block(AstNode::ExclaimationMark(Box::new(sum(
        vec![term(vec![AstNode::Factor(Box::new(inner)), number(2)], vec![BiOp::Div])],
        vec![],
    ))));
    assert_eq!(parse("! (1 + x) / 2."), Ok(expected));
}

#[test]
fn the_empty_program_is_an_empty_statement() {
    assert_eq!(parse("."), Ok(block(AstNode::Number(0))));
}

#[test]
fn declarations_come_before_the_statement() {
    let inner = AstNode::Block {
        const_decl: vec![],
        var_decl: vec![AstNode::Ident("a")],
        procedures: vec![],
        statement: Box::new(AstNode::Assignment { ident: ident("a"), expression: Box::new(plain(name("m"))) }),
    };
    let expected = AstNode::Block {
        const_decl: vec![
            AstNode::Const { ident: ident("m"), value: Box::new(AstNode::Number(7)) },
            AstNode::Const { ident: ident("n"), value: Box::new(AstNode::Number(85)) },
        ],
        var_decl: vec![AstNode::Ident("x"), AstNode::Ident("y")],
        procedures: vec![AstNode::Procedure { ident: ident("p"), block: Box::new(inner) }],
        statement: Box::new(AstNode::Call(ident("p"))),
    };
    assert_eq!(
        parse("CONST m = 7, n = 85; VAR x, y; PROCEDURE p; VAR a; a := m; CALL p."),
        Ok(expected)
    );
}

#[test]
fn statements_between_begin_and_end() {
    let expected = block(AstNode::BeginEnd(vec![
        AstNode::QuestionMark(ident("x")),
        AstNode::Number(0),
        AstNode::ExclaimationMark(Box::new(plain(name("x")))),
        AstNode::Number(0),
    ]));
    assert_eq!(parse("BEGIN ? x; ; ! x; END."), Ok(expected));
}

#[test]
fn conditions_of_if_and_while() {
    let odd = AstNode::Odd(Box::new(plain(name("b"))));
    let expected = block(AstNode::IfThen {
        condition: Box::new(odd),
        statement: Box::new(AstNode::Call(ident("p"))),
    });
    assert_eq!(parse("IF ODD b THEN CALL p."), Ok(expected));

    let compare = AstNode::ComposedExpression {
        ex1: Box::new(plain(name("x"))),
        op: ExOp::LessThanOrEqual,
        ex2: Box::new(plain(number(10))),
    };
    let expected = block(AstNode::WhileDo {
        condition: Box::new(compare),
        statement: Box::new(AstNode::Number(0)),
    });
    assert_eq!(parse("WHILE x <= 10 DO."), Ok(expected));
}

#[test]
fn each_relation_has_its_operator() {
    for (text, op) in [
        ("IF a = b THEN.", ExOp::Equal),
        ("IF a # b THEN.", ExOp::NumberSign),
        ("IF a < b THEN.", ExOp::LessThan),
        ("IF a <= b THEN.", ExOp::LessThanOrEqual),
        ("IF a > b THEN.", ExOp::GreaterThan),
        ("IF a >= b THEN.", ExOp::GreaterThanOrEqual),
    ] {
        let expected = block(AstNode::IfThen {
            condition: Box::new(AstNode::ComposedExpression {
                ex1: Box::new(plain(name("a"))),
                op,
                ex2: Box::new(plain(name("b"))),
            }),
            statement: Box::new(AstNode::Number(0)),
        });
        assert_eq!(parse(text), Ok(expected));
    }
}

#[test]
fn without_the_final_point_there_is_no_program() {
    assert_eq!(parse("x := 1"), Err(ParseError { position: 3 }));
    assert_eq!(program(&[]), Err(ParseError { position: 0 }));
}

#[test]
fn a_statement_that_does_not_fit_is_read_as_empty() {
    // `x := )` is no assignment, so the block reads nothing and the point is missing at once.
    assert_eq!(parse("x := ) ."), Err(ParseError { position: 0 }));
    assert_eq!(parse("BEGIN x := 1 ."), Err(ParseError { position: 0 }));
    assert_eq!(parse("IF x THEN y := 1."), Err(ParseError { position: 0 }));
    assert_eq!(parse("CALL 5."), Err(ParseError { position: 0 }));
}

#[test]
fn a_declaration_that_does_not_fit_is_left_out() {
    // Without its `;` the constant declaration is not one; `CONST` then starts no statement.
    assert_eq!(parse("CONST m = 7 x := 1."), Err(ParseError { position: 0 }));
    assert_eq!(parse("VAR x, ; x := 1."), Err(ParseError { position: 0 }));
    // A procedure without the `;` behind its block ends the procedures.
    assert_eq!(parse("VAR x; PROCEDURE p; x := 1 ."), Err(ParseError { position: 3 }));
}

#[test]
fn what_follows_the_point_is_not_read() {
    assert_eq!(parse("! 1 . ) ) BEGIN"), parse("! 1 ."));
    assert!(parse("! 1 . ) ) BEGIN").is_ok());
}

#[test]
fn tokens_written_by_hand_are_read_alike() {
    let tokens = [
        Token::Ident("x"),
        Token::Separator(":="),
        Token::Number(1),
        Token::Separator("."),
    ];
    let expected = block(AstNode::Assignment {
        ident: ident("x"),
        expression: Box::new(plain(number(1))),
    });
    assert_eq!(program(&tokens), Ok(expected));
    // A keyword is no name, and a name no keyword.
    let tokens = [Token::Keyword("x"), Token::Separator(":="), Token::Number(1), Token::Separator(".")];
    assert_eq!(program(&tokens), Err(ParseError { position: 0 }));
    let tokens = [Token::Ident("CALL"), Token::Ident("p"), Token::Separator(".")];
    assert_eq!(program(&tokens), Err(ParseError { position: 0 }));
}
