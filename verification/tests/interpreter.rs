use pl0::ast::{AstNode, BiOp, ExOp, Sign};
use pl0::error::EvalError;
use pl0::eval::{apply_op, apply_relation, apply_sign, evaluate, evaluate_condition};
use pl0::interpreter::{Execution, Interpreter, Step};
use pl0::lexer::r_lexer;
use pl0::parser::program;
use pl0::scope::CallStack;

/// Takes steps until the run writes, waits, ends or fails; panics where it
/// does not within a million steps.
fn advance(execution: &mut Execution) -> Step {
    for _ in 0..1_000_000 {
        match execution.step() {
            Step::Advanced => {}
            other => return other,
        }
    }
    panic!("the program does not end");
}

/// Runs a tree on the given lines of input; returns what it wrote, how it
/// ended and what `look` saw at the end.
fn run_tree<T>(
    ast: AstNode,
    input: &[&str],
    look: impl Fn(&Execution) -> T,
) -> (Vec<i32>, Step, T) {
    let interpreter = Interpreter::new(ast);
    let mut execution = interpreter.run();
    let mut written = Vec::new();
    let mut lines = input.iter();
    loop {
        match advance(&mut execution) {
            Step::Output(value) => written.push(value),
            Step::AwaitingInput => {
                let line = lines.next().expect("a line of input is left");
                match execution.feed(line) {
                    Some(Step::Advanced) => {}
                    Some(other) => {
                        let seen = look(&execution);
                        return (written, other, seen);
                    }
                    None => panic!("the run did not take the line"),
                }
            }
            last => {
                let seen = look(&execution);
                return (written, last, seen);
            }
        }
    }
}

fn run(source: &str, input: &[&str]) -> (Vec<i32>, Step) {
    let tokens = r_lexer(source).expect("the text has tokens");
    let ast = program(&tokens).expect("the tokens are a program");
    let (written, last, ()) = run_tree(ast, input, |_| ());
    (written, last)
}

fn number(n: i32) -> AstNode<'static> {
    AstNode::Factor(Box::new(AstNode::Number(n)))
}

fn term(factors: Vec<AstNode<'static>>, ops: Vec<BiOp>) -> AstNode<'static> {
    AstNode::Term { factors, ops }
}

fn sum(terms: Vec<AstNode<'static>>, signs: Vec<Sign>) -> AstNode<'static> {
    AstNode::Expression { terms, signs }
}

fn value(ast: &AstNode) -> Result<i32, EvalError> {
    evaluate(ast, &CallStack::new())
}

#[test]
fn precedence_of_product_over_sum() {
    assert_eq!(run("! 2 + 3 * 4.", &[]), (vec![14], Step::Finished));
    assert_eq!(run("! 2 * 3 + 4.", &[]), (vec![10], Step::Finished));
    assert_eq!(run("! (2 + 3) * 4.", &[]), (vec![20], Step::Finished));
}

#[test]
fn both_shapes_of_a_sum_have_the_same_value() {
    assert_eq!(run("! 5 - 2.", &[]), (vec![3], Step::Finished));
    assert_eq!(run("! -0 + 5 - 2.", &[]), (vec![3], Step::Finished));
    assert_eq!(run("! +5 - 2.", &[]), (vec![3], Step::Finished));
    let five = || term(vec![number(5)], vec![]);
    let two = || term(vec![number(2)], vec![]);
    let zero = || term(vec![number(0)], vec![]);
    assert_eq!(value(&sum(vec![five(), two()], vec![Sign::Minus])), Ok(3));
    assert_eq!(value(&sum(vec![five(), two()], vec![Sign::Plus, Sign::Minus])), Ok(3));
    assert_eq!(
        value(&sum(vec![zero(), five(), two()], vec![Sign::Minus, Sign::Plus, Sign::Minus])),
        Ok(3)
    );
}

#[test]
fn a_leading_minus_negates_the_first_term() {
    assert_eq!(run("! -5 + 2.", &[]), (vec![-3], Step::Finished));
    assert_eq!(run("! - 2 * 3.", &[]), (vec![-6], Step::Finished));
}

#[test]
fn a_sum_is_folded_from_the_left() {
    assert_eq!(run("! 10 - 4 - 3.", &[]), (vec![3], Step::Finished));
    assert_eq!(run("! 100 / 10 / 5.", &[]), (vec![2], Step::Finished));
    assert_eq!(run("! 7 / 2 * 2.", &[]), (vec![6], Step::Finished));
}

#[test]
fn division_rounds_toward_zero() {
    assert_eq!(run("! 7 / 2.", &[]), (vec![3], Step::Finished));
    assert_eq!(apply_op(BiOp::Div, 7, 2), Ok(3));
    assert_eq!(apply_op(BiOp::Div, -7, 2), Ok(-3));
    assert_eq!(apply_op(BiOp::Div, 7, -2), Ok(-3));
    assert_eq!(apply_op(BiOp::Div, -7, -2), Ok(3));
    assert_eq!(apply_op(BiOp::Div, 0, -2), Ok(0));
    assert_eq!(apply_op(BiOp::Div, 1, 2), Ok(0));
}

#[test]
fn a_variable_of_the_outer_block_is_seen_in_a_procedure() {
    let source = "VAR x; PROCEDURE show; ! x; BEGIN x := 10; CALL show END.";
    assert_eq!(run(source, &[]), (vec![10], Step::Finished));
}

#[test]
fn a_procedure_writes_to_the_variable_of_the_outer_block() {
    let source = "VAR x; PROCEDURE set; x := 7; BEGIN x := 1; CALL set; ! x END.";
    assert_eq!(run(source, &[]), (vec![7], Step::Finished));
}

#[test]
fn a_variable_of_a_procedure_hides_the_outer_one_and_ends_with_the_call() {
    let source = "VAR x; PROCEDURE p; VAR x; BEGIN x := 5; ! x END; BEGIN x := 1; CALL p; ! x END.";
    assert_eq!(run(source, &[]), (vec![5, 1], Step::Finished));
}

#[test]
fn a_nested_procedure_cannot_be_called_from_the_outer_block() {
    let source = "PROCEDURE outer; PROCEDURE inner; ! 1; CALL inner; BEGIN CALL outer; CALL inner END.";
    assert_eq!(run(source, &[]), (vec![1], Step::Failed(EvalError::UnresolvedIdentifier)));
}

#[test]
fn a_nested_procedure_cannot_be_called_from_a_sibling() {
    let source = "PROCEDURE first; PROCEDURE inner; ! 1; CALL inner; \
                  PROCEDURE second; CALL inner; \
                  BEGIN CALL first; CALL second END.";
    assert_eq!(run(source, &[]), (vec![1], Step::Failed(EvalError::UnresolvedIdentifier)));
}

#[test]
fn a_call_sees_only_the_procedures_of_its_own_block() {
    let source = "PROCEDURE a; ! 1; PROCEDURE b; CALL a; CALL b.";
    assert_eq!(run(source, &[]), (vec![], Step::Failed(EvalError::UnresolvedIdentifier)));
    let source = "PROCEDURE a; CALL a; CALL a.";
    assert_eq!(run(source, &[]), (vec![], Step::Failed(EvalError::UnresolvedIdentifier)));
}

#[test]
fn a_procedure_is_run_at_each_call_and_not_at_its_declaration() {
    let source = "PROCEDURE p; ! 9; BEGIN ! 1; CALL p; CALL p END.";
    assert_eq!(run(source, &[]), (vec![1, 9, 9], Step::Finished));
}

#[test]
fn a_loop_from_one_to_ten_runs_ten_times() {
    let source = "VAR x; BEGIN x := 1; WHILE x <= 10 DO BEGIN ! x; x := x + 1 END END.";
    let tokens = r_lexer(source).unwrap();
    let ast = program(&tokens).unwrap();
    let (written, last, x) = run_tree(ast, &[], |execution| execution.variable("x"));
    assert_eq!(written, vec![1, 2, 3, 4, 5, 6, 7, 8, 9, 10]);
    assert_eq!(last, Step::Finished);
    assert_eq!(x, Ok(11));
}

#[test]
fn a_loop_whose_condition_fails_at_once_does_not_run() {
    let source = "VAR x; BEGIN x := 11; WHILE x <= 10 DO ! x; ! 0 END.";
    assert_eq!(run(source, &[]), (vec![0], Step::Finished));
}

#[test]
fn a_loop_without_end_takes_steps_without_end() {
    let tokens = r_lexer("WHILE 1 = 1 DO.").unwrap();
    let ast = program(&tokens).unwrap();
    let interpreter = Interpreter::new(ast);
    let mut execution = interpreter.run();
    for _ in 0..10_000 {
        assert_eq!(execution.step(), Step::Advanced);
    }
    assert_eq!(execution.depth(), 1);
}

#[test]
fn the_statement_of_an_if_runs_where_the_condition_holds() {
    assert_eq!(run("BEGIN IF 1 < 2 THEN ! 1; IF 2 < 1 THEN ! 2 END.", &[]), (vec![1], Step::Finished));
}

#[test]
fn odd_goes_by_divisibility_whatever_the_sign() {
    let source = "BEGIN IF ODD 3 THEN ! 3; IF ODD 4 THEN ! 4; IF ODD -3 THEN ! -3; \
                  IF ODD 0 THEN ! 0; IF ODD -4 THEN ! -4 END.";
    assert_eq!(run(source, &[]), (vec![3, -3], Step::Finished));
}

#[test]
fn relations_compare_two_numbers() {
    for (op, less, equal, greater) in [
        (ExOp::Equal, false, true, false),
        (ExOp::NumberSign, true, false, true),
        (ExOp::LessThan, true, false, false),
        (ExOp::LessThanOrEqual, true, true, false),
        (ExOp::GreaterThan, false, false, true),
        (ExOp::GreaterThanOrEqual, false, true, true),
    ] {
        assert_eq!(apply_relation(op, -1, 2), less);
        assert_eq!(apply_relation(op, 2, 2), equal);
        assert_eq!(apply_relation(op, 3, 2), greater);
    }
}

#[test]
fn constants_and_variables_start_with_their_values() {
    assert_eq!(run("CONST c = 5; VAR v; BEGIN ! c; ! v END.", &[]), (vec![5, 0], Step::Finished));
}

#[test]
fn a_block_declares_constants_then_variables_whatever_it_lists_first() {
    let ast = AstNode::Block {
        const_decl: vec![AstNode::Const {
            ident: Box::new(AstNode::Ident("x")),
            value: Box::new(AstNode::Number(5)),
        }],
        var_decl: vec![AstNode::Ident("x")],
        procedures: vec![],
        statement: Box::new(AstNode::ExclaimationMark(Box::new(AstNode::Ident("x")))),
    };
    let (written, last, ()) = run_tree(ast, &[], |_| ());
    assert_eq!((written, last), (vec![0], Step::Finished));
}

#[test]
fn input_is_read_into_a_variable() {
    let source = "VAR x; BEGIN ? x; ! x * 2; ? x; ! x END.";
    assert_eq!(run(source, &["21\n", "  -4  "]), (vec![42, -4], Step::Finished));
}

#[test]
fn input_that_is_no_number_stops_the_run() {
    let source = "VAR x; BEGIN ! 1; ? x; ! x END.";
    assert_eq!(run(source, &["twelve"]), (vec![1], Step::Failed(EvalError::MalformedInput)));
    assert_eq!(run(source, &[""]), (vec![1], Step::Failed(EvalError::MalformedInput)));
    assert_eq!(run(source, &["3000000000"]), (vec![1], Step::Failed(EvalError::MalformedInput)));
}

#[test]
fn input_into_an_undeclared_variable_stops_the_run() {
    assert_eq!(run("? x.", &["1"]), (vec![], Step::Failed(EvalError::UnresolvedIdentifier)));
    // The line is read before the variable is looked up.
    assert_eq!(run("? x.", &["one"]), (vec![], Step::Failed(EvalError::MalformedInput)));
}

#[test]
fn a_run_waits_until_it_is_fed() {
    let tokens = r_lexer("VAR x; BEGIN ? x; ! x END.").unwrap();
    let ast = program(&tokens).unwrap();
    let interpreter = Interpreter::new(ast);
    let mut execution = interpreter.run();
    assert_eq!(execution.feed("5"), None);
    assert_eq!(advance(&mut execution), Step::AwaitingInput);
    assert_eq!(execution.step(), Step::AwaitingInput);
    assert_eq!(execution.step(), Step::AwaitingInput);
    assert_eq!(execution.variable("x"), Ok(0));
    assert_eq!(execution.feed("5"), Some(Step::Advanced));
    assert_eq!(execution.variable("x"), Ok(5));
    assert_eq!(execution.feed("6"), None);
    assert_eq!(advance(&mut execution), Step::Output(5));
    assert_eq!(advance(&mut execution), Step::Finished);
    assert_eq!(execution.step(), Step::Finished);
    assert_eq!(execution.feed("7"), None);
    assert_eq!(execution.variable("x"), Ok(5));
}

#[test]
fn a_failed_run_stays_failed() {
    let tokens = r_lexer("BEGIN ! 1 / 0; ! 2 END.").unwrap();
    let ast = program(&tokens).unwrap();
    let interpreter = Interpreter::new(ast);
    let mut execution = interpreter.run();
    assert_eq!(advance(&mut execution), Step::Failed(EvalError::DivisionByZero));
    assert_eq!(execution.step(), Step::Failed(EvalError::DivisionByZero));
    assert_eq!(execution.feed("1"), None);
    assert_eq!(execution.step(), Step::Failed(EvalError::DivisionByZero));
}

#[test]
fn the_depth_counts_the_calls_in_progress() {
    let source = "VAR x; PROCEDURE p; PROCEDURE q; ? x; CALL q; BEGIN CALL p; ? x END.";
    let tokens = r_lexer(source).unwrap();
    let ast = program(&tokens).unwrap();
    let interpreter = Interpreter::new(ast);
    let mut execution = interpreter.run();
    assert_eq!(execution.depth(), 1);
    assert_eq!(advance(&mut execution), Step::AwaitingInput);
    assert_eq!(execution.depth(), 3);
    assert_eq!(execution.feed("1"), Some(Step::Advanced));
    assert_eq!(advance(&mut execution), Step::AwaitingInput);
    assert_eq!(execution.depth(), 1);
    assert_eq!(execution.feed("2"), Some(Step::Advanced));
    assert_eq!(advance(&mut execution), Step::Finished);
    assert_eq!(execution.depth(), 1);
    assert_eq!(execution.variable("x"), Ok(2));
}

#[test]
fn division_by_zero_is_a_fault() {
    assert_eq!(run("BEGIN ! 1; ! 1 / 0; ! 2 END.", &[]), (vec![1], Step::Failed(EvalError::DivisionByZero)));
    assert_eq!(apply_op(BiOp::Div, 0, 0), Err(EvalError::DivisionByZero));
}

#[test]
fn a_result_beyond_32_bits_is_a_fault() {
    assert_eq!(run("! 2147483647 + 1.", &[]), (vec![], Step::Failed(EvalError::Overflow)));
    assert_eq!(run("! 65536 * 65536.", &[]), (vec![], Step::Failed(EvalError::Overflow)));
    assert_eq!(run("! -2147483647 - 2.", &[]), (vec![], Step::Failed(EvalError::Overflow)));
    assert_eq!(run("! (-2147483647 - 1) / (-1).", &[]), (vec![], Step::Failed(EvalError::Overflow)));
    assert_eq!(run("! -2147483647 - 1.", &[]), (vec![i32::MIN], Step::Finished));
    assert_eq!(apply_op(BiOp::Mul, i32::MIN, -1), Err(EvalError::Overflow));
    assert_eq!(apply_op(BiOp::Mul, 46341, 46341), Err(EvalError::Overflow));
    assert_eq!(apply_op(BiOp::Mul, 46340, 46340), Ok(2147395600));
    assert_eq!(apply_op(BiOp::Div, i32::MIN, -1), Err(EvalError::Overflow));
    assert_eq!(apply_sign(Sign::Plus, i32::MAX, 1), Err(EvalError::Overflow));
    assert_eq!(apply_sign(Sign::Minus, i32::MIN, 1), Err(EvalError::Overflow));
    assert_eq!(apply_sign(Sign::Minus, 0, i32::MIN), Err(EvalError::Overflow));
    assert_eq!(apply_sign(Sign::Plus, 2, 3), Ok(5));
    assert_eq!(apply_sign(Sign::Minus, 2, 3), Ok(-1));
}

#[test]
fn the_first_fault_from_the_left_counts() {
    assert_eq!(run("! 1 / 0 + x.", &[]), (vec![], Step::Failed(EvalError::DivisionByZero)));
    assert_eq!(run("! x + 1 / 0.", &[]), (vec![], Step::Failed(EvalError::UnresolvedIdentifier)));
    assert_eq!(run("IF x = 1 / 0 THEN.", &[]), (vec![], Step::Failed(EvalError::UnresolvedIdentifier)));
    assert_eq!(run("IF 1 / 0 = x THEN.", &[]), (vec![], Step::Failed(EvalError::DivisionByZero)));
}

#[test]
fn an_assignment_evaluates_before_it_looks_for_its_target() {
    assert_eq!(run("x := 1 / 0.", &[]), (vec![], Step::Failed(EvalError::DivisionByZero)));
    assert_eq!(run("x := 1.", &[]), (vec![], Step::Failed(EvalError::UnresolvedIdentifier)));
}

#[test]
fn a_condition_that_is_none_is_a_violation() {
    let ast = AstNode::IfThen {
        condition: Box::new(AstNode::Number(1)),
        statement: Box::new(AstNode::Number(0)),
    };
    let (written, last, ()) = run_tree(ast, &[], |_| ());
    assert_eq!((written, last), (vec![], Step::Failed(EvalError::InvariantViolation)));
    assert_eq!(
        evaluate_condition(&AstNode::BeginEnd(vec![]), &CallStack::new()),
        Err(EvalError::InvariantViolation)
    );
}

#[test]
fn a_tree_that_the_grammar_does_not_make_is_a_violation() {
    let no_value = AstNode::ExclaimationMark(Box::new(AstNode::BeginEnd(vec![])));
    assert_eq!(run_tree(no_value, &[], |_| ()).1, Step::Failed(EvalError::InvariantViolation));
    let no_name = AstNode::Call(Box::new(AstNode::Number(1)));
    assert_eq!(run_tree(no_name, &[], |_| ()).1, Step::Failed(EvalError::InvariantViolation));
    let no_target = AstNode::Assignment {
        ident: Box::new(AstNode::Number(1)),
        expression: Box::new(AstNode::Number(1)),
    };
    assert_eq!(run_tree(no_target, &[], |_| ()).1, Step::Failed(EvalError::InvariantViolation));
    let no_literal = AstNode::Const {
        ident: Box::new(AstNode::Ident("c")),
        value: Box::new(AstNode::Ident("d")),
    };
    assert_eq!(run_tree(no_literal, &[], |_| ()).1, Step::Failed(EvalError::InvariantViolation));
    let one_operator_too_many = term(vec![number(1)], vec![BiOp::Mul]);
    assert_eq!(value(&one_operator_too_many), Err(EvalError::InvariantViolation));
    assert_eq!(value(&term(vec![], vec![])), Err(EvalError::InvariantViolation));
    let two_signs_too_many = sum(vec![number(1)], vec![Sign::Plus, Sign::Plus, Sign::Plus]);
    assert_eq!(value(&two_signs_too_many), Err(EvalError::InvariantViolation));
    let bad_variable = AstNode::Block {
        const_decl: vec![],
        var_decl: vec![AstNode::Number(1)],
        procedures: vec![],
        statement: Box::new(AstNode::Number(0)),
    };
    assert_eq!(run_tree(bad_variable, &[], |_| ()).1, Step::Failed(EvalError::InvariantViolation));
}

#[test]
fn a_condition_in_the_place_of_a_statement_does_nothing() {
    let ast = AstNode::BeginEnd(vec![
        AstNode::Odd(Box::new(AstNode::Ident("nowhere"))),
        AstNode::ExclaimationMark(Box::new(AstNode::Number(1))),
    ]);
    let (written, last, ()) = run_tree(ast, &[], |_| ());
    assert_eq!((written, last), (vec![1], Step::Finished));
}

#[test]
fn an_expression_in_the_place_of_a_statement_is_evaluated() {
    let ast = AstNode::BeginEnd(vec![
        AstNode::Number(3),
        AstNode::Ident("nowhere"),
        AstNode::ExclaimationMark(Box::new(AstNode::Number(1))),
    ]);
    let (written, last, ()) = run_tree(ast, &[], |_| ());
    assert_eq!((written, last), (vec![], Step::Failed(EvalError::UnresolvedIdentifier)));
}

#[test]
fn a_product_starts_from_one_and_a_sum_from_zero() {
    assert_eq!(value(&term(vec![number(6)], vec![])), Ok(6));
    assert_eq!(value(&sum(vec![], vec![])), Ok(0));
    assert_eq!(value(&sum(vec![number(4)], vec![Sign::Minus])), Ok(-4));
    assert_eq!(value(&AstNode::Number(-8)), Ok(-8));
    assert_eq!(value(&AstNode::Ident("x")), Err(EvalError::UnresolvedIdentifier));
}

#[test]
fn names_resolve_against_the_stack() {
    let mut stack = CallStack::new();
    stack.declare("x", 6);
    let product = term(
        vec![AstNode::Factor(Box::new(AstNode::Ident("x"))), number(7)],
        vec![BiOp::Mul],
    );
    assert_eq!(evaluate(&product, &stack), Ok(42));
    let odd = AstNode::Odd(Box::new(AstNode::Ident("x")));
    assert_eq!(evaluate_condition(&odd, &stack), Ok(false));
    let compare = AstNode::ComposedExpression {
        ex1: Box::new(AstNode::Ident("x")),
        op: ExOp::GreaterThan,
        ex2: Box::new(number(5)),
    };
    assert_eq!(evaluate_condition(&compare, &stack), Ok(true));
}
