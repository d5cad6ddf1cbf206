use pl0::ast::{AstNode, BiOp, Sign};
use pl0::interpreter::{Interpreter, Step};

fn number(n: i32) -> AstNode<'static> {
    AstNode::Factor(Box::new(AstNode::Number(n)))
}

fn product(factors: Vec<AstNode<'static>>, ops: Vec<BiOp>) -> AstNode<'static> {
    AstNode::Term { factors, ops }
}

fn outputs(program: AstNode<'static>) -> Vec<i32> {
    let interpreter = Interpreter::new(program);
    let mut execution = interpreter.run();
    let mut written = Vec::new();
    loop {
        match execution.step() {
            Step::Advanced => {}
            Step::Output(v) => written.push(v),
            Step::Finished => return written,
            other => panic!("unexpected step {:?}", other),
        }
    }
}

#[test]
fn division_truncates() {
    let term = product(vec![number(7), number(2)], vec![BiOp::Div]);
    let program = AstNode::ExclaimationMark(Box::new(AstNode::Expression {
        terms: vec![term],
        signs: vec![],
    }));
    assert_eq!(outputs(program), vec![3]);
}

#[test]
fn product_binds_tighter_than_sum() {
    let two = product(vec![number(2)], vec![]);
    let three_times_four = product(vec![number(3), number(4)], vec![BiOp::Mul]);
    let program = AstNode::ExclaimationMark(Box::new(AstNode::Expression {
        terms: vec![two, three_times_four],
        signs: vec![Sign::Plus],
    }));
    assert_eq!(outputs(program), vec![14]);
}
