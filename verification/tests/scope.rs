use pl0::ast::AstNode;
use pl0::error::EvalError;
use pl0::scope::CallStack;

#[test]
fn a_new_stack_has_one_frame_and_binds_nothing() {
    let stack = CallStack::new();
    assert_eq!(stack.depth(), 1);
    assert_eq!(stack.resolve_ref("x"), Err(EvalError::UnresolvedIdentifier));
    assert_eq!(stack.resolve_mut("x"), None);
    assert!(stack.lookup_procedure("p").is_err());
}

#[test]
fn a_declared_name_resolves_to_its_value() {
    let mut stack = CallStack::new();
    stack.declare("x", 5);
    stack.declare("y", -1);
    assert_eq!(stack.resolve_ref("x"), Ok(5));
    assert_eq!(stack.resolve_ref("y"), Ok(-1));
    stack.declare("x", 6);
    assert_eq!(stack.resolve_ref("x"), Ok(6));
}

#[test]
fn the_search_falls_through_to_the_outer_frame() {
    let mut stack = CallStack::new();
    stack.declare("x", 0);
    assert_eq!(stack.assign("x", 10), Ok(()));
    stack.push_frame();
    assert_eq!(stack.depth(), 2);
    assert_eq!(stack.resolve_ref("x"), Ok(10));
    assert_eq!(stack.resolve_mut("x"), Some(0));
}

#[test]
fn the_top_frame_hides_the_frames_below() {
    let mut stack = CallStack::new();
    stack.declare("x", 1);
    stack.push_frame();
    stack.declare("x", 2);
    assert_eq!(stack.resolve_ref("x"), Ok(2));
    assert_eq!(stack.resolve_mut("x"), Some(1));
    assert_eq!(stack.assign("x", 3), Ok(()));
    assert_eq!(stack.resolve_ref("x"), Ok(3));
    assert_eq!(stack.pop_frame(), Ok(()));
    assert_eq!(stack.resolve_ref("x"), Ok(1));
}

#[test]
fn an_assignment_writes_where_the_name_lives() {
    let mut stack = CallStack::new();
    stack.declare("x", 1);
    stack.push_frame();
    stack.declare("y", 2);
    assert_eq!(stack.assign("x", 7), Ok(()));
    assert_eq!(stack.pop_frame(), Ok(()));
    assert_eq!(stack.resolve_ref("x"), Ok(7));
    assert_eq!(stack.resolve_ref("y"), Err(EvalError::UnresolvedIdentifier));
}

#[test]
fn an_undeclared_name_cannot_be_assigned() {
    let mut stack = CallStack::new();
    stack.declare("x", 1);
    assert_eq!(stack.assign("y", 7), Err(EvalError::UnresolvedIdentifier));
    assert_eq!(stack.resolve_ref("y"), Err(EvalError::UnresolvedIdentifier));
    assert_eq!(stack.resolve_ref("x"), Ok(1));
}

#[test]
fn the_outermost_frame_stays() {
    let mut stack = CallStack::new();
    stack.declare("x", 1);
    assert_eq!(stack.pop_frame(), Err(EvalError::InvariantViolation));
    assert_eq!(stack.depth(), 1);
    assert_eq!(stack.resolve_ref("x"), Ok(1));
}

#[test]
fn procedures_are_looked_up_in_the_top_frame_alone() {
    let body = AstNode::Number(1);
    let other = AstNode::Number(2);
    let mut stack = CallStack::new();
    stack.register_procedure("p", &body);
    assert_eq!(stack.lookup_procedure("p"), Ok(&body));
    assert_eq!(stack.lookup_procedure("q"), Err(EvalError::UnresolvedIdentifier));
    stack.push_frame();
    assert_eq!(stack.lookup_procedure("p"), Err(EvalError::UnresolvedIdentifier));
    stack.register_procedure("q", &other);
    assert_eq!(stack.lookup_procedure("q"), Ok(&other));
    assert_eq!(stack.pop_frame(), Ok(()));
    assert_eq!(stack.lookup_procedure("q"), Err(EvalError::UnresolvedIdentifier));
    assert_eq!(stack.lookup_procedure("p"), Ok(&body));
}

#[test]
fn variables_and_procedures_do_not_share_their_names() {
    let body = AstNode::Number(1);
    let mut stack = CallStack::new();
    stack.register_procedure("p", &body);
    stack.declare("q", 3);
    assert_eq!(stack.resolve_ref("p"), Err(EvalError::UnresolvedIdentifier));
    assert!(stack.lookup_procedure("q").is_err());
}
