use pl0::error::EvalError;
use pl0::interpreter::{Interpreter, Step};
use pl0::lexer::r_lexer;
use pl0::parser::program;

/// Runs a program text on the given lines of input; returns what it wrote
/// and how it ended.
fn run(source: &str, input: &[&str]) -> (Vec<i32>, Step) {
    let tokens = r_lexer(source).expect("the text has tokens");
    let ast = program(&tokens).expect("the tokens are a program");
    let interpreter = Interpreter::new(ast);
    let mut execution = interpreter.run();
    let mut written = Vec::new();
    let mut lines = input.iter();
    let mut steps = 0u32;
    loop {
        steps += 1;
        assert!(steps < 1_000_000, "the program does not end");
        match execution.step() {
            Step::Advanced => {}
            Step::Output(value) => written.push(value),
            Step::AwaitingInput => {
                let line = lines.next().expect("a line of input is left");
                match execution.feed(line) {
                    Some(Step::Advanced) => {}
                    Some(other) => return (written, other),
                    None => panic!("the run did not take the line"),
                }
            }
            last => return (written, last),
        }
    }
}

const MULTIPLY: &str = "
CONST
  m =  7,
  n = 85;

VAR
  x, y, z, q, r;

PROCEDURE multiply;
VAR a, b;

BEGIN
  a := x;
  b := y;
  z := 0;
  WHILE b > 0 DO BEGIN
    IF ODD b THEN z := z + a;
    a := 2 * a;
    b := b / 2
  END
END;

PROCEDURE divide;
VAR w;
BEGIN
  r := x;
  q := 0;
  w := y;
  WHILE w <= r DO w := 2 * w;
  WHILE w > y DO BEGIN
    q := 2 * q;
    w := w / 2;
    IF w <= r THEN BEGIN
      r := r - w;
      q := q + 1
    END
  END
END;

PROCEDURE gcd;
VAR f, g;
BEGIN
  f := x;
  g := y;
  WHILE f # g DO BEGIN
    IF f < g THEN g := g - f;
    IF g < f THEN f := f - g
  END;
  z := f
END;

BEGIN
  x := m;
  y := n;
  CALL multiply;
  !z;
  
  x := 25;
  y :=  3;
  CALL divide;
  !r;
  !q;
  
  x := 84;
  y := 36;
  CALL gcd;
  
  !z;
END.";

#[test]
fn multiply_divide_gcd() {
    assert_eq!(run(MULTIPLY, &[]), (vec![595, 1, 8, 12], Step::Finished));
}

#[test]
fn multiply_by_doubling_prints_the_product() {
    let source = "CONST m = 7, n = 85;
VAR x, y, z;
PROCEDURE multiply;
VAR a, b;
BEGIN
  a := x; b := y; z := 0;
  WHILE b > 0 DO BEGIN
    IF ODD b THEN z := z + a;
    a := 2 * a;
    b := b / 2
  END
END;
BEGIN x := m; y := n; CALL multiply; !z END.";
    assert_eq!(run(source, &[]), (vec![595], Step::Finished));
}

#[test]
fn unresolved_variable_stops_the_run() {
    let (written, last) = run("BEGIN !1; x := 2; !3 END.", &[]);
    assert_eq!(written, vec![1]);
    assert_eq!(last, Step::Failed(EvalError::UnresolvedIdentifier));
}
