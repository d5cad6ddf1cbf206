//! The grammar: from tokens to the tree of a program.
//!
//! ```text
//! program    = block "."
//! block      = [ "CONST" ident "=" number { "," ident "=" number } ";" ]
//!              [ "VAR" ident { "," ident } ";" ]
//!              { "PROCEDURE" ident ";" block ";" } statement
//! statement  = [ ident ":=" expression | "CALL" ident | "?" ident
//!              | "!" expression | "BEGIN" statement { ";" statement } "END"
//!              | "IF" condition "THEN" statement
//!              | "WHILE" condition "DO" statement ]
//! condition  = "ODD" expression
//!              | expression ( "=" | "#" | "<" | "<=" | ">" | ">=" ) expression
//! expression = [ "+" | "-" ] term { ( "+" | "-" ) term }
//! term       = factor { ( "*" | "/" ) factor }
//! factor     = ident | number | "(" expression ")"
//! ```
//!
//! Choices are tried in the order written and the first that fits is taken;
//! a repetition goes on as long as its body fits; an optional part that does
//! not fit is left out and takes no token. So a statement or a block always
//! reads something, if only nothing: an empty statement is the number 0.

pub use crate::ast::AstNode;
use crate::ast::{trees_of, BiOp, ExOp, Sign, Tree};
use crate::text::same_text;
use crate::token::Token;
use vstd::prelude::*;

verus! {

/// The number of tokens from `pos` on.
pub open spec fn remaining(tokens: Seq<Token>, pos: nat) -> nat {
    if pos <= tokens.len() {
        (tokens.len() - pos) as nat
    } else {
        0
    }
}

/// The token at `pos` is the separator `text`.
pub open spec fn separator_at(tokens: Seq<Token>, pos: nat, text: Seq<char>) -> bool {
    pos < tokens.len() && tokens[pos as int]@ == crate::token::TokenView::Separator(text)
}

/// The token at `pos` is the keyword `text`.
pub open spec fn keyword_at(tokens: Seq<Token>, pos: nat, text: Seq<char>) -> bool {
    pos < tokens.len() && tokens[pos as int]@ == crate::token::TokenView::Keyword(text)
}

/// The number at `pos`, if the token there is one.
pub open spec fn number_at(tokens: Seq<Token>, pos: nat) -> Option<Tree> {
    if pos < tokens.len() {
        match tokens[pos as int] {
            Token::Number(n) => Some(Tree::Number(n)),
            _ => None,
        }
    } else {
        None
    }
}

/// The name at `pos`, if the token there is one.
pub open spec fn ident_at(tokens: Seq<Token>, pos: nat) -> Option<Tree> {
    if pos < tokens.len() {
        match tokens[pos as int] {
            Token::Ident(name) => Some(Tree::Ident(name@)),
            _ => None,
        }
    } else {
        None
    }
}

/// The operator `*` or `/` at `pos`.
pub open spec fn op_at(tokens: Seq<Token>, pos: nat) -> Option<BiOp> {
    if separator_at(tokens, pos, "*"@) {
        Some(BiOp::Mul)
    } else if separator_at(tokens, pos, "/"@) {
        Some(BiOp::Div)
    } else {
        None
    }
}

/// The sign `+` or `-` at `pos`.
pub open spec fn sign_at(tokens: Seq<Token>, pos: nat) -> Option<Sign> {
    if separator_at(tokens, pos, "+"@) {
        Some(Sign::Plus)
    } else if separator_at(tokens, pos, "-"@) {
        Some(Sign::Minus)
    } else {
        None
    }
}

/// The relational operator at `pos`.
pub open spec fn relation_at(tokens: Seq<Token>, pos: nat) -> Option<ExOp> {
    if separator_at(tokens, pos, "<="@) {
        Some(ExOp::LessThanOrEqual)
    } else if separator_at(tokens, pos, ">="@) {
        Some(ExOp::GreaterThanOrEqual)
    } else if separator_at(tokens, pos, "="@) {
        Some(ExOp::Equal)
    } else if separator_at(tokens, pos, "#"@) {
        Some(ExOp::NumberSign)
    } else if separator_at(tokens, pos, "<"@) {
        Some(ExOp::LessThan)
    } else if separator_at(tokens, pos, ">"@) {
        Some(ExOp::GreaterThan)
    } else {
        None
    }
}

/// The factor that starts at `pos`, with the number of its tokens.
pub open spec fn factor_at(tokens: Seq<Token>, pos: nat) -> Option<(Tree, nat)>
    decreases remaining(tokens, pos), 0nat,
{
    if number_at(tokens, pos) is Some {
        Some((Tree::Factor(Box::new(number_at(tokens, pos).unwrap())), 1))
    } else if ident_at(tokens, pos) is Some {
        Some((Tree::Factor(Box::new(ident_at(tokens, pos).unwrap())), 1))
    } else if separator_at(tokens, pos, "("@) {
        match expression_at(tokens, pos + 1) {
            Some((inner, n)) => if separator_at(tokens, pos + 1 + n, ")"@) {
                Some((Tree::Factor(Box::new(inner)), n + 2))
            } else {
                None
            },
            None => None,
        }
    } else {
        None
    }
}

/// The factors that follow the first of a term, each behind its operator,
/// from `pos` on: the factors, the operators and the number of tokens.
pub open spec fn factors_at(tokens: Seq<Token>, pos: nat) -> (Seq<Tree>, Seq<BiOp>, nat)
    decreases remaining(tokens, pos), 1nat,
{
    match op_at(tokens, pos) {
        Some(op) => match factor_at(tokens, pos + 1) {
            Some((factor, n)) => {
                let (factors, ops, m) = factors_at(tokens, pos + 1 + n);
                (seq![factor] + factors, seq![op] + ops, 1 + n + m)
            },
            None => (seq![], seq![], 0),
        },
        None => (seq![], seq![], 0),
    }
}

/// The term that starts at `pos`, with the number of its tokens.
pub open spec fn term_at(tokens: Seq<Token>, pos: nat) -> Option<(Tree, nat)>
    decreases remaining(tokens, pos), 2nat,
{
    match factor_at(tokens, pos) {
        Some((first, n)) => {
            let (factors, ops, m) = factors_at(tokens, pos + n);
            Some((Tree::Term { factors: seq![first] + factors, ops }, n + m))
        },
        None => None,
    }
}

/// The terms that follow the first of an expression, each behind its sign,
/// from `pos` on: the terms, the signs and the number of tokens.
pub open spec fn terms_at(tokens: Seq<Token>, pos: nat) -> (Seq<Tree>, Seq<Sign>, nat)
    decreases remaining(tokens, pos), 3nat,
{
    match sign_at(tokens, pos) {
        Some(sign) => match term_at(tokens, pos + 1) {
            Some((term, n)) => {
                let (terms, signs, m) = terms_at(tokens, pos + 1 + n);
                (seq![term] + terms, seq![sign] + signs, 1 + n + m)
            },
            None => (seq![], seq![], 0),
        },
        None => (seq![], seq![], 0),
    }
}

/// The expression that starts at `pos`, with the number of its tokens. A
/// sign in front of the first term becomes the first of the signs; without
/// one, the tree has one sign less than terms.
pub open spec fn expression_at(tokens: Seq<Token>, pos: nat) -> Option<(Tree, nat)>
    decreases remaining(tokens, pos), 4nat,
{
    let lead = sign_at(tokens, pos);
    let start = if lead is Some {
        pos + 1
    } else {
        pos
    };
    match term_at(tokens, start) {
        Some((first, n)) => {
            let (terms, signs, m) = terms_at(tokens, start + n);
            let signs = if lead is Some {
                seq![lead.unwrap()] + signs
            } else {
                signs
            };
            Some((Tree::Expression { terms: seq![first] + terms, signs }, (start - pos + n + m) as nat))
        },
        None => None,
    }
}

/// The condition that starts at `pos`, with the number of its tokens.
pub open spec fn condition_at(tokens: Seq<Token>, pos: nat) -> Option<(Tree, nat)> {
    let odd = if keyword_at(tokens, pos, "ODD"@) {
        match expression_at(tokens, pos + 1) {
            Some((ex, n)) => Some((Tree::Odd(Box::new(ex)), n + 1)),
            None => None,
        }
    } else {
        None
    };
    if odd is Some {
        odd
    } else {
        match expression_at(tokens, pos) {
            Some((ex1, n)) => match relation_at(tokens, pos + n) {
                Some(op) => match expression_at(tokens, pos + n + 1) {
                    Some((ex2, m)) => Some(
                        (
                            Tree::ComposedExpression { ex1: Box::new(ex1), op, ex2: Box::new(ex2) },
                            n + 1 + m,
                        ),
                    ),
                    None => None,
                },
                None => None,
            },
            None => None,
        }
    }
}

/// The statement that starts at `pos`, with the number of its tokens: the
/// empty statement where no other fits.
pub open spec fn statement_at(tokens: Seq<Token>, pos: nat) -> (Tree, nat)
    decreases remaining(tokens, pos), 7nat,
{
    match plain_statement_at(tokens, pos) {
        Some(found) => found,
        None => (Tree::Number(0), 0),
    }
}

/// The statements that follow the first between `BEGIN` and `END`, each
/// behind its `;`, from `pos` on, with the number of tokens.
pub open spec fn statements_at(tokens: Seq<Token>, pos: nat) -> (Seq<Tree>, nat)
    decreases remaining(tokens, pos), 8nat,
{
    if separator_at(tokens, pos, ";"@) {
        let (statement, n) = statement_at(tokens, pos + 1);
        let (statements, m) = statements_at(tokens, pos + 1 + n);
        (seq![statement] + statements, 1 + n + m)
    } else {
        (seq![], 0)
    }
}

/// The assignment `ident := expression` at `pos`.
pub open spec fn assignment_at(tokens: Seq<Token>, pos: nat) -> Option<(Tree, nat)> {
    if ident_at(tokens, pos) is Some && separator_at(tokens, pos + 1, ":="@) {
        match expression_at(tokens, pos + 2) {
            Some((expression, n)) => Some(
                (
                    Tree::Assignment {
                        ident: Box::new(ident_at(tokens, pos).unwrap()),
                        expression: Box::new(expression),
                    },
                    n + 2,
                ),
            ),
            None => None,
        }
    } else {
        None
    }
}

/// The call `CALL ident` at `pos`.
pub open spec fn call_at(tokens: Seq<Token>, pos: nat) -> Option<(Tree, nat)> {
    if keyword_at(tokens, pos, "CALL"@) && ident_at(tokens, pos + 1) is Some {
        Some((Tree::Call(Box::new(ident_at(tokens, pos + 1).unwrap())), 2))
    } else {
        None
    }
}

/// The input statement `? ident` at `pos`.
pub open spec fn input_at(tokens: Seq<Token>, pos: nat) -> Option<(Tree, nat)> {
    if separator_at(tokens, pos, "?"@) && ident_at(tokens, pos + 1) is Some {
        Some((Tree::QuestionMark(Box::new(ident_at(tokens, pos + 1).unwrap())), 2))
    } else {
        None
    }
}

/// The output statement `! expression` at `pos`.
pub open spec fn output_at(tokens: Seq<Token>, pos: nat) -> Option<(Tree, nat)> {
    if separator_at(tokens, pos, "!"@) {
        match expression_at(tokens, pos + 1) {
            Some((expression, n)) => Some((Tree::ExclaimationMark(Box::new(expression)), n + 1)),
            None => None,
        }
    } else {
        None
    }
}

/// The sequence `BEGIN statement { ; statement } END` at `pos`.
pub open spec fn begin_end_at(tokens: Seq<Token>, pos: nat) -> Option<(Tree, nat)>
    decreases remaining(tokens, pos), 5nat,
{
    if keyword_at(tokens, pos, "BEGIN"@) {
        let (first, n) = statement_at(tokens, pos + 1);
        let (statements, m) = statements_at(tokens, pos + 1 + n);
        if keyword_at(tokens, pos + 1 + n + m, "END"@) {
            Some((Tree::BeginEnd(seq![first] + statements), n + m + 2))
        } else {
            None
        }
    } else {
        None
    }
}

/// The condition and the statement of an `IF` or a `WHILE` whose keyword
/// stands at `pos`, with `then` between them, and the number of tokens with
/// both keywords.
pub open spec fn guarded_at(tokens: Seq<Token>, pos: nat, then: Seq<char>) -> Option<
    (Tree, Tree, nat),
>
    decreases remaining(tokens, pos), 4nat,
{
    if pos < tokens.len() {
        match condition_at(tokens, pos + 1) {
            Some((condition, n)) => if keyword_at(tokens, pos + 1 + n, then) {
                let (statement, m) = statement_at(tokens, pos + 2 + n);
                Some((condition, statement, n + m + 2))
            } else {
                None
            },
            None => None,
        }
    } else {
        None
    }
}

/// The statement `IF condition THEN statement` at `pos`.
pub open spec fn if_then_at(tokens: Seq<Token>, pos: nat) -> Option<(Tree, nat)>
    decreases remaining(tokens, pos), 5nat,
{
    if keyword_at(tokens, pos, "IF"@) {
        match guarded_at(tokens, pos, "THEN"@) {
            Some((condition, statement, n)) => Some(
                (
                    Tree::IfThen { condition: Box::new(condition), statement: Box::new(statement) },
                    n,
                ),
            ),
            None => None,
        }
    } else {
        None
    }
}

/// The statement `WHILE condition DO statement` at `pos`.
pub open spec fn while_do_at(tokens: Seq<Token>, pos: nat) -> Option<(Tree, nat)>
    decreases remaining(tokens, pos), 5nat,
{
    if keyword_at(tokens, pos, "WHILE"@) {
        match guarded_at(tokens, pos, "DO"@) {
            Some((condition, statement, n)) => Some(
                (
                    Tree::WhileDo { condition: Box::new(condition), statement: Box::new(statement) },
                    n,
                ),
            ),
            None => None,
        }
    } else {
        None
    }
}

/// The statement that starts at `pos` and is not empty, with the number of
/// its tokens: the first of the seven forms that fits.
pub open spec fn plain_statement_at(tokens: Seq<Token>, pos: nat) -> Option<(Tree, nat)>
    decreases remaining(tokens, pos), 6nat,
{
    if assignment_at(tokens, pos) is Some {
        assignment_at(tokens, pos)
    } else if call_at(tokens, pos) is Some {
        call_at(tokens, pos)
    } else if input_at(tokens, pos) is Some {
        input_at(tokens, pos)
    } else if output_at(tokens, pos) is Some {
        output_at(tokens, pos)
    } else if begin_end_at(tokens, pos) is Some {
        begin_end_at(tokens, pos)
    } else if if_then_at(tokens, pos) is Some {
        if_then_at(tokens, pos)
    } else {
        while_do_at(tokens, pos)
    }
}

/// The constant `ident = number` at `pos`: three tokens.
pub open spec fn const_at(tokens: Seq<Token>, pos: nat) -> Option<Tree> {
    if ident_at(tokens, pos) is Some && separator_at(tokens, pos + 1, "="@) && number_at(
        tokens,
        pos + 2,
    ) is Some {
        Some(
            Tree::Const {
                ident: Box::new(ident_at(tokens, pos).unwrap()),
                value: Box::new(number_at(tokens, pos + 2).unwrap()),
            },
        )
    } else {
        None
    }
}

/// The constants that follow the first of a declaration, each behind its
/// `,`, from `pos` on, with the number of tokens.
pub open spec fn consts_at(tokens: Seq<Token>, pos: nat) -> (Seq<Tree>, nat)
    decreases remaining(tokens, pos),
{
    if separator_at(tokens, pos, ","@) && const_at(tokens, pos + 1) is Some {
        let (consts, m) = consts_at(tokens, pos + 4);
        (seq![const_at(tokens, pos + 1).unwrap()] + consts, 4 + m)
    } else {
        (seq![], 0)
    }
}

/// The constant declaration at `pos`, with the number of its tokens; where
/// none fits, no constant and no token.
pub open spec fn const_decl_at(tokens: Seq<Token>, pos: nat) -> (Seq<Tree>, nat) {
    if keyword_at(tokens, pos, "CONST"@) && const_at(tokens, pos + 1) is Some {
        let (consts, m) = consts_at(tokens, pos + 4);
        if separator_at(tokens, pos + 4 + m, ";"@) {
            (seq![const_at(tokens, pos + 1).unwrap()] + consts, 5 + m)
        } else {
            (seq![], 0)
        }
    } else {
        (seq![], 0)
    }
}

/// The names that follow the first of a variable declaration, each behind
/// its `,`, from `pos` on, with the number of tokens.
pub open spec fn vars_at(tokens: Seq<Token>, pos: nat) -> (Seq<Tree>, nat)
    decreases remaining(tokens, pos),
{
    if separator_at(tokens, pos, ","@) && ident_at(tokens, pos + 1) is Some {
        let (vars, m) = vars_at(tokens, pos + 2);
        (seq![ident_at(tokens, pos + 1).unwrap()] + vars, 2 + m)
    } else {
        (seq![], 0)
    }
}

/// The variable declaration at `pos`, with the number of its tokens; where
/// none fits, no variable and no token.
pub open spec fn var_decl_at(tokens: Seq<Token>, pos: nat) -> (Seq<Tree>, nat) {
    if keyword_at(tokens, pos, "VAR"@) && ident_at(tokens, pos + 1) is Some {
        let (vars, m) = vars_at(tokens, pos + 2);
        if separator_at(tokens, pos + 2 + m, ";"@) {
            (seq![ident_at(tokens, pos + 1).unwrap()] + vars, 3 + m)
        } else {
            (seq![], 0)
        }
    } else {
        (seq![], 0)
    }
}

/// A procedure without its keyword, `ident ; block ;` at `pos`, with the
/// number of these tokens.
pub open spec fn procedure_at(tokens: Seq<Token>, pos: nat) -> Option<(Tree, nat)>
    decreases remaining(tokens, pos), 9nat,
{
    if ident_at(tokens, pos) is Some && separator_at(tokens, pos + 1, ";"@) {
        let (block, n) = block_at(tokens, pos + 2);
        if separator_at(tokens, pos + 2 + n, ";"@) {
            Some(
                (
                    Tree::Procedure {
                        ident: Box::new(ident_at(tokens, pos).unwrap()),
                        block: Box::new(block),
                    },
                    n + 3,
                ),
            )
        } else {
            None
        }
    } else {
        None
    }
}

/// The procedures from `pos` on, with the number of their tokens.
pub open spec fn procedures_at(tokens: Seq<Token>, pos: nat) -> (Seq<Tree>, nat)
    decreases remaining(tokens, pos), 10nat,
{
    if keyword_at(tokens, pos, "PROCEDURE"@) {
        match procedure_at(tokens, pos + 1) {
            Some((procedure, n)) => {
                let (procedures, m) = procedures_at(tokens, pos + 1 + n);
                (seq![procedure] + procedures, 1 + n + m)
            },
            None => (seq![], 0),
        }
    } else {
        (seq![], 0)
    }
}

/// The block that starts at `pos`, with the number of its tokens.
pub open spec fn block_at(tokens: Seq<Token>, pos: nat) -> (Tree, nat)
    decreases remaining(tokens, pos), 11nat,
{
    let (const_decl, c) = const_decl_at(tokens, pos);
    let (var_decl, v) = var_decl_at(tokens, pos + c);
    let (procedures, p) = procedures_at(tokens, pos + c + v);
    let (statement, s) = statement_at(tokens, pos + c + v + p);
    (Tree::Block { const_decl, var_decl, procedures, statement: Box::new(statement) }, c + v + p + s)
}

/// The program that the tokens write, or the place where its final `.` is
/// missing. What follows the `.` is not read.
pub open spec fn program_of(tokens: Seq<Token>) -> Result<Tree, nat> {
    let (block, n) = block_at(tokens, 0);
    if separator_at(tokens, n, "."@) {
        Ok(block)
    } else {
        Err(n)
    }
}

/// What came of reading one piece of the grammar at `pos` is what the
/// grammar says: the node found and the place behind it, or nothing.
pub open spec fn reads(
    found: Option<(AstNode, usize)>,
    expected: Option<(Tree, nat)>,
    pos: usize,
    len: usize,
) -> bool {
    match found {
        Some((node, end)) => pos <= end <= len && expected == Some((node@, (end - pos) as nat)),
        None => expected is None,
    }
}

fn is_separator(tokens: &[Token], pos: usize, text: &str) -> (found: bool)
    ensures
        found == separator_at(tokens@, pos as nat, text@),
{
    if pos < tokens.len() {
        match tokens[pos] {
            Token::Separator(s) => same_text(s, text),
            _ => false,
        }
    } else {
        false
    }
}

fn is_keyword(tokens: &[Token], pos: usize, text: &str) -> (found: bool)
    ensures
        found == keyword_at(tokens@, pos as nat, text@),
{
    if pos < tokens.len() {
        match tokens[pos] {
            Token::Keyword(s) => same_text(s, text),
            _ => false,
        }
    } else {
        false
    }
}

fn number<'a>(tokens: &[Token<'a>], pos: usize) -> (found: Option<AstNode<'a>>)
    ensures
        match found {
            Some(node) => number_at(tokens@, pos as nat) == Some(node@) && node is Number && pos
                < tokens.len(),
            None => number_at(tokens@, pos as nat) is None,
        },
{
    if pos < tokens.len() {
        match tokens[pos] {
            Token::Number(n) => Some(AstNode::Number(n)),
            _ => None,
        }
    } else {
        None
    }
}

fn ident<'a>(tokens: &[Token<'a>], pos: usize) -> (found: Option<AstNode<'a>>)
    ensures
        match found {
            Some(node) => ident_at(tokens@, pos as nat) == Some(node@) && node is Ident && pos
                < tokens.len(),
            None => ident_at(tokens@, pos as nat) is None,
        },
{
    if pos < tokens.len() {
        match tokens[pos] {
            Token::Ident(name) => Some(AstNode::Ident(name)),
            _ => None,
        }
    } else {
        None
    }
}

fn op(tokens: &[Token], pos: usize) -> (found: Option<BiOp>)
    ensures
        found == op_at(tokens@, pos as nat),
{
    if is_separator(tokens, pos, "*") {
        Some(BiOp::Mul)
    } else if is_separator(tokens, pos, "/") {
        Some(BiOp::Div)
    } else {
        None
    }
}

fn sign(tokens: &[Token], pos: usize) -> (found: Option<Sign>)
    ensures
        found == sign_at(tokens@, pos as nat),
{
    if is_separator(tokens, pos, "+") {
        Some(Sign::Plus)
    } else if is_separator(tokens, pos, "-") {
        Some(Sign::Minus)
    } else {
        None
    }
}

fn ex_op(tokens: &[Token], pos: usize) -> (found: Option<ExOp>)
    ensures
        found == relation_at(tokens@, pos as nat),
{
    if is_separator(tokens, pos, "<=") {
        Some(ExOp::LessThanOrEqual)
    } else if is_separator(tokens, pos, ">=") {
        Some(ExOp::GreaterThanOrEqual)
    } else if is_separator(tokens, pos, "=") {
        Some(ExOp::Equal)
    } else if is_separator(tokens, pos, "#") {
        Some(ExOp::NumberSign)
    } else if is_separator(tokens, pos, "<") {
        Some(ExOp::LessThan)
    } else if is_separator(tokens, pos, ">") {
        Some(ExOp::GreaterThan)
    } else {
        None
    }
}

fn factor<'a>(tokens: &[Token<'a>], pos: usize) -> (found: Option<(AstNode<'a>, usize)>)
    requires
        pos <= tokens.len(),
    ensures
        reads(found, factor_at(tokens@, pos as nat), pos, tokens.len()),
        found matches Some((node, _)) ==> node.is_expression(),
    decreases remaining(tokens@, pos as nat), 0nat,
{
    if let Some(n) = number(tokens, pos) {
        assert(n.is_expression());
        return Some((AstNode::Factor(Box::new(n)), pos + 1));
    }
    if let Some(name) = ident(tokens, pos) {
        assert(name.is_expression());
        return Some((AstNode::Factor(Box::new(name)), pos + 1));
    }
    if !is_separator(tokens, pos, "(") {
        return None;
    }
    let (inner, end) = match expression(tokens, pos + 1) {
        Some(found) => found,
        None => {
            return None;
        },
    };
    if is_separator(tokens, end, ")") {
        Some((AstNode::Factor(Box::new(inner)), end + 1))
    } else {
        None
    }
}

/// Reads the factors behind the first of a term and puts them at the end of
/// `factors`, their operators at the end of `ops`.
fn more_factors<'a>(
    tokens: &[Token<'a>],
    pos: usize,
    factors: &mut Vec<AstNode<'a>>,
    ops: &mut Vec<BiOp>,
) -> (end: usize)
    requires
        pos <= tokens.len(),
        forall|i: int| 0 <= i < old(factors).len() ==> (#[trigger] old(factors)[i]).is_expression(),
    ensures
        pos <= end <= tokens.len(),
        trees_of(final(factors)@) == trees_of(old(factors)@) + factors_at(tokens@, pos as nat).0,
        final(ops)@ == old(ops)@ + factors_at(tokens@, pos as nat).1,
        end - pos == factors_at(tokens@, pos as nat).2,
        final(factors).len() - old(factors).len() == final(ops).len() - old(ops).len(),
        forall|i: int|
            0 <= i < final(factors).len() ==> (#[trigger] final(factors)[i]).is_expression(),
    decreases remaining(tokens@, pos as nat), 1nat,
{
    let mut end = pos;
    let ghost whole = factors_at(tokens@, pos as nat);
    let ghost first_factors = trees_of(factors@);
    let ghost first_ops = ops@;
    loop
        invariant
            pos <= end <= tokens.len(),
            whole == factors_at(tokens@, pos as nat),
            forall|i: int| 0 <= i < factors.len() ==> (#[trigger] factors[i]).is_expression(),
            first_factors + whole.0 == trees_of(factors@) + factors_at(tokens@, end as nat).0,
            first_ops + whole.1 == ops@ + factors_at(tokens@, end as nat).1,
            whole.2 == end - pos + factors_at(tokens@, end as nat).2,
            factors.len() - first_factors.len() == ops.len() - first_ops.len(),
        ensures
            pos <= end <= tokens.len(),
            forall|i: int| 0 <= i < factors.len() ==> (#[trigger] factors[i]).is_expression(),
            first_factors + whole.0 == trees_of(factors@),
            first_ops + whole.1 == ops@,
            whole.2 == end - pos,
            factors.len() - first_factors.len() == ops.len() - first_ops.len(),
        decreases tokens.len() - end,
    {
        let next_op = match op(tokens, end) {
            Some(next_op) => next_op,
            None => {
                assert(trees_of(factors@) + Seq::<Tree>::empty() =~= trees_of(factors@));
                assert(ops@ + Seq::<BiOp>::empty() =~= ops@);
                break ;
            },
        };
        let (next, after) = match factor(tokens, end + 1) {
            Some(found) => found,
            None => {
                assert(trees_of(factors@) + Seq::<Tree>::empty() =~= trees_of(factors@));
                assert(ops@ + Seq::<BiOp>::empty() =~= ops@);
                break ;
            },
        };
        proof {
            let rest = factors_at(tokens@, after as nat);
            let before = trees_of(factors@);
            assert(trees_of(factors@.push(next)) =~= before.push(next@));
            assert(before.push(next@) + rest.0 =~= before + (seq![next@] + rest.0));
            assert(ops@.push(next_op) + rest.1 =~= ops@ + (seq![next_op] + rest.1));
        }
        factors.push(next);
        ops.push(next_op);
        end = after;
    }
    end
}

fn term<'a>(tokens: &[Token<'a>], pos: usize) -> (found: Option<(AstNode<'a>, usize)>)
    requires
        pos <= tokens.len(),
    ensures
        reads(found, term_at(tokens@, pos as nat), pos, tokens.len()),
        found matches Some((node, _)) ==> node.is_expression(),
    decreases remaining(tokens@, pos as nat), 2nat,
{
    let (first, start) = match factor(tokens, pos) {
        Some(found) => found,
        None => {
            return None;
        },
    };
    let ghost first_tree = first@;
    let mut factors: Vec<AstNode<'a>> = Vec::new();
    factors.push(first);
    let mut ops: Vec<BiOp> = Vec::new();
    assert(trees_of(factors@) =~= seq![first_tree]);
    let end = more_factors(tokens, start, &mut factors, &mut ops);
    let node = AstNode::Term { factors, ops };
    proof {
        assert(node@->Term_factors =~= trees_of(factors@));
        assert(ops@ =~= factors_at(tokens@, start as nat).1);
    }
    Some((node, end))
}

/// Reads the terms behind the first of an expression and puts them at the
/// end of `terms`, their signs at the end of `signs`.
fn more_terms<'a>(
    tokens: &[Token<'a>],
    pos: usize,
    terms: &mut Vec<AstNode<'a>>,
    signs: &mut Vec<Sign>,
) -> (end: usize)
    requires
        pos <= tokens.len(),
        forall|i: int| 0 <= i < old(terms).len() ==> (#[trigger] old(terms)[i]).is_expression(),
    ensures
        pos <= end <= tokens.len(),
        trees_of(final(terms)@) == trees_of(old(terms)@) + terms_at(tokens@, pos as nat).0,
        final(signs)@ == old(signs)@ + terms_at(tokens@, pos as nat).1,
        end - pos == terms_at(tokens@, pos as nat).2,
        final(terms).len() - old(terms).len() == final(signs).len() - old(signs).len(),
        forall|i: int| 0 <= i < final(terms).len() ==> (#[trigger] final(terms)[i]).is_expression(),
    decreases remaining(tokens@, pos as nat), 3nat,
{
    let mut end = pos;
    let ghost whole = terms_at(tokens@, pos as nat);
    let ghost first_terms = trees_of(terms@);
    let ghost first_signs = signs@;
    loop
        invariant
            pos <= end <= tokens.len(),
            whole == terms_at(tokens@, pos as nat),
            forall|i: int| 0 <= i < terms.len() ==> (#[trigger] terms[i]).is_expression(),
            first_terms + whole.0 == trees_of(terms@) + terms_at(tokens@, end as nat).0,
            first_signs + whole.1 == signs@ + terms_at(tokens@, end as nat).1,
            whole.2 == end - pos + terms_at(tokens@, end as nat).2,
            terms.len() - first_terms.len() == signs.len() - first_signs.len(),
        ensures
            pos <= end <= tokens.len(),
            forall|i: int| 0 <= i < terms.len() ==> (#[trigger] terms[i]).is_expression(),
            first_terms + whole.0 == trees_of(terms@),
            first_signs + whole.1 == signs@,
            whole.2 == end - pos,
            terms.len() - first_terms.len() == signs.len() - first_signs.len(),
        decreases tokens.len() - end,
    {
        let next_sign = match sign(tokens, end) {
            Some(next_sign) => next_sign,
            None => {
                assert(trees_of(terms@) + Seq::<Tree>::empty() =~= trees_of(terms@));
                assert(signs@ + Seq::<Sign>::empty() =~= signs@);
                break ;
            },
        };
        let (next, after) = match term(tokens, end + 1) {
            Some(found) => found,
            None => {
                assert(trees_of(terms@) + Seq::<Tree>::empty() =~= trees_of(terms@));
                assert(signs@ + Seq::<Sign>::empty() =~= signs@);
                break ;
            },
        };
        proof {
            let rest = terms_at(tokens@, after as nat);
            let before = trees_of(terms@);
            assert(trees_of(terms@.push(next)) =~= before.push(next@));
            assert(before.push(next@) + rest.0 =~= before + (seq![next@] + rest.0));
            assert(signs@.push(next_sign) + rest.1 =~= signs@ + (seq![next_sign] + rest.1));
        }
        terms.push(next);
        signs.push(next_sign);
        end = after;
    }
    end
}

fn expression<'a>(tokens: &[Token<'a>], pos: usize) -> (found: Option<(AstNode<'a>, usize)>)
    requires
        pos <= tokens.len(),
    ensures
        reads(found, expression_at(tokens@, pos as nat), pos, tokens.len()),
        found matches Some((node, _)) ==> node.is_expression(),
    decreases remaining(tokens@, pos as nat), 4nat,
{
    let lead = sign(tokens, pos);
    let from = if lead.is_some() {
        pos + 1
    } else {
        pos
    };
    let (first, start) = match term(tokens, from) {
        Some(found) => found,
        None => {
            return None;
        },
    };
    let ghost first_tree = first@;
    let mut terms: Vec<AstNode<'a>> = Vec::new();
    terms.push(first);
    let mut signs: Vec<Sign> = Vec::new();
    if let Some(lead) = lead {
        signs.push(lead);
    }
    let ghost lead_signs = signs@;
    assert(trees_of(terms@) =~= seq![first_tree]);
    let end = more_terms(tokens, start, &mut terms, &mut signs);
    let node = AstNode::Expression { terms, signs };
    proof {
        assert(node@->Expression_terms =~= trees_of(terms@));
        if lead is Some {
            assert(lead_signs =~= seq![lead.unwrap()]);
        } else {
            assert(lead_signs + terms_at(tokens@, start as nat).1 =~= terms_at(
                tokens@,
                start as nat,
            ).1);
        }
    }
    Some((node, end))
}

fn condition<'a>(tokens: &[Token<'a>], pos: usize) -> (found: Option<(AstNode<'a>, usize)>)
    requires
        pos <= tokens.len(),
    ensures
        reads(found, condition_at(tokens@, pos as nat), pos, tokens.len()),
        found matches Some((node, _)) ==> node.is_condition(),
{
    if is_keyword(tokens, pos, "ODD") {
        if let Some((ex, end)) = expression(tokens, pos + 1) {
            return Some((AstNode::Odd(Box::new(ex)), end));
        }
    }
    let (ex1, middle) = match expression(tokens, pos) {
        Some(found) => found,
        None => {
            return None;
        },
    };
    let op = match ex_op(tokens, middle) {
        Some(op) => op,
        None => {
            return None;
        },
    };
    match expression(tokens, middle + 1) {
        Some((ex2, end)) => Some(
            (AstNode::ComposedExpression { ex1: Box::new(ex1), op, ex2: Box::new(ex2) }, end),
        ),
        None => None,
    }
}

fn statement<'a>(tokens: &[Token<'a>], pos: usize) -> (found: (AstNode<'a>, usize))
    requires
        pos <= tokens.len(),
    ensures
        pos <= found.1 <= tokens.len(),
        statement_at(tokens@, pos as nat) == (found.0@, (found.1 - pos) as nat),
        found.0.is_statement(),
    decreases remaining(tokens@, pos as nat), 7nat,
{
    match plain_statement(tokens, pos) {
        Some(found) => found,
        None => (AstNode::Number(0), pos),
    }
}

/// Reads the statements behind the first between `BEGIN` and `END` and puts
/// them at the end of `statements`.
fn more_statements<'a>(tokens: &[Token<'a>], pos: usize, statements: &mut Vec<AstNode<'a>>) -> (end:
    usize)
    requires
        pos <= tokens.len(),
        forall|i: int|
            0 <= i < old(statements).len() ==> (#[trigger] old(statements)[i]).is_statement(),
    ensures
        pos <= end <= tokens.len(),
        trees_of(final(statements)@) == trees_of(old(statements)@) + statements_at(
            tokens@,
            pos as nat,
        ).0,
        end - pos == statements_at(tokens@, pos as nat).1,
        final(statements).len() >= old(statements).len(),
        forall|i: int|
            0 <= i < final(statements).len() ==> (#[trigger] final(statements)[i]).is_statement(),
    decreases remaining(tokens@, pos as nat), 8nat,
{
    let mut end = pos;
    let ghost whole = statements_at(tokens@, pos as nat);
    let ghost first = trees_of(statements@);
    let ghost first_len = statements.len();
    loop
        invariant
            pos <= end <= tokens.len(),
            whole == statements_at(tokens@, pos as nat),
            forall|i: int| 0 <= i < statements.len() ==> (#[trigger] statements[i]).is_statement(),
            first + whole.0 == trees_of(statements@) + statements_at(tokens@, end as nat).0,
            whole.1 == end - pos + statements_at(tokens@, end as nat).1,
            statements.len() >= first_len,
        ensures
            pos <= end <= tokens.len(),
            forall|i: int| 0 <= i < statements.len() ==> (#[trigger] statements[i]).is_statement(),
            first + whole.0 == trees_of(statements@),
            whole.1 == end - pos,
            statements.len() >= first_len,
        decreases tokens.len() - end,
    {
        if !is_separator(tokens, end, ";") {
            assert(trees_of(statements@) + Seq::<Tree>::empty() =~= trees_of(statements@));
            break ;
        }
        let (next, after) = statement(tokens, end + 1);
        proof {
            let rest = statements_at(tokens@, after as nat);
            let before = trees_of(statements@);
            assert(trees_of(statements@.push(next)) =~= before.push(next@));
            assert(before.push(next@) + rest.0 =~= before + (seq![next@] + rest.0));
        }
        statements.push(next);
        end = after;
    }
    end
}

fn assignment<'a>(tokens: &[Token<'a>], pos: usize) -> (found: Option<(AstNode<'a>, usize)>)
    requires
        pos <= tokens.len(),
    ensures
        reads(found, assignment_at(tokens@, pos as nat), pos, tokens.len()),
        found matches Some((node, _)) ==> node.is_statement(),
{
    let name = match ident(tokens, pos) {
        Some(name) => name,
        None => {
            return None;
        },
    };
    if !is_separator(tokens, pos + 1, ":=") {
        return None;
    }
    match expression(tokens, pos + 2) {
        Some((expression, end)) => Some(
            (AstNode::Assignment { ident: Box::new(name), expression: Box::new(expression) }, end),
        ),
        None => None,
    }
}

fn call<'a>(tokens: &[Token<'a>], pos: usize) -> (found: Option<(AstNode<'a>, usize)>)
    requires
        pos <= tokens.len(),
    ensures
        reads(found, call_at(tokens@, pos as nat), pos, tokens.len()),
        found matches Some((node, _)) ==> node.is_statement(),
{
    if !is_keyword(tokens, pos, "CALL") {
        return None;
    }
    match ident(tokens, pos + 1) {
        Some(name) => Some((AstNode::Call(Box::new(name)), pos + 2)),
        None => None,
    }
}

fn question_mark<'a>(tokens: &[Token<'a>], pos: usize) -> (found: Option<(AstNode<'a>, usize)>)
    requires
        pos <= tokens.len(),
    ensures
        reads(found, input_at(tokens@, pos as nat), pos, tokens.len()),
        found matches Some((node, _)) ==> node.is_statement(),
{
    if !is_separator(tokens, pos, "?") {
        return None;
    }
    match ident(tokens, pos + 1) {
        Some(name) => Some((AstNode::QuestionMark(Box::new(name)), pos + 2)),
        None => None,
    }
}

fn exclaimation<'a>(tokens: &[Token<'a>], pos: usize) -> (found: Option<(AstNode<'a>, usize)>)
    requires
        pos <= tokens.len(),
    ensures
        reads(found, output_at(tokens@, pos as nat), pos, tokens.len()),
        found matches Some((node, _)) ==> node.is_statement(),
{
    if !is_separator(tokens, pos, "!") {
        return None;
    }
    match expression(tokens, pos + 1) {
        Some((expression, end)) => Some((AstNode::ExclaimationMark(Box::new(expression)), end)),
        None => None,
    }
}

fn begin_end_block<'a>(tokens: &[Token<'a>], pos: usize) -> (found: Option<(AstNode<'a>, usize)>)
    requires
        pos <= tokens.len(),
    ensures
        reads(found, begin_end_at(tokens@, pos as nat), pos, tokens.len()),
        found matches Some((node, _)) ==> node.is_statement(),
    decreases remaining(tokens@, pos as nat), 5nat,
{
    if !is_keyword(tokens, pos, "BEGIN") {
        return None;
    }
    let (first, start) = statement(tokens, pos + 1);
    let ghost first_tree = first@;
    let mut statements: Vec<AstNode<'a>> = Vec::new();
    statements.push(first);
    assert(trees_of(statements@) =~= seq![first_tree]);
    let end = more_statements(tokens, start, &mut statements);
    if !is_keyword(tokens, end, "END") {
        return None;
    }
    let node = AstNode::BeginEnd(statements);
    assert(node@->BeginEnd_0 =~= trees_of(statements@));
    Some((node, end + 1))
}

/// Reads the condition and the statement behind the keyword at `pos`, with
/// the keyword `then` between them.
fn guarded<'a>(tokens: &[Token<'a>], pos: usize, then: &str) -> (found: Option<
    (AstNode<'a>, AstNode<'a>, usize),
>)
    requires
        pos < tokens.len(),
    ensures
        match found {
            Some((condition, statement, end)) => pos <= end <= tokens.len() && guarded_at(
                tokens@,
                pos as nat,
                then@,
            ) == Some((condition@, statement@, (end - pos) as nat)) && condition.is_condition()
                && statement.is_statement(),
            None => guarded_at(tokens@, pos as nat, then@) is None,
        },
    decreases remaining(tokens@, pos as nat), 4nat,
{
    let (condition, middle) = match condition(tokens, pos + 1) {
        Some(found) => found,
        None => {
            return None;
        },
    };
    if !is_keyword(tokens, middle, then) {
        return None;
    }
    let (statement, end) = statement(tokens, middle + 1);
    Some((condition, statement, end))
}

fn if_then<'a>(tokens: &[Token<'a>], pos: usize) -> (found: Option<(AstNode<'a>, usize)>)
    requires
        pos <= tokens.len(),
    ensures
        reads(found, if_then_at(tokens@, pos as nat), pos, tokens.len()),
        found matches Some((node, _)) ==> node.is_statement(),
    decreases remaining(tokens@, pos as nat), 5nat,
{
    if !is_keyword(tokens, pos, "IF") {
        return None;
    }
    match guarded(tokens, pos, "THEN") {
        Some((condition, statement, end)) => Some(
            (
                AstNode::IfThen { condition: Box::new(condition), statement: Box::new(statement) },
                end,
            ),
        ),
        None => None,
    }
}

fn while_do<'a>(tokens: &[Token<'a>], pos: usize) -> (found: Option<(AstNode<'a>, usize)>)
    requires
        pos <= tokens.len(),
    ensures
        reads(found, while_do_at(tokens@, pos as nat), pos, tokens.len()),
        found matches Some((node, _)) ==> node.is_statement(),
    decreases remaining(tokens@, pos as nat), 5nat,
{
    if !is_keyword(tokens, pos, "WHILE") {
        return None;
    }
    match guarded(tokens, pos, "DO") {
        Some((condition, statement, end)) => Some(
            (
                AstNode::WhileDo { condition: Box::new(condition), statement: Box::new(statement) },
                end,
            ),
        ),
        None => None,
    }
}

fn plain_statement<'a>(tokens: &[Token<'a>], pos: usize) -> (found: Option<(AstNode<'a>, usize)>)
    requires
        pos <= tokens.len(),
    ensures
        reads(found, plain_statement_at(tokens@, pos as nat), pos, tokens.len()),
        found matches Some((node, _)) ==> node.is_statement(),
    decreases remaining(tokens@, pos as nat), 6nat,
{
    if let Some(found) = assignment(tokens, pos) {
        return Some(found);
    }
    if let Some(found) = call(tokens, pos) {
        return Some(found);
    }
    if let Some(found) = question_mark(tokens, pos) {
        return Some(found);
    }
    if let Some(found) = exclaimation(tokens, pos) {
        return Some(found);
    }
    if let Some(found) = begin_end_block(tokens, pos) {
        return Some(found);
    }
    if let Some(found) = if_then(tokens, pos) {
        return Some(found);
    }
    while_do(tokens, pos)
}

fn const_item<'a>(tokens: &[Token<'a>], pos: usize) -> (found: Option<AstNode<'a>>)
    requires
        pos <= tokens.len(),
    ensures
        match found {
            Some(node) => const_at(tokens@, pos as nat) == Some(node@) && node.is_const() && pos + 3
                <= tokens.len(),
            None => const_at(tokens@, pos as nat) is None,
        },
{
    let name = match ident(tokens, pos) {
        Some(name) => name,
        None => {
            return None;
        },
    };
    if !is_separator(tokens, pos + 1, "=") {
        return None;
    }
    match number(tokens, pos + 2) {
        Some(value) => Some(AstNode::Const { ident: Box::new(name), value: Box::new(value) }),
        None => None,
    }
}

/// Reads the constants behind the first of a declaration and puts them at
/// the end of `consts`.
fn more_consts<'a>(tokens: &[Token<'a>], pos: usize, consts: &mut Vec<AstNode<'a>>) -> (end: usize)
    requires
        pos <= tokens.len(),
        forall|i: int| 0 <= i < old(consts).len() ==> (#[trigger] old(consts)[i]).is_const(),
    ensures
        pos <= end <= tokens.len(),
        trees_of(final(consts)@) == trees_of(old(consts)@) + consts_at(tokens@, pos as nat).0,
        end - pos == consts_at(tokens@, pos as nat).1,
        forall|i: int| 0 <= i < final(consts).len() ==> (#[trigger] final(consts)[i]).is_const(),
{
    let mut end = pos;
    let ghost whole = consts_at(tokens@, pos as nat);
    let ghost first = trees_of(consts@);
    loop
        invariant
            pos <= end <= tokens.len(),
            whole == consts_at(tokens@, pos as nat),
            forall|i: int| 0 <= i < consts.len() ==> (#[trigger] consts[i]).is_const(),
            first + whole.0 == trees_of(consts@) + consts_at(tokens@, end as nat).0,
            whole.1 == end - pos + consts_at(tokens@, end as nat).1,
        ensures
            pos <= end <= tokens.len(),
            forall|i: int| 0 <= i < consts.len() ==> (#[trigger] consts[i]).is_const(),
            first + whole.0 == trees_of(consts@),
            whole.1 == end - pos,
        decreases tokens.len() - end,
    {
        if !is_separator(tokens, end, ",") {
            assert(trees_of(consts@) + Seq::<Tree>::empty() =~= trees_of(consts@));
            break ;
        }
        let next = match const_item(tokens, end + 1) {
            Some(next) => next,
            None => {
                assert(trees_of(consts@) + Seq::<Tree>::empty() =~= trees_of(consts@));
                break ;
            },
        };
        proof {
            let rest = consts_at(tokens@, (end + 4) as nat);
            let before = trees_of(consts@);
            assert(trees_of(consts@.push(next)) =~= before.push(next@));
            assert(before.push(next@) + rest.0 =~= before + (seq![next@] + rest.0));
        }
        consts.push(next);
        end = end + 4;
    }
    end
}

fn const_declaration<'a>(tokens: &[Token<'a>], pos: usize) -> (found: (Vec<AstNode<'a>>, usize))
    requires
        pos <= tokens.len(),
    ensures
        pos <= found.1 <= tokens.len(),
        const_decl_at(tokens@, pos as nat) == (trees_of(found.0@), (found.1 - pos) as nat),
        forall|i: int| 0 <= i < found.0.len() ==> (#[trigger] found.0[i]).is_const(),
{
    let mut consts: Vec<AstNode<'a>> = Vec::new();
    assert(trees_of(consts@) =~= Seq::<Tree>::empty());
    if !is_keyword(tokens, pos, "CONST") {
        return (consts, pos);
    }
    let first = match const_item(tokens, pos + 1) {
        Some(first) => first,
        None => {
            return (consts, pos);
        },
    };
    let ghost first_tree = first@;
    consts.push(first);
    assert(trees_of(consts@) =~= seq![first_tree]);
    let end = more_consts(tokens, pos + 4, &mut consts);
    if is_separator(tokens, end, ";") {
        (consts, end + 1)
    } else {
        let none: Vec<AstNode<'a>> = Vec::new();
        assert(trees_of(none@) =~= Seq::<Tree>::empty());
        (none, pos)
    }
}

/// Reads the names behind the first of a variable declaration and puts them
/// at the end of `vars`.
fn more_vars<'a>(tokens: &[Token<'a>], pos: usize, vars: &mut Vec<AstNode<'a>>) -> (end: usize)
    requires
        pos <= tokens.len(),
        forall|i: int| 0 <= i < old(vars).len() ==> (#[trigger] old(vars)[i]).name() is Some,
    ensures
        pos <= end <= tokens.len(),
        trees_of(final(vars)@) == trees_of(old(vars)@) + vars_at(tokens@, pos as nat).0,
        end - pos == vars_at(tokens@, pos as nat).1,
        forall|i: int| 0 <= i < final(vars).len() ==> (#[trigger] final(vars)[i]).name() is Some,
{
    let mut end = pos;
    let ghost whole = vars_at(tokens@, pos as nat);
    let ghost first = trees_of(vars@);
    loop
        invariant
            pos <= end <= tokens.len(),
            whole == vars_at(tokens@, pos as nat),
            forall|i: int| 0 <= i < vars.len() ==> (#[trigger] vars[i]).name() is Some,
            first + whole.0 == trees_of(vars@) + vars_at(tokens@, end as nat).0,
            whole.1 == end - pos + vars_at(tokens@, end as nat).1,
        ensures
            pos <= end <= tokens.len(),
            forall|i: int| 0 <= i < vars.len() ==> (#[trigger] vars[i]).name() is Some,
            first + whole.0 == trees_of(vars@),
            whole.1 == end - pos,
        decreases tokens.len() - end,
    {
        if !is_separator(tokens, end, ",") {
            assert(trees_of(vars@) + Seq::<Tree>::empty() =~= trees_of(vars@));
            break ;
        }
        let next = match ident(tokens, end + 1) {
            Some(next) => next,
            None => {
                assert(trees_of(vars@) + Seq::<Tree>::empty() =~= trees_of(vars@));
                break ;
            },
        };
        proof {
            let rest = vars_at(tokens@, (end + 2) as nat);
            let before = trees_of(vars@);
            assert(trees_of(vars@.push(next)) =~= before.push(next@));
            assert(before.push(next@) + rest.0 =~= before + (seq![next@] + rest.0));
        }
        vars.push(next);
        end = end + 2;
    }
    end
}

fn var_declaration<'a>(tokens: &[Token<'a>], pos: usize) -> (found: (Vec<AstNode<'a>>, usize))
    requires
        pos <= tokens.len(),
    ensures
        pos <= found.1 <= tokens.len(),
        var_decl_at(tokens@, pos as nat) == (trees_of(found.0@), (found.1 - pos) as nat),
        forall|i: int| 0 <= i < found.0.len() ==> (#[trigger] found.0[i]).name() is Some,
{
    let mut vars: Vec<AstNode<'a>> = Vec::new();
    assert(trees_of(vars@) =~= Seq::<Tree>::empty());
    if !is_keyword(tokens, pos, "VAR") {
        return (vars, pos);
    }
    let first = match ident(tokens, pos + 1) {
        Some(first) => first,
        None => {
            return (vars, pos);
        },
    };
    let ghost first_tree = first@;
    vars.push(first);
    assert(trees_of(vars@) =~= seq![first_tree]);
    let end = more_vars(tokens, pos + 2, &mut vars);
    if is_separator(tokens, end, ";") {
        (vars, end + 1)
    } else {
        let none: Vec<AstNode<'a>> = Vec::new();
        assert(trees_of(none@) =~= Seq::<Tree>::empty());
        (none, pos)
    }
}

fn procedure<'a>(tokens: &[Token<'a>], pos: usize) -> (found: Option<(AstNode<'a>, usize)>)
    requires
        pos <= tokens.len(),
    ensures
        reads(found, procedure_at(tokens@, pos as nat), pos, tokens.len()),
        found matches Some((node, _)) ==> node.is_procedure(),
    decreases remaining(tokens@, pos as nat), 9nat,
{
    let name = match ident(tokens, pos) {
        Some(name) => name,
        None => {
            return None;
        },
    };
    if !is_separator(tokens, pos + 1, ";") {
        return None;
    }
    let (body, end) = block(tokens, pos + 2);
    if is_separator(tokens, end, ";") {
        Some((AstNode::Procedure { ident: Box::new(name), block: Box::new(body) }, end + 1))
    } else {
        None
    }
}

/// Reads the procedures from `pos` on.
fn procedures<'a>(tokens: &[Token<'a>], pos: usize) -> (found: (Vec<AstNode<'a>>, usize))
    requires
        pos <= tokens.len(),
    ensures
        pos <= found.1 <= tokens.len(),
        procedures_at(tokens@, pos as nat) == (trees_of(found.0@), (found.1 - pos) as nat),
        forall|i: int| 0 <= i < found.0.len() ==> (#[trigger] found.0[i]).is_procedure(),
    decreases remaining(tokens@, pos as nat), 10nat,
{
    let mut list: Vec<AstNode<'a>> = Vec::new();
    let mut end = pos;
    let ghost whole = procedures_at(tokens@, pos as nat);
    assert(trees_of(list@) =~= Seq::<Tree>::empty());
    assert(Seq::<Tree>::empty() + whole.0 =~= whole.0);
    loop
        invariant
            pos <= end <= tokens.len(),
            whole == procedures_at(tokens@, pos as nat),
            forall|i: int| 0 <= i < list.len() ==> (#[trigger] list[i]).is_procedure(),
            whole.0 == trees_of(list@) + procedures_at(tokens@, end as nat).0,
            whole.1 == end - pos + procedures_at(tokens@, end as nat).1,
        ensures
            pos <= end <= tokens.len(),
            forall|i: int| 0 <= i < list.len() ==> (#[trigger] list[i]).is_procedure(),
            whole.0 == trees_of(list@),
            whole.1 == end - pos,
        decreases tokens.len() - end,
    {
        if !is_keyword(tokens, end, "PROCEDURE") {
            assert(trees_of(list@) + Seq::<Tree>::empty() =~= trees_of(list@));
            break ;
        }
        let (next, after) = match procedure(tokens, end + 1) {
            Some(found) => found,
            None => {
                assert(trees_of(list@) + Seq::<Tree>::empty() =~= trees_of(list@));
                break ;
            },
        };
        proof {
            let rest = procedures_at(tokens@, after as nat);
            let before = trees_of(list@);
            assert(trees_of(list@.push(next)) =~= before.push(next@));
            assert(before.push(next@) + rest.0 =~= before + (seq![next@] + rest.0));
        }
        list.push(next);
        end = after;
    }
    (list, end)
}

fn block<'a>(tokens: &[Token<'a>], pos: usize) -> (found: (AstNode<'a>, usize))
    requires
        pos <= tokens.len(),
    ensures
        pos <= found.1 <= tokens.len(),
        block_at(tokens@, pos as nat) == (found.0@, (found.1 - pos) as nat),
        found.0.is_block(),
    decreases remaining(tokens@, pos as nat), 11nat,
{
    let (const_decl, after_consts) = const_declaration(tokens, pos);
    let (var_decl, after_vars) = var_declaration(tokens, after_consts);
    let (procedures, after_procedures) = procedures(tokens, after_vars);
    let (statement, end) = statement(tokens, after_procedures);
    let node = AstNode::Block { const_decl, var_decl, procedures, statement: Box::new(statement) };
    proof {
        assert(node@->Block_const_decl =~= trees_of(const_decl@));
        assert(node@->Block_var_decl =~= trees_of(var_decl@));
        assert(node@->Block_procedures =~= trees_of(procedures@));
    }
    (node, end)
}

/// Why a list of tokens is no program.
#[derive(Debug, Clone, Copy, PartialEq, Eq)]
pub struct ParseError {
    /// The index of the token that should have been the final `.`: the
    /// grammar could read the tokens before it as a block, and no further.
    pub position: usize,
}

/// Reads a program: a block and the `.` that ends it.
///
/// The result is the tree that the grammar gives the tokens, a block whose
/// parts are each of their kind. Tokens behind the `.` are not read.
pub fn program<'a>(tokens: &[Token<'a>]) -> (result: Result<AstNode<'a>, ParseError>)
    ensures
        match result {
            Ok(ast) => program_of(tokens@) == Ok::<Tree, nat>(ast@) && ast.is_block(),
            Err(e) => program_of(tokens@) == Err::<Tree, nat>(e.position as nat) && e.position
                <= tokens.len(),
        },
{
    let (ast, end) = block(tokens, 0);
    if is_separator(tokens, end, ".") {
        Ok(ast)
    } else {
        Err(ParseError { position: end })
    }
}

} // verus!
