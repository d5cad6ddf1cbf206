//! The syntax tree of a program: one tagged variant per syntactic form.
//!
//! A node owns its children; the tree has no sharing and no cycles. The
//! predicates at the end of this file say which trees the grammar can
//! produce: the evaluator accepts any tree and reports the others as
//! `InvariantViolation`.

use vstd::prelude::*;

verus! {

/// The sign in front of a term of a sum.
#[derive(Debug, Clone, Copy, PartialEq, Eq)]
pub enum Sign {
    Plus,
    Minus,
}

/// The operator in front of a factor of a product.
#[derive(Debug, Clone, Copy, PartialEq, Eq)]
pub enum BiOp {
    Mul,
    Div,
}

/// A relational operator: `=`, `#`, `<`, `<=`, `>`, `>=`.
#[derive(Debug, Clone, Copy, PartialEq, Eq)]
pub enum ExOp {
    Equal,
    NumberSign,
    LessThan,
    LessThanOrEqual,
    GreaterThan,
    GreaterThanOrEqual,
}

/// A node of the syntax tree.
///
/// `Ident` serves both as a reference (in expressions and calls) and as a
/// declaration site (in constant, variable and procedure headers); what it
/// means is decided by the node that holds it.
#[derive(Debug, PartialEq, Eq)]
pub enum AstNode<'a> {
    /// A literal.
    Number(i32),
    /// A name.
    Ident(&'a str),
    /// A wrapper around a number, a name or a parenthesised expression.
    Factor(Box<AstNode<'a>>),
    /// A product: `factors[0] ops[0] factors[1] ops[1] ...`.
    Term { factors: Vec<AstNode<'a>>, ops: Vec<BiOp> },
    /// A sum. With as many signs as terms, `signs[i]` stands in front of
    /// `terms[i]`; with one sign less, the first term has no sign and
    /// `signs[i]` stands in front of `terms[i + 1]`.
    Expression { terms: Vec<AstNode<'a>>, signs: Vec<Sign> },
    /// A comparison of two expressions.
    ComposedExpression { ex1: Box<AstNode<'a>>, op: ExOp, ex2: Box<AstNode<'a>> },
    /// The test `ODD expression`.
    Odd(Box<AstNode<'a>>),
    /// `BEGIN statement; ...; statement END`.
    BeginEnd(Vec<AstNode<'a>>),
    /// `IF condition THEN statement`.
    IfThen { condition: Box<AstNode<'a>>, statement: Box<AstNode<'a>> },
    /// `WHILE condition DO statement`.
    WhileDo { condition: Box<AstNode<'a>>, statement: Box<AstNode<'a>> },
    /// `ident := expression`.
    Assignment { ident: Box<AstNode<'a>>, expression: Box<AstNode<'a>> },
    /// `CALL ident`.
    Call(Box<AstNode<'a>>),
    /// `? ident`: read a number into a variable.
    QuestionMark(Box<AstNode<'a>>),
    /// `! expression`: write a number.
    ExclaimationMark(Box<AstNode<'a>>),
    /// `ident = number` in a constant declaration.
    Const { ident: Box<AstNode<'a>>, value: Box<AstNode<'a>> },
    /// `PROCEDURE ident; block;`.
    Procedure { ident: Box<AstNode<'a>>, block: Box<AstNode<'a>> },
    /// Declarations followed by one statement.
    Block {
        const_decl: Vec<AstNode<'a>>,
        var_decl: Vec<AstNode<'a>>,
        procedures: Vec<AstNode<'a>>,
        statement: Box<AstNode<'a>>,
    },
}

impl<'a> AstNode<'a> {
    /// The name that an `Ident` node holds.
    pub open spec fn name(self) -> Option<Seq<char>> {
        match self {
            AstNode::Ident(name) => Some(name@),
            _ => None,
        }
    }

    /// The node is an arithmetic expression of the grammar: a number, a name,
    /// a factor, or a product or sum whose operators and operands agree in
    /// number.
    pub open spec fn is_expression(self) -> bool
        decreases self,
    {
        match self {
            AstNode::Number(_) => true,
            AstNode::Ident(_) => true,
            AstNode::Factor(inner) => inner.is_expression(),
            AstNode::Term { factors, ops } => {
                &&& ops.len() + 1 == factors.len()
                &&& forall|i: int| 0 <= i < factors.len() ==> (#[trigger] factors[i]).is_expression()
            },
            AstNode::Expression { terms, signs } => {
                &&& terms.len() >= 1
                &&& signs.len() == terms.len() || signs.len() + 1 == terms.len()
                &&& forall|i: int| 0 <= i < terms.len() ==> (#[trigger] terms[i]).is_expression()
            },
            _ => false,
        }
    }

    /// The node is a condition of the grammar: an odd-test or a comparison,
    /// over expressions.
    pub open spec fn is_condition(self) -> bool {
        match self {
            AstNode::Odd(ex) => ex.is_expression(),
            AstNode::ComposedExpression { ex1, op, ex2 } => ex1.is_expression()
                && ex2.is_expression(),
            _ => false,
        }
    }

    /// The node is a statement of the grammar. The empty statement is
    /// written as a number.
    pub open spec fn is_statement(self) -> bool
        decreases self,
    {
        match self {
            AstNode::Number(_) => true,
            AstNode::Assignment { ident, expression } => ident.name() is Some
                && expression.is_expression(),
            AstNode::Call(ident) => ident.name() is Some,
            AstNode::QuestionMark(ident) => ident.name() is Some,
            AstNode::ExclaimationMark(expression) => expression.is_expression(),
            AstNode::BeginEnd(statements) => {
                &&& statements.len() >= 1
                &&& forall|i: int|
                    0 <= i < statements.len() ==> (#[trigger] statements[i]).is_statement()
            },
            AstNode::IfThen { condition, statement } => condition.is_condition()
                && statement.is_statement(),
            AstNode::WhileDo { condition, statement } => condition.is_condition()
                && statement.is_statement(),
            _ => false,
        }
    }

    /// The node is a constant declaration: a name and a literal.
    pub open spec fn is_const(self) -> bool {
        match self {
            AstNode::Const { ident, value } => ident.name() is Some && *value is Number,
            _ => false,
        }
    }

    /// The node is a block of the grammar: constant declarations, variable
    /// names and procedures, each of its kind, and one statement.
    pub open spec fn is_block(self) -> bool
        decreases self,
    {
        match self {
            AstNode::Block { const_decl, var_decl, procedures, statement } => {
                &&& forall|i: int| 0 <= i < const_decl.len() ==> (#[trigger] const_decl[i]).is_const()
                &&& forall|i: int| 0 <= i < var_decl.len() ==> (#[trigger] var_decl[i]).name() is Some
                &&& forall|i: int|
                    0 <= i < procedures.len() ==> (#[trigger] procedures[i]).is_procedure()
                &&& statement.is_statement()
            },
            _ => false,
        }
    }

    /// The node is a procedure: a name and a block.
    pub open spec fn is_procedure(self) -> bool
        decreases self,
    {
        match self {
            AstNode::Procedure { ident, block } => ident.name() is Some && block.is_block(),
            _ => false,
        }
    }
}

/// What a node says, apart from how it is stored: the value that contracts
/// on whole trees speak of.
pub enum Tree {
    Number(i32),
    Ident(Seq<char>),
    Factor(Box<Tree>),
    Term { factors: Seq<Tree>, ops: Seq<BiOp> },
    Expression { terms: Seq<Tree>, signs: Seq<Sign> },
    ComposedExpression { ex1: Box<Tree>, op: ExOp, ex2: Box<Tree> },
    Odd(Box<Tree>),
    BeginEnd(Seq<Tree>),
    IfThen { condition: Box<Tree>, statement: Box<Tree> },
    WhileDo { condition: Box<Tree>, statement: Box<Tree> },
    Assignment { ident: Box<Tree>, expression: Box<Tree> },
    Call(Box<Tree>),
    QuestionMark(Box<Tree>),
    ExclaimationMark(Box<Tree>),
    Const { ident: Box<Tree>, value: Box<Tree> },
    Procedure { ident: Box<Tree>, block: Box<Tree> },
    Block { const_decl: Seq<Tree>, var_decl: Seq<Tree>, procedures: Seq<Tree>, statement: Box<Tree> },
}

/// The trees of a list of nodes.
pub open spec fn trees_of(nodes: Seq<AstNode>) -> Seq<Tree> {
    Seq::new(nodes.len(), |i: int| nodes[i].tree())
}

impl<'a> View for AstNode<'a> {
    type V = Tree;

    open spec fn view(&self) -> Tree {
        self.tree()
    }
}

impl<'a> AstNode<'a> {
    /// What the node says: its view.
    pub open spec fn tree(self) -> Tree
        decreases self,
    {
        match self {
            AstNode::Number(n) => Tree::Number(n),
            AstNode::Ident(name) => Tree::Ident(name@),
            AstNode::Factor(inner) => Tree::Factor(Box::new(inner.tree())),
            AstNode::Term { factors, ops } => Tree::Term {
                factors: Seq::new(
                    factors.len() as nat,
                    |i: int|
                        if 0 <= i < factors.len() {
                            factors[i].tree()
                        } else {
                            arbitrary()
                        },
                ),
                ops: ops@,
            },
            AstNode::Expression { terms, signs } => Tree::Expression {
                terms: Seq::new(
                    terms.len() as nat,
                    |i: int|
                        if 0 <= i < terms.len() {
                            terms[i].tree()
                        } else {
                            arbitrary()
                        },
                ),
                signs: signs@,
            },
            AstNode::ComposedExpression { ex1, op, ex2 } => Tree::ComposedExpression {
                ex1: Box::new(ex1.tree()),
                op,
                ex2: Box::new(ex2.tree()),
            },
            AstNode::Odd(ex) => Tree::Odd(Box::new(ex.tree())),
            AstNode::BeginEnd(statements) => Tree::BeginEnd(
                Seq::new(
                    statements.len() as nat,
                    |i: int|
                        if 0 <= i < statements.len() {
                            statements[i].tree()
                        } else {
                            arbitrary()
                        },
                ),
            ),
            AstNode::IfThen { condition, statement } => Tree::IfThen {
                condition: Box::new(condition.tree()),
                statement: Box::new(statement.tree()),
            },
            AstNode::WhileDo { condition, statement } => Tree::WhileDo {
                condition: Box::new(condition.tree()),
                statement: Box::new(statement.tree()),
            },
            AstNode::Assignment { ident, expression } => Tree::Assignment {
                ident: Box::new(ident.tree()),
                expression: Box::new(expression.tree()),
            },
            AstNode::Call(ident) => Tree::Call(Box::new(ident.tree())),
            AstNode::QuestionMark(ident) => Tree::QuestionMark(Box::new(ident.tree())),
            AstNode::ExclaimationMark(expression) => Tree::ExclaimationMark(
                Box::new(expression.tree()),
            ),
            AstNode::Const { ident, value } => Tree::Const {
                ident: Box::new(ident.tree()),
                value: Box::new(value.tree()),
            },
            AstNode::Procedure { ident, block } => Tree::Procedure {
                ident: Box::new(ident.tree()),
                block: Box::new(block.tree()),
            },
            AstNode::Block { const_decl, var_decl, procedures, statement } => Tree::Block {
                const_decl: Seq::new(
                    const_decl.len() as nat,
                    |i: int|
                        if 0 <= i < const_decl.len() {
                            const_decl[i].tree()
                        } else {
                            arbitrary()
                        },
                ),
                var_decl: Seq::new(
                    var_decl.len() as nat,
                    |i: int|
                        if 0 <= i < var_decl.len() {
                            var_decl[i].tree()
                        } else {
                            arbitrary()
                        },
                ),
                procedures: Seq::new(
                    procedures.len() as nat,
                    |i: int|
                        if 0 <= i < procedures.len() {
                            procedures[i].tree()
                        } else {
                            arbitrary()
                        },
                ),
                statement: Box::new(statement.tree()),
            },
        }
    }
}

} // verus!
