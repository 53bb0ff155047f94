//! Parsing: tokens to statement trees, by recursive descent.
//!
//! ```text
//! program    := statement* EndOfInput
//! statement  := assignment ';'
//! assignment := sum ( '=' assignment )?
//! sum        := product ( ('+' | '-') product )*
//! product    := primary ( ('*' | '/') primary )*
//! primary    := NUMBER | IDENTIFIER | '(' assignment ')'
//! ```
//!
//! Sums and products lean to the left, assignments to the right. Anything may
//! stand to the left of `=`: whether it can be assigned to is found out when
//! code is generated.

use crate::grammar::{is_program, is_statements, lemma_program, lemma_program_is_grammar};
use crate::token::{left, lexemes, Kind, Lexeme, Token, TokenType};
use vstd::prelude::*;

verus! {

/// Why parsing stopped: the text of the token that fits no alternative.
#[derive(Debug, Clone, PartialEq, Eq)]
pub enum ParserError {
    UnexpectedToken(String),
}

impl ParserError {
    /// The text of the token that the error is about, in specifications.
    pub open spec fn text(&self) -> Seq<char> {
        match self {
            ParserError::UnexpectedToken(text) => text@,
        }
    }

    /// The message for the user.
    pub fn to_string(&self) -> (message: String)
        ensures
            message@ == "Unexpected token: "@ + self.text(),
    {
        match self {
            ParserError::UnexpectedToken(text) => "Unexpected token: ".to_owned().concat(
                text.as_str(),
            ),
        }
    }

    /// The text of the token that the error is about.
    pub fn description(&self) -> (text: &str)
        ensures
            text@ == self.text(),
    {
        match self {
            ParserError::UnexpectedToken(text) => text.as_str(),
        }
    }
}

/// The operators that join two expressions.
#[derive(Debug, Clone, Copy, PartialEq, Eq, Hash, Structural)]
pub enum Operator {
    Add,
    Sub,
    Mul,
    Div,
    Assign,
}

/// A statement tree. Each node owns its children.
#[derive(Debug, PartialEq, Eq)]
pub enum Node {
    NumberLiteral(i32),
    VariableRef(String),
    BinaryOp(Operator, Box<Node>, Box<Node>),
    ReturnStatement(Box<Node>),
}

/// A `Node` in specifications.
pub enum Tree {
    Number(i32),
    Variable(Seq<char>),
    Binary(Operator, Box<Tree>, Box<Tree>),
    Return(Box<Tree>),
}

impl View for Node {
    type V = Tree;

    open spec fn view(&self) -> Tree {
        self.tree()
    }
}

impl Clone for Node {
    fn clone(&self) -> (copy: Self)
        ensures
            copy@ == self@,
        decreases self,
    {
        match self {
            Node::NumberLiteral(val) => Node::NumberLiteral(*val),
            Node::VariableRef(name) => Node::VariableRef(name.clone()),
            Node::BinaryOp(op, lhs, rhs) => {
                let lhs: &Node = lhs;
                let rhs: &Node = rhs;
                Node::BinaryOp(*op, Box::new(lhs.clone()), Box::new(rhs.clone()))
            },
            Node::ReturnStatement(expr) => {
                let expr: &Node = expr;
                Node::ReturnStatement(Box::new(expr.clone()))
            },
        }
    }
}

/// The statements of a vector in specifications.
pub open spec fn trees(nodes: Seq<Node>) -> Seq<Tree> {
    Seq::new(nodes.len(), |i: int| nodes[i]@)
}

impl Node {
    /// The node in specifications.
    pub open spec fn tree(&self) -> Tree
        decreases self,
    {
        match self {
            Node::NumberLiteral(val) => Tree::Number(*val),
            Node::VariableRef(name) => Tree::Variable(name@),
            Node::BinaryOp(op, lhs, rhs) => Tree::Binary(
                *op,
                Box::new(lhs.tree()),
                Box::new(rhs.tree()),
            ),
            Node::ReturnStatement(expr) => Tree::Return(Box::new(expr.tree())),
        }
    }

    /// Two expressions joined by an operator.
    pub fn new_node(op: Operator, lhs: Node, rhs: Node) -> (node: Node)
        ensures
            node@ == Tree::Binary(op, Box::new(lhs@), Box::new(rhs@)),
    {
        Node::BinaryOp(op, Box::new(lhs), Box::new(rhs))
    }

    /// A reference to the variable `name`.
    pub fn new_node_ident(name: String) -> (node: Node)
        ensures
            node@ == Tree::Variable(name@),
    {
        Node::VariableRef(name)
    }

    /// The number `val`.
    pub fn new_node_num(val: i32) -> (node: Node)
        ensures
            node@ == Tree::Number(val),
    {
        Node::NumberLiteral(val)
    }
}

/// What reading one construct from a place in the tokens comes to: the tree
/// and the number of tokens it spans, or the number of tokens before the one
/// that fits no alternative.
pub type Parse = Result<(Tree, nat), nat>;

/// `parse`, read `by` tokens further on, as seen from the start.
pub open spec fn shift(parse: Parse, by: nat) -> Parse {
    match parse {
        Ok((tree, n)) => Ok((tree, n + by)),
        Err(at) => Err(at + by),
    }
}

/// The token at `pos` is the symbol `c`.
pub open spec fn symbol_at(ts: Seq<Lexeme>, pos: int, c: char) -> bool {
    0 <= pos < ts.len() && ts[pos].kind == Kind::Symbol(c)
}

/// `primary := NUMBER | IDENTIFIER | '(' assignment ')'`
pub open spec fn primary(ts: Seq<Lexeme>, pos: int) -> Parse
    decreases left(ts.len(), pos), 0nat,
{
    if symbol_at(ts, pos, '(') {
        match assignment(ts, pos + 1) {
            Ok((tree, n)) => if symbol_at(ts, pos + 1 + n, ')') {
                Ok((tree, n + 2))
            } else {
                Err(n + 1)
            },
            Err(at) => Err(at + 1),
        }
    } else if 0 <= pos < ts.len() {
        match ts[pos].kind {
            Kind::Number(val) => Ok((Tree::Number(val), 1)),
            Kind::Identifier(name) => Ok((Tree::Variable(name), 1)),
            _ => Err(0),
        }
    } else {
        Err(0)
    }
}

/// `( ('*' | '/') primary )*`, after the product `acc`.
pub open spec fn product_rest(ts: Seq<Lexeme>, acc: Tree, pos: int) -> Parse
    decreases left(ts.len(), pos), 1nat,
{
    if symbol_at(ts, pos, '*') || symbol_at(ts, pos, '/') {
        let op = if symbol_at(ts, pos, '*') {
            Operator::Mul
        } else {
            Operator::Div
        };
        match primary(ts, pos + 1) {
            Ok((rhs, n)) => shift(
                product_rest(ts, Tree::Binary(op, Box::new(acc), Box::new(rhs)), pos + 1 + n),
                1 + n,
            ),
            Err(at) => Err(at + 1),
        }
    } else {
        Ok((acc, 0))
    }
}

/// `product := primary ( ('*' | '/') primary )*`
pub open spec fn product(ts: Seq<Lexeme>, pos: int) -> Parse
    decreases left(ts.len(), pos), 2nat,
{
    match primary(ts, pos) {
        Ok((first, n)) => shift(product_rest(ts, first, pos + n), n),
        Err(at) => Err(at),
    }
}

/// `( ('+' | '-') product )*`, after the sum `acc`.
pub open spec fn sum_rest(ts: Seq<Lexeme>, acc: Tree, pos: int) -> Parse
    decreases left(ts.len(), pos), 3nat,
{
    if symbol_at(ts, pos, '+') || symbol_at(ts, pos, '-') {
        let op = if symbol_at(ts, pos, '+') {
            Operator::Add
        } else {
            Operator::Sub
        };
        match product(ts, pos + 1) {
            Ok((rhs, n)) => shift(
                sum_rest(ts, Tree::Binary(op, Box::new(acc), Box::new(rhs)), pos + 1 + n),
                1 + n,
            ),
            Err(at) => Err(at + 1),
        }
    } else {
        Ok((acc, 0))
    }
}

/// `sum := product ( ('+' | '-') product )*`
pub open spec fn sum(ts: Seq<Lexeme>, pos: int) -> Parse
    decreases left(ts.len(), pos), 4nat,
{
    match product(ts, pos) {
        Ok((first, n)) => shift(sum_rest(ts, first, pos + n), n),
        Err(at) => Err(at),
    }
}

/// `assignment := sum ( '=' assignment )?`
pub open spec fn assignment(ts: Seq<Lexeme>, pos: int) -> Parse
    decreases left(ts.len(), pos), 5nat,
{
    match sum(ts, pos) {
        Ok((lhs, n)) => if symbol_at(ts, pos + n, '=') {
            match assignment(ts, pos + n + 1) {
                Ok((rhs, m)) => Ok(
                    (Tree::Binary(Operator::Assign, Box::new(lhs), Box::new(rhs)), n + 1 + m),
                ),
                Err(at) => Err(n + 1 + at),
            }
        } else {
            Ok((lhs, n))
        },
        Err(at) => Err(at),
    }
}

/// `statement := assignment ';'`
pub open spec fn statement(ts: Seq<Lexeme>, pos: int) -> Parse {
    match assignment(ts, pos) {
        Ok((tree, n)) => if symbol_at(ts, pos + n, ';') {
            Ok((tree, n + 1))
        } else {
            Err(n)
        },
        Err(at) => Err(at),
    }
}

/// `program := statement* EndOfInput`: the statements from `pos` up to the
/// end of input and the number of tokens they span, or the number of tokens
/// before the one that fits no alternative.
pub open spec fn program(ts: Seq<Lexeme>, pos: int) -> Result<(Seq<Tree>, nat), nat>
    decreases left(ts.len(), pos),
{
    if !(0 <= pos < ts.len()) {
        Err(0)
    } else if ts[pos].kind is EndOfInput {
        Ok((Seq::empty(), 0))
    } else {
        match statement(ts, pos) {
            Ok((tree, n)) => match program(ts, pos + n) {
                Ok((rest, m)) => Ok((seq![tree] + rest, n + m)),
                Err(at) => Err(n + at),
            },
            Err(at) => Err(at),
        }
    }
}

/// A parser over one token sequence, with the place it has come to.
#[derive(Debug)]
pub struct Parser {
    pos: usize,
    tokens: Vec<Token>,
}

impl Parser {
    /// The tokens that are parsed.
    pub closed spec fn tokens(&self) -> Seq<Lexeme> {
        lexemes(self.tokens@)
    }

    /// The number of tokens that have been read.
    pub closed spec fn pos(&self) -> int {
        self.pos as int
    }

    /// The tokens end with the end of input, and the place is on one of them.
    pub closed spec fn wf(&self) -> bool {
        &&& self.pos < self.tokens@.len()
        &&& self.tokens@.last().ty is EndOfInput
    }

    /// Whether what a method returned and where it left the parser is what
    /// the grammar gives from where the parser stood.
    spec fn agrees(
        &self,
        start: int,
        got: Result<Node, ParserError>,
        expected: Parse,
    ) -> bool {
        match expected {
            Ok((tree, n)) => got matches Ok(node) && node@ == tree && self.pos() == start + n,
            Err(at) => got matches Err(ParserError::UnexpectedToken(text)) && self.pos() == start
                + at && text@ == self.tokens()[start + at].text,
        }
    }

    /// A parser at the start of `tokens`.
    pub fn new(tokens: Vec<Token>) -> (parser: Self)
        requires
            tokens@.len() > 0,
            tokens@.last().ty is EndOfInput,
        ensures
            parser.wf(),
            parser.tokens() == lexemes(tokens@),
            parser.pos() == 0,
    {
        Parser { pos: 0, tokens: tokens }
    }

    /// Parses the statements up to the end of input. The parser comes to rest
    /// on the end of input, or on the first token that fits no alternative,
    /// whose text the error holds.
    pub fn program(&mut self) -> (r: Result<Vec<Node>, ParserError>)
        requires
            old(self).wf(),
        ensures
            final(self).wf(),
            final(self).tokens() == old(self).tokens(),
            match program(old(self).tokens(), old(self).pos()) {
                Ok((all, n)) => r matches Ok(code) && trees(code@) == all && final(self).pos()
                    == old(self).pos() + n,
                Err(at) => r matches Err(ParserError::UnexpectedToken(text))
                    && final(self).pos() == old(self).pos() + at && text@
                    == old(self).tokens()[old(self).pos() + at].text,
            },
            r is Ok <==> is_program(old(self).tokens(), old(self).pos()),
            r matches Ok(code) ==> is_statements(
                old(self).tokens(),
                old(self).pos(),
                final(self).pos(),
                trees(code@),
            ) && old(self).tokens()[final(self).pos()].kind is EndOfInput,
    {
        proof {
            lemma_program_is_grammar(self.tokens(), self.pos());
            if program(self.tokens(), self.pos()) is Ok {
                lemma_program(self.tokens(), self.pos());
            }
        }
        let mut code: Vec<Node> = Vec::new();
        let ghost ts = self.tokens();
        let ghost start = self.pos();
        assert(trees(code@) =~= Seq::<Tree>::empty());
        loop
            invariant
                self.wf(),
                self.tokens() == ts,
                ts == old(self).tokens(),
                start == old(self).pos(),
                start <= self.pos(),
                program(ts, start) is Ok <==> is_program(ts, start),
                program(ts, start) == (match program(ts, self.pos()) {
                    Ok((rest, m)) => Ok((trees(code@) + rest, (self.pos() - start + m) as nat)),
                    Err(at) => Err((self.pos() - start + at) as nat),
                }),
            ensures
                self.wf(),
                self.tokens() == ts,
                program(ts, start) == Ok::<(Seq<Tree>, nat), nat>(
                    (trees(code@), (self.pos() - start) as nat),
                ),
            decreases ts.len() - self.pos(),
        {
            if let TokenType::EndOfInput = self.tokens[self.pos].ty {
                assert(trees(code@) + Seq::<Tree>::empty() =~= trees(code@));
                break ;
            }
            let ghost before = trees(code@);
            let ghost at = self.pos();
            let node = self.stmt()?;
            code.push(node);
            proof {
                assert(trees(code@) =~= before.push(node@));
                if let Ok((rest, m)) = program(ts, self.pos()) {
                    assert(before + (seq![node@] + rest) =~= trees(code@) + rest);
                }
            }
        }
        Ok(code)
    }

    /// `statement := assignment ';'`
    fn stmt(&mut self) -> (r: Result<Node, ParserError>)
        requires
            old(self).wf(),
        ensures
            final(self).wf(),
            final(self).tokens() == old(self).tokens(),
            final(self).agrees(old(self).pos(), r, statement(old(self).tokens(), old(self).pos())),
    {
        let node = self.assign()?;
        if !self.consume(';') {
            let message = self.tokens[self.pos].input.clone();
            return Err(ParserError::UnexpectedToken(message));
        }
        Ok(node)
    }

    /// `assignment := sum ( '=' assignment )?`
    fn assign(&mut self) -> (r: Result<Node, ParserError>)
        requires
            old(self).wf(),
        ensures
            final(self).wf(),
            final(self).tokens() == old(self).tokens(),
            final(self).agrees(old(self).pos(), r, assignment(old(self).tokens(), old(self).pos())),
        decreases left(old(self).tokens().len(), old(self).pos()), 5nat,
    {
        let mut node = self.add()?;
        if self.consume('=') {
            let rhs = self.assign()?;
            node = Node::new_node(Operator::Assign, node, rhs);
        }
        Ok(node)
    }

    /// `sum := product ( ('+' | '-') product )*`
    fn add(&mut self) -> (r: Result<Node, ParserError>)
        requires
            old(self).wf(),
        ensures
            final(self).wf(),
            final(self).tokens() == old(self).tokens(),
            final(self).agrees(old(self).pos(), r, sum(old(self).tokens(), old(self).pos())),
        decreases left(old(self).tokens().len(), old(self).pos()), 4nat,
    {
        let ghost ts = self.tokens();
        let ghost start = self.pos();
        let mut node = self.mul()?;

        loop
            invariant
                self.wf(),
                self.tokens() == ts,
                ts == old(self).tokens(),
                start == old(self).pos(),
                start <= self.pos(),
                sum(ts, start) == shift(
                    sum_rest(ts, node@, self.pos()),
                    (self.pos() - start) as nat,
                ),
            decreases ts.len() - self.pos(),
        {
            if self.consume('+') {
                let rhs = self.mul()?;
                node = Node::new_node(Operator::Add, node, rhs);
            } else if self.consume('-') {
                let rhs = self.mul()?;
                node = Node::new_node(Operator::Sub, node, rhs);
            } else {
                return Ok(node);
            }
        }
    }

    /// `product := primary ( ('*' | '/') primary )*`
    fn mul(&mut self) -> (r: Result<Node, ParserError>)
        requires
            old(self).wf(),
        ensures
            final(self).wf(),
            final(self).tokens() == old(self).tokens(),
            final(self).agrees(old(self).pos(), r, product(old(self).tokens(), old(self).pos())),
        decreases left(old(self).tokens().len(), old(self).pos()), 2nat,
    {
        let ghost ts = self.tokens();
        let ghost start = self.pos();
        let mut node = self.term()?;

        loop
            invariant
                self.wf(),
                self.tokens() == ts,
                ts == old(self).tokens(),
                start == old(self).pos(),
                start <= self.pos(),
                product(ts, start) == shift(
                    product_rest(ts, node@, self.pos()),
                    (self.pos() - start) as nat,
                ),
            decreases ts.len() - self.pos(),
        {
            if self.consume('*') {
                let rhs = self.term()?;
                node = Node::new_node(Operator::Mul, node, rhs);
            } else if self.consume('/') {
                let rhs = self.term()?;
                node = Node::new_node(Operator::Div, node, rhs);
            } else {
                return Ok(node);
            }
        }
    }

    /// `primary := NUMBER | IDENTIFIER | '(' assignment ')'`
    fn term(&mut self) -> (r: Result<Node, ParserError>)
        requires
            old(self).wf(),
        ensures
            final(self).wf(),
            final(self).tokens() == old(self).tokens(),
            final(self).agrees(old(self).pos(), r, primary(old(self).tokens(), old(self).pos())),
        decreases left(old(self).tokens().len(), old(self).pos()), 0nat,
    {
        if self.consume('(') {
            let node = self.assign()?;
            if !self.consume(')') {
                let message = self.tokens[self.pos].input.clone();
                return Err(ParserError::UnexpectedToken(message));
            }
            return Ok(node);
        }
        if let TokenType::Number(val) = self.tokens[self.pos].ty {
            assert(self.tokens@.len() == self.tokens.len());
            self.pos += 1;
            return Ok(Node::new_node_num(val));
        }
        if let TokenType::Identifier(name) = &self.tokens[self.pos].ty {
            let name = name.clone();
            assert(self.tokens@.len() == self.tokens.len());
            self.pos += 1;
            return Ok(Node::new_node_ident(name));
        }
        let message = self.tokens[self.pos].input.clone();
        Err(ParserError::UnexpectedToken(message))
    }

    /// Steps over the token at which the parser stands if it is the symbol `sym`.
    fn consume(&mut self, sym: char) -> (taken: bool)
        requires
            old(self).wf(),
        ensures
            final(self).wf(),
            final(self).tokens() == old(self).tokens(),
            taken == symbol_at(old(self).tokens(), old(self).pos(), sym),
            final(self).pos() == old(self).pos() + if taken {
                1int
            } else {
                0int
            },
    {
        match self.tokens[self.pos].ty {
            TokenType::Symbol(c) => {
                if c != sym {
                    return false;
                }
            },
            _ => {
                return false;
            },
        }
        assert(self.tokens@.len() == self.tokens.len());
        self.pos += 1;
        true
    }
}

} // verus!
