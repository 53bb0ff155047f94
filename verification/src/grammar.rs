//! The grammar as a relation between tokens and trees, and what holds
//! between it and the functions that read the tokens.
//!
//! The relation says which stretch of tokens stands for which tree. The
//! functions of `parse` read what the relation allows and nothing else, the
//! tree that they give is the only one, and the token at which they stop is
//! the first after which no program of the grammar can follow.

use crate::parse::{
    assignment, primary, product, product_rest, program, shift, statement, sum, sum_rest,
    symbol_at, Operator, Parse, Tree,
};
use crate::token::{left, Kind, Lexeme};
use vstd::prelude::*;

verus! {

/// The symbol that stands for an operator.
pub open spec fn symbol_of(op: Operator) -> char {
    match op {
        Operator::Add => '+',
        Operator::Sub => '-',
        Operator::Mul => '*',
        Operator::Div => '/',
        Operator::Assign => '=',
    }
}

/// The tokens from `from` up to `to` are a primary that stands for `tree`:
/// one number, one identifier, or an assignment in parentheses.
pub open spec fn is_primary(ts: Seq<Lexeme>, from: int, to: int, tree: Tree) -> bool
    decreases tree, to - from, 0nat,
{
    ||| to == from + 1 && 0 <= from < ts.len() && (match tree {
        Tree::Number(val) => ts[from].kind == Kind::Number(val),
        Tree::Variable(name) => ts[from].kind == Kind::Identifier(name),
        _ => false,
    })
    ||| from + 2 <= to && symbol_at(ts, from, '(') && symbol_at(ts, to - 1, ')') && is_assignment(
        ts,
        from + 1,
        to - 1,
        tree,
    )
}

/// The tokens from `from` up to `to` are a product that stands for `tree`:
/// a primary, or a product, `*` or `/`, and a primary.
pub open spec fn is_product(ts: Seq<Lexeme>, from: int, to: int, tree: Tree) -> bool
    decreases tree, to - from, 1nat,
{
    ||| is_primary(ts, from, to, tree)
    ||| tree matches Tree::Binary(op, lhs, rhs) && (op == Operator::Mul || op == Operator::Div)
        && exists|mid: int|
        from <= mid < to && is_product(ts, from, mid, *lhs) && #[trigger] symbol_at(
            ts,
            mid,
            symbol_of(op),
        ) && is_primary(ts, mid + 1, to, *rhs)
}

/// The tokens from `from` up to `to` are a sum that stands for `tree`: a
/// product, or a sum, `+` or `-`, and a product.
pub open spec fn is_sum(ts: Seq<Lexeme>, from: int, to: int, tree: Tree) -> bool
    decreases tree, to - from, 2nat,
{
    ||| is_product(ts, from, to, tree)
    ||| tree matches Tree::Binary(op, lhs, rhs) && (op == Operator::Add || op == Operator::Sub)
        && exists|mid: int|
        from <= mid < to && is_sum(ts, from, mid, *lhs) && #[trigger] symbol_at(
            ts,
            mid,
            symbol_of(op),
        ) && is_product(ts, mid + 1, to, *rhs)
}

/// The tokens from `from` up to `to` are an assignment that stands for
/// `tree`: a sum, or a sum, `=`, and an assignment.
pub open spec fn is_assignment(ts: Seq<Lexeme>, from: int, to: int, tree: Tree) -> bool
    decreases tree, to - from, 3nat,
{
    ||| is_sum(ts, from, to, tree)
    ||| tree matches Tree::Binary(Operator::Assign, lhs, rhs) && exists|mid: int|
        from <= mid < to && is_sum(ts, from, mid, *lhs) && #[trigger] symbol_at(ts, mid, '=')
            && is_assignment(ts, mid + 1, to, *rhs)
}

/// The tokens from `from` up to `to` are a statement that stands for `tree`:
/// an assignment and `;`.
pub open spec fn is_statement(ts: Seq<Lexeme>, from: int, to: int, tree: Tree) -> bool {
    from < to && is_assignment(ts, from, to - 1, tree) && symbol_at(ts, to - 1, ';')
}

/// The tokens from `from` up to `to` are the statements `all`, one after the
/// other, of which none starts with the end of input.
pub open spec fn is_statements(ts: Seq<Lexeme>, from: int, to: int, all: Seq<Tree>) -> bool
    decreases all.len(),
{
    if all.len() == 0 {
        from == to
    } else {
        exists|mid: int|
            from < mid <= to && #[trigger] is_statement(ts, from, mid, all[0]) && is_statements(
                ts,
                mid,
                to,
                all.drop_first(),
            )
    }
}

/// What `primary` reads is a primary of the grammar, and lies inside the tokens.
proof fn lemma_primary(ts: Seq<Lexeme>, pos: int)
    requires
        primary(ts, pos) is Ok,
    ensures
        0 <= pos,
        primary(ts, pos)->Ok_0.1 >= 1,
        pos + primary(ts, pos)->Ok_0.1 <= ts.len(),
        is_primary(ts, pos, pos + primary(ts, pos)->Ok_0.1, primary(ts, pos)->Ok_0.0),
    decreases left(ts.len(), pos), 0nat,
{
    if symbol_at(ts, pos, '(') {
        lemma_assignment(ts, pos + 1);
    }
}

/// What `product_rest` reads after a product is a product of the grammar.
proof fn lemma_product_rest(ts: Seq<Lexeme>, start: int, acc: Tree, pos: int)
    requires
        0 <= start <= pos <= ts.len(),
        is_product(ts, start, pos, acc),
        product_rest(ts, acc, pos) is Ok,
    ensures
        pos + product_rest(ts, acc, pos)->Ok_0.1 <= ts.len(),
        is_product(
            ts,
            start,
            pos + product_rest(ts, acc, pos)->Ok_0.1,
            product_rest(ts, acc, pos)->Ok_0.0,
        ),
    decreases left(ts.len(), pos), 1nat,
{
    if symbol_at(ts, pos, '*') || symbol_at(ts, pos, '/') {
        let op = if symbol_at(ts, pos, '*') {
            Operator::Mul
        } else {
            Operator::Div
        };
        lemma_primary(ts, pos + 1);
        let (rhs, n) = primary(ts, pos + 1)->Ok_0;
        let more = Tree::Binary(op, Box::new(acc), Box::new(rhs));
        assert(symbol_at(ts, pos, symbol_of(op)));
        assert(is_product(ts, start, pos + 1 + n, more));
        lemma_product_rest(ts, start, more, pos + 1 + n);
    }
}

/// What `product` reads is a product of the grammar.
proof fn lemma_product(ts: Seq<Lexeme>, pos: int)
    requires
        product(ts, pos) is Ok,
    ensures
        0 <= pos,
        product(ts, pos)->Ok_0.1 >= 1,
        pos + product(ts, pos)->Ok_0.1 <= ts.len(),
        is_product(ts, pos, pos + product(ts, pos)->Ok_0.1, product(ts, pos)->Ok_0.0),
    decreases left(ts.len(), pos), 2nat,
{
    lemma_primary(ts, pos);
    let (first, n) = primary(ts, pos)->Ok_0;
    lemma_product_rest(ts, pos, first, pos + n);
}

/// What `sum_rest` reads after a sum is a sum of the grammar.
proof fn lemma_sum_rest(ts: Seq<Lexeme>, start: int, acc: Tree, pos: int)
    requires
        0 <= start <= pos <= ts.len(),
        is_sum(ts, start, pos, acc),
        sum_rest(ts, acc, pos) is Ok,
    ensures
        pos + sum_rest(ts, acc, pos)->Ok_0.1 <= ts.len(),
        is_sum(ts, start, pos + sum_rest(ts, acc, pos)->Ok_0.1, sum_rest(ts, acc, pos)->Ok_0.0),
    decreases left(ts.len(), pos), 3nat,
{
    if symbol_at(ts, pos, '+') || symbol_at(ts, pos, '-') {
        let op = if symbol_at(ts, pos, '+') {
            Operator::Add
        } else {
            Operator::Sub
        };
        lemma_product(ts, pos + 1);
        let (rhs, n) = product(ts, pos + 1)->Ok_0;
        let more = Tree::Binary(op, Box::new(acc), Box::new(rhs));
        assert(symbol_at(ts, pos, symbol_of(op)));
        assert(is_sum(ts, start, pos + 1 + n, more));
        lemma_sum_rest(ts, start, more, pos + 1 + n);
    }
}

/// What `sum` reads is a sum of the grammar.
proof fn lemma_sum(ts: Seq<Lexeme>, pos: int)
    requires
        sum(ts, pos) is Ok,
    ensures
        0 <= pos,
        sum(ts, pos)->Ok_0.1 >= 1,
        pos + sum(ts, pos)->Ok_0.1 <= ts.len(),
        is_sum(ts, pos, pos + sum(ts, pos)->Ok_0.1, sum(ts, pos)->Ok_0.0),
    decreases left(ts.len(), pos), 4nat,
{
    lemma_product(ts, pos);
    let (first, n) = product(ts, pos)->Ok_0;
    lemma_sum_rest(ts, pos, first, pos + n);
}

/// What `assignment` reads is an assignment of the grammar.
pub proof fn lemma_assignment(ts: Seq<Lexeme>, pos: int)
    requires
        assignment(ts, pos) is Ok,
    ensures
        0 <= pos,
        assignment(ts, pos)->Ok_0.1 >= 1,
        pos + assignment(ts, pos)->Ok_0.1 <= ts.len(),
        is_assignment(ts, pos, pos + assignment(ts, pos)->Ok_0.1, assignment(ts, pos)->Ok_0.0),
    decreases left(ts.len(), pos), 5nat,
{
    lemma_sum(ts, pos);
    let (lhs, n) = sum(ts, pos)->Ok_0;
    if symbol_at(ts, pos + n, '=') {
        lemma_assignment(ts, pos + n + 1);
        let (rhs, m) = assignment(ts, pos + n + 1)->Ok_0;
        assert(is_sum(ts, pos, pos + n, lhs) && symbol_at(ts, pos + n, '=') && is_assignment(
            ts,
            pos + n + 1,
            pos + n + 1 + m,
            rhs,
        ));
    }
}

/// What `program` reads are statements of the grammar, one after the other,
/// up to an end of input.
pub proof fn lemma_program(ts: Seq<Lexeme>, pos: int)
    requires
        program(ts, pos) is Ok,
    ensures
        0 <= pos,
        pos + program(ts, pos)->Ok_0.1 < ts.len(),
        ts[pos + program(ts, pos)->Ok_0.1].kind is EndOfInput,
        is_statements(ts, pos, pos + program(ts, pos)->Ok_0.1, program(ts, pos)->Ok_0.0),
    decreases left(ts.len(), pos),
{
    if !(ts[pos].kind is EndOfInput) {
        lemma_assignment(ts, pos);
        let (tree, n) = statement(ts, pos)->Ok_0;
        lemma_program(ts, pos + n);
        let (rest, m) = program(ts, pos + n)->Ok_0;
        let all = seq![tree] + rest;
        assert(all[0] == tree);
        assert(all.drop_first() =~= rest);
        assert(is_statement(ts, pos, pos + n, all[0]));
    }
}

/// No operator stands at `pos`.
pub open spec fn no_operator_at(ts: Seq<Lexeme>, pos: int) -> bool {
    &&& !symbol_at(ts, pos, '*')
    &&& !symbol_at(ts, pos, '/')
    &&& !symbol_at(ts, pos, '+')
    &&& !symbol_at(ts, pos, '-')
    &&& !symbol_at(ts, pos, '=')
}

/// A primary of the grammar is what `primary` reads.
proof fn lemma_primary_complete(ts: Seq<Lexeme>, from: int, to: int, tree: Tree)
    requires
        is_primary(ts, from, to, tree),
    ensures
        0 <= from < to <= ts.len(),
        primary(ts, from) == Ok::<(Tree, nat), nat>((tree, (to - from) as nat)),
    decreases tree, to - from, 0nat,
{
    if from + 2 <= to && symbol_at(ts, from, '(') && symbol_at(ts, to - 1, ')') && is_assignment(
        ts,
        from + 1,
        to - 1,
        tree,
    ) {
        lemma_assignment_complete(ts, from + 1, to - 1, tree);
    }
}

/// Reading a product of the grammar comes to where that product has been
/// read and what follows it is still to be read.
proof fn lemma_product_reaches(ts: Seq<Lexeme>, from: int, to: int, tree: Tree)
    requires
        is_product(ts, from, to, tree),
    ensures
        0 <= from < to <= ts.len(),
        product(ts, from) == shift(product_rest(ts, tree, to), (to - from) as nat),
    decreases tree, to - from, 1nat,
{
    if is_primary(ts, from, to, tree) {
        lemma_primary_complete(ts, from, to, tree);
    } else {
        if let Tree::Binary(op, lhs, rhs) = tree {
            let mid = choose|mid: int|
                from <= mid < to && is_product(ts, from, mid, *lhs) && #[trigger] symbol_at(
                    ts,
                    mid,
                    symbol_of(op),
                ) && is_primary(ts, mid + 1, to, *rhs);
            lemma_product_reaches(ts, from, mid, *lhs);
            lemma_primary_complete(ts, mid + 1, to, *rhs);
            assert(product_rest(ts, *lhs, mid) == shift(
                product_rest(ts, tree, to),
                (to - mid) as nat,
            ));
        }
    }
}

/// Reading a sum of the grammar comes to where that sum has been read and
/// what follows it is still to be read.
proof fn lemma_sum_reaches(ts: Seq<Lexeme>, from: int, to: int, tree: Tree)
    requires
        is_sum(ts, from, to, tree),
        !symbol_at(ts, to, '*'),
        !symbol_at(ts, to, '/'),
    ensures
        0 <= from < to <= ts.len(),
        sum(ts, from) == shift(sum_rest(ts, tree, to), (to - from) as nat),
    decreases tree, to - from, 2nat,
{
    if is_product(ts, from, to, tree) {
        lemma_product_reaches(ts, from, to, tree);
    } else {
        if let Tree::Binary(op, lhs, rhs) = tree {
            let mid = choose|mid: int|
                from <= mid < to && is_sum(ts, from, mid, *lhs) && #[trigger] symbol_at(
                    ts,
                    mid,
                    symbol_of(op),
                ) && is_product(ts, mid + 1, to, *rhs);
            lemma_sum_reaches(ts, from, mid, *lhs);
            lemma_product_reaches(ts, mid + 1, to, *rhs);
            assert(sum_rest(ts, *lhs, mid) == shift(sum_rest(ts, tree, to), (to - mid) as nat));
        }
    }
}

/// An assignment of the grammar that no operator follows is what
/// `assignment` reads.
pub proof fn lemma_assignment_complete(ts: Seq<Lexeme>, from: int, to: int, tree: Tree)
    requires
        is_assignment(ts, from, to, tree),
        no_operator_at(ts, to),
    ensures
        0 <= from < to <= ts.len(),
        assignment(ts, from) == Ok::<(Tree, nat), nat>((tree, (to - from) as nat)),
    decreases tree, to - from, 3nat,
{
    if is_sum(ts, from, to, tree) {
        lemma_sum_reaches(ts, from, to, tree);
    } else {
        if let Tree::Binary(op, lhs, rhs) = tree {
            let mid = choose|mid: int|
                from <= mid < to && is_sum(ts, from, mid, *lhs) && #[trigger] symbol_at(
                    ts,
                    mid,
                    '=',
                ) && is_assignment(ts, mid + 1, to, *rhs);
            lemma_sum_reaches(ts, from, mid, *lhs);
            lemma_assignment_complete(ts, mid + 1, to, *rhs);
        }
    }
}

/// What can be read as an assignment starts with no end of input.
proof fn lemma_first_token(ts: Seq<Lexeme>, pos: int)
    requires
        assignment(ts, pos) is Ok,
    ensures
        0 <= pos < ts.len(),
        !(ts[pos].kind is EndOfInput),
{
    assert(sum(ts, pos) is Ok);
    assert(product(ts, pos) is Ok);
    assert(primary(ts, pos) is Ok);
}

/// Statements of the grammar that an end of input follows are what `program`
/// reads.
pub proof fn lemma_program_complete(ts: Seq<Lexeme>, from: int, to: int, all: Seq<Tree>)
    requires
        0 <= from,
        is_statements(ts, from, to, all),
        0 <= to < ts.len(),
        ts[to].kind is EndOfInput,
    ensures
        from <= to,
        program(ts, from) == Ok::<(Seq<Tree>, nat), nat>((all, (to - from) as nat)),
    decreases all.len(),
{
    if all.len() == 0 {
        assert(all =~= Seq::<Tree>::empty());
    } else {
        let mid = choose|mid: int|
            from < mid <= to && #[trigger] is_statement(ts, from, mid, all[0]) && is_statements(
                ts,
                mid,
                to,
                all.drop_first(),
            );
        lemma_assignment_complete(ts, from, mid - 1, all[0]);
        lemma_first_token(ts, from);
        lemma_program_complete(ts, mid, to, all.drop_first());
        assert(seq![all[0]] + all.drop_first() =~= all);
    }
}

/// Two token sequences hold tokens of the same kinds up to and with `upto`.
pub open spec fn same_upto(ts: Seq<Lexeme>, other: Seq<Lexeme>, upto: int) -> bool {
    forall|i: int|
        0 <= i <= upto ==> (i < ts.len() <==> i < other.len()) && (i < ts.len() ==> (
        #[trigger] ts[i]).kind == other[i].kind)
}

/// `parse` is what comes of reading from `pos` in `other` too, where `other`
/// holds the same kinds of tokens as far as the reading looked.
pub open spec fn same_parse(ts: Seq<Lexeme>, other: Seq<Lexeme>, pos: int, parse: Parse) -> bool {
    match parse {
        Ok((_, n)) => same_upto(ts, other, pos + n),
        Err(at) => same_upto(ts, other, pos + at),
    }
}

/// Whether a symbol stands at a place is the same in two sequences that
/// hold the same kinds of tokens up to there.
proof fn lemma_same_symbol(ts: Seq<Lexeme>, other: Seq<Lexeme>, upto: int, pos: int, c: char)
    requires
        same_upto(ts, other, upto),
        pos <= upto,
    ensures
        symbol_at(ts, pos, c) == symbol_at(other, pos, c),
{
    if 0 <= pos {
        assert((pos < ts.len() <==> pos < other.len()) && (pos < ts.len() ==> ts[pos].kind
            == other[pos].kind));
    }
}

/// `primary` looks at no token beyond the one after what it reads, or the
/// one that it stops at.
proof fn lemma_primary_local(ts: Seq<Lexeme>, other: Seq<Lexeme>, pos: int)
    requires
        same_parse(ts, other, pos, primary(ts, pos)),
    ensures
        primary(other, pos) == primary(ts, pos),
    decreases left(ts.len(), pos), 0nat,
{
    let upto = match primary(ts, pos) {
        Ok((_, n)) => pos + n,
        Err(at) => pos + at,
    };
    lemma_same_symbol(ts, other, upto, pos, '(');
    if symbol_at(ts, pos, '(') {
        lemma_assignment_local(ts, other, pos + 1);
        if let Ok((_, n)) = assignment(ts, pos + 1) {
            lemma_same_symbol(ts, other, upto, pos + 1 + n, ')');
        }
    } else if 0 <= pos {
        assert((pos < ts.len() <==> pos < other.len()) && (pos < ts.len() ==> ts[pos].kind
            == other[pos].kind));
    }
}

/// `product_rest` looks at no token beyond the one after what it reads, or
/// the one that it stops at.
proof fn lemma_product_rest_local(ts: Seq<Lexeme>, other: Seq<Lexeme>, acc: Tree, pos: int)
    requires
        same_parse(ts, other, pos, product_rest(ts, acc, pos)),
    ensures
        product_rest(other, acc, pos) == product_rest(ts, acc, pos),
    decreases left(ts.len(), pos), 1nat,
{
    let upto = match product_rest(ts, acc, pos) {
        Ok((_, n)) => pos + n,
        Err(at) => pos + at,
    };
    lemma_same_symbol(ts, other, upto, pos, '*');
    lemma_same_symbol(ts, other, upto, pos, '/');
    if symbol_at(ts, pos, '*') || symbol_at(ts, pos, '/') {
        let op = if symbol_at(ts, pos, '*') {
            Operator::Mul
        } else {
            Operator::Div
        };
        lemma_primary_local(ts, other, pos + 1);
        if let Ok((rhs, n)) = primary(ts, pos + 1) {
            lemma_product_rest_local(
                ts,
                other,
                Tree::Binary(op, Box::new(acc), Box::new(rhs)),
                pos + 1 + n,
            );
        }
    }
}

/// `product` looks at no token beyond the one after what it reads, or the
/// one that it stops at.
proof fn lemma_product_local(ts: Seq<Lexeme>, other: Seq<Lexeme>, pos: int)
    requires
        same_parse(ts, other, pos, product(ts, pos)),
    ensures
        product(other, pos) == product(ts, pos),
    decreases left(ts.len(), pos), 2nat,
{
    lemma_primary_local(ts, other, pos);
    if let Ok((first, n)) = primary(ts, pos) {
        lemma_product_rest_local(ts, other, first, pos + n);
    }
}

/// `sum_rest` looks at no token beyond the one after what it reads, or the
/// one that it stops at.
proof fn lemma_sum_rest_local(ts: Seq<Lexeme>, other: Seq<Lexeme>, acc: Tree, pos: int)
    requires
        same_parse(ts, other, pos, sum_rest(ts, acc, pos)),
    ensures
        sum_rest(other, acc, pos) == sum_rest(ts, acc, pos),
    decreases left(ts.len(), pos), 3nat,
{
    let upto = match sum_rest(ts, acc, pos) {
        Ok((_, n)) => pos + n,
        Err(at) => pos + at,
    };
    lemma_same_symbol(ts, other, upto, pos, '+');
    lemma_same_symbol(ts, other, upto, pos, '-');
    if symbol_at(ts, pos, '+') || symbol_at(ts, pos, '-') {
        let op = if symbol_at(ts, pos, '+') {
            Operator::Add
        } else {
            Operator::Sub
        };
        lemma_product_local(ts, other, pos + 1);
        if let Ok((rhs, n)) = product(ts, pos + 1) {
            lemma_sum_rest_local(
                ts,
                other,
                Tree::Binary(op, Box::new(acc), Box::new(rhs)),
                pos + 1 + n,
            );
        }
    }
}

/// `sum` looks at no token beyond the one after what it reads, or the one
/// that it stops at.
proof fn lemma_sum_local(ts: Seq<Lexeme>, other: Seq<Lexeme>, pos: int)
    requires
        same_parse(ts, other, pos, sum(ts, pos)),
    ensures
        sum(other, pos) == sum(ts, pos),
    decreases left(ts.len(), pos), 4nat,
{
    lemma_product_local(ts, other, pos);
    if let Ok((first, n)) = product(ts, pos) {
        lemma_sum_rest_local(ts, other, first, pos + n);
    }
}

/// `assignment` looks at no token beyond the one after what it reads, or the
/// one that it stops at.
proof fn lemma_assignment_local(ts: Seq<Lexeme>, other: Seq<Lexeme>, pos: int)
    requires
        same_parse(ts, other, pos, assignment(ts, pos)),
    ensures
        assignment(other, pos) == assignment(ts, pos),
    decreases left(ts.len(), pos), 5nat,
{
    let upto = match assignment(ts, pos) {
        Ok((_, n)) => pos + n,
        Err(at) => pos + at,
    };
    lemma_sum_local(ts, other, pos);
    if let Ok((_, n)) = sum(ts, pos) {
        lemma_same_symbol(ts, other, upto, pos + n, '=');
        if symbol_at(ts, pos + n, '=') {
            lemma_assignment_local(ts, other, pos + n + 1);
        }
    }
}

/// `program` looks at no token beyond the one that it stops at.
proof fn lemma_program_stops(ts: Seq<Lexeme>, other: Seq<Lexeme>, pos: int)
    requires
        0 <= pos,
        program(ts, pos) is Err,
        same_upto(ts, other, pos + program(ts, pos)->Err_0),
    ensures
        program(other, pos) == program(ts, pos),
    decreases left(ts.len(), pos),
{
    let at = program(ts, pos)->Err_0;
    assert((pos < ts.len() <==> pos < other.len()) && (pos < ts.len() ==> ts[pos].kind
        == other[pos].kind));
    if 0 <= pos < ts.len() {
        lemma_assignment_local(ts, other, pos);
        if let Ok((_, m)) = assignment(ts, pos) {
            lemma_same_symbol(ts, other, pos + at, pos + m, ';');
        }
        if let Ok((_, n)) = statement(ts, pos) {
            lemma_program_stops(ts, other, pos + n);
        }
    }
}

/// Some tree is a primary of the grammar in that place.
pub open spec fn has_primary(ts: Seq<Lexeme>, from: int, to: int) -> bool {
    exists|tree: Tree| is_primary(ts, from, to, tree)
}

/// Some tree is a product of the grammar in that place.
pub open spec fn has_product(ts: Seq<Lexeme>, from: int, to: int) -> bool {
    exists|tree: Tree| is_product(ts, from, to, tree)
}

/// Some tree is a sum of the grammar in that place.
pub open spec fn has_sum(ts: Seq<Lexeme>, from: int, to: int) -> bool {
    exists|tree: Tree| is_sum(ts, from, to, tree)
}

/// Some tree is an assignment of the grammar in that place.
pub open spec fn has_assignment(ts: Seq<Lexeme>, from: int, to: int) -> bool {
    exists|tree: Tree| is_assignment(ts, from, to, tree)
}

/// `other` holds the same kinds of tokens as `ts` before `at`, then a number
/// where `operand` says so, then `closing` closing parentheses.
pub open spec fn continues(
    ts: Seq<Lexeme>,
    other: Seq<Lexeme>,
    at: int,
    operand: bool,
    closing: nat,
) -> bool {
    let behind = if operand {
        at + 1
    } else {
        at
    };
    &&& 0 <= at <= ts.len()
    &&& same_upto(ts, other, at - 1)
    &&& operand ==> at < other.len() && other[at].kind == Kind::Number(0)
    &&& forall|j: int| behind <= j < behind + closing ==> symbol_at(other, j, ')')
}

/// Where `continues` says that the continuation ends.
pub open spec fn continued(at: int, operand: bool, closing: nat) -> int {
    if operand {
        at + 1 + closing
    } else {
        at + closing
    }
}

/// A primary of the grammar is one in every sequence that holds the same
/// kinds of tokens in its place.
proof fn lemma_is_primary_same(
    ts: Seq<Lexeme>,
    other: Seq<Lexeme>,
    from: int,
    to: int,
    tree: Tree,
)
    requires
        is_primary(ts, from, to, tree),
        same_upto(ts, other, to - 1),
    ensures
        is_primary(other, from, to, tree),
    decreases tree, to - from, 0nat,
{
    lemma_primary_complete(ts, from, to, tree);
    lemma_same_symbol(ts, other, to - 1, from, '(');
    lemma_same_symbol(ts, other, to - 1, to - 1, ')');
    assert(ts[from].kind == other[from].kind);
    if from + 2 <= to && symbol_at(ts, from, '(') && symbol_at(ts, to - 1, ')') && is_assignment(
        ts,
        from + 1,
        to - 1,
        tree,
    ) {
        lemma_is_assignment_same(ts, other, from + 1, to - 1, tree);
    }
}

/// A product of the grammar is one in every sequence that holds the same
/// kinds of tokens in its place.
proof fn lemma_is_product_same(
    ts: Seq<Lexeme>,
    other: Seq<Lexeme>,
    from: int,
    to: int,
    tree: Tree,
)
    requires
        is_product(ts, from, to, tree),
        same_upto(ts, other, to - 1),
    ensures
        is_product(other, from, to, tree),
    decreases tree, to - from, 1nat,
{
    if is_primary(ts, from, to, tree) {
        lemma_is_primary_same(ts, other, from, to, tree);
    } else {
        if let Tree::Binary(op, lhs, rhs) = tree {
            let mid = choose|mid: int|
                from <= mid < to && is_product(ts, from, mid, *lhs) && #[trigger] symbol_at(
                    ts,
                    mid,
                    symbol_of(op),
                ) && is_primary(ts, mid + 1, to, *rhs);
            lemma_is_product_same(ts, other, from, mid, *lhs);
            lemma_is_primary_same(ts, other, mid + 1, to, *rhs);
            lemma_same_symbol(ts, other, to - 1, mid, symbol_of(op));
            assert(symbol_at(other, mid, symbol_of(op)));
        }
    }
}

/// A sum of the grammar is one in every sequence that holds the same kinds
/// of tokens in its place.
proof fn lemma_is_sum_same(
    ts: Seq<Lexeme>,
    other: Seq<Lexeme>,
    from: int,
    to: int,
    tree: Tree,
)
    requires
        is_sum(ts, from, to, tree),
        same_upto(ts, other, to - 1),
    ensures
        is_sum(other, from, to, tree),
    decreases tree, to - from, 2nat,
{
    if is_product(ts, from, to, tree) {
        lemma_is_product_same(ts, other, from, to, tree);
    } else {
        if let Tree::Binary(op, lhs, rhs) = tree {
            let mid = choose|mid: int|
                from <= mid < to && is_sum(ts, from, mid, *lhs) && #[trigger] symbol_at(
                    ts,
                    mid,
                    symbol_of(op),
                ) && is_product(ts, mid + 1, to, *rhs);
            lemma_is_sum_same(ts, other, from, mid, *lhs);
            lemma_is_product_same(ts, other, mid + 1, to, *rhs);
            lemma_same_symbol(ts, other, to - 1, mid, symbol_of(op));
            assert(symbol_at(other, mid, symbol_of(op)));
        }
    }
}

/// An assignment of the grammar is one in every sequence that holds the
/// same kinds of tokens in its place.
proof fn lemma_is_assignment_same(
    ts: Seq<Lexeme>,
    other: Seq<Lexeme>,
    from: int,
    to: int,
    tree: Tree,
)
    requires
        is_assignment(ts, from, to, tree),
        same_upto(ts, other, to - 1),
    ensures
        is_assignment(other, from, to, tree),
    decreases tree, to - from, 3nat,
{
    if is_sum(ts, from, to, tree) {
        lemma_is_sum_same(ts, other, from, to, tree);
    } else {
        if let Tree::Binary(op, lhs, rhs) = tree {
            let mid = choose|mid: int|
                from <= mid < to && is_sum(ts, from, mid, *lhs) && #[trigger] symbol_at(
                    ts,
                    mid,
                    '=',
                ) && is_assignment(ts, mid + 1, to, *rhs);
            lemma_is_sum_same(ts, other, from, mid, *lhs);
            lemma_is_assignment_same(ts, other, mid + 1, to, *rhs);
            lemma_same_symbol(ts, other, to - 1, mid, '=');
            assert(symbol_at(other, mid, '='));
        }
    }
}

/// Where `primary` stops, what was read up to there can be continued to a
/// primary of the grammar: by a number where one is missing, and by the
/// closing parentheses that are missing.
proof fn lemma_primary_viable(ts: Seq<Lexeme>, pos: int) -> (c: (bool, nat))
    requires
        0 <= pos <= ts.len(),
        primary(ts, pos) is Err,
    ensures
        pos + primary(ts, pos)->Err_0 <= ts.len(),
        forall|other: Seq<Lexeme>| #[trigger]
            continues(ts, other, pos + primary(ts, pos)->Err_0, c.0, c.1) ==> has_primary(other, pos, continued(pos + primary(ts, pos)->Err_0, c.0, c.1)),
    decreases left(ts.len(), pos), 0nat,
{
    let at = pos + primary(ts, pos)->Err_0;
    if symbol_at(ts, pos, '(') {
        match assignment(ts, pos + 1) {
            Err(_) => {
                let inner = lemma_assignment_viable(ts, pos + 1);
                let c = (inner.0, inner.1 + 1);
                assert forall|other: Seq<Lexeme>| #[trigger]
                    continues(ts, other, at, c.0, c.1) implies has_primary(other, pos, continued(at, c.0, c.1)) by {
                    assert(continues(ts, other, at, inner.0, inner.1));
                    let end = continued(at, inner.0, inner.1);
                    let next = pos + 1;
                    let tree = choose|tree: Tree| is_assignment(other, next, end, tree);
                    lemma_same_symbol(ts, other, at - 1, pos, '(');
                    assert(symbol_at(other, end, ')'));
                    lemma_assignment_complete_bounds(other, pos + 1, end, tree);
                    assert(is_primary(other, pos, end + 1, tree));
                }
                c
            },
            Ok((tree, n)) => {
                lemma_assignment(ts, pos + 1);
                let c = (false, 1nat);
                assert forall|other: Seq<Lexeme>| #[trigger]
                    continues(ts, other, at, c.0, c.1) implies has_primary(other, pos, continued(at, c.0, c.1)) by {
                    lemma_is_assignment_same(ts, other, pos + 1, at, tree);
                    lemma_same_symbol(ts, other, at - 1, pos, '(');
                    assert(symbol_at(other, at, ')'));
                    assert(is_primary(other, pos, at + 1, tree));
                }
                c
            },
        }
    } else {
        let c = (true, 0nat);
        assert forall|other: Seq<Lexeme>| #[trigger]
            continues(ts, other, at, c.0, c.1) implies has_primary(other, pos, continued(at, c.0, c.1)) by {
            assert(is_primary(other, pos, pos + 1, Tree::Number(0)));
        }
        c
    }
}

/// A construct of the grammar is not empty and lies inside the tokens.
proof fn lemma_assignment_complete_bounds(ts: Seq<Lexeme>, from: int, to: int, tree: Tree)
    requires
        is_assignment(ts, from, to, tree),
    ensures
        0 <= from < to <= ts.len(),
    decreases tree, to - from, 3nat,
{
    if is_sum(ts, from, to, tree) {
        lemma_sum_bounds(ts, from, to, tree);
    } else {
        if let Tree::Binary(op, lhs, rhs) = tree {
            let mid = choose|mid: int|
                from <= mid < to && is_sum(ts, from, mid, *lhs) && #[trigger] symbol_at(
                    ts,
                    mid,
                    '=',
                ) && is_assignment(ts, mid + 1, to, *rhs);
            lemma_sum_bounds(ts, from, mid, *lhs);
            lemma_assignment_complete_bounds(ts, mid + 1, to, *rhs);
        }
    }
}

/// A sum of the grammar is not empty and lies inside the tokens.
proof fn lemma_sum_bounds(ts: Seq<Lexeme>, from: int, to: int, tree: Tree)
    requires
        is_sum(ts, from, to, tree),
    ensures
        0 <= from < to <= ts.len(),
    decreases tree, to - from, 2nat,
{
    if is_product(ts, from, to, tree) {
        lemma_product_reaches(ts, from, to, tree);
    } else {
        if let Tree::Binary(op, lhs, rhs) = tree {
            let mid = choose|mid: int|
                from <= mid < to && is_sum(ts, from, mid, *lhs) && #[trigger] symbol_at(
                    ts,
                    mid,
                    symbol_of(op),
                ) && is_product(ts, mid + 1, to, *rhs);
            lemma_sum_bounds(ts, from, mid, *lhs);
            lemma_product_reaches(ts, mid + 1, to, *rhs);
        }
    }
}

/// Where `product_rest` stops after a product, what was read up to there
/// can be continued to a product of the grammar.
proof fn lemma_product_rest_viable(ts: Seq<Lexeme>, start: int, acc: Tree, pos: int) -> (c: (
    bool,
    nat,
))
    requires
        0 <= start <= pos <= ts.len(),
        is_product(ts, start, pos, acc),
        product_rest(ts, acc, pos) is Err,
    ensures
        pos + product_rest(ts, acc, pos)->Err_0 <= ts.len(),
        forall|other: Seq<Lexeme>| #[trigger]
            continues(ts, other, pos + product_rest(ts, acc, pos)->Err_0, c.0, c.1)
                ==> has_product(
                    other,
                    start,
                    continued(pos + product_rest(ts, acc, pos)->Err_0, c.0, c.1)),
    decreases left(ts.len(), pos), 1nat,
{
    let at = pos + product_rest(ts, acc, pos)->Err_0;
    let op = if symbol_at(ts, pos, '*') {
        Operator::Mul
    } else {
        Operator::Div
    };
    assert(symbol_at(ts, pos, symbol_of(op)));
    match primary(ts, pos + 1) {
        Err(_) => {
            let c = lemma_primary_viable(ts, pos + 1);
            assert forall|other: Seq<Lexeme>| #[trigger]
                continues(ts, other, at, c.0, c.1) implies has_product(other, start, continued(at, c.0, c.1)) by {
                let end = continued(at, c.0, c.1);
                let next = pos + 1;
                let rhs = choose|rhs: Tree| is_primary(other, next, end, rhs);
                lemma_is_product_same(ts, other, start, pos, acc);
                lemma_same_symbol(ts, other, at - 1, pos, symbol_of(op));
                lemma_primary_complete(other, pos + 1, end, rhs);
                assert(symbol_at(other, pos, symbol_of(op)));
                assert(is_product(
                    other,
                    start,
                    end,
                    Tree::Binary(op, Box::new(acc), Box::new(rhs)),
                ));
            }
            c
        },
        Ok((rhs, n)) => {
            lemma_primary(ts, pos + 1);
            let more = Tree::Binary(op, Box::new(acc), Box::new(rhs));
            assert(is_product(ts, start, pos + 1 + n, more));
            lemma_product_rest_viable(ts, start, more, pos + 1 + n)
        },
    }
}

/// Where `product` stops, what was read up to there can be continued to a
/// product of the grammar.
proof fn lemma_product_viable(ts: Seq<Lexeme>, pos: int) -> (c: (bool, nat))
    requires
        0 <= pos <= ts.len(),
        product(ts, pos) is Err,
    ensures
        pos + product(ts, pos)->Err_0 <= ts.len(),
        forall|other: Seq<Lexeme>| #[trigger]
            continues(ts, other, pos + product(ts, pos)->Err_0, c.0, c.1) ==> has_product(other, pos, continued(pos + product(ts, pos)->Err_0, c.0, c.1)),
    decreases left(ts.len(), pos), 2nat,
{
    let at = pos + product(ts, pos)->Err_0;
    match primary(ts, pos) {
        Err(_) => {
            let c = lemma_primary_viable(ts, pos);
            assert forall|other: Seq<Lexeme>| #[trigger]
                continues(ts, other, at, c.0, c.1) implies has_product(other, pos, continued(at, c.0, c.1)) by {
                let end = continued(at, c.0, c.1);
                let tree = choose|tree: Tree| is_primary(other, pos, end, tree);
                assert(is_product(other, pos, end, tree));
            }
            c
        },
        Ok((first, n)) => {
            lemma_primary(ts, pos);
            lemma_product_rest_viable(ts, pos, first, pos + n)
        },
    }
}

/// Where `sum_rest` stops after a sum, what was read up to there can be
/// continued to a sum of the grammar.
proof fn lemma_sum_rest_viable(ts: Seq<Lexeme>, start: int, acc: Tree, pos: int) -> (c: (
    bool,
    nat,
))
    requires
        0 <= start <= pos <= ts.len(),
        is_sum(ts, start, pos, acc),
        sum_rest(ts, acc, pos) is Err,
    ensures
        pos + sum_rest(ts, acc, pos)->Err_0 <= ts.len(),
        forall|other: Seq<Lexeme>| #[trigger]
            continues(ts, other, pos + sum_rest(ts, acc, pos)->Err_0, c.0, c.1)
                ==> has_sum(other, start, continued(pos + sum_rest(ts, acc, pos)->Err_0, c.0, c.1)),
    decreases left(ts.len(), pos), 3nat,
{
    let at = pos + sum_rest(ts, acc, pos)->Err_0;
    let op = if symbol_at(ts, pos, '+') {
        Operator::Add
    } else {
        Operator::Sub
    };
    assert(symbol_at(ts, pos, symbol_of(op)));
    match product(ts, pos + 1) {
        Err(_) => {
            let c = lemma_product_viable(ts, pos + 1);
            assert forall|other: Seq<Lexeme>| #[trigger]
                continues(ts, other, at, c.0, c.1) implies has_sum(other, start, continued(at, c.0, c.1)) by {
                let end = continued(at, c.0, c.1);
                let next = pos + 1;
                let rhs = choose|rhs: Tree| is_product(other, next, end, rhs);
                lemma_is_sum_same(ts, other, start, pos, acc);
                lemma_same_symbol(ts, other, at - 1, pos, symbol_of(op));
                lemma_product_reaches(other, pos + 1, end, rhs);
                assert(symbol_at(other, pos, symbol_of(op)));
                assert(is_sum(other, start, end, Tree::Binary(op, Box::new(acc), Box::new(rhs))));
            }
            c
        },
        Ok((rhs, n)) => {
            lemma_product(ts, pos + 1);
            let more = Tree::Binary(op, Box::new(acc), Box::new(rhs));
            assert(is_sum(ts, start, pos + 1 + n, more));
            lemma_sum_rest_viable(ts, start, more, pos + 1 + n)
        },
    }
}

/// Where `sum` stops, what was read up to there can be continued to a sum
/// of the grammar.
proof fn lemma_sum_viable(ts: Seq<Lexeme>, pos: int) -> (c: (bool, nat))
    requires
        0 <= pos <= ts.len(),
        sum(ts, pos) is Err,
    ensures
        pos + sum(ts, pos)->Err_0 <= ts.len(),
        forall|other: Seq<Lexeme>| #[trigger]
            continues(ts, other, pos + sum(ts, pos)->Err_0, c.0, c.1) ==> has_sum(other, pos, continued(pos + sum(ts, pos)->Err_0, c.0, c.1)),
    decreases left(ts.len(), pos), 4nat,
{
    let at = pos + sum(ts, pos)->Err_0;
    match product(ts, pos) {
        Err(_) => {
            let c = lemma_product_viable(ts, pos);
            assert forall|other: Seq<Lexeme>| #[trigger]
                continues(ts, other, at, c.0, c.1) implies has_sum(other, pos, continued(at, c.0, c.1)) by {
                let end = continued(at, c.0, c.1);
                let tree = choose|tree: Tree| is_product(other, pos, end, tree);
                assert(is_sum(other, pos, end, tree));
            }
            c
        },
        Ok((first, n)) => {
            lemma_product(ts, pos);
            lemma_sum_rest_viable(ts, pos, first, pos + n)
        },
    }
}

/// Where `assignment` stops, what was read up to there can be continued to
/// an assignment of the grammar.
proof fn lemma_assignment_viable(ts: Seq<Lexeme>, pos: int) -> (c: (bool, nat))
    requires
        0 <= pos <= ts.len(),
        assignment(ts, pos) is Err,
    ensures
        pos + assignment(ts, pos)->Err_0 <= ts.len(),
        forall|other: Seq<Lexeme>| #[trigger]
            continues(ts, other, pos + assignment(ts, pos)->Err_0, c.0, c.1)
                ==> has_assignment(
                    other,
                    pos,
                    continued(pos + assignment(ts, pos)->Err_0, c.0, c.1)),
    decreases left(ts.len(), pos), 5nat,
{
    let at = pos + assignment(ts, pos)->Err_0;
    match sum(ts, pos) {
        Err(_) => {
            let c = lemma_sum_viable(ts, pos);
            assert forall|other: Seq<Lexeme>| #[trigger]
                continues(ts, other, at, c.0, c.1) implies has_assignment(other, pos, continued(at, c.0, c.1)) by {
                let end = continued(at, c.0, c.1);
                let tree = choose|tree: Tree| is_sum(other, pos, end, tree);
                assert(is_assignment(other, pos, end, tree));
            }
            c
        },
        Ok((lhs, n)) => {
            lemma_sum(ts, pos);
            let c = lemma_assignment_viable(ts, pos + n + 1);
            assert forall|other: Seq<Lexeme>| #[trigger]
                continues(ts, other, at, c.0, c.1) implies has_assignment(other, pos, continued(at, c.0, c.1)) by {
                let end = continued(at, c.0, c.1);
                let next = pos + n + 1;
                let rhs = choose|rhs: Tree| is_assignment(other, next, end, rhs);
                lemma_is_sum_same(ts, other, pos, pos + n, lhs);
                lemma_same_symbol(ts, other, at - 1, pos + n, '=');
                lemma_assignment_complete_bounds(other, pos + n + 1, end, rhs);
                assert(symbol_at(other, pos + n, '='));
                assert(is_assignment(
                    other,
                    pos,
                    end,
                    Tree::Binary(Operator::Assign, Box::new(lhs), Box::new(rhs)),
                ));
            }
            c
        },
    }
}

/// The tokens of `ts` before `at`, then a number where `operand` says so,
/// `closing` closing parentheses, a semicolon and the end of input.
pub open spec fn completed(ts: Seq<Lexeme>, at: int, operand: bool, closing: nat) -> Seq<Lexeme> {
    let number = if operand {
        seq![Lexeme { kind: Kind::Number(0), text: seq!['0'] }]
    } else {
        Seq::empty()
    };
    let parentheses = Seq::new(closing, |j: int| Lexeme { kind: Kind::Symbol(')'), text: seq![')'] });
    let end = seq![Lexeme { kind: Kind::Symbol(';'), text: seq![';'] }, Lexeme::end()];
    ts.take(at) + number + parentheses + end
}

/// Where `statement` stops, what was read up to there can be continued to
/// a statement of the grammar that ends the program.
proof fn lemma_statement_viable(ts: Seq<Lexeme>, pos: int) -> (other: Seq<Lexeme>)
    requires
        0 <= pos <= ts.len(),
        statement(ts, pos) is Err,
    ensures
        pos + statement(ts, pos)->Err_0 <= ts.len(),
        same_upto(ts, other, pos + statement(ts, pos)->Err_0 - 1),
        statement(other, pos) is Ok,
        pos + statement(other, pos)->Ok_0.1 == other.len() - 1,
        other.last().kind is EndOfInput,
{
    let at = pos + statement(ts, pos)->Err_0;
    let c = match assignment(ts, pos) {
        Err(_) => lemma_assignment_viable(ts, pos),
        Ok(_) => {
            lemma_assignment(ts, pos);
            (false, 0nat)
        },
    };
    let other = completed(ts, at, c.0, c.1);
    let end = continued(at, c.0, c.1);
    assert(other.len() == end + 2);
    assert(same_upto(ts, other, at - 1)) by {
        assert forall|i: int| 0 <= i <= at - 1 implies (i < ts.len() <==> i < other.len()) && (i
            < ts.len() ==> (#[trigger] ts[i]).kind == other[i].kind) by {
            assert(other[i] == ts[i]);
        }
    }
    assert(continues(ts, other, at, c.0, c.1));
    assert(symbol_at(other, end, ';'));
    assert(other[end + 1] == Lexeme::end());
    match assignment(ts, pos) {
        Err(_) => {},
        Ok((tree, _)) => {
            lemma_is_assignment_same(ts, other, pos, at, tree);
        },
    }
    assert(has_assignment(other, pos, end));
    let tree = choose|tree: Tree| is_assignment(other, pos, end, tree);
    lemma_assignment_complete(other, pos, end, tree);
    other
}

/// Where `program` stops, what was read before the token at which it stops
/// can be continued to a program of the grammar.
proof fn lemma_program_viable(ts: Seq<Lexeme>, pos: int) -> (other: Seq<Lexeme>)
    requires
        0 <= pos <= ts.len(),
        program(ts, pos) is Err,
    ensures
        same_upto(ts, other, pos + program(ts, pos)->Err_0 - 1),
        program(other, pos) is Ok,
    decreases left(ts.len(), pos),
{
    if pos == ts.len() {
        let other = ts.push(Lexeme::end());
        assert(same_upto(ts, other, pos - 1)) by {
            assert forall|i: int| 0 <= i <= pos - 1 implies (i < ts.len() <==> i < other.len()) && (
            i < ts.len() ==> (#[trigger] ts[i]).kind == other[i].kind) by {
                assert(other[i] == ts[i]);
            }
        }
        assert(other[pos] == Lexeme::end());
        other
    } else {
        match statement(ts, pos) {
            Err(_) => {
                let other = lemma_statement_viable(ts, pos);
                let n = statement(other, pos)->Ok_0.1;
                lemma_first_token(other, pos);
                assert(other[pos + n] == other.last());
                assert(program(other, pos + n) is Ok);
                other
            },
            Ok((tree, n)) => {
                lemma_assignment(ts, pos);
                let other = lemma_program_viable(ts, pos + n);
                let at = pos + program(ts, pos)->Err_0;
                lemma_assignment_local(ts, other, pos);
                lemma_same_symbol(ts, other, at - 1, pos + n - 1, ';');
                assert(ts[pos].kind == other[pos].kind);
                assert(statement(other, pos) == statement(ts, pos));
                other
            },
        }
    }
}

/// The tokens from `pos` on start with a program of the grammar: statements
/// and an end of input.
pub open spec fn is_program(ts: Seq<Lexeme>, pos: int) -> bool {
    exists|to: int, all: Seq<Tree>| #[trigger]
        is_statements(ts, pos, to, all) && 0 <= to < ts.len() && ts[to].kind is EndOfInput
}

/// `program` reads what the grammar allows: it gives statements exactly
/// where the tokens start with a program of the grammar, and those
/// statements are the only ones that the tokens stand for.
pub proof fn lemma_program_is_grammar(ts: Seq<Lexeme>, pos: int)
    requires
        0 <= pos,
    ensures
        program(ts, pos) is Ok <==> is_program(ts, pos),
        forall|to: int, all: Seq<Tree>| #[trigger]
            is_statements(ts, pos, to, all) && 0 <= to < ts.len() && ts[to].kind is EndOfInput
                ==> program(ts, pos) == Ok::<(Seq<Tree>, nat), nat>((all, (to - pos) as nat)),
{
    if program(ts, pos) is Ok {
        lemma_program(ts, pos);
        let (all, n) = program(ts, pos)->Ok_0;
        assert(is_statements(ts, pos, pos + n, all));
    }
    assert forall|to: int, all: Seq<Tree>| #[trigger]
        is_statements(ts, pos, to, all) && 0 <= to < ts.len()
            && ts[to].kind is EndOfInput implies program(ts, pos) == Ok::<(Seq<Tree>, nat), nat>(
        (all, (to - pos) as nat),
    ) by {
        lemma_program_complete(ts, pos, to, all);
    }
}

/// The token at which `program` stops is the first that is wrong: what
/// stands before it starts some program of the grammar, and nothing that
/// goes on with a token of its kind does.
pub proof fn lemma_first_violation(ts: Seq<Lexeme>, pos: int)
    requires
        0 <= pos <= ts.len(),
        program(ts, pos) is Err,
    ensures
        exists|other: Seq<Lexeme>| #[trigger]
            same_upto(ts, other, pos + program(ts, pos)->Err_0 - 1) && is_program(other, pos),
        forall|other: Seq<Lexeme>| #[trigger]
            same_upto(ts, other, pos + program(ts, pos)->Err_0) ==> !is_program(other, pos),
{
    let at = pos + program(ts, pos)->Err_0;
    let some = lemma_program_viable(ts, pos);
    lemma_program_is_grammar(some, pos);
    assert(same_upto(ts, some, at - 1) && is_program(some, pos));
    assert forall|other: Seq<Lexeme>| #[trigger] same_upto(ts, other, at) implies !is_program(
        other,
        pos,
    ) by {
        lemma_program_stops(ts, other, pos);
        lemma_program_is_grammar(other, pos);
    }
}

} // verus!
