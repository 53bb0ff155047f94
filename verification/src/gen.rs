//! Code generation: statement trees to instructions.
//!
//! Every expression leaves its value on the call stack. A variable lives in a
//! slot of the frame, `SLOT_WIDTH` bytes wide, at an offset below the frame
//! pointer. The first variable that is met gets the offset `SLOT_WIDTH`, each
//! new one the next offset, and a variable that was met before keeps its own.
//! The frame has room for `FRAME_SIZE / SLOT_WIDTH` variables; offsets go on
//! beyond that, and are held in 128 bits so that they cannot overflow.

use crate::code::{Instruction, Register};
use crate::parse::{trees, Node, Operator, Tree};
use vstd::prelude::*;

verus! {

/// The width of a variable's slot in bytes.
pub const SLOT_WIDTH: u128 = 8;

/// The number of bytes that the prologue sets aside for variables.
pub const FRAME_SIZE: u128 = 208;

/// The left side of an assignment is no variable.
#[derive(Debug, Clone, Copy, PartialEq, Eq, Structural)]
pub struct AssignTargetError;

/// The names of a vector in specifications.
pub open spec fn names(vars: Seq<String>) -> Seq<Seq<char>> {
    Seq::new(vars.len(), |i: int| vars[i]@)
}

/// The place of `name` in `table` from `from` on: the first index that holds
/// it, or the length of the table where none does.
pub open spec fn find(table: Seq<Seq<char>>, name: Seq<char>, from: int) -> int
    decreases table.len() - from,
{
    if 0 <= from < table.len() {
        if table[from] == name {
            from
        } else {
            find(table, name, from + 1)
        }
    } else {
        table.len() as int
    }
}

/// Whether `table` holds `name`.
pub open spec fn known(table: Seq<Seq<char>>, name: Seq<char>) -> bool {
    find(table, name, 0) < table.len()
}

/// The table after `name` was met: a new name goes to the end.
pub open spec fn resolve(table: Seq<Seq<char>>, name: Seq<char>) -> Seq<Seq<char>> {
    if known(table, name) {
        table
    } else {
        table.push(name)
    }
}

/// The offset of the slot of the variable at `index`.
pub open spec fn slot_offset(index: int) -> int {
    SLOT_WIDTH * (index + 1)
}

/// The offset of `name` once it was met.
pub open spec fn offset_of(table: Seq<Seq<char>>, name: Seq<char>) -> int {
    slot_offset(find(resolve(table, name), name, 0))
}

/// Pushes the address of the slot at `offset`.
pub open spec fn address(offset: int) -> Seq<Instruction> {
    seq![
        Instruction::Mov(Register::Rax, Register::Rbp),
        Instruction::SubImm(Register::Rax, offset as u128),
        Instruction::Push(Register::Rax),
    ]
}

/// Replaces the address on the stack by what it holds.
pub open spec fn load() -> Seq<Instruction> {
    seq![
        Instruction::Pop(Register::Rax),
        Instruction::Load(Register::Rax, Register::Rax),
        Instruction::Push(Register::Rax),
    ]
}

/// Stores the value on the stack at the address below it, and leaves the value.
pub open spec fn store() -> Seq<Instruction> {
    seq![
        Instruction::Pop(Register::Rdi),
        Instruction::Pop(Register::Rax),
        Instruction::Store(Register::Rax, Register::Rdi),
        Instruction::Push(Register::Rdi),
    ]
}

/// Replaces the two values on the stack by what `op` makes of them.
pub open spec fn arithmetic(op: Operator) -> Seq<Instruction> {
    let operands = seq![Instruction::Pop(Register::Rdi), Instruction::Pop(Register::Rax)];
    let apply = match op {
        Operator::Add => seq![Instruction::Add(Register::Rax, Register::Rdi)],
        Operator::Sub => seq![Instruction::Sub(Register::Rax, Register::Rdi)],
        Operator::Mul => seq![Instruction::Mul(Register::Rdi)],
        Operator::Div => seq![
            Instruction::MovImm(Register::Rdx, 0),
            Instruction::Div(Register::Rdi),
        ],
        Operator::Assign => Seq::empty(),
    };
    operands + apply + seq![Instruction::Push(Register::Rax)]
}

/// Gives the frame back and returns.
pub open spec fn epilogue() -> Seq<Instruction> {
    seq![
        Instruction::Mov(Register::Rsp, Register::Rbp),
        Instruction::Pop(Register::Rbp),
        Instruction::Ret,
    ]
}

/// The directives and the entry label.
pub open spec fn header() -> Seq<Instruction> {
    seq![Instruction::IntelSyntax, Instruction::GlobalMain, Instruction::MainLabel]
}

/// Sets up the frame.
pub open spec fn prologue() -> Seq<Instruction> {
    seq![
        Instruction::Push(Register::Rbp),
        Instruction::Mov(Register::Rbp, Register::Rsp),
        Instruction::SubImm(Register::Rsp, FRAME_SIZE),
    ]
}

/// What generating code comes to: the table as it then is, the instructions
/// that were emitted, and whether generation got to its end.
pub struct Emitted {
    pub table: Seq<Seq<char>>,
    pub code: Seq<Instruction>,
    pub done: bool,
}

impl Emitted {
    /// `more` emitted after this, where this got to its end.
    pub open spec fn followed_by(self, more: Seq<Instruction>) -> Emitted {
        if self.done {
            Emitted { table: self.table, code: self.code + more, done: true }
        } else {
            self
        }
    }

    /// This, emitted after `code`.
    pub open spec fn preceded_by(self, code: Seq<Instruction>) -> Emitted {
        Emitted { table: self.table, code: code + self.code, done: self.done }
    }
}

/// The code that pushes the address of what `tree` names. Only a variable
/// names anything: for any other tree nothing is emitted.
pub open spec fn emit_address(tree: Tree, table: Seq<Seq<char>>) -> Emitted {
    match tree {
        Tree::Variable(name) => Emitted {
            table: resolve(table, name),
            code: address(offset_of(table, name)),
            done: true,
        },
        _ => Emitted { table, code: Seq::empty(), done: false },
    }
}

/// The code that pushes the value of `tree`, up to the first assignment
/// whose left side is no variable.
pub open spec fn emit(tree: Tree, table: Seq<Seq<char>>) -> Emitted
    decreases tree,
{
    match tree {
        Tree::Number(val) => Emitted { table, code: seq![Instruction::PushImm(val)], done: true },
        Tree::Variable(_) => emit_address(tree, table).followed_by(load()),
        Tree::Return(expr) => emit(*expr, table).followed_by(
            seq![Instruction::Pop(Register::Rax)] + epilogue(),
        ),
        Tree::Binary(Operator::Assign, lhs, rhs) => {
            let target = emit_address(*lhs, table);
            if target.done {
                emit(*rhs, target.table).preceded_by(target.code).followed_by(store())
            } else {
                target
            }
        },
        Tree::Binary(op, lhs, rhs) => {
            let left = emit(*lhs, table);
            if left.done {
                emit(*rhs, left.table).preceded_by(left.code).followed_by(arithmetic(op))
            } else {
                left
            }
        },
    }
}

/// The code for the statements of `program` from `from` on, each followed
/// by the instruction that drops its value.
pub open spec fn emit_statements(program: Seq<Tree>, from: int, table: Seq<Seq<char>>) -> Emitted
    decreases program.len() - from,
{
    if 0 <= from < program.len() {
        let first = emit(program[from], table).followed_by(seq![Instruction::Pop(Register::Rax)]);
        if first.done {
            emit_statements(program, from + 1, first.table).preceded_by(first.code)
        } else {
            first
        }
    } else {
        Emitted { table, code: Seq::empty(), done: true }
    }
}

/// The assembly unit for `program`: header, prologue, the statements in
/// their order, epilogue.
pub open spec fn emit_unit(program: Seq<Tree>, table: Seq<Seq<char>>) -> Emitted {
    emit_statements(program, 0, table).preceded_by(header() + prologue()).followed_by(epilogue())
}

/// Where `find` stops: on the first place from `from` on that holds `name`,
/// or at the end of the table.
proof fn lemma_find(table: Seq<Seq<char>>, name: Seq<char>, from: int)
    requires
        0 <= from <= table.len(),
    ensures
        from <= find(table, name, from) <= table.len(),
        find(table, name, from) < table.len() ==> table[find(table, name, from)] == name,
        forall|i: int| from <= i < find(table, name, from) ==> table[i] != name,
    decreases table.len() - from,
{
    if from < table.len() && table[from] != name {
        lemma_find(table, name, from + 1);
    }
}

/// A name that is put at the end of the table is found where it was found
/// before, or else at the end.
proof fn lemma_find_push(table: Seq<Seq<char>>, name: Seq<char>, other: Seq<char>, from: int)
    requires
        0 <= from <= table.len(),
    ensures
        find(table.push(other), name, from) == if find(table, name, from) < table.len() {
            find(table, name, from)
        } else if other == name {
            table.len() as int
        } else {
            table.len() as int + 1
        },
    decreases table.len() - from,
{
    let longer = table.push(other);
    if from < table.len() {
        assert(longer[from] == table[from]);
        if table[from] != name {
            lemma_find_push(table, name, other, from + 1);
        }
    } else {
        assert(longer[from] == other);
        assert(find(longer, name, from + 1) == longer.len());
    }
}

/// The table after the names of `refs` were met one after the other.
pub open spec fn met(table: Seq<Seq<char>>, refs: Seq<Seq<char>>) -> Seq<Seq<char>>
    decreases refs.len(),
{
    if refs.len() == 0 {
        table
    } else {
        resolve(met(table, refs.drop_last()), refs.last())
    }
}

/// Whether every assignment in `tree` has a variable on its left side.
pub open spec fn assignable(tree: Tree) -> bool
    decreases tree,
{
    match tree {
        Tree::Number(_) => true,
        Tree::Variable(_) => true,
        Tree::Return(expr) => assignable(*expr),
        Tree::Binary(Operator::Assign, lhs, rhs) => *lhs is Variable && assignable(*rhs),
        Tree::Binary(_, lhs, rhs) => assignable(*lhs) && assignable(*rhs),
    }
}

/// The variables that generating code for `tree` meets, in the order in
/// which it meets them, up to the first assignment whose left side is no
/// variable.
pub open spec fn references(tree: Tree) -> Seq<Seq<char>>
    decreases tree,
{
    match tree {
        Tree::Number(_) => Seq::empty(),
        Tree::Variable(name) => seq![name],
        Tree::Return(expr) => references(*expr),
        Tree::Binary(Operator::Assign, lhs, rhs) => match *lhs {
            Tree::Variable(name) => seq![name] + references(*rhs),
            _ => Seq::empty(),
        },
        Tree::Binary(_, lhs, rhs) => if assignable(*lhs) {
            references(*lhs) + references(*rhs)
        } else {
            references(*lhs)
        },
    }
}

/// A name is known exactly where the table holds it.
proof fn lemma_known(table: Seq<Seq<char>>, name: Seq<char>)
    ensures
        known(table, name) <==> table.contains(name),
{
    lemma_find(table, name, 0);
    if known(table, name) {
        assert(table[find(table, name, 0)] == name);
    }
}

/// Two different names that the table holds have different offsets.
pub proof fn lemma_offsets_distinct(table: Seq<Seq<char>>, a: Seq<char>, b: Seq<char>)
    requires
        a != b,
        known(table, a),
        known(table, b),
    ensures
        slot_offset(find(table, a, 0)) != slot_offset(find(table, b, 0)),
{
    lemma_find(table, a, 0);
    lemma_find(table, b, 0);
}

/// Two different names that are met one after the other, each for the first
/// time or not, get different offsets.
pub proof fn lemma_first_offsets_distinct(table: Seq<Seq<char>>, a: Seq<char>, b: Seq<char>)
    requires
        a != b,
    ensures
        offset_of(table, a) != offset_of(resolve(table, a), b),
{
    let first = resolve(table, a);
    let second = resolve(first, b);
    lemma_met_one(table, a);
    lemma_met_one(first, b);
    lemma_resolve_keeps(first, a, b);
    lemma_offsets_distinct(second, a, b);
}

/// While the table holds no more names than the frame has slots, every
/// offset lies inside the frame.
pub proof fn lemma_offset_in_frame(table: Seq<Seq<char>>, name: Seq<char>)
    requires
        known(table, name),
        SLOT_WIDTH * table.len() <= FRAME_SIZE,
    ensures
        SLOT_WIDTH <= slot_offset(find(table, name, 0)) <= FRAME_SIZE,
{
    lemma_find(table, name, 0);
}

/// A name is known once it was met, and meeting it again changes nothing.
proof fn lemma_met_one(table: Seq<Seq<char>>, name: Seq<char>)
    ensures
        known(resolve(table, name), name),
        resolve(resolve(table, name), name) == resolve(table, name),
        offset_of(resolve(table, name), name) == offset_of(table, name),
{
    lemma_find_push(table, name, name, 0);
}

/// A name that the table holds keeps its place when another name is met.
proof fn lemma_resolve_keeps(table: Seq<Seq<char>>, name: Seq<char>, other: Seq<char>)
    requires
        known(table, name),
    ensures
        known(resolve(table, other), name),
        find(resolve(table, other), name, 0) == find(table, name, 0),
        offset_of(resolve(table, other), name) == offset_of(table, name),
{
    lemma_find_push(table, name, other, 0);
    lemma_met_one(table, name);
    lemma_met_one(resolve(table, other), name);
}

/// A name that the table holds keeps its offset whatever names are met later.
pub proof fn lemma_met_keeps(table: Seq<Seq<char>>, name: Seq<char>, refs: Seq<Seq<char>>)
    requires
        known(table, name),
    ensures
        known(met(table, refs), name),
        find(met(table, refs), name, 0) == find(table, name, 0),
        offset_of(met(table, refs), name) == offset_of(table, name),
    decreases refs.len(),
{
    if refs.len() > 0 {
        lemma_met_keeps(table, name, refs.drop_last());
        lemma_resolve_keeps(met(table, refs.drop_last()), name, refs.last());
    } else {
        lemma_met_one(table, name);
    }
}

/// Meeting the names of two sequences one after the other is meeting the
/// names of the two put together.
proof fn lemma_met_append(table: Seq<Seq<char>>, a: Seq<Seq<char>>, b: Seq<Seq<char>>)
    ensures
        met(table, a + b) == met(met(table, a), b),
    decreases b.len(),
{
    if b.len() == 0 {
        assert(a + b =~= a);
    } else {
        assert((a + b).drop_last() =~= a + b.drop_last());
        assert((a + b).last() == b.last());
        lemma_met_append(table, a, b.drop_last());
    }
}

/// A table in which no name stands twice stays so, and holds the names it
/// held and the names that were met.
proof fn lemma_met_names(table: Seq<Seq<char>>, refs: Seq<Seq<char>>)
    requires
        table.no_duplicates(),
    ensures
        met(table, refs).no_duplicates(),
        met(table, refs).to_set() == table.to_set().union(refs.to_set()),
    decreases refs.len(),
{
    if refs.len() == 0 {
        assert(refs.to_set() =~= Set::<Seq<char>>::empty());
        assert(table.to_set().union(refs.to_set()) =~= table.to_set());
    } else {
        let before = met(table, refs.drop_last());
        let name = refs.last();
        lemma_met_names(table, refs.drop_last());
        lemma_known(before, name);
        assert(refs =~= refs.drop_last().push(name));
        refs.drop_last().lemma_push_to_set_commute(name);
        if known(before, name) {
            assert(before.to_set().contains(name));
            assert(before.to_set() =~= table.to_set().union(refs.to_set()));
        } else {
            before.lemma_push_to_set_commute(name);
            assert(before.push(name).to_set() =~= table.to_set().union(refs.to_set()));
            assert forall|i: int, j: int|
                0 <= i < before.len() + 1 && 0 <= j < before.len() + 1 && i != j implies before.push(
                name,
            )[i] != before.push(name)[j] by {
                if i < before.len() && j < before.len() {
                } else if i < before.len() {
                    assert(before.contains(before[i]));
                } else {
                    assert(before.contains(before[j]));
                }
            }
        }
    }
}

/// The offset of a name depends only on the order in which names were first
/// met: it is one slot for each different name met before it, and one more.
pub proof fn lemma_offset_by_first_occurrence(refs: Seq<Seq<char>>, k: int)
    requires
        0 <= k < refs.len(),
        forall|i: int| 0 <= i < k ==> refs[i] != refs[k],
    ensures
        known(met(Seq::empty(), refs), refs[k]),
        slot_offset(find(met(Seq::empty(), refs), refs[k], 0)) == SLOT_WIDTH * (refs.take(
            k,
        ).to_set().len() + 1),
{
    let empty = Seq::<Seq<char>>::empty();
    let name = refs[k];
    let front = refs.take(k);
    let before = met(empty, front);
    lemma_met_names(empty, front);
    before.unique_seq_to_set();
    assert(empty.to_set() =~= Set::<Seq<char>>::empty());
    assert(before.to_set() =~= front.to_set());
    lemma_known(before, name);
    if before.contains(name) {
        assert(front.to_set().contains(name));
        let i = choose|i: int| 0 <= i < front.len() && front[i] == name;
        assert(refs[i] == name);
    }
    lemma_find_push(before, name, name, 0);
    lemma_find(before, name, 0);
    let with = resolve(before, name);
    assert(find(with, name, 0) == before.len());
    assert(refs.take(k + 1).drop_last() =~= front);
    assert(refs.take(k + 1).last() == name);
    assert(met(empty, refs.take(k + 1)) == with);
    assert(refs =~= refs.take(k + 1) + refs.skip(k + 1));
    lemma_met_append(empty, refs.take(k + 1), refs.skip(k + 1));
    lemma_met_keeps(with, name, refs.skip(k + 1));
}

/// Generation gets to its end exactly where every assignment has a variable
/// on its left side.
pub proof fn lemma_emit_done(tree: Tree, table: Seq<Seq<char>>)
    ensures
        emit(tree, table).done == assignable(tree),
    decreases tree,
{
    match tree {
        Tree::Number(_) => {},
        Tree::Variable(_) => {},
        Tree::Return(expr) => {
            lemma_emit_done(*expr, table);
        },
        Tree::Binary(Operator::Assign, lhs, rhs) => {
            lemma_emit_done(*rhs, emit_address(*lhs, table).table);
        },
        Tree::Binary(_, lhs, rhs) => {
            lemma_emit_done(*lhs, table);
            lemma_emit_done(*rhs, emit(*lhs, table).table);
        },
    }
}

/// Meeting one name.
proof fn lemma_met_single(table: Seq<Seq<char>>, name: Seq<char>)
    ensures
        met(table, seq![name]) == resolve(table, name),
{
    assert(seq![name].drop_last() =~= Seq::<Seq<char>>::empty());
    assert(met(table, seq![name].drop_last()) == table);
}

/// Generation leaves the table as meeting the variables of the tree in their
/// order leaves it.
pub proof fn lemma_emit_table(tree: Tree, table: Seq<Seq<char>>)
    ensures
        emit(tree, table).table == met(table, references(tree)),
    decreases tree,
{
    match tree {
        Tree::Number(_) => {},
        Tree::Variable(name) => {
            lemma_met_single(table, name);
        },
        Tree::Return(expr) => {
            lemma_emit_table(*expr, table);
        },
        Tree::Binary(Operator::Assign, lhs, rhs) => {
            if let Tree::Variable(name) = *lhs {
                lemma_met_single(table, name);
                lemma_emit_table(*rhs, resolve(table, name));
                lemma_met_append(table, seq![name], references(*rhs));
            }
        },
        Tree::Binary(_, lhs, rhs) => {
            lemma_emit_table(*lhs, table);
            lemma_emit_done(*lhs, table);
            if assignable(*lhs) {
                lemma_emit_table(*rhs, emit(*lhs, table).table);
                lemma_met_append(table, references(*lhs), references(*rhs));
            }
        },
    }
}

/// Generating the statements from `from` on gets to its end exactly where
/// every assignment in them has a variable on its left side.
proof fn lemma_emit_statements_done(program: Seq<Tree>, from: int, table: Seq<Seq<char>>)
    requires
        0 <= from,
    ensures
        emit_statements(program, from, table).done == (forall|i: int|
            from <= i < program.len() ==> assignable(#[trigger] program[i])),
    decreases program.len() - from,
{
    if from < program.len() {
        lemma_emit_done(program[from], table);
        lemma_emit_statements_done(program, from + 1, emit(program[from], table).table);
    }
}

/// A unit is generated to its end exactly where every assignment in its
/// statements has a variable on its left side.
pub proof fn lemma_emit_unit_done(program: Seq<Tree>, table: Seq<Seq<char>>)
    ensures
        emit_unit(program, table).done == (forall|i: int|
            0 <= i < program.len() ==> assignable(#[trigger] program[i])),
{
    lemma_emit_statements_done(program, 0, table);
}

/// The generator: the variables met so far, in the order in which they were
/// first met, and the instructions emitted so far.
#[derive(Debug)]
pub struct Generator {
    vars: Vec<String>,
    code: Vec<Instruction>,
}

impl Generator {
    /// The variables met so far, first met first.
    pub closed spec fn table(&self) -> Seq<Seq<char>> {
        names(self.vars@)
    }

    /// The instructions emitted so far.
    pub closed spec fn code(&self) -> Seq<Instruction> {
        self.code@
    }

    /// A generator that has met no variable and emitted nothing.
    pub fn new() -> (generator: Self)
        ensures
            generator.table() == Seq::<Seq<char>>::empty(),
            generator.code() == Seq::<Instruction>::empty(),
    {
        let generator = Generator { vars: Vec::new(), code: Vec::new() };
        assert(generator.table() =~= Seq::<Seq<char>>::empty());
        generator
    }

    /// The instructions emitted so far.
    pub fn instructions(&self) -> (code: &Vec<Instruction>)
        ensures
            code@ == self.code(),
    {
        &self.code
    }

    /// The instructions emitted so far, out of the generator.
    pub fn into_instructions(self) -> (code: Vec<Instruction>)
        ensures
            code@ == self.code(),
    {
        self.code
    }

    /// The largest offset given out so far; 0 where none was.
    pub fn max_offset(&self) -> (offset: u128)
        ensures
            offset == SLOT_WIDTH * self.table().len(),
    {
        SLOT_WIDTH * (self.vars.len() as u128)
    }

    /// The offset of `name`. A name that is met for the first time gets the
    /// offset after the largest one; a name that was met before has its own.
    pub fn get_offset(&mut self, name: String) -> (offset: u128)
        ensures
            final(self).table() == resolve(old(self).table(), name@),
            final(self).code() == old(self).code(),
            offset == offset_of(old(self).table(), name@),
    {
        let ghost table = self.table();
        let mut index: usize = 0;
        while index < self.vars.len()
            invariant
                self.table() == table,
                table == old(self).table(),
                self.code() == old(self).code(),
                index <= self.vars@.len(),
                find(table, name@, 0) == find(table, name@, index as int),
            decreases self.vars@.len() - index,
        {
            if self.vars[index] == name {
                return SLOT_WIDTH * (index as u128 + 1);
            }
            index += 1;
        }
        let offset = self.max_offset() + SLOT_WIDTH;
        self.vars.push(name);
        proof {
            assert(self.table() =~= table.push(name@));
            lemma_find_push(table, name@, name@, 0);
        }
        offset
    }

    /// Emits one instruction.
    fn put(&mut self, instruction: Instruction)
        ensures
            final(self).table() == old(self).table(),
            final(self).code() == old(self).code().push(instruction),
    {
        self.code.push(instruction);
    }

    /// Emits the instructions that push the address of the variable `node`.
    pub fn gen_lval(&mut self, node: &Node) -> (r: Result<(), AssignTargetError>)
        ensures
            final(self).table() == emit_address(node@, old(self).table()).table,
            final(self).code() == old(self).code() + emit_address(node@, old(self).table()).code,
            r is Ok == emit_address(node@, old(self).table()).done,
    {
        match node {
            Node::VariableRef(name) => {
                let offset = self.get_offset(name.clone());
                self.put(Instruction::Mov(Register::Rax, Register::Rbp));
                self.put(Instruction::SubImm(Register::Rax, offset));
                self.put(Instruction::Push(Register::Rax));
                assert(self.code() =~= old(self).code() + address(offset as int));
                Ok(())
            },
            _ => {
                assert(self.code() =~= old(self).code() + Seq::<Instruction>::empty());
                Err(AssignTargetError)
            },
        }
    }

    /// Emits the instructions that push the value of `node`. Where an
    /// assignment in it has no variable on its left side, what was emitted up
    /// to there stays and nothing more is emitted.
    pub fn gen(&mut self, node: &Node) -> (r: Result<(), AssignTargetError>)
        ensures
            final(self).table() == emit(node@, old(self).table()).table,
            final(self).code() == old(self).code() + emit(node@, old(self).table()).code,
            r is Ok == emit(node@, old(self).table()).done,
            r is Ok == assignable(node@),
            final(self).table() == met(old(self).table(), references(node@)),
        decreases node,
    {
        proof {
            lemma_emit_done(node@, self.table());
            lemma_emit_table(node@, self.table());
        }
        let ghost before = self.code();
        let ghost table = self.table();
        match node {
            Node::ReturnStatement(expr) => {
                self.gen(expr)?;
                self.put(Instruction::Pop(Register::Rax));
                self.put(Instruction::Mov(Register::Rsp, Register::Rbp));
                self.put(Instruction::Pop(Register::Rbp));
                self.put(Instruction::Ret);
                assert(self.code() =~= before + (emit(expr@, table).code + (seq![
                    Instruction::Pop(Register::Rax),
                ] + epilogue())));
                Ok(())
            },
            Node::NumberLiteral(val) => {
                self.put(Instruction::PushImm(*val));
                assert(self.code() =~= before + seq![Instruction::PushImm(*val)]);
                Ok(())
            },
            Node::VariableRef(_) => {
                self.gen_lval(node)?;
                self.put(Instruction::Pop(Register::Rax));
                self.put(Instruction::Load(Register::Rax, Register::Rax));
                self.put(Instruction::Push(Register::Rax));
                assert(self.code() =~= before + (emit_address(node@, table).code + load()));
                Ok(())
            },
            Node::BinaryOp(Operator::Assign, lhs, rhs) => {
                self.gen_lval(lhs)?;
                let ghost target = emit_address(lhs@, table);
                let ghost value = emit(rhs@, target.table);
                assert(before + target.code + value.code =~= before + (target.code + value.code));
                self.gen(rhs)?;

                self.put(Instruction::Pop(Register::Rdi));
                self.put(Instruction::Pop(Register::Rax));
                self.put(Instruction::Store(Register::Rax, Register::Rdi));
                self.put(Instruction::Push(Register::Rdi));
                assert(self.code() =~= before + (target.code + value.code + store()));
                Ok(())
            },
            Node::BinaryOp(op, lhs, rhs) => {
                self.gen(lhs)?;
                let ghost left = emit(lhs@, table);
                let ghost right = emit(rhs@, left.table);
                assert(before + left.code + right.code =~= before + (left.code + right.code));
                self.gen(rhs)?;

                self.put(Instruction::Pop(Register::Rdi));
                self.put(Instruction::Pop(Register::Rax));

                match op {
                    Operator::Add => {
                        self.put(Instruction::Add(Register::Rax, Register::Rdi));
                    },
                    Operator::Sub => {
                        self.put(Instruction::Sub(Register::Rax, Register::Rdi));
                    },
                    Operator::Mul => {
                        self.put(Instruction::Mul(Register::Rdi));
                    },
                    Operator::Div => {
                        self.put(Instruction::MovImm(Register::Rdx, 0));
                        self.put(Instruction::Div(Register::Rdi));
                    },
                    Operator::Assign => {},
                }
                self.put(Instruction::Push(Register::Rax));
                assert(self.code() =~= before + (left.code + right.code + arithmetic(*op)));
                Ok(())
            },
        }
    }

    /// Emits the assembly unit for `program`. Where a statement cannot be
    /// generated, what was emitted up to there stays and nothing more is
    /// emitted.
    pub fn gen_unit(&mut self, program: &Vec<Node>) -> (r: Result<(), AssignTargetError>)
        ensures
            final(self).table() == emit_unit(trees(program@), old(self).table()).table,
            final(self).code() == old(self).code() + emit_unit(
                trees(program@),
                old(self).table(),
            ).code,
            r is Ok == emit_unit(trees(program@), old(self).table()).done,
            r is Ok == (forall|i: int|
                0 <= i < program@.len() ==> assignable(#[trigger] trees(program@)[i])),
    {
        proof {
            lemma_emit_unit_done(trees(program@), self.table());
        }
        let ghost before = self.code();
        let ghost table = self.table();
        let ghost all = trees(program@);
        self.put(Instruction::IntelSyntax);
        self.put(Instruction::GlobalMain);
        self.put(Instruction::MainLabel);

        self.put(Instruction::Push(Register::Rbp));
        self.put(Instruction::Mov(Register::Rbp, Register::Rsp));
        self.put(Instruction::SubImm(Register::Rsp, FRAME_SIZE));

        let ghost start = before + (header() + prologue());
        let ghost mut emitted = Seq::<Instruction>::empty();
        assert(self.code() =~= start + emitted);
        let mut index: usize = 0;
        while index < program.len()
            invariant
                index <= program@.len(),
                all == trees(program@),
                before == old(self).code(),
                table == old(self).table(),
                start == before + (header() + prologue()),
                self.code() == start + emitted,
                emit_statements(all, 0, table) == emit_statements(
                    all,
                    index as int,
                    self.table(),
                ).preceded_by(emitted),
            decreases program@.len() - index,
        {
            let ghost here = self.table();
            let ghost first = emit(all[index as int], here);
            assert(all[index as int] == program@[index as int]@);
            match self.gen(&program[index]) {
                Ok(()) => {},
                Err(e) => {
                    proof {
                        assert(start + emitted + first.code =~= before + ((header() + prologue())
                            + (emitted + first.code)));
                    }
                    return Err(e);
                },
            }
            self.put(Instruction::Pop(Register::Rax));
            proof {
                let one = first.code + seq![Instruction::Pop(Register::Rax)];
                let rest = emit_statements(all, index + 1, self.table());
                assert(emitted + (one + rest.code) =~= (emitted + one) + rest.code);
                assert(self.code() =~= start + (emitted + one));
                emitted = emitted + one;
            }
            index += 1;
        }

        self.put(Instruction::Mov(Register::Rsp, Register::Rbp));
        self.put(Instruction::Pop(Register::Rbp));
        self.put(Instruction::Ret);
        proof {
            assert(emitted + Seq::<Instruction>::empty() =~= emitted);
            assert(self.code() =~= before + ((header() + prologue()) + emitted + epilogue()));
        }
        Ok(())
    }
}

} // verus!
