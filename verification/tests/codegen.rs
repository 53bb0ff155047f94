use minicc::code::{assembly, push_decimal, push_signed, Instruction, Register};
use minicc::gen::{AssignTargetError, Generator, FRAME_SIZE, SLOT_WIDTH};
use minicc::parse::{Node, Operator};
use minicc::token::{TokenType, Tokenizer};
use minicc::{compile, CompileError};
use std::collections::HashMap;

use Instruction::{
    Add, Div, GlobalMain, IntelSyntax, Load, MainLabel, Mov, MovImm, Mul, Pop, Push, PushImm, Ret,
    Store, Sub, SubImm,
};
use Register::{Rax, Rbp, Rdi, Rdx, Rsp};

fn num(val: i32) -> Node {
    Node::new_node_num(val)
}

fn var(name: &str) -> Node {
    Node::new_node_ident(name.to_string())
}

fn bin(op: Operator, lhs: Node, rhs: Node) -> Node {
    Node::new_node(op, lhs, rhs)
}

fn ret(expr: Node) -> Node {
    Node::ReturnStatement(Box::new(expr))
}

fn gen(node: &Node) -> (Result<(), AssignTargetError>, Vec<Instruction>) {
    let mut generator = Generator::new();
    let r = generator.gen(node);
    (r, generator.into_instructions())
}

fn address(offset: u128) -> Vec<Instruction> {
    vec![Mov(Rax, Rbp), SubImm(Rax, offset), Push(Rax)]
}

fn value(offset: u128) -> Vec<Instruction> {
    [address(offset), vec![Pop(Rax), Load(Rax, Rax), Push(Rax)]].concat()
}

fn text(instruction: Instruction) -> String {
    instruction.to_string()
}

/// Runs the instructions on a small model of the machine and gives what
/// `rax` holds when the unit returns.
fn run(code: &[Instruction]) -> u64 {
    let mut regs: HashMap<Register, u64> = HashMap::new();
    for r in [Rax, Rdi, Rdx, Rbp, Rsp] {
        regs.insert(r, 0);
    }
    let mut memory: HashMap<u64, u64> = HashMap::new();
    let top: u64 = 1 << 20;
    regs.insert(Rsp, top);
    regs.insert(Rbp, 0xdead_beef);
    // The caller's return address.
    regs.insert(Rsp, top - 8);
    memory.insert(top - 8, 0x1234);
    for instruction in code {
        match *instruction {
            IntelSyntax | GlobalMain | MainLabel => {}
            Push(r) => {
                let sp = regs[&Rsp] - 8;
                memory.insert(sp, regs[&r]);
                regs.insert(Rsp, sp);
            }
            PushImm(n) => {
                let sp = regs[&Rsp] - 8;
                memory.insert(sp, n as i64 as u64);
                regs.insert(Rsp, sp);
            }
            Pop(r) => {
                let sp = regs[&Rsp];
                regs.insert(r, memory[&sp]);
                regs.insert(Rsp, sp + 8);
            }
            Mov(d, s) => {
                regs.insert(d, regs[&s]);
            }
            MovImm(d, n) => {
                regs.insert(d, n as i64 as u64);
            }
            Load(d, s) => {
                regs.insert(d, *memory.get(&regs[&s]).unwrap_or(&0));
            }
            Store(d, s) => {
                memory.insert(regs[&d], regs[&s]);
            }
            Add(d, s) => {
                regs.insert(d, regs[&d].wrapping_add(regs[&s]));
            }
            Sub(d, s) => {
                regs.insert(d, regs[&d].wrapping_sub(regs[&s]));
            }
            SubImm(d, n) => {
                regs.insert(d, regs[&d].wrapping_sub(n as u64));
            }
            Mul(s) => {
                let product = (regs[&Rax] as u128) * (regs[&s] as u128);
                regs.insert(Rax, product as u64);
                regs.insert(Rdx, (product >> 64) as u64);
            }
            Div(s) => {
                let dividend = ((regs[&Rdx] as u128) << 64) | regs[&Rax] as u128;
                let divisor = regs[&s] as u128;
                regs.insert(Rax, (dividend / divisor) as u64);
                regs.insert(Rdx, (dividend % divisor) as u64);
            }
            Ret => {
                let sp = regs[&Rsp];
                assert_eq!(memory[&sp], 0x1234, "returns to the caller");
                assert_eq!(regs[&Rbp], 0xdead_beef, "gives the caller's frame back");
                return regs[&Rax];
            }
        }
    }
    panic!("the unit does not return");
}

#[test]
fn constants_are_what_the_frame_is_built_on() {
    assert_eq!(SLOT_WIDTH, 8);
    assert_eq!(FRAME_SIZE, 208);
}

#[test]
fn a_fresh_generator_is_empty() {
    let generator = Generator::new();
    assert_eq!(generator.max_offset(), 0);
    assert!(generator.instructions().is_empty());
}

#[test]
fn a_number_is_pushed() {
    assert_eq!(gen(&num(42)), (Ok(()), vec![PushImm(42)]));
    assert_eq!(gen(&num(-1)), (Ok(()), vec![PushImm(-1)]));
}

#[test]
fn a_variable_is_loaded_through_its_address() {
    assert_eq!(gen(&var("x")), (Ok(()), value(8)));
}

#[test]
fn arithmetic_pops_right_then_left() {
    let operands = vec![PushImm(1), PushImm(2), Pop(Rdi), Pop(Rax)];
    assert_eq!(
        gen(&bin(Operator::Add, num(1), num(2))),
        (Ok(()), [operands.clone(), vec![Add(Rax, Rdi), Push(Rax)]].concat())
    );
    assert_eq!(
        gen(&bin(Operator::Sub, num(1), num(2))),
        (Ok(()), [operands.clone(), vec![Sub(Rax, Rdi), Push(Rax)]].concat())
    );
    assert_eq!(
        gen(&bin(Operator::Mul, num(1), num(2))),
        (Ok(()), [operands.clone(), vec![Mul(Rdi), Push(Rax)]].concat())
    );
    assert_eq!(
        gen(&bin(Operator::Div, num(1), num(2))),
        (Ok(()), [operands, vec![MovImm(Rdx, 0), Div(Rdi), Push(Rax)]].concat())
    );
}

#[test]
fn assignment_stores_and_leaves_the_value() {
    assert_eq!(
        gen(&bin(Operator::Assign, var("x"), num(5))),
        (
            Ok(()),
            [
                address(8),
                vec![PushImm(5), Pop(Rdi), Pop(Rax), Store(Rax, Rdi), Push(Rdi)],
            ]
            .concat()
        )
    );
}

#[test]
fn return_pops_the_value_and_leaves_the_function() {
    assert_eq!(
        gen(&ret(num(3))),
        (Ok(()), vec![PushImm(3), Pop(Rax), Mov(Rsp, Rbp), Pop(Rbp), Ret])
    );
}

#[test]
fn offsets_follow_the_order_of_first_use() {
    let mut generator = Generator::new();
    assert_eq!(generator.get_offset("b".to_string()), 8);
    assert_eq!(generator.max_offset(), 8);
    assert_eq!(generator.get_offset("a".to_string()), 16);
    assert_eq!(generator.get_offset("b".to_string()), 8);
    assert_eq!(generator.get_offset("c".to_string()), 24);
    assert_eq!(generator.get_offset("a".to_string()), 16);
    assert_eq!(generator.max_offset(), 24);
    assert!(generator.instructions().is_empty());
}

#[test]
fn names_that_differ_in_one_character_are_different_variables() {
    let mut generator = Generator::new();
    assert_eq!(generator.get_offset("ab".to_string()), 8);
    assert_eq!(generator.get_offset("a".to_string()), 16);
    assert_eq!(generator.get_offset("abc".to_string()), 24);
    assert_eq!(generator.get_offset("aB".to_string()), 32);
    assert_eq!(generator.get_offset("ab".to_string()), 8);
}

#[test]
fn offsets_go_on_beyond_the_frame() {
    let mut generator = Generator::new();
    for index in 0..40u128 {
        assert_eq!(generator.get_offset(format!("v{}", index)), 8 * (index + 1));
    }
    assert_eq!(generator.get_offset("v26".to_string()), 216);
    assert_eq!(generator.max_offset(), 320);
}

#[test]
fn offsets_hold_across_statements() {
    let mut generator = Generator::new();
    generator.gen(&bin(Operator::Assign, var("x"), var("y"))).unwrap();
    generator.gen(&bin(Operator::Add, var("y"), var("z"))).unwrap();
    generator.gen(&var("x")).unwrap();
    let expected = [
        address(8),
        value(16),
        vec![Pop(Rdi), Pop(Rax), Store(Rax, Rdi), Push(Rdi)],
        value(16),
        value(24),
        vec![Pop(Rdi), Pop(Rax), Add(Rax, Rdi), Push(Rax)],
        value(8),
    ]
    .concat();
    assert_eq!(generator.instructions(), &expected);
}

#[test]
fn the_left_side_of_an_assignment_is_met_first() {
    let (r, code) = gen(&bin(Operator::Assign, var("a"), bin(Operator::Add, var("b"), var("a"))));
    assert_eq!(r, Ok(()));
    assert_eq!(
        code,
        [
            address(8),
            value(16),
            value(8),
            vec![Pop(Rdi), Pop(Rax), Add(Rax, Rdi), Push(Rax)],
            vec![Pop(Rdi), Pop(Rax), Store(Rax, Rdi), Push(Rdi)],
        ]
        .concat()
    );
}

#[test]
fn address_of_a_variable_only() {
    let mut generator = Generator::new();
    assert_eq!(generator.gen_lval(&var("x")), Ok(()));
    assert_eq!(generator.instructions(), &address(8));
    assert_eq!(generator.gen_lval(&num(1)), Err(AssignTargetError));
    assert_eq!(generator.gen_lval(&bin(Operator::Add, var("y"), num(1))), Err(AssignTargetError));
    assert_eq!(generator.gen_lval(&ret(var("x"))), Err(AssignTargetError));
    assert_eq!(generator.instructions(), &address(8));
    assert_eq!(generator.max_offset(), 8);
}

#[test]
fn assignment_to_what_is_no_variable_fails() {
    assert_eq!(gen(&bin(Operator::Assign, num(1), num(2))), (Err(AssignTargetError), vec![]));
    assert_eq!(
        gen(&bin(Operator::Assign, bin(Operator::Add, var("a"), var("b")), num(1))),
        (Err(AssignTargetError), vec![])
    );
}

#[test]
fn what_was_emitted_before_the_failure_stays() {
    let bad = bin(Operator::Assign, num(1), num(2));
    assert_eq!(
        gen(&bin(Operator::Add, num(7), bad)),
        (Err(AssignTargetError), vec![PushImm(7)])
    );
    let bad = bin(Operator::Assign, num(1), num(2));
    assert_eq!(
        gen(&bin(Operator::Add, bad, num(7))),
        (Err(AssignTargetError), vec![])
    );
    let bad = bin(Operator::Assign, num(1), num(2));
    assert_eq!(
        gen(&bin(Operator::Assign, var("x"), bad)),
        (Err(AssignTargetError), address(8))
    );
    let bad = bin(Operator::Assign, num(1), num(2));
    assert_eq!(gen(&ret(bad)), (Err(AssignTargetError), vec![]));
}

#[test]
fn a_unit_has_header_prologue_statements_epilogue() {
    let mut generator = Generator::new();
    assert_eq!(generator.gen_unit(&vec![num(1), num(2)]), Ok(()));
    assert_eq!(
        generator.into_instructions(),
        vec![
            IntelSyntax,
            GlobalMain,
            MainLabel,
            Push(Rbp),
            Mov(Rbp, Rsp),
            SubImm(Rsp, 208),
            PushImm(1),
            Pop(Rax),
            PushImm(2),
            Pop(Rax),
            Mov(Rsp, Rbp),
            Pop(Rbp),
            Ret,
        ]
    );
}

#[test]
fn an_empty_unit_still_returns() {
    let mut generator = Generator::new();
    assert_eq!(generator.gen_unit(&vec![]), Ok(()));
    assert_eq!(
        generator.into_instructions(),
        vec![
            IntelSyntax,
            GlobalMain,
            MainLabel,
            Push(Rbp),
            Mov(Rbp, Rsp),
            SubImm(Rsp, 208),
            Mov(Rsp, Rbp),
            Pop(Rbp),
            Ret,
        ]
    );
}

#[test]
fn a_unit_stops_at_the_statement_that_fails() {
    let mut generator = Generator::new();
    let program = vec![num(1), bin(Operator::Assign, num(2), num(3)), num(4)];
    assert_eq!(generator.gen_unit(&program), Err(AssignTargetError));
    assert_eq!(
        generator.into_instructions(),
        vec![
            IntelSyntax,
            GlobalMain,
            MainLabel,
            Push(Rbp),
            Mov(Rbp, Rsp),
            SubImm(Rsp, 208),
            PushImm(1),
            Pop(Rax),
        ]
    );
}

#[test]
fn lines_are_written_as_the_assembler_reads_them() {
    assert_eq!(text(IntelSyntax), ".intel_syntax noprefix");
    assert_eq!(text(GlobalMain), ".global main");
    assert_eq!(text(MainLabel), "main:");
    assert_eq!(text(Push(Rbp)), "  push rbp");
    assert_eq!(text(Push(Rax)), "  push rax");
    assert_eq!(text(Push(Rdi)), "  push rdi");
    assert_eq!(text(PushImm(42)), "  push 42");
    assert_eq!(text(PushImm(0)), "  push 0");
    assert_eq!(text(PushImm(-7)), "  push -7");
    assert_eq!(text(PushImm(i32::MAX)), "  push 2147483647");
    assert_eq!(text(PushImm(i32::MIN)), "  push -2147483648");
    assert_eq!(text(Pop(Rax)), "  pop rax");
    assert_eq!(text(Pop(Rdi)), "  pop rdi");
    assert_eq!(text(Pop(Rbp)), "  pop rbp");
    assert_eq!(text(Mov(Rbp, Rsp)), "  mov rbp, rsp");
    assert_eq!(text(Mov(Rsp, Rbp)), "  mov rsp, rbp");
    assert_eq!(text(Mov(Rax, Rbp)), "  mov rax, rbp");
    assert_eq!(text(MovImm(Rdx, 0)), "  mov rdx, 0");
    assert_eq!(text(Load(Rax, Rax)), "  mov rax, [rax]");
    assert_eq!(text(Store(Rax, Rdi)), "  mov [rax], rdi");
    assert_eq!(text(Add(Rax, Rdi)), "  add rax, rdi");
    assert_eq!(text(Sub(Rax, Rdi)), "  sub rax, rdi");
    assert_eq!(text(SubImm(Rsp, 208)), "  sub rsp, 208");
    assert_eq!(text(SubImm(Rax, 8)), "  sub rax, 8");
    assert_eq!(text(Mul(Rdi)), "  mul rdi");
    assert_eq!(text(Div(Rdi)), "  div rdi");
    assert_eq!(text(Ret), "  ret");
}

#[test]
fn numbers_are_written_in_decimal() {
    for n in [0u128, 1, 9, 10, 11, 99, 100, 208, 1000, 123456789, u64::MAX as u128, u128::MAX] {
        let mut text = String::from("x");
        push_decimal(&mut text, n);
        assert_eq!(text, format!("x{}", n));
    }
    for n in [0i32, 1, -1, 9, -9, 10, -10, 2147483647, -2147483647, -2147483648] {
        let mut text = String::from("y");
        push_signed(&mut text, n);
        assert_eq!(text, format!("y{}", n));
    }
}

#[test]
fn a_listing_has_one_line_for_each_instruction() {
    assert_eq!(assembly(&vec![]), "");
    assert_eq!(assembly(&vec![Ret]), "  ret\n");
    assert_eq!(
        assembly(&vec![MainLabel, PushImm(1), Pop(Rax), Ret]),
        "main:\n  push 1\n  pop rax\n  ret\n"
    );
}

#[test]
fn the_whole_unit_as_text() {
    let code = compile("a = 1; a + 2;").unwrap();
    let expected = "\
.intel_syntax noprefix
.global main
main:
  push rbp
  mov rbp, rsp
  sub rsp, 208
  mov rax, rbp
  sub rax, 8
  push rax
  push 1
  pop rdi
  pop rax
  mov [rax], rdi
  push rdi
  pop rax
  mov rax, rbp
  sub rax, 8
  push rax
  pop rax
  mov rax, [rax]
  push rax
  push 2
  pop rdi
  pop rax
  add rax, rdi
  push rax
  pop rax
  mov rsp, rbp
  pop rbp
  ret
";
    assert_eq!(assembly(&code), expected);
}

#[test]
fn assigned_sum_is_returned() {
    // x = 2*3+4; return x;
    let program = vec![
        bin(
            Operator::Assign,
            var("x"),
            bin(Operator::Add, bin(Operator::Mul, num(2), num(3)), num(4)),
        ),
        ret(var("x")),
    ];
    let mut generator = Generator::new();
    assert_eq!(generator.gen_unit(&program), Ok(()));
    assert_eq!(run(generator.instructions()), 10);
}

#[test]
fn return_skips_what_follows() {
    let program = vec![ret(num(1)), ret(num(2))];
    let mut generator = Generator::new();
    assert_eq!(generator.gen_unit(&program), Ok(()));
    assert_eq!(run(generator.instructions()), 1);
}

#[test]
fn the_last_statement_is_what_a_unit_without_return_gives() {
    assert_eq!(run(&compile("x = 2*3+4; x;").unwrap()), 10);
    assert_eq!(run(&compile("a = 3; b = a * a; b - 1;").unwrap()), 8);
    assert_eq!(run(&compile("a = b = 7; a + b;").unwrap()), 14);
    assert_eq!(run(&compile("(1 + 2) * (3 + 4) / 5;").unwrap()), 4);
    assert_eq!(run(&compile("100 - 1 - 2;").unwrap()), 97);
    assert_eq!(run(&compile("x = 5; x = x + 1; x = x * x; x;").unwrap()), 36);
    assert_eq!(run(&compile("first = 1; second = 2; first = 10; first + second;").unwrap()), 12);
}

#[test]
fn variables_do_not_share_a_slot() {
    let names: Vec<String> = (0..26).map(|i| format!("v{}", i)).collect();
    let mut source = String::new();
    for (i, name) in names.iter().enumerate() {
        source.push_str(&format!("{} = {};", name, i + 1));
    }
    source.push_str(&names.join("+"));
    source.push(';');
    assert_eq!(run(&compile(&source).unwrap()), (1..=26).sum::<u64>());
}

#[test]
fn pipeline_reports_the_first_thing_that_is_wrong() {
    match compile("1 + #") {
        Err(CompileError::Lex(e)) => {
            assert_eq!(e.character, '#');
            assert_eq!(e.position, 4);
        }
        other => panic!("{:?}", other),
    }
    match compile("1 + ;") {
        Err(CompileError::Parse(e)) => assert_eq!(e.description(), ";"),
        other => panic!("{:?}", other),
    }
    match compile("return 1;") {
        Err(CompileError::Parse(e)) => assert_eq!(e.description(), "return"),
        other => panic!("{:?}", other),
    }
    match compile("1; (a+b) = 2; 3;") {
        Err(CompileError::AssignTarget(code)) => assert_eq!(
            code,
            vec![
                IntelSyntax,
                GlobalMain,
                MainLabel,
                Push(Rbp),
                Mov(Rbp, Rsp),
                SubImm(Rsp, 208),
                PushImm(1),
                Pop(Rax),
            ]
        ),
        other => panic!("{:?}", other),
    }
    // A lexical error comes before a grammatical one, wherever they stand.
    assert!(matches!(compile("1 + ; #"), Err(CompileError::Lex(_))));
    assert!(matches!(compile("1 = 2; +"), Err(CompileError::Parse(_))));
}

#[test]
fn registers_have_their_names() {
    assert_eq!(Rax.name(), "rax");
    assert_eq!(Rdi.name(), "rdi");
    assert_eq!(Rdx.name(), "rdx");
    assert_eq!(Rbp.name(), "rbp");
    assert_eq!(Rsp.name(), "rsp");
}

#[test]
fn what_is_written_for_a_number_is_read_as_that_number() {
    for n in [0u128, 7, 10, 208, 2147483647] {
        let mut text = String::new();
        push_decimal(&mut text, n);
        let tokens = Tokenizer::new(&text).tokenize().unwrap();
        assert_eq!(tokens[0].ty, TokenType::Number(n as i32));
        assert_eq!(tokens[0].input, text);
        assert_eq!(tokens.len(), 2);
    }
}
