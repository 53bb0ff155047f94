//! The instructions that the generator emits, and their text.

use crate::token::{decimal_value, digit};
use vstd::prelude::*;

verus! {

/// The registers that the generated code uses.
#[derive(Debug, Clone, Copy, PartialEq, Eq, Hash, Structural)]
pub enum Register {
    Rax,
    Rdi,
    Rdx,
    Rbp,
    Rsp,
}

/// One line of the assembly unit.
#[derive(Debug, Clone, Copy, PartialEq, Eq, Hash, Structural)]
pub enum Instruction {
    /// `.intel_syntax noprefix`
    IntelSyntax,
    /// `.global main`
    GlobalMain,
    /// `main:`
    MainLabel,
    /// `push r`
    Push(Register),
    /// `push n`
    PushImm(i32),
    /// `pop r`
    Pop(Register),
    /// `mov d, s`
    Mov(Register, Register),
    /// `mov d, n`
    MovImm(Register, i32),
    /// `mov d, [s]`
    Load(Register, Register),
    /// `mov [d], s`
    Store(Register, Register),
    /// `add d, s`
    Add(Register, Register),
    /// `sub d, s`
    Sub(Register, Register),
    /// `sub d, n`
    SubImm(Register, u128),
    /// `mul s`
    Mul(Register),
    /// `div s`
    Div(Register),
    /// `ret`
    Ret,
}

/// The character of a decimal digit.
pub open spec fn digit_char(d: int) -> char {
    ('0' as int + d) as char
}

/// The decimal digits of `n`, without leading zeros.
pub open spec fn decimal(n: nat) -> Seq<char>
    decreases n,
{
    if n < 10 {
        seq![digit_char(n as int)]
    } else {
        decimal(n / 10).push(digit_char(n as int % 10))
    }
}

/// The decimal digits of `n`, after a minus sign where `n` is negative.
pub open spec fn signed_decimal(n: int) -> Seq<char> {
    if n < 0 {
        seq!['-'] + decimal((-n) as nat)
    } else {
        decimal(n as nat)
    }
}

/// The digits that are written for a number are decimal digits, and are read
/// back as that number.
pub proof fn lemma_decimal(n: nat)
    ensures
        decimal(n).len() >= 1,
        forall|i: int| 0 <= i < decimal(n).len() ==> digit(#[trigger] decimal(n)[i]),
        decimal_value(decimal(n)) == n,
        decimal(n).len() > 1 ==> decimal(n)[0] != '0',
    decreases n,
{
    if n < 10 {
        let digits = seq![digit_char(n as int)];
        assert(digits.drop_last() =~= Seq::<char>::empty());
        assert(decimal_value(digits.drop_last()) == 0);
    } else {
        lemma_decimal(n / 10);
        let front = decimal(n / 10);
        let digits = front.push(digit_char(n as int % 10));
        assert(digits.drop_last() =~= front);
        assert forall|i: int| 0 <= i < digits.len() implies digit(#[trigger] digits[i]) by {
            if i < front.len() {
                assert(digits[i] == front[i]);
            }
        }
        assert(digits[0] == front[0]);
        if front.len() == 1 {
            assert(decimal_value(front.drop_last()) == 0) by {
                assert(front.drop_last() =~= Seq::<char>::empty());
            }
        }
    }
}

impl Register {
    /// The name of the register in specifications.
    pub open spec fn text(self) -> Seq<char> {
        match self {
            Register::Rax => "rax"@,
            Register::Rdi => "rdi"@,
            Register::Rdx => "rdx"@,
            Register::Rbp => "rbp"@,
            Register::Rsp => "rsp"@,
        }
    }

    /// The name of the register.
    pub fn name(&self) -> (name: &'static str)
        ensures
            name@ == self.text(),
    {
        match self {
            Register::Rax => "rax",
            Register::Rdi => "rdi",
            Register::Rdx => "rdx",
            Register::Rbp => "rbp",
            Register::Rsp => "rsp",
        }
    }
}

impl Instruction {
    /// The line of assembly text in specifications.
    pub open spec fn text(self) -> Seq<char> {
        match self {
            Instruction::IntelSyntax => ".intel_syntax noprefix"@,
            Instruction::GlobalMain => ".global main"@,
            Instruction::MainLabel => "main:"@,
            Instruction::Push(r) => "  push "@ + r.text(),
            Instruction::PushImm(n) => "  push "@ + signed_decimal(n as int),
            Instruction::Pop(r) => "  pop "@ + r.text(),
            Instruction::Mov(d, s) => "  mov "@ + d.text() + ", "@ + s.text(),
            Instruction::MovImm(d, n) => "  mov "@ + d.text() + ", "@ + signed_decimal(n as int),
            Instruction::Load(d, s) => "  mov "@ + d.text() + ", ["@ + s.text() + "]"@,
            Instruction::Store(d, s) => "  mov ["@ + d.text() + "], "@ + s.text(),
            Instruction::Add(d, s) => "  add "@ + d.text() + ", "@ + s.text(),
            Instruction::Sub(d, s) => "  sub "@ + d.text() + ", "@ + s.text(),
            Instruction::SubImm(d, n) => "  sub "@ + d.text() + ", "@ + decimal(n as nat),
            Instruction::Mul(s) => "  mul "@ + s.text(),
            Instruction::Div(s) => "  div "@ + s.text(),
            Instruction::Ret => "  ret"@,
        }
    }

    /// The line of assembly text.
    pub fn to_string(&self) -> (line: String)
        ensures
            line@ == self.text(),
    {
        match self {
            Instruction::IntelSyntax => ".intel_syntax noprefix".to_owned(),
            Instruction::GlobalMain => ".global main".to_owned(),
            Instruction::MainLabel => "main:".to_owned(),
            Instruction::Push(r) => "  push ".to_owned().concat(r.name()),
            Instruction::PushImm(n) => {
                let mut line = "  push ".to_owned();
                push_signed(&mut line, *n);
                line
            },
            Instruction::Pop(r) => "  pop ".to_owned().concat(r.name()),
            Instruction::Mov(d, s) => "  mov ".to_owned().concat(d.name()).concat(", ").concat(
                s.name(),
            ),
            Instruction::MovImm(d, n) => {
                let mut line = "  mov ".to_owned().concat(d.name()).concat(", ");
                push_signed(&mut line, *n);
                line
            },
            Instruction::Load(d, s) => "  mov ".to_owned().concat(d.name()).concat(", [").concat(
                s.name(),
            ).concat("]"),
            Instruction::Store(d, s) => "  mov [".to_owned().concat(d.name()).concat("], ").concat(
                s.name(),
            ),
            Instruction::Add(d, s) => "  add ".to_owned().concat(d.name()).concat(", ").concat(
                s.name(),
            ),
            Instruction::Sub(d, s) => "  sub ".to_owned().concat(d.name()).concat(", ").concat(
                s.name(),
            ),
            Instruction::SubImm(d, n) => {
                let mut line = "  sub ".to_owned().concat(d.name()).concat(", ");
                push_decimal(&mut line, *n);
                line
            },
            Instruction::Mul(s) => "  mul ".to_owned().concat(s.name()),
            Instruction::Div(s) => "  div ".to_owned().concat(s.name()),
            Instruction::Ret => "  ret".to_owned(),
        }
    }
}

/// The text of one decimal digit.
fn digit_text(d: u128) -> (text: &'static str)
    requires
        d < 10,
    ensures
        text@ == seq![digit_char(d as int)],
{
    proof {
        reveal_strlit("0");
        reveal_strlit("1");
        reveal_strlit("2");
        reveal_strlit("3");
        reveal_strlit("4");
        reveal_strlit("5");
        reveal_strlit("6");
        reveal_strlit("7");
        reveal_strlit("8");
        reveal_strlit("9");
    }
    let text = if d == 0 {
        "0"
    } else if d == 1 {
        "1"
    } else if d == 2 {
        "2"
    } else if d == 3 {
        "3"
    } else if d == 4 {
        "4"
    } else if d == 5 {
        "5"
    } else if d == 6 {
        "6"
    } else if d == 7 {
        "7"
    } else if d == 8 {
        "8"
    } else {
        "9"
    };
    assert(text@ =~= seq![digit_char(d as int)]);
    text
}

/// Appends the decimal digits of `n` to `text`.
pub fn push_decimal(text: &mut String, n: u128)
    ensures
        final(text)@ == old(text)@ + decimal(n as nat),
    decreases n,
{
    if n >= 10 {
        push_decimal(text, n / 10);
    }
    text.append(digit_text(n % 10));
    proof {
        if n >= 10 {
            assert(old(text)@ + decimal(n as nat / 10) + seq![digit_char(n as int % 10)] =~= old(
                text,
            )@ + decimal(n as nat));
        }
    }
}

/// Appends the decimal digits of `n` to `text`, after a minus sign where `n`
/// is negative.
pub fn push_signed(text: &mut String, n: i32)
    ensures
        final(text)@ == old(text)@ + signed_decimal(n as int),
{
    if n < 0 {
        text.append("-");
        proof {
            reveal_strlit("-");
        }
        push_decimal(text, (-(n as i64)) as u128);
        assert(old(text)@ + "-"@ + decimal((-n) as nat) =~= old(text)@ + (seq!['-'] + decimal(
            (-n) as nat,
        )));
    } else {
        push_decimal(text, n as u128);
    }
}

/// The text of an assembly unit in specifications: each line with a line
/// feed after it.
pub open spec fn listing(code: Seq<Instruction>) -> Seq<char>
    decreases code.len(),
{
    if code.len() == 0 {
        Seq::empty()
    } else {
        listing(code.drop_last()) + code.last().text() + seq!['\n']
    }
}

/// The text of an assembly unit: each line with a line feed after it.
pub fn assembly(code: &Vec<Instruction>) -> (text: String)
    ensures
        text@ == listing(code@),
{
    let mut text = String::new();
    let mut index: usize = 0;
    proof {
        reveal_strlit("\n");
    }
    while index < code.len()
        invariant
            index <= code@.len(),
            text@ == listing(code@.take(index as int)),
            "\n"@ == seq!['\n'],
        decreases code@.len() - index,
    {
        let line = code[index].to_string();
        let ghost before = text@;
        text.append(line.as_str());
        text.append("\n");
        proof {
            let now = code@.take(index + 1);
            assert(now.drop_last() =~= code@.take(index as int));
            assert(now.last() == code@[index as int]);
            assert("\n"@ =~= seq!['\n']);
        }
        index += 1;
    }
    assert(code@.take(index as int) =~= code@);
    text
}

} // verus!
