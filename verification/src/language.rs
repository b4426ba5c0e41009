//! The instruction language as mathematical values: instructions, their
//! symbols, and the text that an instruction sequence is written as.

use vstd::prelude::*;

verus! {

/// One instruction, as a mathematical value.
pub enum Instr {
    /// `+`: add one to the current cell, wrapping at 256.
    Increment,
    /// `-`: subtract one from the current cell, wrapping at 0.
    Decrement,
    /// `>`: move the head one cell to the right.
    MoveRight,
    /// `<`: move the head one cell to the left, staying at cell zero.
    MoveLeft,
    /// `[..]`: run the body while the current cell is not zero.
    Loop(Seq<Instr>),
    /// `,`: read one input byte into the current cell.
    ReadByte,
    /// `.`: write the current cell as a character.
    WriteChar,
    /// `!`: write the current cell as a decimal number.
    WriteInt,
    /// `0`..`9`, `A`..`F`: store sixteen times the digit in the current cell.
    SetConstant(nat),
    /// `@`: copy the current cell to the register.
    SaveRegister,
    /// `*`: copy the register to the current cell.
    LoadRegister,
}

/// The step between the values of two neighbouring constant digits.
pub const CONSTANT_STEP: u8 = 16;

/// The number of symbols of the alphabet, brackets included.
pub const ALPHABET_SIZE: usize = 27;

/// The hexadecimal digit, `0`..`9` then `A`..`F`, that stands for `d`.
pub open spec fn digit_symbol(d: nat) -> char {
    if d < 10 {
        (48 + d) as char
    } else {
        (55 + d) as char
    }
}

/// The instruction that a single symbol other than a bracket stands for.
/// Brackets and characters outside the alphabet stand for none.
pub open spec fn symbol_instr(c: char) -> Option<Instr> {
    if c == '+' {
        Some(Instr::Increment)
    } else if c == '-' {
        Some(Instr::Decrement)
    } else if c == '>' {
        Some(Instr::MoveRight)
    } else if c == '<' {
        Some(Instr::MoveLeft)
    } else if c == ',' {
        Some(Instr::ReadByte)
    } else if c == '.' {
        Some(Instr::WriteChar)
    } else if c == '!' {
        Some(Instr::WriteInt)
    } else if c == '@' {
        Some(Instr::SaveRegister)
    } else if c == '*' {
        Some(Instr::LoadRegister)
    } else if 48 <= c as int <= 57 {
        Some(Instr::SetConstant((c as int - 48) as nat))
    } else if 65 <= c as int <= 70 {
        Some(Instr::SetConstant((c as int - 55) as nat))
    } else {
        None
    }
}

/// Whether `c` belongs to the alphabet of the language.
pub open spec fn is_symbol(c: char) -> bool {
    c == '[' || c == ']' || symbol_instr(c) is Some
}

/// The `k`-th symbol of the alphabet, in its fixed order.
pub open spec fn alphabet(k: int) -> char {
    if k == 0 {
        '+'
    } else if k == 1 {
        '-'
    } else if k == 2 {
        '>'
    } else if k == 3 {
        '<'
    } else if k == 4 {
        '['
    } else if k == 5 {
        ']'
    } else if k == 6 {
        ','
    } else if k == 7 {
        '.'
    } else if 8 <= k < 24 {
        digit_symbol((k - 8) as nat)
    } else if k == 24 {
        '!'
    } else if k == 25 {
        '@'
    } else {
        '*'
    }
}

/// Whether an instruction sequence is one that a text can stand for: no
/// loop is empty and every constant digit is below sixteen.
pub open spec fn well_formed(code: Seq<Instr>) -> bool
    decreases code,
{
    forall|i: int|
        0 <= i < code.len() ==> match #[trigger] code[i] {
            Instr::Loop(body) => body.len() > 0 && well_formed(body),
            Instr::SetConstant(d) => d < 16,
            _ => true,
        }
}

/// The symbol of an instruction that is not a loop.
pub open spec fn instr_symbol(instr: Instr) -> char {
    match instr {
        Instr::Increment => '+',
        Instr::Decrement => '-',
        Instr::MoveRight => '>',
        Instr::MoveLeft => '<',
        Instr::Loop(_) => '[',
        Instr::ReadByte => ',',
        Instr::WriteChar => '.',
        Instr::WriteInt => '!',
        Instr::SetConstant(d) => digit_symbol(d),
        Instr::SaveRegister => '@',
        Instr::LoadRegister => '*',
    }
}

/// The text of an instruction sequence: each instruction's symbol in order,
/// a loop as its body's text between brackets.
pub open spec fn render(code: Seq<Instr>) -> Seq<char>
    decreases code,
{
    if code.len() == 0 {
        Seq::empty()
    } else {
        let head = match code[0] {
            Instr::Loop(body) => seq!['['] + render(body) + seq![']'],
            other => seq![instr_symbol(other)],
        };
        head + render(code.drop_first())
    }
}

/// Every symbol of the alphabet is one, and the alphabet has no others.
pub proof fn lemma_alphabet_is_symbols()
    ensures
        forall|k: int| 0 <= k < ALPHABET_SIZE ==> is_symbol(#[trigger] alphabet(k)),
        forall|c: char| is_symbol(c) ==> exists|k: int| 0 <= k < ALPHABET_SIZE && alphabet(k) == c,
{
    assert forall|c: char| is_symbol(c) implies exists|k: int|
        0 <= k < ALPHABET_SIZE && alphabet(k) == c by {
        if c == '+' {
            assert(alphabet(0) == c);
        } else if c == '-' {
            assert(alphabet(1) == c);
        } else if c == '>' {
            assert(alphabet(2) == c);
        } else if c == '<' {
            assert(alphabet(3) == c);
        } else if c == '[' {
            assert(alphabet(4) == c);
        } else if c == ']' {
            assert(alphabet(5) == c);
        } else if c == ',' {
            assert(alphabet(6) == c);
        } else if c == '.' {
            assert(alphabet(7) == c);
        } else if c == '!' {
            assert(alphabet(24) == c);
        } else if c == '@' {
            assert(alphabet(25) == c);
        } else if c == '*' {
            assert(alphabet(26) == c);
        } else if 48 <= c as int <= 57 {
            assert(alphabet(c as int - 48 + 8) == c);
        } else {
            assert(alphabet(c as int - 55 + 8) == c);
        }
    }
}

/// The text of two sequences put together is their texts put together.
pub proof fn lemma_render_concat(a: Seq<Instr>, b: Seq<Instr>)
    ensures
        render(a + b) == render(a) + render(b),
    decreases a.len(),
{
    if a.len() == 0 {
        assert(a + b =~= b);
        assert(render(a) + render(b) =~= render(b));
    } else {
        lemma_render_concat(a.drop_first(), b);
        assert((a + b).drop_first() =~= a.drop_first() + b);
        assert((a + b)[0] == a[0]);
        let head = match a[0] {
            Instr::Loop(body) => seq!['['] + render(body) + seq![']'],
            other => seq![instr_symbol(other)],
        };
        assert(render(a + b) == head + render(a.drop_first() + b));
        assert(render(a + b) =~= render(a) + render(b));
    }
}

} // verus!
