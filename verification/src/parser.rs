//! The tokenizer: from a program text to the tokens that it stands for.

use crate::grammar::{closing, front_instr, front_len, lemma_parse_well_formed, loop_of, parse, parse_range};
use crate::interpreter::{code_of, lemma_loop_token, token_of_symbol, Interpreter, Token};
use crate::language::{instr_symbol, lemma_render_concat, render, well_formed, Instr};
use crate::text::{chars_of, string_of};
use vstd::prelude::*;

verus! {

/// Looks in `from..to` for the `]` that closes a `[` standing just before
/// `from`.
pub fn closing_bracket(text: &Vec<char>, from: usize, to: usize) -> (close: Option<usize>)
    requires
        1 <= from <= to <= text.len(),
    ensures
        match close {
            Some(at) => from <= at < to && closing(text@, from as int, to as int, 1) == Some(
                at as int,
            ),
            None => closing(text@, from as int, to as int, 1) is None,
        },
{
    let mut depth: usize = 1;
    let mut i: usize = from;
    while i < to
        invariant
            1 <= from <= i <= to <= text.len(),
            1 <= depth <= 1 + (i - from),
            closing(text@, from as int, to as int, 1) == closing(
                text@,
                i as int,
                to as int,
                depth as nat,
            ),
        decreases to - i,
    {
        let c: char = text[i];
        if c == '[' {
            depth = depth + 1;
        } else if c == ']' {
            if depth <= 1 {
                return Some(i);
            }
            depth = depth - 1;
        }
        i = i + 1;
    }
    None
}

/// The tokens that the characters `from..to` of `text` stand for.
pub fn tokens_between(text: &Vec<char>, from: usize, to: usize) -> (tokens: Vec<Token>)
    requires
        from <= to <= text.len(),
    ensures
        code_of(tokens@) == parse_range(text@, from as int, to as int),
    decreases to - from,
{
    let mut tokens: Vec<Token> = Vec::new();
    let mut i: usize = from;
    assert(code_of(tokens@) + parse_range(text@, i as int, to as int) =~= parse_range(
        text@,
        from as int,
        to as int,
    ));
    while i < to
        invariant
            from <= i <= to <= text.len(),
            code_of(tokens@) + parse_range(text@, i as int, to as int) == parse_range(
                text@,
                from as int,
                to as int,
            ),
        decreases to - i,
    {
        let c: char = text[i];
        let ghost done = code_of(tokens@);
        if c == '[' {
            match closing_bracket(text, i + 1, to) {
                Some(close) => {
                    let body = tokens_between(text, i + 1, close);
                    let ghost rest = parse_range(text@, close + 1, to as int);
                    if body.len() > 0 {
                        proof {
                            lemma_loop_token(body);
                        }
                        let token = Token::LOOP(body);
                        tokens.push(token);
                        assert(code_of(tokens@) =~= done + seq![token@]);
                        assert(code_of(tokens@) + rest =~= done + (seq![token@] + rest));
                    } else {
                        assert(loop_of(code_of(body@)) + rest =~= rest);
                    }
                    i = close + 1;
                },
                None => {
                    i = i + 1;
                },
            }
        } else {
            let ghost rest = parse_range(text@, i + 1, to as int);
            match token_of_symbol(c) {
                Some(token) => {
                    tokens.push(token);
                    assert(code_of(tokens@) =~= done + seq![token@]);
                    assert(code_of(tokens@) + rest =~= done + (seq![token@] + rest));
                },
                None => {},
            }
            i = i + 1;
        }
    }
    assert(code_of(tokens@) + Seq::<Instr>::empty() =~= code_of(tokens@));
    tokens
}

/// The symbol of a token; of a loop, the bracket that opens it.
pub fn symbol_of(token: &Token) -> (symbol: char)
    ensures
        symbol == instr_symbol(token@),
{
    match token {
        Token::INC => '+',
        Token::DEC => '-',
        Token::RIGHT => '>',
        Token::LEFT => '<',
        Token::LOOP(_) => '[',
        Token::GET => ',',
        Token::PUT_CHAR => '.',
        Token::CONST0 => '0',
        Token::CONST1 => '1',
        Token::CONST2 => '2',
        Token::CONST3 => '3',
        Token::CONST4 => '4',
        Token::CONST5 => '5',
        Token::CONST6 => '6',
        Token::CONST7 => '7',
        Token::CONST8 => '8',
        Token::CONST9 => '9',
        Token::CONSTA => 'A',
        Token::CONSTB => 'B',
        Token::CONSTC => 'C',
        Token::CONSTD => 'D',
        Token::CONSTE => 'E',
        Token::CONSTF => 'F',
        Token::PUT_INT => '!',
        Token::SAVE => '@',
        Token::LOAD => '*',
    }
}

/// Adds the text of a token sequence to `out`.
pub fn write_tokens(out: &mut String, tokens: &Vec<Token>)
    ensures
        final(out)@ == old(out)@ + render(code_of(tokens@)),
    decreases tokens,
{
    let ghost code = code_of(tokens@);
    let mut i: usize = 0;
    assert(out@ =~= old(out)@ + render(code.take(0)));
    while i < tokens.len()
        invariant
            i <= tokens.len(),
            code == code_of(tokens@),
            out@ == old(out)@ + render(code.take(i as int)),
        decreases tokens.len() - i,
    {
        let ghost before = out@;
        let ghost one = seq![code[i as int]];
        match &tokens[i] {
            Token::LOOP(body) => {
                proof {
                    lemma_loop_token(*body);
                }
                out.push('[');
                write_tokens(out, body);
                out.push(']');
            },
            token => {
                out.push(symbol_of(token));
            },
        }
        proof {
            assert(one.drop_first() =~= Seq::<Instr>::empty());
            assert(one[0] == tokens[i as int]@);
            let head = match one[0] {
                Instr::Loop(inner) => seq!['['] + render(inner) + seq![']'],
                other => seq![instr_symbol(other)],
            };
            assert(render(one) == head + render(one.drop_first()));
            assert(out@ =~= before + render(one));
            lemma_render_concat(code.take(i as int), one);
            assert(code.take(i + 1) =~= code.take(i as int) + one);
        }
        i += 1;
    }
    assert(code.take(tokens.len() as int) =~= code);
}

/// The text of a token sequence: the symbol of each token in order, a loop
/// as the text of its body between brackets.
pub fn text_of(tokens: &Vec<Token>) -> (text: String)
    ensures
        text@ == render(code_of(tokens@)),
{
    let mut text = String::new();
    write_tokens(&mut text, tokens);
    assert(text@ =~= render(code_of(tokens@)));
    text
}

impl Interpreter {
    /// Takes the construct at the front of a text off it and returns the
    /// token that it stands for, if it stands for one. The construct is a
    /// whole loop where the text starts with a `[` that a later `]` closes,
    /// and one character otherwise. A loop whose body holds no token, a
    /// bracket without a partner and a character outside the alphabet stand
    /// for no token.
    pub fn tokenize(prog: &mut String) -> (token: Option<Token>)
        requires
            old(prog)@.len() > 0,
        ensures
            final(prog)@ == old(prog)@.skip(front_len(old(prog)@)),
            match token {
                Some(t) => front_instr(old(prog)@) == Some(t@),
                None => front_instr(old(prog)@) is None,
            },
    {
        let text = chars_of(prog.as_str());
        let len: usize = text.len();
        if text[0] == '[' {
            match closing_bracket(&text, 1, len) {
                Some(close) => {
                    let body = tokens_between(&text, 1, close);
                    *prog = string_of(&text, close + 1, len);
                    if body.len() == 0 {
                        None
                    } else {
                        proof {
                            lemma_loop_token(body);
                        }
                        Some(Token::LOOP(body))
                    }
                },
                None => {
                    *prog = string_of(&text, 1, len);
                    None
                },
            }
        } else {
            *prog = string_of(&text, 1, len);
            token_of_symbol(text[0])
        }
    }

    /// Takes a whole text and returns the tokens that it stands for, which
    /// are well formed. The text is left empty.
    pub fn get_tokens(prog: &mut String) -> (tokens: Vec<Token>)
        ensures
            code_of(tokens@) == parse(old(prog)@),
            well_formed(code_of(tokens@)),
            final(prog)@ == Seq::<char>::empty(),
    {
        let text = chars_of(prog.as_str());
        let tokens = tokens_between(&text, 0, text.len());
        *prog = String::new();
        proof {
            lemma_parse_well_formed(text@, 0, text.len() as int);
        }
        tokens
    }
}

} // verus!
