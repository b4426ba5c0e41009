//! What a program text means: which brackets form loops, and the
//! instruction sequence that a text stands for.
//!
//! A `[` opens a loop when a later `]` closes it; brackets without a partner
//! and characters outside the alphabet stand for nothing, and so does a loop
//! whose body holds no instruction.

use crate::language::{instr_symbol, is_symbol, render, symbol_instr, well_formed, Instr};
use vstd::prelude::*;

verus! {

/// With `depth` brackets open before `from`, the index in `from..to` of the
/// `]` that closes the outermost of them, if there is one.
pub open spec fn closing(text: Seq<char>, from: int, to: int, depth: nat) -> Option<int>
    decreases to - from,
{
    if from >= to {
        None
    } else if text[from] == '[' {
        closing(text, from + 1, to, depth + 1)
    } else if text[from] == ']' {
        if depth <= 1 {
            Some(from)
        } else {
            closing(text, from + 1, to, (depth - 1) as nat)
        }
    } else {
        closing(text, from + 1, to, depth)
    }
}

/// A loop around `body`, or nothing where the body is empty.
pub open spec fn loop_of(body: Seq<Instr>) -> Seq<Instr> {
    if body.len() == 0 {
        Seq::empty()
    } else {
        seq![Instr::Loop(body)]
    }
}

/// The instructions that the characters `from..to` of `text` stand for.
pub open spec fn parse_range(text: Seq<char>, from: int, to: int) -> Seq<Instr>
    decreases to - from,
{
    if from >= to {
        Seq::empty()
    } else if text[from] == '[' {
        match closing(text, from + 1, to, 1) {
            Some(close) => {
                if from < close < to {
                    loop_of(parse_range(text, from + 1, close)) + parse_range(text, close + 1, to)
                } else {
                    Seq::empty()
                }
            },
            None => parse_range(text, from + 1, to),
        }
    } else {
        match symbol_instr(text[from]) {
            Some(instr) => seq![instr] + parse_range(text, from + 1, to),
            None => parse_range(text, from + 1, to),
        }
    }
}

/// The instructions that a whole text stands for.
pub open spec fn parse(text: Seq<char>) -> Seq<Instr> {
    parse_range(text, 0, text.len() as int)
}

/// The length of the construct at the front of a text that is not empty: a
/// whole loop where the text starts with a `[` that is closed, else one
/// character.
pub open spec fn front_len(text: Seq<char>) -> int {
    if text[0] == '[' {
        match closing(text, 1, text.len() as int, 1) {
            Some(close) => close + 1,
            None => 1,
        }
    } else {
        1
    }
}

/// The instruction that the construct at the front of a text stands for, if
/// it stands for one: a loop around what its body stands for, unless that is
/// nothing, or the instruction of a single symbol.
pub open spec fn front_instr(text: Seq<char>) -> Option<Instr> {
    if text[0] == '[' {
        match closing(text, 1, text.len() as int, 1) {
            Some(close) => {
                let body = parse_range(text, 1, close);
                if body.len() == 0 {
                    None
                } else {
                    Some(Instr::Loop(body))
                }
            },
            None => None,
        }
    } else {
        symbol_instr(text[0])
    }
}

/// How many more `[` than `]` the characters `from..to` hold.
pub open spec fn excess(text: Seq<char>, from: int, to: int) -> int
    decreases to - from,
{
    if from >= to {
        0
    } else if text[to - 1] == '[' {
        excess(text, from, to - 1) + 1
    } else if text[to - 1] == ']' {
        excess(text, from, to - 1) - 1
    } else {
        excess(text, from, to - 1)
    }
}

/// Whether the brackets in `from..to` are balanced: no `]` comes before its
/// `[`, and none of the two is left over.
pub open spec fn balanced(text: Seq<char>, from: int, to: int) -> bool {
    &&& excess(text, from, to) == 0
    &&& forall|k: int| from <= k <= to ==> #[trigger] excess(text, from, k) >= 0
}

/// Whether a `[` is directly followed by a `]` somewhere in `from..to`.
pub open spec fn has_empty_loop(text: Seq<char>, from: int, to: int) -> bool {
    exists|i: int| from <= i && i + 1 < to && #[trigger] text[i] == '[' && text[i + 1] == ']'
}

/// Whether every character in `from..to` belongs to the alphabet.
pub open spec fn all_symbols(text: Seq<char>, from: int, to: int) -> bool {
    forall|i: int| from <= i < to ==> is_symbol(#[trigger] text[i])
}

proof fn lemma_excess_split(text: Seq<char>, a: int, b: int, c: int)
    requires
        a <= b <= c,
    ensures
        excess(text, a, c) == excess(text, a, b) + excess(text, b, c),
    decreases c - b,
{
    if b < c {
        lemma_excess_split(text, a, b, c - 1);
    }
}

proof fn lemma_closing_some(text: Seq<char>, from: int, to: int, depth: nat)
    requires
        depth >= 1,
        closing(text, from, to, depth) is Some,
    ensures
        ({
            let close = closing(text, from, to, depth)->0;
            &&& from <= close < to
            &&& text[close] == ']'
            &&& depth + excess(text, from, close) == 1
            &&& forall|k: int| from <= k <= close ==> depth + #[trigger] excess(text, from, k) >= 1
        }),
    decreases to - from,
{
    let close = closing(text, from, to, depth)->0;
    if text[from] == ']' && depth <= 1 {
        assert forall|k: int| from <= k <= close implies depth + #[trigger] excess(
            text,
            from,
            k,
        ) >= 1 by {}
    } else {
        let next: nat = if text[from] == '[' {
            depth + 1
        } else if text[from] == ']' {
            (depth - 1) as nat
        } else {
            depth
        };
        lemma_closing_some(text, from + 1, to, next);
        assert(excess(text, from, from + 1) == next - depth) by {
            assert(excess(text, from, from) == 0);
        }
        lemma_excess_split(text, from, from + 1, close);
        assert forall|k: int| from <= k <= close implies depth + #[trigger] excess(
            text,
            from,
            k,
        ) >= 1 by {
            if k > from {
                lemma_excess_split(text, from, from + 1, k);
                assert(next + excess(text, from + 1, k) >= 1);
            }
        }
    }
}

/// Whether two texts hold the same `n` characters, the first from `a` on and
/// the second from `b` on.
pub open spec fn same_stretch(first: Seq<char>, a: int, second: Seq<char>, b: int, n: int) -> bool {
    forall|i: int| 0 <= i < n ==> #[trigger] first[a + i] == second[b + i]
}

/// The bracket that closes depends on the characters looked at alone: in two
/// texts that hold the same stretch it is found at the same place of the
/// stretch.
pub proof fn lemma_closing_is_local(
    first: Seq<char>,
    a: int,
    second: Seq<char>,
    b: int,
    n: int,
    depth: nat,
)
    requires
        0 <= n,
        same_stretch(first, a, second, b, n),
    ensures
        match closing(first, a, a + n, depth) {
            Some(close) => closing(second, b, b + n, depth) == Some(close - a + b),
            None => closing(second, b, b + n, depth) is None,
        },
    decreases n,
{
    if n > 0 {
        assert(first[a + 0] == second[b + 0]);
        assert(same_stretch(first, a + 1, second, b + 1, n - 1)) by {
            assert forall|i: int| 0 <= i < n - 1 implies #[trigger] first[a + 1 + i] == second[b
                + 1 + i] by {
                assert(first[a + (i + 1)] == second[b + (i + 1)]);
            }
        }
        let c = first[a];
        if c == '[' {
            lemma_closing_is_local(first, a + 1, second, b + 1, n - 1, depth + 1);
        } else if c == ']' {
            if depth > 1 {
                lemma_closing_is_local(first, a + 1, second, b + 1, n - 1, (depth - 1) as nat);
            }
        } else {
            lemma_closing_is_local(first, a + 1, second, b + 1, n - 1, depth);
        }
    }
}

/// What a stretch of text stands for depends on its characters alone: the
/// same stretch stands for the same instructions in any text.
pub proof fn lemma_parse_is_local(first: Seq<char>, a: int, second: Seq<char>, b: int, n: int)
    requires
        0 <= n,
        same_stretch(first, a, second, b, n),
    ensures
        parse_range(first, a, a + n) == parse_range(second, b, b + n),
    decreases n,
{
    if n > 0 {
        assert(first[a + 0] == second[b + 0]);
        assert(same_stretch(first, a + 1, second, b + 1, n - 1)) by {
            assert forall|i: int| 0 <= i < n - 1 implies #[trigger] first[a + 1 + i] == second[b
                + 1 + i] by {
                assert(first[a + (i + 1)] == second[b + (i + 1)]);
            }
        }
        if first[a] == '[' {
            lemma_closing_is_local(first, a + 1, second, b + 1, n - 1, 1);
            match closing(first, a + 1, a + n, 1) {
                Some(close) => {
                    lemma_closing_some(first, a + 1, a + n, 1);
                    let inner = close - (a + 1);
                    let after = a + n - (close + 1);
                    assert(same_stretch(first, a + 1, second, b + 1, inner)) by {
                        assert forall|i: int| 0 <= i < inner implies #[trigger] first[a + 1 + i]
                            == second[b + 1 + i] by {
                            assert(first[a + (i + 1)] == second[b + (i + 1)]);
                        }
                    }
                    assert(same_stretch(first, close + 1, second, close - a + b + 1, after)) by {
                        assert forall|i: int| 0 <= i < after implies #[trigger] first[close + 1
                            + i] == second[close - a + b + 1 + i] by {
                            assert(first[a + (close + 1 + i - a)] == second[b + (close + 1 + i
                                - a)]);
                        }
                    }
                    lemma_parse_is_local(first, a + 1, second, b + 1, inner);
                    lemma_parse_is_local(first, close + 1, second, close - a + b + 1, after);
                },
                None => {
                    lemma_parse_is_local(first, a + 1, second, b + 1, n - 1);
                },
            }
        } else {
            lemma_parse_is_local(first, a + 1, second, b + 1, n - 1);
        }
    }
}

/// A text stands for what the construct at its front stands for, followed by
/// what the rest of the text stands for: taking the constructs off the front
/// one by one gives the instructions of the whole text.
pub proof fn lemma_parse_front(text: Seq<char>)
    requires
        text.len() > 0,
    ensures
        0 < front_len(text) <= text.len(),
        parse(text) == (match front_instr(text) {
            Some(instr) => seq![instr],
            None => Seq::empty(),
        }) + parse(text.skip(front_len(text))),
{
    let len = text.len() as int;
    let taken = front_len(text);
    if text[0] == '[' && closing(text, 1, len, 1) is Some {
        lemma_closing_some(text, 1, len, 1);
    }
    let rest = text.skip(taken);
    assert(same_stretch(text, taken, rest, 0, len - taken));
    lemma_parse_is_local(text, taken, rest, 0, len - taken);
    assert(parse(rest) == parse_range(text, taken, len));
    let front = match front_instr(text) {
        Some(instr) => seq![instr],
        None => Seq::empty(),
    };
    if text[0] == '[' {
        match closing(text, 1, len, 1) {
            Some(close) => {
                assert(front =~= loop_of(parse_range(text, 1, close)));
            },
            None => {
                assert(front + parse(rest) =~= parse(rest));
            },
        }
    } else {
        match symbol_instr(text[0]) {
            Some(instr) => {},
            None => {
                assert(front + parse(rest) =~= parse(rest));
            },
        }
    }
}

proof fn lemma_closing_none_before(text: Seq<char>, from: int, to: int, depth: nat, k: int)
    requires
        depth >= 1,
        from <= k <= to,
        closing(text, from, to, depth) is None,
    ensures
        depth + excess(text, from, k) >= 1,
    decreases to - from,
{
    if from < k {
        let next: nat = if text[from] == '[' {
            depth + 1
        } else if text[from] == ']' {
            (depth - 1) as nat
        } else {
            depth
        };
        lemma_closing_none_before(text, from + 1, to, next, k);
        assert(excess(text, from, from + 1) == next - depth) by {
            assert(excess(text, from, from) == 0);
        }
        lemma_excess_split(text, from, from + 1, k);
    }
}

proof fn lemma_excess_is_local(first: Seq<char>, a: int, second: Seq<char>, b: int, n: int)
    requires
        0 <= n,
        same_stretch(first, a, second, b, n),
    ensures
        excess(first, a, a + n) == excess(second, b, b + n),
    decreases n,
{
    if n > 0 {
        assert(first[a + (n - 1)] == second[b + (n - 1)]);
        assert(same_stretch(first, a, second, b, n - 1));
        lemma_excess_is_local(first, a, second, b, n - 1);
    }
}

/// The text of well-formed instructions is made of symbols of the alphabet,
/// its brackets are balanced, and it is empty only where there is no
/// instruction.
pub proof fn lemma_render_is_balanced(code: Seq<Instr>)
    requires
        well_formed(code),
    ensures
        all_symbols(render(code), 0, render(code).len() as int),
        balanced(render(code), 0, render(code).len() as int),
        code.len() > 0 ==> render(code).len() > 0,
    decreases code,
{
    if code.len() > 0 {
        let rest = code.drop_first();
        assert(well_formed(rest)) by {
            assert forall|i: int| 0 <= i < rest.len() implies match #[trigger] rest[i] {
                Instr::Loop(body) => body.len() > 0 && well_formed(body),
                Instr::SetConstant(d) => d < 16,
                _ => true,
            } by {
                assert(rest[i] == code[i + 1]);
            }
        }
        lemma_render_is_balanced(rest);
        let tail = render(rest);
        let text = render(code);
        let len = text.len() as int;
        match code[0] {
            Instr::Loop(body) => {
                lemma_render_is_balanced(body);
                let inner = render(body);
                let m = inner.len() as int;
                assert(text =~= seq!['['] + inner + seq![']'] + tail);
                assert(same_stretch(text, 1, inner, 0, m));
                assert(same_stretch(text, m + 2, tail, 0, len - m - 2));
                assert(excess(text, 0, 1) == 1) by {
                    assert(excess(text, 0, 0) == 0);
                }
                assert(excess(text, m + 1, m + 2) == -1) by {
                    assert(excess(text, m + 1, m + 1) == 0);
                }
                assert forall|k: int| 0 <= k <= len implies #[trigger] excess(text, 0, k) >= 0 by {
                    if k == 0 {
                    } else if k <= m + 1 {
                        assert(same_stretch(text, 1, inner, 0, k - 1));
                        lemma_excess_is_local(text, 1, inner, 0, k - 1);
                        lemma_excess_split(text, 0, 1, k);
                        assert(excess(inner, 0, k - 1) >= 0);
                    } else {
                        lemma_excess_is_local(text, 1, inner, 0, m);
                        lemma_excess_split(text, 0, 1, m + 1);
                        lemma_excess_split(text, 0, m + 1, m + 2);
                        assert(same_stretch(text, m + 2, tail, 0, k - m - 2));
                        lemma_excess_is_local(text, m + 2, tail, 0, k - m - 2);
                        lemma_excess_split(text, 0, m + 2, k);
                        assert(excess(tail, 0, k - m - 2) >= 0);
                    }
                }
                lemma_excess_is_local(text, 1, inner, 0, m);
                lemma_excess_split(text, 0, 1, m + 1);
                lemma_excess_split(text, 0, m + 1, m + 2);
                lemma_excess_is_local(text, m + 2, tail, 0, len - m - 2);
                lemma_excess_split(text, 0, m + 2, len);
                assert forall|i: int| 0 <= i < len implies is_symbol(#[trigger] text[i]) by {
                    if 1 <= i < m + 1 {
                        assert(text[i] == inner[i - 1]);
                    } else if i >= m + 2 {
                        assert(text[i] == tail[i - m - 2]);
                    }
                }
            },
            other => {
                let c = instr_symbol(other);
                assert(text =~= seq![c] + tail);
                assert(is_symbol(c) && c != '[' && c != ']');
                assert(same_stretch(text, 1, tail, 0, len - 1));
                assert(excess(text, 0, 1) == 0) by {
                    assert(excess(text, 0, 0) == 0);
                }
                assert forall|k: int| 0 <= k <= len implies #[trigger] excess(text, 0, k) >= 0 by {
                    if k > 0 {
                        assert(same_stretch(text, 1, tail, 0, k - 1));
                        lemma_excess_is_local(text, 1, tail, 0, k - 1);
                        lemma_excess_split(text, 0, 1, k);
                        assert(excess(tail, 0, k - 1) >= 0);
                    }
                }
                lemma_excess_is_local(text, 1, tail, 0, len - 1);
                lemma_excess_split(text, 0, 1, len);
                assert forall|i: int| 0 <= i < len implies is_symbol(#[trigger] text[i]) by {
                    if i >= 1 {
                        assert(text[i] == tail[i - 1]);
                    }
                }
            },
        }
    }
}

/// Writing out and reading back gives the same: the text of well-formed
/// instructions stands for these instructions.
pub proof fn lemma_render_parses_back(code: Seq<Instr>)
    requires
        well_formed(code),
    ensures
        parse(render(code)) == code,
    decreases code,
{
    if code.len() > 0 {
        let rest = code.drop_first();
        assert(well_formed(rest)) by {
            assert forall|i: int| 0 <= i < rest.len() implies match #[trigger] rest[i] {
                Instr::Loop(body) => body.len() > 0 && well_formed(body),
                Instr::SetConstant(d) => d < 16,
                _ => true,
            } by {
                assert(rest[i] == code[i + 1]);
            }
        }
        lemma_render_parses_back(rest);
        let tail = render(rest);
        let text = render(code);
        let len = text.len() as int;
        match code[0] {
            Instr::Loop(body) => {
                lemma_render_parses_back(body);
                lemma_render_is_balanced(body);
                let inner = render(body);
                let m = inner.len() as int;
                assert(text =~= seq!['['] + inner + seq![']'] + tail);
                assert(same_stretch(text, 1, inner, 0, m));
                assert(same_stretch(text, m + 2, tail, 0, len - m - 2));
                lemma_excess_is_local(text, 1, inner, 0, m);
                assert(excess(text, m + 1, m + 2) == -1) by {
                    assert(excess(text, m + 1, m + 1) == 0);
                }
                lemma_excess_split(text, 1, m + 1, m + 2);
                if closing(text, 1, len, 1) is None {
                    lemma_closing_none_before(text, 1, len, 1, m + 2);
                }
                let close = closing(text, 1, len, 1)->0;
                lemma_closing_some(text, 1, len, 1);
                if close < m + 1 {
                    // the body would close a bracket that it did not open
                    assert(excess(text, close, close + 1) == -1) by {
                        assert(excess(text, close, close) == 0);
                    }
                    lemma_excess_split(text, 1, close, close + 1);
                    assert(same_stretch(text, 1, inner, 0, close));
                    lemma_excess_is_local(text, 1, inner, 0, close);
                    assert(excess(inner, 0, close) >= 0);
                }
                if close > m + 1 {
                    // the bracket after the body would not have closed the loop
                    assert(1 + excess(text, 1, m + 2) >= 1);
                }
                assert(close == m + 1);
                lemma_parse_is_local(text, 1, inner, 0, m);
                lemma_parse_is_local(text, m + 2, tail, 0, len - m - 2);
                assert(parse_range(text, 1, close) == body);
                assert(parse_range(text, close + 1, len) == rest);
                assert(seq![Instr::Loop(body)] + rest =~= code);
            },
            other => {
                let c = instr_symbol(other);
                assert(text =~= seq![c] + tail);
                assert(symbol_instr(c) == Some(other));
                assert(same_stretch(text, 1, tail, 0, len - 1));
                lemma_parse_is_local(text, 1, tail, 0, len - 1);
                assert(seq![other] + rest =~= code);
            },
        }
    } else {
        assert(render(code).len() == 0);
    }
}

/// A symbol that stands for an instruction is that instruction's symbol.
pub proof fn lemma_symbol_round_trip(c: char)
    requires
        symbol_instr(c) is Some,
    ensures
        instr_symbol(symbol_instr(c)->0) == c,
        !(symbol_instr(c)->0 is Loop),
{
}

/// What a text stands for is well formed: no loop in it is empty, and every
/// constant digit is below sixteen.
pub proof fn lemma_parse_well_formed(text: Seq<char>, from: int, to: int)
    ensures
        well_formed(parse_range(text, from, to)),
    decreases to - from,
{
    if from >= to {
    } else if text[from] == '[' {
        match closing(text, from + 1, to, 1) {
            Some(close) => {
                if from < close < to {
                    lemma_parse_well_formed(text, from + 1, close);
                    lemma_parse_well_formed(text, close + 1, to);
                }
            },
            None => {
                lemma_parse_well_formed(text, from + 1, to);
            },
        }
    } else {
        lemma_parse_well_formed(text, from + 1, to);
    }
}

/// Tokenizing mirrors the bracket structure. Where a text holds only symbols
/// of the alphabet, its brackets are balanced and no `[` is directly followed
/// by a `]`, writing out the instructions that it stands for gives the text
/// back: every symbol is an instruction, every pair of brackets a loop around
/// what stands between them.
pub proof fn lemma_parse_mirrors_text(text: Seq<char>, from: int, to: int)
    requires
        0 <= from <= to <= text.len(),
        all_symbols(text, from, to),
        balanced(text, from, to),
        !has_empty_loop(text, from, to),
    ensures
        render(parse_range(text, from, to)) == text.subrange(from, to),
    decreases to - from, 1int,
{
    if from >= to {
        assert(text.subrange(from, to) =~= Seq::<char>::empty());
    } else {
        lemma_parse_mirrors_front(text, from, to);
    }
}

proof fn lemma_parse_mirrors_front(text: Seq<char>, from: int, to: int)
    requires
        0 <= from < to <= text.len(),
        all_symbols(text, from, to),
        balanced(text, from, to),
        !has_empty_loop(text, from, to),
    ensures
        render(parse_range(text, from, to)) == text.subrange(from, to),
    decreases to - from, 0int,
{
    let c = text[from];
    assert(excess(text, from, from + 1) == (if c == '[' {
        1int
    } else if c == ']' {
        -1int
    } else {
        0int
    })) by {
        assert(excess(text, from, from) == 0);
    }
    assert(c != ']');
    if c == '[' {
        lemma_excess_split(text, from, from + 1, to);
        if closing(text, from + 1, to, 1) is None {
            lemma_closing_none_before(text, from + 1, to, 1, to);
        }
        let close = closing(text, from + 1, to, 1)->0;
        lemma_closing_some(text, from + 1, to, 1);
        assert(close != from + 1) by {
            if close == from + 1 {
                assert(text[from] == '[' && text[from + 1] == ']');
            }
        }
        assert(balanced(text, from + 1, close)) by {
            assert forall|k: int| from + 1 <= k <= close implies #[trigger] excess(
                text,
                from + 1,
                k,
            ) >= 0 by {}
        }
        assert(excess(text, close, close + 1) == -1) by {
            assert(excess(text, close, close) == 0);
        }
        lemma_excess_split(text, from, from + 1, close);
        lemma_excess_split(text, from, close, close + 1);
        assert(excess(text, from, close + 1) == 0);
        assert(balanced(text, close + 1, to)) by {
            lemma_excess_split(text, from, close + 1, to);
            assert forall|k: int| close + 1 <= k <= to implies #[trigger] excess(
                text,
                close + 1,
                k,
            ) >= 0 by {
                lemma_excess_split(text, from, close + 1, k);
                assert(excess(text, from, k) >= 0);
            }
        }
        assert(!has_empty_loop(text, from + 1, close)) by {
            if has_empty_loop(text, from + 1, close) {
                let i = choose|i: int|
                    from + 1 <= i && i + 1 < close && #[trigger] text[i] == '[' && text[i + 1]
                        == ']';
                assert(from <= i && i + 1 < to && text[i] == '[' && text[i + 1] == ']');
            }
        }
        assert(!has_empty_loop(text, close + 1, to)) by {
            if has_empty_loop(text, close + 1, to) {
                let i = choose|i: int|
                    close + 1 <= i && i + 1 < to && #[trigger] text[i] == '[' && text[i + 1] == ']';
                assert(from <= i && i + 1 < to && text[i] == '[' && text[i + 1] == ']');
            }
        }
        lemma_parse_mirrors_text(text, from + 1, close);
        lemma_parse_mirrors_text(text, close + 1, to);
        let body = parse_range(text, from + 1, close);
        let rest = parse_range(text, close + 1, to);
        assert(body.len() > 0) by {
            if body.len() == 0 {
                assert(text.subrange(from + 1, close).len() == 0);
            }
        }
        let whole = seq![Instr::Loop(body)] + rest;
        assert(parse_range(text, from, to) == whole);
        assert(whole[0] == Instr::Loop(body));
        assert(whole.drop_first() =~= rest);
        assert(render(whole) == seq!['['] + render(body) + seq![']'] + render(rest));
        assert(render(whole) =~= text.subrange(from, to));
    } else {
        lemma_symbol_round_trip(c);
        lemma_excess_split(text, from, from + 1, to);
        assert(balanced(text, from + 1, to)) by {
            assert forall|k: int| from + 1 <= k <= to implies #[trigger] excess(
                text,
                from + 1,
                k,
            ) >= 0 by {
                lemma_excess_split(text, from, from + 1, k);
                assert(excess(text, from, k) >= 0);
            }
        }
        assert(!has_empty_loop(text, from + 1, to)) by {
            if has_empty_loop(text, from + 1, to) {
                let i = choose|i: int|
                    from + 1 <= i && i + 1 < to && #[trigger] text[i] == '[' && text[i + 1] == ']';
                assert(from <= i && i + 1 < to && text[i] == '[' && text[i + 1] == ']');
            }
        }
        lemma_parse_mirrors_text(text, from + 1, to);
        let instr = symbol_instr(c)->0;
        let rest = parse_range(text, from + 1, to);
        let whole = seq![instr] + rest;
        assert(parse_range(text, from, to) == whole);
        assert(whole[0] == instr);
        assert(whole.drop_first() =~= rest);
        assert(render(whole) == seq![instr_symbol(instr)] + render(rest));
        assert(render(whole) =~= text.subrange(from, to));
    }
}

} // verus!
