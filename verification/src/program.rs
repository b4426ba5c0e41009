//! Programs as text, the unit that the search breeds: six mutations that
//! edit the text, and the crossover of two texts.
//!
//! No operator looks at what the text stands for; a single edit may change
//! the nesting of its loops.

use crate::chance::{draw_between, draw_index, hits, succeeds, RATE_ONE};
use crate::language::{alphabet, is_symbol, lemma_alphabet_is_symbols, ALPHABET_SIZE};
use crate::text::{append_range, chars_of, string_of};
use vstd::prelude::*;

verus! {

/// The number of mutation operators.
pub const NUM_MUTATIONS: usize = 6;

/// The smaller of two numbers.
pub fn min(a: usize, b: usize) -> (least: usize)
    ensures
        least <= a,
        least <= b,
        least == a || least == b,
{
    if a > b {
        b
    } else {
        a
    }
}

/// The `k`-th symbol of the alphabet.
pub fn symbol_at(k: usize) -> (symbol: char)
    requires
        k < ALPHABET_SIZE,
    ensures
        symbol == alphabet(k as int),
{
    if k == 0 {
        '+'
    } else if k == 1 {
        '-'
    } else if k == 2 {
        '>'
    } else if k == 3 {
        '<'
    } else if k == 4 {
        '['
    } else if k == 5 {
        ']'
    } else if k == 6 {
        ','
    } else if k == 7 {
        '.'
    } else if k < 18 {
        (40 + k as u8) as char
    } else if k < 24 {
        (47 + k as u8) as char
    } else if k == 24 {
        '!'
    } else if k == 25 {
        '@'
    } else {
        '*'
    }
}

/// A symbol of the alphabet, each as likely as the other.
pub fn random_char() -> (symbol: char)
    ensures
        exists|k: int| 0 <= k < ALPHABET_SIZE && symbol == #[trigger] alphabet(k),
        is_symbol(symbol),
{
    let k: usize = draw_index(ALPHABET_SIZE);
    proof {
        lemma_alphabet_is_symbols();
    }
    symbol_at(k)
}

/// A text with the characters at `at` and `at + 1` exchanged.
pub open spec fn transposed(code: Seq<char>, at: int) -> Seq<char> {
    code.update(at, code[at + 1]).update(at + 1, code[at])
}

/// A text with its last character moved to the front, where it has more
/// than one.
pub open spec fn shifted_right(code: Seq<char>) -> Seq<char> {
    if code.len() > 1 {
        seq![code.last()] + code.drop_last()
    } else {
        code
    }
}

/// A text with its first character moved to the back, where it has more
/// than one.
pub open spec fn shifted_left(code: Seq<char>) -> Seq<char> {
    if code.len() > 1 {
        code.drop_first().push(code.first())
    } else {
        code
    }
}

/// The child of two texts at a pivot: the first up to the pivot, then the
/// second from the pivot on.
pub open spec fn crossed(mom: Seq<char>, dad: Seq<char>, pivot: int) -> Seq<char> {
    mom.take(pivot) + dad.skip(pivot)
}

/// Whether `after` is `before` with one symbol of the alphabet put in: before
/// one of its characters, or alone where `before` is empty.
pub open spec fn is_insertion(before: Seq<char>, after: Seq<char>) -> bool {
    exists|at: int, k: int|
        0 <= at <= before.len() && (at < before.len() || before.len() == 0) && 0 <= k
            < ALPHABET_SIZE && after == #[trigger] before.insert(at, alphabet(k))
}

/// Whether `after` is `before` without one of its characters, or `before`
/// itself where that is empty.
pub open spec fn is_deletion(before: Seq<char>, after: Seq<char>) -> bool {
    if before.len() == 0 {
        after == before
    } else {
        exists|at: int| 0 <= at < before.len() && after == #[trigger] before.remove(at)
    }
}

/// Whether `after` is `before` with one character replaced by a symbol of the
/// alphabet, or `before` itself where that is empty.
pub open spec fn is_substitution(before: Seq<char>, after: Seq<char>) -> bool {
    if before.len() == 0 {
        after == before
    } else {
        exists|at: int, k: int|
            0 <= at < before.len() && 0 <= k < ALPHABET_SIZE && after == #[trigger] before.update(
                at,
                alphabet(k),
            )
    }
}

/// Whether `after` is `before` with two neighbours exchanged, or `before`
/// itself where that has no two characters.
pub open spec fn is_transposition(before: Seq<char>, after: Seq<char>) -> bool {
    if before.len() <= 1 {
        after == before
    } else {
        exists|at: int| 0 <= at < before.len() - 1 && after == #[trigger] transposed(before, at)
    }
}

/// Whether `child` is a crossover of `mom` and `dad`: cut at a pivot below
/// the length of the shorter, or at zero where one of them is empty.
pub open spec fn is_crossing(mom: Seq<char>, dad: Seq<char>, child: Seq<char>) -> bool {
    exists|pivot: int|
        0 <= pivot <= mom.len() && pivot <= dad.len() && (mom.len() == 0 || dad.len() == 0 || (pivot
            < mom.len() && pivot < dad.len())) && child == #[trigger] crossed(mom, dad, pivot)
}

/// Whether `after` is `before` after at most one of the six mutations.
pub open spec fn is_mutation(before: Seq<char>, after: Seq<char>) -> bool {
    ||| after == before
    ||| is_insertion(before, after)
    ||| is_deletion(before, after)
    ||| is_substitution(before, after)
    ||| is_transposition(before, after)
    ||| after == shifted_left(before)
    ||| after == shifted_right(before)
}

/// Whether every character of a text belongs to the alphabet.
pub open spec fn is_program_text(code: Seq<char>) -> bool {
    forall|i: int| 0 <= i < code.len() ==> is_symbol(#[trigger] code[i])
}

/// The six mutations, in the order in which they are tried.
#[derive(Clone, Copy, Debug, PartialEq, Eq, Structural)]
pub enum Mutation {
    Insert,
    Delete,
    Substitute,
    Transpose,
    ShiftLeft,
    ShiftRight,
}

impl Mutation {
    /// The place of a mutation in the order in which they are tried, from
    /// zero for the first.
    pub open spec fn place(self) -> int {
        match self {
            Mutation::Insert => 0,
            Mutation::Delete => 1,
            Mutation::Substitute => 2,
            Mutation::Transpose => 3,
            Mutation::ShiftLeft => 4,
            Mutation::ShiftRight => 5,
        }
    }

    /// The mutation that is tried at the place `k`.
    pub fn at(k: usize) -> (mutation: Mutation)
        requires
            k < NUM_MUTATIONS,
        ensures
            mutation.place() == k,
    {
        if k == 0 {
            Mutation::Insert
        } else if k == 1 {
            Mutation::Delete
        } else if k == 2 {
            Mutation::Substitute
        } else if k == 3 {
            Mutation::Transpose
        } else if k == 4 {
            Mutation::ShiftLeft
        } else {
            Mutation::ShiftRight
        }
    }
}

/// Whether `op` is the mutation that six draws select at the rate `rate`:
/// the first in the order whose own draw succeeds, or none where no draw
/// does.
pub open spec fn is_selected(draws: Seq<u64>, rate: u32, op: Option<Mutation>) -> bool {
    match op {
        Some(mutation) => succeeds(draws[mutation.place()], rate) && forall|j: int|
            0 <= j < mutation.place() ==> !succeeds(#[trigger] draws[j], rate),
        None => forall|j: int| 0 <= j < NUM_MUTATIONS ==> !succeeds(#[trigger] draws[j], rate),
    }
}

/// Whether `after` is what the mutation `op` may make of `before`, which is
/// `before` itself where there is no mutation.
pub open spec fn is_outcome(op: Option<Mutation>, before: Seq<char>, after: Seq<char>) -> bool {
    match op {
        None => after == before,
        Some(Mutation::Insert) => is_insertion(before, after),
        Some(Mutation::Delete) => is_deletion(before, after),
        Some(Mutation::Substitute) => is_substitution(before, after),
        Some(Mutation::Transpose) => is_transposition(before, after),
        Some(Mutation::ShiftLeft) => after == shifted_left(before),
        Some(Mutation::ShiftRight) => after == shifted_right(before),
    }
}

/// Whether `after` may come of `before` by the mutation that some six draws
/// below [`RATE_ONE`] select at the rate `rate`.
pub open spec fn is_drawn_mutation(rate: u32, before: Seq<char>, after: Seq<char>) -> bool {
    exists|draws: Seq<u64>, op: Option<Mutation>|
        draws.len() == NUM_MUTATIONS && (forall|j: int|
            0 <= j < draws.len() ==> (#[trigger] draws[j]) < RATE_ONE) && #[trigger] is_selected(
            draws,
            rate,
            op,
        ) && is_outcome(op, before, after)
}

/// Selects the mutation for six draws, one for each mutation in the order
/// in which they are tried: the first whose draw succeeds against `rate`.
pub fn select_operator(draws: &Vec<u64>, rate: u32) -> (op: Option<Mutation>)
    requires
        draws.len() == NUM_MUTATIONS,
    ensures
        is_selected(draws@, rate, op),
{
    let mut k: usize = 0;
    while k < NUM_MUTATIONS
        invariant
            k <= NUM_MUTATIONS,
            draws.len() == NUM_MUTATIONS,
            forall|j: int| 0 <= j < k ==> !succeeds(#[trigger] draws[j], rate),
        decreases NUM_MUTATIONS - k,
    {
        if hits(draws[k], rate) {
            return Some(Mutation::at(k));
        }
        k += 1;
    }
    None
}

/// A program: a text in the alphabet of the language.
pub struct BFProgram {
    pub code: String,
}

impl Clone for BFProgram {
    fn clone(&self) -> (copy: BFProgram)
        ensures
            copy.code@ == self.code@,
    {
        BFProgram { code: self.code.clone() }
    }
}

/// Exchanging two neighbours keeps the characters and how often each occurs.
pub proof fn lemma_transposed_same_characters(code: Seq<char>, at: int)
    requires
        0 <= at,
        at + 1 < code.len(),
    ensures
        transposed(code, at).len() == code.len(),
        transposed(code, at).to_multiset() == code.to_multiset(),
{
    broadcast use vstd::seq_lib::group_to_multiset_ensures;

    let first = code.update(at, code[at + 1]);
    assert(first.to_multiset() == code.to_multiset().insert(code[at + 1]).remove(code[at]));
    assert(transposed(code, at).to_multiset() == first.to_multiset().insert(code[at]).remove(
        first[at + 1],
    ));
    assert(code.to_multiset().count(code[at]) > 0) by {
        assert(code.contains(code[at]));
    }
    assert(code.to_multiset().count(code[at + 1]) > 0) by {
        assert(code.contains(code[at + 1]));
    }
    assert(transposed(code, at).to_multiset() =~= code.to_multiset());
}

impl BFProgram {
    /// A program of `len` random symbols of the alphabet.
    pub fn new(len: usize) -> (program: BFProgram)
        ensures
            program.code@.len() == len,
            is_program_text(program.code@),
    {
        let mut code = String::new();
        let mut i: usize = 0;
        while i < len
            invariant
                i <= len,
                code@.len() == i,
                forall|j: int| 0 <= j < i ==> is_symbol(#[trigger] code@[j]),
            decreases len - i,
        {
            code.push(random_char());
            i += 1;
        }
        BFProgram { code }
    }

    /// Puts `symbol` in before the character at `at`, or at the end where
    /// `at` is the length.
    pub fn insert_at(&mut self, at: usize, symbol: char)
        requires
            at <= old(self).code@.len(),
        ensures
            final(self).code@ == old(self).code@.insert(at as int, symbol),
    {
        let chars = chars_of(self.code.as_str());
        let mut code = String::new();
        append_range(&mut code, &chars, 0, at);
        code.push(symbol);
        append_range(&mut code, &chars, at, chars.len());
        assert(code@ =~= chars@.insert(at as int, symbol));
        self.code = code;
    }

    /// Takes out the character at `at`.
    pub fn delete_at(&mut self, at: usize)
        requires
            at < old(self).code@.len(),
        ensures
            final(self).code@ == old(self).code@.remove(at as int),
    {
        let chars = chars_of(self.code.as_str());
        let len: usize = chars.len();
        let mut code = string_of(&chars, 0, at);
        append_range(&mut code, &chars, at + 1, len);
        assert(code@ =~= chars@.remove(at as int));
        self.code = code;
    }

    /// Replaces the character at `at` by `symbol`.
    pub fn substitute_at(&mut self, at: usize, symbol: char)
        requires
            at < old(self).code@.len(),
        ensures
            final(self).code@ == old(self).code@.update(at as int, symbol),
    {
        let chars = chars_of(self.code.as_str());
        let len: usize = chars.len();
        let mut code = string_of(&chars, 0, at);
        code.push(symbol);
        append_range(&mut code, &chars, at + 1, len);
        assert(code@ =~= chars@.update(at as int, symbol));
        self.code = code;
    }

    /// Exchanges the characters at `at` and `at + 1`.
    pub fn transpose_at(&mut self, at: usize)
        requires
            at + 1 < old(self).code@.len(),
        ensures
            final(self).code@ == transposed(old(self).code@, at as int),
    {
        let chars = chars_of(self.code.as_str());
        let len: usize = chars.len();
        let mut code = string_of(&chars, 0, at);
        code.push(chars[at + 1]);
        code.push(chars[at]);
        append_range(&mut code, &chars, at + 2, len);
        assert(code@ =~= transposed(chars@, at as int));
        self.code = code;
    }

    /// Insert: puts a random symbol in at a random position before one of the
    /// characters; an empty program becomes that symbol. The program grows by
    /// one.
    pub fn mutate_ins(&mut self)
        ensures
            final(self).code@.len() == old(self).code@.len() + 1,
            is_insertion(old(self).code@, final(self).code@),
    {
        let len: usize = self.code.as_str().unicode_len();
        let at: usize = if len == 0 {
            0
        } else {
            draw_index(len)
        };
        let k: usize = draw_index(ALPHABET_SIZE);
        self.insert_at(at, symbol_at(k));
        assert(final(self).code@ == old(self).code@.insert(at as int, alphabet(k as int)));
    }

    /// Delete: takes out the character at a random position. An empty program
    /// stays empty.
    pub fn mutate_del(&mut self)
        ensures
            final(self).code@.len() == (if old(self).code@.len() == 0 {
                0
            } else {
                old(self).code@.len() - 1
            }),
            is_deletion(old(self).code@, final(self).code@),
    {
        let len: usize = self.code.as_str().unicode_len();
        if len != 0 {
            let at: usize = draw_index(len);
            self.delete_at(at);
            assert(final(self).code@ == old(self).code@.remove(at as int));
        }
    }

    /// Substitute: replaces the character at a random position by a random
    /// symbol. The length stays.
    pub fn mutate_sub(&mut self)
        ensures
            final(self).code@.len() == old(self).code@.len(),
            is_substitution(old(self).code@, final(self).code@),
    {
        let len: usize = self.code.as_str().unicode_len();
        if len != 0 {
            let at: usize = draw_index(len);
            let k: usize = draw_index(ALPHABET_SIZE);
            self.substitute_at(at, symbol_at(k));
            assert(final(self).code@ == old(self).code@.update(at as int, alphabet(k as int)));
        }
    }

    /// Transpose: exchanges the characters at a random position and the one
    /// after it. The length stays, and so do the characters and how often
    /// each occurs. A program without two characters stays as it is.
    pub fn mutate_trn(&mut self)
        ensures
            final(self).code@.len() == old(self).code@.len(),
            final(self).code@.to_multiset() == old(self).code@.to_multiset(),
            is_transposition(old(self).code@, final(self).code@),
    {
        let len: usize = self.code.as_str().unicode_len();
        if len > 1 {
            let at: usize = draw_index(len - 1);
            self.transpose_at(at);
            proof {
                lemma_transposed_same_characters(old(self).code@, at as int);
                assert(final(self).code@ == transposed(old(self).code@, at as int));
            }
        }
    }

    /// Shift right: moves the last character to the front.
    pub fn mutate_shr(&mut self)
        ensures
            final(self).code@ == shifted_right(old(self).code@),
    {
        let chars = chars_of(self.code.as_str());
        let len: usize = chars.len();
        if len > 1 {
            let mut code = String::new();
            code.push(chars[len - 1]);
            append_range(&mut code, &chars, 0, len - 1);
            assert(code@ =~= shifted_right(chars@));
            self.code = code;
        }
    }

    /// Shift left: moves the first character to the back.
    pub fn mutate_shl(&mut self)
        ensures
            final(self).code@ == shifted_left(old(self).code@),
    {
        let chars = chars_of(self.code.as_str());
        let len: usize = chars.len();
        if len > 1 {
            let mut code = string_of(&chars, 1, len);
            code.push(chars[0]);
            assert(code@ =~= shifted_left(chars@));
            self.code = code;
        }
    }

    /// Applies one mutation, or none.
    pub fn apply_operator(&mut self, op: Option<Mutation>)
        ensures
            is_outcome(op, old(self).code@, final(self).code@),
            is_mutation(old(self).code@, final(self).code@),
    {
        match op {
            None => {},
            Some(Mutation::Insert) => self.mutate_ins(),
            Some(Mutation::Delete) => self.mutate_del(),
            Some(Mutation::Substitute) => self.mutate_sub(),
            Some(Mutation::Transpose) => self.mutate_trn(),
            Some(Mutation::ShiftLeft) => self.mutate_shl(),
            Some(Mutation::ShiftRight) => self.mutate_shr(),
        }
    }

    /// Tries the six mutations in the order insert, delete, substitute,
    /// transpose, shift left, shift right, each against a random draw of its
    /// own that succeeds with the probability `rate`, and applies the first
    /// whose draw succeeds, as [`select_operator`] and
    /// [`BFProgram::apply_operator`] say. At most one mutation is applied.
    pub fn mutate(&mut self, rate: u32)
        ensures
            is_drawn_mutation(rate, old(self).code@, final(self).code@),
            is_mutation(old(self).code@, final(self).code@),
            rate == 0 ==> final(self).code@ == old(self).code@,
            rate >= RATE_ONE ==> is_insertion(old(self).code@, final(self).code@),
    {
        let mut draws: Vec<u64> = Vec::new();
        let mut k: usize = 0;
        while k < NUM_MUTATIONS
            invariant
                k <= NUM_MUTATIONS,
                draws.len() == k,
                forall|j: int| 0 <= j < k ==> (#[trigger] draws[j]) < RATE_ONE,
            decreases NUM_MUTATIONS - k,
        {
            draws.push(draw_between(0, RATE_ONE as u64));
            k += 1;
        }
        let op = select_operator(&draws, rate);
        proof {
            if rate >= RATE_ONE {
                assert(succeeds(draws[0], rate));
            }
        }
        self.apply_operator(op);
        assert(is_selected(draws@, rate, op) && is_outcome(op, old(self).code@, self.code@));
    }

    /// The child of this program and `other` at `pivot`.
    pub fn cross_at(&self, other: &BFProgram, pivot: usize) -> (child: BFProgram)
        requires
            pivot <= self.code@.len(),
            pivot <= other.code@.len(),
        ensures
            child.code@ == crossed(self.code@, other.code@, pivot as int),
    {
        let mom = chars_of(self.code.as_str());
        let dad = chars_of(other.code.as_str());
        let mut code = string_of(&mom, 0, pivot);
        append_range(&mut code, &dad, pivot, dad.len());
        assert(code@ =~= crossed(mom@, dad@, pivot as int));
        BFProgram { code }
    }

    /// Crossover: the child of this program as the first parent and `other`
    /// as the second, cut at a random pivot below the length of the shorter,
    /// or at zero where one of them is empty. The child is as long as
    /// `other`.
    pub fn cross(&self, other: &BFProgram) -> (child: BFProgram)
        ensures
            is_crossing(self.code@, other.code@, child.code@),
            child.code@.len() <= self.code@.len() + other.code@.len(),
            child.code@.len() == other.code@.len(),
    {
        let mom_len: usize = self.code.as_str().unicode_len();
        let dad_len: usize = other.code.as_str().unicode_len();
        let pivot: usize = if mom_len == 0 || dad_len == 0 {
            0
        } else {
            draw_index(min(mom_len, dad_len))
        };
        let child = self.cross_at(other, pivot);
        assert(child.code@ == crossed(self.code@, other.code@, pivot as int));
        child
    }
}

} // verus!
