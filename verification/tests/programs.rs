use bf_genetic::chance::{
    chance, draw_index, draw_length, heads, hits, index_of_draw, RATE_ONE,
};
use bf_genetic::program::{
    min, random_char, select_operator, symbol_at, BFProgram, Mutation, NUM_MUTATIONS,
};

const ALPHABET: &str = "+-><[],.0123456789ABCDEF!@*";

fn program(text: &str) -> BFProgram {
    BFProgram { code: text.to_string() }
}

fn sorted(text: &str) -> Vec<char> {
    let mut chars: Vec<char> = text.chars().collect();
    chars.sort();
    chars
}

#[test]
fn shift_mutations() {
    let mut prog = BFProgram { code: "++<<-[+]!".to_string() };

    prog.mutate_shl();
    assert_eq!(&prog.code, "+<<-[+]!+");

    prog.mutate_shr();
    assert_eq!(&prog.code, "++<<-[+]!");
}

#[test]
fn shifts_leave_short_programs() {
    for text in ["", "+"] {
        let mut prog = program(text);
        prog.mutate_shl();
        assert_eq!(prog.code, text);
        prog.mutate_shr();
        assert_eq!(prog.code, text);
    }
    let mut two = program("+-");
    two.mutate_shr();
    assert_eq!(two.code, "-+");
    two.mutate_shl();
    assert_eq!(two.code, "+-");
}

#[test]
fn min_is_the_smaller() {
    assert_eq!(min(3, 5), 3);
    assert_eq!(min(5, 3), 3);
    assert_eq!(min(4, 4), 4);
    assert_eq!(min(0, usize::MAX), 0);
}

#[test]
fn the_alphabet_has_its_fixed_order() {
    let listed: String = (0..27).map(symbol_at).collect();
    assert_eq!(listed, ALPHABET);
    assert_eq!(NUM_MUTATIONS, 6);
}

#[test]
fn random_symbols_are_of_the_alphabet() {
    let mut seen = std::collections::BTreeSet::new();
    for _ in 0..5000 {
        let c = random_char();
        assert!(ALPHABET.contains(c));
        seen.insert(c);
    }
    assert_eq!(seen.len(), 27);
}

#[test]
fn a_draw_stays_below_its_bound() {
    for _ in 0..200 {
        assert_eq!(draw_index(1), 0);
    }
    for bound in [2usize, 3, 10, 1000] {
        for _ in 0..500 {
            assert!(draw_index(bound) < bound);
        }
    }
    let mut seen = std::collections::BTreeSet::new();
    for _ in 0..2000 {
        let length = draw_length(5, 15);
        assert!(5 <= length && length < 15);
        seen.insert(length);
        assert_eq!(draw_length(7, 8), 7);
    }
    assert_eq!(seen.len(), 10);
}

#[test]
fn a_draw_is_its_own_index() {
    assert_eq!(index_of_draw(0, 1), 0);
    assert_eq!(index_of_draw(7, 8), 7);
    assert_eq!(index_of_draw(26, 27), 26);
    assert_eq!(index_of_draw(5, usize::MAX), 5);
}

#[test]
fn a_draw_hits_below_the_rate() {
    assert!(hits(0, 1));
    assert!(!hits(0, 0));
    assert!(hits(299_999, 300_000));
    assert!(!hits(300_000, 300_000));
    assert!(hits(999_999, RATE_ONE));
    assert!(heads(1) && heads(255) && !heads(0) && !heads(254));
}

#[test]
fn chance_is_sure_at_both_ends() {
    for _ in 0..500 {
        assert!(!chance(0));
        assert!(chance(RATE_ONE));
        assert!(chance(u32::MAX));
    }
    let hits = (0..20_000).filter(|_| chance(RATE_ONE / 4)).count();
    assert!(4_000 < hits && hits < 6_000);
}

#[test]
fn new_programs_have_their_length() {
    for len in [0usize, 1, 9, 40] {
        let prog = BFProgram::new(len);
        assert_eq!(prog.code.chars().count(), len);
        assert!(prog.code.chars().all(|c| ALPHABET.contains(c)));
    }
}

#[test]
fn insert_at_a_position() {
    let mut prog = program("+-");
    prog.insert_at(0, '>');
    assert_eq!(prog.code, ">+-");
    prog.insert_at(3, '<');
    assert_eq!(prog.code, ">+-<");
    prog.insert_at(2, '.');
    assert_eq!(prog.code, ">+.-<");
    let mut empty = program("");
    empty.insert_at(0, '!');
    assert_eq!(empty.code, "!");
}

#[test]
fn delete_at_a_position() {
    let mut prog = program("+-><");
    prog.delete_at(1);
    assert_eq!(prog.code, "+><");
    prog.delete_at(2);
    assert_eq!(prog.code, "+>");
    prog.delete_at(0);
    assert_eq!(prog.code, ">");
    prog.delete_at(0);
    assert_eq!(prog.code, "");
}

#[test]
fn substitute_at_a_position() {
    let mut prog = program("+-><");
    prog.substitute_at(0, '[');
    prog.substitute_at(3, ']');
    assert_eq!(prog.code, "[->]");
}

#[test]
fn transpose_at_a_position() {
    let mut prog = program("+-><");
    prog.transpose_at(0);
    assert_eq!(prog.code, "-+><");
    prog.transpose_at(2);
    assert_eq!(prog.code, "-+<>");
    prog.transpose_at(1);
    assert_eq!(prog.code, "-<+>");
}

#[test]
fn mutate_ins_adds_one_symbol() {
    for text in ["", "+", "++<<-[+]!"] {
        for _ in 0..200 {
            let mut prog = program(text);
            prog.mutate_ins();
            assert_eq!(prog.code.len(), text.len() + 1);
            let at = (0..=text.len())
                .find(|&at| prog.code[..at] == text[..at] && prog.code[at + 1..] == text[at..]);
            let at = at.unwrap();
            assert!(at < text.len() || text.is_empty());
            assert!(ALPHABET.contains(&prog.code[at..at + 1]));
        }
    }
}

#[test]
fn mutate_del_takes_one_symbol() {
    let mut empty = program("");
    empty.mutate_del();
    assert_eq!(empty.code, "");
    let text = "+-><[].";
    for _ in 0..200 {
        let mut prog = program(text);
        prog.mutate_del();
        assert_eq!(prog.code.len(), text.len() - 1);
        assert!((0..text.len())
            .any(|at| prog.code[..at] == text[..at] && prog.code[at..] == text[at + 1..]));
    }
}

#[test]
fn mutate_sub_keeps_the_length() {
    let mut empty = program("");
    empty.mutate_sub();
    assert_eq!(empty.code, "");
    let text = "+-><[].";
    for _ in 0..200 {
        let mut prog = program(text);
        prog.mutate_sub();
        assert_eq!(prog.code.len(), text.len());
        let changed: Vec<usize> = (0..text.len())
            .filter(|&i| prog.code.as_bytes()[i] != text.as_bytes()[i])
            .collect();
        assert!(changed.len() <= 1);
        assert!(prog.code.chars().all(|c| ALPHABET.contains(c)));
    }
}

#[test]
fn mutate_trn_keeps_the_characters() {
    for text in ["", "+"] {
        let mut prog = program(text);
        prog.mutate_trn();
        assert_eq!(prog.code, text);
    }
    let text = "+-><[].";
    for _ in 0..200 {
        let mut prog = program(text);
        prog.mutate_trn();
        assert_eq!(prog.code.len(), text.len());
        assert_eq!(sorted(&prog.code), sorted(text));
        let changed: Vec<usize> = (0..text.len())
            .filter(|&i| prog.code.as_bytes()[i] != text.as_bytes()[i])
            .collect();
        assert_eq!(changed.len(), 2);
        assert_eq!(changed[1], changed[0] + 1);
    }
}

#[test]
fn mutations_are_tried_in_their_order() {
    let order = [
        Mutation::Insert,
        Mutation::Delete,
        Mutation::Substitute,
        Mutation::Transpose,
        Mutation::ShiftLeft,
        Mutation::ShiftRight,
    ];
    for (k, mutation) in order.iter().enumerate() {
        assert_eq!(Mutation::at(k), *mutation);
    }
}

#[test]
fn the_first_draw_that_succeeds_selects() {
    let q = 57_714;
    assert_eq!(select_operator(&vec![q as u64; 6], q), None);
    assert_eq!(select_operator(&vec![999_999; 6], q), None);
    assert_eq!(select_operator(&vec![0; 6], q), Some(Mutation::Insert));
    assert_eq!(select_operator(&vec![0; 6], 0), None);
    assert_eq!(select_operator(&vec![999_999; 6], RATE_ONE), Some(Mutation::Insert));
    let miss = q as u64;
    let hit = q as u64 - 1;
    assert_eq!(
        select_operator(&vec![miss, hit, miss, hit, hit, hit], q),
        Some(Mutation::Delete)
    );
    assert_eq!(
        select_operator(&vec![miss, miss, hit, miss, miss, hit], q),
        Some(Mutation::Substitute)
    );
    assert_eq!(
        select_operator(&vec![miss, miss, miss, hit, hit, miss], q),
        Some(Mutation::Transpose)
    );
    assert_eq!(
        select_operator(&vec![miss, miss, miss, miss, hit, hit], q),
        Some(Mutation::ShiftLeft)
    );
    assert_eq!(
        select_operator(&vec![miss, miss, miss, miss, miss, hit], q),
        Some(Mutation::ShiftRight)
    );
}

#[test]
fn an_operator_is_applied_by_its_name() {
    let text = "+-><[].";
    let mut prog = program(text);
    prog.apply_operator(None);
    assert_eq!(prog.code, text);
    prog.apply_operator(Some(Mutation::ShiftLeft));
    assert_eq!(prog.code, "-><[].+");
    prog.apply_operator(Some(Mutation::ShiftRight));
    assert_eq!(prog.code, text);
    prog.apply_operator(Some(Mutation::Insert));
    assert_eq!(prog.code.len(), 8);
    prog.apply_operator(Some(Mutation::Delete));
    assert_eq!(prog.code.len(), 7);
    let before = prog.code.clone();
    prog.apply_operator(Some(Mutation::Substitute));
    assert_eq!(prog.code.len(), 7);
    assert!(prog.code.chars().zip(before.chars()).filter(|(a, b)| a != b).count() <= 1);
    let before = prog.code.clone();
    prog.apply_operator(Some(Mutation::Transpose));
    assert_eq!(sorted(&prog.code), sorted(&before));
}

#[test]
fn mutate_applies_at_most_one_operator() {
    let text = "+-><[].";
    for _ in 0..100 {
        let mut prog = program(text);
        prog.mutate(0);
        assert_eq!(prog.code, text);
        let mut prog = program(text);
        prog.mutate(RATE_ONE);
        assert_eq!(prog.code.len(), text.len() + 1);
        let mut prog = program(text);
        prog.mutate(RATE_ONE / 3);
        let len = prog.code.len();
        assert!(text.len() - 1 <= len && len <= text.len() + 1);
    }
}

#[test]
fn cross_at_a_pivot() {
    let mom = program("++++++");
    let dad = program("----");
    assert_eq!(mom.cross_at(&dad, 0).code, "----");
    assert_eq!(mom.cross_at(&dad, 1).code, "+---");
    assert_eq!(mom.cross_at(&dad, 4).code, "++++");
    assert_eq!(dad.cross_at(&mom, 1).code, "-+++++");
    assert_eq!(dad.cross_at(&mom, 4).code, "----++");
    assert_eq!(program("").cross_at(&dad, 0).code, "----");
    assert_eq!(mom.cross_at(&program(""), 0).code, "");
}

#[test]
fn cross_cuts_both_parents_at_one_pivot() {
    let mom = program("++++++");
    let dad = program("----");
    let mut pivots = std::collections::BTreeSet::new();
    for _ in 0..500 {
        let child = mom.cross(&dad).code;
        assert!(child.len() <= mom.code.len() + dad.code.len());
        assert_eq!(child.len(), dad.code.len());
        let pivot = child.chars().take_while(|&c| c == '+').count();
        assert!(pivot < 4);
        assert_eq!(child, format!("{}{}", &mom.code[..pivot], &dad.code[pivot..]));
        pivots.insert(pivot);

        let other = dad.cross(&mom).code;
        assert_eq!(other.len(), mom.code.len());
        let pivot = other.chars().take_while(|&c| c == '-').count();
        assert!(pivot < 4);
        assert_eq!(other, format!("{}{}", &dad.code[..pivot], &mom.code[pivot..]));
    }
    assert_eq!(pivots.len(), 4);
}

#[test]
fn cross_with_an_empty_parent_cuts_at_zero() {
    let some = program("+-+");
    let none = program("");
    for _ in 0..50 {
        assert_eq!(some.cross(&none).code, "");
        assert_eq!(none.cross(&some).code, "+-+");
        assert_eq!(none.cross(&none).code, "");
    }
}

#[test]
fn a_clone_has_the_same_text() {
    let prog = program("+[-]");
    let mut copy = prog.clone();
    copy.mutate_shl();
    assert_eq!(prog.code, "+[-]");
    assert_eq!(copy.code, "[-]+");
}
