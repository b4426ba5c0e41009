use bf_genetic::clock::{out_of_time, TIME_BUDGET_NANOS};
use bf_genetic::interpreter::{ExecError, InputTape, Interpreter, Token};
use bf_genetic::parser::{closing_bracket, text_of, tokens_between};

fn tokens(text: &str) -> Vec<Token> {
    Interpreter::get_tokens(&mut text.to_string())
}

fn shape(text: &str) -> String {
    format!("{:?}", tokens(text))
}

#[test]
fn sum_program() {
    let mut iptr = Interpreter::new();

    let mut prog = ",!>3-----.,!>4---.0<<[->>+<<]>[->+<]>!1------.".to_string();
    let mut input = InputTape::from_string("foo"); //102, 111, 111

    let ret = iptr.run(Interpreter::get_tokens(&mut prog), &mut input);

    assert_eq!(ret, Ok(10));
    assert_eq!(iptr.out_stream, "102+111=213\n".to_string());
}

#[test]
fn read_increment_write() {
    let mut iptr = Interpreter::new();
    let mut prog = ",+.".to_string();
    let mut input = InputTape::from_string("A");
    let ret = iptr.run(Interpreter::get_tokens(&mut prog), &mut input);
    assert_eq!(ret, Ok(66));
    assert_eq!(iptr.out_stream, "B");
    assert_eq!(iptr.return_val(), 66);
}

#[test]
fn get_tokens_leaves_the_text_empty() {
    let mut prog = "+-><".to_string();
    let got = Interpreter::get_tokens(&mut prog);
    assert_eq!(prog, "");
    assert_eq!(format!("{:?}", got), "[INC, DEC, RIGHT, LEFT]");
}

#[test]
fn every_symbol_has_its_token() {
    assert_eq!(
        shape("+-><,.!@*"),
        "[INC, DEC, RIGHT, LEFT, GET, PUT_CHAR, PUT_INT, SAVE, LOAD]"
    );
    assert_eq!(
        shape("0123456789ABCDEF"),
        "[CONST0, CONST1, CONST2, CONST3, CONST4, CONST5, CONST6, CONST7, CONST8, CONST9, \
         CONSTA, CONSTB, CONSTC, CONSTD, CONSTE, CONSTF]"
    );
}

#[test]
fn unknown_characters_are_skipped() {
    assert_eq!(shape("a+ b\n-G\u{e9}"), "[INC, DEC]");
    assert_eq!(shape("abcdef"), "[]");
    assert_eq!(shape(""), "[]");
}

#[test]
fn nested_loops_mirror_the_brackets() {
    assert_eq!(shape("[[+]]"), "[LOOP([LOOP([INC])])]");
    assert_eq!(
        shape("+[-[>]<[+.]]!"),
        "[INC, LOOP([DEC, LOOP([RIGHT]), LEFT, LOOP([INC, PUT_CHAR])]), PUT_INT]"
    );
}

#[test]
fn brackets_without_partner_stand_for_nothing() {
    assert_eq!(shape("[+"), "[INC]");
    assert_eq!(shape("+]"), "[INC]");
    assert_eq!(shape("]+["), "[INC]");
    assert_eq!(shape("[[+]"), "[LOOP([INC])]");
    assert_eq!(shape("[+]]-"), "[LOOP([INC]), DEC]");
    assert_eq!(shape("[[["), "[]");
}

#[test]
fn empty_loops_are_dropped() {
    assert_eq!(shape("[]"), "[]");
    assert_eq!(shape("+[]-"), "[INC, DEC]");
    assert_eq!(shape("[[]]"), "[]");
    assert_eq!(shape("[ab]"), "[]");
    assert_eq!(shape("[[]+]"), "[LOOP([INC])]");
}

#[test]
fn balanced_text_comes_back_as_written() {
    for text in [
        "",
        "+",
        ",+.",
        "[+]",
        "[[+]]",
        "+[-[>]<[+.]]!",
        ",!>3-----.,!>4---.0<<[->>+<<]>[->+<]>!1------.",
        "0123456789ABCDEF@*",
        "[[[[[-]]]]]",
    ] {
        assert_eq!(text_of(&tokens(text)), text);
    }
}

#[test]
fn text_of_leaves_out_what_stands_for_nothing() {
    assert_eq!(text_of(&tokens("a[+]b[]c]")), "[+]");
}

#[test]
fn parsing_is_repeatable() {
    let text = "+[-[>]<[+.]]!x[";
    assert_eq!(shape(text), shape(text));
}

#[test]
fn closing_bracket_finds_the_partner() {
    let text: Vec<char> = "[+[-]]+]".chars().collect();
    assert_eq!(closing_bracket(&text, 1, text.len()), Some(5));
    assert_eq!(closing_bracket(&text, 3, text.len()), Some(4));
    assert_eq!(closing_bracket(&text, 1, 5), None);
    assert_eq!(closing_bracket(&text, 6, text.len()), Some(7));
    assert_eq!(closing_bracket(&text, 8, text.len()), None);
}

#[test]
fn tokens_between_takes_a_part_of_the_text() {
    let text: Vec<char> = "+[-]>".chars().collect();
    assert_eq!(format!("{:?}", tokens_between(&text, 1, 4)), "[LOOP([DEC])]");
    assert_eq!(format!("{:?}", tokens_between(&text, 2, 5)), "[DEC, RIGHT]");
    assert_eq!(format!("{:?}", tokens_between(&text, 3, 3)), "[]");
}

#[test]
fn tokenize_takes_one_construct() {
    let mut prog = "+-".to_string();
    assert_eq!(format!("{:?}", Interpreter::tokenize(&mut prog)), "Some(INC)");
    assert_eq!(prog, "-");

    let mut prog = "[+[-]]>".to_string();
    assert_eq!(
        format!("{:?}", Interpreter::tokenize(&mut prog)),
        "Some(LOOP([INC, LOOP([DEC])]))"
    );
    assert_eq!(prog, ">");

    let mut prog = "[]x".to_string();
    assert_eq!(format!("{:?}", Interpreter::tokenize(&mut prog)), "None");
    assert_eq!(prog, "x");

    let mut prog = "[+".to_string();
    assert_eq!(format!("{:?}", Interpreter::tokenize(&mut prog)), "None");
    assert_eq!(prog, "+");

    let mut prog = "]+".to_string();
    assert_eq!(format!("{:?}", Interpreter::tokenize(&mut prog)), "None");
    assert_eq!(prog, "+");

    let mut prog = "x".to_string();
    assert_eq!(format!("{:?}", Interpreter::tokenize(&mut prog)), "None");
    assert_eq!(prog, "");
}

#[test]
fn repeated_tokenize_gives_the_tokens() {
    let text = "+[-[>]<]x[.";
    let mut rest = text.to_string();
    let mut got = Vec::new();
    while !rest.is_empty() {
        if let Some(token) = Interpreter::tokenize(&mut rest) {
            got.push(token);
        }
    }
    assert_eq!(format!("{:?}", got), shape(text));
}

fn run_text(text: &str, input: &str) -> (Result<u8, ExecError>, String) {
    let mut iptr = Interpreter::new();
    let ret = iptr.run(tokens(text), &mut InputTape::from_string(input));
    (ret, iptr.out_stream)
}

#[test]
fn cells_wrap_around() {
    assert_eq!(run_text("-", "").0, Ok(255));
    assert_eq!(run_text("F++++++++++++++++", "").0, Ok(0));
    assert_eq!(run_text("--", "").0, Ok(254));
}

#[test]
fn moving_left_stops_at_the_first_cell() {
    assert_eq!(run_text("+<<<", "").0, Ok(1));
    assert_eq!(run_text("+>++<<", "").0, Ok(1));
}

#[test]
fn the_tape_grows_to_the_right() {
    let mut text = String::new();
    for _ in 0..2500 {
        text.push('>');
    }
    text.push_str("+++");
    assert_eq!(run_text(&text, "").0, Ok(3));
    let mut back = text.clone();
    for _ in 0..2500 {
        back.push('<');
    }
    assert_eq!(run_text(&back, "").0, Ok(0));
}

#[test]
fn constants_are_sixteen_times_the_digit() {
    let digits = "0123456789ABCDEF";
    for (i, c) in digits.chars().enumerate() {
        assert_eq!(run_text(&c.to_string(), "").0, Ok(16 * i as u8));
    }
}

#[test]
fn reading_past_the_input_gives_zero() {
    assert_eq!(run_text(",", "").0, Ok(0));
    assert_eq!(run_text("+,", "").0, Ok(0));
    assert_eq!(run_text(",,", "a").0, Ok(0));
    assert_eq!(run_text(",>,>,<", "abc").0, Ok(98));
}

#[test]
fn a_run_takes_the_input_that_it_reads() {
    let mut iptr = Interpreter::new();
    let mut input = InputTape::from_string("xyz");
    assert_eq!(iptr.run(tokens(",,"), &mut input), Ok(121));
    assert_eq!(input.read(), 122);
    assert_eq!(input.read(), 0);
}

#[test]
fn characters_and_numbers_are_written() {
    assert_eq!(run_text("4+.", "").1, "A");
    assert_eq!(run_text("!", "").1, "0");
    assert_eq!(run_text("+++++++!", "").1, "7");
    assert_eq!(run_text("1!", "").1, "16");
    assert_eq!(run_text("6++++!", "").1, "100");
    assert_eq!(run_text("F!", "").1, "240");
    assert_eq!(run_text("-!", "").1, "255");
    assert_eq!(run_text("-.", "").1, "\u{ff}");
    assert_eq!(run_text("7!.+!", "").1, "112p113");
}

#[test]
fn register_keeps_a_value() {
    assert_eq!(run_text("5@>*", "").0, Ok(80));
    assert_eq!(run_text("5>*", "").0, Ok(0));
    assert_eq!(run_text("+++@0*", "").0, Ok(3));
}

#[test]
fn loops_run_while_the_cell_is_not_zero() {
    assert_eq!(run_text("[+]", "").0, Ok(0));
    assert_eq!(run_text("+++[->++<]>", "").0, Ok(6));
    assert_eq!(run_text("++[->+++[->++<]<]>>", "").0, Ok(12));
    assert_eq!(run_text("+[-]+", "").0, Ok(1));
}

#[test]
fn output_adds_up_over_runs_until_reset() {
    let mut iptr = Interpreter::new();
    assert_eq!(iptr.run(tokens("4+.>"), &mut InputTape::new()), Ok(0));
    assert_eq!(iptr.run(tokens("4++."), &mut InputTape::new()), Ok(66));
    assert_eq!(iptr.out_stream, "AB");
    iptr.reset();
    assert_eq!(iptr.out_stream, "");
    assert_eq!(iptr.return_val(), 0);
    assert_eq!(iptr.run(tokens("*>*<<"), &mut InputTape::new()), Ok(0));
    assert_eq!(iptr.run(tokens("."), &mut InputTape::new()), Ok(0));
    assert_eq!(iptr.out_stream, "\0");
}

#[test]
fn the_same_run_twice_gives_the_same() {
    let text = ",[->+>+<<]>>[-<<+>>]<.!";
    let first = run_text(text, "Q");
    let second = run_text(text, "Q");
    assert_eq!(first, second);
    assert_eq!(first.0, Ok(81));
    assert_eq!(first.1, "Q81");
}

#[test]
fn a_run_stops_when_its_steps_are_used_up() {
    let mut iptr = Interpreter::new().budget(1000);
    let ret = iptr.run(tokens("+[.]"), &mut InputTape::new());
    assert_eq!(ret, Err(ExecError::OutOfSteps));
    assert_eq!(iptr.return_val(), 1);
    // "+", the loop, then a write and the end of a pass 499 times
    assert_eq!(iptr.out_stream.len(), 499);
}

#[test]
fn steps_are_counted_one_for_each_instruction_and_pass() {
    // three instructions
    assert_eq!(Interpreter::new().budget(3).run(tokens("+++"), &mut InputTape::new()), Ok(3));
    let mut short = Interpreter::new().budget(2);
    assert_eq!(short.run(tokens("+++"), &mut InputTape::new()), Err(ExecError::OutOfSteps));
    assert_eq!(short.return_val(), 2);
    // "+", the loop, "-", the end of the pass
    assert_eq!(Interpreter::new().budget(4).run(tokens("+[-]"), &mut InputTape::new()), Ok(0));
    assert_eq!(
        Interpreter::new().budget(3).run(tokens("+[-]"), &mut InputTape::new()),
        Err(ExecError::OutOfSteps)
    );
    assert_eq!(Interpreter::new().budget(0).run(tokens(""), &mut InputTape::new()), Ok(0));
}

#[test]
fn a_timed_run_of_an_endless_loop_times_out() {
    let mut iptr = Interpreter::new().print(false).limit(true);
    let ret = iptr.run(tokens("+[.]"), &mut InputTape::new());
    assert_eq!(ret, Err(ExecError::Timeout));
    assert!(iptr.out_stream.chars().all(|c| c == '\u{1}'));
    assert_eq!(iptr.return_val(), 1);
}

#[test]
fn errors_say_what_went_wrong() {
    assert_eq!(ExecError::Timeout.message(), "Computation took too long");
    assert_eq!(ExecError::OutOfSteps.message(), "Computation took too many steps");
    assert_ne!(ExecError::Timeout, ExecError::OutOfSteps);
}

#[test]
fn tokens_can_be_copied() {
    let code = tokens("+[-[>]<]!");
    let copy = code.clone();
    assert_eq!(format!("{:?}", copy), format!("{:?}", code));
    assert_eq!(text_of(&copy), "+[-[>]<]!");
}

#[test]
fn an_untimed_run_never_times_out() {
    let mut iptr = Interpreter::new().budget(200_000);
    let ret = iptr.run(tokens("+[>+<]"), &mut InputTape::new());
    assert_eq!(ret, Err(ExecError::OutOfSteps));
}

#[test]
fn settings_are_copied_and_changed() {
    let plain = Interpreter::new();
    assert!(plain.shows_output());
    assert!(!plain.is_timed());
    let quiet = plain.print(false);
    assert!(!quiet.shows_output());
    assert!(plain.shows_output());
    let timed = quiet.limit(true);
    assert!(timed.is_timed());
    assert!(!timed.shows_output());
    assert!(!quiet.is_timed());
    let again = timed.limit(false).print(true);
    assert!(again.shows_output());
    assert!(!again.is_timed());
}

#[test]
fn a_copy_keeps_the_state() {
    let mut iptr = Interpreter::new();
    assert_eq!(iptr.run(tokens("4+.>++"), &mut InputTape::new()), Ok(2));
    let mut copy = iptr.clone();
    assert_eq!(copy.return_val(), 2);
    assert_eq!(copy.written(), "A");
    assert_eq!(copy.run(tokens("<."), &mut InputTape::new()), Ok(65));
    assert_eq!(copy.out_stream, "AA");
    assert_eq!(iptr.out_stream, "A");
    assert_eq!(iptr.return_val(), 2);
}

#[test]
fn the_spare_tape_is_the_field() {
    let mut iptr = Interpreter::new();
    assert_eq!(iptr.spare_tape().bytes(), Vec::<u8>::new());
    iptr.in_stream = InputTape::from_string("ab");
    assert_eq!(iptr.spare_tape().bytes(), b"ab".to_vec());
    assert_eq!(iptr.run(tokens(","), &mut InputTape::new()), Ok(0));
    assert_eq!(iptr.spare_tape().bytes(), b"ab".to_vec());
}

#[test]
fn execute_runs_borrowed_tokens() {
    let code = tokens(",+");
    let mut iptr = Interpreter::new();
    assert_eq!(iptr.execute(&code, &mut InputTape::from_string("a")), Ok(98));
    assert_eq!(iptr.execute(&code, &mut InputTape::from_string("b")), Ok(99));
}

#[test]
fn input_tape_reads_front_to_back() {
    let mut tape = InputTape::from_string("hi\u{151}");
    assert_eq!(tape.read(), 104);
    assert_eq!(tape.read(), 105);
    assert_eq!(tape.read(), 0x51);
    assert_eq!(tape.read(), 0);
    assert_eq!(tape.read(), 0);
    assert_eq!(InputTape::new().read(), 0);
}

#[test]
fn input_tape_shows_what_is_left() {
    let mut tape = InputTape::from_string("abc");
    assert_eq!(tape.bytes(), b"abc".to_vec());
    tape.read();
    assert_eq!(tape.bytes(), b"bc".to_vec());
    assert_eq!(InputTape::from_numbers(&vec![0, 10, 200]).bytes(), b"010200".to_vec());
}

#[test]
fn input_tape_of_numbers_holds_their_digits() {
    let mut tape = InputTape::from_numbers(&vec![102, 7, 0, 255]);
    let mut got = String::new();
    loop {
        let b = tape.read();
        if b == 0 {
            break;
        }
        got.push(b as char);
    }
    assert_eq!(got, "10270255");
}

#[test]
fn random_input_is_made_of_digits() {
    for len in 0..20 {
        let tape = InputTape::random(len);
        let mut copy = tape.clone();
        let mut count = 0;
        loop {
            let b = copy.read();
            if b == 0 {
                break;
            }
            assert!((b'0'..=b'9').contains(&b));
            count += 1;
        }
        assert!(len <= count && count <= 3 * len);
    }
}

#[test]
fn the_time_budget_is_two_milliseconds() {
    assert_eq!(TIME_BUDGET_NANOS, 2_000_000);
    assert!(!out_of_time(Some(0)));
    assert!(!out_of_time(Some(-5)));
    assert!(!out_of_time(Some(2_000_000)));
    assert!(out_of_time(Some(2_000_001)));
    assert!(out_of_time(None));
}
