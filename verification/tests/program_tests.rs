use ngram_decider::program::{Bit, BitBlock, Dir, Program, State};

const LONG_FORM: &str = "1RB0LC_0LA1RD_1LA0RB_1LE---_0RA1RE";
const SHORT_FORM: &str = "1RB0LC0LA1RD1LA0RB1LE---0RA1RE";

fn rule(program: &Program, read: bool, state: u8) -> Option<(u8, bool, Dir)> {
    match program.action(Bit(read), State(state)) {
        Ok((next, write, dir)) => Some((next.0, write.0, dir)),
        Err(_) => None,
    }
}

#[test]
fn opposite_swaps_the_directions() {
    assert_eq!(Dir::Left.opposite(), Dir::Right);
    assert_eq!(Dir::Right.opposite(), Dir::Left);
    assert_eq!(Dir::Left.opposite().opposite(), Dir::Left);
}

#[test]
fn long_form_gives_every_rule() {
    let program = Program::from_string(LONG_FORM).unwrap();
    assert_eq!(rule(&program, false, 1), Some((2, true, Dir::Right)));
    assert_eq!(rule(&program, true, 1), Some((3, false, Dir::Left)));
    assert_eq!(rule(&program, false, 2), Some((1, false, Dir::Left)));
    assert_eq!(rule(&program, true, 2), Some((4, true, Dir::Right)));
    assert_eq!(rule(&program, false, 3), Some((1, true, Dir::Left)));
    assert_eq!(rule(&program, true, 3), Some((2, false, Dir::Right)));
    assert_eq!(rule(&program, false, 4), Some((5, true, Dir::Left)));
    assert_eq!(rule(&program, true, 4), None);
    assert_eq!(rule(&program, false, 5), Some((1, false, Dir::Right)));
    assert_eq!(rule(&program, true, 5), Some((5, true, Dir::Right)));
}

#[test]
fn short_form_gives_the_same_rules() {
    let long = Program::from_string(LONG_FORM).unwrap();
    let short = Program::from_string(SHORT_FORM).unwrap();
    for state in 1..=5u8 {
        for read in [false, true] {
            assert_eq!(rule(&long, read, state), rule(&short, read, state));
        }
    }
}

#[test]
fn table_keeps_rules_in_state_order() {
    let program = Program::from_string(LONG_FORM).unwrap();
    assert_eq!(program.by_input_array[0], Some((State(2), Bit(true), Dir::Right)));
    assert_eq!(program.by_input_array[1], Some((State(3), Bit(false), Dir::Left)));
    assert_eq!(program.by_input_array[7], None);
    assert_eq!(program.by_input_array[9], Some((State(5), Bit(true), Dir::Right)));
}

#[test]
fn wrong_lengths_are_rejected() {
    assert!(Program::from_string("").is_none());
    assert!(Program::from_string(&LONG_FORM[..33]).is_none());
    assert!(Program::from_string(&SHORT_FORM[..29]).is_none());
    assert!(Program::from_string("1RB0LC_0LA1RD_1LA0RB_1LE---_0RA1RE_").is_none());
    assert!(Program::from_string("1RB0LC0LA1RD1LA0RB1LE---0RA1REX").is_none());
    assert!(Program::from_string("1RB0LC_0LA1RD_1LA0RB_1LE---_0RA1").is_none());
}

#[test]
fn length_counts_bytes_not_letters() {
    // 28 ASCII letters and one letter of two bytes: 29 letters, 30 bytes.
    let text = "1RB0LC0LA1RD1LA0RB1LE---0RA1é";
    assert_eq!(text.len(), 30);
    assert!(Program::from_string(text).is_none());
}

#[test]
fn unknown_state_is_rejected() {
    assert!(Program::from_string("1RF0LC_0LA1RD_1LA0RB_1LE---_0RA1RE").is_none());
    assert!(Program::from_string("1RB0LC_0LA1RD_1LA0RB_1LE---_0RA1Ra").is_none());
}

#[test]
fn unknown_symbol_is_rejected() {
    assert!(Program::from_string("2RB0LC_0LA1RD_1LA0RB_1LE---_0RA1RE").is_none());
    assert!(Program::from_string("1RB0LC_0LA1RD_1LA0RB_1LE---_0RAxRE").is_none());
}

#[test]
fn unknown_direction_is_rejected() {
    assert!(Program::from_string("1UB0LC_0LA1RD_1LA0RB_1LE---_0RA1RE").is_none());
    assert!(Program::from_string("1RB0LC_0LA1RD_1LA0RB_1LE---_0RA1rE").is_none());
}

#[test]
fn separators_are_not_read() {
    let program = Program::from_string("1RB0LC?0LA1RD!1LA0RB 1LE---x0RA1RE").unwrap();
    let plain = Program::from_string(LONG_FORM).unwrap();
    for state in 1..=5u8 {
        for read in [false, true] {
            assert_eq!(rule(&program, read, state), rule(&plain, read, state));
        }
    }
}

#[test]
fn every_halt_mark_leaves_the_rule_out() {
    let program = Program::from_string("1RZ0LH_0L-1RD_------_------_------").unwrap();
    assert_eq!(rule(&program, false, 1), None);
    assert_eq!(rule(&program, true, 1), None);
    assert_eq!(rule(&program, false, 2), None);
    assert_eq!(rule(&program, true, 2), Some((4, true, Dir::Right)));
    for state in 3..=5u8 {
        assert_eq!(rule(&program, false, state), None);
        assert_eq!(rule(&program, true, state), None);
    }
}

#[test]
fn a_halt_mark_hides_what_stands_before_it() {
    // The symbol and the direction of a halting rule are not looked at.
    let program = Program::from_string("??-!!Z_------_------_------_------").unwrap();
    assert_eq!(rule(&program, false, 1), None);
    assert_eq!(rule(&program, true, 1), None);
}

#[test]
fn numbers_stand_for_letters() {
    // Each rule as three raw bytes: symbol, direction (0 right, 1 left), state.
    let mut bytes = vec![0u8; 30];
    bytes[0..3].copy_from_slice(&[1, 0, 2]);
    bytes[3..6].copy_from_slice(&[0, 1, 3]);
    bytes[6..9].copy_from_slice(&[1, 1, 5]);
    bytes[27..30].copy_from_slice(&[0, 0, 4]);
    let text = String::from_utf8(bytes).unwrap();
    let program = Program::from_string(&text).unwrap();
    assert_eq!(rule(&program, false, 1), Some((2, true, Dir::Right)));
    assert_eq!(rule(&program, true, 1), Some((3, false, Dir::Left)));
    assert_eq!(rule(&program, false, 2), Some((5, true, Dir::Left)));
    assert_eq!(rule(&program, true, 2), None);
    assert_eq!(rule(&program, false, 3), None);
    assert_eq!(rule(&program, true, 5), Some((4, false, Dir::Right)));
}

#[test]
fn numbers_out_of_range_are_rejected() {
    let mut bytes = vec![0u8; 30];
    bytes[0..3].copy_from_slice(&[1, 0, 6]);
    assert!(Program::from_string(&String::from_utf8(bytes).unwrap()).is_none());
    let mut bytes = vec![0u8; 30];
    bytes[0..3].copy_from_slice(&[2, 0, 1]);
    assert!(Program::from_string(&String::from_utf8(bytes).unwrap()).is_none());
    let mut bytes = vec![0u8; 30];
    bytes[0..3].copy_from_slice(&[1, 2, 1]);
    assert!(Program::from_string(&String::from_utf8(bytes).unwrap()).is_none());
}

#[test]
fn parsed_programs_lead_to_live_states() {
    assert!(Program::from_string(LONG_FORM).unwrap().leads_to_live_states());
    assert!(Program::from_string("------_------_------_------_------").unwrap().leads_to_live_states());
}

#[test]
fn a_rule_into_an_unknown_state_is_found() {
    let mut program = Program::from_string(LONG_FORM).unwrap();
    program.by_input_array[4] = Some((State(6), Bit(false), Dir::Left));
    assert!(!program.leads_to_live_states());
    program.by_input_array[4] = Some((State(0), Bit(false), Dir::Left));
    assert!(!program.leads_to_live_states());
    program.by_input_array[4] = Some((State(5), Bit(false), Dir::Left));
    assert!(program.leads_to_live_states());
}

#[test]
fn action_reads_the_table() {
    let mut table = [None; 10];
    table[5] = Some((State(1), Bit(true), Dir::Left));
    let program: Program = Program { by_input_array: table };
    assert_eq!(rule(&program, true, 3), Some((1, true, Dir::Left)));
    assert_eq!(rule(&program, false, 3), None);
    assert_eq!(rule(&program, true, 2), None);
}

#[test]
fn get_by_finds_the_slot() {
    let mut table = [None; 10];
    table[0] = Some((State(2), Bit(false), Dir::Right));
    table[9] = Some((State(3), Bit(true), Dir::Left));
    assert_eq!(*Bit(false).get_by(0, &table), Some((State(2), Bit(false), Dir::Right)));
    assert_eq!(*Bit(true).get_by(0, &table), None);
    assert_eq!(*Bit(true).get_by(4, &table), Some((State(3), Bit(true), Dir::Left)));
}

#[test]
fn get_by_mut_changes_one_slot() {
    let mut table = [None; 10];
    *Bit(true).get_by_mut(2, &mut table) = Some((State(4), Bit(true), Dir::Right));
    for (i, entry) in table.iter().enumerate() {
        if i == 5 {
            assert_eq!(*entry, Some((State(4), Bit(true), Dir::Right)));
        } else {
            assert_eq!(*entry, None);
        }
    }
}

#[test]
fn states_have_letters() {
    let letters: Vec<char> = (0..=5u8).map(|s| State(s).letter()).collect();
    assert_eq!(letters, vec!['H', 'A', 'B', 'C', 'D', 'E']);
}

#[test]
fn bits_have_digits() {
    assert_eq!(Bit(false).digit(), '0');
    assert_eq!(Bit(true).digit(), '1');
}
