use branch_sim::ast::{parse, Instruction, ParseError};
use branch_sim::machine::{measure, search_label, ExecError, HartState, RegisterFile};
use branch_sim::predictor::dynamic::{State1Bit, State2Bit, StateMachine1Bit, StateMachine2Bit};
use branch_sim::predictor::simple::{AlwaysTaken, BackwardTaken, ForwardTaken, NeverTaken};
use branch_sim::predictor::{AnyPredictor, Predictor};

fn all_predictors() -> Vec<AnyPredictor> {
    vec![
        AnyPredictor::Always(AlwaysTaken),
        AnyPredictor::Never(NeverTaken),
        AnyPredictor::Forward(ForwardTaken),
        AnyPredictor::Backward(BackwardTaken),
        AnyPredictor::OneBit(StateMachine1Bit::new()),
        AnyPredictor::TwoBit(StateMachine2Bit::new()),
    ]
}

const COUNTDOWN: &str = "addi x1, x0, 5\nloop:\naddi x1, x1, -1\nbne x1, x0, loop\nfinish\n";

#[test]
fn register_zero_stays_zero() {
    let mut rf = RegisterFile::new();
    rf.write(0, 77);
    assert_eq!(rf.read(0), 0);
    rf.write(5, 123);
    rf.write(0, 99);
    assert_eq!(rf.read(0), 0);
    assert_eq!(rf.read(5), 123);
}

#[test]
fn hart_state_basics() {
    let mut h = HartState::new();
    assert_eq!(h.pc(), 0);
    h.next();
    assert_eq!(h.pc(), 1);
    h.goto(17);
    assert_eq!(h.pc(), 17);
    h.reg_write(3, 42);
    assert_eq!(h.reg_read(3), 42);
    h.reg_write(0, 42);
    assert_eq!(h.reg_read(0), 0);
}

#[test]
fn wraparound_add_sub() {
    // x1 = 0 - 1 wraps to u64::MAX; x2 = x1 + x1 wraps to u64::MAX - 1.
    let text = "addi x1, x0, -1\nadd x2, x1, x1\nsub x3, x0, x1\nfinish\n";
    let prog = parse(text).unwrap();
    let mut preds = all_predictors();
    let (hart, _) = measure(&prog, &mut preds, 1000).unwrap();
    assert_eq!(hart.reg_read(1), u64::MAX);
    assert_eq!(hart.reg_read(2), u64::MAX - 1);
    assert_eq!(hart.reg_read(3), 1);
}

#[test]
fn one_bit_follows_latest_outcome() {
    let mut s = State1Bit::NotTaken;
    for &o in &[true, true, false, true, false, false] {
        s.update(o);
        assert_eq!(s.prediction(), o);
    }
}

#[test]
fn two_bit_saturates_at_ends() {
    let mut s = State2Bit::StronglyNotTaken;
    s.update(false);
    assert!(matches!(s, State2Bit::StronglyNotTaken));
    // A long run of taken outcomes saturates at strongly-taken.
    for _ in 0..10 {
        s.update(true);
    }
    assert!(matches!(s, State2Bit::StronglyTaken));
    s.update(true);
    assert!(matches!(s, State2Bit::StronglyTaken));
    // One not-taken only weakens it by a single position.
    s.update(false);
    assert!(matches!(s, State2Bit::WeaklyTaken));
}

#[test]
fn two_bit_prediction_thresholds() {
    assert!(!State2Bit::StronglyNotTaken.prediction());
    assert!(!State2Bit::WeaklyNotTaken.prediction());
    assert!(State2Bit::WeaklyTaken.prediction());
    assert!(State2Bit::StronglyTaken.prediction());
}

#[test]
fn predictor_identities() {
    let preds = all_predictors();
    let ids: Vec<&str> = preds.iter().map(|p| p.id()).collect();
    assert_eq!(
        ids,
        vec![
            "always-taken",
            "never-taken",
            "forward-taken",
            "backward-taken",
            "dyn-1-bit",
            "dyn-2-bit"
        ]
    );
}

#[test]
fn parse_countdown_program() {
    let prog = parse(COUNTDOWN).unwrap();
    assert_eq!(
        prog,
        vec![
            Instruction::AddImm(1, 0, 5),
            Instruction::Label("loop".to_string()),
            Instruction::AddImm(1, 1, -1),
            Instruction::BranchNE(1, 0, "loop".to_string()),
            Instruction::Finish,
        ]
    );
}

#[test]
fn parse_all_opcodes_and_blanks() {
    let text = "\n  add x1 , x2, x3  \nsub x4,x5,x6\nbge x1, x2, top\nj top\ntop:\nfinish\n\n";
    let prog = parse(text).unwrap();
    assert_eq!(
        prog,
        vec![
            Instruction::Add(1, 2, 3),
            Instruction::Sub(4, 5, 6),
            Instruction::BranchGE(1, 2, "top".to_string()),
            Instruction::Jump("top".to_string()),
            Instruction::Label("top".to_string()),
            Instruction::Finish,
        ]
    );
}

#[test]
fn parse_rejects_unknown_opcode() {
    assert_eq!(parse("nop\n"), Err(ParseError::InvalidInstruction));
}

#[test]
fn parse_rejects_wrong_shape() {
    assert_eq!(parse("add x1, x2\n"), Err(ParseError::InvalidInstruction));
    assert_eq!(parse("addi x1, x2, x3\n"), Err(ParseError::InvalidInstruction));
    assert_eq!(parse("finish x1\n"), Err(ParseError::InvalidInstruction));
}

#[test]
fn parse_rejects_huge_register_index() {
    assert_eq!(
        parse("add x99999999999999999999999, x0, x0\n"),
        Err(ParseError::RegisterTooLarge)
    );
}

#[test]
fn parse_negative_and_positive_immediates() {
    let prog = parse("addi x1, x0, -9\naddi x2, x0, +7\nfinish").unwrap();
    assert_eq!(
        prog,
        vec![
            Instruction::AddImm(1, 0, -9),
            Instruction::AddImm(2, 0, 7),
            Instruction::Finish,
        ]
    );
}

#[test]
fn search_label_finds_first_marker() {
    let prog = parse("a:\nfinish\na:\nb:\nfinish").unwrap();
    assert_eq!(search_label(&prog, &"a".to_string()), Some(0));
    assert_eq!(search_label(&prog, &"b".to_string()), Some(3));
    assert_eq!(search_label(&prog, &"c".to_string()), None);
}

#[test]
fn countdown_scenario_accuracies() {
    let prog = parse(COUNTDOWN).unwrap();
    let mut preds = all_predictors();
    let (hart, acc) = measure(&prog, &mut preds, 1000).unwrap();
    // Final x1 = 0, halted on the `finish` at position 4.
    assert_eq!(hart.reg_read(1), 0);
    assert_eq!(hart.pc(), 4);
    // The one branch site is position 3, executed 5 times with outcomes
    // taken, taken, taken, taken, not-taken.
    let expected = [
        ("always-taken", 4, 5),
        ("never-taken", 1, 5),
        ("forward-taken", 1, 5),
        ("backward-taken", 4, 5),
        ("dyn-1-bit", 3, 5),
        ("dyn-2-bit", 2, 5),
    ];
    assert_eq!(acc.len(), expected.len());
    for (entry, (id, correct, total)) in acc.iter().zip(expected.iter()) {
        assert_eq!(entry.id.as_str(), *id);
        assert_eq!(entry.sites.len(), 1);
        let rec = entry.sites.get(&3).unwrap();
        assert_eq!((rec.correct, rec.total), (*correct, *total), "predictor {}", id);
    }
}

#[test]
fn deterministic_across_runs() {
    let prog = parse(COUNTDOWN).unwrap();
    let mut preds1 = all_predictors();
    let mut preds2 = all_predictors();
    let (h1, a1) = measure(&prog, &mut preds1, 1000).unwrap();
    let (h2, a2) = measure(&prog, &mut preds2, 1000).unwrap();
    assert_eq!(h1.pc(), h2.pc());
    for i in 0..32 {
        assert_eq!(h1.reg_read(i), h2.reg_read(i));
    }
    assert_eq!(a1.len(), a2.len());
    for (x, y) in a1.iter().zip(a2.iter()) {
        assert_eq!(x.id, y.id);
        assert_eq!(x.sites.len(), y.sites.len());
        for (site, rec) in x.sites.iter() {
            assert_eq!(y.sites.get(site), Some(rec));
        }
    }
}

#[test]
fn running_off_the_end_is_fatal() {
    let prog = parse("addi x1, x0, 1\n").unwrap();
    let mut preds = all_predictors();
    assert!(matches!(measure(&prog, &mut preds, 1000), Err(ExecError::PcOutOfRange)));
}

#[test]
fn unknown_label_is_fatal() {
    let prog = parse("j nowhere\nfinish").unwrap();
    let mut preds = all_predictors();
    assert!(matches!(measure(&prog, &mut preds, 1000), Err(ExecError::LabelNotFound)));
    let prog2 = parse("bne x1, x0, nowhere\nfinish").unwrap();
    let mut preds2 = all_predictors();
    assert!(matches!(measure(&prog2, &mut preds2, 1000), Err(ExecError::LabelNotFound)));
}

#[test]
fn out_of_range_register_is_fatal() {
    let prog = parse("add x40, x0, x0\nfinish").unwrap();
    let mut preds = all_predictors();
    assert!(matches!(measure(&prog, &mut preds, 1000), Err(ExecError::RegisterOutOfRange)));
}

#[test]
fn endless_program_hits_step_limit() {
    let prog = parse("loop:\nj loop\nfinish").unwrap();
    let mut preds = all_predictors();
    assert!(matches!(measure(&prog, &mut preds, 50), Err(ExecError::StepLimitExceeded)));
}

#[test]
fn unconditional_jump_is_not_predicted() {
    // Only conditional branches feed the accuracy tables.
    let prog = parse("j end\nend:\nfinish").unwrap();
    let mut preds = all_predictors();
    let (_, acc) = measure(&prog, &mut preds, 1000).unwrap();
    for entry in acc.iter() {
        assert!(entry.sites.is_empty());
    }
}

#[test]
fn bge_compares_unsigned() {
    // x1 holds -1 as a wrapped bit pattern, which compares as a very large
    // unsigned value, so x1 >= x2 is taken.
    let text = "addi x1, x0, -1\naddi x2, x0, 1\nbge x1, x2, big\nfinish\nbig:\naddi x3, x0, 1\nfinish\n";
    let prog = parse(text).unwrap();
    let mut preds = all_predictors();
    let (hart, _) = measure(&prog, &mut preds, 1000).unwrap();
    assert_eq!(hart.reg_read(3), 1);
}

#[test]
fn parse_empty_and_blank_text() {
    assert_eq!(parse(""), Ok(vec![]));
    assert_eq!(parse("   \n\t\n  \n"), Ok(vec![]));
}

#[test]
fn parse_strips_blanks_inside_operands() {
    // Blanks anywhere in the operand text are insignificant, so a label
    // reference written with an internal blank loses it.
    let prog = parse("j my label\nmylabel:\nfinish").unwrap();
    assert_eq!(
        prog,
        vec![
            Instruction::Jump("mylabel".to_string()),
            Instruction::Label("mylabel".to_string()),
            Instruction::Finish,
        ]
    );
}

#[test]
fn parse_label_declaration_keeps_inner_blanks() {
    // A label declaration is only trimmed at the ends.
    let prog = parse("  my label:  \nfinish").unwrap();
    assert_eq!(
        prog,
        vec![
            Instruction::Label("my label".to_string()),
            Instruction::Finish,
        ]
    );
}

#[test]
fn token_that_is_not_a_register_becomes_a_label() {
    // `xyz` begins with x but is not x followed by digits, so it is a
    // symbolic label, not a register.
    let prog = parse("j xyz\nxyz:\nfinish").unwrap();
    assert_eq!(
        prog,
        vec![
            Instruction::Jump("xyz".to_string()),
            Instruction::Label("xyz".to_string()),
            Instruction::Finish,
        ]
    );
}

#[test]
fn oversized_immediate_becomes_a_label() {
    // An integer that overflows 64 bits is not parseable as an immediate
    // and falls back to a symbolic label, which here is undeclared.
    let prog = parse("j 99999999999999999999999999\nfinish").unwrap();
    let mut preds = all_predictors();
    assert!(matches!(
        measure(&prog, &mut preds, 1000),
        Err(ExecError::LabelNotFound)
    ));
}
