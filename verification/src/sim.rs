//! The mathematical model of a measurement run: a small-step machine over
//! instruction models, predictor models and accuracy tables. The execution
//! engine's contract is stated entirely in terms of `run`, iterating `step`.

use vstd::prelude::*;

use crate::ast::InstrModel;
use crate::machine::{reg_read_spec, reg_write_spec, zero_regs, ExecError, PredictorResults};
use crate::predictor::{pred_prediction, pred_update, PredModel};

verus! {

/// One configuration of the measurement engine: program counter, register
/// contents, the state of every registered predictor (in registration
/// order), and the accuracy table of every predictor, keyed by branch site.
pub struct SimState {
    pub pc: usize,
    pub regs: Seq<u64>,
    pub preds: Seq<PredModel>,
    pub acc: Seq<Map<usize, PredictorResults>>,
}

/// What one step of the machine does: continue in a new configuration,
/// halt (a `Finish` instruction executed), or abort with an error.
pub enum StepResult {
    Cont(SimState),
    Halt(SimState),
    Fail(ExecError),
}

/// The configuration a run starts from: program counter 0, all registers
/// zero, the given predictors, and an empty accuracy table for each.
pub open spec fn init_sim(models: Seq<PredModel>) -> SimState {
    SimState {
        pc: 0,
        regs: zero_regs(),
        preds: models,
        acc: Seq::new(models.len(), |i: int| Map::<usize, PredictorResults>::empty()),
    }
}

/// The accuracy record a table holds for a site, or the lazily-created
/// default of zero counts.
pub open spec fn acc_get(m: Map<usize, PredictorResults>, site: usize) -> PredictorResults {
    if m.contains_key(site) {
        m[site]
    } else {
        PredictorResults { correct: 0, total: 0 }
    }
}

/// Whether a predictor's prediction matched the real outcome.
pub open spec fn hit_spec(m: PredModel, site: usize, target: usize, taken: bool) -> bool {
    pred_prediction(m, site, target) == taken
}

/// Whether incrementing a site's record would exceed the machine word.
pub open spec fn would_overflow(rec: PredictorResults, hit: bool) -> bool {
    rec.total == usize::MAX || (hit && rec.correct == usize::MAX)
}

/// A table after scoring one branch execution at `site`: `total` grows by
/// one, `correct` grows by one exactly when the prediction matched.
pub open spec fn bump(m: Map<usize, PredictorResults>, site: usize, hit: bool) -> Map<
    usize,
    PredictorResults,
> {
    let rec = acc_get(m, site);
    m.insert(
        site,
        (PredictorResults {
            correct: if hit {
                (rec.correct + 1) as usize
            } else {
                rec.correct
            },
            total: (rec.total + 1) as usize,
        }),
    )
}

/// Position of the first `Label` marker with the given name at or past `i`.
pub open spec fn find_label_from(prog: Seq<InstrModel>, l: Seq<char>, i: int) -> Option<int>
    decreases prog.len() - i,
{
    if i < 0 || i >= prog.len() {
        Option::None
    } else if prog[i] matches InstrModel::Label(m) && m == l {
        Option::Some(i)
    } else {
        find_label_from(prog, l, i + 1)
    }
}

/// Position a label resolves to: the first matching `Label` marker.
pub open spec fn find_label(prog: Seq<InstrModel>, l: Seq<char>) -> Option<int> {
    find_label_from(prog, l, 0)
}

/// The real outcome of a conditional branch: `BranchGE` compares the raw
/// unsigned 64-bit words, `BranchNE` tests inequality.
pub open spec fn branch_taken(ge: bool, a: u64, b: u64) -> bool {
    if ge {
        a >= b
    } else {
        a != b
    }
}

/// The configuration after a plain instruction: registers replaced, program
/// counter advanced by one.
pub open spec fn arith_cont(s: SimState, regs: Seq<u64>) -> StepResult {
    StepResult::Cont(SimState { pc: (s.pc + 1) as usize, regs, preds: s.preds, acc: s.acc })
}

/// One resolved conditional branch: every predictor is scored against the
/// real outcome at the current site, every table is bumped, and the program
/// counter moves to the target exactly when the branch is taken.
pub open spec fn branch_step(
    prog: Seq<InstrModel>,
    s: SimState,
    a: usize,
    b: usize,
    l: Seq<char>,
    ge: bool,
) -> StepResult {
    match find_label(prog, l) {
        Option::None => StepResult::Fail(ExecError::LabelNotFound),
        Option::Some(t) => if !(a < 32 && b < 32) {
            StepResult::Fail(ExecError::RegisterOutOfRange)
        } else {
            let target = t as usize;
            let taken = branch_taken(ge, reg_read_spec(s.regs, a), reg_read_spec(s.regs, b));
            if exists|i: int|
                0 <= i < s.preds.len() && #[trigger] would_overflow(
                    acc_get(s.acc[i], s.pc),
                    hit_spec(s.preds[i], s.pc, target, taken),
                ) {
                StepResult::Fail(ExecError::CounterOverflow)
            } else {
                StepResult::Cont(
                    (SimState {
                        pc: if taken {
                            target
                        } else {
                            (s.pc + 1) as usize
                        },
                        regs: s.regs,
                        preds: Seq::new(s.preds.len(), |i: int| pred_update(s.preds[i], s.pc, taken)),
                        acc: Seq::new(
                            s.acc.len(),
                            |i: int| bump(s.acc[i], s.pc, hit_spec(s.preds[i], s.pc, target, taken)),
                        ),
                    }),
                )
            }
        },
    }
}

/// One step of the measurement engine: fetch at the program counter (abort
/// if it left the sequence), apply the instruction's data effect with 64-bit
/// wraparound arithmetic, resolve and score conditional branches, halt on
/// `Finish`.
pub open spec fn step(prog: Seq<InstrModel>, s: SimState) -> StepResult {
    if s.pc >= prog.len() {
        StepResult::Fail(ExecError::PcOutOfRange)
    } else {
        match prog[s.pc as int] {
            InstrModel::Add(d, a, b) => if d < 32 && a < 32 && b < 32 {
                arith_cont(
                    s,
                    reg_write_spec(
                        s.regs,
                        d,
                        vstd::wrapping::u64_specs::wrapping_add(
                            reg_read_spec(s.regs, a),
                            reg_read_spec(s.regs, b),
                        ),
                    ),
                )
            } else {
                StepResult::Fail(ExecError::RegisterOutOfRange)
            },
            InstrModel::Sub(d, a, b) => if d < 32 && a < 32 && b < 32 {
                arith_cont(
                    s,
                    reg_write_spec(
                        s.regs,
                        d,
                        vstd::wrapping::u64_specs::wrapping_sub(
                            reg_read_spec(s.regs, a),
                            reg_read_spec(s.regs, b),
                        ),
                    ),
                )
            } else {
                StepResult::Fail(ExecError::RegisterOutOfRange)
            },
            InstrModel::AddImm(d, a, imm) => if d < 32 && a < 32 {
                arith_cont(
                    s,
                    reg_write_spec(
                        s.regs,
                        d,
                        vstd::wrapping::u64_specs::wrapping_add_signed(
                            reg_read_spec(s.regs, a),
                            imm,
                        ),
                    ),
                )
            } else {
                StepResult::Fail(ExecError::RegisterOutOfRange)
            },
            InstrModel::Jump(l) => match find_label(prog, l) {
                Option::Some(t) => StepResult::Cont(
                    (SimState { pc: t as usize, regs: s.regs, preds: s.preds, acc: s.acc }),
                ),
                Option::None => StepResult::Fail(ExecError::LabelNotFound),
            },
            InstrModel::BranchGE(a, b, l) => branch_step(prog, s, a, b, l, true),
            InstrModel::BranchNE(a, b, l) => branch_step(prog, s, a, b, l, false),
            InstrModel::Finish => StepResult::Halt(s),
            InstrModel::Label(_) => arith_cont(s, s.regs),
        }
    }
}

/// The configuration after `n` steps: `Halt` and `Fail` are absorbing.
pub open spec fn run(prog: Seq<InstrModel>, s: SimState, n: nat) -> StepResult
    decreases n,
{
    if n == 0 {
        StepResult::Cont(s)
    } else {
        match run(prog, s, (n - 1) as nat) {
            StepResult::Cont(c) => step(prog, c),
            r => r,
        }
    }
}

/// Wraparound law: the three arithmetic instructions never abort, and each
/// result equals the true mathematical sum or difference modulo 2^64.
pub proof fn lemma_wraparound(a: u64, b: u64, imm: i64)
    ensures
        vstd::wrapping::u64_specs::wrapping_add(a, b) == (a + b) % 0x1_0000_0000_0000_0000,
        vstd::wrapping::u64_specs::wrapping_sub(a, b) == (a - b) % 0x1_0000_0000_0000_0000,
        vstd::wrapping::u64_specs::wrapping_add_signed(a, imm) == (a + imm)
            % 0x1_0000_0000_0000_0000,
{
    let m: int = 0x1_0000_0000_0000_0000;
    lemma_mod_in_range(a + b, m);
    lemma_mod_in_range(a - b, m);
    lemma_mod_in_range(a + imm, m);
}

/// For a value within one modulus of the range, the remainder is reached by
/// at most one correction step.
proof fn lemma_mod_in_range(x: int, m: int)
    requires
        0 < m,
        -m < x < 2 * m,
    ensures
        x % m == (if x >= m {
            x - m
        } else if x < 0 {
            x + m
        } else {
            x
        }),
{
    if x >= m {
        vstd::arithmetic::div_mod::lemma_mod_multiples_vanish(1, x - m, m);
        vstd::arithmetic::div_mod::lemma_small_mod((x - m) as nat, m as nat);
    } else if x < 0 {
        vstd::arithmetic::div_mod::lemma_mod_multiples_vanish(1, x, m);
        vstd::arithmetic::div_mod::lemma_small_mod((x + m) as nat, m as nat);
    } else {
        vstd::arithmetic::div_mod::lemma_small_mod(x as nat, m as nat);
    }
}

/// Whether configuration `c` is about to execute, successfully, the
/// conditional branch sitting at `site`.
pub open spec fn branch_exec_at(prog: Seq<InstrModel>, c: SimState, site: usize) -> bool {
    &&& c.pc == site
    &&& c.pc < prog.len()
    &&& (prog[c.pc as int] matches InstrModel::BranchGE(_, _, _) || prog[
        c.pc as int
    ] matches InstrModel::BranchNE(_, _, _))
    &&& step(prog, c) is Cont
}

/// How many times the conditional branch at `site` executed within the
/// first `n` steps of a run.
pub open spec fn branch_execs(prog: Seq<InstrModel>, s: SimState, n: nat, site: usize) -> nat
    decreases n,
{
    if n == 0 {
        0
    } else {
        branch_execs(prog, s, (n - 1) as nat, site) + (match run(prog, s, (n - 1) as nat) {
            StepResult::Cont(c) => if branch_exec_at(prog, c, site) {
                1nat
            } else {
                0
            },
            _ => 0,
        })
    }
}

/// Accuracy counter law, as a predicate on a configuration reached after
/// `n` steps: every predictor's record at every site has `total` equal to
/// the number of executions of that site's branch, and `correct <= total`.
pub open spec fn acc_counts_ok(
    prog: Seq<InstrModel>,
    models: Seq<PredModel>,
    n: nat,
    c: SimState,
) -> bool {
    &&& c.acc.len() == models.len()
    &&& c.preds.len() == models.len()
    &&& forall|i: int, site: usize|
        #![trigger acc_get(c.acc[i], site)]
        0 <= i < c.acc.len() ==> acc_get(c.acc[i], site).total == branch_execs(
            prog,
            init_sim(models),
            n,
            site,
        ) && acc_get(c.acc[i], site).correct <= acc_get(c.acc[i], site).total
}

/// One scored branch preserves the accuracy counter law: every table is
/// bumped at the branch's own site, and that site's execution count grows
/// by exactly one.
proof fn lemma_acc_counts_bump(
    prog: Seq<InstrModel>,
    models: Seq<PredModel>,
    n: nat,
    c0: SimState,
    c1: SimState,
    target: usize,
    taken: bool,
)
    requires
        run(prog, init_sim(models), n) == StepResult::Cont(c0),
        acc_counts_ok(prog, models, n, c0),
        step(prog, c0) == StepResult::Cont(c1),
        c0.pc < prog.len(),
        (prog[c0.pc as int] matches InstrModel::BranchGE(_, _, _) || prog[
            c0.pc as int
        ] matches InstrModel::BranchNE(_, _, _)),
        c1.acc.len() == c0.acc.len(),
        c1.preds.len() == c0.preds.len(),
        forall|i: int|
            0 <= i < c0.acc.len() ==> c1.acc[i] == bump(
                c0.acc[i],
                c0.pc,
                #[trigger] hit_spec(c0.preds[i], c0.pc, target, taken),
            ),
        forall|i: int|
            0 <= i < c0.preds.len() ==> !would_overflow(
                acc_get(c0.acc[i], c0.pc),
                #[trigger] hit_spec(c0.preds[i], c0.pc, target, taken),
            ),
    ensures
        acc_counts_ok(prog, models, n + 1, c1),
{
    let s0 = init_sim(models);
    assert(branch_exec_at(prog, c0, c0.pc));
    assert forall|i: int, site: usize|
        #![trigger acc_get(c1.acc[i], site)]
        0 <= i < c1.acc.len() implies acc_get(c1.acc[i], site).total == branch_execs(
        prog,
        s0,
        n + 1,
        site,
    ) && acc_get(c1.acc[i], site).correct <= acc_get(c1.acc[i], site).total by {
        let hit = hit_spec(c0.preds[i], c0.pc, target, taken);
        assert(c1.acc[i] == bump(c0.acc[i], c0.pc, hit));
        assert(acc_get(c0.acc[i], site).total == branch_execs(prog, s0, n, site));
        if site == c0.pc {
            assert(branch_execs(prog, s0, n + 1, site) == branch_execs(prog, s0, n, site) + 1);
            assert(acc_get(c1.acc[i], site) == bump(c0.acc[i], c0.pc, hit)[site]);
        } else {
            assert(!branch_exec_at(prog, c0, site));
            assert(branch_execs(prog, s0, n + 1, site) == branch_execs(prog, s0, n, site));
            assert(acc_get(c1.acc[i], site) == acc_get(c0.acc[i], site));
        }
    }
}

/// A step that scores no branch preserves the accuracy counter law.
proof fn lemma_acc_counts_same(
    prog: Seq<InstrModel>,
    models: Seq<PredModel>,
    n: nat,
    c0: SimState,
    c1: SimState,
)
    requires
        run(prog, init_sim(models), n) == StepResult::Cont(c0),
        acc_counts_ok(prog, models, n, c0),
        c1.acc == c0.acc,
        c1.preds.len() == c0.preds.len(),
        c0.pc < prog.len() ==> !(prog[c0.pc as int] matches InstrModel::BranchGE(_, _, _) || prog[
            c0.pc as int
        ] matches InstrModel::BranchNE(_, _, _)),
    ensures
        acc_counts_ok(prog, models, n + 1, c1),
{
    let s0 = init_sim(models);
    assert forall|i: int, site: usize|
        #![trigger acc_get(c1.acc[i], site)]
        0 <= i < c1.acc.len() implies acc_get(c1.acc[i], site).total == branch_execs(
        prog,
        s0,
        n + 1,
        site,
    ) && acc_get(c1.acc[i], site).correct <= acc_get(c1.acc[i], site).total by {
        assert(!branch_exec_at(prog, c0, site));
        assert(branch_execs(prog, s0, n + 1, site) == branch_execs(prog, s0, n, site));
        assert(acc_get(c1.acc[i], site) == acc_get(c0.acc[i], site));
    }
}

/// Accuracy counter law: in every configuration a run reaches — running or
/// halted — every predictor's record at every branch site has
/// `correct <= total`, and `total` equals exactly the number of times that
/// site's conditional branch executed.
pub proof fn lemma_accuracy_counts(prog: Seq<InstrModel>, models: Seq<PredModel>, n: nat)
    ensures
        match run(prog, init_sim(models), n) {
            StepResult::Cont(c) => acc_counts_ok(prog, models, n, c),
            StepResult::Halt(c) => acc_counts_ok(prog, models, n, c),
            StepResult::Fail(_) => true,
        },
    decreases n,
{
    let s0 = init_sim(models);
    if n == 0 {
        assert forall|i: int, site: usize|
            #![trigger acc_get(s0.acc[i], site)]
            0 <= i < s0.acc.len() implies acc_get(s0.acc[i], site).total == branch_execs(
            prog,
            s0,
            0,
            site,
        ) && acc_get(s0.acc[i], site).correct <= acc_get(s0.acc[i], site).total by {
            assert(s0.acc[i] == Map::<usize, PredictorResults>::empty());
            assert(!s0.acc[i].contains_key(site));
        }
    } else {
        let k = (n - 1) as nat;
        lemma_accuracy_counts(prog, models, k);
        lemma_run_step(prog, s0, k);
        match run(prog, s0, k) {
            StepResult::Cont(c0) => {
                match step(prog, c0) {
                    StepResult::Cont(c1) => {
                        if c0.pc < prog.len() {
                            match prog[c0.pc as int] {
                                InstrModel::BranchGE(a, b, l) => {
                                    let t = find_label(prog, l)->Some_0;
                                    let target = t as usize;
                                    let taken = branch_taken(
                                        true,
                                        reg_read_spec(c0.regs, a),
                                        reg_read_spec(c0.regs, b),
                                    );
                                    assert forall|i: int| 0 <= i < c0.acc.len() implies c1.acc[i]
                                        == bump(
                                        c0.acc[i],
                                        c0.pc,
                                        #[trigger] hit_spec(c0.preds[i], c0.pc, target, taken),
                                    ) by {}
                                    lemma_acc_counts_bump(prog, models, k, c0, c1, target, taken);
                                },
                                InstrModel::BranchNE(a, b, l) => {
                                    let t = find_label(prog, l)->Some_0;
                                    let target = t as usize;
                                    let taken = branch_taken(
                                        false,
                                        reg_read_spec(c0.regs, a),
                                        reg_read_spec(c0.regs, b),
                                    );
                                    assert forall|i: int| 0 <= i < c0.acc.len() implies c1.acc[i]
                                        == bump(
                                        c0.acc[i],
                                        c0.pc,
                                        #[trigger] hit_spec(c0.preds[i], c0.pc, target, taken),
                                    ) by {}
                                    lemma_acc_counts_bump(prog, models, k, c0, c1, target, taken);
                                },
                                _ => {
                                    lemma_acc_counts_same(prog, models, k, c0, c1);
                                },
                            }
                        }
                    },
                    StepResult::Halt(c1) => {
                        lemma_acc_counts_same(prog, models, k, c0, c1);
                    },
                    StepResult::Fail(_) => {},
                }
            },
            StepResult::Halt(c) => {
                assert forall|i: int, site: usize|
                    #![trigger acc_get(c.acc[i], site)]
                    0 <= i < c.acc.len() implies acc_get(c.acc[i], site).total == branch_execs(
                    prog,
                    s0,
                    n,
                    site,
                ) && acc_get(c.acc[i], site).correct <= acc_get(c.acc[i], site).total by {
                    assert(branch_execs(prog, s0, n, site) == branch_execs(prog, s0, k, site));
                }
            },
            StepResult::Fail(_) => {},
        }
    }
}

/// Unfolding a run by one step at the end.
pub proof fn lemma_run_step(prog: Seq<InstrModel>, s: SimState, n: nat)
    ensures
        run(prog, s, n + 1) == (match run(prog, s, n) {
            StepResult::Cont(c) => step(prog, c),
            r => r,
        }),
{
}

/// Once a run has halted or failed, every longer run agrees with it.
pub proof fn lemma_run_absorbs(prog: Seq<InstrModel>, s: SimState, n: nat, m: nat)
    requires
        n <= m,
        !(run(prog, s, n) is Cont),
    ensures
        run(prog, s, m) == run(prog, s, n),
    decreases m,
{
    if m > n {
        lemma_run_absorbs(prog, s, n, (m - 1) as nat);
    }
}

/// Determinism: the machine is a function of the program and the initial
/// configuration alone, so any two runs that have stopped — halted or
/// failed, after any numbers of steps — stopped in the same way, with the
/// same final hart state and the same accuracy tables.
pub proof fn lemma_run_deterministic(prog: Seq<InstrModel>, s: SimState, n: nat, m: nat)
    requires
        !(run(prog, s, n) is Cont),
        !(run(prog, s, m) is Cont),
    ensures
        run(prog, s, n) == run(prog, s, m),
{
    if n <= m {
        lemma_run_absorbs(prog, s, n, m);
    } else {
        lemma_run_absorbs(prog, s, m, n);
    }
}

} // verus!
