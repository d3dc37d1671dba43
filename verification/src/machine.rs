//! The hart state — a program counter plus a register file of 32 unsigned
//! 64-bit words, where register 0 is hard-wired to zero — and the
//! measurement engine that drives a program over it while scoring a list of
//! branch predictors.

use std::collections::HashMap;
use vstd::prelude::*;

use crate::ast::{prog_view, Instruction};
use crate::predictor::{
    lemma_pred_id_update, pred_id, pred_update, AnyPredictor, PredModel, Predictor,
};
use crate::sim::{
    acc_get, bump, find_label, find_label_from, hit_spec, init_sim, lemma_run_step, run,
    would_overflow, SimState, StepResult,
};

verus! {

broadcast use vstd::std_specs::hash::group_hash_axioms;

/// The value a register read yields: index 0 always reads as zero, every
/// other index yields the stored word.
pub open spec fn reg_read_spec(regs: Seq<u64>, index: usize) -> u64 {
    if index == 0 {
        0u64
    } else {
        regs[index as int]
    }
}

/// The register contents after a write: a write to index 0 is a no-op,
/// every other index stores the word.
pub open spec fn reg_write_spec(regs: Seq<u64>, index: usize, value: u64) -> Seq<u64> {
    if index == 0 {
        regs
    } else {
        regs.update(index as int, value)
    }
}

/// The contents of a freshly created register file: 32 zero words.
pub open spec fn zero_regs() -> Seq<u64> {
    Seq::new(32, |i: int| 0u64)
}

/// The register contents after a whole sequence of writes, applied in order.
pub open spec fn apply_writes(regs: Seq<u64>, writes: Seq<(usize, u64)>) -> Seq<u64>
    decreases writes.len(),
{
    if writes.len() == 0 {
        regs
    } else {
        apply_writes(reg_write_spec(regs, writes[0].0, writes[0].1), writes.drop_first())
    }
}

/// Register zero invariant: whatever sequence of in-range writes is applied,
/// a read of index 0 yields 0, and the word stored at index 0 never changes.
pub proof fn lemma_register_zero(regs: Seq<u64>, writes: Seq<(usize, u64)>)
    requires
        forall|i: int| 0 <= i < writes.len() ==> (#[trigger] writes[i]).0 < regs.len(),
    ensures
        reg_read_spec(apply_writes(regs, writes), 0) == 0,
        apply_writes(regs, writes).len() == regs.len(),
        regs.len() > 0 ==> apply_writes(regs, writes)[0] == regs[0],
    decreases writes.len(),
{
    if writes.len() > 0 {
        lemma_register_zero(reg_write_spec(regs, writes[0].0, writes[0].1), writes.drop_first());
    }
}

/// Fixed-size file of 32 general-purpose 64-bit registers.
pub struct RegisterFile {
    file: Vec<u64>,
}

impl View for RegisterFile {
    type V = Seq<u64>;

    closed spec fn view(&self) -> Seq<u64> {
        self.file@
    }
}

impl RegisterFile {
    /// Well-formedness: exactly 32 registers, and index 0 holds zero.
    pub open spec fn wf(&self) -> bool {
        self@.len() == 32 && self@[0] == 0
    }

    pub fn new() -> (r: RegisterFile)
        ensures
            r.wf(),
            r@ == zero_regs(),
    {
        let mut file: Vec<u64> = Vec::new();
        let mut i: usize = 0;
        while i < 32
            invariant
                i <= 32,
                file@.len() == i,
                forall|j: int| 0 <= j < i ==> file@[j] == 0u64,
            decreases 32 - i,
        {
            file.push(0);
            i = i + 1;
        }
        proof {
            assert(file@ =~= zero_regs());
        }
        RegisterFile { file }
    }

    pub fn read(&self, index: usize) -> (r: u64)
        requires
            self.wf(),
            index < 32,
        ensures
            r == reg_read_spec(self@, index),
    {
        if index == 0 {
            0
        } else {
            self.file[index]
        }
    }

    pub fn write(&mut self, index: usize, value: u64)
        requires
            old(self).wf(),
            index < 32,
        ensures
            final(self).wf(),
            final(self)@ == reg_write_spec(old(self)@, index, value),
    {
        if index == 0 {
            return ;
        }
        self.file.set(index, value);
    }
}

/// A program counter (an index into the instruction sequence) together with
/// a register file: the whole mutable state of one hart.
pub struct HartState {
    pc: usize,
    rf: RegisterFile,
}

impl HartState {
    /// The current program counter.
    pub closed spec fn spec_pc(&self) -> usize {
        self.pc
    }

    /// The register contents.
    pub closed spec fn regs(&self) -> Seq<u64> {
        self.rf@
    }

    pub open spec fn wf(&self) -> bool {
        self.regs().len() == 32 && self.regs()[0] == 0
    }

    pub fn new() -> (r: HartState)
        ensures
            r.wf(),
            r.spec_pc() == 0,
            r.regs() == zero_regs(),
    {
        HartState { pc: 0, rf: RegisterFile::new() }
    }

    pub fn pc(&self) -> (r: usize)
        ensures
            r == self.spec_pc(),
    {
        self.pc
    }

    /// Advance the program counter by one position.
    pub fn next(&mut self)
        requires
            old(self).spec_pc() < usize::MAX,
        ensures
            final(self).spec_pc() == old(self).spec_pc() + 1,
            final(self).regs() == old(self).regs(),
    {
        self.pc = self.pc + 1;
    }

    /// Reposition the program counter.
    pub fn goto(&mut self, pc: usize)
        ensures
            final(self).spec_pc() == pc,
            final(self).regs() == old(self).regs(),
    {
        self.pc = pc;
    }

    pub fn reg_read(&self, index: usize) -> (r: u64)
        requires
            self.wf(),
            index < 32,
        ensures
            r == reg_read_spec(self.regs(), index),
    {
        self.rf.read(index)
    }

    pub fn reg_write(&mut self, index: usize, value: u64)
        requires
            old(self).wf(),
            index < 32,
        ensures
            final(self).wf(),
            final(self).spec_pc() == old(self).spec_pc(),
            final(self).regs() == reg_write_spec(old(self).regs(), index, value),
    {
        self.rf.write(index, value);
    }
}

/// Accuracy record for one (predictor, branch site) pair.
#[derive(Clone, Copy, PartialEq, Eq, Structural, Debug)]
pub struct PredictorResults {
    pub correct: usize,
    pub total: usize,
}

/// The ways a run can abort: all correspond to a malformed program or to a
/// machine limit, and none is recoverable.
#[derive(Clone, Copy, PartialEq, Eq, Structural, Debug)]
pub enum ExecError {
    /// The program counter left the instruction sequence without `Finish`.
    PcOutOfRange,
    /// A jump or branch names a label that no `Label` marker declares.
    LabelNotFound,
    /// An instruction names a register index outside the fixed 32.
    RegisterOutOfRange,
    /// An accuracy counter would exceed the machine word.
    CounterOverflow,
    /// The step budget ran out before the program finished.
    StepLimitExceeded,
}

/// The models of a list of predictors, in registration order.
pub open spec fn models_view(ps: Seq<AnyPredictor>) -> Seq<PredModel> {
    ps.map_values(|p: AnyPredictor| p.model())
}

/// The contents of a list of per-predictor accuracy tables.
pub open spec fn tables_view(ts: Seq<HashMap<usize, PredictorResults>>) -> Seq<
    Map<usize, PredictorResults>,
> {
    ts.map_values(|t: HashMap<usize, PredictorResults>| t@)
}

/// Predictor identities must be pairwise distinct across a registered list.
pub open spec fn distinct_ids(models: Seq<PredModel>) -> bool {
    forall|i: int, j: int|
        #![trigger pred_id(models[i]), pred_id(models[j])]
        0 <= i < j < models.len() ==> pred_id(models[i]) != pred_id(models[j])
}

/// Accuracy table of one predictor: its identity and, per branch site, the
/// counts of correct predictions and of branch executions.
pub struct PredictorAccuracy {
    pub id: String,
    pub sites: HashMap<usize, PredictorResults>,
}

/// The exec-side configuration of a run, abstracted to the machine model.
spec fn cur_sim(
    state: HartState,
    preds: Seq<AnyPredictor>,
    tables: Seq<HashMap<usize, PredictorResults>>,
) -> SimState {
    SimState {
        pc: state.spec_pc(),
        regs: state.regs(),
        preds: models_view(preds),
        acc: tables_view(tables),
    }
}

/// What `measure` returning `Ok` means: after `n` steps the machine halted,
/// and the returned hart state, accuracy tables and predictor list are
/// exactly the halt configuration's.
pub open spec fn halted_outcome(
    prog: Seq<crate::ast::InstrModel>,
    models: Seq<PredModel>,
    n: nat,
    hart: HartState,
    acc: Seq<PredictorAccuracy>,
    preds: Seq<AnyPredictor>,
) -> bool {
    match run(prog, init_sim(models), n) {
        StepResult::Halt(c) => {
            &&& hart.wf()
            &&& hart.spec_pc() == c.pc
            &&& hart.regs() == c.regs
            &&& models_view(preds) == c.preds
            &&& acc.len() == models.len()
            &&& forall|i: int|
                0 <= i < acc.len() ==> (#[trigger] acc[i]).id@ == pred_id(models[i])
                    && acc[i].sites@ == c.acc[i]
        },
        _ => false,
    }
}

/// Everything `measure` promises of its result: `Ok` is exactly a halt of
/// the machine model within the step budget, each error is exactly the
/// model's failure, and `StepLimitExceeded` means the model was still
/// running after `max_steps` steps.
pub open spec fn measure_post(
    prog: Seq<crate::ast::InstrModel>,
    models: Seq<PredModel>,
    max_steps: usize,
    r: Result<(HartState, Vec<PredictorAccuracy>), ExecError>,
    preds_final: Seq<AnyPredictor>,
) -> bool {
    match r {
        Result::Ok(out) => exists|n: nat|
            n <= max_steps && #[trigger] halted_outcome(prog, models, n, out.0, out.1@, preds_final),
        Result::Err(e) => if e == ExecError::StepLimitExceeded {
            run(prog, init_sim(models), max_steps as nat) is Cont
        } else {
            exists|n: nat|
                n <= max_steps && run(prog, init_sim(models), n) == StepResult::Fail(e)
        },
    }
}

/// Introducing the witness for `measure_post` on a successful run.
proof fn lemma_measure_post_ok(
    prog: Seq<crate::ast::InstrModel>,
    models: Seq<PredModel>,
    max_steps: usize,
    out: (HartState, Vec<PredictorAccuracy>),
    preds_final: Seq<AnyPredictor>,
    n: nat,
)
    requires
        n <= max_steps,
        halted_outcome(prog, models, n, out.0, out.1@, preds_final),
    ensures
        measure_post(prog, models, max_steps, Result::Ok(out), preds_final),
{
    let r: Result<(HartState, Vec<PredictorAccuracy>), ExecError> = Result::Ok(out);
    assert(halted_outcome(prog, models, n, (r->Ok_0).0, (r->Ok_0).1@, preds_final));
}

/// Position of the first `Label` marker carrying `label`, if any.
pub fn search_label(instructions: &Vec<Instruction>, label: &String) -> (r: Option<usize>)
    ensures
        match find_label(prog_view(instructions@), label@) {
            Option::Some(t) => r == Option::Some(t as usize),
            Option::None => r is None,
        },
{
    let ghost prog = prog_view(instructions@);
    let mut loc: usize = 0;
    while loc < instructions.len()
        invariant
            loc <= instructions@.len(),
            prog == prog_view(instructions@),
            find_label(prog, label@) == find_label_from(prog, label@, loc as int),
        decreases instructions@.len() - loc,
    {
        match &instructions[loc] {
            Instruction::Label(l) => if l.eq(label) {
                return Option::Some(loc);
            },
            _ => (),
        }
        loc = loc + 1;
    }
    Option::None
}

/// Score every registered predictor against one resolved conditional branch
/// at the current site, bumping each accuracy table. Returns false exactly
/// when some counter would overflow (in which case nothing is promised of
/// the partially updated lists).
fn score_predictors(
    predictors: &mut Vec<AnyPredictor>,
    tables: &mut Vec<HashMap<usize, PredictorResults>>,
    state: &HartState,
    target: usize,
    taken: bool,
) -> (ok: bool)
    requires
        old(tables)@.len() == old(predictors)@.len(),
    ensures
        final(predictors)@.len() == old(predictors)@.len(),
        final(tables)@.len() == old(tables)@.len(),
        ({
            let site = state.spec_pc();
            let models0 = models_view(old(predictors)@);
            let acc0 = tables_view(old(tables)@);
            if ok {
                &&& !(exists|i: int|
                    0 <= i < models0.len() && #[trigger] would_overflow(
                        acc_get(acc0[i], site),
                        hit_spec(models0[i], site, target, taken),
                    ))
                &&& models_view(final(predictors)@) == Seq::new(
                    models0.len(),
                    |i: int| pred_update(models0[i], site, taken),
                )
                &&& tables_view(final(tables)@) == Seq::new(
                    acc0.len(),
                    |i: int| bump(acc0[i], site, hit_spec(models0[i], site, target, taken)),
                )
            } else {
                exists|i: int|
                    0 <= i < models0.len() && #[trigger] would_overflow(
                        acc_get(acc0[i], site),
                        hit_spec(models0[i], site, target, taken),
                    )
            }
        }),
{
    let site = state.pc();
    let ghost models0 = models_view(old(predictors)@);
    let ghost acc0 = tables_view(old(tables)@);
    let mut i: usize = 0;
    while i < predictors.len()
        invariant
            i <= predictors@.len(),
            predictors@.len() == old(predictors)@.len(),
            tables@.len() == old(tables)@.len(),
            old(tables)@.len() == old(predictors)@.len(),
            models0 == models_view(old(predictors)@),
            acc0 == tables_view(old(tables)@),
            site == state.spec_pc(),
            forall|j: int|
                i <= j < predictors@.len() ==> (#[trigger] predictors@[j]).model() == models0[j],
            forall|j: int| i <= j < tables@.len() ==> (#[trigger] tables@[j])@ == acc0[j],
            forall|j: int|
                0 <= j < i ==> (#[trigger] predictors@[j]).model() == pred_update(
                    models0[j],
                    site,
                    taken,
                ),
            forall|j: int|
                0 <= j < i ==> (#[trigger] tables@[j])@ == bump(
                    acc0[j],
                    site,
                    hit_spec(models0[j], site, target, taken),
                ),
            forall|j: int|
                0 <= j < i ==> !would_overflow(
                    acc_get(acc0[j], site),
                    #[trigger] hit_spec(models0[j], site, target, taken),
                ),
        decreases predictors@.len() - i,
    {
        let hit = predictors[i].prediction_matches_actuality(state, target, taken);
        proof {
            assert(hit == hit_spec(models0[i as int], site, target, taken));
        }
        let rec = match tables[i].get(&site) {
            Option::Some(r0) => *r0,
            Option::None => PredictorResults { correct: 0, total: 0 },
        };
        proof {
            assert(rec == acc_get(acc0[i as int], site));
        }
        if rec.total == usize::MAX || (hit && rec.correct == usize::MAX) {
            proof {
                assert(0 <= i < models0.len() && would_overflow(
                    acc_get(acc0[i as int], site),
                    hit_spec(models0[i as int], site, target, taken),
                ));
            }
            return false;
        }
        let bumped = PredictorResults {
            correct: if hit {
                rec.correct + 1
            } else {
                rec.correct
            },
            total: rec.total + 1,
        };
        tables[i].insert(site, bumped);
        i = i + 1;
    }
    proof {
        assert(models_view(predictors@) =~= Seq::new(
            models0.len(),
            |j: int| pred_update(models0[j], site, taken),
        ));
        assert(tables_view(tables@) =~= Seq::new(
            acc0.len(),
            |j: int| bump(acc0[j], site, hit_spec(models0[j], site, target, taken)),
        ));
    }
    true
}

/// Drive the program from the initial hart state until `Finish`, scoring
/// every registered predictor at every conditional branch and aggregating
/// accuracy counters per (predictor, branch site). At most `max_steps`
/// instructions execute: a program still running then is reported as
/// `StepLimitExceeded` instead of looping forever. The result is exactly
/// what the machine model `run` yields on the instruction models.
pub fn measure(
    instructions: &Vec<Instruction>,
    predictors: &mut Vec<AnyPredictor>,
    max_steps: usize,
) -> (r: Result<(HartState, Vec<PredictorAccuracy>), ExecError>)
    requires
        distinct_ids(models_view(old(predictors)@)),
    ensures
        measure_post(
            prog_view(instructions@),
            models_view(old(predictors)@),
            max_steps,
            r,
            final(predictors)@,
        ),
{
    let ghost prog = prog_view(instructions@);
    let ghost models = models_view(old(predictors)@);
    let mut state = HartState::new();
    let mut tables: Vec<HashMap<usize, PredictorResults>> = Vec::new();
    while tables.len() < predictors.len()
        invariant
            tables@.len() <= predictors@.len(),
            predictors@ == old(predictors)@,
            forall|j: int|
                0 <= j < tables@.len() ==> (#[trigger] tables@[j])@ == Map::<
                    usize,
                    PredictorResults,
                >::empty(),
        decreases predictors@.len() - tables@.len(),
    {
        tables.push(HashMap::new());
    }
    proof {
        assert(tables_view(tables@) =~= init_sim(models).acc);
        assert(cur_sim(state, predictors@, tables@) == init_sim(models));
    }
    let mut step_count: usize = 0;
    while step_count < max_steps
        invariant
            state.wf(),
            step_count <= max_steps,
            predictors@.len() == models.len(),
            tables@.len() == models.len(),
            models == models_view(old(predictors)@),
            prog == prog_view(instructions@),
            forall|j: int|
                0 <= j < models.len() ==> pred_id(#[trigger] models_view(predictors@)[j])
                    == pred_id(models[j]),
            run(prog, init_sim(models), step_count as nat) == StepResult::Cont(
                cur_sim(state, predictors@, tables@),
            ),
        decreases max_steps - step_count,
    {
        let ghost cur = cur_sim(state, predictors@, tables@);
        proof {
            lemma_run_step(prog, init_sim(models), step_count as nat);
        }
        let pc = state.pc();
        if pc >= instructions.len() {
            proof {
                assert(run(prog, init_sim(models), (step_count + 1) as nat) == StepResult::Fail(
                    ExecError::PcOutOfRange,
                ));
            }
            return Result::Err(ExecError::PcOutOfRange);
        }
        let ins = &instructions[pc];
        proof {
            assert(prog[pc as int] == instructions@[pc as int]@);
        }
        match ins {
            Instruction::Add(rd, rs1, rs2) => {
                if !(*rd < 32 && *rs1 < 32 && *rs2 < 32) {
                    return Result::Err(ExecError::RegisterOutOfRange);
                }
                let result = state.reg_read(*rs1).wrapping_add(state.reg_read(*rs2));
                state.reg_write(*rd, result);
                state.next();
            },
            Instruction::Sub(rd, rs1, rs2) => {
                if !(*rd < 32 && *rs1 < 32 && *rs2 < 32) {
                    return Result::Err(ExecError::RegisterOutOfRange);
                }
                let result = state.reg_read(*rs1).wrapping_sub(state.reg_read(*rs2));
                state.reg_write(*rd, result);
                state.next();
            },
            Instruction::AddImm(rd, rs1, imm) => {
                if !(*rd < 32 && *rs1 < 32) {
                    return Result::Err(ExecError::RegisterOutOfRange);
                }
                let result = state.reg_read(*rs1).wrapping_add_signed(*imm);
                state.reg_write(*rd, result);
                state.next();
            },
            Instruction::Jump(label) => {
                match search_label(instructions, label) {
                    Option::Some(loc) => {
                        state.goto(loc);
                    },
                    Option::None => {
                        return Result::Err(ExecError::LabelNotFound);
                    },
                }
            },
            Instruction::Label(_) => {
                state.next();
            },
            Instruction::Finish => {
                proof {
                    assert(run(prog, init_sim(models), (step_count + 1) as nat)
                        == StepResult::Halt(cur));
                }
                let ghost halt_acc = tables_view(tables@);
                let mut acc: Vec<PredictorAccuracy> = Vec::new();
                let mut i: usize = 0;
                while i < predictors.len()
                    invariant
                        i <= predictors@.len(),
                        acc@.len() == i,
                        predictors@.len() == models.len(),
                        tables@.len() == models.len() - i,
                        halt_acc.len() == models.len(),
                        models_view(predictors@) == cur.preds,
                        forall|j: int|
                            0 <= j < models.len() ==> pred_id(
                                #[trigger] models_view(predictors@)[j],
                            ) == pred_id(models[j]),
                        forall|j: int|
                            0 <= j < tables@.len() ==> (#[trigger] tables@[j])@ == halt_acc[j + i],
                        forall|j: int|
                            0 <= j < i ==> (#[trigger] acc@[j]).id@ == pred_id(models[j])
                                && acc@[j].sites@ == halt_acc[j],
                    decreases predictors@.len() - i,
                {
                    let id = predictors[i].id().to_owned();
                    let ghost pre_tables = tables@;
                    let sites = tables.remove(0);
                    proof {
                        assert(models_view(predictors@)[i as int] == predictors@[
                            i as int
                        ].model());
                        assert(id@ == pred_id(models[i as int]));
                        assert(sites@ == halt_acc[i as int]);
                        assert forall|j: int| 0 <= j < tables@.len() implies (
                        #[trigger] tables@[j])@ == halt_acc[j + i + 1] by {
                            assert(tables@[j] == pre_tables[j + 1]);
                        }
                    }
                    acc.push(PredictorAccuracy { id, sites });
                    i = i + 1;
                }
                proof {
                    assert(halted_outcome(
                        prog,
                        models,
                        (step_count + 1) as nat,
                        state,
                        acc@,
                        predictors@,
                    ));
                }
                let out = (state, acc);
                proof {
                    assert(halted_outcome(
                        prog,
                        models,
                        (step_count + 1) as nat,
                        out.0,
                        out.1@,
                        predictors@,
                    ));
                    lemma_measure_post_ok(
                        prog,
                        models,
                        max_steps,
                        out,
                        predictors@,
                        (step_count + 1) as nat,
                    );
                }
                return Result::Ok(out);
            },
            Instruction::BranchGE(rs1, rs2, label) => {
                match search_label(instructions, label) {
                    Option::None => {
                        return Result::Err(ExecError::LabelNotFound);
                    },
                    Option::Some(target) => {
                        if !(*rs1 < 32 && *rs2 < 32) {
                            return Result::Err(ExecError::RegisterOutOfRange);
                        }
                        let taken = state.reg_read(*rs1) >= state.reg_read(*rs2);
                        let ok = score_predictors(predictors, &mut tables, &state, target, taken);
                        if !ok {
                            return Result::Err(ExecError::CounterOverflow);
                        }
                        proof {
                            assert(models_view(predictors@) =~= Seq::new(
                                cur.preds.len(),
                                |j: int| pred_update(cur.preds[j], cur.pc, taken),
                            ));
                            assert(tables_view(tables@) =~= Seq::new(
                                cur.acc.len(),
                                |j: int| bump(
                                    cur.acc[j],
                                    cur.pc,
                                    hit_spec(cur.preds[j], cur.pc, target, taken),
                                ),
                            ));
                            assert forall|j: int| 0 <= j < models.len() implies pred_id(
                                #[trigger] models_view(predictors@)[j],
                            ) == pred_id(models[j]) by {
                                lemma_pred_id_update(cur.preds[j], cur.pc, taken);
                            }
                        }
                        if taken {
                            state.goto(target);
                        } else {
                            state.next();
                        }
                    },
                }
            },
            Instruction::BranchNE(rs1, rs2, label) => {
                match search_label(instructions, label) {
                    Option::None => {
                        return Result::Err(ExecError::LabelNotFound);
                    },
                    Option::Some(target) => {
                        if !(*rs1 < 32 && *rs2 < 32) {
                            return Result::Err(ExecError::RegisterOutOfRange);
                        }
                        let taken = state.reg_read(*rs1) != state.reg_read(*rs2);
                        let ok = score_predictors(predictors, &mut tables, &state, target, taken);
                        if !ok {
                            return Result::Err(ExecError::CounterOverflow);
                        }
                        proof {
                            assert(models_view(predictors@) =~= Seq::new(
                                cur.preds.len(),
                                |j: int| pred_update(cur.preds[j], cur.pc, taken),
                            ));
                            assert(tables_view(tables@) =~= Seq::new(
                                cur.acc.len(),
                                |j: int| bump(
                                    cur.acc[j],
                                    cur.pc,
                                    hit_spec(cur.preds[j], cur.pc, target, taken),
                                ),
                            ));
                            assert forall|j: int| 0 <= j < models.len() implies pred_id(
                                #[trigger] models_view(predictors@)[j],
                            ) == pred_id(models[j]) by {
                                lemma_pred_id_update(cur.preds[j], cur.pc, taken);
                            }
                        }
                        if taken {
                            state.goto(target);
                        } else {
                            state.next();
                        }
                    },
                }
            },
        }
        proof {
            assert(run(prog, init_sim(models), (step_count + 1) as nat) == StepResult::Cont(
                cur_sim(state, predictors@, tables@),
            ));
        }
        step_count = step_count + 1;
    }
    Result::Err(ExecError::StepLimitExceeded)
}

} // verus!
