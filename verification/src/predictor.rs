//! The predictor capability: a strategy is asked, at every conditional
//! branch, whether its own prediction matched the real outcome, and may
//! update private per-site state. Strategies are modelled by `PredModel`.

pub mod dynamic;
pub mod simple;

use vstd::prelude::*;

use crate::machine::HartState;
use crate::predictor::dynamic::{
    s1_prediction, s1_update, s2_prediction, s2_update, State1Bit, State2Bit, StateMachine1Bit,
    StateMachine2Bit,
};
use crate::predictor::simple::{AlwaysTaken, BackwardTaken, ForwardTaken, NeverTaken};

verus! {

/// The abstract state of a predictor: which strategy it is, and, for the
/// stateful strategies, the private per-branch-site counter table.
pub enum PredModel {
    Always,
    Never,
    Forward,
    Backward,
    OneBit(Map<usize, State1Bit>),
    TwoBit(Map<usize, State2Bit>),
}

/// The 1-bit counter a table holds for a site, or its lazy default.
pub open spec fn table1_state(t: Map<usize, State1Bit>, site: usize) -> State1Bit {
    if t.contains_key(site) {
        t[site]
    } else {
        State1Bit::NotTaken
    }
}

/// The 2-bit counter a table holds for a site, or its lazy default.
pub open spec fn table2_state(t: Map<usize, State2Bit>, site: usize) -> State2Bit {
    if t.contains_key(site) {
        t[site]
    } else {
        State2Bit::StronglyNotTaken
    }
}

/// What a predictor predicts for a branch at `pc` with resolved target
/// `target`: true means predicted taken.
pub open spec fn pred_prediction(m: PredModel, pc: usize, target: usize) -> bool {
    match m {
        PredModel::Always => true,
        PredModel::Never => false,
        PredModel::Forward => target > pc,
        PredModel::Backward => target < pc,
        PredModel::OneBit(t) => s1_prediction(table1_state(t, pc)),
        PredModel::TwoBit(t) => s2_prediction(table2_state(t, pc)),
    }
}

/// The predictor's state after it sees the real outcome of a branch at `pc`.
pub open spec fn pred_update(m: PredModel, pc: usize, actuality: bool) -> PredModel {
    match m {
        PredModel::OneBit(t) => PredModel::OneBit(
            t.insert(pc, s1_update(table1_state(t, pc), actuality)),
        ),
        PredModel::TwoBit(t) => PredModel::TwoBit(
            t.insert(pc, s2_update(table2_state(t, pc), actuality)),
        ),
        _ => m,
    }
}

/// A predictor's identity depends on its strategy alone, so it is stable:
/// no state update changes it.
pub proof fn lemma_pred_id_update(m: PredModel, pc: usize, actuality: bool)
    ensures
        pred_id(pred_update(m, pc, actuality)) == pred_id(m),
{
}

/// The stable identity a strategy reports, the aggregation key of the
/// accuracy table.
pub open spec fn pred_id(m: PredModel) -> Seq<char> {
    match m {
        PredModel::Always => "always-taken"@,
        PredModel::Never => "never-taken"@,
        PredModel::Forward => "forward-taken"@,
        PredModel::Backward => "backward-taken"@,
        PredModel::OneBit(_) => "dyn-1-bit"@,
        PredModel::TwoBit(_) => "dyn-2-bit"@,
    }
}

/// A predictor strategy: a pure function of its own prior state and the
/// given inputs, touching nothing but its private per-site state.
pub trait Predictor: Sized {
    /// The abstract strategy and private state this value stands for.
    spec fn model(&self) -> PredModel;

    /// Called when a conditional branch is found, before the program counter
    /// moves. `actuality` is whether the branch was taken in reality,
    /// `branch_target` its resolved target position. Returns whether this
    /// predictor's own prediction equals `actuality`, and updates the
    /// private per-site state.
    fn prediction_matches_actuality(
        &mut self,
        state: &HartState,
        branch_target: usize,
        actuality: bool,
    ) -> (r: bool)
        ensures
            r == (pred_prediction(old(self).model(), state.spec_pc(), branch_target) == actuality),
            final(self).model() == pred_update(old(self).model(), state.spec_pc(), actuality),
    ;

    /// The stable identity used as aggregation key.
    fn id(&self) -> (r: &'static str)
        ensures
            r@ == pred_id(self.model()),
    ;
}

/// One value per registered strategy: the closed set of the six predictor
/// strategies, so a run can hold a mixed, ordered list of them.
pub enum AnyPredictor {
    Always(AlwaysTaken),
    Never(NeverTaken),
    Forward(ForwardTaken),
    Backward(BackwardTaken),
    OneBit(StateMachine1Bit),
    TwoBit(StateMachine2Bit),
}

impl Predictor for AnyPredictor {
    open spec fn model(&self) -> PredModel {
        match self {
            AnyPredictor::Always(p) => p.model(),
            AnyPredictor::Never(p) => p.model(),
            AnyPredictor::Forward(p) => p.model(),
            AnyPredictor::Backward(p) => p.model(),
            AnyPredictor::OneBit(p) => p.model(),
            AnyPredictor::TwoBit(p) => p.model(),
        }
    }

    fn prediction_matches_actuality(
        &mut self,
        state: &HartState,
        branch_target: usize,
        actuality: bool,
    ) -> (r: bool) {
        match self {
            AnyPredictor::Always(p) => p.prediction_matches_actuality(
                state,
                branch_target,
                actuality,
            ),
            AnyPredictor::Never(p) => p.prediction_matches_actuality(
                state,
                branch_target,
                actuality,
            ),
            AnyPredictor::Forward(p) => p.prediction_matches_actuality(
                state,
                branch_target,
                actuality,
            ),
            AnyPredictor::Backward(p) => p.prediction_matches_actuality(
                state,
                branch_target,
                actuality,
            ),
            AnyPredictor::OneBit(p) => p.prediction_matches_actuality(
                state,
                branch_target,
                actuality,
            ),
            AnyPredictor::TwoBit(p) => p.prediction_matches_actuality(
                state,
                branch_target,
                actuality,
            ),
        }
    }

    fn id(&self) -> (r: &'static str) {
        match self {
            AnyPredictor::Always(p) => p.id(),
            AnyPredictor::Never(p) => p.id(),
            AnyPredictor::Forward(p) => p.id(),
            AnyPredictor::Backward(p) => p.id(),
            AnyPredictor::OneBit(p) => p.id(),
            AnyPredictor::TwoBit(p) => p.id(),
        }
    }
}

} // verus!
