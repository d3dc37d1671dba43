//! The stateless predictor strategies: their decision depends only on the
//! current program counter and the branch target.

use vstd::prelude::*;

use crate::machine::HartState;
use crate::predictor::{PredModel, Predictor};

verus! {

/// Always predicts taken.
pub struct AlwaysTaken;

/// Always predicts not-taken.
pub struct NeverTaken;

/// Predicts taken exactly for forward branches (target past the site).
pub struct ForwardTaken;

/// Predicts taken exactly for backward branches (target before the site).
pub struct BackwardTaken;

impl Predictor for AlwaysTaken {
    open spec fn model(&self) -> PredModel {
        PredModel::Always
    }

    fn prediction_matches_actuality(
        &mut self,
        state: &HartState,
        branch_target: usize,
        actuality: bool,
    ) -> (r: bool) {
        actuality
    }

    fn id(&self) -> (r: &'static str) {
        "always-taken"
    }
}

impl Predictor for NeverTaken {
    open spec fn model(&self) -> PredModel {
        PredModel::Never
    }

    fn prediction_matches_actuality(
        &mut self,
        state: &HartState,
        branch_target: usize,
        actuality: bool,
    ) -> (r: bool) {
        !actuality
    }

    fn id(&self) -> (r: &'static str) {
        "never-taken"
    }
}

impl Predictor for ForwardTaken {
    open spec fn model(&self) -> PredModel {
        PredModel::Forward
    }

    fn prediction_matches_actuality(
        &mut self,
        state: &HartState,
        branch_target: usize,
        actuality: bool,
    ) -> (r: bool) {
        let pc = state.pc();
        let prediction = branch_target > pc;
        prediction == actuality
    }

    fn id(&self) -> (r: &'static str) {
        "forward-taken"
    }
}

impl Predictor for BackwardTaken {
    open spec fn model(&self) -> PredModel {
        PredModel::Backward
    }

    fn prediction_matches_actuality(
        &mut self,
        state: &HartState,
        branch_target: usize,
        actuality: bool,
    ) -> (r: bool) {
        let pc = state.pc();
        let prediction = branch_target < pc;
        prediction == actuality
    }

    fn id(&self) -> (r: &'static str) {
        "backward-taken"
    }
}

} // verus!
