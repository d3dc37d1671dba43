//! The stateful predictor strategies: per-branch-site saturating counters,
//! created lazily at a fixed default and persisting across visits.

use std::collections::HashMap;
use vstd::prelude::*;

use crate::machine::HartState;
use crate::predictor::{table1_state, table2_state, PredModel, Predictor};

verus! {

broadcast use vstd::std_specs::hash::group_hash_axioms;

/// State of a 1-bit counter: remembers the last outcome, no hysteresis.
#[derive(Clone, Copy, PartialEq, Eq, Structural, Debug)]
pub enum State1Bit {
    NotTaken,
    Taken,
}

/// State of the classic 2-bit saturating branch-history counter, ordered
/// from strongly-not-taken to strongly-taken.
#[derive(Clone, Copy, PartialEq, Eq, Structural, Debug)]
pub enum State2Bit {
    StronglyNotTaken,
    WeaklyNotTaken,
    WeaklyTaken,
    StronglyTaken,
}

pub open spec fn s1_prediction(s: State1Bit) -> bool {
    match s {
        State1Bit::NotTaken => false,
        State1Bit::Taken => true,
    }
}

pub open spec fn s1_update(s: State1Bit, actuality: bool) -> State1Bit {
    if actuality {
        State1Bit::Taken
    } else {
        State1Bit::NotTaken
    }
}

pub open spec fn s2_prediction(s: State2Bit) -> bool {
    match s {
        State2Bit::StronglyNotTaken | State2Bit::WeaklyNotTaken => false,
        State2Bit::WeaklyTaken | State2Bit::StronglyTaken => true,
    }
}

pub open spec fn s2_update(s: State2Bit, actuality: bool) -> State2Bit {
    match s {
        State2Bit::StronglyNotTaken => if actuality {
            State2Bit::WeaklyNotTaken
        } else {
            State2Bit::StronglyNotTaken
        },
        State2Bit::WeaklyNotTaken => if actuality {
            State2Bit::WeaklyTaken
        } else {
            State2Bit::StronglyNotTaken
        },
        State2Bit::WeaklyTaken => if actuality {
            State2Bit::StronglyTaken
        } else {
            State2Bit::WeaklyNotTaken
        },
        State2Bit::StronglyTaken => if actuality {
            State2Bit::StronglyTaken
        } else {
            State2Bit::WeaklyTaken
        },
    }
}

/// Position of a 2-bit state in the counter's four-value ordering.
pub open spec fn s2_value(s: State2Bit) -> int {
    match s {
        State2Bit::StronglyNotTaken => 0,
        State2Bit::WeaklyNotTaken => 1,
        State2Bit::WeaklyTaken => 2,
        State2Bit::StronglyTaken => 3,
    }
}

/// The 2-bit state a sequence of outcomes drives the counter to.
pub open spec fn s2_run(s: State2Bit, outcomes: Seq<bool>) -> State2Bit
    decreases outcomes.len(),
{
    if outcomes.len() == 0 {
        s
    } else {
        s2_run(s2_update(s, outcomes[0]), outcomes.drop_first())
    }
}

/// Saturation law, 2-bit half: whatever the outcome sequence, the counter
/// stays in its four-value domain, and each single update saturates at the
/// ends instead of wrapping, moving at most one position toward the outcome.
pub proof fn lemma_two_bit_saturates(s: State2Bit, outcomes: Seq<bool>)
    ensures
        0 <= s2_value(s2_run(s, outcomes)) <= 3,
        forall|t: State2Bit, o: bool|
            {
                let v = s2_value(t);
                let w = s2_value(#[trigger] s2_update(t, o));
                &&& 0 <= w <= 3
                &&& (o ==> v <= w <= v + 1)
                &&& (!o ==> v - 1 <= w <= v)
            },
    decreases outcomes.len(),
{
    if outcomes.len() > 0 {
        lemma_two_bit_saturates(s2_update(s, outcomes[0]), outcomes.drop_first());
    }
}

/// Saturation law, 1-bit half: after an update, the counter's prediction
/// always equals the most recent real outcome.
pub proof fn lemma_one_bit_follows_outcome(s: State1Bit, actuality: bool)
    ensures
        s1_prediction(s1_update(s, actuality)) == actuality,
{
}

impl State1Bit {
    pub fn prediction(&self) -> (r: bool)
        ensures
            r == s1_prediction(*self),
    {
        match self {
            State1Bit::NotTaken => false,
            State1Bit::Taken => true,
        }
    }

    pub fn update(&mut self, actuality: bool)
        ensures
            *final(self) == s1_update(*old(self), actuality),
    {
        if actuality {
            *self = State1Bit::Taken;
        } else {
            *self = State1Bit::NotTaken;
        }
    }
}

impl State2Bit {
    pub fn prediction(&self) -> (r: bool)
        ensures
            r == s2_prediction(*self),
    {
        match self {
            State2Bit::StronglyNotTaken | State2Bit::WeaklyNotTaken => false,
            State2Bit::WeaklyTaken | State2Bit::StronglyTaken => true,
        }
    }

    pub fn update(&mut self, actuality: bool)
        ensures
            *final(self) == s2_update(*old(self), actuality),
    {
        let next_state = match self {
            State2Bit::StronglyNotTaken => if actuality {
                State2Bit::WeaklyNotTaken
            } else {
                State2Bit::StronglyNotTaken
            },
            State2Bit::WeaklyNotTaken => if actuality {
                State2Bit::WeaklyTaken
            } else {
                State2Bit::StronglyNotTaken
            },
            State2Bit::WeaklyTaken => if !actuality {
                State2Bit::WeaklyNotTaken
            } else {
                State2Bit::StronglyTaken
            },
            State2Bit::StronglyTaken => if !actuality {
                State2Bit::WeaklyTaken
            } else {
                State2Bit::StronglyTaken
            },
        };
        *self = next_state;
    }
}

/// The 1-bit counter strategy: one `State1Bit` per branch site.
pub struct StateMachine1Bit {
    state: HashMap<usize, State1Bit>,
}

impl StateMachine1Bit {
    pub fn new() -> (r: StateMachine1Bit)
        ensures
            r.model() == PredModel::OneBit(Map::<usize, State1Bit>::empty()),
    {
        StateMachine1Bit { state: HashMap::new() }
    }
}

impl Predictor for StateMachine1Bit {
    closed spec fn model(&self) -> PredModel {
        PredModel::OneBit(self.state@)
    }

    fn prediction_matches_actuality(
        &mut self,
        state: &HartState,
        branch_target: usize,
        actuality: bool,
    ) -> (r: bool) {
        let site = state.pc();
        let mut machine: State1Bit = match self.state.get(&site) {
            Option::Some(s) => *s,
            Option::None => State1Bit::NotTaken,
        };
        proof {
            assert(machine == table1_state(old(self).state@, site));
        }
        let correct = machine.prediction() == actuality;
        machine.update(actuality);
        self.state.insert(site, machine);
        correct
    }

    fn id(&self) -> (r: &'static str) {
        "dyn-1-bit"
    }
}

/// The 2-bit saturating counter strategy: one `State2Bit` per branch site.
pub struct StateMachine2Bit {
    state: HashMap<usize, State2Bit>,
}

impl StateMachine2Bit {
    pub fn new() -> (r: StateMachine2Bit)
        ensures
            r.model() == PredModel::TwoBit(Map::<usize, State2Bit>::empty()),
    {
        StateMachine2Bit { state: HashMap::new() }
    }
}

impl Predictor for StateMachine2Bit {
    closed spec fn model(&self) -> PredModel {
        PredModel::TwoBit(self.state@)
    }

    fn prediction_matches_actuality(
        &mut self,
        state: &HartState,
        branch_target: usize,
        actuality: bool,
    ) -> (r: bool) {
        let site = state.pc();
        let mut machine: State2Bit = match self.state.get(&site) {
            Option::Some(s) => *s,
            Option::None => State2Bit::StronglyNotTaken,
        };
        proof {
            assert(machine == table2_state(old(self).state@, site));
        }
        let correct = machine.prediction() == actuality;
        machine.update(actuality);
        self.state.insert(site, machine);
        correct
    }

    fn id(&self) -> (r: &'static str) {
        "dyn-2-bit"
    }
}

} // verus!
