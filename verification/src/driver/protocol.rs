//! The order of one repetition.
//!
//! The arm's objects come down before the target is emptied and go up after it,
//! its containers are gone before its objects are, and both are removed however
//! the repetition ends.

use vstd::prelude::*;
use crate::driver::Arm;
use crate::driver::Mode;
use crate::driver::guard;

verus! {

/// One step of a repetition.
#[derive(Clone, Copy, Debug, PartialEq, Eq, Structural)]
pub enum Step {
    /// Read the arm's teardown statements.
    Guard,
    /// Run them, for what an earlier process may have left.
    Defend,
    /// Empty the target.
    Truncate,
    /// Wait until the target is quiet.
    Settle,
    /// Create the arm's objects.
    Create,
    /// Start the arm's containers.
    Start,
    /// Open, hold and close the window.
    Hold,
    /// Judge the sampled series.
    Judge,
    /// Wait until the pipeline has settled.
    Quiesce,
    /// Read the collector logs.
    Collect,
    /// Stop and remove the containers.
    Stop,
    /// Count the rows of the window, and read its latency.
    Count,
    /// Hold the arm's rate against the ceilings.
    Headroom,
    /// Ask the target what the inserts cost it.
    Attribute,
    /// Run the correctness gates.
    Gate,
    /// Remove the arm's objects.
    Teardown,
    /// The measurement stands.
    Finished,
    /// The arm is refused.
    Refused,
}

/// What a repetition of an arm involves.
#[derive(Clone, Copy, Debug, PartialEq, Eq, Structural)]
pub struct Plan {
    /// The arm declares statements that remove its objects.
    pub removes: bool,
    /// The arm declares statements that create objects.
    pub creates: bool,
    /// The window is a slice of a stream, so its rows have to be counted.
    pub sustained: bool,
}

/// Where a repetition is, and whether it has failed.
#[derive(Clone, Copy, Debug, PartialEq, Eq, Structural)]
pub struct Repetition {
    /// The step to take.
    pub at: Step,
    /// Whether a step before it failed.
    pub failed: bool,
}

impl Plan {
    /// What a repetition of `arm` involves under `mode`.
    pub open spec fn is_of(self, arm: Arm, mode: Mode) -> bool {
        &&& self.removes == (guard::teardown_of(arm) is Some)
        &&& self.creates == (guard::creation_of(arm) is Some)
        &&& self.sustained == (mode is Sustained)
    }

    /// What a repetition of `arm` involves under `mode`.
    pub fn of(arm: &Arm<'_>, mode: Mode) -> (p: Plan)
        ensures
            p.is_of(*arm, mode),
    {
        Plan {
            removes: guard::teardown_file(arm).is_some(),
            creates: guard::creation_file(arm).is_some(),
            sustained: match mode {
                Mode::Drain => false,
                Mode::Sustained { .. } => true,
            },
        }
    }
}

impl Step {
    /// The place of a step in the order.
    pub open spec fn rank(self) -> int {
        match self {
            Step::Guard => 0,
            Step::Defend => 1,
            Step::Truncate => 2,
            Step::Settle => 3,
            Step::Create => 4,
            Step::Start => 5,
            Step::Hold => 6,
            Step::Judge => 7,
            Step::Quiesce => 8,
            Step::Collect => 9,
            Step::Stop => 10,
            Step::Count => 11,
            Step::Headroom => 12,
            Step::Attribute => 13,
            Step::Gate => 14,
            Step::Teardown => 15,
            Step::Finished => 16,
            Step::Refused => 16,
        }
    }

    /// Whether the repetition is over.
    pub open spec fn is_end(self) -> bool {
        self is Finished || self is Refused
    }

    /// Whether containers may be running when the step fails.
    pub open spec fn has_containers(self) -> bool {
        Step::Start.rank() <= self.rank() < Step::Stop.rank()
    }

    /// The step after this one has succeeded.
    pub open spec fn following(self, plan: Plan) -> Step {
        match self {
            Step::Guard => if plan.removes {
                Step::Defend
            } else {
                Step::Truncate
            },
            Step::Defend => Step::Truncate,
            Step::Truncate => Step::Settle,
            Step::Settle => if plan.creates {
                Step::Create
            } else {
                Step::Start
            },
            Step::Create => Step::Start,
            Step::Start => Step::Hold,
            Step::Hold => Step::Judge,
            Step::Judge => Step::Quiesce,
            Step::Quiesce => Step::Collect,
            Step::Collect => Step::Stop,
            Step::Stop => if plan.sustained {
                Step::Count
            } else {
                Step::Headroom
            },
            Step::Count => Step::Headroom,
            Step::Headroom => Step::Attribute,
            Step::Attribute => Step::Gate,
            Step::Gate => if plan.removes {
                Step::Teardown
            } else {
                Step::Finished
            },
            Step::Teardown => Step::Finished,
            Step::Finished => Step::Finished,
            Step::Refused => Step::Refused,
        }
    }

    /// The step that cleans up after this one has failed.
    pub open spec fn cleanup(self, plan: Plan) -> Step {
        if self.has_containers() {
            Step::Stop
        } else if plan.removes && !(self is Guard || self is Teardown) {
            Step::Teardown
        } else {
            Step::Refused
        }
    }
}

impl Repetition {
    /// The start of a repetition.
    pub fn begin() -> (r: Repetition)
        ensures
            r == (Repetition { at: Step::Guard, failed: false }),
    {
        Repetition { at: Step::Guard, failed: false }
    }

    /// Where the repetition goes after its step succeeded or failed. The steps
    /// that clean up are taken once, and what comes of them no longer matters
    /// where something else has failed before.
    pub open spec fn after(self, plan: Plan, ok: bool) -> Repetition {
        if self.at.is_end() {
            self
        } else if self.failed {
            Repetition {
                at: if self.at is Stop && plan.removes {
                    Step::Teardown
                } else {
                    Step::Refused
                },
                failed: true,
            }
        } else if ok {
            Repetition { at: self.at.following(plan), failed: false }
        } else {
            Repetition { at: self.at.cleanup(plan), failed: true }
        }
    }

    /// Where the repetition goes after its step succeeded or failed.
    pub fn step(self, plan: Plan, ok: bool) -> (r: Repetition)
        ensures
            r == self.after(plan, ok),
    {
        if self.failed {
            let at = match self.at {
                Step::Finished => Step::Finished,
                Step::Refused => Step::Refused,
                Step::Stop => if plan.removes {
                    Step::Teardown
                } else {
                    Step::Refused
                },
                _ => Step::Refused,
            };
            return Repetition { at, failed: true };
        }
        if ok {
            return Repetition { at: following(self.at, plan), failed: false };
        }
        match self.at {
            Step::Finished | Step::Refused => self,
            Step::Start | Step::Hold | Step::Judge | Step::Quiesce | Step::Collect => Repetition {
                at: Step::Stop,
                failed: true,
            },
            Step::Guard | Step::Teardown => Repetition { at: Step::Refused, failed: true },
            _ => Repetition {
                at: if plan.removes {
                    Step::Teardown
                } else {
                    Step::Refused
                },
                failed: true,
            },
        }
    }
}

fn following(at: Step, plan: Plan) -> (next: Step)
    ensures
        next == at.following(plan),
{
    match at {
        Step::Guard => if plan.removes {
            Step::Defend
        } else {
            Step::Truncate
        },
        Step::Defend => Step::Truncate,
        Step::Truncate => Step::Settle,
        Step::Settle => if plan.creates {
            Step::Create
        } else {
            Step::Start
        },
        Step::Create => Step::Start,
        Step::Start => Step::Hold,
        Step::Hold => Step::Judge,
        Step::Judge => Step::Quiesce,
        Step::Quiesce => Step::Collect,
        Step::Collect => Step::Stop,
        Step::Stop => if plan.sustained {
            Step::Count
        } else {
            Step::Headroom
        },
        Step::Count => Step::Headroom,
        Step::Headroom => Step::Attribute,
        Step::Attribute => Step::Gate,
        Step::Gate => if plan.removes {
            Step::Teardown
        } else {
            Step::Finished
        },
        Step::Teardown => Step::Finished,
        Step::Finished => Step::Finished,
        Step::Refused => Step::Refused,
    }
}

// ---------------------------------------------------------------------------
// Laws
// ---------------------------------------------------------------------------

/// Where a repetition is after the outcomes of its steps.
pub open spec fn run(plan: Plan, outcomes: Seq<bool>) -> Repetition
    decreases outcomes.len(),
{
    if outcomes.len() == 0 {
        Repetition { at: Step::Guard, failed: false }
    } else {
        run(plan, outcomes.drop_last()).after(plan, outcomes.last())
    }
}

/// Whether a repetition came to `step` on the way.
pub open spec fn visited(plan: Plan, outcomes: Seq<bool>, step: Step) -> bool
    decreases outcomes.len(),
{
    run(plan, outcomes).at == step || (outcomes.len() > 0 && visited(
        plan,
        outcomes.drop_last(),
        step,
    ))
}

/// A repetition ends: every step leads on, and after sixteen of them it is over.
pub proof fn a_repetition_ends(plan: Plan, outcomes: Seq<bool>)
    ensures
        run(plan, outcomes).at.is_end() || run(plan, outcomes).at.rank() >= outcomes.len(),
        outcomes.len() >= 16 ==> run(plan, outcomes).at.is_end(),
    decreases outcomes.len(),
{
    if outcomes.len() > 0 {
        a_repetition_ends(plan, outcomes.drop_last());
    }
}

proof fn lemma_order(plan: Plan, outcomes: Seq<bool>)
    ensures
        ({
            let r = run(plan, outcomes);
            &&& r.at is Finished ==> !r.failed
            &&& r.at is Refused ==> r.failed
            &&& r.failed ==> r.at is Stop || r.at is Teardown || r.at is Refused
            &&& visited(plan, outcomes, Step::Start) && (r.at.rank() > Step::Stop.rank()) ==> visited(
                plan,
                outcomes,
                Step::Stop,
            )
            &&& r.at.rank() >= Step::Start.rank() && !r.failed ==> visited(
                plan,
                outcomes,
                Step::Start,
            )
            &&& visited(plan, outcomes, Step::Defend) ==> r.at.rank() >= Step::Defend.rank()
            &&& visited(plan, outcomes, Step::Start) ==> r.at.rank() >= Step::Start.rank()
            &&& visited(plan, outcomes, Step::Stop) ==> r.at.rank() >= Step::Stop.rank()
            &&& visited(plan, outcomes, Step::Teardown) ==> r.at.rank() >= Step::Teardown.rank()
            &&& r.at is Stop && r.failed ==> visited(plan, outcomes, Step::Start)
            &&& plan.removes && visited(plan, outcomes, Step::Start) && r.at.is_end() ==> visited(
                plan,
                outcomes,
                Step::Teardown,
            )
            &&& plan.removes && visited(plan, outcomes, Step::Defend) && r.at.is_end() ==> visited(
                plan,
                outcomes,
                Step::Teardown,
            )
            &&& plan.removes && r.at.rank() > 0 && !r.at.is_end() ==> visited(
                plan,
                outcomes,
                Step::Defend,
            )
        }),
    decreases outcomes.len(),
{
    if outcomes.len() > 0 {
        lemma_order(plan, outcomes.drop_last());
    }
}

/// However a repetition ends, the containers that it started have been stopped.
pub proof fn no_container_outlives_its_repetition(plan: Plan, outcomes: Seq<bool>)
    requires
        run(plan, outcomes).at.is_end(),
        visited(plan, outcomes, Step::Start),
    ensures
        visited(plan, outcomes, Step::Stop),
{
    lemma_order(plan, outcomes);
}

/// However a repetition ends, an arm that declares how its objects are removed
/// has had them removed, once it had begun to touch the target.
pub proof fn no_object_outlives_its_repetition(plan: Plan, outcomes: Seq<bool>)
    requires
        plan.removes,
        run(plan, outcomes).at.is_end(),
        visited(plan, outcomes, Step::Defend),
    ensures
        visited(plan, outcomes, Step::Teardown),
{
    lemma_order(plan, outcomes);
}

/// While the objects of an arm are removed, none of its containers is running:
/// those that were started have been stopped.
pub proof fn nothing_inserts_through_an_object_that_goes(plan: Plan, outcomes: Seq<bool>)
    requires
        run(plan, outcomes).at is Teardown,
        visited(plan, outcomes, Step::Start),
    ensures
        visited(plan, outcomes, Step::Stop),
{
    lemma_order(plan, outcomes);
}

/// A repetition that finished failed at no step, and one that is refused did.
pub proof fn a_finished_repetition_never_failed(plan: Plan, outcomes: Seq<bool>)
    ensures
        run(plan, outcomes).at is Finished ==> !run(plan, outcomes).failed,
        run(plan, outcomes).at is Refused ==> run(plan, outcomes).failed,
{
    lemma_order(plan, outcomes);
}

/// Whether an arm of `plan` owes `step` before its measurement stands: every step, but
/// for those about objects that it does not declare and about a stream that it is not
/// offered.
pub open spec fn is_owed(plan: Plan, step: Step) -> bool {
    &&& !(step is Finished || step is Refused)
    &&& step is Defend || step is Teardown ==> plan.removes
    &&& step is Create ==> plan.creates
    &&& step is Count ==> plan.sustained
}

proof fn lemma_taken(plan: Plan, outcomes: Seq<bool>, step: Step)
    requires
        !(step is Finished || step is Refused),
    ensures
        is_owed(plan, step) && !run(plan, outcomes).failed && run(plan, outcomes).at.rank()
            >= step.rank() ==> visited(plan, outcomes, step),
        visited(plan, outcomes, step) && !run(plan, outcomes).failed ==> is_owed(plan, step),
    decreases outcomes.len(),
{
    if outcomes.len() > 0 {
        lemma_taken(plan, outcomes.drop_last(), step);
        lemma_order(plan, outcomes.drop_last());
    }
}

/// A measurement stands only after every step that the arm owes, and after no other.
pub proof fn a_measurement_stands_on_every_step(plan: Plan, outcomes: Seq<bool>, step: Step)
    requires
        run(plan, outcomes).at is Finished,
        !(step is Finished || step is Refused),
    ensures
        visited(plan, outcomes, step) <==> is_owed(plan, step),
{
    lemma_order(plan, outcomes);
    lemma_taken(plan, outcomes, step);
}

/// Nothing is counted, compared, attributed or examined before the window was judged,
/// the pipeline had settled, the collectors were read and the containers were stopped;
/// and no container is started before the target was emptied and had settled.
pub proof fn the_steps_come_in_their_order(plan: Plan, outcomes: Seq<bool>)
    ensures
        ({
            let at = run(plan, outcomes).at;
            &&& at is Count || at is Headroom || at is Attribute || at is Gate ==> {
                &&& visited(plan, outcomes, Step::Hold)
                &&& visited(plan, outcomes, Step::Judge)
                &&& visited(plan, outcomes, Step::Quiesce)
                &&& visited(plan, outcomes, Step::Collect)
                &&& visited(plan, outcomes, Step::Stop)
            }
            &&& at is Collect ==> visited(plan, outcomes, Step::Quiesce)
            &&& at is Quiesce ==> visited(plan, outcomes, Step::Judge)
            &&& at is Judge ==> visited(plan, outcomes, Step::Hold)
            &&& at is Start ==> {
                &&& visited(plan, outcomes, Step::Truncate)
                &&& visited(plan, outcomes, Step::Settle)
                &&& plan.creates ==> visited(plan, outcomes, Step::Create)
            }
            &&& at is Create ==> visited(plan, outcomes, Step::Truncate) && visited(
                plan,
                outcomes,
                Step::Settle,
            )
        }),
{
    lemma_order(plan, outcomes);
    lemma_taken(plan, outcomes, Step::Truncate);
    lemma_taken(plan, outcomes, Step::Settle);
    lemma_taken(plan, outcomes, Step::Create);
    lemma_taken(plan, outcomes, Step::Hold);
    lemma_taken(plan, outcomes, Step::Judge);
    lemma_taken(plan, outcomes, Step::Quiesce);
    lemma_taken(plan, outcomes, Step::Collect);
    lemma_taken(plan, outcomes, Step::Stop);
}

} // verus!
