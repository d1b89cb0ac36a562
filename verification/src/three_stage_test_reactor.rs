//! The decisions of a test reactor that runs a node through its three
//! stages: initializing, joining, and validating.
use vstd::prelude::*;

verus! {

/// Why the test reactor could not be made.
#[derive(Debug)]
pub enum ThreeStageError {
    /// The initializer reactor could not be made; why.
    CouldNotMakeInitializerReactor(String),
    /// The metrics registry failed; why.
    PrometheusError(String),
}

/// An event of the test reactor: an event of one of the stages' reactors.
#[derive(Debug)]
pub enum ThreeStageTestEvent<IE, JE, VE> {
    InitializerEvent(IE),
    JoinerEvent(JE),
    ValidatorEvent(VE),
}

/// The stage the test reactor is in.
#[derive(Debug, Clone, Copy, PartialEq, Eq)]
pub enum Stage {
    /// Between two stages, while the reactor is taken over.
    Deactivated,
    Initializing,
    Joining,
    Validating,
}

/// The stage whose reactor an event is for.
pub open spec fn spec_event_stage<IE, JE, VE>(e: ThreeStageTestEvent<IE, JE, VE>) -> Stage {
    match e {
        ThreeStageTestEvent::InitializerEvent(_) => Stage::Initializing,
        ThreeStageTestEvent::JoinerEvent(_) => Stage::Joining,
        ThreeStageTestEvent::ValidatorEvent(_) => Stage::Validating,
    }
}

impl<IE, JE, VE> ThreeStageTestEvent<IE, JE, VE> {
    /// The stage whose reactor this event is for.
    pub fn stage(&self) -> (r: Stage)
        ensures
            r == spec_event_stage(*self),
    {
        match self {
            ThreeStageTestEvent::InitializerEvent(_) => Stage::Initializing,
            ThreeStageTestEvent::JoinerEvent(_) => Stage::Joining,
            ThreeStageTestEvent::ValidatorEvent(_) => Stage::Validating,
        }
    }
}

/// The stage after the reactor of `stage` has handled an event for it:
/// an initializer that stopped hands over to a joiner, a joiner that stopped
/// to a validator.
pub open spec fn spec_next_stage(stage: Stage, stopped: bool) -> Stage {
    match stage {
        Stage::Initializing => if stopped {
            Stage::Joining
        } else {
            Stage::Initializing
        },
        Stage::Joining => if stopped {
            Stage::Validating
        } else {
            Stage::Joining
        },
        _ => stage,
    }
}

/// Dispatches an event of the stage the reactor is in, after the stage's
/// reactor handled it: whether that reactor stopped, and whether it stopped
/// successfully, decide the next stage. Every event must be for the current
/// stage, an initializer must stop successfully, and a validator never stops.
pub fn dispatch_stage<IE, JE, VE>(
    stage: Stage,
    event: &ThreeStageTestEvent<IE, JE, VE>,
    stopped: bool,
    stopped_successfully: bool,
) -> (r: Stage)
    requires
        stage != Stage::Deactivated,
        spec_event_stage(*event) == stage,
        stage == Stage::Initializing && stopped ==> stopped_successfully,
        stage == Stage::Validating ==> !stopped,
    ensures
        r == spec_next_stage(stage, stopped),
        r != Stage::Deactivated,
{
    match (event.stage(), stage) {
        (Stage::Initializing, Stage::Initializing) => {
            if stopped {
                Stage::Joining
            } else {
                Stage::Initializing
            }
        },
        (Stage::Joining, Stage::Joining) => {
            if stopped {
                Stage::Validating
            } else {
                Stage::Joining
            }
        },
        _ => stage,
    }
}

} // verus!
