//! Execution states of the nodes of the initialization graph.
use vstd::prelude::*;

verus! {

/// The execution state of a graph node.
#[derive(Clone, Copy, Debug, PartialEq, Eq, Structural)]
pub enum State {
    /// The node is disabled and thus is not considered in graph calculations.
    Disabled,
    /// The node is enabled and thus is considered in graph calculations.
    Enabled,
    /// The node is waiting for processing during the current graph operation.
    WaitingForProcessing,
    /// The node is currently active.
    Active,
    /// The node's startup failed.
    Failed,
}

impl State {
    /// The number that stands for a state.
    pub open spec fn spec_to_u8(self) -> u8 {
        match self {
            State::Disabled => 0,
            State::Enabled => 1,
            State::WaitingForProcessing => 2,
            State::Active => 3,
            State::Failed => 4,
        }
    }

    /// Converts the provided `u8` into its corresponding [`State`]; only the numbers of states
    /// are accepted.
    pub fn from_u8(state: u8) -> (result: Self)
        requires
            state <= 4,
        ensures
            result.spec_to_u8() == state,
    {
        match state {
            0 => State::Disabled,
            1 => State::Enabled,
            2 => State::WaitingForProcessing,
            3 => State::Active,
            _ => State::Failed,
        }
    }

    /// Converts the provided [`State`] into its corresponding `u8`.
    pub fn to_u8(self) -> (result: u8)
        ensures
            result == self.spec_to_u8(),
            result <= 4,
    {
        match self {
            State::Disabled => 0,
            State::Enabled => 1,
            State::WaitingForProcessing => 2,
            State::Active => 3,
            State::Failed => 4,
        }
    }
}

/// Converting a state to its number and back gives the state again, and converting a number
/// of a state to the state and back gives the number again.
pub proof fn lemma_state_roundtrip(state: State, value: u8)
    ensures
        forall|s: State| #[trigger] s.spec_to_u8() == state.spec_to_u8() ==> s == state,
        state.spec_to_u8() <= 4,
{
}

/// Sets every node in [`State::WaitingForProcessing`] to [`State::Enabled`], leaving the others.
pub fn clear_waiting(states: &mut Vec<State>)
    ensures
        final(states)@.len() == old(states)@.len(),
        forall|i: int| 0 <= i < final(states)@.len() ==> #[trigger] final(states)@[i] == if old(states)@[i]
            == State::WaitingForProcessing {
            State::Enabled
        } else {
            old(states)@[i]
        },
{
    let mut i: usize = 0;
    while i < states.len()
        invariant
            i <= states@.len(),
            states@.len() == old(states)@.len(),
            forall|k: int| 0 <= k < i ==> #[trigger] states@[k] == if old(states)@[k]
                == State::WaitingForProcessing {
                State::Enabled
            } else {
                old(states)@[k]
            },
            forall|k: int| i <= k < states@.len() ==> #[trigger] states@[k] == old(states)@[k],
        decreases states@.len() - i,
    {
        if states[i] == State::WaitingForProcessing {
            states.set(i, State::Enabled);
        }
        i += 1;
    }
}

} // verus!
