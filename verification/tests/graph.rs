use lib::graph::State;

#[test]
fn state_roundtrips() {
    let states = [
        State::Disabled,
        State::Enabled,
        State::WaitingForProcessing,
        State::Active,
        State::Failed,
    ];
    for state in states {
        assert_eq!(state, State::from_u8(state.to_u8()));
    }
}
