use flo_talk::continuation::{TalkWhileCondition, TalkWhileLoop};

type Loop = TalkWhileLoop<i64, &'static str>;

#[test]
fn loop_that_never_runs_returns_initial_value() {
    let state = Loop::start(5);
    assert!(!state.is_finished());
    let (state, released) = state.condition_evaluated(TalkWhileCondition::NotTrue);
    assert!(released.is_none());
    assert!(state.is_finished());
    assert_eq!(state.into_result(), Some(Ok(5)));
}

#[test]
fn loop_returns_result_of_last_action() {
    let state = Loop::start(0);

    let (state, released) = state.condition_evaluated(TalkWhileCondition::True);
    assert_eq!(released, Some(0));
    assert!(state.runs_action());
    let state = state.action_evaluated(Ok(1));

    let (state, released) = state.condition_evaluated(TalkWhileCondition::True);
    assert_eq!(released, Some(1));
    let state = state.action_evaluated(Ok(2));

    let (state, released) = state.condition_evaluated(TalkWhileCondition::NotTrue);
    assert!(released.is_none());
    assert_eq!(state.into_result(), Some(Ok(2)));
}

#[test]
fn condition_error_ends_loop() {
    let state = Loop::start(0);
    let (state, _) = state.condition_evaluated(TalkWhileCondition::True);
    let state = state.action_evaluated(Ok(1));
    let (state, released) = state.condition_evaluated(TalkWhileCondition::Error("bad condition"));
    assert_eq!(released, Some(1));
    assert_eq!(state.into_result(), Some(Err("bad condition")));
}

#[test]
fn action_error_ends_loop() {
    let state = Loop::start(0);
    let (state, _) = state.condition_evaluated(TalkWhileCondition::True);
    let state = state.action_evaluated(Err("bad action"));
    assert!(state.is_finished());
    assert_eq!(state.into_result(), Some(Err("bad action")));
}

#[test]
fn condition_that_is_not_true_finishes_with_last_result() {
    let state = Loop::start(3);
    let (state, released) = state.condition_evaluated(TalkWhileCondition::True);
    assert_eq!(released, Some(3));
    let state = state.action_evaluated(Ok(4));
    let (state, released) = state.condition_evaluated(TalkWhileCondition::NotTrue);
    assert!(released.is_none());
    assert!(!state.runs_action());
    assert_eq!(state.into_result(), Some(Ok(4)));
}

#[test]
fn unfinished_loop_has_no_result() {
    let state = Loop::start(1);
    assert!(!state.runs_action());
    assert_eq!(state.into_result(), None);
}

#[test]
fn finished_loop_ignores_further_evaluations() {
    let state = Loop::start(1);
    let (state, _) = state.condition_evaluated(TalkWhileCondition::NotTrue);
    let (state, released) = state.condition_evaluated(TalkWhileCondition::True);
    assert!(released.is_none());
    let state = state.action_evaluated(Ok(9));
    assert_eq!(state.into_result(), Some(Ok(1)));
}
