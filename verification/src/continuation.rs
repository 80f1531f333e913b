use vstd::prelude::*;

verus! {

/// What the condition of a `do_while` loop evaluated to
pub enum TalkWhileCondition<E> {
    /// The condition produced an error
    Error(E),
    /// The condition was the value `true`
    True,
    /// The condition was any other value
    NotTrue,
}

///
/// The decisions of a `do_while` loop, which runs an action while a condition is true. The
/// condition and the action are evaluated elsewhere (they may need to wait); the loop is told
/// what each evaluated to and says what to do next.
///
/// The loop finishes with the result of the last run of the action, or the initial return value
/// if the action never ran. If the condition or the action produces an error, the loop finishes
/// with that error.
///
pub enum TalkWhileLoop<V, E> {
    /// The condition is to be evaluated next; holds the result so far
    AwaitingCondition(V),
    /// The action is to be run next
    AwaitingAction,
    /// The loop has finished with this result
    Finished(Result<V, E>),
}

/// Something that was evaluated for a `do_while` loop
pub enum TalkWhileEvent<V, E> {
    /// The condition evaluated to this
    Condition(TalkWhileCondition<E>),
    /// The action evaluated to this
    Action(Result<V, E>),
}

impl<V, E> TalkWhileLoop<V, E> {
    /// The loop after its condition has been evaluated, with the previous result where it is no
    /// longer needed and should be released: a `true` condition runs the action (the previous
    /// result is then replaced), any other value finishes the loop with the previous result, and
    /// an error finishes the loop with that error (the previous result is then discarded)
    pub open spec fn after_condition(self, condition: TalkWhileCondition<E>) -> (Self, Option<V>) {
        match self {
            TalkWhileLoop::AwaitingCondition(last_result) => match condition {
                TalkWhileCondition::Error(error) => (TalkWhileLoop::Finished(Err(error)), Some(last_result)),
                TalkWhileCondition::True => (TalkWhileLoop::AwaitingAction, Some(last_result)),
                TalkWhileCondition::NotTrue => (TalkWhileLoop::Finished(Ok(last_result)), None),
            },
            _ => (self, None),
        }
    }

    /// The loop after its action has run: an error finishes the loop, any other value becomes
    /// the result so far and the condition is evaluated again
    pub open spec fn after_action(self, action: Result<V, E>) -> Self {
        match self {
            TalkWhileLoop::AwaitingAction => match action {
                Err(error) => TalkWhileLoop::Finished(Err(error)),
                Ok(value) => TalkWhileLoop::AwaitingCondition(value),
            },
            _ => self,
        }
    }

    /// The loop after a sequence of evaluations, in order
    pub open spec fn after_events(self, events: Seq<TalkWhileEvent<V, E>>) -> Self
        decreases events.len(),
    {
        if events.len() == 0 {
            self
        } else {
            let next = match events[0] {
                TalkWhileEvent::Condition(condition) => self.after_condition(condition).0,
                TalkWhileEvent::Action(action) => self.after_action(action),
            };
            next.after_events(events.drop_first())
        }
    }

    /// Starts a loop: the condition is evaluated first
    pub fn start(initial_return_value: V) -> (result: Self)
        ensures
            result == TalkWhileLoop::<V, E>::AwaitingCondition(initial_return_value),
    {
        TalkWhileLoop::AwaitingCondition(initial_return_value)
    }

    /// Whether the loop has finished
    pub fn is_finished(&self) -> (result: bool)
        ensures
            result == (*self is Finished),
    {
        match self {
            TalkWhileLoop::Finished(_) => true,
            _ => false,
        }
    }

    /// Whether the action is to be run next
    pub fn runs_action(&self) -> (result: bool)
        ensures
            result == (*self is AwaitingAction),
    {
        match self {
            TalkWhileLoop::AwaitingAction => true,
            _ => false,
        }
    }

    /// Moves the loop on once its condition has been evaluated (see `after_condition`)
    pub fn condition_evaluated(self, condition: TalkWhileCondition<E>) -> (result: (Self, Option<V>))
        ensures
            result == self.after_condition(condition),
    {
        match self {
            TalkWhileLoop::AwaitingCondition(last_result) => match condition {
                TalkWhileCondition::Error(error) => (TalkWhileLoop::Finished(Err(error)), Some(last_result)),
                TalkWhileCondition::True => (TalkWhileLoop::AwaitingAction, Some(last_result)),
                TalkWhileCondition::NotTrue => (TalkWhileLoop::Finished(Ok(last_result)), None),
            },
            other => (other, None),
        }
    }

    /// Moves the loop on once its action has run (see `after_action`)
    pub fn action_evaluated(self, action: Result<V, E>) -> (result: Self)
        ensures
            result == self.after_action(action),
    {
        match self {
            TalkWhileLoop::AwaitingAction => match action {
                Err(error) => TalkWhileLoop::Finished(Err(error)),
                Ok(value) => TalkWhileLoop::AwaitingCondition(value),
            },
            other => other,
        }
    }

    /// The result of a finished loop
    pub fn into_result(self) -> (result: Option<Result<V, E>>)
        ensures
            self matches TalkWhileLoop::Finished(finished) ==> result == Some(finished),
            !(self is Finished) ==> result is None,
    {
        match self {
            TalkWhileLoop::Finished(finished) => Some(finished),
            _ => None,
        }
    }
}

/// The evaluations of a loop whose condition was true before
/// each of `values`, which the action produced in turn
pub open spec fn while_iterations<V, E>(values: Seq<V>) -> Seq<TalkWhileEvent<V, E>>
    decreases values.len(),
{
    if values.len() == 0 {
        Seq::empty()
    } else {
        while_iterations(values.drop_last()) + seq![
            TalkWhileEvent::Condition(TalkWhileCondition::True),
            TalkWhileEvent::Action(Ok(values.last())),
        ]
    }
}

/// Evaluating two sequences of events one after the other is evaluating them joined together
proof fn lemma_after_events_append<V, E>(state: TalkWhileLoop<V, E>, first: Seq<TalkWhileEvent<V, E>>, second: Seq<TalkWhileEvent<V, E>>)
    ensures
        state.after_events(first + second) == state.after_events(first).after_events(second),
    decreases first.len(),
{
    if first.len() > 0 {
        let next = match first[0] {
            TalkWhileEvent::Condition(condition) => state.after_condition(condition).0,
            TalkWhileEvent::Action(action) => state.after_action(action),
        };
        assert((first + second).drop_first() =~= first.drop_first() + second);
        assert((first + second)[0] == first[0]);
        lemma_after_events_append(next, first.drop_first(), second);
    } else {
        assert(first + second =~= second);
    }
}

/// After each run of the action, the loop holds the value that it produced (or the initial
/// return value if it has not run yet) and evaluates the condition again
proof fn lemma_while_iterations<V, E>(initial_return_value: V, values: Seq<V>)
    ensures
        TalkWhileLoop::<V, E>::AwaitingCondition(initial_return_value).after_events(while_iterations(values))
            == TalkWhileLoop::<V, E>::AwaitingCondition(if values.len() == 0 { initial_return_value } else { values.last() }),
    decreases values.len(),
{
    if values.len() > 0 {
        let start = TalkWhileLoop::<V, E>::AwaitingCondition(initial_return_value);
        let rest = values.drop_last();
        let step: Seq<TalkWhileEvent<V, E>> = seq![
            TalkWhileEvent::Condition(TalkWhileCondition::True),
            TalkWhileEvent::Action(Ok(values.last())),
        ];
        lemma_while_iterations::<V, E>(initial_return_value, rest);
        lemma_after_events_append(start, while_iterations(rest), step);
        let middle = TalkWhileLoop::<V, E>::AwaitingCondition(if rest.len() == 0 { initial_return_value } else { rest.last() });
        assert(step.drop_first().drop_first() =~= Seq::<TalkWhileEvent<V, E>>::empty());
        assert(middle.after_events(step) == TalkWhileLoop::<V, E>::AwaitingCondition(values.last())) by {
            assert(middle.after_events(step) == TalkWhileLoop::<V, E>::AwaitingAction.after_events(step.drop_first()));
            assert(TalkWhileLoop::<V, E>::AwaitingAction.after_events(step.drop_first())
                == TalkWhileLoop::<V, E>::AwaitingCondition(values.last()).after_events(step.drop_first().drop_first()));
        }
    }
}

/// A loop whose condition stops being true returns the result of the last run of its action, or
/// its initial return value if the action never ran
pub proof fn law_loop_returns_last_result<V, E>(initial_return_value: V, values: Seq<V>)
    ensures
        TalkWhileLoop::<V, E>::AwaitingCondition(initial_return_value).after_events(
            while_iterations(values).push(TalkWhileEvent::Condition(TalkWhileCondition::NotTrue)),
        ) == TalkWhileLoop::<V, E>::Finished(Ok(if values.len() == 0 { initial_return_value } else { values.last() })),
{
    let start = TalkWhileLoop::<V, E>::AwaitingCondition(initial_return_value);
    let stop: Seq<TalkWhileEvent<V, E>> = seq![TalkWhileEvent::Condition(TalkWhileCondition::NotTrue)];
    lemma_while_iterations::<V, E>(initial_return_value, values);
    assert(while_iterations::<V, E>(values).push(TalkWhileEvent::Condition(TalkWhileCondition::NotTrue))
        =~= while_iterations(values) + stop);
    lemma_after_events_append(start, while_iterations(values), stop);
    assert(stop.drop_first() =~= Seq::<TalkWhileEvent<V, E>>::empty());
    let last = if values.len() == 0 { initial_return_value } else { values.last() };
    assert(TalkWhileLoop::<V, E>::AwaitingCondition(last).after_events(stop)
        == TalkWhileLoop::<V, E>::Finished(Ok(last)).after_events(stop.drop_first()));
}

/// An error from the condition ends the loop with that error, whatever ran before it
pub proof fn law_condition_error_ends_loop<V, E>(initial_return_value: V, values: Seq<V>, error: E)
    ensures
        TalkWhileLoop::<V, E>::AwaitingCondition(initial_return_value).after_events(
            while_iterations(values).push(TalkWhileEvent::Condition(TalkWhileCondition::Error(error))),
        ) == TalkWhileLoop::<V, E>::Finished(Err(error)),
{
    let start = TalkWhileLoop::<V, E>::AwaitingCondition(initial_return_value);
    let stop: Seq<TalkWhileEvent<V, E>> = seq![TalkWhileEvent::Condition(TalkWhileCondition::Error(error))];
    lemma_while_iterations::<V, E>(initial_return_value, values);
    assert(while_iterations::<V, E>(values).push(TalkWhileEvent::Condition(TalkWhileCondition::Error(error)))
        =~= while_iterations(values) + stop);
    lemma_after_events_append(start, while_iterations(values), stop);
    assert(stop.drop_first() =~= Seq::<TalkWhileEvent<V, E>>::empty());
    let last = if values.len() == 0 { initial_return_value } else { values.last() };
    assert(TalkWhileLoop::<V, E>::AwaitingCondition(last).after_events(stop)
        == TalkWhileLoop::<V, E>::Finished(Err(error)).after_events(stop.drop_first()));
}

/// An error from the action ends the loop with that error, whatever ran before it
pub proof fn law_action_error_ends_loop<V, E>(initial_return_value: V, values: Seq<V>, error: E)
    ensures
        TalkWhileLoop::<V, E>::AwaitingCondition(initial_return_value).after_events(
            while_iterations(values)
                .push(TalkWhileEvent::Condition(TalkWhileCondition::True))
                .push(TalkWhileEvent::Action(Err(error))),
        ) == TalkWhileLoop::<V, E>::Finished(Err(error)),
{
    let start = TalkWhileLoop::<V, E>::AwaitingCondition(initial_return_value);
    let stop: Seq<TalkWhileEvent<V, E>> = seq![
        TalkWhileEvent::Condition(TalkWhileCondition::True),
        TalkWhileEvent::Action(Err(error)),
    ];
    lemma_while_iterations::<V, E>(initial_return_value, values);
    assert(while_iterations::<V, E>(values)
        .push(TalkWhileEvent::Condition(TalkWhileCondition::True))
        .push(TalkWhileEvent::Action(Err(error))) =~= while_iterations(values) + stop);
    lemma_after_events_append(start, while_iterations(values), stop);
    assert(stop.drop_first().drop_first() =~= Seq::<TalkWhileEvent<V, E>>::empty());
    let last = if values.len() == 0 { initial_return_value } else { values.last() };
    assert(TalkWhileLoop::<V, E>::AwaitingCondition(last).after_events(stop)
        == TalkWhileLoop::<V, E>::AwaitingAction.after_events(stop.drop_first()));
    assert(TalkWhileLoop::<V, E>::AwaitingAction.after_events(stop.drop_first())
        == TalkWhileLoop::<V, E>::Finished(Err(error)).after_events(stop.drop_first().drop_first()));
}

/// A finished loop stays finished whatever it is told afterwards
pub proof fn law_finished_loop_stays_finished<V, E>(result: Result<V, E>, events: Seq<TalkWhileEvent<V, E>>)
    ensures
        TalkWhileLoop::<V, E>::Finished(result).after_events(events) == TalkWhileLoop::<V, E>::Finished(result),
    decreases events.len(),
{
    if events.len() > 0 {
        law_finished_loop_stays_finished(result, events.drop_first());
    }
}

} // verus!
