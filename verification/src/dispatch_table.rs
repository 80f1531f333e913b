use vstd::prelude::*;

use crate::error::TalkError;
use crate::message::TalkMessageSignatureId;
use crate::symbol_table::share_arc;

use vstd::std_specs::iter::IteratorSpec;

use std::collections::HashMap;
use std::sync::Arc;

verus! {

broadcast use vstd::std_specs::hash::group_hash_axioms;

/// Where a message sent to a dispatch table goes: the action defined for the message, the
/// table's 'not supported' action, or (with the default 'not supported' action) the error that
/// the message is not supported
pub enum TalkDispatch<TAction, TNotSupported> {
    Action(Arc<TAction>),
    NotSupported(Arc<TNotSupported>),
    Error(TalkError),
}

/// Whether a dispatch table responds to a message: it does if it has an action for it;
/// otherwise the table's 'is also supported' test decides (when there is one), else it does not
pub enum TalkSupport<TAlsoSupported> {
    Supported,
    AskAlsoSupported(Arc<TAlsoSupported>),
    NotSupported,
}

///
/// Maps messages to the actions that process them. `TAction` is the type of a message action,
/// `TNotSupported` the type of the action taken for messages without an action, and
/// `TAlsoSupported` the type of the test for messages that are handled by the 'not supported'
/// action.
///
pub struct TalkMessageDispatchTable<TAction, TNotSupported, TAlsoSupported> {
    /// The action to take for each message, by signature ID
    message_action: HashMap<usize, Arc<TAction>>,
    /// The action to take when a message is not supported (the default when `None`)
    not_supported: Option<Arc<TNotSupported>>,
    /// Decides if a message that is not in the table is also supported (never, when `None`)
    is_also_supported: Option<Arc<TAlsoSupported>>,
}

impl<TAction, TNotSupported, TAlsoSupported> TalkMessageDispatchTable<TAction, TNotSupported, TAlsoSupported> {
    /// The action for each message, by signature ID
    pub closed spec fn actions(self) -> Map<usize, Arc<TAction>> {
        self.message_action@
    }

    /// The action for unsupported messages
    pub closed spec fn not_supported_action(self) -> Option<Arc<TNotSupported>> {
        self.not_supported
    }

    /// The test for messages that are also supported
    pub closed spec fn also_supported_test(self) -> Option<Arc<TAlsoSupported>> {
        self.is_also_supported
    }

    /// Where a message with this signature ID is dispatched to
    pub open spec fn dispatch(self, message: TalkMessageSignatureId) -> TalkDispatch<TAction, TNotSupported> {
        if self.actions().contains_key(message.0) {
            TalkDispatch::Action(self.actions()[message.0])
        } else {
            match self.not_supported_action() {
                Some(not_supported) => TalkDispatch::NotSupported(not_supported),
                None => TalkDispatch::Error(TalkError::MessageNotSupported(message)),
            }
        }
    }

    /// Whether the table responds to a message with this signature ID
    pub open spec fn support(self, message: TalkMessageSignatureId) -> TalkSupport<TAlsoSupported> {
        if self.actions().contains_key(message.0) {
            TalkSupport::Supported
        } else {
            match self.also_supported_test() {
                Some(test) => TalkSupport::AskAlsoSupported(test),
                None => TalkSupport::NotSupported,
            }
        }
    }

    /// Creates an empty dispatch table, with the default 'not supported' action
    pub fn empty() -> (result: Self)
        ensures
            result.actions() == Map::<usize, Arc<TAction>>::empty(),
            result.not_supported_action() is None,
            result.also_supported_test() is None,
    {
        TalkMessageDispatchTable {
            message_action: HashMap::new(),
            not_supported: None,
            is_also_supported: None,
        }
    }

    /// Defines the action for a message
    pub fn define_message(&mut self, message: TalkMessageSignatureId, action: TAction)
        ensures
            final(self).actions() == old(self).actions().insert(message.0, Arc::new(action)),
            final(self).not_supported_action() == old(self).not_supported_action(),
            final(self).also_supported_test() == old(self).also_supported_test(),
    {
        self.message_action.insert(message.0, Arc::new(action));
    }

    /// Builder method that initialises a dispatch table alongside its messages
    pub fn with_message(self, message: TalkMessageSignatureId, action: TAction) -> (result: Self)
        ensures
            result.actions() == self.actions().insert(message.0, Arc::new(action)),
            result.not_supported_action() == self.not_supported_action(),
            result.also_supported_test() == self.also_supported_test(),
    {
        let mut table = self;
        table.define_message(message, action);
        table
    }

    /// Sets the action to take when an 'unsupported' message is sent to this dispatch table
    pub fn define_not_supported(&mut self, not_supported: TNotSupported)
        ensures
            final(self).actions() == old(self).actions(),
            final(self).not_supported_action() == Some(Arc::new(not_supported)),
            final(self).also_supported_test() == old(self).also_supported_test(),
    {
        self.not_supported = Some(Arc::new(not_supported));
    }

    /// Builder method that sets the action to take when an 'unsupported' message is sent
    pub fn with_not_supported(self, not_supported: TNotSupported) -> (result: Self)
        ensures
            result.actions() == self.actions(),
            result.not_supported_action() == Some(Arc::new(not_supported)),
            result.also_supported_test() == self.also_supported_test(),
    {
        let mut table = self;
        table.define_not_supported(not_supported);
        table
    }

    /// Sets the test that decides if a message that is not in the table is supported (by the
    /// 'not supported' action)
    pub fn define_is_also_supported(&mut self, is_also_supported: TAlsoSupported)
        ensures
            final(self).actions() == old(self).actions(),
            final(self).not_supported_action() == old(self).not_supported_action(),
            final(self).also_supported_test() == Some(Arc::new(is_also_supported)),
    {
        self.is_also_supported = Some(Arc::new(is_also_supported));
    }

    /// Builder method that sets the test for messages that are also supported
    pub fn with_is_also_supported(self, is_also_supported: TAlsoSupported) -> (result: Self)
        ensures
            result.actions() == self.actions(),
            result.not_supported_action() == self.not_supported_action(),
            result.also_supported_test() == Some(Arc::new(is_also_supported)),
    {
        let mut table = self;
        table.define_is_also_supported(is_also_supported);
        table
    }

    /// Decides where a message is sent: its action, the 'not supported' action, or (with the
    /// default 'not supported' action) a `MessageNotSupported` error for the message
    pub fn send_message(&self, message: TalkMessageSignatureId) -> (result: TalkDispatch<TAction, TNotSupported>)
        ensures
            result == self.dispatch(message),
    {
        match self.message_action.get(&message.0) {
            Some(action) => TalkDispatch::Action(share_arc(action)),
            None => match &self.not_supported {
                Some(not_supported) => TalkDispatch::NotSupported(share_arc(not_supported)),
                None => TalkDispatch::Error(TalkError::MessageNotSupported(message)),
            },
        }
    }

    /// The action for a message, or `None` if there is no action for it in this table
    pub fn try_send_message(&self, message: TalkMessageSignatureId) -> (result: Option<Arc<TAction>>)
        ensures
            result == if self.actions().contains_key(message.0) {
                Some(self.actions()[message.0])
            } else {
                None
            },
    {
        match self.message_action.get(&message.0) {
            Some(action) => Some(share_arc(action)),
            None => None,
        }
    }

    /// Whether this dispatch table responds to a message
    pub fn responds_to(&self, message: TalkMessageSignatureId) -> (result: TalkSupport<TAlsoSupported>)
        ensures
            result == self.support(message),
    {
        if self.message_action.contains_key(&message.0) {
            TalkSupport::Supported
        } else {
            match &self.is_also_supported {
                Some(test) => TalkSupport::AskAlsoSupported(share_arc(test)),
                None => TalkSupport::NotSupported,
            }
        }
    }

    /// Builder method that adds all the messages from the specified table to this table
    /// (replacing any actions this table had for the same messages)
    pub fn with_messages_from(self, table: &Self) -> (result: Self)
        ensures
            result.actions() == self.actions().union_prefer_right(table.actions()),
            result.not_supported_action() == self.not_supported_action(),
            result.also_supported_test() == self.also_supported_test(),
    {
        let mut result = self;
        let ghost actions_before = result.message_action@;
        let ghost other = table.message_action@;
        for entry in it: table.message_action.iter()
            invariant
                other == table.message_action@,
                it.seq() == vstd::std_specs::hash::spec_hash_map_iter(&table.message_action).remaining(),
                result.not_supported == self.not_supported,
                result.is_also_supported == self.is_also_supported,
                forall|k: usize| #[trigger] result.message_action@.contains_key(k) <==> (actions_before.contains_key(k)
                    || exists|j: int| 0 <= j < it.index() && *it.seq()[j].0 == k),
                forall|k: usize| #[trigger] result.message_action@.contains_key(k) ==> result.message_action@[k]
                    == if other.contains_key(k) && (exists|j: int| 0 <= j < it.index() && *it.seq()[j].0 == k) {
                    other[k]
                } else {
                    actions_before[k]
                },
        {
            let (key, action) = entry;
            result.message_action.insert(*key, share_arc(action));
        }
        proof {
            assert(result.message_action@ =~= actions_before.union_prefer_right(other));
        }
        result
    }

    /// Builder method that adds all the messages from the specified table to this table, with a
    /// function that turns each of that table's actions into an action of this table (replacing
    /// any actions this table had for the same messages)
    pub fn with_mapped_messages_from<TSourceAction, TSourceNotSupported, TSourceAlsoSupported, F>(
        self,
        table: &TalkMessageDispatchTable<TSourceAction, TSourceNotSupported, TSourceAlsoSupported>,
        map_action: F,
    ) -> (result: Self)
        where
            F: Fn(Arc<TSourceAction>) -> TAction,
        requires
            forall|action: Arc<TSourceAction>| map_action.requires((action,)),
        ensures
            result.actions().dom() == self.actions().dom().union(table.actions().dom()),
            forall|message: usize| #[trigger] table.actions().contains_key(message)
                ==> map_action.ensures((table.actions()[message],), *result.actions()[message]),
            forall|message: usize| #[trigger] self.actions().contains_key(message) && !table.actions().contains_key(message)
                ==> result.actions()[message] == self.actions()[message],
            result.not_supported_action() == self.not_supported_action(),
            result.also_supported_test() == self.also_supported_test(),
    {
        let mut result = self;
        let ghost actions_before = result.message_action@;
        let ghost other = table.message_action@;
        let ghost keys = vstd::std_specs::hash::spec_hash_map_iter(&table.message_action).remaining();
        let ghost mut visited: int = 0;
        for entry in it: table.message_action.iter()
            invariant
                other == table.message_action@,
                it.seq() == vstd::std_specs::hash::spec_hash_map_iter(&table.message_action).remaining(),
                keys == it.seq(),
                visited == it.index(),
                forall|action: Arc<TSourceAction>| map_action.requires((action,)),
                result.not_supported == self.not_supported,
                result.is_also_supported == self.is_also_supported,
                forall|k: usize| #[trigger] result.message_action@.contains_key(k) <==> (actions_before.contains_key(k)
                    || exists|j: int| 0 <= j < visited && *keys[j].0 == k),
                forall|k: usize| #[trigger] result.message_action@.contains_key(k) ==>
                    if other.contains_key(k) && (exists|j: int| 0 <= j < visited && *keys[j].0 == k) {
                        map_action.ensures((other[k],), *result.message_action@[k])
                    } else {
                        result.message_action@[k] == actions_before[k]
                    },
        {
            let (key, action) = entry;
            let mapped = map_action(share_arc(action));
            result.message_action.insert(*key, Arc::new(mapped));
            proof {
                visited = visited + 1;
            }
        }
        proof {
            assert(result.message_action@.dom() =~= actions_before.dom().union(other.dom()));
            assert forall|message: usize| #[trigger] other.contains_key(message) implies
                map_action.ensures((other[message],), *result.message_action@[message]) by {
                assert(result.message_action@.contains_key(message));
                assert(keys.contains((&message, &other[message])));
                let j = choose|j: int| 0 <= j < keys.len() && keys[j] == (&message, &other[message]);
                assert(*keys[j].0 == message);
            }
            assert forall|message: usize| #[trigger] actions_before.contains_key(message) && !other.contains_key(message)
                implies result.message_action@[message] == actions_before[message] by {
                assert(result.message_action@.contains_key(message));
            }
        }
        result
    }
}


/// A message that has been defined in a table is dispatched to its new action, and every other
/// message is dispatched as it was before
pub proof fn law_dispatch_after_define<TAction, TNotSupported, TAlsoSupported>(
    before: TalkMessageDispatchTable<TAction, TNotSupported, TAlsoSupported>,
    after: TalkMessageDispatchTable<TAction, TNotSupported, TAlsoSupported>,
    message: TalkMessageSignatureId,
    action: TAction,
    other: TalkMessageSignatureId,
)
    requires
        after.actions() == before.actions().insert(message.0, Arc::new(action)),
        after.not_supported_action() == before.not_supported_action(),
        after.also_supported_test() == before.also_supported_test(),
        other.0 != message.0,
    ensures
        after.dispatch(message) == TalkDispatch::<TAction, TNotSupported>::Action(Arc::new(action)),
        after.support(message) == TalkSupport::<TAlsoSupported>::Supported,
        after.dispatch(other) == before.dispatch(other),
        after.support(other) == before.support(other),
{
}

/// A table responds to exactly the messages it dispatches to an action, apart from the messages
/// that its 'is also supported' test accepts
pub proof fn law_responds_to_dispatched_messages<TAction, TNotSupported, TAlsoSupported>(
    table: TalkMessageDispatchTable<TAction, TNotSupported, TAlsoSupported>,
    message: TalkMessageSignatureId,
)
    ensures
        (table.support(message) is Supported) <==> (table.dispatch(message) is Action),
        table.support(message) is NotSupported ==> !(table.dispatch(message) is Action),
{
}

} // verus!
