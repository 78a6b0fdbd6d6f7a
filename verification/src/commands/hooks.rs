//! Hooks: what an agent tells of its operations and sessions.
use vstd::prelude::*;
use crate::clock;
use crate::json;
use crate::json::{Json, JsonValue};
use crate::model::Checkpoint;
use crate::report::Shown;
use crate::store::{Store, StoreState};
use crate::text::Text;

verus! {

/// What an agent begins or ends.
#[derive(Clone, Copy, Debug, PartialEq, Eq, Structural)]
pub enum Hook {
    OperationStart,
    OperationEnd,
    SessionStart,
    SessionEnd,
}

/// The event of a hook.
pub open spec fn hook_event(hook: Hook) -> Text {
    match hook {
        Hook::OperationStart => "hook.operation-start"@,
        Hook::OperationEnd => "hook.operation-end"@,
        Hook::SessionStart => "hook.session-start"@,
        Hook::SessionEnd => "hook.session-end"@,
    }
}

impl Hook {
    /// The event of the hook, which is also the reason of its Checkpoint.
    pub fn event(self) -> (r: &'static str)
        ensures
            r@ == hook_event(self),
    {
        match self {
            Hook::OperationStart => "hook.operation-start",
            Hook::OperationEnd => "hook.operation-end",
            Hook::SessionStart => "hook.session-start",
            Hook::SessionEnd => "hook.session-end",
        }
    }

    /// Whether the view may be refreshed: the agent changes nothing right now
    /// only where an operation of it has just ended.
    pub fn refreshes(self) -> (r: bool)
        ensures
            r == (self == Hook::OperationEnd),
    {
        self == Hook::OperationEnd
    }
}

/// The store with the event of a hook.
pub open spec fn with_hook(
    state: StoreState,
    hook: Hook,
    layer_id: Text,
    session: Option<Text>,
    checkpoint_id: Text,
    now: Text,
) -> StoreState {
    state.with_event(
        hook_event(hook),
        Some("layer"@),
        Some(layer_id),
        JsonValue::object().field("session_id"@, json::text_or_null(session)).field(
            "checkpoint_id"@,
            JsonValue::Text(checkpoint_id),
        ).field("safe_refresh"@, JsonValue::Bool(hook == Hook::OperationEnd)),
        now,
    )
}

/// Records a hook at a given time.
pub fn record_hook_at(
    store: &mut Store,
    hook: Hook,
    layer_id: &str,
    session: &Option<String>,
    checkpoint_id: &str,
    now: &str,
)
    ensures
        final(store)@ == with_hook(
            old(store)@,
            hook,
            layer_id@,
            session.deep_view(),
            checkpoint_id@,
            now@,
        ),
{
    let payload = Json::empty().with("session_id", Json::option(session)).with(
        "checkpoint_id",
        Json::text(checkpoint_id),
    ).with("safe_refresh", Json::Bool(hook.refreshes()));
    store.append_event_at(hook.event(), Some("layer"), Some(layer_id), payload, now);
}

/// Records a hook.
pub fn record_hook(
    store: &mut Store,
    hook: Hook,
    layer_id: &str,
    session: &Option<String>,
    checkpoint_id: &str,
)
    ensures
        exists|now: Text|
            clock::is_stamp(now) && final(store)@ == #[trigger] with_hook(
                old(store)@,
                hook,
                layer_id@,
                session.deep_view(),
                checkpoint_id@,
                now,
            ),
{
    let now = clock::now();
    record_hook_at(store, hook, layer_id, session, checkpoint_id, now.as_str());
}

/// What is shown and said of a hook: the Checkpoint, and the head after the
/// Refresh where there was one.
pub fn hook_report(hook: Hook, checkpoint: &Checkpoint, refreshed: &Option<String>) -> (r: (
    Json,
    String,
))
    ensures
        r.0@ == JsonValue::object().field("event"@, JsonValue::Text(hook_event(hook))).field(
            "checkpoint"@,
            Checkpoint::value(checkpoint@),
        ).field("refresh_checkpoint"@, json::text_or_null(refreshed.deep_view())),
        r.1@ == hook_event(hook),
{
    let shown = Json::empty().with("event", Json::text(hook.event())).with(
        "checkpoint",
        checkpoint.shown(),
    ).with("refresh_checkpoint", Json::option(refreshed));
    (shown, hook.event().to_owned())
}

/// The end of an operation, and nothing else, is a safe place for a Refresh.
pub proof fn law_refresh_is_safe_after_an_operation(
    state: StoreState,
    hook: Hook,
    layer_id: Text,
    session: Option<Text>,
    checkpoint_id: Text,
    now: Text,
)
    ensures
        ({
            let after = with_hook(state, hook, layer_id, session, checkpoint_id, now);
            let event = after.events.last();
            &&& event.subject_kind == Some("layer"@)
            &&& event.subject_id == Some(layer_id)
            &&& event.payload == JsonValue::object().field(
                "session_id"@,
                json::text_or_null(session),
            ).field("checkpoint_id"@, JsonValue::Text(checkpoint_id)).field(
                "safe_refresh"@,
                JsonValue::Bool(hook is OperationEnd),
            )
            &&& hook is OperationStart ==> event.event_type == "hook.operation-start"@
            &&& hook is OperationEnd ==> event.event_type == "hook.operation-end"@
            &&& hook is SessionStart ==> event.event_type == "hook.session-start"@
            &&& hook is SessionEnd ==> event.event_type == "hook.session-end"@
            &&& after.layers == state.layers
            &&& after.checkpoints == state.checkpoints
        }),
{
}

/// Of all hooks only the end of an operation refreshes the view.
pub proof fn law_only_an_ended_operation_refreshes(hook: Hook, refreshed: bool)
    requires
        call_ensures(Hook::refreshes, (hook,), refreshed),
    ensures
        hook is OperationEnd ==> refreshed,
        hook is OperationStart || hook is SessionStart || hook is SessionEnd ==> !refreshed,
{
}

} // verus!
