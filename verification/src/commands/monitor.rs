//! The Monitor: it watches the views and records those that come to rest.
use vstd::prelude::*;
use crate::clock;
use crate::error::{Failure, JavelinError, Result};
use crate::json;
use crate::json::{Json, JsonValue};
use crate::ordered::PathMap;
use crate::search;
use crate::store::{Store, StoreState};
use crate::text;
use crate::text::Text;

verus! {

/// How often the layers may fail to be read in a row.
pub const QUERY_LIMIT: u8 = 3;

/// How long, in milliseconds, a new Monitor may take to be ready.
pub const START_LIMIT: u64 = 5000;

/// The part of the work on a view that failed.
#[derive(Clone, Copy, Debug, PartialEq, Eq, Structural)]
pub enum Stage {
    LayerQuery,
    ObjectLease,
    ViewStamp,
    Observation,
    TrackingPolicy,
    Scan,
    StableStamp,
    ObjectMetadata,
    TreeWrite,
    ReconcileLock,
    Checkpoint,
    ObservationWrite,
}

pub open spec fn stage_name(stage: Stage) -> Text {
    match stage {
        Stage::LayerQuery => "layer-query"@,
        Stage::ObjectLease => "object-lease"@,
        Stage::ViewStamp => "view-stamp"@,
        Stage::Observation => "observation"@,
        Stage::TrackingPolicy => "tracking-policy"@,
        Stage::Scan => "scan"@,
        Stage::StableStamp => "stable-stamp"@,
        Stage::ObjectMetadata => "object-metadata"@,
        Stage::TreeWrite => "tree-write"@,
        Stage::ReconcileLock => "reconcile-lock"@,
        Stage::Checkpoint => "checkpoint"@,
        Stage::ObservationWrite => "observation-write"@,
    }
}

impl Stage {
    pub fn name(self) -> (r: &'static str)
        ensures
            r@ == stage_name(self),
    {
        match self {
            Stage::LayerQuery => "layer-query",
            Stage::ObjectLease => "object-lease",
            Stage::ViewStamp => "view-stamp",
            Stage::Observation => "observation",
            Stage::TrackingPolicy => "tracking-policy",
            Stage::Scan => "scan",
            Stage::StableStamp => "stable-stamp",
            Stage::ObjectMetadata => "object-metadata",
            Stage::TreeWrite => "tree-write",
            Stage::ReconcileLock => "reconcile-lock",
            Stage::Checkpoint => "checkpoint",
            Stage::ObservationWrite => "observation-write",
        }
    }
}

/// What came of the last task on a Layer's view.
#[derive(Debug)]
#[verifier::ext_equal]
pub enum Progress<S = String> {
    /// There is no view.
    Gone,
    /// The view's stamp, and whether a Checkpoint is known to hold the view.
    Stamped { stamp: S, known: bool },
    /// The view was scanned, and this is its stamp after the scan.
    Scanned { stamp: S },
    /// Somebody else is recording.
    Busy,
    /// The scan was recorded, unless the Layer had moved on.
    Recorded { done: bool },
    /// What was seen of the view was noted, with this stamp.
    Noted { stamp: S },
    Failed { stage: Stage, code: S, message: S },
}

impl DeepView for Progress {
    type V = Progress<Text>;

    open spec fn deep_view(&self) -> Progress<Text> {
        match self {
            Progress::Gone => Progress::Gone,
            Progress::Stamped { stamp, known } => Progress::Stamped {
                stamp: stamp@,
                known: *known,
            },
            Progress::Scanned { stamp } => Progress::Scanned { stamp: stamp@ },
            Progress::Busy => Progress::Busy,
            Progress::Recorded { done } => Progress::Recorded { done: *done },
            Progress::Noted { stamp } => Progress::Noted { stamp: stamp@ },
            Progress::Failed { stage, code, message } => Progress::Failed {
                stage: *stage,
                code: code@,
                message: message@,
            },
        }
    }
}

/// What is done next with a Layer's view.
#[derive(Clone, Copy, Debug, PartialEq, Eq, Structural)]
pub enum Task {
    /// Nothing: the next Layer's turn.
    Next,
    /// Scan the view and stamp it again.
    Scan,
    /// Record the scan.
    Record,
    /// Note what was seen.
    Note,
}

/// What is done in a round.
#[derive(Clone, Copy, Debug, PartialEq, Eq, Structural)]
pub enum Round {
    /// The World is gone.
    Stop,
    /// Look at each Layer, then rest.
    Visit,
    /// Rest, then try again.
    Retry,
    /// The layers cannot be read.
    GiveUp,
}

/// What the Monitor remembers: the stamp with which each view was seen last,
/// the one with which it was recorded, and how often the layers could not be
/// read.
#[derive(Debug)]
pub struct Watch {
    pub pending: PathMap<String>,
    pub captured: PathMap<String>,
    pub failures: u8,
}

/// The mathematical value of a [`Watch`].
#[verifier::ext_equal]
pub struct WatchState {
    pub pending: Map<Text, Text>,
    pub captured: Map<Text, Text>,
    pub failures: u8,
}

impl View for Watch {
    type V = WatchState;

    open spec fn view(&self) -> WatchState {
        WatchState {
            pending: self.pending@,
            captured: self.captured@,
            failures: self.failures,
        }
    }
}

/// The Layer's stamp in a table is the given one.
pub open spec fn has_stamp(stamps: Map<Text, Text>, layer_id: Text, stamp: Text) -> bool {
    stamps.contains_key(layer_id) && stamps[layer_id] == stamp
}

impl WatchState {
    pub open spec fn seen(self, layer_id: Text, stamp: Text) -> WatchState {
        WatchState { pending: self.pending.insert(layer_id, stamp), ..self }
    }

    pub open spec fn settled(self, layer_id: Text, stamp: Text) -> WatchState {
        WatchState {
            pending: self.pending.remove(layer_id),
            captured: self.captured.insert(layer_id, stamp),
            ..self
        }
    }

    /// A view is scanned when it was seen twice with one stamp and is not known
    /// to be recorded, and it is recorded when the scan left the stamp as it
    /// was.
    pub open spec fn step(self, layer_id: Text, progress: Progress<Text>) -> (WatchState, Task) {
        match progress {
            Progress::Stamped { stamp, known } => if known {
                (self.settled(layer_id, stamp), Task::Next)
            } else if has_stamp(self.captured, layer_id, stamp) {
                (self, Task::Next)
            } else if !has_stamp(self.pending, layer_id, stamp) {
                (self.seen(layer_id, stamp), Task::Next)
            } else {
                (self, Task::Scan)
            },
            Progress::Scanned { stamp } => if !has_stamp(self.pending, layer_id, stamp) {
                (self.seen(layer_id, stamp), Task::Next)
            } else {
                (self, Task::Record)
            },
            Progress::Recorded { done } => (self, if done {
                Task::Note
            } else {
                Task::Next
            }),
            Progress::Noted { stamp } => (self.settled(layer_id, stamp), Task::Next),
            Progress::Gone | Progress::Busy | Progress::Failed { .. } => (self, Task::Next),
        }
    }

    /// How a round begins.
    pub open spec fn round(self, present: bool, readable: bool) -> (WatchState, Round) {
        if !present {
            (self, Round::Stop)
        } else if readable {
            (WatchState { failures: 0, ..self }, Round::Visit)
        } else {
            let failures = (self.failures + 1) as u8;
            (WatchState { failures, ..self }, if failures >= QUERY_LIMIT {
                Round::GiveUp
            } else {
                Round::Retry
            })
        }
    }
}

/// The table gives the Layer the stamp.
fn stamped(stamps: &PathMap<String>, layer_id: &str, stamp: &str) -> (r: bool)
    requires
        stamps.wf(),
    ensures
        r == has_stamp(stamps@, layer_id@, stamp@),
{
    match stamps.get(layer_id) {
        Some(last) => text::same(last.as_str(), stamp),
        None => false,
    }
}

impl Watch {
    pub open spec fn wf(self) -> bool {
        self.pending.wf() && self.captured.wf() && self.failures < QUERY_LIMIT
    }

    pub fn new() -> (r: Self)
        ensures
            r.wf(),
            r@ == (WatchState {
                pending: Map::empty(),
                captured: Map::empty(),
                failures: 0,
            }),
    {
        Watch { pending: PathMap::new(), captured: PathMap::new(), failures: 0 }
    }

    fn settle(&mut self, layer_id: &str, stamp: String)
        requires
            old(self).wf(),
        ensures
            final(self).wf(),
            final(self)@ == old(self)@.settled(layer_id@, stamp@),
    {
        self.captured.insert(layer_id.to_owned(), stamp);
        self.pending.remove(layer_id);
    }

    fn see(&mut self, layer_id: &str, stamp: String)
        requires
            old(self).wf(),
        ensures
            final(self).wf(),
            final(self)@ == old(self)@.seen(layer_id@, stamp@),
    {
        self.pending.insert(layer_id.to_owned(), stamp);
    }

    /// Takes what came of the last task on a Layer's view, and gives the next.
    pub fn step(&mut self, layer_id: &str, progress: Progress) -> (r: Task)
        requires
            old(self).wf(),
        ensures
            final(self).wf(),
            (final(self)@, r) == old(self)@.step(layer_id@, progress.deep_view()),
    {
        match progress {
            Progress::Stamped { stamp, known } => {
                if known {
                    self.settle(layer_id, stamp);
                    return Task::Next;
                }
                if stamped(&self.captured, layer_id, stamp.as_str()) {
                    return Task::Next;
                }
                if !stamped(&self.pending, layer_id, stamp.as_str()) {
                    self.see(layer_id, stamp);
                    return Task::Next;
                }
                Task::Scan
            },
            Progress::Scanned { stamp } => {
                if !stamped(&self.pending, layer_id, stamp.as_str()) {
                    self.see(layer_id, stamp);
                    return Task::Next;
                }
                Task::Record
            },
            Progress::Recorded { done } => if done {
                Task::Note
            } else {
                Task::Next
            },
            Progress::Noted { stamp } => {
                self.settle(layer_id, stamp);
                Task::Next
            },
            Progress::Gone => Task::Next,
            Progress::Busy => Task::Next,
            Progress::Failed { stage: _, code: _, message: _ } => Task::Next,
        }
    }

    /// Begins a round, by whether the World is there and its layers could be
    /// read.
    pub fn round(&mut self, present: bool, readable: bool) -> (r: Round)
        requires
            old(self).wf(),
        ensures
            r != Round::GiveUp ==> final(self).wf(),
            (final(self)@, r) == old(self)@.round(present, readable),
    {
        if !present {
            return Round::Stop;
        }
        if readable {
            self.failures = 0;
            return Round::Visit;
        }
        self.failures = self.failures + 1;
        if self.failures >= QUERY_LIMIT {
            Round::GiveUp
        } else {
            Round::Retry
        }
    }
}

/// The store with a failure of the Monitor.
pub open spec fn with_monitor_error(
    state: StoreState,
    layer_id: Option<Text>,
    stage: Stage,
    code: Text,
    message: Text,
    now: Text,
) -> StoreState {
    state.with_event(
        "monitor.error"@,
        match layer_id {
            Some(_) => Some("layer"@),
            None => None,
        },
        layer_id,
        JsonValue::object().field("stage"@, JsonValue::Text(stage_name(stage))).field(
            "code"@,
            JsonValue::Text(code),
        ).field("message"@, JsonValue::Text(message)),
        now,
    )
}

/// Records a failure of the Monitor, at a given time.
pub fn record_monitor_error_at(
    store: &mut Store,
    layer_id: Option<&str>,
    stage: Stage,
    code: &str,
    message: &str,
    now: &str,
)
    ensures
        final(store)@ == with_monitor_error(
            old(store)@,
            layer_id.deep_view(),
            stage,
            code@,
            message@,
            now@,
        ),
{
    let kind = match layer_id {
        Some(_) => Some("layer"),
        None => None,
    };
    let payload = Json::empty().with("stage", Json::text(stage.name())).with(
        "code",
        Json::text(code),
    ).with("message", Json::text(message));
    store.append_event_at("monitor.error", kind, layer_id, payload, now);
}

/// Records a failure of the Monitor.
pub fn record_monitor_error(
    store: &mut Store,
    layer_id: Option<&str>,
    stage: Stage,
    code: &str,
    message: &str,
)
    ensures
        exists|now: Text|
            clock::is_stamp(now) && final(store)@ == #[trigger] with_monitor_error(
                old(store)@,
                layer_id.deep_view(),
                stage,
                code@,
                message@,
                now,
            ),
{
    let now = clock::now();
    record_monitor_error_at(store, layer_id, stage, code, message, now.as_str());
}

/// A process number as JSON.
pub open spec fn process_value(pid: u32) -> JsonValue {
    JsonValue::Number(text::decimal(pid as nat))
}

fn process_json(pid: u32) -> (r: Json)
    ensures
        r@ == process_value(pid),
{
    Json::Number(text::number(pid as u64))
}

/// The store with the event that a Monitor began.
pub open spec fn with_monitor(state: StoreState, pid: u32, now: Text) -> StoreState {
    state.with_event(
        "monitor.ready"@,
        Some("world"@),
        None,
        JsonValue::object().field("pid"@, process_value(pid)),
        now,
    )
}

/// Records that a Monitor began, at a given time, and gives what it tells the
/// commands that wait for it.
pub fn record_monitor_ready_at(store: &mut Store, pid: u32, now: &str) -> (r: Json)
    ensures
        final(store)@ == with_monitor(old(store)@, pid, now@),
        r@ == JsonValue::object().field("pid"@, process_value(pid)).field(
            "ready"@,
            JsonValue::Bool(true),
        ).field("started_at"@, JsonValue::Text(now@)),
{
    let payload = Json::empty().with("pid", process_json(pid));
    store.append_event_at("monitor.ready", Some("world"), None, payload, now);
    Json::empty().with("pid", process_json(pid)).with("ready", Json::Bool(true)).with(
        "started_at",
        Json::text(now),
    )
}

/// Records that a Monitor began.
pub fn record_monitor_ready(store: &mut Store, pid: u32) -> (r: Json)
    ensures
        exists|now: Text|
            {
                &&& clock::is_stamp(now)
                &&& final(store)@ == #[trigger] with_monitor(old(store)@, pid, now)
                &&& r@ == JsonValue::object().field("pid"@, process_value(pid)).field(
                    "ready"@,
                    JsonValue::Bool(true),
                ).field("started_at"@, JsonValue::Text(now))
            },
{
    let now = clock::now();
    record_monitor_ready_at(store, pid, now.as_str())
}

/// The first field of an object with a name.
pub open spec fn field_of(fields: Seq<(Text, JsonValue)>, name: Text) -> Option<JsonValue>
    decreases fields.len(),
{
    if fields.len() == 0 {
        None
    } else {
        match field_of(fields.drop_last(), name) {
            Some(value) => Some(value),
            None => if fields.last().0 == name {
                Some(fields.last().1)
            } else {
                None
            },
        }
    }
}

proof fn lemma_field_stays(fields: Seq<(Text, JsonValue)>, name: Text, i: int)
    requires
        0 <= i <= fields.len(),
        field_of(fields.take(i), name) is Some,
    ensures
        field_of(fields, name) == field_of(fields.take(i), name),
    decreases fields.len(),
{
    if i < fields.len() {
        assert(fields.drop_last().take(i) =~= fields.take(i));
        lemma_field_stays(fields.drop_last(), name, i);
    } else {
        assert(fields.take(i) =~= fields);
    }
}

/// The process that a ready Monitor named.
pub open spec fn named_process(content: JsonValue) -> Option<u32> {
    match content {
        JsonValue::Object(fields) => match field_of(fields, "pid"@) {
            Some(JsonValue::Number(digits)) => match search::parsed(digits, u32::MAX as nat) {
                Some(pid) => Some(pid as u32),
                None => None,
            },
            _ => None,
        },
        _ => None,
    }
}

/// The process of a Monitor, by what it told when it was ready.
pub fn monitor_process(content: &Json) -> (r: Option<u32>)
    ensures
        r == named_process(content@),
{
    match content {
        Json::Object(fields) => {
            let ghost all = json::fields_view(fields@);
            proof {
                json::lemma_fields_view(fields@);
                assert(all.take(0) =~= Seq::empty());
            }
            let mut i: usize = 0;
            while i < fields.len()
                invariant
                    i <= fields@.len(),
                    all == json::fields_view(fields@),
                    all.len() == fields@.len(),
                    content@ == JsonValue::Object(all),
                    field_of(all.take(i as int), "pid"@) is None,
                decreases fields@.len() - i,
            {
                proof {
                    json::lemma_fields_view(fields@);
                    assert(all.take(i + 1).drop_last() =~= all.take(i as int));
                    assert(all.take(i + 1).last() == all[i as int]);
                }
                if text::same(fields[i].0.as_str(), "pid") {
                    proof {
                        lemma_field_stays(all, "pid"@, i + 1);
                    }
                    return match &fields[i].1 {
                        Json::Number(digits) => match search::parse(
                            digits.as_str(),
                            u32::MAX as u64,
                        ) {
                            Some(pid) => Some(pid as u32),
                            None => None,
                        },
                        _ => None,
                    };
                }
                i = i + 1;
            }
            assert(all.take(i as int) =~= all);
            None
        },
        _ => None,
    }
}

/// What a command does about the Monitor that it needs.
#[derive(Clone, Copy, Debug, PartialEq, Eq, Structural)]
pub enum Startup {
    /// It is there.
    Ready,
    /// Start one.
    Start,
    /// Look again a little later.
    Wait,
}

/// The next step towards a Monitor: `waited` is how long ago, in milliseconds,
/// this command started one, if it did.
pub open spec fn startup_outcome(ready: bool, waited: Option<u64>) -> std::result::Result<
    Startup,
    Failure,
> {
    match waited {
        None => Ok(
            if ready {
                Startup::Ready
            } else {
                Startup::Start
            },
        ),
        Some(milliseconds) => if milliseconds >= START_LIMIT {
            Err(Failure::busy("Monitor did not become ready within 5s"@))
        } else {
            Ok(
                if ready {
                    Startup::Ready
                } else {
                    Startup::Wait
                },
            )
        },
    }
}

/// Decides the next step towards a Monitor.
pub fn startup_step(ready: bool, waited: Option<u64>) -> (r: Result<Startup>)
    ensures
        match startup_outcome(ready, waited) {
            Ok(step) => r is Ok && r->Ok_0 == step,
            Err(failure) => r is Err && r->Err_0@ == failure,
        },
{
    match waited {
        None => if ready {
            Ok(Startup::Ready)
        } else {
            Ok(Startup::Start)
        },
        Some(milliseconds) => {
            if milliseconds >= START_LIMIT {
                return Err(
                    JavelinError::busy("Monitor did not become ready within 5s".to_owned()),
                );
            }
            if ready {
                Ok(Startup::Ready)
            } else {
                Ok(Startup::Wait)
            }
        },
    }
}

/// How long the Monitor rests between two rounds, in milliseconds.
pub fn rest_between_rounds(configured: u64) -> (r: u64)
    ensures
        r == if configured < 25 {
            25
        } else {
            configured
        },
{
    if configured < 25 {
        25
    } else {
        configured
    }
}

/// A view is scanned only when it was seen with one stamp twice, and recorded
/// only when it still has that stamp after the scan.
pub proof fn law_only_views_at_rest_are_recorded(
    watch: WatchState,
    layer_id: Text,
    progress: Progress<Text>,
)
    ensures
        watch.step(layer_id, progress).1 == Task::Scan ==> exists|stamp: Text|
            progress == (Progress::Stamped { stamp, known: false }) && #[trigger] has_stamp(
                watch.pending,
                layer_id,
                stamp,
            ),
        watch.step(layer_id, progress).1 == Task::Record ==> exists|stamp: Text|
            progress == (Progress::Scanned { stamp }) && #[trigger] has_stamp(
                watch.pending,
                layer_id,
                stamp,
            ),
{
}

/// A view that was recorded is left alone until its stamp changes.
pub proof fn law_recorded_view_is_left_alone(watch: WatchState, layer_id: Text, stamp: Text)
    ensures
        ({
            let (after, _) = watch.step(layer_id, Progress::Noted { stamp });
            after.step(layer_id, Progress::Stamped { stamp, known: false }) == (after, Task::Next)
        }),
{
}

/// A view that changes and then rests is scanned at the second look and, if the
/// scan left it as it was, recorded.
pub proof fn law_changed_view_is_recorded(watch: WatchState, layer_id: Text, stamp: Text)
    requires
        !has_stamp(watch.captured, layer_id, stamp),
        !has_stamp(watch.pending, layer_id, stamp),
    ensures
        ({
            let (first, _) = watch.step(layer_id, Progress::Stamped { stamp, known: false });
            let (second, task) = first.step(layer_id, Progress::Stamped { stamp, known: false });
            task == Task::Scan && second.step(layer_id, Progress::Scanned { stamp }) == (
                second,
                Task::Record,
            )
        }),
{
}

/// Work on one Layer's view leaves what is known of the others' views.
pub proof fn law_views_are_watched_apart(
    watch: WatchState,
    layer_id: Text,
    other: Text,
    progress: Progress<Text>,
    stamp: Text,
)
    requires
        layer_id != other,
    ensures
        ({
            let (after, _) = watch.step(layer_id, progress);
            &&& has_stamp(after.pending, other, stamp) == has_stamp(watch.pending, other, stamp)
            &&& has_stamp(after.captured, other, stamp) == has_stamp(watch.captured, other, stamp)
        }),
{
}

/// The Monitor gives up only when the layers could not be read three times in a
/// row.
pub proof fn law_monitor_outlives_two_failures(watch: WatchState)
    ensures
        ({
            let (first, _) = watch.round(true, true);
            let (second, a) = first.round(true, false);
            let (third, b) = second.round(true, false);
            a == Round::Retry && b == Round::Retry && third.round(true, false).1 == Round::GiveUp
        }),
{
}

/// A Monitor is started where none is ready, and is waited for at most five
/// seconds; after that the command fails as busy.
pub proof fn law_monitor_is_waited_for_five_seconds(ready: bool, waited: u64)
    ensures
        startup_outcome(true, None) == Ok::<Startup, Failure>(Startup::Ready),
        startup_outcome(false, None) == Ok::<Startup, Failure>(Startup::Start),
        waited < 5000 ==> startup_outcome(ready, Some(waited)) == Ok::<Startup, Failure>(
            if ready {
                Startup::Ready
            } else {
                Startup::Wait
            },
        ),
        waited >= 5000 ==> startup_outcome(ready, Some(waited)) is Err && startup_outcome(
            ready,
            Some(waited),
        )->Err_0.exit_code == 8,
{
}

/// A view that a Checkpoint is known to hold is not scanned; a view that changed
/// is not scanned at the first look, and what was noted as recorded is kept until
/// the view is recorded anew.
pub proof fn law_watch_remembers_stamps(
    watch: WatchState,
    layer_id: Text,
    stamp: Text,
    done: bool,
)
    ensures
        watch.step(layer_id, Progress::Stamped { stamp, known: true }).1 == Task::Next,
        watch.step(
            layer_id,
            Progress::Stamped { stamp, known: true },
        ).0.captured.contains_key(layer_id),
        watch.step(layer_id, Progress::Stamped { stamp, known: true }).0.captured[layer_id]
            == stamp,
        !(watch.captured.contains_key(layer_id) && watch.captured[layer_id] == stamp) && !(
        watch.pending.contains_key(layer_id) && watch.pending[layer_id] == stamp) ==> {
            let (after, task) = watch.step(layer_id, Progress::Stamped { stamp, known: false });
            &&& task == Task::Next
            &&& after.pending.contains_key(layer_id) && after.pending[layer_id] == stamp
            &&& after.captured == watch.captured
        },
        watch.step(layer_id, Progress::Recorded { done }).1 == (if done {
            Task::Note
        } else {
            Task::Next
        }),
        watch.step(layer_id, Progress::Recorded { done }).0 == watch,
        watch.step(layer_id, Progress::Gone) == (watch, Task::Next),
        watch.step(layer_id, Progress::Busy) == (watch, Task::Next),
{
}

/// A Monitor whose World is gone stops; one that can read the Layers looks at
/// each of them and forgets the failures before.
pub proof fn law_rounds_go_by_what_is_there(watch: WatchState, readable: bool)
    ensures
        watch.round(false, readable) == (watch, Round::Stop),
        watch.round(true, true).1 == Round::Visit,
        watch.round(true, true).0.failures == 0,
        watch.round(true, true).0.pending == watch.pending,
        watch.round(true, true).0.captured == watch.captured,
        watch.failures == 0 ==> watch.round(true, false).1 == Round::Retry,
        watch.failures == 2 ==> watch.round(true, false).1 == Round::GiveUp,
{
}

/// The Monitor rests as long as it is told, but never less than 25 milliseconds.
pub proof fn law_monitor_rests_as_told(configured: u64, rest: u64)
    requires
        call_ensures(rest_between_rounds, (configured,), rest),
    ensures
        rest >= 25,
        rest >= configured,
        rest == configured || rest == 25,
{
}

} // verus!
