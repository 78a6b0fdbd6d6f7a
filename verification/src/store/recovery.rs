//! What is put right when a store is opened, and the queue of Publish requests.
use vstd::prelude::*;
use crate::clock;
use crate::error::{Failure, JavelinError, Result};
use crate::model::{Layer, LayerStatus};
use crate::ordered::PathMap;
use crate::records::{QueueEntry, ViewRecord};
use crate::search;
use crate::store;
use crate::store::{rows, Store, StoreState};
use crate::tables;
use crate::text;
use crate::text::Text;

verus! {

/// How long a Publish request may wait, in seconds.
pub const PUBLISH_WAIT_SECONDS: u64 = 300;

/// How long temporary data is kept, in seconds, unless another time is set.
pub const TEMP_GRACE_SECONDS: u64 = 3600;

/// The process that a file with its number names.
pub open spec fn named_process(content: Text) -> Option<nat> {
    search::parsed(text::trimmed(content), u32::MAX as nat)
}

/// Reads the number of a process from a file's content.
pub fn process_number(content: &str) -> (r: Option<u32>)
    ensures
        match named_process(content@) {
            Some(n) => r is Some && r->Some_0 == n,
            None => r is None,
        },
{
    match search::parse(text::trim(content).as_str(), u32::MAX as u64) {
        Some(n) => Some(n as u32),
        None => None,
    }
}

/// How long temporary data is kept, in seconds.
pub fn temp_grace_seconds(configured: Option<&str>) -> (r: u64)
    ensures
        r == (match configured {
            None => TEMP_GRACE_SECONDS as nat,
            Some(value) => match search::parsed(value@, u64::MAX as nat) {
                Some(n) => n,
                None => TEMP_GRACE_SECONDS as nat,
            },
        }),
{
    match configured {
        None => TEMP_GRACE_SECONDS,
        Some(value) => match search::parse(value, u64::MAX) {
            Some(n) => n,
            None => TEMP_GRACE_SECONDS,
        },
    }
}

/// Temporary data of a known age is old enough to go.
pub fn temp_is_abandoned(age_seconds: Option<u64>, grace_seconds: u64) -> (r: bool)
    ensures
        r == (age_seconds is Some && age_seconds->Some_0 >= grace_seconds),
{
    match age_seconds {
        Some(age) => age >= grace_seconds,
        None => false,
    }
}

/// A request of a process that runs.
pub open spec fn of_running(alive: Seq<u32>) -> spec_fn(QueueEntry<Text>) -> bool {
    |row: QueueEntry<Text>| alive.contains(row.pid)
}

/// A Layer whose view carries a marker.
pub open spec fn has_marked_view(id: Text) -> spec_fn(Layer<Text>) -> bool {
    |row: Layer<Text>|
        row.id == id && row.status != LayerStatus::Discarded && row.id != "local"@
}

/// The view of a Layer, marked for repair where its marker does not name the
/// Layer.
pub open spec fn recovered_view(
    layers: Seq<Layer<Text>>,
    markers: Map<Text, Text>,
    now: Text,
) -> spec_fn(ViewRecord<Text>) -> ViewRecord<Text> {
    |view: ViewRecord<Text>|
        if tables::any(layers, has_marked_view(view.layer_id)) && !(markers.contains_key(
            view.layer_id,
        ) && markers[view.layer_id] == view.layer_id) {
            ViewRecord { stale: true, backend: "repair_required"@, updated_at: now, ..view }
        } else {
            view
        }
}

/// The store after what an interrupted process left behind is put right.
/// `markers` gives the Layer that the marker of each view names.
pub open spec fn recovered(
    state: StoreState,
    alive: Seq<u32>,
    markers: Map<Text, Text>,
    now: Text,
) -> StoreState {
    let layers = tables::changed(state.layers, rows::reactivate_publishing_change());
    StoreState {
        claims: tables::changed(state.claims, rows::expire_claims_change(now)),
        layers,
        queue: tables::kept(state.queue, of_running(alive)),
        views: tables::changed(state.views, recovered_view(layers, markers, now)),
        ..state
    }
}

/// A process owns the store: its Monitor runs.
pub open spec fn monitor_runs(monitor: Option<u32>, alive: Seq<u32>) -> bool {
    monitor is Some && alive.contains(monitor->Some_0)
}

fn holds(numbers: &Vec<u32>, number: u32) -> (r: bool)
    ensures
        r == numbers@.contains(number),
{
    let mut i: usize = 0;
    while i < numbers.len()
        invariant
            i <= numbers@.len(),
            forall|j: int| 0 <= j < i ==> numbers@[j] != number,
        decreases numbers@.len() - i,
    {
        if numbers[i] == number {
            return true;
        }
        i = i + 1;
    }
    false
}

fn view_is_marked(layers: &Vec<Layer>, id: &str) -> (r: bool)
    ensures
        r == tables::any(layers.deep_view(), has_marked_view(id@)),
{
    let ghost all = layers.deep_view();
    let mut i: usize = 0;
    while i < layers.len()
        invariant
            i <= layers@.len(),
            all == layers.deep_view(),
            forall|j: int| 0 <= j < i ==> !has_marked_view(id@)(#[trigger] all[j]),
        decreases layers@.len() - i,
    {
        let row = &layers[i];
        assert(all[i as int] == row@);
        if text::same(row.id.as_str(), id) && row.status != LayerStatus::Discarded && !text::same(
            row.id.as_str(),
            "local",
        ) {
            proof {
                tables::lemma_any(all, has_marked_view(id@), i as int);
            }
            return true;
        }
        i = i + 1;
    }
    proof {
        tables::lemma_first_none(all, has_marked_view(id@));
    }
    false
}

fn keep_running(queue: &mut Vec<QueueEntry>, alive: &Vec<u32>)
    ensures
        final(queue).deep_view() == tables::kept(old(queue).deep_view(), of_running(alive@)),
{
    let ghost all = queue.deep_view();
    let mut out: Vec<QueueEntry> = Vec::new();
    let mut i: usize = 0;
    assert(all.take(0) =~= Seq::empty());
    assert(out.deep_view() =~= Seq::empty());
    while i < queue.len()
        invariant
            i <= queue@.len(),
            all == queue.deep_view(),
            out.deep_view() == tables::kept(all.take(i as int), of_running(alive@)),
        decreases queue@.len() - i,
    {
        let ghost before = out.deep_view();
        let row = &queue[i];
        proof {
            assert(all.take(i as int + 1).drop_last() =~= all.take(i as int));
            assert(all.take(i as int + 1).last() == row@);
        }
        if holds(alive, row.pid) {
            out.push(row.clone());
            assert(out.deep_view() =~= before.push(row@));
        }
        i = i + 1;
    }
    assert(all.take(i as int) =~= all);
    *queue = out;
}

fn recover_views(
    views: &mut Vec<ViewRecord>,
    layers: &Vec<Layer>,
    markers: &PathMap<String>,
    now: &str,
)
    requires
        markers.wf(),
    ensures
        final(views).deep_view() == tables::changed(
            old(views).deep_view(),
            recovered_view(layers.deep_view(), markers@, now@),
        ),
{
    let ghost all = views.deep_view();
    let ghost change = recovered_view(layers.deep_view(), markers@, now@);
    let mut i: usize = 0;
    while i < views.len()
        invariant
            i <= views@.len(),
            views@.len() == all.len(),
            markers.wf(),
            change == recovered_view(layers.deep_view(), markers@, now@),
            forall|j: int| 0 <= j < i ==> (#[trigger] views@[j])@ == change(all[j]),
            forall|j: int| i <= j < all.len() ==> (#[trigger] views@[j])@ == all[j],
        decreases views@.len() - i,
    {
        let mut row = views[i].clone();
        assert(row@ == all[i as int]);
        let named = match markers.get(row.layer_id.as_str()) {
            Some(owner) => text::same(owner.as_str(), row.layer_id.as_str()),
            None => false,
        };
        if view_is_marked(layers, row.layer_id.as_str()) && !named {
            row.stale = true;
            row.backend = "repair_required".to_owned();
            row.updated_at = now.to_owned();
        }
        assert(row@ == change(all[i as int]));
        views.set(i, row);
        i = i + 1;
    }
    assert(views.deep_view() =~= tables::changed(all, change));
}

/// What to do about the first request for a target.
#[derive(Clone, Copy, Debug, PartialEq, Eq, Structural)]
pub enum QueueStep {
    /// It is one's own: take the lease, if it is free.
    TryLease,
    /// It was abandoned: take it out.
    RemoveHead,
    Wait,
}

/// What to do, given whether the first request's process runs and whether the
/// request is too old.
pub open spec fn queue_step_of(
    head: Option<QueueEntry<Text>>,
    request_id: Text,
    head_runs: bool,
    head_expired: bool,
) -> QueueStep {
    match head {
        None => QueueStep::Wait,
        Some(entry) => if entry.request_id == request_id {
            QueueStep::TryLease
        } else if !head_runs || head_expired {
            QueueStep::RemoveHead
        } else {
            QueueStep::Wait
        },
    }
}

pub fn queue_step(
    head: &Option<QueueEntry>,
    request_id: &str,
    head_runs: bool,
    head_expired: bool,
) -> (r: QueueStep)
    ensures
        r == queue_step_of(head.deep_view(), request_id@, head_runs, head_expired),
{
    match head {
        None => QueueStep::Wait,
        Some(entry) => if text::same(entry.request_id.as_str(), request_id) {
            QueueStep::TryLease
        } else if !head_runs || head_expired {
            QueueStep::RemoveHead
        } else {
            QueueStep::Wait
        },
    }
}

/// A request of an age, in seconds and the nanoseconds on top, is too old. So is
/// one whose time cannot be read.
pub open spec fn too_old(age: Option<(i64, i32)>) -> bool {
    match age {
        None => true,
        Some((seconds, nanos)) => seconds > PUBLISH_WAIT_SECONDS || (seconds
            == PUBLISH_WAIT_SECONDS && nanos > 0),
    }
}

/// Whether a request is too old, given its age in seconds and the nanoseconds
/// on top, if its time can be read at all.
pub fn request_expired(age: Option<(i64, i32)>) -> (r: bool)
    ensures
        r == too_old(age),
{
    match age {
        None => true,
        Some((seconds, nanos)) => seconds > 300 || (seconds == 300 && nanos > 0),
    }
}

/// Whether a request of a given time is too old at another.
pub fn request_expired_at(present: &str, created_at: &str) -> (r: bool)
    ensures
        r == too_old(clock::age_at(present@, created_at@)),
        !clock::is_time(created_at@) ==> r,
{
    request_expired(clock::age(present, created_at))
}

/// Whether a request of a given time is too old by now.
pub fn publish_request_expired(created_at: &str) -> (r: bool)
    ensures
        exists|present: Text| r == too_old(#[trigger] clock::age_at(present, created_at@)),
        !clock::is_time(created_at@) ==> r,
{
    let present = clock::now();
    request_expired_at(present.as_str(), created_at)
}

/// Whether to wait on, given the seconds waited so far.
pub fn wait_in_queue(waited_seconds: u64) -> (r: Result<()>)
    ensures
        match r {
            Ok(_) => waited_seconds < PUBLISH_WAIT_SECONDS,
            Err(error) => waited_seconds >= PUBLISH_WAIT_SECONDS && error@ == Failure::busy(
                "Publish queue wait exceeded 300 seconds"@,
            ),
        },
{
    if waited_seconds >= PUBLISH_WAIT_SECONDS {
        Err(JavelinError::busy("Publish queue wait exceeded 300 seconds".to_owned()))
    } else {
        Ok(())
    }
}

/// A request for a target.
pub open spec fn for_target(target: Text) -> spec_fn(QueueEntry<Text>) -> bool {
    |row: QueueEntry<Text>| row.target == target
}

/// The first request for a target.
pub open spec fn head_of(state: StoreState, target: Text) -> Option<QueueEntry<Text>> {
    tables::find(state.queue, for_target(target))
}

/// The queue with one more request at its end.
pub open spec fn queued(
    state: StoreState,
    request_id: Text,
    target: Text,
    pid: u32,
    now: Text,
) -> StoreState {
    let ticket = store::next_number(state.last_ticket);
    StoreState {
        queue: state.queue.push(QueueEntry { ticket, request_id, target, pid, created_at: now }),
        last_ticket: ticket,
        ..state
    }
}

impl Store {
    /// Puts right what an interrupted process left behind, unless the Monitor
    /// of the store runs. `alive` are the processes that run among those that
    /// the store names, and `markers` the Layers that the views' markers name.
    pub fn recover_startup_at(
        &mut self,
        monitor: Option<u32>,
        alive: &Vec<u32>,
        markers: &PathMap<String>,
        now: &str,
    ) -> (r: bool)
        requires
            markers.wf(),
        ensures
            r == !monitor_runs(monitor, alive@),
            final(self)@ == (if monitor_runs(monitor, alive@) {
                old(self)@
            } else {
                recovered(old(self)@, alive@, markers@, now@)
            }),
    {
        if let Some(pid) = monitor {
            if holds(alive, pid) {
                return false;
            }
        }
        let ghost before = self@;
        rows::expire_claims(&mut self.claims, now);
        rows::reactivate_publishing(&mut self.layers);
        keep_running(&mut self.queue, alive);
        recover_views(&mut self.views, &self.layers, markers, now);
        assert(self@ =~= recovered(before, alive@, markers@, now@));
        true
    }

    /// Puts right what an interrupted process left behind.
    pub fn recover_startup(
        &mut self,
        monitor: Option<u32>,
        alive: &Vec<u32>,
        markers: &PathMap<String>,
    ) -> (r: bool)
        requires
            markers.wf(),
        ensures
            r == !monitor_runs(monitor, alive@),
            !r ==> final(self)@ == old(self)@,
            r ==> exists|now: Text|
                clock::is_stamp(now)
                    && final(self)@ == #[trigger] recovered(old(self)@, alive@, markers@, now),
    {
        let now = clock::now();
        self.recover_startup_at(monitor, alive, markers, now.as_str())
    }

    /// Enters the queue of a target, at its end, at a given time.
    pub fn enter_publish_queue_at(&mut self, request_id: &str, target: &str, pid: u32, now: &str)
        ensures
            final(self)@ == queued(old(self)@, request_id@, target@, pid, now@),
    {
        let ghost before = self@;
        let ticket: i64 = store::number_after(self.last_ticket);
        self.last_ticket = ticket;
        self.queue.push(
            QueueEntry {
                ticket,
                request_id: request_id.to_owned(),
                target: target.to_owned(),
                pid,
                created_at: now.to_owned(),
            },
        );
        assert(self@ =~= queued(before, request_id@, target@, pid, now@));
    }

    /// Enters the queue of a target and gives the request's identity.
    pub fn enter_publish_queue(&mut self, target: &str, pid: u32) -> (r: String)
        ensures
            clock::is_fresh(r@),
            exists|now: Text|
                clock::is_stamp(now) && final(self)@ == #[trigger] queued(
                    old(self)@,
                    r@,
                    target@,
                    pid,
                    now,
                ),
    {
        let id = clock::new_id();
        let now = clock::now();
        self.enter_publish_queue_at(id.as_str(), target, pid, now.as_str());
        id
    }

    /// The first request for a target.
    pub fn publish_queue_head(&self, target: &str) -> (r: Option<QueueEntry>)
        ensures
            r.deep_view() == head_of(self@, target@),
    {
        let ghost all = self@.queue;
        let mut i: usize = 0;
        while i < self.queue.len()
            invariant
                i <= self.queue@.len(),
                all == self@.queue,
                forall|j: int| 0 <= j < i ==> !for_target(target@)(#[trigger] all[j]),
            decreases self.queue@.len() - i,
        {
            assert(all[i as int] == self.queue@[i as int]@);
            if text::same(self.queue[i].target.as_str(), target) {
                proof {
                    tables::lemma_first_at(all, for_target(target@), i as int);
                }
                return Some(self.queue[i].clone());
            }
            i = i + 1;
        }
        proof {
            tables::lemma_first_none(all, for_target(target@));
        }
        None
    }

    /// Takes a request out of the queue.
    pub fn leave_publish_queue(&mut self, request_id: &str)
        ensures
            final(self)@ == (StoreState {
                queue: tables::kept(old(self)@.queue, rows::not_queue_entry(request_id@)),
                ..old(self)@
            }),
    {
        let ghost before = self@;
        rows::drop_queue_entry(&mut self.queue, request_id);
        assert(self@ =~= (StoreState {
            queue: tables::kept(before.queue, rows::not_queue_entry(request_id@)),
            ..before
        }));
    }
}

/// A request that enters stands behind every other for its target: the first
/// stays the first, and the new one comes first only where there was none.
pub proof fn law_queue_is_fair(
    state: StoreState,
    request_id: Text,
    target: Text,
    pid: u32,
    now: Text,
)
    ensures
        head_of(queued(state, request_id, target, pid, now), target) == (match head_of(
            state,
            target,
        ) {
            Some(head) => Some(head),
            None => Some(
                QueueEntry {
                    ticket: store::next_number(state.last_ticket),
                    request_id,
                    target,
                    pid,
                    created_at: now,
                },
            ),
        }),
{
    let entry = QueueEntry {
        ticket: store::next_number(state.last_ticket),
        request_id,
        target,
        pid,
        created_at: now,
    };
    tables::lemma_first_push(state.queue, entry, for_target(target));
    tables::lemma_first(state.queue, for_target(target));
}

/// Recovery keeps the World, its history, every Checkpoint and every
/// Contribution.
pub proof fn law_recovery_keeps_history(
    state: StoreState,
    alive: Seq<u32>,
    markers: Map<Text, Text>,
    now: Text,
)
    ensures
        ({
            let after = recovered(state, alive, markers, now);
            &&& after.world == state.world
            &&& after.versions == state.versions
            &&& after.checkpoints == state.checkpoints
            &&& after.contributions == state.contributions
            &&& after.layers.len() == state.layers.len()
            &&& forall|i: int|
                0 <= i < state.layers.len() ==> (#[trigger] after.layers[i]).head_checkpoint
                    == state.layers[i].head_checkpoint
        }),
{
}

/// Recovery puts right what an interrupted process left behind: a Layer that was
/// being published is active again, a Claim whose time is over is released, a
/// request of a process that is gone leaves the queue, and a view whose marker
/// does not name its Layer is to be repaired. Whatever is in order stays.
pub proof fn law_recovery_puts_right(
    state: StoreState,
    alive: Seq<u32>,
    markers: Map<Text, Text>,
    now: Text,
)
    ensures
        ({
            let after = recovered(state, alive, markers, now);
            &&& after.layers.len() == state.layers.len()
            &&& forall|i: int|
                0 <= i < state.layers.len() ==> #[trigger] after.layers[i] == (Layer {
                    status: if state.layers[i].status == LayerStatus::Publishing {
                        LayerStatus::Active
                    } else {
                        state.layers[i].status
                    },
                    ..state.layers[i]
                })
            &&& after.claims.len() == state.claims.len()
            &&& forall|i: int|
                0 <= i < state.claims.len() ==> #[trigger] after.claims[i] == (
                if state.claims[i].released_at is None && !text::text_less(
                    now,
                    state.claims[i].expires_at,
                ) {
                    crate::records::Claim { released_at: Some(now), ..state.claims[i] }
                } else {
                    state.claims[i]
                })
            &&& forall|row: QueueEntry<Text>| #[trigger]
                after.queue.contains(row) <==> state.queue.contains(row) && alive.contains(row.pid)
            &&& after.views.len() == state.views.len()
            &&& forall|i: int|
                0 <= i < state.views.len() && markers.contains_key((#[trigger]
                state.views[i]).layer_id) && markers[state.views[i].layer_id]
                    == state.views[i].layer_id ==> after.views[i] == state.views[i]
            &&& forall|i: int|
                0 <= i < state.views.len() && (#[trigger] state.views[i]).layer_id == "local"@
                    ==> after.views[i] == state.views[i]
        }),
{
    let after = recovered(state, alive, markers, now);
    tables::lemma_kept(state.queue, of_running(alive));
    assert forall|i: int|
        0 <= i < state.views.len() && (#[trigger] state.views[i]).layer_id == "local"@ implies after.views[i]
        == state.views[i] by {
        tables::lemma_first(after.layers, has_marked_view("local"@));
    }
}

/// A view is to be repaired where its Layer is open, is not the Local Layer, and
/// no marker in the view names the Layer.
pub proof fn law_unmarked_view_is_repaired(
    state: StoreState,
    alive: Seq<u32>,
    markers: Map<Text, Text>,
    now: Text,
    i: int,
    k: int,
)
    requires
        0 <= i < state.views.len(),
        0 <= k < state.layers.len(),
        state.layers[k].id == state.views[i].layer_id,
        state.layers[k].status != LayerStatus::Discarded,
        state.layers[k].id != "local"@,
        !(markers.contains_key(state.views[i].layer_id) && markers[state.views[i].layer_id]
            == state.views[i].layer_id),
    ensures
        recovered(state, alive, markers, now).views[i].stale,
        recovered(state, alive, markers, now).views[i].backend == "repair_required"@,
        recovered(state, alive, markers, now).views[i].path == state.views[i].path,
        recovered(state, alive, markers, now).views[i].materialized_ref
            == state.views[i].materialized_ref,
{
    let layers = recovered(state, alive, markers, now).layers;
    let id = state.views[i].layer_id;
    assert(has_marked_view(id)(layers[k]));
    tables::lemma_any(layers, has_marked_view(id), k);
}

/// A request takes its turn: only the first one tries for the lease, and one
/// that is not first waits, unless the first was abandoned by its process or has
/// waited too long.
pub proof fn law_requests_take_turns(
    head: Option<QueueEntry<Text>>,
    request_id: Text,
    head_runs: bool,
    head_expired: bool,
)
    ensures
        queue_step_of(head, request_id, head_runs, head_expired) == QueueStep::TryLease <==> head
            is Some && head->Some_0.request_id == request_id,
        queue_step_of(head, request_id, head_runs, head_expired) == QueueStep::RemoveHead
            <==> head is Some && head->Some_0.request_id != request_id && (!head_runs
            || head_expired),
        queue_step_of(head, request_id, head_runs, head_expired) == QueueStep::Wait <==> head
            is None || head->Some_0.request_id != request_id && head_runs && !head_expired,
{
}

/// A request may wait five minutes to the nanosecond; one whose time cannot be
/// read has waited too long.
pub proof fn law_requests_expire_after_five_minutes(seconds: i64, nanos: i32)
    ensures
        too_old(None),
        seconds < 300 ==> !too_old(Some((seconds, nanos))),
        seconds > 300 ==> too_old(Some((seconds, nanos))),
        too_old(Some((300, nanos))) <==> nanos > 0,
        TEMP_GRACE_SECONDS == 3600,
{
}

/// The first request for a target is the earliest of them, whatever requests for
/// other targets stand before it.
pub proof fn law_targets_queue_apart(state: StoreState, target: Text)
    ensures
        match head_of(state, target) {
            Some(head) => exists|i: int|
                0 <= i < state.queue.len() && #[trigger] state.queue[i] == head && head.target
                    == target && forall|j: int|
                    0 <= j < i ==> (#[trigger] state.queue[j]).target != target,
            None => forall|i: int|
                0 <= i < state.queue.len() ==> (#[trigger] state.queue[i]).target != target,
        },
{
    tables::lemma_first(state.queue, for_target(target));
    if let Some(i) = tables::first(state.queue, for_target(target)) {
        assert(state.queue[i] == head_of(state, target)->Some_0);
        assert forall|j: int| 0 <= j < i implies (#[trigger] state.queue[j]).target != target by {
            assert(!for_target(target)(state.queue[j]));
        }
    }
}

/// A process owns the store exactly where its Monitor was noted and runs.
pub proof fn law_only_a_running_monitor_owns(monitor: Option<u32>, alive: Seq<u32>)
    ensures
        monitor is None ==> !monitor_runs(monitor, alive),
        monitor is Some ==> (monitor_runs(monitor, alive) <==> alive.contains(monitor->Some_0)),
{
}

/// A file with a process number names the process whose number it holds, with
/// white space around it or none; anything else names none.
pub proof fn law_process_file_names_its_process(content: Text, pid: nat)
    requires
        pid <= u32::MAX,
    ensures
        text::trimmed(content) == text::decimal(pid) ==> named_process(content) == Some(pid),
        text::trimmed(content).len() == 0 ==> named_process(content) is None,
{
    search::law_decimal_round_trip(pid, u32::MAX as nat);
    if text::trimmed(content).len() == 0 {
        assert(text::trimmed(content) =~= Seq::empty());
        search::law_digits_spell_numbers(Seq::empty(), '0', u32::MAX as nat);
    }
}

/// A leftover file is abandoned once it is as old as the grace given to it, and
/// one of unknown age never is. A Publish waits less than five minutes for its
/// turn.
pub proof fn law_leftovers_and_waits_end(
    age: Option<u64>,
    grace: u64,
    abandoned: bool,
    waited: u64,
    turn: Result<()>,
)
    requires
        call_ensures(temp_is_abandoned, (age, grace), abandoned),
        call_ensures(wait_in_queue, (waited,), turn),
    ensures
        age is None ==> !abandoned,
        age is Some ==> (abandoned <==> grace <= age->Some_0),
        turn is Ok <==> waited < 300,
        turn is Err ==> turn->Err_0@.code == "RESOURCE_BUSY"@,
{
}

} // verus!
