//! Garbage collection: what its time is over goes, and then every object that
//! nothing refers to.
use vstd::prelude::*;
use crate::clock;
use crate::commands::reachability;
use crate::commands::reachability::Reached;
use crate::config;
use crate::config::Config;
use crate::error::{Failure, JavelinError, Result};
use crate::files::{FilesState, ObjectFiles};
use crate::json;
use crate::json::{Json, JsonValue};
use crate::ordered;
use crate::ordered::PathMap;
use crate::records::{DiscardRecord, ObjectRecord, Session};
use crate::store;
use crate::store::{claims, layers, provenance, rows, Store, StoreState};
use crate::tables;
use crate::text;
use crate::text::Text;

verus! {

/// The identities of sessions.
pub open spec fn session_ids(sessions: Seq<Session<Text>>) -> Seq<Text> {
    Seq::new(sessions.len(), |i: int| sessions[i].id)
}

/// The Layers of retention records.
pub open spec fn retained_layers(records: Seq<DiscardRecord<Text>>) -> Seq<Text> {
    Seq::new(records.len(), |i: int| records[i].layer_id)
}

/// The sessions whose content is over its time.
pub open spec fn expired_sessions(state: StoreState, cutoff: Text) -> Seq<Text> {
    session_ids(
        tables::in_order::<Session>(
            tables::kept(state.sessions, provenance::expired(state, cutoff)),
        ),
    )
}

/// The discarded Layers that are over their time.
pub open spec fn expired_layers(state: StoreState, now: Text) -> Seq<Text> {
    retained_layers(
        tables::in_order::<DiscardRecord>(
            tables::kept(state.discards, layers::retention_over(now)),
        ),
    )
}

/// The store after the content of sessions is purged, one after another, and
/// what stopped it, if something did.
pub open spec fn sessions_purged(state: StoreState, ids: Seq<Text>, now: Text) -> (
    StoreState,
    Option<Failure>,
)
    decreases ids.len(),
{
    if ids.len() == 0 {
        (state, None)
    } else {
        let before = sessions_purged(state, ids.drop_last(), now);
        match before.1 {
            Some(_) => before,
            None => match provenance::purge_outcome(before.0, ids.last(), now) {
                Ok(after) => (after, None),
                Err(failure) => (before.0, Some(failure)),
            },
        }
    }
}

/// How far the purge of Layers came.
#[verifier::ext_equal]
pub struct Sweep {
    pub state: StoreState,
    pub purged: Seq<Text>,
    /// The Layers that still have children.
    pub waiting: Seq<Text>,
    pub failure: Option<Failure>,
}

/// One pass over Layers: those without children are purged.
pub open spec fn sweep_once(state: StoreState, ids: Seq<Text>) -> Sweep
    decreases ids.len(),
{
    if ids.len() == 0 {
        Sweep { state, purged: Seq::empty(), waiting: Seq::empty(), failure: None }
    } else {
        let before = sweep_once(state, ids.drop_last());
        let id = ids.last();
        if before.failure is Some {
            before
        } else if tables::any(before.state.layers, store::child_of(id, true)) {
            Sweep { waiting: before.waiting.push(id), ..before }
        } else {
            match layers::purge_outcome(before.state, id) {
                Ok(after) => Sweep { state: after, purged: before.purged.push(id), ..before },
                Err(failure) => Sweep { failure: Some(failure), ..before },
            }
        }
    }
}

/// Passes over Layers until none is left, or a pass purges none.
pub open spec fn sweep(state: StoreState, ids: Seq<Text>, purged: Seq<Text>) -> Sweep
    decreases ids.len(),
{
    let once = sweep_once(state, ids);
    if ids.len() == 0 {
        Sweep { state, purged, waiting: ids, failure: None }
    } else if once.failure is Some || once.waiting.len() >= ids.len() {
        Sweep { purged: purged + once.purged, ..once }
    } else {
        sweep(once.state, once.waiting, purged + once.purged)
    }
}

/// What garbage collection takes away before it looks at objects.
#[verifier::ext_equal]
pub struct Cleaning {
    pub state: StoreState,
    pub sessions: Seq<Text>,
    pub layers: Seq<Text>,
    pub claims: nat,
    pub failure: Option<Failure>,
}

/// What is over its time is taken away: Claims, then the content of sessions,
/// then discarded Layers.
pub open spec fn cleaned(state: StoreState, trace_cutoff: Text, now: Text) -> Cleaning {
    let sessions = expired_sessions(state, trace_cutoff);
    let unclaimed = StoreState {
        claims: tables::changed(state.claims, rows::expire_claims_change(now)),
        ..state
    };
    let claims = tables::count(state.claims, claims::due(now));
    let purged = sessions_purged(unclaimed, sessions, now);
    if purged.1 is Some {
        Cleaning { state: purged.0, sessions, layers: Seq::empty(), claims, failure: purged.1 }
    } else {
        let swept = sweep(purged.0, expired_layers(state, now), Seq::empty());
        Cleaning {
            state: swept.state,
            sessions,
            layers: swept.purged,
            claims,
            failure: swept.failure,
        }
    }
}

/// An object that nothing refers to.
pub open spec fn not_reached(reached: Set<Text>) -> spec_fn(Text) -> bool {
    |id: Text| !reached.contains(id)
}

/// The records of objects without some of them.
pub open spec fn without_objects(
    records: Seq<ObjectRecord<Text>>,
    ids: Seq<Text>,
) -> Seq<ObjectRecord<Text>>
    decreases ids.len(),
{
    if ids.len() == 0 {
        records
    } else {
        tables::kept(without_objects(records, ids.drop_last()), rows::not_object(ids.last()))
    }
}

/// What garbage collection found and did.
#[derive(Debug)]
pub struct GcReport {
    pub dry_run: bool,
    pub reachable: usize,
    pub unreachable: Vec<String>,
    pub layers: Vec<String>,
    pub sessions: Vec<String>,
    pub claims_expired: usize,
}

/// The mathematical value of a [`GcReport`].
#[verifier::ext_equal]
pub struct GcResult {
    pub dry_run: bool,
    pub reachable: nat,
    pub unreachable: Seq<Text>,
    pub layers: Seq<Text>,
    pub sessions: Seq<Text>,
    pub claims_expired: nat,
}

impl View for GcReport {
    type V = GcResult;

    open spec fn view(&self) -> GcResult {
        GcResult {
            dry_run: self.dry_run,
            reachable: self.reachable as nat,
            unreachable: self.unreachable.deep_view(),
            layers: self.layers.deep_view(),
            sessions: self.sessions.deep_view(),
            claims_expired: self.claims_expired as nat,
        }
    }
}

/// The event that garbage collection leaves.
pub open spec fn gc_payload(result: GcResult) -> JsonValue {
    JsonValue::object().field(
        "objects_removed"@,
        JsonValue::Number(text::decimal(result.unreachable.len())),
    ).field(
        "discarded_layers_purged"@,
        JsonValue::Array(json::text_values(result.layers)),
    ).field(
        "provenance_sessions_purged"@,
        JsonValue::Array(json::text_values(result.sessions)),
    ).field("claims_expired"@, JsonValue::Number(text::decimal(result.claims_expired)))
}

/// What garbage collection gives over the store as it is.
pub open spec fn gc_result(
    reached: Reached,
    ids: Seq<Text>,
    dry_run: bool,
    layers: Seq<Text>,
    sessions: Seq<Text>,
    claims: nat,
) -> GcResult {
    GcResult {
        dry_run,
        reachable: reached.all().len(),
        unreachable: tables::kept(ids, not_reached(reached.all())),
        layers,
        sessions,
        claims_expired: claims,
    }
}

/// The store after garbage collection, and what it found. A dry run leaves the
/// store as it is.
pub open spec fn gc_outcome(
    state: StoreState,
    files: FilesState,
    ids: Seq<Text>,
    trace_cutoff: Text,
    dry_run: bool,
    now: Text,
) -> (StoreState, std::result::Result<GcResult, Failure>) {
    if dry_run {
        match reachability::reachability_outcome(state, files) {
            Err(failure) => (state, Err(failure)),
            Ok(reached) => (
                state,
                Ok(
                    gc_result(
                        reached,
                        ids,
                        true,
                        expired_layers(state, now),
                        expired_sessions(state, trace_cutoff),
                        0,
                    ),
                ),
            ),
        }
    } else {
        let clean = cleaned(state, trace_cutoff, now);
        match clean.failure {
            Some(failure) => (clean.state, Err(failure)),
            None => match reachability::reachability_outcome(clean.state, files) {
                Err(failure) => (clean.state, Err(failure)),
                Ok(reached) => {
                    let result = gc_result(
                        reached,
                        ids,
                        false,
                        clean.layers,
                        clean.sessions,
                        clean.claims,
                    );
                    (collected(clean.state, result, now), Ok(result))
                },
            },
        }
    }
}

/// The store without the objects that were found unreachable.
pub open spec fn collected(state: StoreState, result: GcResult, now: Text) -> StoreState {
    StoreState {
        object_metadata: without_objects(state.object_metadata, result.unreachable),
        ..state
    }.with_event("gc.completed"@, Some("world"@), None, gc_payload(result), now)
}

fn ids_of_sessions(sessions: &Vec<Session>) -> (r: Vec<String>)
    ensures
        r.deep_view() == session_ids(sessions.deep_view()),
{
    let mut out: Vec<String> = Vec::new();
    let mut i: usize = 0;
    while i < sessions.len()
        invariant
            i <= sessions@.len(),
            out@.len() == i,
            forall|j: int| 0 <= j < i ==> (#[trigger] out@[j])@ == sessions@[j]@.id,
        decreases sessions@.len() - i,
    {
        out.push(sessions[i].id.clone());
        i = i + 1;
    }
    assert(out.deep_view() =~= session_ids(sessions.deep_view()));
    out
}

fn ids_of_layers(records: &Vec<DiscardRecord>) -> (r: Vec<String>)
    ensures
        r.deep_view() == retained_layers(records.deep_view()),
{
    let mut out: Vec<String> = Vec::new();
    let mut i: usize = 0;
    while i < records.len()
        invariant
            i <= records@.len(),
            out@.len() == i,
            forall|j: int| 0 <= j < i ==> (#[trigger] out@[j])@ == records@[j]@.layer_id,
        decreases records@.len() - i,
    {
        out.push(records[i].layer_id.clone());
        i = i + 1;
    }
    assert(out.deep_view() =~= retained_layers(records.deep_view()));
    out
}

proof fn lemma_sessions_stop(state: StoreState, ids: Seq<Text>, now: Text, i: int)
    requires
        0 <= i <= ids.len(),
        sessions_purged(state, ids.take(i), now).1 is Some,
    ensures
        sessions_purged(state, ids, now) == sessions_purged(state, ids.take(i), now),
    decreases ids.len() - i,
{
    if i < ids.len() {
        assert(ids.take(i + 1).drop_last() =~= ids.take(i));
        lemma_sessions_stop(state, ids, now, i + 1);
    } else {
        assert(ids.take(i) =~= ids);
    }
}

fn purge_sessions(store: &mut Store, ids: &Vec<String>, now: &str) -> (r: Result<()>)
    ensures
        ({
            let outcome = sessions_purged(old(store)@, ids.deep_view(), now@);
            &&& final(store)@ == outcome.0
            &&& match outcome.1 {
                Some(failure) => r is Err && r->Err_0@ == failure,
                None => r is Ok,
            }
        }),
{
    let ghost state = store@;
    let ghost all = ids.deep_view();
    let mut i: usize = 0;
    assert(all.take(0) =~= Seq::empty());
    while i < ids.len()
        invariant
            i <= ids@.len(),
            all == ids.deep_view(),
            state == old(store)@,
            sessions_purged(state, all.take(i as int), now@) == (store@, None::<Failure>),
        decreases ids@.len() - i,
    {
        proof {
            assert(all.take(i as int + 1).drop_last() =~= all.take(i as int));
            assert(all.take(i as int + 1).last() == ids@[i as int]@);
            if sessions_purged(state, all.take(i as int + 1), now@).1 is Some {
                lemma_sessions_stop(state, all, now@, i as int + 1);
            }
        }
        store.purge_provenance_at(ids[i].as_str(), now)?;
        i = i + 1;
    }
    assert(all.take(i as int) =~= all);
    Ok(())
}

proof fn lemma_sweep_stop(state: StoreState, ids: Seq<Text>, i: int)
    requires
        0 <= i <= ids.len(),
        sweep_once(state, ids.take(i)).failure is Some,
    ensures
        sweep_once(state, ids) == sweep_once(state, ids.take(i)),
    decreases ids.len() - i,
{
    if i < ids.len() {
        assert(ids.take(i + 1).drop_last() =~= ids.take(i));
        lemma_sweep_stop(state, ids, i + 1);
    } else {
        assert(ids.take(i) =~= ids);
    }
}

fn sweep_pass(
    store: &mut Store,
    ids: &Vec<String>,
    purged: &mut Vec<String>,
    waiting: &mut Vec<String>,
) -> (r: Result<()>)
    requires
        old(waiting)@.len() == 0,
    ensures
        ({
            let once = sweep_once(old(store)@, ids.deep_view());
            &&& final(store)@ == once.state
            &&& final(purged).deep_view() == old(purged).deep_view() + once.purged
            &&& final(waiting).deep_view() == once.waiting
            &&& match once.failure {
                Some(failure) => r is Err && r->Err_0@ == failure,
                None => r is Ok,
            }
        }),
{
    let ghost state = store@;
    let ghost all = ids.deep_view();
    let ghost earlier = purged.deep_view();
    let mut i: usize = 0;
    assert(all.take(0) =~= Seq::empty());
    assert(earlier + Seq::<Text>::empty() =~= earlier);
    assert(waiting.deep_view() =~= Seq::empty());
    while i < ids.len()
        invariant
            i <= ids@.len(),
            all == ids.deep_view(),
            state == old(store)@,
            earlier == old(purged).deep_view(),
            sweep_once(state, all.take(i as int)).state == store@,
            sweep_once(state, all.take(i as int)).failure is None,
            waiting.deep_view() == sweep_once(state, all.take(i as int)).waiting,
            purged.deep_view() == earlier + sweep_once(state, all.take(i as int)).purged,
        decreases ids@.len() - i,
    {
        let ghost before = sweep_once(state, all.take(i as int));
        let id = ids[i].as_str();
        proof {
            assert(all.take(i as int + 1).drop_last() =~= all.take(i as int));
            assert(all.take(i as int + 1).last() == id@);
            if sweep_once(state, all.take(i as int + 1)).failure is Some {
                lemma_sweep_stop(state, all, i as int + 1);
            }
        }
        if store.has_child(id) {
            let ghost was = waiting.deep_view();
            waiting.push(id.to_owned());
            assert(waiting.deep_view() =~= was.push(id@));
        } else {
            store.purge_layer(id)?;
            let ghost was = purged.deep_view();
            purged.push(id.to_owned());
            assert(purged.deep_view() =~= was.push(id@));
            assert((earlier + before.purged).push(id@) =~= earlier + before.purged.push(id@));
        }
        i = i + 1;
    }
    assert(all.take(i as int) =~= all);
    Ok(())
}

/// Purges discarded Layers, children before their parents.
pub fn sweep_layers(store: &mut Store, ids: Vec<String>, purged: &mut Vec<String>) -> (r: Result<
    (),
>)
    ensures
        ({
            let outcome = sweep(old(store)@, ids.deep_view(), old(purged).deep_view());
            &&& final(store)@ == outcome.state
            &&& final(purged).deep_view() == outcome.purged
            &&& match outcome.failure {
                Some(failure) => r is Err && r->Err_0@ == failure,
                None => r is Ok,
            }
        }),
    decreases ids@.len(),
{
    if ids.len() == 0 {
        return Ok(());
    }
    let mut waiting: Vec<String> = Vec::new();
    sweep_pass(store, &ids, purged, &mut waiting)?;
    if waiting.len() >= ids.len() {
        return Ok(());
    }
    sweep_layers(store, waiting, purged)
}

fn unreachable_of(ids: &Vec<String>, reached: &PathMap<()>) -> (r: Vec<String>)
    requires
        reached.wf(),
    ensures
        r.deep_view() == tables::kept(ids.deep_view(), not_reached(reached@.dom())),
{
    let ghost all = ids.deep_view();
    let mut out: Vec<String> = Vec::new();
    let mut i: usize = 0;
    assert(all.take(0) =~= Seq::empty());
    assert(out.deep_view() =~= Seq::empty());
    while i < ids.len()
        invariant
            i <= ids@.len(),
            all == ids.deep_view(),
            reached.wf(),
            out.deep_view() == tables::kept(all.take(i as int), not_reached(reached@.dom())),
        decreases ids@.len() - i,
    {
        let ghost before = out.deep_view();
        let id = ids[i].as_str();
        proof {
            assert(all.take(i as int + 1).drop_last() =~= all.take(i as int));
            assert(all.take(i as int + 1).last() == id@);
        }
        if !reached.contains(id) {
            out.push(id.to_owned());
            assert(out.deep_view() =~= before.push(id@));
        }
        i = i + 1;
    }
    assert(all.take(i as int) =~= all);
    out
}

fn drop_objects(records: &mut Vec<ObjectRecord>, ids: &Vec<String>)
    ensures
        final(records).deep_view() == without_objects(old(records).deep_view(), ids.deep_view()),
{
    let ghost before = records.deep_view();
    let ghost all = ids.deep_view();
    let mut i: usize = 0;
    assert(all.take(0) =~= Seq::empty());
    while i < ids.len()
        invariant
            i <= ids@.len(),
            all == ids.deep_view(),
            records.deep_view() == without_objects(before, all.take(i as int)),
        decreases ids@.len() - i,
    {
        proof {
            assert(all.take(i as int + 1).drop_last() =~= all.take(i as int));
            assert(all.take(i as int + 1).last() == ids@[i as int]@);
        }
        rows::drop_object(records, ids[i].as_str());
        i = i + 1;
    }
    assert(all.take(i as int) =~= all);
}

fn report_of(
    reached: &PathMap<()>,
    ids: &Vec<String>,
    dry_run: bool,
    layers: Vec<String>,
    sessions: Vec<String>,
    claims_expired: usize,
    Ghost(set): Ghost<Reached>,
) -> (r: GcReport)
    requires
        reached.wf(),
        reached@.dom() == set.all(),
    ensures
        r@ == gc_result(
            set,
            ids.deep_view(),
            dry_run,
            layers.deep_view(),
            sessions.deep_view(),
            claims_expired as nat,
        ),
{
    proof {
        ordered::lemma_key_count(reached.pairs());
    }
    let unreachable = unreachable_of(ids, reached);
    GcReport {
        dry_run,
        reachable: reached.len(),
        unreachable,
        layers,
        sessions,
        claims_expired,
    }
}

impl GcReport {
    /// The payload of the event that garbage collection leaves.
    pub fn payload(&self) -> (r: Json)
        ensures
            r@ == gc_payload(self@),
    {
        Json::empty().with(
            "objects_removed",
            Json::Number(text::number(self.unreachable.len() as u64)),
        ).with("discarded_layers_purged", Json::texts(&self.layers)).with(
            "provenance_sessions_purged",
            Json::texts(&self.sessions),
        ).with("claims_expired", Json::Number(text::number(self.claims_expired as u64)))
    }

    /// What the command shows.
    pub fn json(&self) -> (r: Json)
        ensures
            r@ == JsonValue::object().field("dry_run"@, JsonValue::Bool(self@.dry_run)).field(
                "reachable"@,
                JsonValue::Number(text::decimal(self@.reachable)),
            ).field(
                "unreachable"@,
                JsonValue::Array(json::text_values(self@.unreachable)),
            ).field(
                "expired_discarded_layers"@,
                JsonValue::Array(json::text_values(self@.layers)),
            ).field(
                "expired_provenance_sessions"@,
                JsonValue::Array(json::text_values(self@.sessions)),
            ).field(
                "claims_expired"@,
                JsonValue::Number(text::decimal(self@.claims_expired)),
            ),
    {
        Json::empty().with("dry_run", Json::Bool(self.dry_run)).with(
            "reachable",
            Json::Number(text::number(self.reachable as u64)),
        ).with("unreachable", Json::texts(&self.unreachable)).with(
            "expired_discarded_layers",
            Json::texts(&self.layers),
        ).with("expired_provenance_sessions", Json::texts(&self.sessions)).with(
            "claims_expired",
            Json::Number(text::number(self.claims_expired as u64)),
        )
    }

    /// What the command says.
    pub fn human(&self) -> (r: String)
        ensures
            r@ == text::decimal(self@.unreachable.len()) + " unreachable objects"@ + (
            if self@.dry_run {
                " (dry run)"@
            } else {
                " removed"@
            }),
    {
        text::concat3(
            text::number(self.unreachable.len() as u64).as_str(),
            " unreachable objects",
            if self.dry_run {
                " (dry run)"
            } else {
                " removed"
            },
        )
    }
}

/// Collects garbage at a given time. `ids` are the objects that are stored and
/// `trace_cutoff` the time before which the content of sessions goes.
pub fn gc_at(
    store: &mut Store,
    files: &ObjectFiles,
    ids: &Vec<String>,
    trace_cutoff: &str,
    dry_run: bool,
    now: &str,
) -> (r: Result<GcReport>)
    requires
        files.wf(),
    ensures
        ({
            let outcome = gc_outcome(
                old(store)@,
                files@,
                ids.deep_view(),
                trace_cutoff@,
                dry_run,
                now@,
            );
            &&& final(store)@ == outcome.0
            &&& match outcome.1 {
                Ok(result) => r is Ok && r->Ok_0@ == result,
                Err(failure) => r is Err && r->Err_0@ == failure,
            }
        }),
{
    let sessions = ids_of_sessions(&store.expired_provenance_sessions(trace_cutoff));
    let expired = ids_of_layers(&store.expired_discarded_layers(now));
    if dry_run {
        let reachability = reachability::collect_reachability(store, files)?;
        let reached = reachability.all();
        return Ok(
            report_of(&reached, ids, true, expired, sessions, 0, Ghost(reachability@)),
        );
    }
    let claims_expired: usize = store.expire_claims(now);
    purge_sessions(store, &sessions, now)?;
    let mut purged: Vec<String> = Vec::new();
    assert(purged.deep_view() =~= Seq::<Text>::empty());
    sweep_layers(store, expired, &mut purged)?;
    let reachability = reachability::collect_reachability(store, files)?;
    let reached = reachability.all();
    let report = report_of(
        &reached,
        ids,
        false,
        purged,
        sessions,
        claims_expired,
        Ghost(reachability@),
    );
    let ghost before = store@;
    drop_objects(&mut store.object_metadata, &report.unreachable);
    store.append_event_at("gc.completed", Some("world"), None, report.payload(), now);
    assert(store@ =~= collected(before, report@, now@));
    Ok(report)
}

/// What collecting garbage gives where the content of sessions is kept for a
/// number of days.
pub open spec fn gc_for_outcome(
    state: StoreState,
    files: FilesState,
    ids: Seq<Text>,
    days: u64,
    dry_run: bool,
    now: Text,
) -> (StoreState, std::result::Result<GcResult, Failure>) {
    match config::days_from(now, -(days as int), "retention.raw_trace_days"@) {
        Err(failure) => (state, Err(failure)),
        Ok(cutoff) => gc_outcome(state, files, ids, cutoff, dry_run, now),
    }
}

/// Collects garbage at a given time. The content of sessions goes once they are
/// older than a number of days.
pub fn gc_for(
    store: &mut Store,
    files: &ObjectFiles,
    ids: &Vec<String>,
    days: u64,
    dry_run: bool,
    now: &str,
) -> (r: Result<GcReport>)
    requires
        files.wf(),
    ensures
        ({
            let outcome = gc_for_outcome(
                old(store)@,
                files@,
                ids.deep_view(),
                days,
                dry_run,
                now@,
            );
            &&& final(store)@ == outcome.0
            &&& match outcome.1 {
                Ok(result) => r is Ok && r->Ok_0@ == result,
                Err(failure) => r is Err && r->Err_0@ == failure,
            }
        }),
{
    let cutoff = config::days_before(now, days, "retention.raw_trace_days")?;
    gc_at(store, files, ids, cutoff.as_str(), dry_run, now)
}

/// Collects garbage. The content of sessions goes once they are older than the
/// configured number of days.
pub fn gc(
    store: &mut Store,
    files: &ObjectFiles,
    ids: &Vec<String>,
    config: &Config,
    dry_run: bool,
) -> (r: Result<GcReport>)
    requires
        files.wf(),
    ensures
        exists|now: Text|
            {
                let outcome = #[trigger] gc_for_outcome(
                    old(store)@,
                    files@,
                    ids.deep_view(),
                    config.retention.raw_trace_days,
                    dry_run,
                    now,
                );
                &&& clock::is_stamp(now)
                &&& final(store)@ == outcome.0
                &&& match outcome.1 {
                    Ok(result) => r is Ok && r->Ok_0@ == result,
                    Err(failure) => r is Err && r->Err_0@ == failure,
                }
            },
{
    let now = clock::now();
    gc_for(store, files, ids, config.retention.raw_trace_days, dry_run, now.as_str())
}

proof fn lemma_kept_member<A>(rows: Seq<A>, wanted: spec_fn(A) -> bool, row: A)
    ensures
        tables::kept(rows, wanted).contains(row) <==> rows.contains(row) && wanted(row),
    decreases rows.len(),
{
    if rows.len() > 0 {
        lemma_kept_member(rows.drop_last(), wanted, row);
        let before = tables::kept(rows.drop_last(), wanted);
        assert(rows =~= rows.drop_last().push(rows.last()));
        if before.contains(row) {
            let i = choose|i: int| 0 <= i < before.len() && before[i] == row;
            assert(before.push(rows.last())[i] == row);
        }
        if wanted(rows.last()) {
            assert(before.push(rows.last())[before.len() as int] == rows.last());
        }
        if rows.drop_last().contains(row) {
            let i = choose|i: int|
                0 <= i < rows.drop_last().len() && rows.drop_last()[i] == row;
            assert(rows[i] == row);
        }
        assert(rows[rows.len() - 1] == rows.last());
    }
}

/// Garbage collection removes an object only where nothing in the store that
/// it leaves refers to it.
pub proof fn law_gc_keeps_what_is_reached(
    state: StoreState,
    files: FilesState,
    ids: Seq<Text>,
    cutoff: Text,
    now: Text,
    id: Text,
)
    requires
        gc_outcome(state, files, ids, cutoff, false, now).1 is Ok,
    ensures
        ({
            let clean = cleaned(state, cutoff, now).state;
            let result = gc_outcome(state, files, ids, cutoff, false, now).1->Ok_0;
            &&& reachability::reachability_outcome(clean, files) is Ok
            &&& result.unreachable.contains(id) <==> ids.contains(id)
                && !reachability::reachability_outcome(clean, files)->Ok_0.all().contains(id)
        }),
{
    let clean = cleaned(state, cutoff, now).state;
    let reached = reachability::reachability_outcome(clean, files)->Ok_0;
    lemma_kept_member(ids, not_reached(reached.all()), id);
}

/// Raw provenance is kept for its days: a collection takes the content of
/// sessions only that did not begin after the cutoff, which lies the days before
/// the present.
pub proof fn law_recent_provenance_is_kept(
    state: StoreState,
    files: FilesState,
    ids: Seq<Text>,
    days: u64,
    dry_run: bool,
    now: Text,
    k: int,
)
    requires
        gc_for_outcome(state, files, ids, days, dry_run, now).1 is Ok,
        0 <= k < gc_for_outcome(state, files, ids, days, dry_run, now).1->Ok_0.sessions.len(),
    ensures
        ({
            let cutoff = clock::later(now, -(days * 86400))->Some_0;
            let taken = gc_for_outcome(state, files, ids, days, dry_run, now).1->Ok_0.sessions;
            exists|session: Session<Text>| #[trigger]
                state.sessions.contains(session) && session.id == taken[k] && !text::text_less(
                    cutoff,
                    session.started_at,
                )
        }),
{
    let cutoff = clock::later(now, -(days * 86400))->Some_0;
    let over = tables::kept(state.sessions, provenance::expired(state, cutoff));
    let session = tables::in_order::<Session>(over)[k];
    tables::lemma_in_order::<Session>(over, k);
    lemma_kept_member(state.sessions, provenance::expired(state, cutoff), session);
    assert(state.sessions.contains(session));
}

/// Discarded Layers are kept until their retention is over: a collection looks
/// at those only whose retention ends at the present or before.
pub proof fn law_retained_layers_are_kept(state: StoreState, now: Text, k: int)
    requires
        0 <= k < expired_layers(state, now).len(),
    ensures
        exists|record: DiscardRecord<Text>| #[trigger]
            state.discards.contains(record) && record.layer_id == expired_layers(state, now)[k]
                && !text::text_less(now, record.purge_after),
{
    let over = tables::kept(state.discards, layers::retention_over(now));
    let record = tables::in_order::<DiscardRecord>(over)[k];
    tables::lemma_in_order::<DiscardRecord>(over, k);
    lemma_kept_member(state.discards, layers::retention_over(now), record);
    assert(state.discards.contains(record));
}

proof fn lemma_sessions_purged_keeps(state: StoreState, ids: Seq<Text>, now: Text)
    ensures
        ({
            let after = sessions_purged(state, ids, now).0;
            after.world == state.world && after.versions == state.versions
                && after.contributions.len() == state.contributions.len()
        }),
    decreases ids.len(),
{
    if ids.len() > 0 {
        lemma_sessions_purged_keeps(state, ids.drop_last(), now);
    }
}

proof fn lemma_sweep_once_keeps(state: StoreState, ids: Seq<Text>)
    ensures
        ({
            let after = sweep_once(state, ids).state;
            after.world == state.world && after.versions == state.versions
                && after.contributions.len() == state.contributions.len()
        }),
    decreases ids.len(),
{
    if ids.len() > 0 {
        lemma_sweep_once_keeps(state, ids.drop_last());
    }
}

proof fn lemma_sweep_keeps(state: StoreState, ids: Seq<Text>, purged: Seq<Text>)
    ensures
        ({
            let after = sweep(state, ids, purged).state;
            after.world == state.world && after.versions == state.versions
                && after.contributions.len() == state.contributions.len()
        }),
    decreases ids.len(),
{
    let once = sweep_once(state, ids);
    lemma_sweep_once_keeps(state, ids);
    if ids.len() > 0 && once.failure is None && once.waiting.len() < ids.len() {
        lemma_sweep_keeps(once.state, once.waiting, purged + once.purged);
    }
}

/// Garbage collection keeps the World, its whole history, and every
/// Contribution.
pub proof fn law_gc_keeps_history(
    state: StoreState,
    files: FilesState,
    ids: Seq<Text>,
    cutoff: Text,
    dry_run: bool,
    now: Text,
)
    ensures
        ({
            let after = gc_outcome(state, files, ids, cutoff, dry_run, now).0;
            &&& after.world == state.world
            &&& after.versions == state.versions
            &&& after.contributions.len() == state.contributions.len()
        }),
{
    let sessions = expired_sessions(state, cutoff);
    let unclaimed = StoreState {
        claims: tables::changed(state.claims, rows::expire_claims_change(now)),
        ..state
    };
    lemma_sessions_purged_keeps(unclaimed, sessions, now);
    lemma_sweep_keeps(
        sessions_purged(unclaimed, sessions, now).0,
        expired_layers(state, now),
        Seq::empty(),
    );
}

/// A dry run changes nothing.
pub proof fn law_dry_run_changes_nothing(
    state: StoreState,
    files: FilesState,
    ids: Seq<Text>,
    cutoff: Text,
    now: Text,
)
    ensures
        gc_outcome(state, files, ids, cutoff, true, now).0 == state,
{
}

/// The cursor that a reader of the stream stands at after some events.
pub fn next_cursor(store: &Store, places: &Vec<usize>, since: i64) -> (r: i64)
    requires
        forall|i: int| 0 <= i < places@.len() ==> (#[trigger] places@[i]) < store.events@.len(),
    ensures
        r == (if places@.len() == 0 {
            since
        } else {
            store@.events[places@.last() as int].cursor
        }),
{
    if places.len() == 0 {
        since
    } else {
        store.events[places[places.len() - 1]].cursor
    }
}

/// Following the stream needs a form that can be read line by line.
pub fn check_follow(follow: bool, lines: bool) -> (r: Result<()>)
    ensures
        match r {
            Ok(_) => !follow || lines,
            Err(error) => follow && !lines && error@ == Failure::invalid(
                "--follow requires --jsonl or --json"@,
            ),
        },
{
    if follow && !lines {
        Err(JavelinError::invalid("--follow requires --jsonl or --json".to_owned()))
    } else {
        Ok(())
    }
}

/// A discarded Layer whose retention has ended is looked at by a collection, and
/// so is every session that is over its time and has content left.
pub proof fn law_collection_misses_nothing(
    state: StoreState,
    now: Text,
    cutoff: Text,
    record: DiscardRecord<Text>,
    session: Session<Text>,
)
    ensures
        state.discards.contains(record) && !text::text_less(now, record.purge_after)
            ==> expired_layers(state, now).contains(record.layer_id),
        state.sessions.contains(session) && provenance::expired(state, cutoff)(session)
            ==> expired_sessions(state, cutoff).contains(session.id),
{
    let over = tables::kept(state.discards, layers::retention_over(now));
    tables::lemma_kept(state.discards, layers::retention_over(now));
    tables::lemma_in_order_rows::<DiscardRecord>(over);
    let rows = tables::in_order::<DiscardRecord>(over);
    if state.discards.contains(record) && !text::text_less(now, record.purge_after) {
        assert(rows.contains(record));
        let i = choose|i: int| 0 <= i < rows.len() && rows[i] == record;
        assert(expired_layers(state, now)[i] == record.layer_id);
    }
    let old = tables::kept(state.sessions, provenance::expired(state, cutoff));
    tables::lemma_kept(state.sessions, provenance::expired(state, cutoff));
    tables::lemma_in_order_rows::<Session>(old);
    let found = tables::in_order::<Session>(old);
    if state.sessions.contains(session) && provenance::expired(state, cutoff)(session) {
        assert(found.contains(session));
        let i = choose|i: int| 0 <= i < found.len() && found[i] == session;
        assert(expired_sessions(state, cutoff)[i] == session.id);
    }
}

/// A collection releases every Claim whose time is over and no other, whatever
/// becomes of the rest of it, and counts them.
pub proof fn law_collection_releases_due_claims(
    state: StoreState,
    trace_cutoff: Text,
    now: Text,
    i: int,
)
    ensures
        cleaned(state, trace_cutoff, now).claims > 0 <==> exists|k: int|
            0 <= k < state.claims.len() && (#[trigger] state.claims[k]).released_at is None
                && !text::text_less(now, state.claims[k].expires_at),
        0 <= i < state.claims.len() ==> {
            let after = tables::changed(state.claims, rows::expire_claims_change(now))[i];
            &&& state.claims[i].released_at is None && !text::text_less(
                now,
                state.claims[i].expires_at,
            ) ==> after.released_at == Some(now)
            &&& state.claims[i].released_at is Some || text::text_less(
                now,
                state.claims[i].expires_at,
            ) ==> after == state.claims[i]
        },
{
    tables::lemma_kept_none(state.claims, claims::due(now));
    if exists|k: int|
        0 <= k < state.claims.len() && (#[trigger] state.claims[k]).released_at is None
            && !text::text_less(now, state.claims[k].expires_at) {
        let k = choose|k: int|
            0 <= k < state.claims.len() && (#[trigger] state.claims[k]).released_at is None
                && !text::text_less(now, state.claims[k].expires_at);
        assert(claims::due(now)(state.claims[k]));
    }
    if cleaned(state, trace_cutoff, now).claims > 0 {
        let k = choose|k: int|
            0 <= k < state.claims.len() && claims::due(now)(#[trigger] state.claims[k]);
        assert(state.claims[k].released_at is None);
    }
}

/// The record of an object goes with the object, and no other record does.
pub proof fn law_records_go_with_their_objects(
    records: Seq<ObjectRecord<Text>>,
    ids: Seq<Text>,
    row: ObjectRecord<Text>,
)
    ensures
        without_objects(records, ids).contains(row) <==> records.contains(row) && !ids.contains(
            row.id,
        ),
    decreases ids.len(),
{
    if ids.len() > 0 {
        let shorter = ids.drop_last();
        law_records_go_with_their_objects(records, shorter, row);
        tables::lemma_kept(without_objects(records, shorter), rows::not_object(ids.last()));
        assert(ids[ids.len() - 1] == ids.last());
        if shorter.contains(row.id) {
            let k = choose|k: int| 0 <= k < shorter.len() && shorter[k] == row.id;
            assert(ids[k] == row.id);
        }
        if ids.contains(row.id) && ids.last() != row.id {
            let k = choose|k: int| 0 <= k < ids.len() && ids[k] == row.id;
            assert(shorter[k] == row.id);
        }
    }
}

/// A pass over Layers purges none that another Layer targets.
pub proof fn law_sweep_waits_for_children(state: StoreState, ids: Seq<Text>, id: Text, k: int)
    requires
        sweep_once(state, ids).failure is None,
        0 <= k < sweep_once(state, ids).state.layers.len(),
        sweep_once(state, ids).state.layers[k].target_kind == crate::model::TargetKind::Layer,
        sweep_once(state, ids).state.layers[k].target_id == Some(id),
    ensures
        sweep_once(state, ids.push(id)).state == sweep_once(state, ids).state,
        sweep_once(state, ids.push(id)).waiting == sweep_once(state, ids).waiting.push(id),
        sweep_once(state, ids.push(id)).purged == sweep_once(state, ids).purged,
{
    let before = sweep_once(state, ids);
    assert(ids.push(id).drop_last() =~= ids);
    assert(store::child_of(id, true)(before.state.layers[k]));
    tables::lemma_any(before.state.layers, store::child_of(id, true), k);
}

/// What a collection reports is what it did: the objects that nothing refers to,
/// the Layers and sessions that it took, and the Claims that it released.
pub proof fn law_collection_reports_what_it_did(
    state: StoreState,
    files: FilesState,
    ids: Seq<Text>,
    cutoff: Text,
    now: Text,
)
    requires
        gc_outcome(state, files, ids, cutoff, false, now).1 is Ok,
    ensures
        ({
            let (after, told) = gc_outcome(state, files, ids, cutoff, false, now);
            let report = told->Ok_0;
            let clean = cleaned(state, cutoff, now);
            &&& !report.dry_run
            &&& report.layers == clean.layers
            &&& report.sessions == expired_sessions(state, cutoff)
            &&& report.claims_expired == clean.claims
            &&& after.object_metadata == without_objects(
                clean.state.object_metadata,
                report.unreachable,
            )
            &&& after.events.last().event_type == "gc.completed"@
        }),
{
}

/// Events are followed only as lines. The next look starts after the last event
/// that was told, or where this one started if none was.
pub proof fn law_following_misses_no_event(
    follow: bool,
    lines: bool,
    allowed: Result<()>,
    log: Store,
    places: Vec<usize>,
    since: i64,
    next: i64,
)
    requires
        call_ensures(check_follow, (follow, lines), allowed),
        call_ensures(next_cursor, (&log, &places, since), next),
    ensures
        allowed is Err <==> follow && !lines,
        allowed is Err ==> allowed->Err_0@.code == "INVALID_ARGUMENT"@,
        places@.len() == 0 ==> next == since,
        places@.len() > 0 ==> next == log@.events[places@[places@.len() - 1] as int].cursor,
{
}

/// A pass that makes every Layer wait changes nothing, and each of them has a
/// child.
proof fn lemma_waiting_pass(state: StoreState, ids: Seq<Text>)
    requires
        sweep_once(state, ids).failure is None,
    ensures
        sweep_once(state, ids).waiting.len() <= ids.len(),
        sweep_once(state, ids).waiting.len() == ids.len() ==> {
            &&& sweep_once(state, ids).state == state
            &&& sweep_once(state, ids).waiting == ids
            &&& forall|i: int|
                0 <= i < ids.len() ==> tables::any(
                    state.layers,
                    store::child_of(#[trigger] ids[i], true),
                )
        },
    decreases ids.len(),
{
    if ids.len() > 0 {
        let shorter = ids.drop_last();
        lemma_waiting_pass(state, shorter);
        let once = sweep_once(state, ids);
        if once.waiting.len() == ids.len() {
            assert(shorter.push(ids.last()) =~= ids);
            assert forall|i: int| 0 <= i < ids.len() implies tables::any(
                state.layers,
                store::child_of(#[trigger] ids[i], true),
            ) by {
                if i < shorter.len() {
                    assert(shorter[i] == ids[i]);
                }
            }
        }
    }
}

/// A collection leaves a Layer that is due only where a Layer that stays has it
/// as its target: one whose children all go, goes too.
pub proof fn law_due_layer_stays_only_for_a_child(
    state: StoreState,
    ids: Seq<Text>,
    purged: Seq<Text>,
    i: int,
)
    requires
        sweep(state, ids, purged).failure is None,
        0 <= i < sweep(state, ids, purged).waiting.len(),
    ensures
        exists|k: int|
            0 <= k < sweep(state, ids, purged).state.layers.len() && (#[trigger] sweep(
                state,
                ids,
                purged,
            ).state.layers[k]).target_id == Some(sweep(state, ids, purged).waiting[i]) && sweep(
                state,
                ids,
                purged,
            ).state.layers[k].target_kind == crate::model::TargetKind::Layer,
    decreases ids.len(),
{
    let once = sweep_once(state, ids);
    let all = sweep(state, ids, purged);
    if ids.len() > 0 {
        if once.failure is Some || once.waiting.len() >= ids.len() {
            lemma_waiting_pass(state, ids);
            let id = ids[i];
            assert(tables::any(state.layers, store::child_of(id, true)));
            tables::lemma_first(state.layers, store::child_of(id, true));
            let k = tables::first(state.layers, store::child_of(id, true))->Some_0;
            assert(store::child_of(id, true)(state.layers[k]));
            assert(all.state.layers[k].target_id == Some(id));
        } else {
            law_due_layer_stays_only_for_a_child(once.state, once.waiting, purged + once.purged, i);
        }
    }
}

} // verus!
