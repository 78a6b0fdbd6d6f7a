//! Publish: a Private Layer's state becomes its target's next state.
use vstd::prelude::*;
use crate::clock;
use crate::commands::validation;
use crate::commands::views;
use crate::commands::views::{Order, ViewOrder};
use crate::error::{Failure, JavelinError, Result};
use crate::files;
use crate::files::{FilesState, ObjectFiles};
use crate::json;
use crate::json::{Json, JsonValue};
use crate::model;
use crate::model::{Change, Checkpoint, Layer, TargetKind, Tree, TreeEntry, WorldVersion};
use crate::paths;
use crate::records::{Contribution, ValidationRecord};
use crate::report;
use crate::report::Shown;
use crate::store;
use crate::store::publish as acceptance;
use crate::store::publish::Acceptance;
use crate::store::{layers, Store, StoreState};
use crate::tables;
use crate::text;
use crate::text::Text;
use crate::view;

verus! {

/// The name under which the Publishes to a Layer's target take turns.
pub open spec fn lease_of(layer: Layer<Text>) -> Text {
    match layer.target_kind {
        TargetKind::World => "world"@,
        TargetKind::Layer => "layer-"@ + (match layer.target_id {
            Some(id) => id,
            None => "missing"@,
        }),
    }
}

/// The name under which the Publishes to a Layer's target take turns.
pub fn lease_name(layer: &Layer) -> (r: String)
    ensures
        r@ == lease_of(layer@),
{
    match layer.target_kind {
        TargetKind::World => "world".to_owned(),
        TargetKind::Layer => match &layer.target_id {
            Some(id) => text::concat2("layer-", id.as_str()),
            None => text::concat2("layer-", "missing"),
        },
    }
}

/// Where the lease of a target is held.
pub fn lease_path(metadata: &str, target: &str) -> (r: String)
    ensures
        r@ == paths::joined_path(
            paths::joined_path(metadata@, "locks"@),
            target@ + ".publish.lock"@,
        ),
{
    paths::join_path(
        paths::join_path(metadata, "locks").as_str(),
        text::concat2(target, ".publish.lock").as_str(),
    )
}

/// What the Publish with a key that was accepted before gives.
#[derive(Debug)]
#[verifier::ext_equal]
pub struct Repeat<S = String> {
    pub contribution_id: S,
    pub resulting_target_ref: S,
    /// The Checkpoint at which the Layer follows its target again, if it does.
    pub source_checkpoint: Option<S>,
    /// The Contribution still names the Checkpoint that was published.
    pub source_known: bool,
}

impl DeepView for Repeat {
    type V = Repeat<Text>;

    open spec fn deep_view(&self) -> Repeat<Text> {
        Repeat {
            contribution_id: self.contribution_id@,
            resulting_target_ref: self.resulting_target_ref@,
            source_checkpoint: self.source_checkpoint.deep_view(),
            source_known: self.source_known,
        }
    }
}

/// The reason of a Checkpoint that completes an interrupted Publish.
pub open spec fn recovery_reason(contribution: Text) -> Text {
    "recover Publish Contribution "@ + contribution
}

/// What becomes of the Layer of an accepted Contribution when its Publish is
/// repeated: a Layer that stands where it was published from follows its
/// target, and a Layer that moved on stays as it is.
pub open spec fn caught_up_outcome(
    state: StoreState,
    existing: Contribution<Text>,
    owner: Text,
    id: Text,
    now: Text,
) -> std::result::Result<(StoreState, Option<Text>), Failure> {
    match existing.source_checkpoint {
        None => Ok((state, None)),
        Some(source) => match store::layer_outcome(state, owner) {
            Err(failure) => Err(failure),
            Ok(layer) => match store::checkpoint_outcome(state, layer.head_checkpoint) {
                Err(failure) => Err(failure),
                Ok(head) => if head.synchronized_ref == existing.resulting_target_ref {
                    Ok((state, Some(head.id)))
                } else if head.id == source {
                    match layers::append_checkpoint_outcome(
                        state,
                        layer.id,
                        head.root_tree,
                        existing.resulting_target_ref,
                        recovery_reason(existing.id),
                        id,
                        now,
                    ) {
                        Err(failure) => Err(failure),
                        Ok((after, checkpoint)) => Ok((after, Some(checkpoint.id))),
                    }
                } else {
                    Ok((state, None))
                },
            },
        },
    }
}

/// What a Publish with a key gives, if the key was accepted before.
pub open spec fn repeated_outcome(
    state: StoreState,
    layer: Layer<Text>,
    key: Text,
    id: Text,
    now: Text,
) -> std::result::Result<(StoreState, Option<Repeat<Text>>), Failure> {
    match tables::find(state.contributions, acceptance::keyed(key)) {
        None => Ok((state, None)),
        Some(existing) => match acceptance::repeat_outcome(existing, layer.id) {
            Err(failure) => Err(failure),
            Ok(_) => match caught_up_outcome(
                state,
                existing,
                existing.source_layer->Some_0,
                id,
                now,
            ) {
                Err(failure) => Err(failure),
                Ok((after, checkpoint)) => Ok(
                    (
                        after,
                        Some(
                            Repeat {
                                contribution_id: existing.id,
                                resulting_target_ref: existing.resulting_target_ref,
                                source_checkpoint: checkpoint,
                                source_known: existing.source_checkpoint is Some,
                            },
                        ),
                    ),
                ),
            },
        },
    }
}

/// Answers a Publish whose key was accepted before, with a given identity and
/// time for the Checkpoint that may be missing.
pub fn repeat_publish_at(store: &mut Store, layer: &Layer, key: &str, id: &str, now: &str) -> (r:
    Result<Option<Repeat>>)
    ensures
        match repeated_outcome(old(store)@, layer@, key@, id@, now@) {
            Ok((state, found)) => r is Ok && r->Ok_0.deep_view() == found && final(store)@
                == state,
            Err(failure) => r is Err && r->Err_0@ == failure && final(store)@ == old(store)@,
        },
{
    let existing = match store.contribution_details_by_key(key) {
        None => {
            return Ok(None);
        },
        Some(found) => found,
    };
    let owner = match &existing.source_layer {
        None => {
            return Err(
                JavelinError::stale(
                    "Publish idempotency key belongs to a purged Private Layer".to_owned(),
                ),
            );
        },
        Some(owner) => owner.clone(),
    };
    if !text::same(layer.id.as_str(), owner.as_str()) {
        return Err(
            JavelinError::stale(
                "Publish idempotency key belongs to a different Private Layer".to_owned(),
            ),
        );
    }
    let mut checkpoint: Option<String> = None;
    if let Some(source) = &existing.source_checkpoint {
        let current = store.layer(owner.as_str())?;
        let head = store.layer_head(&current)?;
        if text::same(head.synchronized_ref.as_str(), existing.resulting_target_ref.as_str()) {
            checkpoint = Some(head.id);
        } else if text::same(head.id.as_str(), source.as_str()) {
            let appended = store.append_checkpoint_at(
                current.id.as_str(),
                head.root_tree.as_str(),
                existing.resulting_target_ref.as_str(),
                text::concat2("recover Publish Contribution ", existing.id.as_str()).as_str(),
                id,
                now,
            )?;
            checkpoint = Some(appended.id);
        }
    }
    let source_known = existing.source_checkpoint.is_some();
    Ok(
        Some(
            Repeat {
                contribution_id: existing.id,
                resulting_target_ref: existing.resulting_target_ref,
                source_checkpoint: checkpoint,
                source_known,
            },
        ),
    )
}

/// Answers a Publish whose key was accepted before.
pub fn repeat_publish(store: &mut Store, layer: &Layer, key: &str) -> (r: Result<Option<Repeat>>)
    ensures
        exists|id: Text, now: Text|
            clock::is_stamp(now) && clock::is_fresh(id)
                && match #[trigger] repeated_outcome(old(store)@, layer@, key@, id, now) {
                Ok((state, found)) => r is Ok && r->Ok_0.deep_view() == found && final(store)@
                    == state,
                Err(failure) => r is Err && r->Err_0@ == failure && final(store)@ == old(store)@,
            },
{
    let id = clock::new_id();
    let now = clock::now();
    repeat_publish_at(store, layer, key, id.as_str(), now.as_str())
}

impl Repeat {
    /// What the command shows.
    pub fn json(&self) -> (r: Json)
        ensures
            r@ == JsonValue::object().field("idempotent"@, JsonValue::Bool(true)).field(
                "contribution_id"@,
                JsonValue::Text(self.contribution_id@),
            ).field(
                "resulting_target_ref"@,
                JsonValue::Text(self.resulting_target_ref@),
            ).field(
                "source_checkpoint"@,
                json::text_or_null(self.source_checkpoint.deep_view()),
            ),
    {
        Json::empty().with("idempotent", Json::Bool(true)).with(
            "contribution_id",
            Json::text(self.contribution_id.as_str()),
        ).with("resulting_target_ref", Json::text(self.resulting_target_ref.as_str())).with(
            "source_checkpoint",
            Json::option(&self.source_checkpoint),
        )
    }

    /// What the command says.
    pub fn human(&self) -> (r: String)
        ensures
            r@ == "Contribution "@ + self.contribution_id@ + " already accepted as "@
                + self.resulting_target_ref@,
    {
        text::concat3(
            text::concat2("Contribution ", self.contribution_id.as_str()).as_str(),
            " already accepted as ",
            self.resulting_target_ref.as_str(),
        )
    }
}

/// What the view of a Layer's parent should hold after a repeated Publish. It is
/// left alone where the Contribution no longer names what was published.
pub open spec fn repair_parent_outcome(
    state: StoreState,
    files: FilesState,
    source: Layer<Text>,
    repeat: Repeat<Text>,
) -> std::result::Result<Option<Order>, Failure> {
    if !repeat.source_known || source.target_kind != TargetKind::Layer {
        Ok(None)
    } else {
        match source.target_id {
            None => Err(Failure::corruption("Layer target has no ID"@)),
            Some(id) => match store::layer_outcome(state, id) {
                Err(failure) => Err(failure),
                Ok(parent) => match views::head_outcome(state, files, parent) {
                    Err(failure) => Err(failure),
                    Ok((head, tree)) => Ok(
                        Some(views::marked_order_for(state.root, parent, head.id, head.root_tree, tree)),
                    ),
                },
            },
        }
    }
}

/// Orders what the view of a Layer's parent should hold after a repeated Publish.
pub fn repair_parent_view(
    store: &Store,
    files: &ObjectFiles,
    source: &Layer,
    repeat: &Repeat,
) -> (r: Result<Option<ViewOrder>>)
    requires
        files.wf(),
    ensures
        match repair_parent_outcome(store@, files@, source@, repeat.deep_view()) {
            Ok(order) => r is Ok && views::order_option(r->Ok_0) == order,
            Err(failure) => r is Err && r->Err_0@ == failure,
        },
{
    if !repeat.source_known || source.target_kind != TargetKind::Layer {
        return Ok(None);
    }
    match &source.target_id {
        None => Err(JavelinError::corruption("Layer target has no ID".to_owned())),
        Some(id) => {
            let parent = store.layer(id.as_str())?;
            let (head, tree) = views::head_and_tree(store, files, &parent)?;
            Ok(
                Some(
                    views::order_marked_view(
                        store,
                        &parent,
                        head.id.as_str(),
                        head.root_tree.as_str(),
                        tree,
                    ),
                ),
            )
        },
    }
}

/// What the view of a Layer's parent should hold after a Publish to it.
pub open spec fn published_parent_outcome(
    state: StoreState,
    layer: Layer<Text>,
    root_tree: Text,
    candidate: Seq<TreeEntry<Text>>,
) -> std::result::Result<Option<Order>, Failure> {
    if layer.target_kind != TargetKind::Layer || layer.target_id is None {
        Ok(None)
    } else {
        match store::layer_outcome(state, layer.target_id->Some_0) {
            Err(failure) => Err(failure),
            Ok(parent) => match store::checkpoint_outcome(state, parent.head_checkpoint) {
                Err(failure) => Err(failure),
                Ok(head) => Ok(
                    Some(views::marked_order_for(state.root, parent, head.id, root_tree, candidate)),
                ),
            },
        }
    }
}

/// Orders what the view of a Layer's parent should hold after a Publish to it.
pub fn published_parent_view(store: &Store, layer: &Layer, root_tree: &str, candidate: &Tree) -> (r:
    Result<Option<ViewOrder>>)
    ensures
        match published_parent_outcome(store@, layer@, root_tree@, candidate@) {
            Ok(order) => r is Ok && views::order_option(r->Ok_0) == order,
            Err(failure) => r is Err && r->Err_0@ == failure,
        },
{
    if layer.target_kind != TargetKind::Layer {
        return Ok(None);
    }
    match &layer.target_id {
        None => Ok(None),
        Some(id) => {
            let parent = store.layer(id.as_str())?;
            let head = store.layer_head(&parent)?;
            Ok(
                Some(
                    views::order_marked_view(
                        store,
                        &parent,
                        head.id.as_str(),
                        root_tree,
                        candidate.clone(),
                    ),
                ),
            )
        },
    }
}

/// What a Publish changes.
pub fn publish_changes(store: &Store, files: &ObjectFiles, source: &Checkpoint, candidate: &Tree)
    -> (r: Result<Vec<Change>>)
    requires
        files.wf(),
    ensures
        match views::tree_for_ref_outcome(store@, files@, source@.synchronized_ref) {
            Ok((_, _, base)) => r is Ok && view::is_difference(
                model::states(base),
                model::states(candidate@),
                r->Ok_0.deep_view(),
            ),
            Err(failure) => r is Err && r->Err_0@ == failure,
        },
{
    let (_, _, base) = views::tree_for_ref(store, files, source.synchronized_ref.as_str())?;
    Ok(view::diff_trees(&base, candidate))
}

/// What a Publish hands to the store of its changes.
pub fn publish_summary(changes: &Vec<Change>) -> (r: Json)
    ensures
        r@ == JsonValue::object().field(
            "changes"@,
            JsonValue::Array(report::values::<Change>(changes.deep_view())),
        ),
{
    Json::empty().with("changes", report::list(changes))
}

/// Refuses a candidate that does not meet a required rule.
pub fn check_publish(records: &Vec<ValidationRecord>) -> (r: Result<()>)
    ensures
        if tables::any(records.deep_view(), validation::blocks()) {
            r is Err && r->Err_0@ == validation::gate_failure(
                "required World Rule rejected Publish"@,
                records.deep_view(),
            )
        } else {
            r is Ok
        },
{
    validation::check_runs(records, "required World Rule rejected Publish")
}

/// What handing a candidate whose rules were run to its target gives: the
/// Contribution and the reference to the target's new state.
pub open spec fn candidate_outcome(
    state: StoreState,
    layer: Layer<Text>,
    source: Checkpoint<Text>,
    terms: Acceptance<Text>,
    records: Seq<ValidationRecord<Text>>,
    link_ids: Seq<Text>,
) -> std::result::Result<(StoreState, (Text, Text)), Failure> {
    if tables::any(records, validation::blocks()) {
        Err(validation::gate_failure("required World Rule rejected Publish"@, records))
    } else {
        acceptance::accept_outcome(
            state,
            layer,
            source,
            terms,
            validation::run_ids(records),
            link_ids,
        )
    }
}

/// The store after a Publish, and what it gives: the target has the candidate
/// as its next state, and the Layer follows its target.
pub open spec fn publish_outcome(
    state: StoreState,
    layer: Layer<Text>,
    source: Checkpoint<Text>,
    terms: Acceptance<Text>,
    records: Seq<ValidationRecord<Text>>,
    link_ids: Seq<Text>,
    id: Text,
    now: Text,
) -> (StoreState, std::result::Result<(Text, Text, Checkpoint<Text>), Failure>) {
    match candidate_outcome(state, layer, source, terms, records, link_ids) {
        Err(failure) => (state, Err(failure)),
        Ok((accepted, (contribution, resulting))) => match layers::append_checkpoint_outcome(
            accepted,
            layer.id,
            source.root_tree,
            resulting,
            "Publish Contribution "@ + contribution,
            id,
            now,
        ) {
            Err(failure) => (accepted, Err(failure)),
            Ok((after, checkpoint)) => (after, Ok((contribution, resulting, checkpoint))),
        },
    }
}

/// Hands a candidate whose rules were run to its target, with given identities
/// and time.
pub fn accept_candidate_at(
    store: &mut Store,
    layer: &Layer,
    source: &Checkpoint,
    terms: &Acceptance,
    records: &Vec<ValidationRecord>,
    link_ids: &Vec<String>,
) -> (r: Result<(String, String)>)
    requires
        link_ids@.len() == records@.len(),
    ensures
        match candidate_outcome(
            old(store)@,
            layer@,
            source@,
            terms@,
            records.deep_view(),
            link_ids.deep_view(),
        ) {
            Ok((state, found)) => r is Ok && r->Ok_0.0@ == found.0 && r->Ok_0.1@ == found.1
                && final(store)@ == state,
            Err(failure) => r is Err && r->Err_0@ == failure && final(store)@ == old(store)@,
        },
{
    check_publish(records)?;
    let runs = validation::ids_of_runs(records);
    store.accept_publish_at(layer, source, terms, &runs, link_ids)
}

/// Hands a candidate whose rules were run to its target. The Layer follows its
/// target by [`follow_target`].
pub fn accept_candidate(
    store: &mut Store,
    layer: &Layer,
    source: &Checkpoint,
    candidate_root: &str,
    idempotency_key: Option<&str>,
    summary_json: &str,
    records: &Vec<ValidationRecord>,
) -> (r: Result<(String, String)>)
    ensures
        exists|terms: Acceptance<Text>, link_ids: Seq<Text>|
            terms.candidate_root == candidate_root@ && terms.idempotency_key
                == idempotency_key.deep_view() && terms.summary_json == summary_json@
                && link_ids.len() == records@.len() && clock::is_fresh(terms.contribution_id)
                && clock::is_fresh(terms.checkpoint_id) && clock::is_stamp(terms.now)
                && clock::are_fresh(link_ids)
                && match #[trigger] candidate_outcome(
                old(store)@,
                layer@,
                source@,
                terms,
                records.deep_view(),
                link_ids,
            ) {
                Ok((state, found)) => r is Ok && r->Ok_0.0@ == found.0 && r->Ok_0.1@ == found.1
                    && final(store)@ == state,
                Err(failure) => r is Err && r->Err_0@ == failure && final(store)@ == old(store)@,
            },
{
    let terms = Acceptance {
        candidate_root: candidate_root.to_owned(),
        idempotency_key: store::owned(idempotency_key),
        summary_json: summary_json.to_owned(),
        contribution_id: clock::new_id(),
        checkpoint_id: clock::new_id(),
        now: clock::now(),
    };
    let link_ids = clock::new_ids(records.len());
    assert(link_ids.deep_view().len() == records@.len());
    accept_candidate_at(store, layer, source, &terms, records, &link_ids)
}

/// Records at a given time that a Layer follows its target after a Publish.
pub fn follow_target_at(
    store: &mut Store,
    layer_id: &str,
    root_tree: &str,
    resulting_ref: &str,
    contribution_id: &str,
    id: &str,
    now: &str,
) -> (r: Result<Checkpoint>)
    ensures
        match layers::append_checkpoint_outcome(
            old(store)@,
            layer_id@,
            root_tree@,
            resulting_ref@,
            "Publish Contribution "@ + contribution_id@,
            id@,
            now@,
        ) {
            Ok((state, checkpoint)) => r is Ok && r->Ok_0@ == checkpoint && final(store)@ == state,
            Err(failure) => r is Err && r->Err_0@ == failure && final(store)@ == old(store)@,
        },
{
    store.append_checkpoint_at(
        layer_id,
        root_tree,
        resulting_ref,
        text::concat2("Publish Contribution ", contribution_id).as_str(),
        id,
        now,
    )
}

/// Publishes a candidate whose rules were run, with given identities and
/// times.
pub fn publish_at(
    store: &mut Store,
    layer: &Layer,
    source: &Checkpoint,
    terms: &Acceptance,
    records: &Vec<ValidationRecord>,
    link_ids: &Vec<String>,
    id: &str,
    now: &str,
) -> (r: Result<(String, String, Checkpoint)>)
    requires
        link_ids@.len() == records@.len(),
    ensures
        ({
            let outcome = publish_outcome(
                old(store)@,
                layer@,
                source@,
                terms@,
                records.deep_view(),
                link_ids.deep_view(),
                id@,
                now@,
            );
            &&& final(store)@ == outcome.0
            &&& match outcome.1 {
                Ok(done) => r is Ok && r->Ok_0.0@ == done.0 && r->Ok_0.1@ == done.1
                    && r->Ok_0.2@ == done.2,
                Err(failure) => r is Err && r->Err_0@ == failure,
            }
        }),
{
    let (contribution, resulting) = accept_candidate_at(
        store,
        layer,
        source,
        terms,
        records,
        link_ids,
    )?;
    let checkpoint = follow_target_at(
        store,
        layer.id.as_str(),
        source.root_tree.as_str(),
        resulting.as_str(),
        contribution.as_str(),
        id,
        now,
    )?;
    Ok((contribution, resulting, checkpoint))
}

/// Publishes a candidate whose rules were run.
pub fn publish(
    store: &mut Store,
    layer: &Layer,
    source: &Checkpoint,
    candidate_root: &str,
    idempotency_key: Option<&str>,
    summary_json: &str,
    records: &Vec<ValidationRecord>,
) -> (r: Result<(String, String, Checkpoint)>)
    ensures
        exists|terms: Acceptance<Text>, link_ids: Seq<Text>, id: Text, now: Text|
            clock::is_stamp(now) && terms.candidate_root == candidate_root@ && terms.idempotency_key
                == idempotency_key.deep_view() && terms.summary_json == summary_json@
                && link_ids.len() == records@.len() && clock::is_fresh(terms.contribution_id)
                && clock::is_fresh(terms.checkpoint_id) && clock::is_stamp(terms.now)
                && clock::are_fresh(link_ids)
                && clock::is_fresh(id) && {
                let outcome = #[trigger] publish_outcome(
                    old(store)@,
                    layer@,
                    source@,
                    terms,
                    records.deep_view(),
                    link_ids,
                    id,
                    now,
                );
                &&& final(store)@ == outcome.0
                &&& match outcome.1 {
                    Ok(done) => r is Ok && r->Ok_0.0@ == done.0 && r->Ok_0.1@ == done.1
                        && r->Ok_0.2@ == done.2,
                    Err(failure) => r is Err && r->Err_0@ == failure,
                }
            },
{
    let terms = Acceptance {
        candidate_root: candidate_root.to_owned(),
        idempotency_key: store::owned(idempotency_key),
        summary_json: summary_json.to_owned(),
        contribution_id: clock::new_id(),
        checkpoint_id: clock::new_id(),
        now: clock::now(),
    };
    let link_ids = clock::new_ids(records.len());
    assert(link_ids.deep_view().len() == records@.len());
    let id = clock::new_id();
    let now = clock::now();
    publish_at(
        store,
        layer,
        source,
        &terms,
        records,
        &link_ids,
        id.as_str(),
        now.as_str(),
    )
}

/// Records that a Layer follows its target after a Publish.
pub fn follow_target(
    store: &mut Store,
    layer_id: &str,
    root_tree: &str,
    resulting_ref: &str,
    contribution_id: &str,
) -> (r: Result<Checkpoint>)
    ensures
        exists|id: Text, now: Text|
            clock::is_stamp(now) && clock::is_fresh(id)
                && match #[trigger] layers::append_checkpoint_outcome(
                old(store)@,
                layer_id@,
                root_tree@,
                resulting_ref@,
                "Publish Contribution "@ + contribution_id@,
                id,
                now,
            ) {
                Ok((state, checkpoint)) => r is Ok && r->Ok_0@ == checkpoint && final(store)@
                    == state,
                Err(failure) => r is Err && r->Err_0@ == failure && final(store)@ == old(store)@,
            },
{
    let id = clock::new_id();
    let now = clock::now();
    follow_target_at(
        store,
        layer_id,
        root_tree,
        resulting_ref,
        contribution_id,
        id.as_str(),
        now.as_str(),
    )
}

/// What the command shows and says of a Publish.
pub fn publish_report(
    contribution: &str,
    resulting: &str,
    checkpoint: &Checkpoint,
    candidate_root: &str,
    changes: &Vec<Change>,
    records: &Vec<ValidationRecord>,
) -> (r: (Json, String))
    ensures
        r.0@ == JsonValue::object().field(
            "contribution_id"@,
            JsonValue::Text(contribution@),
        ).field("resulting_target_ref"@, JsonValue::Text(resulting@)).field(
            "source_checkpoint"@,
            Checkpoint::value(checkpoint@),
        ).field("candidate_root"@, JsonValue::Text(candidate_root@)).field(
            "changes"@,
            JsonValue::Array(report::values::<Change>(changes.deep_view())),
        ).field(
            "validations"@,
            JsonValue::Array(report::values::<ValidationRecord>(records.deep_view())),
        ),
        r.1@ == "Published Contribution "@ + contribution@ + " as "@ + resulting@,
{
    let shown = Json::empty().with("contribution_id", Json::text(contribution)).with(
        "resulting_target_ref",
        Json::text(resulting),
    ).with("source_checkpoint", checkpoint.shown()).with(
        "candidate_root",
        Json::text(candidate_root),
    ).with("changes", report::list(changes)).with("validations", report::list(records));
    let human = text::concat3(
        text::concat2("Published Contribution ", contribution).as_str(),
        " as ",
        resulting,
    );
    (shown, human)
}

/// A Publish to the World adds one version to its history, with the candidate
/// as its root and the previous current version as its parent, and one
/// Contribution that names it; nothing that was accepted before changes.
pub proof fn law_publish_adds_one_version(
    state: StoreState,
    layer: Layer<Text>,
    source: Checkpoint<Text>,
    terms: Acceptance<Text>,
    runs: Seq<Text>,
    link_ids: Seq<Text>,
)
    requires
        layer.target_kind == TargetKind::World,
        acceptance::new_acceptance_outcome(state, layer, source, terms, runs, link_ids) is Ok,
    ensures
        ({
            let (after, (contribution, resulting)) = acceptance::new_acceptance_outcome(
                state,
                layer,
                source,
                terms,
                runs,
                link_ids,
            )->Ok_0;
            &&& after.versions.len() == state.versions.len() + 1
            &&& after.versions.drop_last() == state.versions
            &&& after.versions.last().root_tree == terms.candidate_root
            &&& after.versions.last().parent_version == Some(state.world->Some_0.current_version)
            &&& after.versions.last().accepted_contribution == Some(contribution)
            &&& after.versions.last().id == resulting
            &&& after.world == Some(
                crate::records::World { current_version: resulting, ..state.world->Some_0 },
            )
            &&& after.contributions.drop_last() == state.contributions
            &&& after.contributions.len() == state.contributions.len() + 1
            &&& after.contributions.last().resulting_target_ref == resulting
            &&& after.checkpoints == state.checkpoints
            &&& after.layers == state.layers
        }),
{
    let outcome = acceptance::new_acceptance_outcome(state, layer, source, terms, runs, link_ids);
    let after = outcome->Ok_0.0;
    assert(after.versions.drop_last() =~= state.versions);
    assert(after.contributions.drop_last() =~= state.contributions);
}

/// A Publish to a parent Layer appends one Checkpoint to it and leaves the
/// World as it is.
pub proof fn law_publish_to_layer_keeps_world(
    state: StoreState,
    layer: Layer<Text>,
    source: Checkpoint<Text>,
    terms: Acceptance<Text>,
    runs: Seq<Text>,
    link_ids: Seq<Text>,
)
    requires
        layer.target_kind == TargetKind::Layer,
        acceptance::new_acceptance_outcome(state, layer, source, terms, runs, link_ids) is Ok,
    ensures
        ({
            let (after, (_, resulting)) = acceptance::new_acceptance_outcome(
                state,
                layer,
                source,
                terms,
                runs,
                link_ids,
            )->Ok_0;
            &&& after.world == state.world
            &&& after.versions == state.versions
            &&& after.checkpoints.drop_last() == state.checkpoints
            &&& after.checkpoints.last().id == resulting
            &&& after.checkpoints.last().layer_id == layer.target_id->Some_0
            &&& after.checkpoints.last().root_tree == terms.candidate_root
            &&& after.contributions.len() == state.contributions.len() + 1
        }),
{
    let outcome = acceptance::new_acceptance_outcome(state, layer, source, terms, runs, link_ids);
    let after = outcome->Ok_0.0;
    assert(after.checkpoints.drop_last() =~= state.checkpoints);
}

/// A Publish is refused where its target moved on since the last Refresh, so
/// no accepted state is ever lost.
pub proof fn law_no_lost_update(
    state: StoreState,
    layer: Layer<Text>,
    source: Checkpoint<Text>,
    terms: Acceptance<Text>,
    runs: Seq<Text>,
    link_ids: Seq<Text>,
)
    requires
        acceptance::new_acceptance_outcome(state, layer, source, terms, runs, link_ids) is Ok,
    ensures
        acceptance::target_ref_outcome(state, layer) == Ok::<Text, Failure>(
            source.synchronized_ref,
        ),
{
}

/// A Publish with a key that was accepted changes nothing and gives the same
/// Contribution again, to the Layer that used the key and to no other.
pub proof fn law_key_is_accepted_once(
    state: StoreState,
    layer: Layer<Text>,
    source: Checkpoint<Text>,
    terms: Acceptance<Text>,
    runs: Seq<Text>,
    link_ids: Seq<Text>,
    key: Text,
)
    requires
        terms.idempotency_key == Some(key),
        tables::find(state.contributions, acceptance::keyed(key)) is Some,
    ensures
        ({
            let existing = tables::find(state.contributions, acceptance::keyed(key))->Some_0;
            let outcome = acceptance::accept_outcome(
                state,
                layer,
                source,
                terms,
                runs,
                link_ids,
            );
            if existing.source_layer == Some(layer.id) {
                outcome == Ok::<(StoreState, (Text, Text)), Failure>(
                    (state, (existing.id, existing.resulting_target_ref)),
                )
            } else {
                outcome is Err && outcome->Err_0.exit_code == 6
            }
        }),
{
}

/// A Publish to the World on its Current version is accepted: the version's
/// successor stands behind all the others and is Current, with the candidate as
/// its root, the old version as its parent and the Contribution that was made.
/// Asking again with the same key, whatever else is asked, gives the same
/// Contribution and the same version and changes nothing.
pub proof fn law_publish_succeeds_current(
    state: StoreState,
    layer: Layer<Text>,
    source: Checkpoint<Text>,
    terms: Acceptance<Text>,
    runs: Seq<Text>,
    link_ids: Seq<Text>,
    old_version: WorldVersion<Text>,
    later_source: Checkpoint<Text>,
    later_terms: Acceptance<Text>,
    later_runs: Seq<Text>,
    later_link_ids: Seq<Text>,
)
    requires
        layer.target_kind == TargetKind::World,
        store::current_outcome(state) == Ok::<WorldVersion<Text>, Failure>(old_version),
        source.synchronized_ref == old_version.id,
        terms.idempotency_key is None || tables::find(
            state.contributions,
            acceptance::keyed(terms.idempotency_key->Some_0),
        ) is None,
        tables::any(state.layers, crate::records::layer_is(layer.id)),
        state.checkpoint(source.id) is Some,
        layers::runs_known(state, runs),
        acceptance::max_sequence(state.versions) == old_version.sequence,
        old_version.sequence < i64::MAX,
        state.version("v"@ + text::decimal_int(old_version.sequence + 1)) is None,
        later_terms.idempotency_key == terms.idempotency_key,
    ensures
        ({
            let version = WorldVersion {
                id: "v"@ + text::decimal_int(old_version.sequence + 1),
                sequence: (old_version.sequence + 1) as i64,
                parent_version: Some(old_version.id),
                root_tree: terms.candidate_root,
                accepted_contribution: Some(terms.contribution_id),
                created_at: terms.now,
            };
            let outcome = acceptance::accept_outcome(
                state,
                layer,
                source,
                terms,
                runs,
                link_ids,
            );
            &&& outcome matches Ok((after, found))
            &&& found == (terms.contribution_id, version.id)
            &&& after.versions == state.versions.push(version)
            &&& store::current_outcome(after) == Ok::<WorldVersion<Text>, Failure>(version)
            &&& after.layers == state.layers
            &&& after.checkpoints == state.checkpoints
            &&& terms.idempotency_key is Some ==> acceptance::accept_outcome(
                after,
                layer,
                later_source,
                later_terms,
                later_runs,
                later_link_ids,
            ) == Ok::<(StoreState, (Text, Text)), Failure>((after, found))
        }),
{
    let world = state.world->Some_0;
    let next = (old_version.sequence + 1) as i64;
    acceptance::lemma_max_sequence(state.versions);
    tables::lemma_first(state.versions, crate::records::version_numbered(next));
    tables::lemma_first(state.versions, crate::records::version_is(world.current_version));
    let (after, _) = acceptance::accept_outcome(
        state,
        layer,
        source,
        terms,
        runs,
        link_ids,
    )->Ok_0;
    let version = after.versions.last();
    tables::lemma_first_push(
        state.versions,
        version,
        crate::records::version_is(version.id),
    );
    if let Some(key) = terms.idempotency_key {
        tables::lemma_first_push(
            state.contributions,
            after.contributions.last(),
            acceptance::keyed(key),
        );
    }
}

/// Repeating a Publish never rolls a Layer back: a Layer that moved on since
/// keeps its head, and no repetition changes the World.
pub proof fn law_repeat_does_not_roll_back(
    state: StoreState,
    layer: Layer<Text>,
    key: Text,
    id: Text,
    now: Text,
)
    requires
        repeated_outcome(state, layer, key, id, now) is Ok,
    ensures
        ({
            let (after, found) = repeated_outcome(state, layer, key, id, now)->Ok_0;
            &&& after.world == state.world
            &&& after.versions == state.versions
            &&& after.contributions == state.contributions
            &&& found is Some && found->Some_0.source_checkpoint is None ==> after == state
        }),
{
}

/// Once a Publish is complete, its Layer is synchronized with the state that it
/// made of its target, and holds the tree that was published.
pub proof fn law_published_layer_follows_target(
    state: StoreState,
    layer: Layer<Text>,
    source: Checkpoint<Text>,
    terms: Acceptance<Text>,
    records: Seq<ValidationRecord<Text>>,
    link_ids: Seq<Text>,
    id: Text,
    now: Text,
)
    requires
        publish_outcome(state, layer, source, terms, records, link_ids, id, now).1 is Ok,
    ensures
        ({
            let (_, resulting, checkpoint) = publish_outcome(
                state,
                layer,
                source,
                terms,
                records,
                link_ids,
                id,
                now,
            ).1->Ok_0;
            checkpoint.synchronized_ref == resulting && checkpoint.root_tree == source.root_tree
        }),
{
}

/// A candidate that does not meet a required rule is not published.
pub proof fn law_required_rules_block(
    state: StoreState,
    layer: Layer<Text>,
    source: Checkpoint<Text>,
    terms: Acceptance<Text>,
    records: Seq<ValidationRecord<Text>>,
    link_ids: Seq<Text>,
    id: Text,
    now: Text,
)
    requires
        tables::any(records, validation::blocks()),
    ensures
        publish_outcome(state, layer, source, terms, records, link_ids, id, now).0 == state,
        publish_outcome(state, layer, source, terms, records, link_ids, id, now).1 is Err,
        publish_outcome(
            state,
            layer,
            source,
            terms,
            records,
            link_ids,
            id,
            now,
        ).1->Err_0.exit_code == 5,
{
}

/// A required rule whose run ended with any exit code but 0 stops a Publish:
/// nothing changes, and the command ends with the exit code of a failed
/// verification. Runs that all succeed, or are of rules that are not required,
/// stop nothing.
pub proof fn law_failed_run_stops_a_publish(
    state: StoreState,
    layer: Layer<Text>,
    source: Checkpoint<Text>,
    terms: Acceptance<Text>,
    records: Seq<ValidationRecord<Text>>,
    link_ids: Seq<Text>,
    id: Text,
    now: Text,
)
    ensures
        ({
            let (after, told) = publish_outcome(
                state,
                layer,
                source,
                terms,
                records,
                link_ids,
                id,
                now,
            );
            let accepted = acceptance::accept_outcome(
                state,
                layer,
                source,
                terms,
                Seq::new(records.len(), |i: int| records[i].id),
                link_ids,
            );
            &&& (exists|i: int|
                0 <= i < records.len() && (#[trigger] records[i]).required && records[i].exit_code
                    != 0) ==> after == state && told is Err && told->Err_0.exit_code == 5
            &&& (forall|i: int|
                0 <= i < records.len() ==> !(#[trigger] records[i]).required || records[i].exit_code
                    == 0) ==> {
                &&& accepted is Err ==> after == state && told == Err::<
                    (Text, Text, Checkpoint<Text>),
                    Failure,
                >(accepted->Err_0)
                &&& accepted is Ok && told is Ok ==> (told->Ok_0.0, told->Ok_0.1)
                    == accepted->Ok_0.1
            }
        }),
{
    validation::law_required_rules_ask_for_success(records);
    assert(validation::run_ids(records) =~= Seq::new(
        records.len(),
        |i: int| records[i].id,
    ));
}

/// Publishes to one target take turns, and those to different targets do not
/// wait for each other: the World has one name, and every Layer its own.
pub proof fn law_each_target_has_its_own_turn(a: Layer<Text>, b: Layer<Text>)
    requires
        a.target_kind == TargetKind::Layer ==> a.target_id is Some,
        b.target_kind == TargetKind::Layer ==> b.target_id is Some,
    ensures
        a.target_kind == TargetKind::World ==> lease_of(a) == "world"@,
        a.target_kind == b.target_kind && a.target_kind == TargetKind::Layer ==> (lease_of(a)
            == lease_of(b) <==> a.target_id == b.target_id),
        a.target_kind == TargetKind::World && b.target_kind == TargetKind::Layer ==> lease_of(a)
            != lease_of(b),
{
    reveal_strlit("world");
    reveal_strlit("layer-");
    if a.target_kind == TargetKind::Layer && b.target_kind == TargetKind::Layer && lease_of(a)
        == lease_of(b) {
        assert(lease_of(a).skip(6) =~= a.target_id->Some_0);
        assert(lease_of(b).skip(6) =~= b.target_id->Some_0);
    }
    if a.target_kind == TargetKind::World && b.target_kind == TargetKind::Layer {
        assert(lease_of(a)[0] == 'w');
        assert(lease_of(b)[0] == 'l');
    }
}

/// A repeated Publish completes an interrupted one only where the Layer still
/// stands at the published Checkpoint: then the Layer follows the accepted state
/// with the tree it has. A Layer that follows it already, or moved on, is left
/// alone.
pub proof fn law_interrupted_publish_is_completed(
    state: StoreState,
    existing: Contribution<Text>,
    owner: Text,
    id: Text,
    now: Text,
)
    requires
        caught_up_outcome(state, existing, owner, id, now) is Ok,
        existing.source_checkpoint is Some,
        state.layer(state.layer(owner)->Some_0.id) == state.layer(owner),
    ensures
        ({
            let (after, checkpoint) = caught_up_outcome(state, existing, owner, id, now)->Ok_0;
            let layer = state.layer(owner)->Some_0;
            let head = state.checkpoint(layer.head_checkpoint)->Some_0;
            &&& head.synchronized_ref == existing.resulting_target_ref ==> after == state
                && checkpoint == Some(head.id)
            &&& head.synchronized_ref != existing.resulting_target_ref && Some(head.id)
                != existing.source_checkpoint ==> after == state && checkpoint is None
            &&& head.synchronized_ref != existing.resulting_target_ref && Some(head.id)
                == existing.source_checkpoint ==> {
                &&& checkpoint == Some(id)
                &&& after.checkpoints == state.checkpoints.push(after.checkpoints.last())
                &&& after.checkpoints.last().id == id
                &&& after.checkpoints.last().root_tree == head.root_tree
                &&& after.checkpoints.last().synchronized_ref == existing.resulting_target_ref
            }
        }),
{
}

/// After a Publish to a Layer its view is to hold the published tree; a Publish
/// to the World leaves no view to be written.
pub proof fn law_parents_view_gets_the_published_tree(
    state: StoreState,
    layer: Layer<Text>,
    root_tree: Text,
    candidate: Seq<TreeEntry<Text>>,
)
    requires
        published_parent_outcome(state, layer, root_tree, candidate) is Ok,
    ensures
        ({
            let order = published_parent_outcome(state, layer, root_tree, candidate)->Ok_0;
            &&& layer.target_kind == TargetKind::World ==> order is None
            &&& order is Some ==> {
                let parent = state.layer(layer.target_id->Some_0)->Some_0;
                &&& order->Some_0.layer_id == parent.id
                &&& order->Some_0.destination == parent.view_path
                &&& order->Some_0.root_tree == root_tree
                &&& order->Some_0.tree == candidate
            }
            &&& layer.target_kind == TargetKind::Layer && layer.target_id is Some ==> order is Some
        }),
{
}

/// After a repeated Publish of a known Layer into another, the view of that other
/// one is to hold its head, whatever that has become since. A Publish into the
/// World puts no view right.
pub proof fn law_repeat_repairs_the_parents_view(
    state: StoreState,
    files: FilesState,
    source: Layer<Text>,
    repeat: Repeat<Text>,
)
    ensures
        ({
            let outcome = repair_parent_outcome(state, files, source, repeat);
            let parent = state.layer(source.target_id->Some_0)->Some_0;
            let head = state.checkpoint(parent.head_checkpoint)->Some_0;
            &&& source.target_kind == TargetKind::World || !repeat.source_known ==> outcome == Ok::<
                Option<Order>,
                Failure,
            >(None)
            &&& source.target_kind == TargetKind::Layer && repeat.source_known && source.target_id
                is None ==> outcome is Err
            &&& source.target_kind == TargetKind::Layer && repeat.source_known && outcome is Ok ==> {
                &&& outcome->Ok_0 is Some
                &&& outcome->Ok_0->Some_0.layer_id == parent.id
                &&& outcome->Ok_0->Some_0.checkpoint_id == head.id
                &&& outcome->Ok_0->Some_0.root_tree == head.root_tree
                &&& Ok::<Seq<TreeEntry<Text>>, Failure>(outcome->Ok_0->Some_0.tree)
                    == crate::files::tree_outcome(files, head.root_tree)
                &&& outcome->Ok_0->Some_0.marker is Some
                &&& outcome->Ok_0->Some_0.marker->Some_0.layer_id == parent.id
            }
        }),
{
}

/// A repeated Publish is answered with what was accepted under its key, and says
/// whether the Checkpoint that was published is known.
pub proof fn law_repeat_is_answered_as_accepted(
    state: StoreState,
    layer: Layer<Text>,
    key: Text,
    id: Text,
    now: Text,
    i: int,
)
    requires
        0 <= i < state.contributions.len(),
        state.contributions[i].idempotency_key == Some(key),
        forall|j: int|
            0 <= j < i ==> (#[trigger] state.contributions[j]).idempotency_key != Some(key),
        repeated_outcome(state, layer, key, id, now) is Ok,
    ensures
        ({
            let told = repeated_outcome(state, layer, key, id, now)->Ok_0.1;
            &&& told is Some
            &&& told->Some_0.contribution_id == state.contributions[i].id
            &&& told->Some_0.resulting_target_ref == state.contributions[i].resulting_target_ref
            &&& told->Some_0.source_known <==> state.contributions[i].source_checkpoint is Some
        }),
{
    tables::lemma_first_at(state.contributions, acceptance::keyed(key), i);
}

} // verus!
