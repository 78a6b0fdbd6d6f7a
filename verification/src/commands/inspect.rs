//! What the commands show and say that look at states without moving them.
use vstd::prelude::*;
use crate::commands::explain;
use crate::commands::history;
use crate::commands::views;
use crate::error::{Failure, Result};
use crate::files::{FilesState, ObjectFiles};
use crate::json;
use crate::json::{Json, JsonValue};
use crate::model;
use crate::model::{Change, Checkpoint, EntryKind, Layer, Tree, TreeEntry, WorldVersion};
use crate::ordered::PathMap;
use crate::records::{Claim, ConflictRecord, Event};
use crate::report;
use crate::report::Shown;
use crate::store::Store;
use crate::text;
use crate::text::Text;
use crate::view;

verus! {

/// A record that is said in one line.
pub trait Line: DeepView + Sized {
    spec fn line_of(row: Self::V) -> Text;

    fn line(&self) -> (r: String)
        ensures
            r@ == Self::line_of(self.deep_view()),
    ;
}

pub open spec fn lines_of<R: Line>(rows: Seq<R::V>) -> Seq<Text> {
    Seq::new(rows.len(), |i: int| R::line_of(rows[i]))
}

/// The lines of records.
pub fn lines<R: Line>(rows: &Vec<R>) -> (r: String)
    ensures
        r@ == text::joined(lines_of::<R>(rows.deep_view()), "\n"@),
{
    let mut out: Vec<String> = Vec::new();
    let mut i: usize = 0;
    while i < rows.len()
        invariant
            i <= rows@.len(),
            out@.len() == i,
            forall|j: int|
                0 <= j < i ==> (#[trigger] out@[j])@ == R::line_of(rows@[j].deep_view()),
        decreases rows@.len() - i,
    {
        out.push(rows[i].line());
        i = i + 1;
    }
    assert(out.deep_view() =~= lines_of::<R>(rows.deep_view()));
    text::join(&out, "\n")
}

/// Three texts with tabs between them.
pub open spec fn row3(a: Text, b: Text, c: Text) -> Text {
    a + "\t"@ + b + "\t"@ + c
}

fn row3_text(a: &str, b: &str, c: &str) -> (r: String)
    ensures
        r@ == row3(a@, b@, c@),
{
    text::concat3(text::concat3(a, "\t", b).as_str(), "\t", c)
}

impl Line for Layer {
    open spec fn line_of(row: Layer<Text>) -> Text {
        row3(row.name, row.status.name(), row.view_path)
    }

    fn line(&self) -> (r: String) {
        row3_text(self.name.as_str(), self.status.as_str(), self.view_path.as_str())
    }
}

impl Line for Checkpoint {
    open spec fn line_of(row: Checkpoint<Text>) -> Text {
        row3(row.id, row.reason, row.root_tree)
    }

    fn line(&self) -> (r: String) {
        row3_text(self.id.as_str(), self.reason.as_str(), self.root_tree.as_str())
    }
}

impl Line for WorldVersion {
    open spec fn line_of(row: WorldVersion<Text>) -> Text {
        row.id + "\t"@ + row.root_tree
    }

    fn line(&self) -> (r: String) {
        text::concat3(self.id.as_str(), "\t", self.root_tree.as_str())
    }
}

impl Line for ConflictRecord {
    open spec fn line_of(row: ConflictRecord<Text>) -> Text {
        row3(row.id, row.conflict_type, row.path)
    }

    fn line(&self) -> (r: String) {
        row3_text(self.id.as_str(), self.conflict_type.as_str(), self.path.as_str())
    }
}

/// The kind of an entry, as a listing writes it.
pub open spec fn kind_title(kind: EntryKind) -> Text {
    match kind {
        EntryKind::File => "File"@,
        EntryKind::Directory => "Directory"@,
        EntryKind::Symlink => "Symlink"@,
    }
}

fn title_of_kind(kind: EntryKind) -> (r: &'static str)
    ensures
        r@ == kind_title(kind),
{
    match kind {
        EntryKind::File => "File",
        EntryKind::Directory => "Directory",
        EntryKind::Symlink => "Symlink",
    }
}

impl Line for TreeEntry {
    open spec fn line_of(row: TreeEntry<Text>) -> Text {
        kind_title(row.kind) + "\t"@ + row.path
    }

    fn line(&self) -> (r: String) {
        text::concat3(title_of_kind(self.kind), "\t", self.path.as_str())
    }
}

impl Line for Event {
    open spec fn line_of(row: Event<Text, JsonValue>) -> Text {
        text::decimal_int(row.cursor as int) + "\t"@ + row.event_type
    }

    fn line(&self) -> (r: String) {
        text::concat3(
            text::number_i64(self.cursor).as_str(),
            "\t",
            self.event_type.as_str(),
        )
    }
}

/// What is shown and said of Layers.
pub fn layers_report(rows: &Vec<Layer>) -> (r: (Json, String))
    ensures
        r.0@ == JsonValue::object().field(
            "layers"@,
            JsonValue::Array(report::values::<Layer>(rows.deep_view())),
        ),
        r.1@ == text::joined(lines_of::<Layer>(rows.deep_view()), "\n"@),
{
    (Json::empty().with("layers", report::list(rows)), lines(rows))
}

/// What is shown and said of a Layer and its head.
pub fn layer_report(layer: &Layer, head: &Checkpoint) -> (r: (Json, String))
    ensures
        r.0@ == JsonValue::object().field("layer"@, Layer::value(layer@)).field(
            "head"@,
            Checkpoint::value(head@),
        ),
        r.1@ == layer@.name + "\t"@ + head@.id,
{
    (
        Json::empty().with("layer", layer.shown()).with("head", head.shown()),
        text::concat3(layer.name.as_str(), "\t", head.id.as_str()),
    )
}

/// What is shown and said of the history of a Layer.
pub fn layer_history_report(layer: &Layer, rows: &Vec<Checkpoint>) -> (r: (Json, String))
    ensures
        r.0@ == JsonValue::object().field("layer"@, Layer::value(layer@)).field(
            "checkpoints"@,
            JsonValue::Array(report::values::<Checkpoint>(rows.deep_view())),
        ),
        r.1@ == text::joined(lines_of::<Checkpoint>(rows.deep_view()), "\n"@),
{
    (
        Json::empty().with("layer", layer.shown()).with("checkpoints", report::list(rows)),
        lines(rows),
    )
}

/// What is shown and said of the history of the World.
pub fn world_history_report(rows: &Vec<WorldVersion>) -> (r: (Json, String))
    ensures
        r.0@ == JsonValue::object().field(
            "versions"@,
            JsonValue::Array(report::values::<WorldVersion>(rows.deep_view())),
        ),
        r.1@ == text::joined(lines_of::<WorldVersion>(rows.deep_view()), "\n"@),
{
    (Json::empty().with("versions", report::list(rows)), lines(rows))
}

/// What is shown and said of Conflicts.
pub fn conflicts_report(rows: &Vec<ConflictRecord>) -> (r: (Json, String))
    ensures
        r.0@ == JsonValue::object().field(
            "conflicts"@,
            JsonValue::Array(report::values::<ConflictRecord>(rows.deep_view())),
        ),
        r.1@ == text::joined(lines_of::<ConflictRecord>(rows.deep_view()), "\n"@),
{
    (Json::empty().with("conflicts", report::list(rows)), lines(rows))
}

/// What is shown and said of a tree.
pub fn tree_report(resolved: &str, root: &str, tree: &Tree) -> (r: (Json, String))
    ensures
        r.0@ == JsonValue::object().field("reference"@, JsonValue::Text(resolved@)).field(
            "root_tree"@,
            JsonValue::Text(root@),
        ).field("tree"@, report::tree_value(tree@)),
        r.1@ == text::joined(lines_of::<TreeEntry>(tree@), "\n"@),
{
    let shown = Json::empty().with("reference", Json::text(resolved)).with(
        "root_tree",
        Json::text(root),
    ).with("tree", report::tree_json(tree));
    assert(tree.entries.deep_view() =~= tree@);
    (shown, lines(&tree.entries))
}

/// What is shown and said of a Checkpoint that the checkpoint command made or
/// found. `before` was the head when the command began.
pub fn checkpoint_report(checkpoint: &Checkpoint, before: &str) -> (r: (Json, String))
    ensures
        r.0@ == JsonValue::object().field("checkpoint"@, Checkpoint::value(checkpoint@)).field(
            "created"@,
            JsonValue::Bool(checkpoint@.id != before@),
        ),
        r.1@ == "Layer Checkpoint "@ + checkpoint@.id + " ("@ + checkpoint@.reason + ")"@,
{
    let created = !text::same(checkpoint.id.as_str(), before);
    let shown = Json::empty().with("checkpoint", checkpoint.shown()).with(
        "created",
        Json::Bool(created),
    );
    let human = text::concat2(
        text::concat3(
            text::concat2("Layer Checkpoint ", checkpoint.id.as_str()).as_str(),
            " (",
            checkpoint.reason.as_str(),
        ).as_str(),
        ")",
    );
    (shown, human)
}

/// The event as it is streamed.
pub open spec fn event_fields(row: Event<Text, JsonValue>) -> JsonValue {
    JsonValue::object().field("schema"@, JsonValue::Text("javelin.event.v1"@)).field(
        "cursor"@,
        JsonValue::Number(text::decimal_int(row.cursor as int)),
    ).field("type"@, JsonValue::Text(row.event_type)).field(
        "subject_kind"@,
        json::text_or_null(row.subject_kind),
    ).field("subject_id"@, json::text_or_null(row.subject_id)).field("payload"@, row.payload).field(
        "created_at"@,
        JsonValue::Text(row.created_at),
    )
}

/// The event as it is streamed.
pub fn stream_event(row: &Event) -> (r: Json)
    ensures
        r@ == event_fields(row@),
{
    Json::empty().with("schema", Json::text("javelin.event.v1")).with(
        "cursor",
        Json::Number(text::number_i64(row.cursor)),
    ).with("type", Json::text(row.event_type.as_str())).with(
        "subject_kind",
        Json::option(&row.subject_kind),
    ).with("subject_id", Json::option(&row.subject_id)).with("payload", row.payload.copy()).with(
        "created_at",
        Json::text(row.created_at.as_str()),
    )
}

/// What is shown of the paths that a policy leaves out, with their rules.
pub open spec fn ignored_values(ignored: Seq<(String, String)>) -> Seq<JsonValue> {
    Seq::new(
        ignored.len(),
        |i: int|
            JsonValue::Array(
                seq![JsonValue::Text(ignored[i].0@), JsonValue::Text(ignored[i].1@)],
            ),
    )
}

fn ignored_json(ignored: &Vec<(String, String)>) -> (r: Json)
    ensures
        r@ == JsonValue::Array(ignored_values(ignored@)),
{
    let mut out: Vec<Json> = Vec::new();
    let mut i: usize = 0;
    while i < ignored.len()
        invariant
            i <= ignored@.len(),
            out@.len() == i,
            forall|j: int|
                0 <= j < i ==> json::json_view(#[trigger] out@[j]) == ignored_values(ignored@)[j],
        decreases ignored@.len() - i,
    {
        let pair = vec![
            Json::text(ignored[i].0.as_str()),
            Json::text(ignored[i].1.as_str()),
        ];
        proof {
            json::lemma_items_view(pair@);
            assert(json::items_view(pair@) =~= seq![
                JsonValue::Text(ignored@[i as int].0@),
                JsonValue::Text(ignored@[i as int].1@),
            ]);
        }
        out.push(Json::Array(pair));
        i = i + 1;
    }
    proof {
        json::lemma_items_view(out@);
        assert(json::items_view(out@) =~= ignored_values(ignored@));
    }
    Json::Array(out)
}

/// What the status command shows and says: how a Layer's Checkpoint differs
/// from the state that the Layer is synchronized with.
pub fn status_report(
    layer: &Layer,
    checkpoint: &Checkpoint,
    base_root: &str,
    changes: &Vec<Change>,
    ignored: &Vec<(String, String)>,
) -> (r: (Json, String))
    ensures
        r.0@ == JsonValue::object().field("layer"@, Layer::value(layer@)).field(
            "checkpoint"@,
            JsonValue::Text(checkpoint@.id),
        ).field("synchronized_root"@, JsonValue::Text(base_root@)).field(
            "private_root"@,
            JsonValue::Text(checkpoint@.root_tree),
        ).field(
            "changes"@,
            JsonValue::Array(report::values::<Change>(changes.deep_view())),
        ).field("ignored"@, JsonValue::Array(ignored_values(ignored@))),
        r.1@ == explain::status_text(layer@, checkpoint@.id, changes.deep_view()),
{
    let shown = Json::empty().with("layer", layer.shown()).with(
        "checkpoint",
        Json::text(checkpoint.id.as_str()),
    ).with("synchronized_root", Json::text(base_root)).with(
        "private_root",
        Json::text(checkpoint.root_tree.as_str()),
    ).with("changes", report::list(changes)).with("ignored", ignored_json(ignored));
    (shown, explain::status_human(layer, checkpoint.id.as_str(), changes))
}

/// What is shown and said of each change, or why it cannot be.
pub open spec fn rendered(
    files: FilesState,
    changes: Seq<Change<Text>>,
    renames: Map<Text, Text>,
) -> std::result::Result<Seq<(JsonValue, Text)>, Failure>
    decreases changes.len(),
{
    if changes.len() == 0 {
        Ok(Seq::empty())
    } else {
        match rendered(files, changes.drop_last(), renames) {
            Err(failure) => Err(failure),
            Ok(before) => match history::state_text_outcome(files, changes.last().old) {
                Err(failure) => Err(failure),
                Ok(old) => match history::state_text_outcome(files, changes.last().new) {
                    Err(failure) => Err(failure),
                    Ok(new) => Ok(
                        before.push(
                            (
                                history::change_value(changes.last(), old, new, renames),
                                history::change_line(changes.last(), old, new),
                            ),
                        ),
                    ),
                },
            },
        }
    }
}

proof fn lemma_rendering_stops(
    files: FilesState,
    changes: Seq<Change<Text>>,
    renames: Map<Text, Text>,
    i: int,
)
    requires
        0 <= i <= changes.len(),
        rendered(files, changes.take(i), renames) is Err,
    ensures
        rendered(files, changes, renames) == rendered(files, changes.take(i), renames),
    decreases changes.len(),
{
    if i < changes.len() {
        assert(changes.drop_last().take(i) =~= changes.take(i));
        lemma_rendering_stops(files, changes.drop_last(), renames, i);
    } else {
        assert(changes.take(i) =~= changes);
    }
}

pub open spec fn shown_parts(parts: Seq<(JsonValue, Text)>) -> Seq<JsonValue> {
    Seq::new(parts.len(), |i: int| parts[i].0)
}

pub open spec fn said_parts(parts: Seq<(JsonValue, Text)>) -> Seq<Text> {
    Seq::new(parts.len(), |i: int| parts[i].1)
}

/// What is shown and said of changes.
pub fn render_changes(files: &ObjectFiles, changes: &Vec<Change>, renames: &PathMap<String>) -> (r:
    Result<(Json, String)>)
    requires
        files.wf(),
        renames.wf(),
    ensures
        match rendered(files@, changes.deep_view(), renames@) {
            Ok(parts) => r is Ok && r->Ok_0.0@ == JsonValue::Array(shown_parts(parts))
                && r->Ok_0.1@ == text::joined(said_parts(parts), "\n"@),
            Err(failure) => r is Err && r->Err_0@ == failure,
        },
{
    let ghost all = changes.deep_view();
    let mut shown: Vec<Json> = Vec::new();
    let mut said: Vec<String> = Vec::new();
    let mut i: usize = 0;
    assert(all.take(0) =~= Seq::empty());
    while i < changes.len()
        invariant
            i <= changes@.len(),
            files.wf(),
            renames.wf(),
            all == changes.deep_view(),
            shown@.len() == i,
            said@.len() == i,
            rendered(files@, all.take(i as int), renames@) is Ok,
            rendered(files@, all.take(i as int), renames@)->Ok_0.len() == i,
            forall|j: int|
                #![trigger shown@[j]]
                #![trigger said@[j]]
                0 <= j < i ==> rendered(files@, all.take(i as int), renames@)->Ok_0[j] == (
                    json::json_view(shown@[j]),
                    said@[j]@,
                ),
        decreases changes@.len() - i,
    {
        let ghost next = all.take(i + 1);
        proof {
            assert(next.drop_last() =~= all.take(i as int));
            assert(next.last() == changes@[i as int]@);
            if rendered(files@, next, renames@) is Err {
                lemma_rendering_stops(files@, all, renames@, i + 1);
            }
        }
        let (value, line) = history::render_change(files, &changes[i], renames)?;
        shown.push(value);
        said.push(line);
        i = i + 1;
    }
    proof {
        assert(all.take(i as int) =~= all);
        let parts = rendered(files@, all, renames@)->Ok_0;
        json::lemma_items_view(shown@);
        assert(json::items_view(shown@) =~= shown_parts(parts)) by {
            assert forall|j: int| 0 <= j < parts.len() implies json::items_view(shown@)[j]
                == shown_parts(parts)[j] by {
                assert(json::json_view(shown@[j]) == parts[j].0);
            }
        }
        assert(said.deep_view() =~= said_parts(parts)) by {
            assert forall|j: int| 0 <= j < parts.len() implies said.deep_view()[j] == said_parts(
                parts,
            )[j] by {
                assert(said@[j]@ == parts[j].1);
            }
        }
    }
    Ok((Json::Array(shown), text::join(&said, "\n")))
}

/// The reference that was given, or another.
pub open spec fn given_or(given: Option<Text>, other: Text) -> Text {
    match given {
        Some(reference) => reference,
        None => other,
    }
}

/// What the diff command shows and says of the changes between two states: by
/// default those of the Layer since the state it is synchronized with. Only the
/// paths that pass the filters count, where there are filters.
pub fn diff(
    store: &Store,
    files: &ObjectFiles,
    head: &Checkpoint,
    from: Option<&str>,
    to: Option<&str>,
    filters: &Vec<String>,
) -> (r: Result<(Json, String)>)
    requires
        files.wf(),
    ensures
        ({
            let first = given_or(from.deep_view(), head@.synchronized_ref);
            let second = given_or(to.deep_view(), head@.id);
            match views::tree_for_ref_outcome(store@, files@, first) {
                Err(failure) => r is Err && r->Err_0@ == failure,
                Ok((_, first_root, old_tree)) => match views::tree_for_ref_outcome(
                    store@,
                    files@,
                    second,
                ) {
                    Err(failure) => r is Err && r->Err_0@ == failure,
                    Ok((_, second_root, new_tree)) => exists|changes: Seq<Change<Text>>|
                        {
                            let counted = #[trigger] history::filtered(
                                changes,
                                filters.deep_view(),
                            );
                            &&& view::is_difference(
                                model::states(old_tree),
                                model::states(new_tree),
                                changes,
                            )
                            &&& match rendered(
                                files@,
                                counted,
                                history::renames_of(counted, history::deleted_objects(counted)),
                            ) {
                                Ok(parts) => r is Ok && r->Ok_0.0@ == JsonValue::object().field(
                                    "from"@,
                                    JsonValue::Text(first),
                                ).field("from_root"@, JsonValue::Text(first_root)).field(
                                    "to"@,
                                    JsonValue::Text(second),
                                ).field("to_root"@, JsonValue::Text(second_root)).field(
                                    "changes"@,
                                    JsonValue::Array(shown_parts(parts)),
                                ) && r->Ok_0.1@ == text::joined(said_parts(parts), "\n"@),
                                Err(failure) => r is Err && r->Err_0@ == failure,
                            }
                        },
                },
            }
        }),
{
    let first = match from {
        Some(reference) => reference,
        None => head.synchronized_ref.as_str(),
    };
    let second = match to {
        Some(reference) => reference,
        None => head.id.as_str(),
    };
    let (_, first_root, old_tree) = views::tree_for_ref(store, files, first)?;
    let (_, second_root, new_tree) = views::tree_for_ref(store, files, second)?;
    let all = view::diff_trees(&old_tree, &new_tree);
    let ghost changes = all.deep_view();
    let counted = history::filter_changes(all, filters);
    let renames = history::detected_renames(&counted);
    let ghost kept = history::filtered(changes, filters.deep_view());
    assert(counted.deep_view() == kept);
    let (details, human) = render_changes(files, &counted, &renames)?;
    let shown = Json::empty().with("from", Json::text(first)).with(
        "from_root",
        Json::text(first_root.as_str()),
    ).with("to", Json::text(second)).with("to_root", Json::text(second_root.as_str())).with(
        "changes",
        details,
    );
    Ok((shown, human))
}

/// A Claim, with the name of its Layer.
pub open spec fn claim_value(row: Claim<Text>, layer_name: Text) -> JsonValue {
    JsonValue::object().field("id"@, JsonValue::Text(row.id)).field(
        "layer_id"@,
        JsonValue::Text(row.layer_id),
    ).field("layer_name"@, JsonValue::Text(layer_name)).field(
        "resource"@,
        JsonValue::Text(row.resource),
    ).field("kind"@, JsonValue::Text(row.kind)).field(
        "expires_at"@,
        JsonValue::Text(row.expires_at),
    ).field("released_at"@, json::text_or_null(row.released_at)).field(
        "created_at"@,
        JsonValue::Text(row.created_at),
    )
}

/// What is shown of a Claim.
pub fn claim_json(row: &Claim, layer_name: &str) -> (r: Json)
    ensures
        r@ == claim_value(row@, layer_name@),
{
    Json::empty().with("id", Json::text(row.id.as_str())).with(
        "layer_id",
        Json::text(row.layer_id.as_str()),
    ).with("layer_name", Json::text(layer_name)).with(
        "resource",
        Json::text(row.resource.as_str()),
    ).with("kind", Json::text(row.kind.as_str())).with(
        "expires_at",
        Json::text(row.expires_at.as_str()),
    ).with("released_at", Json::option(&row.released_at)).with(
        "created_at",
        Json::text(row.created_at.as_str()),
    )
}

/// What is said of a Claim.
pub fn claim_line(row: &Claim, layer_name: &str) -> (r: String)
    ensures
        r@ == row3(row@.id, layer_name@, row@.resource),
{
    row3_text(row.id.as_str(), layer_name, row.resource.as_str())
}

/// Two Claims that overlap.
pub open spec fn overlap_value(left: Claim<Text>, right: Claim<Text>) -> JsonValue {
    JsonValue::object().field("left"@, JsonValue::Text(left.id)).field(
        "right"@,
        JsonValue::Text(right.id),
    ).field("resource_left"@, JsonValue::Text(left.resource)).field(
        "resource_right"@,
        JsonValue::Text(right.resource),
    )
}

/// What is shown of two Claims that overlap.
pub fn overlap_json(left: &Claim, right: &Claim) -> (r: Json)
    ensures
        r@ == overlap_value(left@, right@),
{
    Json::empty().with("left", Json::text(left.id.as_str())).with(
        "right",
        Json::text(right.id.as_str()),
    ).with("resource_left", Json::text(left.resource.as_str())).with(
        "resource_right",
        Json::text(right.resource.as_str()),
    )
}

/// A list shows each row on a line: a Layer by its name, status and view, a
/// Checkpoint by its identity, reason and tree, a version by its name and tree, a
/// Conflict by its identity, type and path.
pub proof fn law_rows_are_listed_by_their_fields(
    layer: Layer<Text>,
    checkpoint: Checkpoint<Text>,
    version: WorldVersion<Text>,
    conflict: ConflictRecord<Text>,
    entry: TreeEntry<Text>,
)
    ensures
        Layer::line_of(layer) == layer.name + "\t"@ + layer.status.name() + "\t"@ + layer.view_path,
        Checkpoint::line_of(checkpoint) == checkpoint.id + "\t"@ + checkpoint.reason + "\t"@
            + checkpoint.root_tree,
        WorldVersion::line_of(version) == version.id + "\t"@ + version.root_tree,
        ConflictRecord::line_of(conflict) == conflict.id + "\t"@ + conflict.conflict_type + "\t"@
            + conflict.path,
        TreeEntry::line_of(entry) == (match entry.kind {
            EntryKind::File => "File"@,
            EntryKind::Directory => "Directory"@,
            EntryKind::Symlink => "Symlink"@,
        }) + "\t"@ + entry.path,
{
}

/// What is shown of Claims that overlap names each by its own resource.
pub proof fn law_overlap_shows_both_claims(left: Claim<Text>, right: Claim<Text>, name: Text)
    ensures
        overlap_value(left, right)->Object_0.contains(("left"@, JsonValue::Text(left.id))),
        overlap_value(left, right)->Object_0.contains(("right"@, JsonValue::Text(right.id))),
        overlap_value(left, right)->Object_0.contains(
            ("resource_left"@, JsonValue::Text(left.resource)),
        ),
        overlap_value(left, right)->Object_0.contains(
            ("resource_right"@, JsonValue::Text(right.resource)),
        ),
        claim_value(left, name)->Object_0.contains(("resource"@, JsonValue::Text(left.resource))),
        claim_value(left, name)->Object_0.contains(("layer_name"@, JsonValue::Text(name))),
        claim_value(left, name)->Object_0.contains(
            ("expires_at"@, JsonValue::Text(left.expires_at)),
        ),
{
    let shown = overlap_value(left, right)->Object_0;
    assert(shown[0] == ("left"@, JsonValue::Text(left.id)));
    assert(shown[1] == ("right"@, JsonValue::Text(right.id)));
    assert(shown[2] == ("resource_left"@, JsonValue::Text(left.resource)));
    assert(shown[3] == ("resource_right"@, JsonValue::Text(right.resource)));
    let claim = claim_value(left, name)->Object_0;
    assert(claim[2] == ("layer_name"@, JsonValue::Text(name)));
    assert(claim[3] == ("resource"@, JsonValue::Text(left.resource)));
    assert(claim[5] == ("expires_at"@, JsonValue::Text(left.expires_at)));
}

} // verus!
