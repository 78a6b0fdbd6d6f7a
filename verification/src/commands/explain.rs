//! Who changed a path, and what a state holds.
use vstd::prelude::*;
use crate::commands::history;
use crate::commands::maintenance;
use crate::commands::views;
use crate::error::{Failure, JavelinError, Result};
use crate::files;
use crate::files::{FilesState, ObjectFiles};
use crate::integration;
use crate::json;
use crate::json::{Json, JsonValue};
use crate::model;
use crate::model::{
    Change,
    ChangeKind,
    Checkpoint,
    EntryKind,
    Layer,
    Tree,
    TreeEntry,
    WorldVersion,
};
use crate::paths;
use crate::records::ProvenanceLink;
use crate::report::Shown;
use crate::search;
use crate::store;
use crate::store::{provenance, Store, StoreState};
use crate::tables;
use crate::text;
use crate::text::Text;
use crate::view;

verus! {

/// The sessions of links.
pub open spec fn linked_sessions(links: Seq<ProvenanceLink<Text>>) -> Seq<Text> {
    Seq::new(links.len(), |i: int| links[i].session_id)
}

/// The sessions behind a Contribution, in order.
pub open spec fn contribution_sessions(state: StoreState, contribution: Option<Text>) -> Seq<Text> {
    match contribution {
        None => Seq::empty(),
        Some(id) => linked_sessions(
            tables::in_order::<ProvenanceLink>(
                tables::kept(state.contribution_provenance, provenance::link_of(id)),
            ),
        ),
    }
}

/// The sessions behind a Checkpoint, in order.
pub open spec fn checkpoint_sessions(state: StoreState, id: Text) -> Seq<Text> {
    linked_sessions(
        tables::in_order::<ProvenanceLink>(
            tables::kept(state.checkpoint_provenance, provenance::link_of(id)),
        ),
    )
}

fn sessions_of(links: &Vec<ProvenanceLink>) -> (r: Vec<String>)
    ensures
        r.deep_view() == linked_sessions(links.deep_view()),
{
    let mut out: Vec<String> = Vec::new();
    let mut i: usize = 0;
    while i < links.len()
        invariant
            i <= links@.len(),
            out@.len() == i,
            forall|j: int| 0 <= j < i ==> (#[trigger] out@[j])@ == links@[j]@.session_id,
        decreases links@.len() - i,
    {
        out.push(links[i].session_id.clone());
        i = i + 1;
    }
    assert(out.deep_view() =~= linked_sessions(links.deep_view()));
    out
}

/// What is told of a version that changed the path.
pub open spec fn accepted_value(state: StoreState, version: WorldVersion<Text>) -> JsonValue {
    JsonValue::object().field("world_version"@, JsonValue::Text(version.id)).field(
        "contribution_id"@,
        json::text_or_null(version.accepted_contribution),
    ).field("root_tree"@, JsonValue::Text(version.root_tree)).field(
        "sessions"@,
        JsonValue::Array(
            json::text_values(contribution_sessions(state, version.accepted_contribution)),
        ),
    )
}

/// Whether a version changed a path, against its parent.
pub open spec fn version_touches(
    state: StoreState,
    files: FilesState,
    version: WorldVersion<Text>,
    path: Text,
) -> std::result::Result<bool, Failure> {
    match files::tree_outcome(files, version.root_tree) {
        Err(failure) => Err(failure),
        Ok(entries) => match version.parent_version {
            None => Ok(history::touches(None, entries, path)),
            Some(id) => match store::version_outcome(state, id) {
                Err(failure) => Err(failure),
                Ok(parent) => match files::tree_outcome(files, parent.root_tree) {
                    Err(failure) => Err(failure),
                    Ok(before) => Ok(history::touches(Some(before), entries, path)),
                },
            },
        },
    }
}

/// What is told of the versions that changed a path.
pub open spec fn accepted_outcome(
    state: StoreState,
    files: FilesState,
    versions: Seq<WorldVersion<Text>>,
    path: Text,
) -> std::result::Result<Seq<JsonValue>, Failure>
    decreases versions.len(),
{
    if versions.len() == 0 {
        Ok(Seq::empty())
    } else {
        match accepted_outcome(state, files, versions.drop_last(), path) {
            Err(failure) => Err(failure),
            Ok(before) => match version_touches(state, files, versions.last(), path) {
                Err(failure) => Err(failure),
                Ok(false) => Ok(before),
                Ok(true) => Ok(before.push(accepted_value(state, versions.last()))),
            },
        }
    }
}

fn touched_by_version(store: &Store, files: &ObjectFiles, version: &WorldVersion, path: &str) -> (r:
    Result<bool>)
    requires
        files.wf(),
    ensures
        match version_touches(store@, files@, version@, path@) {
            Ok(found) => r is Ok && r->Ok_0 == found,
            Err(failure) => r is Err && r->Err_0@ == failure,
        },
{
    let tree = files.read_tree(version.root_tree.as_str())?;
    match &version.parent_version {
        None => Ok(history::state_touches(None, &tree, path)),
        Some(id) => {
            let parent = store.world_version(id.as_str())?;
            let before = files.read_tree(parent.root_tree.as_str())?;
            Ok(history::state_touches(Some(&before), &tree, path))
        },
    }
}

proof fn lemma_accepted_failure(
    state: StoreState,
    files: FilesState,
    versions: Seq<WorldVersion<Text>>,
    path: Text,
    i: int,
)
    requires
        0 <= i <= versions.len(),
        accepted_outcome(state, files, versions.take(i), path) is Err,
    ensures
        accepted_outcome(state, files, versions, path) == accepted_outcome(
            state,
            files,
            versions.take(i),
            path,
        ),
    decreases versions.len() - i,
{
    if i < versions.len() {
        assert(versions.take(i + 1).drop_last() =~= versions.take(i));
        lemma_accepted_failure(state, files, versions, path, i + 1);
    } else {
        assert(versions.take(i) =~= versions);
    }
}

proof fn lemma_pushed(items: Seq<Json>, item: Json)
    ensures
        json::items_view(items.push(item)) == json::items_view(items).push(json::json_view(item)),
{
    assert(items.push(item).drop_last() =~= items);
}

fn explain_accepted(store: &Store, files: &ObjectFiles, path: &str) -> (r: Result<Vec<Json>>)
    requires
        files.wf(),
    ensures
        match accepted_outcome(store@, files@, store@.versions, path@) {
            Ok(found) => r is Ok && json::items_view(r->Ok_0@) == found,
            Err(failure) => r is Err && r->Err_0@ == failure,
        },
{
    let ghost all = store@.versions;
    let mut out: Vec<Json> = Vec::new();
    let mut i: usize = 0;
    assert(all.take(0) =~= Seq::empty());
    while i < store.versions.len()
        invariant
            i <= store.versions@.len(),
            all == store@.versions,
            files.wf(),
            accepted_outcome(store@, files@, all.take(i as int), path@) == Ok::<
                Seq<JsonValue>,
                Failure,
            >(json::items_view(out@)),
        decreases store.versions@.len() - i,
    {
        let version = &store.versions[i];
        proof {
            assert(all.take(i as int + 1).drop_last() =~= all.take(i as int));
            assert(all.take(i as int + 1).last() == version@);
            if accepted_outcome(store@, files@, all.take(i as int + 1), path@) is Err {
                lemma_accepted_failure(store@, files@, all, path@, i as int + 1);
            }
        }
        if touched_by_version(store, files, version, path)? {
            let sessions = match &version.accepted_contribution {
                Some(id) => sessions_of(&store.provenance_for_contribution(id.as_str())),
                None => {
                    let none: Vec<String> = Vec::new();
                    assert(none.deep_view() =~= Seq::empty());
                    none
                },
            };
            let item = Json::empty().with("world_version", Json::text(version.id.as_str())).with(
                "contribution_id",
                Json::option(&version.accepted_contribution),
            ).with("root_tree", Json::text(version.root_tree.as_str())).with(
                "sessions",
                Json::texts(&sessions),
            );
            proof {
                lemma_pushed(out@, item);
            }
            out.push(item);
        }
        i = i + 1;
    }
    assert(all.take(i as int) =~= all);
    Ok(out)
}

/// What is told of a Checkpoint that changed the path.
pub open spec fn private_value(
    state: StoreState,
    layer: Layer<Text>,
    checkpoint: Checkpoint<Text>,
) -> JsonValue {
    JsonValue::object().field("layer_id"@, JsonValue::Text(layer.id)).field(
        "layer_name"@,
        JsonValue::Text(layer.name),
    ).field("checkpoint_id"@, JsonValue::Text(checkpoint.id)).field(
        "reason"@,
        JsonValue::Text(checkpoint.reason),
    ).field(
        "sessions"@,
        JsonValue::Array(json::text_values(checkpoint_sessions(state, checkpoint.id))),
    )
}

/// What is told of Checkpoints.
pub open spec fn private_values(
    state: StoreState,
    layer: Layer<Text>,
    rows: Seq<Checkpoint<Text>>,
) -> Seq<JsonValue> {
    Seq::new(rows.len(), |i: int| private_value(state, layer, rows[i]))
}

/// What is told of the Checkpoints of Layers that changed a path.
pub open spec fn private_outcome(
    state: StoreState,
    files: FilesState,
    layers: Seq<Layer<Text>>,
    path: Text,
) -> std::result::Result<Seq<JsonValue>, Failure>
    decreases layers.len(),
{
    if layers.len() == 0 {
        Ok(Seq::empty())
    } else {
        match private_outcome(state, files, layers.drop_last(), path) {
            Err(failure) => Err(failure),
            Ok(before) => {
                let rows = tables::kept(state.checkpoints, store::of_layer(layers.last().id));
                match history::changed_places(files, history::checkpoint_trees(rows), path) {
                    Err(failure) => Err(failure),
                    Ok(places) => Ok(
                        before + private_values(
                            state,
                            layers.last(),
                            history::rows_at(rows, places),
                        ),
                    ),
                }
            },
        }
    }
}

proof fn lemma_private_failure(
    state: StoreState,
    files: FilesState,
    layers: Seq<Layer<Text>>,
    path: Text,
    i: int,
)
    requires
        0 <= i <= layers.len(),
        private_outcome(state, files, layers.take(i), path) is Err,
    ensures
        private_outcome(state, files, layers, path) == private_outcome(
            state,
            files,
            layers.take(i),
            path,
        ),
    decreases layers.len() - i,
{
    if i < layers.len() {
        assert(layers.take(i + 1).drop_last() =~= layers.take(i));
        lemma_private_failure(state, files, layers, path, i + 1);
    } else {
        assert(layers.take(i) =~= layers);
    }
}

fn add_private(store: &Store, layer: &Layer, rows: &Vec<Checkpoint>, out: &mut Vec<Json>)
    ensures
        json::items_view(final(out)@) == json::items_view(old(out)@) + private_values(
            store@,
            layer@,
            rows.deep_view(),
        ),
{
    let ghost before = json::items_view(out@);
    let ghost all = private_values(store@, layer@, rows.deep_view());
    let mut i: usize = 0;
    assert(before + all.take(0) =~= before);
    while i < rows.len()
        invariant
            i <= rows@.len(),
            all == private_values(store@, layer@, rows.deep_view()),
            json::items_view(out@) == before + all.take(i as int),
        decreases rows@.len() - i,
    {
        let row = &rows[i];
        let sessions = sessions_of(&store.provenance_for_checkpoint(row.id.as_str()));
        let item = Json::empty().with("layer_id", Json::text(layer.id.as_str())).with(
            "layer_name",
            Json::text(layer.name.as_str()),
        ).with("checkpoint_id", Json::text(row.id.as_str())).with(
            "reason",
            Json::text(row.reason.as_str()),
        ).with("sessions", Json::texts(&sessions));
        proof {
            lemma_pushed(out@, item);
            assert(item@ == all[i as int]);
            assert(all.take(i as int + 1) =~= all.take(i as int).push(all[i as int]));
            assert((before + all.take(i as int)).push(all[i as int]) =~= before + all.take(
                i as int + 1,
            ));
        }
        out.push(item);
        i = i + 1;
    }
    assert(all.take(i as int) =~= all);
}

fn explain_private(store: &Store, files: &ObjectFiles, path: &str) -> (r: Result<Vec<Json>>)
    requires
        files.wf(),
    ensures
        match private_outcome(
            store@,
            files@,
            tables::in_order::<Layer>(tables::kept(store@.layers, store::listed(true))),
            path@,
        ) {
            Ok(found) => r is Ok && json::items_view(r->Ok_0@) == found,
            Err(failure) => r is Err && r->Err_0@ == failure,
        },
{
    let layers = store.layers(true);
    let ghost all = layers.deep_view();
    let mut out: Vec<Json> = Vec::new();
    let mut i: usize = 0;
    assert(all.take(0) =~= Seq::empty());
    while i < layers.len()
        invariant
            i <= layers@.len(),
            all == layers.deep_view(),
            all == tables::in_order::<Layer>(tables::kept(store@.layers, store::listed(true))),
            files.wf(),
            private_outcome(store@, files@, all.take(i as int), path@) == Ok::<
                Seq<JsonValue>,
                Failure,
            >(json::items_view(out@)),
        decreases layers@.len() - i,
    {
        proof {
            assert(all.take(i as int + 1).drop_last() =~= all.take(i as int));
            assert(all.take(i as int + 1).last() == layers@[i as int]@);
            if private_outcome(store@, files@, all.take(i as int + 1), path@) is Err {
                lemma_private_failure(store@, files@, all, path@, i as int + 1);
            }
        }
        let rows = store.checkpoint_history(layers[i].id.as_str());
        let found = history::filter_checkpoint_history(files, &rows, path)?;
        add_private(store, &layers[i], &found, &mut out);
        i = i + 1;
    }
    assert(all.take(i as int) =~= all);
    Ok(out)
}

/// What is told of a path: the versions and the Checkpoints that changed it,
/// and the sessions behind them.
pub open spec fn explain_outcome(state: StoreState, files: FilesState, path: Text) -> std::result::Result<
    (Seq<JsonValue>, Seq<JsonValue>),
    Failure,
> {
    match paths::path_failure(path) {
        Some(failure) => Err(failure),
        None => match accepted_outcome(state, files, state.versions, path) {
            Err(failure) => Err(failure),
            Ok(accepted) => match private_outcome(
                state,
                files,
                tables::in_order::<Layer>(tables::kept(state.layers, store::listed(true))),
                path,
            ) {
                Err(failure) => Err(failure),
                Ok(private) => Ok((accepted, private)),
            },
        },
    }
}

/// Tells who changed a path.
pub fn explain(store: &Store, files: &ObjectFiles, path: &str) -> (r: Result<(Json, String)>)
    requires
        files.wf(),
    ensures
        match explain_outcome(store@, files@, path@) {
            Ok((accepted, private)) => r is Ok && r->Ok_0.0@ == JsonValue::object().field(
                "path"@,
                JsonValue::Text(path@),
            ).field("accepted"@, JsonValue::Array(accepted)).field(
                "private"@,
                JsonValue::Array(private),
            ) && r->Ok_0.1@ == text::decimal(accepted.len()) + " accepted changes, "@
                + text::decimal(private.len()) + " private changes for "@ + path@,
            Err(failure) => r is Err && r->Err_0@ == failure,
        },
{
    paths::validate_relative(path)?;
    let accepted = explain_accepted(store, files, path)?;
    let private = explain_private(store, files, path)?;
    proof {
        json::lemma_items_view(accepted@);
        json::lemma_items_view(private@);
    }
    let human = text::concat3(
        text::concat3(
            text::number(accepted.len() as u64).as_str(),
            " accepted changes, ",
            text::number(private.len() as u64).as_str(),
        ).as_str(),
        " private changes for ",
        path,
    );
    let shown = Json::empty().with("path", Json::text(path)).with(
        "accepted",
        Json::Array(accepted),
    ).with("private", Json::Array(private));
    Ok((shown, human))
}

/// What the show command is asked for.
#[derive(Debug)]
pub enum ShowPlan {
    Listing { resolved: String, root: String, tree: Tree },
    Directory { path: String, entry: TreeEntry },
    File { resolved: String, path: String, entry: TreeEntry, object_id: String },
}

/// What the show command is asked for.
pub enum ShowRequest {
    Listing { resolved: Text, root: Text, tree: Seq<TreeEntry<Text>> },
    Directory { path: Text, entry: TreeEntry<Text> },
    File { resolved: Text, path: Text, entry: TreeEntry<Text>, object_id: Text },
}

impl View for ShowPlan {
    type V = ShowRequest;

    open spec fn view(&self) -> ShowRequest {
        match *self {
            ShowPlan::Listing { resolved, root, tree } => ShowRequest::Listing {
                resolved: resolved@,
                root: root@,
                tree: tree@,
            },
            ShowPlan::Directory { path, entry } => ShowRequest::Directory {
                path: path@,
                entry: entry@,
            },
            ShowPlan::File { resolved, path, entry, object_id } => ShowRequest::File {
                resolved: resolved@,
                path: path@,
                entry: entry@,
                object_id: object_id@,
            },
        }
    }
}

/// What a reference, with a path after a colon or without one, asks for.
pub open spec fn show_outcome(state: StoreState, files: FilesState, reference: Text) -> std::result::Result<
    ShowRequest,
    Failure,
> {
    let (state_ref, path) = search::cut(reference, ':');
    match views::tree_for_ref_outcome(state, files, state_ref) {
        Err(failure) => Err(failure),
        Ok((resolved, root, tree)) => if path.len() == 0 {
            Ok(ShowRequest::Listing { resolved, root, tree })
        } else {
            match tables::find(tree, history::entry_at(path)) {
                None => Err(
                    Failure::invalid("path "@ + path + " not found in "@ + state_ref),
                ),
                Some(entry) => if entry.kind == EntryKind::Directory {
                    Ok(ShowRequest::Directory { path, entry })
                } else {
                    match entry.object_id {
                        None => Err(Failure::corruption("path state has no object"@)),
                        Some(object_id) => Ok(
                            ShowRequest::File { resolved, path, entry, object_id },
                        ),
                    }
                },
            }
        },
    }
}

/// Finds what a reference asks for.
pub fn show(store: &Store, files: &ObjectFiles, reference: &str) -> (r: Result<ShowPlan>)
    requires
        files.wf(),
    ensures
        match show_outcome(store@, files@, reference@) {
            Ok(request) => r is Ok && r->Ok_0@ == request,
            Err(failure) => r is Err && r->Err_0@ == failure,
        },
{
    let (state_ref, path) = search::cut_at(reference, ':');
    let (resolved, root, tree) = views::tree_for_ref(store, files, state_ref.as_str())?;
    let length: usize = path.as_str().unicode_len();
    if length == 0 {
        return Ok(ShowPlan::Listing { resolved, root, tree });
    }
    match history::find_entry(&tree, path.as_str()) {
        None => Err(
            JavelinError::invalid(
                text::concat3(
                    text::concat2("path ", path.as_str()).as_str(),
                    " not found in ",
                    state_ref.as_str(),
                ),
            ),
        ),
        Some(i) => {
            let entry = tree.entries[i].clone();
            if entry.kind == EntryKind::Directory {
                return Ok(ShowPlan::Directory { path, entry });
            }
            match text::copy_option(&entry.object_id) {
                None => Err(JavelinError::corruption("path state has no object".to_owned())),
                Some(object_id) => Ok(ShowPlan::File { resolved, path, entry, object_id }),
            }
        },
    }
}

/// What is shown of a file: its content too, unless it is too long.
pub open spec fn file_value_outcome(
    files: FilesState,
    resolved: Text,
    path: Text,
    entry: TreeEntry<Text>,
    object_id: Text,
) -> std::result::Result<JsonValue, Failure> {
    match files::info_outcome(files, object_id) {
        Err(failure) => Err(failure),
        Ok((_, size)) => {
            let start = JsonValue::object().field("reference"@, JsonValue::Text(resolved)).field(
                "path"@,
                JsonValue::Text(path),
            ).field("entry"@, TreeEntry::value(entry)).field(
                "size"@,
                JsonValue::Number(text::decimal(size)),
            );
            if size <= integration::TEXT_DIFF_LIMIT {
                match files::blob_outcome(files, object_id) {
                    Err(failure) => Err(failure),
                    Ok(content) => Ok(
                        start.field(
                            "bytes_hex"@,
                            JsonValue::Text(maintenance::hex_text(content)),
                        ).field("content_omitted"@, JsonValue::Bool(false)),
                    ),
                }
            } else {
                Ok(
                    start.field("bytes_hex"@, JsonValue::Null).field(
                        "content_omitted"@,
                        JsonValue::Bool(true),
                    ),
                )
            }
        },
    }
}

/// What is shown of a file.
pub fn file_json(
    files: &ObjectFiles,
    resolved: &str,
    path: &str,
    entry: &TreeEntry,
    object_id: &str,
) -> (r: Result<Json>)
    requires
        files.wf(),
    ensures
        match file_value_outcome(files@, resolved@, path@, entry@, object_id@) {
            Ok(value) => r is Ok && r->Ok_0@ == value,
            Err(failure) => r is Err && r->Err_0@ == failure,
        },
{
    let (_, size) = files.info(object_id)?;
    let start = Json::empty().with("reference", Json::text(resolved)).with(
        "path",
        Json::text(path),
    ).with("entry", entry.shown()).with("size", Json::Number(text::number(size)));
    if size <= integration::TEXT_DIFF_LIMIT {
        let content = files.read_blob(object_id)?;
        let digits = maintenance::hex(content.as_slice());
        Ok(
            start.with("bytes_hex", Json::Text(digits)).with(
                "content_omitted",
                Json::Bool(false),
            ),
        )
    } else {
        Ok(start.with("bytes_hex", Json::Null).with("content_omitted", Json::Bool(true)))
    }
}

/// The name of a change, as the status command writes it.
pub open spec fn change_title(change: ChangeKind) -> Text {
    match change {
        ChangeKind::Add => "Add"@,
        ChangeKind::Modify => "Modify"@,
        ChangeKind::Delete => "Delete"@,
        ChangeKind::Type => "Type"@,
        ChangeKind::Mode => "Mode"@,
    }
}

fn title_of_change(change: ChangeKind) -> (r: &'static str)
    ensures
        r@ == change_title(change),
{
    match change {
        ChangeKind::Add => "Add",
        ChangeKind::Modify => "Modify",
        ChangeKind::Delete => "Delete",
        ChangeKind::Type => "Type",
        ChangeKind::Mode => "Mode",
    }
}

/// The lines of changes.
pub open spec fn change_lines(changes: Seq<Change<Text>>) -> Seq<Text> {
    Seq::new(
        changes.len(),
        |i: int| change_title(changes[i].change) + "\t"@ + changes[i].path,
    )
}

/// What the status command says.
pub open spec fn status_text(layer: Layer<Text>, head: Text, changes: Seq<Change<Text>>) -> Text {
    if changes.len() == 0 {
        layer.name + " clean at "@ + head
    } else {
        text::joined(change_lines(changes), "\n"@)
    }
}

/// What the status command says.
pub fn status_human(layer: &Layer, head: &str, changes: &Vec<Change>) -> (r: String)
    ensures
        r@ == status_text(layer@, head@, changes.deep_view()),
{
    if changes.len() == 0 {
        return text::concat3(layer.name.as_str(), " clean at ", head);
    }
    let mut lines: Vec<String> = Vec::new();
    let mut i: usize = 0;
    while i < changes.len()
        invariant
            i <= changes@.len(),
            lines@.len() == i,
            forall|j: int|
                0 <= j < i ==> (#[trigger] lines@[j])@ == change_title(changes@[j]@.change)
                    + "\t"@ + changes@[j]@.path,
        decreases changes@.len() - i,
    {
        lines.push(
            text::concat3(
                title_of_change(changes[i].change),
                "\t",
                changes[i].path.as_str(),
            ),
        );
        i = i + 1;
    }
    assert(lines.deep_view() =~= change_lines(changes.deep_view()));
    text::join(&lines, "\n")
}

/// The changes of a Layer: from the state that it is synchronized with to the
/// one that a Checkpoint holds, with the root of the former.
pub fn layer_changes(store: &Store, files: &ObjectFiles, checkpoint: &Checkpoint) -> (r: Result<
    (String, Vec<Change>),
>)
    requires
        files.wf(),
    ensures
        match views::tree_for_ref_outcome(store@, files@, checkpoint@.synchronized_ref) {
            Err(failure) => r is Err && r->Err_0@ == failure,
            Ok((_, root, base)) => match files::tree_outcome(files@, checkpoint@.root_tree) {
                Err(failure) => r is Err && r->Err_0@ == failure,
                Ok(current) => r is Ok && r->Ok_0.0@ == root && view::is_difference(
                    model::states(base),
                    model::states(current),
                    r->Ok_0.1.deep_view(),
                ),
            },
        },
{
    let (_, root, base) = views::tree_for_ref(store, files, checkpoint.synchronized_ref.as_str())?;
    let current = files.read_tree(checkpoint.root_tree.as_str())?;
    Ok((root, view::diff_trees(&base, &current)))
}

/// A version changed a path where it gives the path another state than its
/// parent does; the first version, where it holds the path.
pub proof fn law_version_changed_what_differs(
    state: StoreState,
    files: FilesState,
    version: WorldVersion<Text>,
    path: Text,
)
    requires
        version_touches(state, files, version, path) is Ok,
    ensures
        ({
            let after = model::states(files::tree_outcome(files, version.root_tree)->Ok_0);
            &&& version.parent_version is None ==> version_touches(state, files, version, path)->Ok_0
                == after.contains_key(path)
            &&& version.parent_version is Some ==> {
                let parent = state.version(version.parent_version->Some_0)->Some_0;
                let before = model::states(files::tree_outcome(files, parent.root_tree)->Ok_0);
                &&& parent.id == version.parent_version->Some_0
                &&& version_touches(state, files, version, path)->Ok_0 == (model::state_at(
                    before,
                    path,
                ) != model::state_at(after, path))
            }
        }),
{
    let entries = files::tree_outcome(files, version.root_tree)->Ok_0;
    model::lemma_states(entries);
    tables::lemma_first(entries, history::entry_at(path));
    if version.parent_version is Some {
        tables::lemma_first(
            state.versions,
            crate::records::version_is(version.parent_version->Some_0),
        );
    } else {
        if model::states(entries).contains_key(path) {
            let k = choose|k: int| 0 <= k < entries.len() && (#[trigger] entries[k]).path == path;
            assert(history::entry_at(path)(entries[k]));
        }
        if tables::any(entries, history::entry_at(path)) {
            let k = tables::first(entries, history::entry_at(path))->Some_0;
            assert(entries[k].path == path);
        }
    }
}

/// Every version that changed the path is told, and no other.
pub proof fn law_every_change_is_explained(
    state: StoreState,
    files: FilesState,
    versions: Seq<WorldVersion<Text>>,
    path: Text,
)
    requires
        accepted_outcome(state, files, versions, path) is Ok,
    ensures
        ({
            let told = accepted_outcome(state, files, versions, path)->Ok_0;
            &&& forall|i: int|
                0 <= i < versions.len() ==> version_touches(
                    state,
                    files,
                    #[trigger] versions[i],
                    path,
                ) is Ok && (version_touches(state, files, versions[i], path)->Ok_0
                    ==> told.contains(accepted_value(state, versions[i])))
            &&& forall|k: int|
                0 <= k < told.len() ==> exists|i: int|
                    0 <= i < versions.len() && version_touches(
                        state,
                        files,
                        #[trigger] versions[i],
                        path,
                    ) == Ok::<bool, Failure>(true) && #[trigger] told[k] == accepted_value(
                        state,
                        versions[i],
                    )
        }),
    decreases versions.len(),
{
    let told = accepted_outcome(state, files, versions, path)->Ok_0;
    if versions.len() > 0 {
        let shorter = versions.drop_last();
        law_every_change_is_explained(state, files, shorter, path);
        let before = accepted_outcome(state, files, shorter, path)->Ok_0;
        let last = versions.len() - 1;
        assert(versions[last] == versions.last());
        assert forall|i: int| 0 <= i < versions.len() implies version_touches(
            state,
            files,
            #[trigger] versions[i],
            path,
        ) is Ok && (version_touches(state, files, versions[i], path)->Ok_0 ==> told.contains(
            accepted_value(state, versions[i]),
        )) by {
            if i < last {
                assert(shorter[i] == versions[i]);
                if version_touches(state, files, versions[i], path)->Ok_0 {
                    let value = accepted_value(state, versions[i]);
                    let k = choose|k: int| 0 <= k < before.len() && before[k] == value;
                    assert(told[k] == value);
                }
            } else if version_touches(state, files, versions[i], path)->Ok_0 {
                assert(told[told.len() - 1] == accepted_value(state, versions[i]));
            }
        }
        assert forall|k: int| 0 <= k < told.len() implies exists|i: int|
            0 <= i < versions.len() && version_touches(state, files, #[trigger] versions[i], path)
                == Ok::<bool, Failure>(true) && #[trigger] told[k] == accepted_value(
                state,
                versions[i],
            ) by {
            if k < before.len() {
                assert(before[k] == told[k]);
                let i = choose|i: int|
                    0 <= i < shorter.len() && version_touches(
                        state,
                        files,
                        #[trigger] shorter[i],
                        path,
                    ) == Ok::<bool, Failure>(true) && before[k] == accepted_value(
                        state,
                        shorter[i],
                    );
                assert(versions[i] == shorter[i]);
            } else {
                assert(told[k] == accepted_value(state, versions[last]));
            }
        }
    }
}

/// What is told of a version or a Checkpoint names the sessions that are linked
/// to it, and no others.
pub proof fn law_explanation_names_the_sessions(state: StoreState, owner: Text, session: Text)
    ensures
        contribution_sessions(state, Some(owner)).contains(session) <==> exists|i: int|
            0 <= i < state.contribution_provenance.len() && (#[trigger]
            state.contribution_provenance[i]).owner == owner
                && state.contribution_provenance[i].session_id == session,
        checkpoint_sessions(state, owner).contains(session) <==> exists|i: int|
            0 <= i < state.checkpoint_provenance.len() && (#[trigger]
            state.checkpoint_provenance[i]).owner == owner
                && state.checkpoint_provenance[i].session_id == session,
        contribution_sessions(state, None).len() == 0,
{
    lemma_linked(state.contribution_provenance, owner, session);
    lemma_linked(state.checkpoint_provenance, owner, session);
}

proof fn lemma_linked(links: Seq<ProvenanceLink<Text>>, owner: Text, session: Text)
    ensures
        linked_sessions(
            tables::in_order::<ProvenanceLink>(tables::kept(links, provenance::link_of(owner))),
        ).contains(session) <==> exists|i: int|
            0 <= i < links.len() && (#[trigger] links[i]).owner == owner && links[i].session_id
                == session,
{
    let kept = tables::kept(links, provenance::link_of(owner));
    tables::lemma_kept(links, provenance::link_of(owner));
    tables::lemma_in_order_rows::<ProvenanceLink>(kept);
    let rows = tables::in_order::<ProvenanceLink>(kept);
    let all = linked_sessions(rows);
    if all.contains(session) {
        let k = choose|k: int| 0 <= k < all.len() && all[k] == session;
        assert(rows.contains(rows[k]));
        assert(kept.contains(rows[k]));
        let i = choose|i: int| 0 <= i < links.len() && links[i] == rows[k];
        assert(links[i].owner == owner);
    }
    if exists|i: int|
        0 <= i < links.len() && (#[trigger] links[i]).owner == owner && links[i].session_id
            == session {
        let i = choose|i: int|
            0 <= i < links.len() && (#[trigger] links[i]).owner == owner && links[i].session_id
                == session;
        assert(links.contains(links[i]));
        assert(rows.contains(links[i]));
        let k = choose|k: int| 0 <= k < rows.len() && rows[k] == links[i];
        assert(all[k] == session);
    }
}

/// A reference without a colon asks for the whole state; with one, for what
/// stands at the path behind it: a directory, or a file or link with its object.
pub proof fn law_show_finds_the_path(state: StoreState, files: FilesState, reference: Text)
    requires
        show_outcome(state, files, reference) is Ok,
    ensures
        ({
            let shown = show_outcome(state, files, reference)->Ok_0;
            let (state_ref, path) = search::cut(reference, ':');
            let (resolved, root, tree) = views::tree_for_ref_outcome(state, files, state_ref)->Ok_0;
            &&& !reference.contains(':') ==> state_ref == reference && shown is Listing
            &&& shown matches ShowRequest::Listing { resolved: r, root: t, tree: entries } ==> r
                == resolved && t == root && entries == tree && path.len() == 0
            &&& shown matches ShowRequest::Directory { path: p, entry } ==> p == path
                && tree.contains(entry) && entry.path == path && entry.kind == EntryKind::Directory
            &&& shown matches ShowRequest::File { resolved: r, path: p, entry, object_id } ==> r
                == resolved && p == path && tree.contains(entry) && entry.path == path && entry.kind
                != EntryKind::Directory && entry.object_id == Some(object_id)
        }),
{
    search::law_cut_is_at_the_first(reference, ':');
    let (state_ref, path) = search::cut(reference, ':');
    let tree = views::tree_for_ref_outcome(state, files, state_ref)->Ok_0.2;
    tables::lemma_first(tree, history::entry_at(path));
}

/// The content of a file is shown up to one mebibyte, and left out beyond that.
pub proof fn law_long_content_is_left_out(
    files: FilesState,
    resolved: Text,
    path: Text,
    entry: TreeEntry<Text>,
    object_id: Text,
)
    requires
        file_value_outcome(files, resolved, path, entry, object_id) is Ok,
    ensures
        ({
            let shown = file_value_outcome(files, resolved, path, entry, object_id)->Ok_0->Object_0;
            let size = files::info_outcome(files, object_id)->Ok_0.1;
            &&& shown[2] == ("entry"@, TreeEntry::value(entry))
            &&& shown[3] == ("size"@, JsonValue::Number(text::decimal(size)))
            &&& size <= 1048576 ==> shown[4] == (
                "bytes_hex"@,
                JsonValue::Text(
                    maintenance::hex_text(files::blob_outcome(files, object_id)->Ok_0),
                ),
            ) && shown[5] == ("content_omitted"@, JsonValue::Bool(false))
            &&& size > 1048576 ==> shown[4] == ("bytes_hex"@, JsonValue::Null) && shown[5] == (
                "content_omitted"@,
                JsonValue::Bool(true),
            )
        }),
{
}

/// A view is told to be clean exactly where nothing changed; otherwise every
/// change has a line.
pub proof fn law_clean_means_no_change(layer: Layer<Text>, head: Text, changes: Seq<Change<Text>>)
    ensures
        changes.len() == 0 ==> status_text(layer, head, changes) == layer.name + " clean at "@ + head,
        changes.len() == 1 ==> status_text(layer, head, changes) == change_title(
            changes[0].change,
        ) + "\t"@ + changes[0].path,
        change_lines(changes).len() == changes.len(),
        change_title(ChangeKind::Add) == "Add"@,
        change_title(ChangeKind::Delete) == "Delete"@,
        change_title(ChangeKind::Modify) == "Modify"@,
        change_title(ChangeKind::Type) == "Type"@,
        change_title(ChangeKind::Mode) == "Mode"@,
{
}

/// Every Checkpoint of a Layer at which a path changed is told with its Layer,
/// its reason and its sessions.
pub proof fn law_every_private_change_is_explained(
    state: StoreState,
    files: FilesState,
    layers: Seq<Layer<Text>>,
    path: Text,
    at: int,
    rows: Seq<Checkpoint<Text>>,
    k: int,
)
    requires
        private_outcome(state, files, layers, path) is Ok,
        0 <= at < layers.len(),
        rows == tables::kept(
            state.checkpoints,
            |row: Checkpoint<Text>| row.layer_id == layers[at].id,
        ),
    ensures
        ({
            let told = private_outcome(state, files, layers, path)->Ok_0;
            let places = history::changed_places(
                files,
                Seq::new(rows.len(), |i: int| rows[i].root_tree),
                path,
            );
            &&& places is Ok
            &&& 0 <= k < places->Ok_0.len() ==> told.contains(
                JsonValue::object().field("layer_id"@, JsonValue::Text(layers[at].id)).field(
                    "layer_name"@,
                    JsonValue::Text(layers[at].name),
                ).field("checkpoint_id"@, JsonValue::Text(rows[places->Ok_0[k]].id)).field(
                    "reason"@,
                    JsonValue::Text(rows[places->Ok_0[k]].reason),
                ).field(
                    "sessions"@,
                    JsonValue::Array(
                        json::text_values(checkpoint_sessions(state, rows[places->Ok_0[k]].id)),
                    ),
                ),
            )
        }),
    decreases layers.len(),
{
    let told = private_outcome(state, files, layers, path)->Ok_0;
    let shorter = layers.drop_last();
    let before = private_outcome(state, files, shorter, path)->Ok_0;
    let roots = Seq::new(rows.len(), |i: int| rows[i].root_tree);
    let places = history::changed_places(files, roots, path);
    if at < shorter.len() {
        assert(shorter[at] == layers[at]);
        law_every_private_change_is_explained(state, files, shorter, path, at, rows, k);
        if 0 <= k < places->Ok_0.len() {
            let value = private_value(state, layers[at], rows[places->Ok_0[k]]);
            assert(before.contains(value));
            let j = choose|j: int| 0 <= j < before.len() && before[j] == value;
            assert(told[j] == value);
        }
    } else {
        let wanted = store::of_layer(layers.last().id);
        assert(wanted =~= (|row: Checkpoint<Text>| row.layer_id == layers[at].id));
        assert(rows == tables::kept(state.checkpoints, wanted));
        assert(history::checkpoint_trees(rows) =~= roots);
        if 0 <= k < places->Ok_0.len() {
            let value = private_value(state, layers[at], rows[places->Ok_0[k]]);
            assert(told[before.len() + k] == value);
        }
    }
}

/// A path is explained by what was accepted of it and by what is private of it,
/// over all Layers, the discarded ones too.
pub proof fn law_explanation_looks_everywhere(state: StoreState, files: FilesState, path: Text)
    requires
        explain_outcome(state, files, path) is Ok,
    ensures
        paths::path_failure(path) is None,
        accepted_outcome(state, files, state.versions, path) == Ok::<Seq<JsonValue>, Failure>(
            explain_outcome(state, files, path)->Ok_0.0,
        ),
        exists|layers: Seq<Layer<Text>>|
            (forall|layer: Layer<Text>| #[trigger]
                layers.contains(layer) <==> state.layers.contains(layer))
                && #[trigger] private_outcome(state, files, layers, path) == Ok::<
                Seq<JsonValue>,
                Failure,
            >(explain_outcome(state, files, path)->Ok_0.1),
{
    let all = tables::kept(state.layers, store::listed(true));
    tables::lemma_kept(state.layers, store::listed(true));
    tables::lemma_in_order_rows::<Layer>(all);
    let layers = tables::in_order::<Layer>(all);
    assert(private_outcome(state, files, layers, path) is Ok);
}

} // verus!
