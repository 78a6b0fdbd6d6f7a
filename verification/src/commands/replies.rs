//! What the commands show and say of what they did.
use vstd::prelude::*;
use crate::commands::inspect;
use crate::commands::maintenance::Repaired;
use crate::json;
use crate::json::{Json, JsonValue};
use crate::model::{Checkpoint, Layer, TreeEntry, WorldVersion};
use crate::records;
use crate::records::Claim;
use crate::report;
use crate::report::Shown;
use crate::store::{claims, Store, StoreState};
use crate::tables;
use crate::text;
use crate::text::Text;

verus! {

/// Of the program's version.
pub fn version_report(version: &str) -> (r: (Json, String))
    ensures
        r.0@ == JsonValue::object().field("version"@, JsonValue::Text(version@)),
        r.1@ == "javelin "@ + version@,
{
    (Json::empty().with("version", Json::text(version)), text::concat2("javelin ", version))
}

/// Of a World that was made, or that was there already.
pub fn init_report(version: &WorldVersion, path: &str, created: bool) -> (r: (Json, String))
    ensures
        r.0@ == JsonValue::object().field("world_version"@, JsonValue::Text(version@.id)).field(
            "root_tree"@,
            JsonValue::Text(version@.root_tree),
        ).field("path"@, JsonValue::Text(path@)),
        r.1@ == (if created {
            "Initialized World "@ + version@.id + " at "@ + path@
        } else {
            "World already initialized at "@ + path@ + " ("@ + version@.id + ")"@
        }),
{
    let shown = Json::empty().with("world_version", Json::text(version.id.as_str())).with(
        "root_tree",
        Json::text(version.root_tree.as_str()),
    ).with("path", Json::text(path));
    let human = if created {
        text::concat3(
            text::concat2("Initialized World ", version.id.as_str()).as_str(),
            " at ",
            path,
        )
    } else {
        text::concat2(
            text::concat3(
                text::concat2("World already initialized at ", path).as_str(),
                " (",
                version.id.as_str(),
            ).as_str(),
            ")",
        )
    };
    (shown, human)
}

/// Of a directory of a tree.
pub fn directory_report(path: &str, entry: &TreeEntry) -> (r: (Json, String))
    ensures
        r.0@ == TreeEntry::value(entry@),
        r.1@ == "directory\t"@ + path@,
{
    (entry.shown(), text::concat2("directory\t", path))
}

/// Of the place of a Layer's view.
pub fn layer_path_report(layer: &Layer) -> (r: (Json, String))
    ensures
        r.0@ == JsonValue::object().field("layer_id"@, JsonValue::Text(layer@.id)).field(
            "path"@,
            JsonValue::Text(layer@.view_path),
        ),
        r.1@ == layer@.view_path,
{
    let shown = Json::empty().with("layer_id", Json::text(layer.id.as_str())).with(
        "path",
        Json::text(layer.view_path.as_str()),
    );
    (shown, layer.view_path.clone())
}

/// Of a new Layer, and the way its view was put on disk.
pub fn created_layer_report(layer: &Layer, backend: &str) -> (r: (Json, String))
    ensures
        r.0@ == JsonValue::object().field("layer"@, Layer::value(layer@)).field(
            "path"@,
            JsonValue::Text(layer@.view_path),
        ).field("backend"@, JsonValue::Text(backend@)),
        r.1@ == layer@.view_path,
{
    let shown = Json::empty().with("layer", layer.shown()).with(
        "path",
        Json::text(layer.view_path.as_str()),
    ).with("backend", Json::text(backend));
    (shown, layer.view_path.clone())
}

/// Of a Layer that was brought back to an earlier Checkpoint.
pub fn restored_layer_report(layer: &Layer, checkpoint: &Checkpoint) -> (r: (Json, String))
    ensures
        r.0@ == Checkpoint::value(checkpoint@),
        r.1@ == "Restored Layer "@ + layer@.name + " through "@ + checkpoint@.id,
{
    (
        checkpoint.shown(),
        text::concat3(
            text::concat2("Restored Layer ", layer.name.as_str()).as_str(),
            " through ",
            checkpoint.id.as_str(),
        ),
    )
}

/// Of discarded changes of the Local Layer, which now holds the version that
/// its new head is synchronized with.
pub fn discarded_local_report(checkpoint: &Checkpoint) -> (r: (Json, String))
    ensures
        r.0@ == JsonValue::object().field("layer"@, JsonValue::Text("local"@)).field(
            "checkpoint"@,
            Checkpoint::value(checkpoint@),
        ).field("world_version"@, JsonValue::Text(checkpoint@.synchronized_ref)),
        r.1@ == "Discarded Local Layer changes through "@ + checkpoint@.id,
{
    let shown = Json::empty().with("layer", Json::text("local")).with(
        "checkpoint",
        checkpoint.shown(),
    ).with("world_version", Json::text(checkpoint.synchronized_ref.as_str()));
    (shown, text::concat2("Discarded Local Layer changes through ", checkpoint.id.as_str()))
}

/// Of a discarded Layer.
pub fn discarded_report(layer: &Layer, purged: bool) -> (r: (Json, String))
    ensures
        r.0@ == JsonValue::object().field("layer_id"@, JsonValue::Text(layer@.id)).field(
            "name"@,
            JsonValue::Text(layer@.name),
        ).field("purged"@, JsonValue::Bool(purged)),
        r.1@ == "Discarded Private Layer "@ + layer@.name,
{
    let shown = Json::empty().with("layer_id", Json::text(layer.id.as_str())).with(
        "name",
        Json::text(layer.name.as_str()),
    ).with("purged", Json::Bool(purged));
    (shown, text::concat2("Discarded Private Layer ", layer.name.as_str()))
}

/// A line for each of the discarded Layers.
pub open spec fn discarded_lines(rows: Seq<Layer<Text>>) -> Seq<Text> {
    Seq::new(rows.len(), |i: int| rows[i].name + "\t"@ + rows[i].id)
}

/// Of the discarded Layers.
pub fn discarded_layers_report(rows: &Vec<Layer>) -> (r: (Json, String))
    ensures
        r.0@ == JsonValue::object().field(
            "discarded"@,
            JsonValue::Array(report::values::<Layer>(rows.deep_view())),
        ),
        r.1@ == text::joined(discarded_lines(rows.deep_view()), "\n"@),
{
    let mut said: Vec<String> = Vec::new();
    let mut i: usize = 0;
    while i < rows.len()
        invariant
            i <= rows@.len(),
            said@.len() == i,
            forall|j: int|
                0 <= j < i ==> (#[trigger] said@[j])@ == discarded_lines(rows.deep_view())[j],
        decreases rows@.len() - i,
    {
        said.push(text::concat3(rows[i].name.as_str(), "\t", rows[i].id.as_str()));
        i = i + 1;
    }
    assert(said.deep_view() =~= discarded_lines(rows.deep_view()));
    (Json::empty().with("discarded", report::list(rows)), text::join(&said, "\n"))
}

/// Of a Layer that was recovered.
pub fn recovered_layer_report(layer: &Layer) -> (r: (Json, String))
    ensures
        r.0@ == JsonValue::object().field("layer"@, Layer::value(layer@)),
        r.1@ == "Recovered Private Layer "@ + layer@.name,
{
    (
        Json::empty().with("layer", layer.shown()),
        text::concat2("Recovered Private Layer ", layer.name.as_str()),
    )
}

/// Of a Layer that was purged.
pub fn purged_layer_report(layer: &Layer) -> (r: (Json, String))
    ensures
        r.0@ == JsonValue::object().field("purged_layer_id"@, JsonValue::Text(layer@.id)),
        r.1@ == "Purged discarded Private Layer "@ + layer@.name,
{
    (
        Json::empty().with("purged_layer_id", Json::text(layer.id.as_str())),
        text::concat2("Purged discarded Private Layer ", layer.name.as_str()),
    )
}

/// Of views that were repaired.
pub fn repaired_report(rows: &Vec<Repaired>) -> (r: (Json, String))
    ensures
        r.0@ == JsonValue::object().field(
            "repaired"@,
            JsonValue::Array(report::values::<Repaired>(rows.deep_view())),
        ),
        r.1@ == "Repaired "@ + text::decimal(rows@.len()) + " Managed views"@,
{
    let count: usize = rows.len();
    (
        Json::empty().with("repaired", report::list(rows)),
        text::concat3("Repaired ", text::number(count as u64).as_str(), " Managed views"),
    )
}

/// The name of the Layer that a Claim belongs to.
pub open spec fn claimant(state: StoreState, claim: Claim<Text>) -> Text {
    match tables::find(state.layers, records::layer_is(claim.layer_id)) {
        Some(layer) => layer.name,
        None => "unknown"@,
    }
}

fn claimant_name(store: &Store, claim: &Claim) -> (r: String)
    ensures
        r@ == claimant(store@, claim@),
{
    match records::find_layer(&store.layers, claim.layer_id.as_str()) {
        Some(i) => store.layers[i].name.clone(),
        None => "unknown".to_owned(),
    }
}

pub open spec fn claim_values(state: StoreState, rows: Seq<Claim<Text>>) -> Seq<JsonValue> {
    Seq::new(rows.len(), |i: int| inspect::claim_value(rows[i], claimant(state, rows[i])))
}

pub open spec fn claim_lines(state: StoreState, rows: Seq<Claim<Text>>) -> Seq<Text> {
    Seq::new(
        rows.len(),
        |i: int| inspect::row3(rows[i].id, claimant(state, rows[i]), rows[i].resource),
    )
}

pub open spec fn overlap_values(
    rows: Seq<Claim<Text>>,
    places: Seq<(usize, usize)>,
) -> Seq<JsonValue> {
    Seq::new(
        places.len(),
        |k: int| inspect::overlap_value(rows[places[k].0 as int], rows[places[k].1 as int]),
    )
}

fn overlaps_json(rows: &Vec<Claim>, places: &Vec<(usize, usize)>) -> (r: Json)
    requires
        claims::lists_overlaps(rows.deep_view(), places@),
    ensures
        r@ == JsonValue::Array(overlap_values(rows.deep_view(), places@)),
{
    let mut out: Vec<Json> = Vec::new();
    let mut k: usize = 0;
    while k < places.len()
        invariant
            k <= places@.len(),
            out@.len() == k,
            claims::lists_overlaps(rows.deep_view(), places@),
            forall|j: int|
                0 <= j < k ==> json::json_view(#[trigger] out@[j]) == overlap_values(
                    rows.deep_view(),
                    places@,
                )[j],
        decreases places@.len() - k,
    {
        let (left, right) = places[k];
        assert(claims::clash_at(
            rows.deep_view(),
            places@[k as int].0 as int,
            places@[k as int].1 as int,
        ));
        out.push(inspect::overlap_json(&rows[left], &rows[right]));
        k = k + 1;
    }
    proof {
        json::lemma_items_view(out@);
        assert(json::items_view(out@) =~= overlap_values(rows.deep_view(), places@));
    }
    Json::Array(out)
}

/// Of Claims, and of each two of them that overlap.
pub fn claims_report(store: &Store, rows: &Vec<Claim>) -> (r: (Json, String))
    ensures
        exists|places: Seq<(usize, usize)>|
            {
                &&& #[trigger] claims::lists_overlaps(rows.deep_view(), places)
                &&& r.0@ == JsonValue::object().field(
                    "claims"@,
                    JsonValue::Array(claim_values(store@, rows.deep_view())),
                ).field(
                    "overlaps"@,
                    JsonValue::Array(overlap_values(rows.deep_view(), places)),
                )
            },
        r.1@ == text::joined(claim_lines(store@, rows.deep_view()), "\n"@),
{
    let mut shown: Vec<Json> = Vec::new();
    let mut said: Vec<String> = Vec::new();
    let mut i: usize = 0;
    while i < rows.len()
        invariant
            i <= rows@.len(),
            shown@.len() == i,
            said@.len() == i,
            forall|j: int|
                0 <= j < i ==> json::json_view(#[trigger] shown@[j]) == claim_values(
                    store@,
                    rows.deep_view(),
                )[j],
            forall|j: int|
                0 <= j < i ==> (#[trigger] said@[j])@ == claim_lines(store@, rows.deep_view())[j],
        decreases rows@.len() - i,
    {
        let name = claimant_name(store, &rows[i]);
        shown.push(inspect::claim_json(&rows[i], name.as_str()));
        said.push(inspect::claim_line(&rows[i], name.as_str()));
        i = i + 1;
    }
    proof {
        json::lemma_items_view(shown@);
        assert(json::items_view(shown@) =~= claim_values(store@, rows.deep_view()));
        assert(said.deep_view() =~= claim_lines(store@, rows.deep_view()));
    }
    let places = claims::overlapping_claims(rows);
    let overlaps = overlaps_json(rows, &places);
    assert(claims::lists_overlaps(rows.deep_view(), places@));
    (
        Json::empty().with("claims", Json::Array(shown)).with("overlaps", overlaps),
        text::join(&said, "\n"),
    )
}

/// Of a Claim that was renewed.
pub fn renewed_claim_report(id: &str, expires: &str) -> (r: (Json, String))
    ensures
        r.0@ == JsonValue::object().field("claim_id"@, JsonValue::Text(id@)).field(
            "expires_at"@,
            JsonValue::Text(expires@),
        ),
        r.1@ == "Renewed Claim "@ + id@ + " to "@ + expires@,
{
    (
        Json::empty().with("claim_id", Json::text(id)).with("expires_at", Json::text(expires)),
        text::concat3(text::concat2("Renewed Claim ", id).as_str(), " to ", expires),
    )
}

/// Of a Claim that was released.
pub fn released_claim_report(id: &str) -> (r: (Json, String))
    ensures
        r.0@ == JsonValue::object().field("claim_id"@, JsonValue::Text(id@)).field(
            "released"@,
            JsonValue::Bool(true),
        ),
        r.1@ == "Released Claim "@ + id@,
{
    (
        Json::empty().with("claim_id", Json::text(id)).with("released", Json::Bool(true)),
        text::concat2("Released Claim ", id),
    )
}

/// Of a session that began.
pub fn begun_session_report(session: &str, layer_id: &str, actor: Json) -> (r: (Json, String))
    ensures
        r.0@ == JsonValue::object().field("session_id"@, JsonValue::Text(session@)).field(
            "layer_id"@,
            JsonValue::Text(layer_id@),
        ).field("actor"@, actor@),
        r.1@ == session@,
{
    let shown = Json::empty().with("session_id", Json::text(session)).with(
        "layer_id",
        Json::text(layer_id),
    ).with("actor", actor);
    (shown, session.to_owned())
}

/// Of an event that was recorded in a session.
pub fn recorded_event_report(id: &str, session: &str, event_type: &str) -> (r: (Json, String))
    ensures
        r.0@ == JsonValue::object().field("event_id"@, JsonValue::Text(id@)).field(
            "session_id"@,
            JsonValue::Text(session@),
        ).field("type"@, JsonValue::Text(event_type@)),
        r.1@ == id@,
{
    let shown = Json::empty().with("event_id", Json::text(id)).with(
        "session_id",
        Json::text(session),
    ).with("type", Json::text(event_type));
    (shown, id.to_owned())
}

/// Of a file that was attached to a session.
pub fn attached_report(id: &str, object_id: &str, name: &str, size: u64) -> (r: (Json, String))
    ensures
        r.0@ == JsonValue::object().field("attachment_id"@, JsonValue::Text(id@)).field(
            "object_id"@,
            JsonValue::Text(object_id@),
        ).field("name"@, JsonValue::Text(name@)).field(
            "size"@,
            JsonValue::Number(text::decimal(size as nat)),
        ),
        r.1@ == id@,
{
    let shown = Json::empty().with("attachment_id", Json::text(id)).with(
        "object_id",
        Json::text(object_id),
    ).with("name", Json::text(name)).with("size", Json::Number(text::number(size)));
    (shown, id.to_owned())
}

/// Of a session that ended.
pub fn ended_session_report(session: &str) -> (r: (Json, String))
    ensures
        r.0@ == JsonValue::object().field("session_id"@, JsonValue::Text(session@)).field(
            "status"@,
            JsonValue::Text("ended"@),
        ),
        r.1@ == "Ended provenance session "@ + session@,
{
    (
        Json::empty().with("session_id", Json::text(session)).with("status", Json::text("ended")),
        text::concat2("Ended provenance session ", session),
    )
}

/// Of a session whose content was purged.
pub fn purged_session_report(session: &str) -> (r: (Json, String))
    ensures
        r.0@ == JsonValue::object().field("session_id"@, JsonValue::Text(session@)).field(
            "raw_payloads_purged"@,
            JsonValue::Bool(true),
        ),
        r.1@ == "Purged raw provenance payloads for "@ + session@,
{
    let shown = Json::empty().with("session_id", Json::text(session)).with(
        "raw_payloads_purged",
        Json::Bool(true),
    );
    (shown, text::concat2("Purged raw provenance payloads for ", session))
}

} // verus!
