//! The JSON form of the store's records.
use vstd::prelude::*;
use crate::json;
use crate::json::{Json, JsonValue};
use crate::model::{
    Change,
    ChangeKind,
    Checkpoint,
    EntryKind,
    Layer,
    Tree,
    TreeEntry,
    WorldVersion,
};
use crate::records::{ConflictRecord, ValidationRecord};
use crate::text;
use crate::text::Text;

verus! {

/// A record with a JSON form.
pub trait Shown: DeepView + Sized {
    spec fn value(row: Self::V) -> JsonValue;

    fn shown(&self) -> (r: Json)
        ensures
            r@ == Self::value(self.deep_view()),
    ;
}

/// The JSON forms of records.
pub open spec fn values<R: Shown>(rows: Seq<R::V>) -> Seq<JsonValue> {
    Seq::new(rows.len(), |i: int| R::value(rows[i]))
}

/// The JSON form of a record, or null where there is none.
pub open spec fn value_or_null<R: Shown>(row: Option<R::V>) -> JsonValue {
    match row {
        Some(content) => R::value(content),
        None => JsonValue::Null,
    }
}

/// An array of records.
pub fn list<R: Shown>(rows: &Vec<R>) -> (r: Json)
    ensures
        r@ == JsonValue::Array(values::<R>(rows.deep_view())),
{
    let mut out: Vec<Json> = Vec::new();
    let mut i: usize = 0;
    while i < rows.len()
        invariant
            i <= rows@.len(),
            out@.len() == i,
            forall|j: int|
                0 <= j < i ==> json::json_view(#[trigger] out@[j]) == R::value(
                    rows@[j].deep_view(),
                ),
        decreases rows@.len() - i,
    {
        out.push(rows[i].shown());
        i = i + 1;
    }
    proof {
        json::lemma_items_view(out@);
        assert(json::items_view(out@) =~= values::<R>(rows.deep_view()));
    }
    Json::Array(out)
}

/// The JSON form of a record, or null.
pub fn option<R: Shown>(row: &Option<R>) -> (r: Json)
    ensures
        r@ == value_or_null::<R>(row.deep_view()),
{
    match row {
        Some(content) => content.shown(),
        None => Json::Null,
    }
}

/// The name of an entry's kind.
pub open spec fn kind_name(kind: EntryKind) -> Text {
    match kind {
        EntryKind::File => "file"@,
        EntryKind::Directory => "directory"@,
        EntryKind::Symlink => "symlink"@,
    }
}

pub fn entry_kind_name(kind: EntryKind) -> (r: &'static str)
    ensures
        r@ == kind_name(kind),
{
    match kind {
        EntryKind::File => "file",
        EntryKind::Directory => "directory",
        EntryKind::Symlink => "symlink",
    }
}

/// The name of a change.
pub open spec fn change_name(change: ChangeKind) -> Text {
    match change {
        ChangeKind::Add => "add"@,
        ChangeKind::Modify => "modify"@,
        ChangeKind::Delete => "delete"@,
        ChangeKind::Type => "type"@,
        ChangeKind::Mode => "mode"@,
    }
}

pub fn change_kind_name(change: ChangeKind) -> (r: &'static str)
    ensures
        r@ == change_name(change),
{
    match change {
        ChangeKind::Add => "add",
        ChangeKind::Modify => "modify",
        ChangeKind::Delete => "delete",
        ChangeKind::Type => "type",
        ChangeKind::Mode => "mode",
    }
}

impl Shown for TreeEntry {
    open spec fn value(row: TreeEntry<Text>) -> JsonValue {
        JsonValue::object().field("path"@, JsonValue::Text(row.path)).field(
            "kind"@,
            JsonValue::Text(kind_name(row.kind)),
        ).field("object_id"@, json::text_or_null(row.object_id)).field(
            "executable"@,
            JsonValue::Bool(row.executable),
        )
    }

    fn shown(&self) -> (r: Json) {
        Json::empty().with("path", Json::text(self.path.as_str())).with(
            "kind",
            Json::text(entry_kind_name(self.kind)),
        ).with("object_id", Json::option(&self.object_id)).with(
            "executable",
            Json::Bool(self.executable),
        )
    }
}

/// The JSON form of a tree.
pub open spec fn tree_value(entries: Seq<TreeEntry<Text>>) -> JsonValue {
    JsonValue::object().field("entries"@, JsonValue::Array(values::<TreeEntry>(entries)))
}

pub fn tree_json(tree: &Tree) -> (r: Json)
    ensures
        r@ == tree_value(tree@),
{
    Json::empty().with("entries", list(&tree.entries))
}

impl Shown for Layer {
    open spec fn value(row: Layer<Text>) -> JsonValue {
        JsonValue::object().field("id"@, JsonValue::Text(row.id)).field(
            "name"@,
            JsonValue::Text(row.name),
        ).field("origin_ref"@, JsonValue::Text(row.origin_ref)).field(
            "synchronized_ref"@,
            JsonValue::Text(row.synchronized_ref),
        ).field("head_checkpoint"@, JsonValue::Text(row.head_checkpoint)).field(
            "target_kind"@,
            JsonValue::Text(row.target_kind.name()),
        ).field("target_id"@, json::text_or_null(row.target_id)).field(
            "status"@,
            JsonValue::Text(row.status.name()),
        ).field("view_path"@, JsonValue::Text(row.view_path)).field(
            "created_at"@,
            JsonValue::Text(row.created_at),
        )
    }

    fn shown(&self) -> (r: Json) {
        Json::empty().with("id", Json::text(self.id.as_str())).with(
            "name",
            Json::text(self.name.as_str()),
        ).with("origin_ref", Json::text(self.origin_ref.as_str())).with(
            "synchronized_ref",
            Json::text(self.synchronized_ref.as_str()),
        ).with("head_checkpoint", Json::text(self.head_checkpoint.as_str())).with(
            "target_kind",
            Json::text(self.target_kind.as_str()),
        ).with("target_id", Json::option(&self.target_id)).with(
            "status",
            Json::text(self.status.as_str()),
        ).with("view_path", Json::text(self.view_path.as_str())).with(
            "created_at",
            Json::text(self.created_at.as_str()),
        )
    }
}

impl Shown for Checkpoint {
    open spec fn value(row: Checkpoint<Text>) -> JsonValue {
        JsonValue::object().field("id"@, JsonValue::Text(row.id)).field(
            "layer_id"@,
            JsonValue::Text(row.layer_id),
        ).field("sequence"@, JsonValue::Number(text::decimal_int(row.sequence as int))).field(
            "previous_checkpoint"@,
            json::text_or_null(row.previous_checkpoint),
        ).field("root_tree"@, JsonValue::Text(row.root_tree)).field(
            "synchronized_ref"@,
            JsonValue::Text(row.synchronized_ref),
        ).field("reason"@, JsonValue::Text(row.reason)).field(
            "created_at"@,
            JsonValue::Text(row.created_at),
        )
    }

    fn shown(&self) -> (r: Json) {
        Json::empty().with("id", Json::text(self.id.as_str())).with(
            "layer_id",
            Json::text(self.layer_id.as_str()),
        ).with("sequence", Json::Number(text::number_i64(self.sequence))).with(
            "previous_checkpoint",
            Json::option(&self.previous_checkpoint),
        ).with("root_tree", Json::text(self.root_tree.as_str())).with(
            "synchronized_ref",
            Json::text(self.synchronized_ref.as_str()),
        ).with("reason", Json::text(self.reason.as_str())).with(
            "created_at",
            Json::text(self.created_at.as_str()),
        )
    }
}

impl Shown for WorldVersion {
    open spec fn value(row: WorldVersion<Text>) -> JsonValue {
        JsonValue::object().field("id"@, JsonValue::Text(row.id)).field(
            "sequence"@,
            JsonValue::Number(text::decimal_int(row.sequence as int)),
        ).field("parent_version"@, json::text_or_null(row.parent_version)).field(
            "root_tree"@,
            JsonValue::Text(row.root_tree),
        ).field("accepted_contribution"@, json::text_or_null(row.accepted_contribution)).field(
            "created_at"@,
            JsonValue::Text(row.created_at),
        )
    }

    fn shown(&self) -> (r: Json) {
        Json::empty().with("id", Json::text(self.id.as_str())).with(
            "sequence",
            Json::Number(text::number_i64(self.sequence)),
        ).with("parent_version", Json::option(&self.parent_version)).with(
            "root_tree",
            Json::text(self.root_tree.as_str()),
        ).with("accepted_contribution", Json::option(&self.accepted_contribution)).with(
            "created_at",
            Json::text(self.created_at.as_str()),
        )
    }
}

impl Shown for Change {
    open spec fn value(row: Change<Text>) -> JsonValue {
        JsonValue::object().field("path"@, JsonValue::Text(row.path)).field(
            "change"@,
            JsonValue::Text(change_name(row.change)),
        ).field("old"@, value_or_null::<TreeEntry>(row.old)).field(
            "new"@,
            value_or_null::<TreeEntry>(row.new),
        )
    }

    fn shown(&self) -> (r: Json) {
        Json::empty().with("path", Json::text(self.path.as_str())).with(
            "change",
            Json::text(change_kind_name(self.change)),
        ).with("old", option(&self.old)).with("new", option(&self.new))
    }
}

impl Shown for ValidationRecord {
    open spec fn value(row: ValidationRecord<Text>) -> JsonValue {
        JsonValue::object().field("id"@, JsonValue::Text(row.id)).field(
            "rule_name"@,
            JsonValue::Text(row.rule_name),
        ).field("command_json"@, JsonValue::Text(row.command_json)).field(
            "required"@,
            JsonValue::Bool(row.required),
        ).field("exit_code"@, JsonValue::Number(text::decimal_int(row.exit_code as int))).field(
            "duration_ms"@,
            JsonValue::Number(text::decimal_int(row.duration_ms as int)),
        ).field("environment_json"@, JsonValue::Text(row.environment_json)).field(
            "stdout_object"@,
            json::text_or_null(row.stdout_object),
        ).field("stderr_object"@, json::text_or_null(row.stderr_object)).field(
            "candidate_root"@,
            JsonValue::Text(row.candidate_root),
        ).field("policy_hash"@, JsonValue::Text(row.policy_hash)).field(
            "created_at"@,
            JsonValue::Text(row.created_at),
        )
    }

    fn shown(&self) -> (r: Json) {
        Json::empty().with("id", Json::text(self.id.as_str())).with(
            "rule_name",
            Json::text(self.rule_name.as_str()),
        ).with("command_json", Json::text(self.command_json.as_str())).with(
            "required",
            Json::Bool(self.required),
        ).with("exit_code", Json::Number(text::number_i64(self.exit_code as i64))).with(
            "duration_ms",
            Json::Number(text::number_i64(self.duration_ms)),
        ).with("environment_json", Json::text(self.environment_json.as_str())).with(
            "stdout_object",
            Json::option(&self.stdout_object),
        ).with("stderr_object", Json::option(&self.stderr_object)).with(
            "candidate_root",
            Json::text(self.candidate_root.as_str()),
        ).with("policy_hash", Json::text(self.policy_hash.as_str())).with(
            "created_at",
            Json::text(self.created_at.as_str()),
        )
    }
}

impl Shown for ConflictRecord {
    open spec fn value(row: ConflictRecord<Text>) -> JsonValue {
        JsonValue::object().field("id"@, JsonValue::Text(row.id)).field(
            "layer_id"@,
            JsonValue::Text(row.layer_id),
        ).field("path"@, JsonValue::Text(row.path)).field(
            "type"@,
            JsonValue::Text(row.conflict_type),
        ).field("base"@, value_or_null::<TreeEntry>(row.base_entry)).field(
            "target"@,
            value_or_null::<TreeEntry>(row.target_entry),
        ).field("private"@, value_or_null::<TreeEntry>(row.private_entry)).field(
            "target_ref"@,
            JsonValue::Text(row.target_ref),
        ).field("status"@, JsonValue::Text(row.status)).field(
            "resolution"@,
            json::text_or_null(row.resolution),
        ).field("created_at"@, JsonValue::Text(row.created_at))
    }

    fn shown(&self) -> (r: Json) {
        Json::empty().with("id", Json::text(self.id.as_str())).with(
            "layer_id",
            Json::text(self.layer_id.as_str()),
        ).with("path", Json::text(self.path.as_str())).with(
            "type",
            Json::text(self.conflict_type.as_str()),
        ).with("base", option(&self.base_entry)).with("target", option(&self.target_entry)).with(
            "private",
            option(&self.private_entry),
        ).with("target_ref", Json::text(self.target_ref.as_str())).with(
            "status",
            Json::text(self.status.as_str()),
        ).with("resolution", Json::option(&self.resolution)).with(
            "created_at",
            Json::text(self.created_at.as_str()),
        )
    }
}

/// What a command puts around its result.
pub open spec fn envelope(result: JsonValue) -> JsonValue {
    JsonValue::object().field("schema_version"@, JsonValue::Number("1"@)).field(
        "ok"@,
        JsonValue::Bool(true),
    ).field("result"@, result)
}

/// Puts the envelope around a command's result.
pub fn in_envelope(result: Json) -> (r: Json)
    ensures
        r@ == envelope(result@),
{
    Json::empty().with("schema_version", Json::Number("1".to_owned())).with(
        "ok",
        Json::Bool(true),
    ).with("result", result)
}

/// What is shown of a Conflict has each of its three states under the name of
/// its side.
pub proof fn law_conflict_shows_each_side(row: ConflictRecord<Text>)
    ensures
        ({
            let shown = ConflictRecord::value(row)->Object_0;
            &&& shown.contains(("id"@, JsonValue::Text(row.id)))
            &&& shown.contains(("layer_id"@, JsonValue::Text(row.layer_id)))
            &&& shown.contains(("path"@, JsonValue::Text(row.path)))
            &&& shown.contains(("type"@, JsonValue::Text(row.conflict_type)))
            &&& shown.contains(("base"@, value_or_null::<TreeEntry>(row.base_entry)))
            &&& shown.contains(("target"@, value_or_null::<TreeEntry>(row.target_entry)))
            &&& shown.contains(("private"@, value_or_null::<TreeEntry>(row.private_entry)))
            &&& shown.contains(("target_ref"@, JsonValue::Text(row.target_ref)))
            &&& shown.contains(("status"@, JsonValue::Text(row.status)))
            &&& shown.contains(("resolution"@, json::text_or_null(row.resolution)))
        }),
{
    let shown = ConflictRecord::value(row)->Object_0;
    assert(shown[0] == ("id"@, JsonValue::Text(row.id)));
    assert(shown[1] == ("layer_id"@, JsonValue::Text(row.layer_id)));
    assert(shown[2] == ("path"@, JsonValue::Text(row.path)));
    assert(shown[3] == ("type"@, JsonValue::Text(row.conflict_type)));
    assert(shown[4] == ("base"@, value_or_null::<TreeEntry>(row.base_entry)));
    assert(shown[5] == ("target"@, value_or_null::<TreeEntry>(row.target_entry)));
    assert(shown[6] == ("private"@, value_or_null::<TreeEntry>(row.private_entry)));
    assert(shown[7] == ("target_ref"@, JsonValue::Text(row.target_ref)));
    assert(shown[8] == ("status"@, JsonValue::Text(row.status)));
    assert(shown[9] == ("resolution"@, json::text_or_null(row.resolution)));
}

/// What is shown of a run has its rule, whether the rule is required, how the
/// run ended, and the objects of its outputs, each under its own name.
pub proof fn law_run_shows_how_it_ended(row: ValidationRecord<Text>)
    ensures
        ({
            let shown = ValidationRecord::value(row)->Object_0;
            &&& shown.contains(("rule_name"@, JsonValue::Text(row.rule_name)))
            &&& shown.contains(("required"@, JsonValue::Bool(row.required)))
            &&& shown.contains(
                ("exit_code"@, JsonValue::Number(text::decimal_int(row.exit_code as int))),
            )
            &&& shown.contains(("stdout_object"@, json::text_or_null(row.stdout_object)))
            &&& shown.contains(("stderr_object"@, json::text_or_null(row.stderr_object)))
            &&& shown.contains(("candidate_root"@, JsonValue::Text(row.candidate_root)))
            &&& shown.contains(("policy_hash"@, JsonValue::Text(row.policy_hash)))
        }),
{
    let shown = ValidationRecord::value(row)->Object_0;
    assert(shown[1] == ("rule_name"@, JsonValue::Text(row.rule_name)));
    assert(shown[3] == ("required"@, JsonValue::Bool(row.required)));
    assert(shown[4] == (
        "exit_code"@,
        JsonValue::Number(text::decimal_int(row.exit_code as int)),
    ));
    assert(shown[7] == ("stdout_object"@, json::text_or_null(row.stdout_object)));
    assert(shown[8] == ("stderr_object"@, json::text_or_null(row.stderr_object)));
    assert(shown[9] == ("candidate_root"@, JsonValue::Text(row.candidate_root)));
    assert(shown[10] == ("policy_hash"@, JsonValue::Text(row.policy_hash)));
}

/// What is shown of an entry, a change, a Checkpoint and a version has each
/// field under its own name.
pub proof fn law_records_show_each_field(
    entry: TreeEntry<Text>,
    change: Change<Text>,
    checkpoint: Checkpoint<Text>,
    version: WorldVersion<Text>,
)
    ensures
        TreeEntry::value(entry)->Object_0.contains(("path"@, JsonValue::Text(entry.path))),
        TreeEntry::value(entry)->Object_0.contains(
            ("object_id"@, json::text_or_null(entry.object_id)),
        ),
        TreeEntry::value(entry)->Object_0.contains(
            ("executable"@, JsonValue::Bool(entry.executable)),
        ),
        Change::value(change)->Object_0.contains(("path"@, JsonValue::Text(change.path))),
        Change::value(change)->Object_0.contains(
            ("old"@, value_or_null::<TreeEntry>(change.old)),
        ),
        Change::value(change)->Object_0.contains(
            ("new"@, value_or_null::<TreeEntry>(change.new)),
        ),
        Checkpoint::value(checkpoint)->Object_0.contains(
            ("root_tree"@, JsonValue::Text(checkpoint.root_tree)),
        ),
        Checkpoint::value(checkpoint)->Object_0.contains(
            ("synchronized_ref"@, JsonValue::Text(checkpoint.synchronized_ref)),
        ),
        Checkpoint::value(checkpoint)->Object_0.contains(
            ("previous_checkpoint"@, json::text_or_null(checkpoint.previous_checkpoint)),
        ),
        WorldVersion::value(version)->Object_0.contains(
            ("root_tree"@, JsonValue::Text(version.root_tree)),
        ),
        WorldVersion::value(version)->Object_0.contains(
            ("parent_version"@, json::text_or_null(version.parent_version)),
        ),
        WorldVersion::value(version)->Object_0.contains(
            ("accepted_contribution"@, json::text_or_null(version.accepted_contribution)),
        ),
{
    let e = TreeEntry::value(entry)->Object_0;
    assert(e[0] == ("path"@, JsonValue::Text(entry.path)));
    assert(e[2] == ("object_id"@, json::text_or_null(entry.object_id)));
    assert(e[3] == ("executable"@, JsonValue::Bool(entry.executable)));
    let c = Change::value(change)->Object_0;
    assert(c[0] == ("path"@, JsonValue::Text(change.path)));
    assert(c[2] == ("old"@, value_or_null::<TreeEntry>(change.old)));
    assert(c[3] == ("new"@, value_or_null::<TreeEntry>(change.new)));
    let k = Checkpoint::value(checkpoint)->Object_0;
    assert(k[4] == ("root_tree"@, JsonValue::Text(checkpoint.root_tree)));
    assert(k[5] == ("synchronized_ref"@, JsonValue::Text(checkpoint.synchronized_ref)));
    assert(k[3] == ("previous_checkpoint"@, json::text_or_null(checkpoint.previous_checkpoint)));
    let v = WorldVersion::value(version)->Object_0;
    assert(v[3] == ("root_tree"@, JsonValue::Text(version.root_tree)));
    assert(v[2] == ("parent_version"@, json::text_or_null(version.parent_version)));
    assert(v[4] == (
        "accepted_contribution"@,
        json::text_or_null(version.accepted_contribution),
    ));
}

/// What is shown of a Layer has each field under its own name.
pub proof fn law_layer_shows_each_field(row: Layer<Text>)
    ensures
        ({
            let shown = Layer::value(row)->Object_0;
            &&& shown.contains(("id"@, JsonValue::Text(row.id)))
            &&& shown.contains(("name"@, JsonValue::Text(row.name)))
            &&& shown.contains(("synchronized_ref"@, JsonValue::Text(row.synchronized_ref)))
            &&& shown.contains(("head_checkpoint"@, JsonValue::Text(row.head_checkpoint)))
            &&& shown.contains(("target_id"@, json::text_or_null(row.target_id)))
            &&& shown.contains(("view_path"@, JsonValue::Text(row.view_path)))
        }),
{
    let shown = Layer::value(row)->Object_0;
    assert(shown[0] == ("id"@, JsonValue::Text(row.id)));
    assert(shown[1] == ("name"@, JsonValue::Text(row.name)));
    assert(shown[3] == ("synchronized_ref"@, JsonValue::Text(row.synchronized_ref)));
    assert(shown[4] == ("head_checkpoint"@, JsonValue::Text(row.head_checkpoint)));
    assert(shown[6] == ("target_id"@, json::text_or_null(row.target_id)));
    assert(shown[8] == ("view_path"@, JsonValue::Text(row.view_path)));
}

} // verus!
