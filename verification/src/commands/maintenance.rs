//! Checking a store, repairing views, and reporting on both.
use vstd::prelude::*;
use crate::clock;
use crate::commands::reachability;
use crate::commands::reachability::Reached;
use crate::commands::views;
use crate::commands::views::{Order, ViewOrder};
use crate::error::{Failure, JavelinError, Result};
use crate::files;
use crate::files::{FilesState, ObjectFiles};
use crate::json::{Json, JsonValue};
use crate::model::{Layer, WorldVersion};
use crate::objects::ObjectKind;
use crate::ordered;
use crate::ordered::PathMap;
use crate::paths;
use crate::records;
use crate::records::ObjectRecord;
use crate::report;
use crate::report::Shown;
use crate::store;
use crate::store::{layers, Store, StoreState};
use crate::tables;
use crate::text;
use crate::text::Text;

verus! {

/// Why a root reference is not sound, if it is not.
pub open spec fn root_check(files: FilesState) -> spec_fn(Text) -> Option<Failure> {
    |id: Text|
        match files::object_outcome(files, id) {
            Err(failure) => Some(failure),
            Ok((ObjectKind::Tree, _)) => None,
            Ok((ObjectKind::Blob, _)) => Some(
                Failure::corruption(
                    "root reference "@ + id + " does not identify a tree"@,
                ),
            ),
        }
}

/// Why a blob reference is not sound, if it is not.
pub open spec fn blob_check(files: FilesState) -> spec_fn(Text) -> Option<Failure> {
    |id: Text|
        match files::object_outcome(files, id) {
            Err(failure) => Some(failure),
            Ok((ObjectKind::Blob, _)) => None,
            Ok((ObjectKind::Tree, _)) => Some(
                Failure::corruption("blob reference "@ + id + " identifies a tree"@),
            ),
        }
}

/// Why a stored object is not sound, if it is not.
pub open spec fn object_check(files: FilesState) -> spec_fn(Text) -> Option<Failure> {
    |id: Text|
        match files::object_outcome(files, id) {
            Err(failure) => Some(failure),
            Ok(_) => None,
        }
}

/// An object that is referred to has a record.
pub open spec fn recorded_check(rows: Seq<ObjectRecord<Text>>) -> spec_fn(Text) -> Option<Failure> {
    |id: Text|
        if tables::any(rows, records::object_is(id)) {
            None
        } else {
            Some(Failure::corruption("object metadata missing for "@ + id))
        }
}

/// The record of an object says what its file says.
pub open spec fn record_check(files: FilesState) -> spec_fn(ObjectRecord<Text>) -> Option<Failure> {
    |row: ObjectRecord<Text>|
        match files::object_outcome(files, row.id) {
            Err(failure) => Some(failure),
            Ok((kind, content)) => if layers::kind_text(kind) != row.kind || content.len()
                != row.uncompressed_size {
                Some(Failure::corruption("object metadata mismatch for "@ + row.id))
            } else {
                None
            },
        }
}

/// Why the database is not sound, by what it says of itself, if it is not.
pub open spec fn database_failure(integrity: Text, violation: Option<(Text, i64)>) -> Option<
    Failure,
> {
    if integrity != "ok"@ {
        Some(Failure::corruption("SQLite integrity check failed: "@ + integrity))
    } else {
        match violation {
            Some((table, row)) => Some(
                Failure::corruption(
                    "foreign-key violation in "@ + table + " row "@ + text::decimal_int(
                        row as int,
                    ),
                ),
            ),
            None => None,
        }
    }
}

/// Why the objects are not sound, if they are not.
pub open spec fn objects_failure(
    state: StoreState,
    files: FilesState,
    ids: Seq<Text>,
    reached: Reached,
) -> Option<Failure> {
    match tables::first_failure(ordered::sorted_keys(reached.roots), root_check(files)) {
        Some(failure) => Some(failure),
        None => match tables::first_failure(
            ordered::sorted_keys(reached.blobs),
            blob_check(files),
        ) {
            Some(failure) => Some(failure),
            None => match tables::first_failure(ids, object_check(files)) {
                Some(failure) => Some(failure),
                None => match tables::first_failure(
                    ordered::sorted_keys(reached.all()),
                    recorded_check(state.object_metadata),
                ) {
                    Some(failure) => Some(failure),
                    None => tables::first_failure(
                        tables::in_order::<ObjectRecord>(state.object_metadata),
                        record_check(files),
                    ),
                },
            },
        },
    }
}

/// What a check of the store gives: what is referred to, or the first fault.
pub open spec fn fsck_outcome(
    state: StoreState,
    files: FilesState,
    ids: Seq<Text>,
    integrity: Text,
    violation: Option<(Text, i64)>,
) -> std::result::Result<Reached, Failure> {
    match database_failure(integrity, violation) {
        Some(failure) => Err(failure),
        None => match reachability::reachability_outcome(state, files) {
            Err(failure) => Err(failure),
            Ok(reached) => match objects_failure(state, files, ids, reached) {
                Some(failure) => Err(failure),
                None => Ok(reached),
            },
        },
    }
}

/// What a check of a sound store counted.
#[derive(Debug)]
pub struct FsckReport {
    pub objects_checked: usize,
    pub root_references: usize,
    pub blob_references: usize,
}

impl FsckReport {
    /// What the command shows.
    pub fn json(&self) -> (r: Json)
        ensures
            r@ == JsonValue::object().field("valid"@, JsonValue::Bool(true)).field(
                "objects_checked"@,
                JsonValue::Number(text::decimal(self.objects_checked as nat)),
            ).field(
                "root_references"@,
                JsonValue::Number(text::decimal(self.root_references as nat)),
            ).field(
                "blob_references"@,
                JsonValue::Number(text::decimal(self.blob_references as nat)),
            ).field("sqlite_integrity"@, JsonValue::Text("ok"@)).field(
                "foreign_keys"@,
                JsonValue::Text("ok"@),
            ),
    {
        Json::empty().with("valid", Json::Bool(true)).with(
            "objects_checked",
            Json::Number(text::number(self.objects_checked as u64)),
        ).with("root_references", Json::Number(text::number(self.root_references as u64))).with(
            "blob_references",
            Json::Number(text::number(self.blob_references as u64)),
        ).with("sqlite_integrity", Json::text("ok")).with("foreign_keys", Json::text("ok"))
    }

    /// What the command says.
    pub fn human(&self) -> (r: String)
        ensures
            r@ == "Store valid: "@ + text::decimal(self.objects_checked as nat)
                + " object references checked"@,
    {
        text::concat3(
            "Store valid: ",
            text::number(self.objects_checked as u64).as_str(),
            " object references checked",
        )
    }
}

fn check_database(integrity: &str, violation: &Option<(String, i64)>) -> (r: Result<()>)
    ensures
        match database_failure(integrity@, violation_view(*violation)) {
            Some(failure) => r is Err && r->Err_0@ == failure,
            None => r is Ok,
        },
{
    if !text::same(integrity, "ok") {
        return Err(
            JavelinError::corruption(
                text::concat2("SQLite integrity check failed: ", integrity),
            ),
        );
    }
    match violation {
        Some((table, row)) => Err(
            JavelinError::corruption(
                text::concat3(
                    text::concat2("foreign-key violation in ", table.as_str()).as_str(),
                    " row ",
                    text::number_i64(*row).as_str(),
                ),
            ),
        ),
        None => Ok(()),
    }
}

pub open spec fn violation_view(violation: Option<(String, i64)>) -> Option<(Text, i64)> {
    match violation {
        Some((table, row)) => Some((table@, row)),
        None => None,
    }
}

fn check_roots(files: &ObjectFiles, roots: &PathMap<()>) -> (r: Result<()>)
    requires
        files.wf(),
        roots.wf(),
    ensures
        match tables::first_failure(ordered::sorted_keys(roots@.dom()), root_check(files@)) {
            Some(failure) => r is Err && r->Err_0@ == failure,
            None => r is Ok,
        },
{
    let ghost items = ordered::keys(roots.pairs());
    let ghost check = root_check(files@);
    proof {
        assert forall|key: Text| #[trigger] roots@.dom().contains(key) <==> ordered::map_of(
            roots.pairs(),
        ).contains_key(key) by {}
        ordered::lemma_keys(roots.pairs(), roots@.dom());
        assert(items.take(0) =~= Seq::empty());
    }
    let mut i: usize = 0;
    while i < roots.len()
        invariant
            i <= roots.pairs().len(),
            files.wf(),
            items == ordered::keys(roots.pairs()),
            items == ordered::sorted_keys(roots@.dom()),
            check == root_check(files@),
            tables::first_failure(items.take(i as int), check) is None,
        decreases roots.pairs().len() - i,
    {
        let id = roots.key_at(i).as_str();
        proof {
            assert(items.take(i as int + 1).drop_last() =~= items.take(i as int));
            assert(items.take(i as int + 1).last() == id@);
            if tables::first_failure(items.take(i as int + 1), check) is Some {
                tables::lemma_first_failure(items, check, i as int + 1);
            }
        }
        let (kind, _) = files.validate(id)?;
        if kind != ObjectKind::Tree {
            return Err(
                JavelinError::corruption(
                    text::concat3("root reference ", id, " does not identify a tree"),
                ),
            );
        }
        i = i + 1;
    }
    assert(items.take(i as int) =~= items);
    Ok(())
}

fn check_blobs(files: &ObjectFiles, blobs: &PathMap<()>) -> (r: Result<()>)
    requires
        files.wf(),
        blobs.wf(),
    ensures
        match tables::first_failure(ordered::sorted_keys(blobs@.dom()), blob_check(files@)) {
            Some(failure) => r is Err && r->Err_0@ == failure,
            None => r is Ok,
        },
{
    let ghost items = ordered::keys(blobs.pairs());
    let ghost check = blob_check(files@);
    proof {
        assert forall|key: Text| #[trigger] blobs@.dom().contains(key) <==> ordered::map_of(
            blobs.pairs(),
        ).contains_key(key) by {}
        ordered::lemma_keys(blobs.pairs(), blobs@.dom());
        assert(items.take(0) =~= Seq::empty());
    }
    let mut i: usize = 0;
    while i < blobs.len()
        invariant
            i <= blobs.pairs().len(),
            files.wf(),
            items == ordered::keys(blobs.pairs()),
            items == ordered::sorted_keys(blobs@.dom()),
            check == blob_check(files@),
            tables::first_failure(items.take(i as int), check) is None,
        decreases blobs.pairs().len() - i,
    {
        let id = blobs.key_at(i).as_str();
        proof {
            assert(items.take(i as int + 1).drop_last() =~= items.take(i as int));
            assert(items.take(i as int + 1).last() == id@);
            if tables::first_failure(items.take(i as int + 1), check) is Some {
                tables::lemma_first_failure(items, check, i as int + 1);
            }
        }
        let (kind, _) = files.validate(id)?;
        if kind != ObjectKind::Blob {
            return Err(
                JavelinError::corruption(
                    text::concat3("blob reference ", id, " identifies a tree"),
                ),
            );
        }
        i = i + 1;
    }
    assert(items.take(i as int) =~= items);
    Ok(())
}

fn check_objects(files: &ObjectFiles, ids: &Vec<String>) -> (r: Result<()>)
    requires
        files.wf(),
    ensures
        match tables::first_failure(ids.deep_view(), object_check(files@)) {
            Some(failure) => r is Err && r->Err_0@ == failure,
            None => r is Ok,
        },
{
    let ghost items = ids.deep_view();
    let ghost check = object_check(files@);
    assert(items.take(0) =~= Seq::empty());
    let mut i: usize = 0;
    while i < ids.len()
        invariant
            i <= ids@.len(),
            files.wf(),
            items == ids.deep_view(),
            check == object_check(files@),
            tables::first_failure(items.take(i as int), check) is None,
        decreases ids@.len() - i,
    {
        let id = ids[i].as_str();
        proof {
            assert(items.take(i as int + 1).drop_last() =~= items.take(i as int));
            assert(items.take(i as int + 1).last() == id@);
            if tables::first_failure(items.take(i as int + 1), check) is Some {
                tables::lemma_first_failure(items, check, i as int + 1);
            }
        }
        files.validate(id)?;
        i = i + 1;
    }
    assert(items.take(i as int) =~= items);
    Ok(())
}

fn check_recorded(rows: &Vec<ObjectRecord>, reached: &PathMap<()>) -> (r: Result<()>)
    requires
        reached.wf(),
    ensures
        match tables::first_failure(
            ordered::sorted_keys(reached@.dom()),
            recorded_check(rows.deep_view()),
        ) {
            Some(failure) => r is Err && r->Err_0@ == failure,
            None => r is Ok,
        },
{
    let ghost items = ordered::keys(reached.pairs());
    let ghost check = recorded_check(rows.deep_view());
    proof {
        assert forall|key: Text| #[trigger] reached@.dom().contains(key) <==> ordered::map_of(
            reached.pairs(),
        ).contains_key(key) by {}
        ordered::lemma_keys(reached.pairs(), reached@.dom());
        assert(items.take(0) =~= Seq::empty());
    }
    let mut i: usize = 0;
    while i < reached.len()
        invariant
            i <= reached.pairs().len(),
            items == ordered::keys(reached.pairs()),
            items == ordered::sorted_keys(reached@.dom()),
            check == recorded_check(rows.deep_view()),
            tables::first_failure(items.take(i as int), check) is None,
        decreases reached.pairs().len() - i,
    {
        let id = reached.key_at(i).as_str();
        proof {
            assert(items.take(i as int + 1).drop_last() =~= items.take(i as int));
            assert(items.take(i as int + 1).last() == id@);
            if tables::first_failure(items.take(i as int + 1), check) is Some {
                tables::lemma_first_failure(items, check, i as int + 1);
            }
        }
        if records::find_object(rows, id).is_none() {
            return Err(
                JavelinError::corruption(text::concat2("object metadata missing for ", id)),
            );
        }
        i = i + 1;
    }
    assert(items.take(i as int) =~= items);
    Ok(())
}

fn check_records(files: &ObjectFiles, rows: &Vec<ObjectRecord>) -> (r: Result<()>)
    requires
        files.wf(),
    ensures
        match tables::first_failure(rows.deep_view(), record_check(files@)) {
            Some(failure) => r is Err && r->Err_0@ == failure,
            None => r is Ok,
        },
{
    let ghost items = rows.deep_view();
    let ghost check = record_check(files@);
    assert(items.take(0) =~= Seq::empty());
    let mut i: usize = 0;
    while i < rows.len()
        invariant
            i <= rows@.len(),
            files.wf(),
            items == rows.deep_view(),
            check == record_check(files@),
            tables::first_failure(items.take(i as int), check) is None,
        decreases rows@.len() - i,
    {
        let row = &rows[i];
        proof {
            assert(items.take(i as int + 1).drop_last() =~= items.take(i as int));
            assert(items.take(i as int + 1).last() == row@);
            if tables::first_failure(items.take(i as int + 1), check) is Some {
                tables::lemma_first_failure(items, check, i as int + 1);
            }
        }
        let (kind, size) = files.validate(row.id.as_str())?;
        if !text::same(layers::object_kind_text(kind), row.kind.as_str())
            || row.uncompressed_size < 0 || row.uncompressed_size as u64 != size {
            return Err(
                JavelinError::corruption(
                    text::concat2("object metadata mismatch for ", row.id.as_str()),
                ),
            );
        }
        i = i + 1;
    }
    assert(items.take(i as int) =~= items);
    Ok(())
}

/// Checks the store: what the database says of itself, every object that is
/// referred to or stored, and the records of the objects.
pub fn fsck(
    store: &Store,
    files: &ObjectFiles,
    ids: &Vec<String>,
    integrity: &str,
    violation: &Option<(String, i64)>,
) -> (r: Result<FsckReport>)
    requires
        files.wf(),
    ensures
        match fsck_outcome(
            store@,
            files@,
            ids.deep_view(),
            integrity@,
            violation_view(*violation),
        ) {
            Ok(reached) => r is Ok && r->Ok_0.objects_checked == ids@.len()
                && r->Ok_0.root_references == reached.roots.len() && r->Ok_0.blob_references
                == reached.blobs.len(),
            Err(failure) => r is Err && r->Err_0@ == failure,
        },
{
    check_database(integrity, violation)?;
    let reachability = reachability::collect_reachability(store, files)?;
    check_roots(files, &reachability.roots)?;
    check_blobs(files, &reachability.blobs)?;
    check_objects(files, ids)?;
    let reached = reachability.all();
    check_recorded(&store.object_metadata, &reached)?;
    let rows = tables::put_in_order(&store.object_metadata);
    check_records(files, &rows)?;
    proof {
        ordered::lemma_key_count(reachability.roots.pairs());
        ordered::lemma_key_count(reachability.blobs.pairs());
    }
    Ok(
        FsckReport {
            objects_checked: ids.len(),
            root_references: reachability.roots.len(),
            blob_references: reachability.blobs.len(),
        },
    )
}

/// The Layers that a repair covers.
pub open spec fn repair_outcome(state: StoreState, requested: Option<Text>) -> std::result::Result<
    Seq<Layer<Text>>,
    Failure,
> {
    match requested {
        Some(name) => match store::layer_outcome(state, name) {
            Ok(layer) => Ok(seq![layer]),
            Err(failure) => Err(failure),
        },
        None => Ok(tables::in_order::<Layer>(tables::kept(state.layers, store::listed(false)))),
    }
}

/// The Layers that a repair covers: the one asked for, or all that are not
/// discarded.
pub fn layers_to_repair(store: &Store, requested: Option<&str>) -> (r: Result<Vec<Layer>>)
    ensures
        match repair_outcome(store@, requested.deep_view()) {
            Ok(found) => r is Ok && r->Ok_0.deep_view() == found,
            Err(failure) => r is Err && r->Err_0@ == failure,
        },
{
    match requested {
        Some(name) => {
            let layer = store.layer(name)?;
            let mut out: Vec<Layer> = Vec::new();
            let ghost row = layer@;
            out.push(layer);
            assert(out.deep_view() =~= seq![row]);
            Ok(out)
        },
        None => Ok(store.layers(false)),
    }
}

/// What the repair of a Layer's view begins with.
pub open spec fn begin_repair_outcome(
    state: StoreState,
    files: FilesState,
    layer: Layer<Text>,
    now: Text,
) -> std::result::Result<(StoreState, Order), Failure> {
    match views::head_outcome(state, files, layer) {
        Err(failure) => Err(failure),
        Ok((head, tree)) => Ok(
            (
                views::opened(state, layer.id, head.id, now),
                views::order_for(state.root, layer, head.id, head.root_tree, tree),
            ),
        ),
    }
}

/// Begins the repair of a Layer's view at a given time: the view is stale until
/// the order is carried out.
pub fn begin_repair_at(store: &mut Store, files: &ObjectFiles, layer: &Layer, now: &str) -> (r:
    Result<ViewOrder>)
    requires
        files.wf(),
    ensures
        match begin_repair_outcome(old(store)@, files@, layer@, now@) {
            Ok((state, order)) => r is Ok && final(store)@ == state && r->Ok_0@ == order,
            Err(failure) => r is Err && r->Err_0@ == failure && final(store)@ == old(store)@,
        },
{
    let (head, tree) = views::head_and_tree(store, files, layer)?;
    let order = views::order_view(
        store,
        layer,
        head.id.as_str(),
        head.root_tree.as_str(),
        tree,
    );
    store.mark_view_at(layer.id.as_str(), head.id.as_str(), true, "materializing", now);
    Ok(order)
}

/// Begins the repair of a Layer's view.
pub fn begin_repair(store: &mut Store, files: &ObjectFiles, layer: &Layer) -> (r: Result<
    ViewOrder,
>)
    requires
        files.wf(),
    ensures
        exists|now: Text|
            clock::is_stamp(now)
                && match #[trigger] begin_repair_outcome(old(store)@, files@, layer@, now) {
                Ok((state, order)) => r is Ok && final(store)@ == state && r->Ok_0@ == order,
                Err(failure) => r is Err && r->Err_0@ == failure && final(store)@ == old(store)@,
            },
{
    let now = clock::now();
    begin_repair_at(store, files, layer, now.as_str())
}

/// A view that was repaired.
#[derive(Debug)]
#[verifier::ext_equal]
pub struct Repaired<S = String> {
    pub layer: S,
    pub checkpoint: S,
    pub backend: S,
}

impl DeepView for Repaired {
    type V = Repaired<Text>;

    open spec fn deep_view(&self) -> Repaired<Text> {
        Repaired { layer: self.layer@, checkpoint: self.checkpoint@, backend: self.backend@ }
    }
}

impl Shown for Repaired {
    open spec fn value(row: Repaired<Text>) -> JsonValue {
        JsonValue::object().field("layer"@, JsonValue::Text(row.layer)).field(
            "checkpoint"@,
            JsonValue::Text(row.checkpoint),
        ).field("backend"@, JsonValue::Text(row.backend))
    }

    fn shown(&self) -> (r: Json) {
        Json::empty().with("layer", Json::text(self.layer.as_str())).with(
            "checkpoint",
            Json::text(self.checkpoint.as_str()),
        ).with("backend", Json::text(self.backend.as_str()))
    }
}

/// Records at a given time that views were repaired.
pub fn complete_repair_at(store: &mut Store, repaired: &Vec<Repaired>, now: &str)
    ensures
        final(store)@ == old(store)@.with_event(
            "repair.completed"@,
            Some("world"@),
            None,
            JsonValue::object().field(
                "views"@,
                JsonValue::Array(report::values::<Repaired>(repaired.deep_view())),
            ),
            now@,
        ),
{
    store.append_event_at(
        "repair.completed",
        Some("world"),
        None,
        Json::empty().with("views", report::list(repaired)),
        now,
    );
}

/// Records that views were repaired.
pub fn complete_repair(store: &mut Store, repaired: &Vec<Repaired>)
    ensures
        exists|now: Text|
            clock::is_stamp(now) && final(store)@ == #[trigger] old(store)@.with_event(
                "repair.completed"@,
                Some("world"@),
                None,
                JsonValue::object().field(
                    "views"@,
                    JsonValue::Array(report::values::<Repaired>(repaired.deep_view())),
                ),
                now,
            ),
{
    let now = clock::now();
    complete_repair_at(store, repaired, now.as_str())
}

/// How views are put on disk on a platform.
pub open spec fn backend_name(clones: bool) -> Text {
    if clones {
        "copy_on_write_or_copy"@
    } else {
        "copy"@
    }
}

/// What is known of the program and the machine.
#[derive(Debug)]
pub struct Environment<'a> {
    pub version: &'a str,
    pub platform: &'a str,
    pub architecture: &'a str,
    /// Files can share their blocks until one is written.
    pub clones: bool,
    pub monitor_ready: bool,
}

/// What the doctor shows.
pub open spec fn doctor_value(
    state: StoreState,
    world: WorldVersion<Text>,
    version: Text,
    platform: Text,
    architecture: Text,
    clones: bool,
    monitor_ready: bool,
) -> JsonValue {
    JsonValue::object().field("version"@, JsonValue::Text(version)).field(
        "world"@,
        WorldVersion::value(world),
    ).field(
        "database"@,
        JsonValue::Text(paths::joined_path(state.metadata, "store.sqlite3"@)),
    ).field("materialization"@, JsonValue::Text(backend_name(clones))).field(
        "platform"@,
        JsonValue::Text(platform),
    ).field("architecture"@, JsonValue::Text(architecture)).field(
        "monitor_ready"@,
        JsonValue::Bool(monitor_ready),
    )
}

/// What the doctor shows and says.
pub fn doctor(store: &Store, environment: &Environment<'_>) -> (r: Result<(Json, String)>)
    ensures
        match store::current_outcome(store@) {
            Ok(world) => r is Ok && r->Ok_0.0@ == doctor_value(
                store@,
                world,
                environment.version@,
                environment.platform@,
                environment.architecture@,
                environment.clones,
                environment.monitor_ready,
            ) && r->Ok_0.1@ == "Javelin "@ + environment.version@ + ": World "@ + world.id
                + ", store readable, backend "@ + backend_name(environment.clones),
            Err(failure) => r is Err && r->Err_0@ == failure,
        },
{
    let world = store.current_world()?;
    let backend: &'static str = if environment.clones {
        "copy_on_write_or_copy"
    } else {
        "copy"
    };
    let human = text::concat3(
        text::concat3(
            text::concat2("Javelin ", environment.version).as_str(),
            ": World ",
            world.id.as_str(),
        ).as_str(),
        ", store readable, backend ",
        backend,
    );
    let shown = Json::empty().with("version", Json::text(environment.version)).with(
        "world",
        world.shown(),
    ).with(
        "database",
        Json::text(paths::join_path(store.metadata.as_str(), "store.sqlite3").as_str()),
    ).with("materialization", Json::text(backend)).with(
        "platform",
        Json::text(environment.platform),
    ).with("architecture", Json::text(environment.architecture)).with(
        "monitor_ready",
        Json::Bool(environment.monitor_ready),
    );
    Ok((shown, human))
}

/// The hexadecimal digit of a number under sixteen.
pub open spec fn hex_char(n: u8) -> char {
    if n < 10 {
        (n + 48) as char
    } else {
        (n + 87) as char
    }
}

/// The hexadecimal form of bytes, two digits each.
pub open spec fn hex_text(content: Seq<u8>) -> Text
    decreases content.len(),
{
    if content.len() == 0 {
        Seq::empty()
    } else {
        hex_text(content.drop_last()).push(hex_char(content.last() / 16)).push(
            hex_char(content.last() % 16),
        )
    }
}

fn hex_digit_of(n: u8) -> (r: char)
    requires
        n < 16,
    ensures
        r == hex_char(n),
{
    if n < 10 {
        (n + 48) as char
    } else {
        (n + 87) as char
    }
}

/// The hexadecimal form of bytes.
pub fn hex(content: &[u8]) -> (r: String)
    ensures
        r@ == hex_text(content@),
{
    let mut out = String::new();
    let mut i: usize = 0;
    assert(content@.take(0) =~= Seq::empty());
    while i < content.len()
        invariant
            i <= content@.len(),
            out@ == hex_text(content@.take(i as int)),
        decreases content@.len() - i,
    {
        proof {
            assert(content@.take(i as int + 1).drop_last() =~= content@.take(i as int));
            assert(content@.take(i as int + 1).last() == content@[i as int]);
        }
        out.push(hex_digit_of(content[i] / 16));
        out.push(hex_digit_of(content[i] % 16));
        i = i + 1;
    }
    assert(content@.take(i as int) =~= content@);
    out
}

/// A sound store holds every object that it refers to, with the kind that the
/// reference asks for, and every object under its own identity.
pub proof fn law_sound_store_is_complete(
    state: StoreState,
    files: FilesState,
    ids: Seq<Text>,
    integrity: Text,
    violation: Option<(Text, i64)>,
    id: Text,
)
    requires
        fsck_outcome(state, files, ids, integrity, violation) is Ok,
    ensures
        ids.contains(id) ==> files::object_outcome(files, id) is Ok,
        ({
            let reached = fsck_outcome(state, files, ids, integrity, violation)->Ok_0;
            &&& reached.roots.contains(id) ==> files::object_outcome(files, id) is Ok
                && files::object_outcome(files, id)->Ok_0.0 == ObjectKind::Tree
            &&& reached.blobs.contains(id) ==> files::object_outcome(files, id) is Ok
                && files::object_outcome(files, id)->Ok_0.0 == ObjectKind::Blob
            &&& reached.all().contains(id) ==> tables::any(
                state.object_metadata,
                records::object_is(id),
            )
        }),
{
    let reached = fsck_outcome(state, files, ids, integrity, violation)->Ok_0;
    reachability::lemma_reached_finite(state, files);
    ordered::lemma_sorted_keys(reached.roots);
    ordered::lemma_sorted_keys(reached.blobs);
    ordered::lemma_sorted_keys(reached.all());
    lemma_all_pass(ids, object_check(files), id);
    lemma_all_pass(ordered::sorted_keys(reached.roots), root_check(files), id);
    lemma_all_pass(ordered::sorted_keys(reached.blobs), blob_check(files), id);
    lemma_all_pass(
        ordered::sorted_keys(reached.all()),
        recorded_check(state.object_metadata),
        id,
    );
}

proof fn lemma_all_pass<A>(items: Seq<A>, check: spec_fn(A) -> Option<Failure>, item: A)
    requires
        tables::first_failure(items, check) is None,
    ensures
        items.contains(item) ==> check(item) is None,
{
    if items.contains(item) {
        let i = choose|i: int| 0 <= i < items.len() && items[i] == item;
        lemma_passes(items, check, i);
    }
}

proof fn lemma_passes<A>(items: Seq<A>, check: spec_fn(A) -> Option<Failure>, i: int)
    requires
        0 <= i < items.len(),
        tables::first_failure(items, check) is None,
    ensures
        check(items[i]) is None,
    decreases items.len(),
{
    if i < items.len() - 1 {
        lemma_passes(items.drop_last(), check, i);
    }
}

/// Bytes in hexadecimal have two digits each, the higher half first.
pub proof fn law_hexadecimal_spells_the_bytes(content: Seq<u8>, i: int)
    requires
        0 <= i < content.len(),
    ensures
        hex_text(content).len() == 2 * content.len(),
        hex_text(content)[2 * i] == "0123456789abcdef"@[content[i] as int / 16],
        hex_text(content)[2 * i + 1] == "0123456789abcdef"@[content[i] as int % 16],
    decreases content.len(),
{
    reveal_strlit("0123456789abcdef");
    let shorter = content.drop_last();
    lemma_hex_len(shorter);
    if i < shorter.len() {
        law_hexadecimal_spells_the_bytes(shorter, i);
        assert(shorter[i] == content[i]);
    }
}

proof fn lemma_hex_len(content: Seq<u8>)
    ensures
        hex_text(content).len() == 2 * content.len(),
    decreases content.len(),
{
    if content.len() > 0 {
        lemma_hex_len(content.drop_last());
    }
}

/// A store that passes the check is what its database says it is: the database
/// finds no fault in itself, and the record of every object tells the kind and
/// the size of that object. Every fault is told as corruption.
pub proof fn law_sound_store_tells_the_truth(
    state: StoreState,
    files: FilesState,
    ids: Seq<Text>,
    integrity: Text,
    violation: Option<(Text, i64)>,
    i: int,
)
    ensures
        integrity != "ok"@ || violation is Some ==> fsck_outcome(
            state,
            files,
            ids,
            integrity,
            violation,
        ) is Err && fsck_outcome(state, files, ids, integrity, violation)->Err_0.exit_code == 7,
        fsck_outcome(state, files, ids, integrity, violation) is Ok && 0 <= i
            < state.object_metadata.len() ==> {
            let row = state.object_metadata[i];
            let object = files::object_outcome(files, row.id);
            &&& object is Ok
            &&& row.uncompressed_size == object->Ok_0.1.len()
            &&& object->Ok_0.0 == ObjectKind::Blob ==> row.kind == "blob"@
            &&& object->Ok_0.0 == ObjectKind::Tree ==> row.kind == "tree"@
        },
{
    if fsck_outcome(state, files, ids, integrity, violation) is Ok && 0 <= i
        < state.object_metadata.len() {
        let rows = tables::in_order::<ObjectRecord>(state.object_metadata);
        tables::lemma_no_failure(rows, record_check(files));
        tables::lemma_in_order_rows::<ObjectRecord>(state.object_metadata);
        let row = state.object_metadata[i];
        assert(state.object_metadata.contains(row));
        assert(rows.contains(row));
        let k = choose|k: int| 0 <= k < rows.len() && rows[k] == row;
        assert(record_check(files)(rows[k]) is None);
    }
}

/// A repair covers the Layer that it is told, and every Layer that is not
/// discarded where it is told none; the view gets what the Layer's head holds.
pub proof fn law_repair_restores_the_head(
    state: StoreState,
    files: FilesState,
    layer: Layer<Text>,
    now: Text,
    other: Layer<Text>,
)
    ensures
        repair_outcome(state, None) is Ok,
        repair_outcome(state, None)->Ok_0.contains(other) <==> state.layers.contains(other)
            && other.status != crate::model::LayerStatus::Discarded,
        begin_repair_outcome(state, files, layer, now) matches Ok((_, order)) ==> {
            &&& order.layer_id == layer.id
            &&& order.destination == layer.view_path
            &&& order.checkpoint_id == layer.head_checkpoint
            &&& order.root_tree == state.checkpoint(layer.head_checkpoint)->Some_0.root_tree
            &&& files::tree_outcome(files, order.root_tree)->Ok_0 == order.tree
        },
{
    let kept = tables::kept(state.layers, store::listed(false));
    tables::lemma_kept(state.layers, store::listed(false));
    tables::lemma_in_order_rows::<Layer>(kept);
    tables::lemma_first(state.checkpoints, records::checkpoint_is(layer.head_checkpoint));
}

/// A store passes the check wherever the database finds no fault, what is
/// referred to can be told, every root is a tree and every other reference a
/// blob, every object can be read, and every record is there and true.
pub proof fn law_sound_store_passes(
    state: StoreState,
    files: FilesState,
    ids: Seq<Text>,
)
    requires
        reachability::reachability_outcome(state, files) is Ok,
        ({
            let reached = reachability::reachability_outcome(state, files)->Ok_0;
            &&& forall|id: Text| #[trigger]
                reached.roots.contains(id) ==> files::object_outcome(files, id) is Ok
                    && files::object_outcome(files, id)->Ok_0.0 == ObjectKind::Tree
            &&& forall|id: Text| #[trigger]
                reached.blobs.contains(id) ==> files::object_outcome(files, id) is Ok
                    && files::object_outcome(files, id)->Ok_0.0 == ObjectKind::Blob
            &&& forall|id: Text| #[trigger]
                reached.all().contains(id) ==> tables::any(
                    state.object_metadata,
                    records::object_is(id),
                )
        }),
        forall|k: int|
            0 <= k < ids.len() ==> files::object_outcome(files, #[trigger] ids[k]) is Ok,
        forall|k: int|
            0 <= k < state.object_metadata.len() ==> {
                let row = #[trigger] state.object_metadata[k];
                let object = files::object_outcome(files, row.id);
                &&& object is Ok
                &&& row.uncompressed_size == object->Ok_0.1.len()
                &&& object->Ok_0.0 == ObjectKind::Blob ==> row.kind == "blob"@
                &&& object->Ok_0.0 == ObjectKind::Tree ==> row.kind == "tree"@
            },
    ensures
        fsck_outcome(state, files, ids, "ok"@, None) is Ok,
{
    let reached = reachability::reachability_outcome(state, files)->Ok_0;
    reachability::lemma_reached_finite(state, files);
    ordered::lemma_sorted_keys(reached.roots);
    ordered::lemma_sorted_keys(reached.blobs);
    ordered::lemma_sorted_keys(reached.all());
    let roots = ordered::sorted_keys(reached.roots);
    let blobs = ordered::sorted_keys(reached.blobs);
    let all = ordered::sorted_keys(reached.all());
    let rows = tables::in_order::<ObjectRecord>(state.object_metadata);
    tables::lemma_in_order_rows::<ObjectRecord>(state.object_metadata);
    tables::lemma_no_failure(roots, root_check(files));
    tables::lemma_no_failure(blobs, blob_check(files));
    tables::lemma_no_failure(ids, object_check(files));
    tables::lemma_no_failure(all, recorded_check(state.object_metadata));
    tables::lemma_no_failure(rows, record_check(files));
    assert forall|k: int| 0 <= k < roots.len() implies root_check(files)(#[trigger] roots[k])
        is None by {
        assert(roots.contains(roots[k]));
        assert(reached.roots.contains(roots[k]));
    }
    assert forall|k: int| 0 <= k < blobs.len() implies blob_check(files)(#[trigger] blobs[k])
        is None by {
        assert(blobs.contains(blobs[k]));
        assert(reached.blobs.contains(blobs[k]));
    }
    assert forall|k: int| 0 <= k < all.len() implies recorded_check(state.object_metadata)(
        #[trigger] all[k],
    ) is None by {
        assert(all.contains(all[k]));
        assert(reached.all().contains(all[k]));
    }
    assert forall|k: int| 0 <= k < rows.len() implies record_check(files)(#[trigger] rows[k])
        is None by {
        assert(rows.contains(rows[k]));
        let j = choose|j: int|
            0 <= j < state.object_metadata.len() && state.object_metadata[j] == rows[k];
        assert(state.object_metadata[j] == rows[k]);
    }
}

} // verus!
