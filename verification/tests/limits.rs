use javelin::commands::discard::discard_for;
use javelin::commands::conflicts::{resolve, Choice};
use javelin::commands::refresh::{
    break_refresh, break_refresh_at, plan_refresh, settle_refresh, settle_refresh_at, RefreshPlan,
};
use javelin::commands::retention::gc_for;
use javelin::config::{days_after, days_before};
use javelin::error::JavelinError;
use javelin::files::ObjectFiles;
use javelin::integration::ConflictInput;
use javelin::model::{Checkpoint, EntryKind, Layer, Tree, TreeEntry, ViewMarker};
use javelin::objects::{decode_tree, encode_tree, object_id, ObjectKind};
use javelin::paths::{check_registered_view, marker_context};
use javelin::records::ValidationRecord;
use javelin::store::claims::expiry;
use javelin::store::layers::NewLayer;
use javelin::store::recovery::{publish_request_expired, request_expired_at};
use javelin::store::Store;

const START: &str = "2026-01-01T00:00:00.000Z";

struct World {
    store: Store,
    files: ObjectFiles,
}

impl World {
    fn new() -> World {
        let mut world = World {
            store: Store::create("/world"),
            files: ObjectFiles::new("/world/.javelin"),
        };
        let root = world.tree(&[("a.txt", "first")]);
        world.store.initialize_world(&root).unwrap();
        world
    }

    fn tree(&mut self, content: &[(&str, &str)]) -> String {
        let mut entries = Vec::new();
        for (path, text) in content {
            let (id, stored) = self.store.objects.put_blob(text.as_bytes()).unwrap();
            self.files.add_file(id.clone(), stored);
            entries.push(TreeEntry {
                path: path.to_string(),
                kind: EntryKind::File,
                object_id: Some(id),
                executable: false,
            });
        }
        let tree = Tree { entries };
        let (root, stored) = self.store.objects.put_tree(&tree).unwrap();
        let length = encode_tree(&tree).unwrap().len() as u64;
        self.store.register_object(&root, ObjectKind::Tree, length);
        self.files.add_file(root.clone(), stored);
        root
    }

    fn layer(&mut self, name: &str) -> Layer {
        let root = self.store.current_world().unwrap().root_tree;
        let view = format!("/world/.javelin/views/{name}");
        self.store
            .create_layer(NewLayer {
                name,
                origin_ref: "v1",
                synchronized_ref: "v1",
                root_tree: &root,
                target_kind: "world",
                target_id: None,
                view_path: &view,
            })
            .unwrap()
    }

    /// A Layer on `v2` with a Checkpoint of its own.
    fn private_layer(&mut self, base: &str, content: &[(&str, &str)]) -> (Layer, Checkpoint) {
        let view = "/world/.javelin/views/one".to_string();
        let layer = self
            .store
            .create_layer(NewLayer {
                name: "one",
                origin_ref: "v2",
                synchronized_ref: "v2",
                root_tree: base,
                target_kind: "world",
                target_id: None,
                view_path: &view,
            })
            .unwrap();
        let private = self.tree(content);
        let source = self
            .store
            .append_checkpoint(&layer.id, &private, "v2", "explicit")
            .unwrap();
        (self.store.layer("one").unwrap(), source)
    }
}

fn run(id: &str) -> ValidationRecord {
    ValidationRecord {
        id: id.to_string(),
        rule_name: "rule".to_string(),
        command_json: "[\"true\"]".to_string(),
        required: true,
        exit_code: 0,
        duration_ms: 1,
        environment_json: "{}".to_string(),
        stdout_object: None,
        stderr_object: None,
        candidate_root: "root".to_string(),
        policy_hash: "hash".to_string(),
        created_at: START.to_string(),
    }
}

fn refused_write(error: JavelinError, message: &str) {
    assert_eq!(error.exit_code, 7);
    assert_eq!(error.code, "STORE_WRITE");
    assert_eq!(error.message, message);
}

#[test]
fn a_span_ends_on_the_calendar() {
    assert_eq!(expiry(START, 90).unwrap(), "2026-01-01T00:01:30.000Z");
    assert_eq!(expiry(START, 0).unwrap(), START);
    assert_eq!(expiry(START, 86400 * 59).unwrap(), "2026-03-01T00:00:00.000Z");
    assert_eq!(
        expiry("2026-01-01T02:00:00.250+02:00", 1).unwrap(),
        "2026-01-01T00:00:01.250Z"
    );
    for seconds in [9223372036854776, 9223372036854775807, u64::MAX] {
        let error = expiry(START, seconds).unwrap_err();
        assert_eq!(error.exit_code, 2);
        assert_eq!(error.message, "Claim duration is too large");
    }
    assert!(expiry("yesterday", 1).is_err());
    assert_eq!(
        days_after(START, 30, "days").unwrap(),
        "2026-01-31T00:00:00.000Z"
    );
    assert_eq!(
        days_before(START, 1, "days").unwrap(),
        "2025-12-31T00:00:00.000Z"
    );
    assert_eq!(
        days_before(START, 106751991168, "days").unwrap_err().message,
        "days is too large"
    );
}

#[test]
fn a_claim_holds_for_the_seconds_asked_for() {
    let mut world = World::new();
    world
        .store
        .create_claim_for("local", "src/**", 3600, "claim-1", START)
        .unwrap();
    assert_eq!(world.store.claims[0].expires_at, "2026-01-01T01:00:00.000Z");
    assert_eq!(world.store.claims[0].created_at, START);
    assert_eq!(
        world
            .store
            .renew_claim_for("claim-1", 60, "2026-01-01T02:00:00.000Z")
            .unwrap(),
        "2026-01-01T02:01:00.000Z"
    );
    assert_eq!(world.store.claims[0].expires_at, "2026-01-01T02:01:00.000Z");
    assert_eq!(world.store.claims_at("2026-01-01T02:00:59.999Z").len(), 1);
    assert!(world.store.claims_at("2026-01-01T02:01:00.000Z").is_empty());
    let ids = vec!["claim-2".to_string(), "claim-3".to_string()];
    let resources = vec!["a".to_string(), "b".to_string()];
    world
        .store
        .create_claims_for("local", &resources, 1, &ids, START)
        .unwrap();
    assert_eq!(world.store.claims[2].expires_at, "2026-01-01T00:00:01.000Z");
}

#[test]
fn a_claim_out_of_the_calendar_is_refused() {
    let mut world = World::new();
    let error = world
        .store
        .create_claim("local", "a", u64::MAX)
        .unwrap_err();
    assert_eq!(error.message, "Claim duration is too large");
    let error = world
        .store
        .create_claim("nobody", "a", u64::MAX)
        .unwrap_err();
    assert_eq!(error.message, "unknown Private Layer nobody");
    let resources = vec!["../a".to_string()];
    let error = world
        .store
        .create_claims("local", &resources, u64::MAX)
        .unwrap_err();
    assert_ne!(error.message, "Claim duration is too large");
    let resources = vec!["a".to_string()];
    let error = world
        .store
        .create_claims("local", &resources, u64::MAX)
        .unwrap_err();
    assert_eq!(error.message, "Claim duration is too large");
    assert!(world
        .store
        .create_claims("local", &vec![], u64::MAX)
        .is_ok());
    assert!(world.store.claims.is_empty());
}

#[test]
fn a_discarded_layer_is_kept_for_its_days() {
    let mut world = World::new();
    let layer = world.layer("gone");
    let mut moves = Vec::new();
    discard_for(
        &mut world.store,
        &layer,
        false,
        None,
        false,
        30,
        START.to_string(),
        &mut moves,
    )
    .unwrap();
    assert_eq!(moves.len(), 1);
    assert_eq!(
        world.store.discards[0].purge_after,
        "2026-01-31T00:00:00.000Z"
    );
    assert!(world
        .store
        .expired_discarded_layers("2026-01-30T23:59:59.999Z")
        .is_empty());
    assert_eq!(
        world
            .store
            .expired_discarded_layers("2026-01-31T00:00:00.000Z")
            .len(),
        1
    );
}

#[test]
fn raw_provenance_is_kept_for_its_days() {
    let mut world = World::new();
    for (id, begun) in [
        ("old", "2026-01-01T00:00:00.000Z"),
        ("new", "2026-01-02T00:00:00.000Z"),
    ] {
        world
            .store
            .begin_provenance_at(Some("local"), "{}", id, begun)
            .unwrap();
        world
            .store
            .append_provenance_event(id, "note", "{}")
            .unwrap();
    }
    let ids = Vec::new();
    let report = gc_for(
        &mut world.store,
        &world.files,
        &ids,
        30,
        true,
        "2026-01-31T12:00:00.000Z",
    )
    .unwrap();
    assert_eq!(report.sessions, vec!["old".to_string()]);
    let report = gc_for(
        &mut world.store,
        &world.files,
        &ids,
        30,
        true,
        "2026-01-30T12:00:00.000Z",
    )
    .unwrap();
    assert!(report.sessions.is_empty());
    let error = gc_for(&mut world.store, &world.files, &ids, u64::MAX, true, START).unwrap_err();
    assert_eq!(error.message, "retention.raw_trace_days is too large");
}

#[test]
fn a_publish_request_lasts_five_minutes() {
    assert!(!request_expired_at("2026-01-01T00:05:00.000Z", START));
    assert!(request_expired_at("2026-01-01T00:05:00.001Z", START));
    assert!(!request_expired_at(START, "2026-01-01T00:05:00.001Z"));
    assert!(request_expired_at(START, "soon"));
    assert!(publish_request_expired(START));
    assert!(publish_request_expired("soon"));
    assert!(!publish_request_expired("2200-01-01T00:00:00.000Z"));
}

#[test]
fn a_copied_marker_in_the_project_directory_is_refused() {
    let mut world = World::new();
    let layer = world.layer("real");
    let marker = ViewMarker {
        format: 1,
        project: "/world".to_string(),
        layer_id: layer.id.clone(),
    };
    let copied = marker_context(&marker, "/world", "/world").unwrap();
    let error = check_registered_view(&copied, Some(&layer)).unwrap_err();
    assert_eq!(error.exit_code, 7);
    assert!(error.message.contains("view marker does not match"));
    let local = ViewMarker {
        format: 1,
        project: "/world".to_string(),
        layer_id: "local".to_string(),
    };
    let own = marker_context(&local, "/world", "/world").unwrap();
    assert!(check_registered_view(&own, None).is_ok());
    let elsewhere = marker_context(&local, "/world", "/elsewhere").unwrap();
    let registered = world.store.layer("local").unwrap();
    assert!(check_registered_view(&elsewhere, Some(&registered)).is_err());
}

#[test]
fn a_new_target_must_exist_and_fit_its_kind() {
    let mut world = World::new();
    let layer = world.layer("one");
    let other = world.layer("two");
    for (kind, target) in [
        ("layer", Some("nobody")),
        ("layer", None),
        ("world", Some(other.id.as_str())),
    ] {
        let error = world
            .store
            .reparent_layer(&layer.id, kind, target)
            .unwrap_err();
        refused_write(error, "cannot reparent Private Layer");
    }
    let error = world
        .store
        .reparent_layer("nobody", "layer", Some("nobody-else"))
        .unwrap_err();
    assert_eq!(error.message, "unknown Private Layer");
    world
        .store
        .reparent_layer(&layer.id, "layer", Some(&other.id))
        .unwrap();
    assert_eq!(
        world.store.layer("one").unwrap().target_id,
        Some(other.id.clone())
    );
}

#[test]
fn rows_refer_to_rows_that_exist() {
    let mut world = World::new();
    let layer = world.layer("one");
    let events = world.store.events.len();
    refused_write(
        world.store.record_discard("nobody", START).unwrap_err(),
        "cannot record Discard retention",
    );
    refused_write(
        world.store.begin_provenance(Some("one"), "{}").unwrap_err(),
        "cannot begin provenance session",
    );
    let found = vec![ConflictInput {
        path: "a.txt".to_string(),
        conflict_type: "modify_modify".to_string(),
        base: None,
        target: None,
        private: None,
    }];
    refused_write(
        world
            .store
            .record_conflicts("nobody", "v1", &found)
            .unwrap_err(),
        "cannot store Conflict",
    );
    assert!(world
        .store
        .record_conflicts("nobody", "v1", &vec![])
        .unwrap()
        .is_empty());
    assert_eq!(world.store.events.len(), events);
    assert!(world.store.discards.is_empty());
    assert!(world.store.sessions.is_empty());
    assert!(world.store.conflicts.is_empty());
    let ids = world
        .store
        .record_conflicts(&layer.id, "v1", &found)
        .unwrap();
    assert_eq!(world.store.conflicts[0].id, ids[0]);
}

#[test]
fn links_name_recorded_runs() {
    let mut world = World::new();
    let layer = world.layer("one");
    let head = world.store.layer_head(&layer).unwrap();
    world.store.record_validation(&run("run-1")).unwrap();
    refused_write(
        world.store.record_validation(&run("run-1")).unwrap_err(),
        "cannot record validation",
    );
    assert_eq!(world.store.validation_runs.len(), 1);
    let known = vec!["run-1".to_string()];
    let unknown = vec!["run-1".to_string(), "run-2".to_string()];
    refused_write(
        world
            .store
            .link_version_validations("v1", &unknown)
            .unwrap_err(),
        "cannot link World Version validation",
    );
    refused_write(
        world
            .store
            .link_version_validations("v9", &known)
            .unwrap_err(),
        "cannot link World Version validation",
    );
    assert!(world.store.version_validations.is_empty());
    assert!(world.store.link_version_validations("v9", &vec![]).is_ok());
    world.store.link_version_validations("v1", &known).unwrap();
    assert_eq!(world.store.version_validations[0].run, "run-1");
    refused_write(
        world
            .store
            .accept_publish(&layer, &head, &head.root_tree, None, &unknown, "{}")
            .unwrap_err(),
        "cannot link Publish validation",
    );
    assert_eq!(world.store.current_world().unwrap().id, "v1");
    assert!(world.store.contributions.is_empty());
    world
        .store
        .accept_publish(&layer, &head, &head.root_tree, None, &known, "{}")
        .unwrap();
    assert_eq!(world.store.current_world().unwrap().id, "v2");
    assert_eq!(world.store.validations[0].run, "run-1");
}

#[test]
fn a_text_merged_beside_a_conflict_is_kept() {
    let mut world = World::new();
    let base = world.tree(&[("clash", "base\n"), ("merge", "1\n2\n3\n4\n5\n")]);
    world
        .store
        .append_world_version(&base, None, "test", javelin::json::Json::empty())
        .unwrap();
    let (layer, source) =
        world.private_layer(&base, &[("clash", "private\n"), ("merge", "one\n2\n3\n4\n5\n")]);
    let target = world.tree(&[("clash", "target\n"), ("merge", "1\n2\n3\n4\nfive\n")]);
    world
        .store
        .append_world_version(&target, None, "test", javelin::json::Json::empty())
        .unwrap();
    let RefreshPlan::Merge {
        target_ref,
        integration,
        ..
    } = plan_refresh(&world.store, &world.files, &layer, &source).unwrap()
    else {
        panic!("the target moved");
    };
    let merged = object_id(ObjectKind::Blob, b"one\n2\n3\n4\nfive\n");
    assert!(world.store.object_metadata.iter().all(|row| row.id != merged));
    let refusal =
        settle_refresh(&mut world.store, &layer, &target_ref, &integration).unwrap_err();
    assert_eq!(refusal.error.exit_code, 4);
    assert_eq!(refusal.error.message, "Refresh found 1 incompatible path states");
    assert_eq!(refusal.written.len(), 1);
    assert_eq!(refusal.written[0].0, merged);
    assert!(world.store.object_metadata.iter().any(|row| row.id == merged));
    assert_eq!(world.store.conflicts.len(), 1);
    assert_eq!(world.store.conflicts[0].path, "clash");
}

#[test]
fn a_resolution_records_no_object() {
    let mut world = World::new();
    let base = world.tree(&[("clash", "base\n"), ("other", "other\n")]);
    world
        .store
        .append_world_version(&base, None, "test", javelin::json::Json::empty())
        .unwrap();
    let (layer, source) = world.private_layer(&base, &[("clash", "private\n"), ("other", "x\n")]);
    let target = world.tree(&[("clash", "target\n"), ("other", "other\n")]);
    world
        .store
        .append_world_version(&target, None, "test", javelin::json::Json::empty())
        .unwrap();
    let RefreshPlan::Merge {
        target_ref,
        integration,
        ..
    } = plan_refresh(&world.store, &world.files, &layer, &source).unwrap()
    else {
        panic!("the target moved");
    };
    let ids = vec!["conflict-1".to_string()];
    let refusal = settle_refresh_at(
        &mut world.store,
        &layer,
        &target_ref,
        &integration,
        &ids,
        "unused",
        START,
    )
    .unwrap_err();
    assert_eq!(refusal.error.exit_code, 4);
    let registered = world.store.object_metadata.len();
    let resolved =
        resolve(&mut world.store, &world.files, "conflict-1", &Choice::Target).unwrap();
    assert_eq!(world.store.object_metadata.len(), registered);
    assert_eq!(resolved.file.0, resolved.checkpoint.root_tree);
    assert_eq!(resolved.checkpoint.synchronized_ref, "v3");
    assert_eq!(resolved.checkpoint.id.len(), 26);
    assert!(world.store.conflicts[0].status != "open");
}

#[test]
fn a_merge_without_conflicts_becomes_the_head() {
    let mut world = World::new();
    let base = world.tree(&[("merge", "1\n2\n3\n4\n5\n")]);
    world
        .store
        .append_world_version(&base, None, "test", javelin::json::Json::empty())
        .unwrap();
    let (layer, source) = world.private_layer(&base, &[("merge", "one\n2\n3\n4\n5\n")]);
    let target = world.tree(&[("merge", "1\n2\n3\n4\nfive\n")]);
    world
        .store
        .append_world_version(&target, None, "test", javelin::json::Json::empty())
        .unwrap();
    let RefreshPlan::Merge {
        target_ref,
        integration,
        ..
    } = plan_refresh(&world.store, &world.files, &layer, &source).unwrap()
    else {
        panic!("the target moved");
    };
    assert!(integration.conflicts.is_empty());
    let refreshed = settle_refresh_at(
        &mut world.store,
        &layer,
        &target_ref,
        &integration,
        &vec![],
        "head-1",
        START,
    )
    .unwrap();
    assert_eq!(refreshed.checkpoint.id, "head-1");
    assert_eq!(refreshed.checkpoint.reason, "refresh");
    assert_eq!(refreshed.checkpoint.synchronized_ref, "v3");
    assert_eq!(refreshed.written.len(), 2);
    assert_eq!(world.store.layer("one").unwrap().head_checkpoint, "head-1");
    assert!(world.store.conflicts.is_empty());
}

#[test]
fn a_merge_that_breaks_off_keeps_the_texts_before() {
    let texts = "1\n2\n3\n4\n5\n";
    let paths = ["a", "b", "c"];
    let mut world = World::new();
    let base = world.tree(&paths.map(|path| (path, texts)));
    world
        .store
        .append_world_version(&base, None, "test", javelin::json::Json::empty())
        .unwrap();
    let (layer, source) = world.private_layer(
        &base,
        &[
            ("a", "one\n2\n3\n4\n5\n"),
            ("b", "lost\n2\n3\n4\n5\n"),
            ("c", "uno\n2\n3\n4\n5\n"),
        ],
    );
    let target = world.tree(&paths.map(|path| (path, "1\n2\n3\n4\nfive\n")));
    world
        .store
        .append_world_version(&target, None, "test", javelin::json::Json::empty())
        .unwrap();
    let lost = object_id(ObjectKind::Blob, b"lost\n2\n3\n4\n5\n");
    world.files.found.remove(&lost);
    let merged = object_id(ObjectKind::Blob, b"one\n2\n3\n4\nfive\n");
    let registered = world.store.object_metadata.len();
    for timed in [true, false] {
        let RefreshPlan::Broken(broken) =
            plan_refresh(&world.store, &world.files, &layer, &source).unwrap()
        else {
            panic!("an object is missing");
        };
        let refusal = if timed {
            break_refresh_at(&mut world.store, broken, START)
        } else {
            break_refresh(&mut world.store, broken)
        };
        assert_eq!(refusal.error.exit_code, 7);
        assert!(refusal.error.message.contains(&lost));
        assert_eq!(refusal.written.len(), 1);
        assert_eq!(refusal.written[0].0, merged);
        assert_eq!(world.store.object_metadata.len(), registered + 1);
    }
    assert!(world.store.object_metadata.iter().any(|row| row.id == merged));
    assert!(world.store.conflicts.is_empty());
    assert_eq!(world.store.layer("one").unwrap().head_checkpoint, source.id);
}

#[test]
fn a_publish_succeeds_the_current_version_once() {
    let mut world = World::new();
    let layer = world.layer("one");
    let head = world.store.layer_head(&layer).unwrap();
    let root = world.tree(&[("a.txt", "second")]);
    let (contribution, version) = world
        .store
        .accept_publish(&layer, &head, &root, Some("key"), &vec![], "{}")
        .unwrap();
    let current = world.store.current_world().unwrap();
    assert_eq!(version, "v2");
    assert_eq!(current.id, "v2");
    assert_eq!(current.sequence, 2);
    assert_eq!(current.parent_version.as_deref(), Some("v1"));
    assert_eq!(current.root_tree, root);
    assert_eq!(current.accepted_contribution.as_deref(), Some(contribution.as_str()));
    assert_eq!(contribution.len(), 26);
    let events = world.store.events.len();
    let again = world
        .store
        .accept_publish(&layer, &head, "another", Some("key"), &vec![], "{}")
        .unwrap();
    assert_eq!(again, (contribution, version));
    assert_eq!(world.store.versions.len(), 2);
    assert_eq!(world.store.events.len(), events);
}

#[test]
fn a_search_has_a_longest_query() {
    let mut world = World::new();
    let longest = "a".repeat(49998);
    let longer = "a".repeat(49999);
    assert!(world.store.search_provenance(&longer).unwrap().is_empty());
    world
        .store
        .begin_provenance(Some("local"), "\u{e9}_Agent%")
        .unwrap();
    assert!(world.store.search_provenance(&longest).unwrap().is_empty());
    for query in [longer, "%".repeat(25000), "_".repeat(25000), "\u{e9}".repeat(25000)] {
        let error = world.store.search_provenance(&query).unwrap_err();
        assert_eq!(error.exit_code, 7);
        assert_eq!(error.code, "STORE_QUERY");
        assert_eq!(error.message, "cannot decode provenance search");
        assert_eq!(
            error.details,
            javelin::json::Json::empty().with(
                "cause",
                javelin::json::Json::text("LIKE or GLOB pattern too complex")
            )
        );
    }
    for found in ["_agent%", "%", "", "AGENT%\0and more"] {
        assert_eq!(world.store.search_provenance(found).unwrap().len(), 1);
    }
    for absent in ["\u{c9}", "a_", "agent\0"] {
        assert!(world.store.search_provenance(absent).unwrap().is_empty());
    }
}

#[test]
fn trees_and_their_encodings_belong_together() {
    let entry = |path: &str, kind: EntryKind, content: Option<&str>, executable: bool| TreeEntry {
        path: path.to_string(),
        kind,
        object_id: content.map(|content| object_id(ObjectKind::Blob, content.as_bytes())),
        executable,
    };
    let entries = vec![
        entry("b", EntryKind::File, Some("b"), true),
        entry("a", EntryKind::Directory, None, false),
        entry("a/c", EntryKind::Symlink, Some("c"), false),
    ];
    let mut turned = entries.clone();
    turned.reverse();
    let encoded = encode_tree(&Tree { entries }).unwrap();
    assert_eq!(encode_tree(&Tree { entries: turned.clone() }).unwrap(), encoded);
    turned[2].executable = false;
    let other = encode_tree(&Tree { entries: turned }).unwrap();
    assert_ne!(other, encoded);
    assert_eq!(encode_tree(&decode_tree(&encoded).unwrap()).unwrap(), encoded);
    for length in 0..encoded.len() {
        let error = decode_tree(&encoded[..length]).unwrap_err();
        assert_eq!(error.exit_code, 7);
    }
    let mut extended = encoded;
    extended.push(0);
    let error = decode_tree(&extended).unwrap_err();
    assert_eq!(error.exit_code, 7);
    assert_eq!(error.message, "tree has trailing bytes");
}

#[test]
fn numbers_and_identities_stand_once() {
    let mut world = World::new();
    let layer = world.layer("one");
    let head = world.store.layer_head(&layer).unwrap();
    let root = world.tree(&[("a.txt", "second")]);
    let empty = javelin::json::Json::empty;
    let failed = |columns: &str| {
        javelin::json::Json::empty().with(
            "cause",
            javelin::json::Json::text(&format!("UNIQUE constraint failed: {columns}")),
        )
    };
    world
        .store
        .append_checkpoint_at(&layer.id, &root, "v1", "explicit", "second", START)
        .unwrap();
    let error = world
        .store
        .append_checkpoint_at(&layer.id, &head.root_tree, "v1", "explicit", "second", START)
        .unwrap_err();
    assert_eq!(error.details, failed("layer_checkpoints.id"));
    let place = world.store.layers.len() - 1;
    world.store.layers[place].head_checkpoint = head.id.clone();
    let error = world
        .store
        .append_checkpoint_at(&layer.id, &root, "v1", "explicit", "third", START)
        .unwrap_err();
    assert_eq!(
        error.details,
        failed("layer_checkpoints.layer_id, layer_checkpoints.sequence")
    );
    refused_write(error, "cannot append Layer Checkpoint");
    assert_eq!(world.store.checkpoint_history(&layer.id).len(), 2);

    world
        .store
        .append_world_version(&root, None, "test", empty())
        .unwrap();
    let current = world.store.world.as_mut().unwrap();
    current.current_version = "v1".to_string();
    let error = world
        .store
        .append_world_version(&root, None, "test", empty())
        .unwrap_err();
    assert_eq!(error.details, failed("versions.sequence"));
    refused_write(error, "cannot append World Version");
    let (_, version) = world
        .store
        .accept_publish(&layer, &head, &root, None, &vec![], "{}")
        .unwrap();
    assert_eq!(version, "v3");
    let current = world.store.world.as_mut().unwrap();
    current.current_version = "v9".to_string();
    let mut source = head;
    source.synchronized_ref = "v9".to_string();
    let error = world
        .store
        .accept_publish(&layer, &source, &root, None, &vec![], "{}")
        .unwrap_err();
    refused_write(error, "cannot append accepted World Version");
    assert_eq!(world.store.versions.len(), 3);
}

#[test]
fn a_target_has_a_kind_and_fits_it() {
    let mut world = World::new();
    let root = world.store.current_world().unwrap().root_tree;
    let local = Some("local");
    let target = "(target_kind = 'world' AND target_id IS NULL) OR
                  (target_kind = 'layer' AND target_id IS NOT NULL)";
    for (target_kind, target_id, check) in [
        ("other", None, "target_kind IN ('world', 'layer')"),
        ("layer", None, target),
        ("world", local, target),
    ] {
        let error = world
            .store
            .create_layer(NewLayer {
                name: "one",
                origin_ref: "v1",
                synchronized_ref: "v1",
                root_tree: &root,
                target_kind,
                target_id,
                view_path: "/view",
            })
            .unwrap_err();
        assert_eq!(error.exit_code, 2);
        assert_eq!(
            error.message,
            format!("cannot create Layer: CHECK constraint failed: {check}")
        );
    }
    let layer = world.layer("one");
    let error = world
        .store
        .reparent_layer(&layer.id, "layer", None)
        .unwrap_err();
    assert_eq!(
        error.details,
        javelin::json::Json::empty().with(
            "cause",
            javelin::json::Json::text(&format!("CHECK constraint failed: {target}"))
        )
    );
    refused_write(error, "cannot reparent Private Layer");
}
