use javelin::commands::discard::{cascade_discard, reparent_would_cycle, DiscardTerms};
use javelin::commands::explain::explain;
use javelin::commands::reachability::collect_reachability;
use javelin::commands::monitor::{Progress, Round, Stage, Task, Watch};
use javelin::commands::validation::tracking_policy;
use javelin::commands::worlds::{create, restore, restore_world, select_version, LayerRequest};
use javelin::files::ObjectFiles;
use javelin::integration::integrate_trees;
use javelin::json::Json;
use javelin::model::{EntryKind, Layer, LayerStatus, Tree, TreeEntry};
use javelin::objects::{encode_tree, ObjectKind};
use javelin::ordered::PathMap;
use javelin::records::ValidationRecord;
use javelin::store::claims::claim_overlap;
use javelin::store::layers::NewLayer;
use javelin::store::Store;

fn file(path: &str, id: &str) -> TreeEntry {
    TreeEntry {
        path: path.to_string(),
        kind: EntryKind::File,
        object_id: Some(id.to_string()),
        executable: false,
    }
}

struct World {
    store: Store,
    files: ObjectFiles,
}

impl World {
    fn new() -> World {
        let mut world = World {
            store: Store::create("/world"),
            files: ObjectFiles::new("/world/.javelin"),
        };
        let root = world.tree(&[("a.txt", "first")]);
        world.store.initialize_world(&root).unwrap();
        world
    }

    fn tree(&mut self, content: &[(&str, &str)]) -> String {
        let mut entries = Vec::new();
        for (path, text) in content {
            let (id, stored) = self.store.objects.put_blob(text.as_bytes()).unwrap();
            self.store
                .register_object(&id, ObjectKind::Blob, text.len() as u64);
            self.files.add_file(id.clone(), stored);
            entries.push(file(path, &id));
        }
        let tree = Tree { entries };
        let (root, stored) = self.store.objects.put_tree(&tree).unwrap();
        let length = encode_tree(&tree).unwrap().len() as u64;
        self.store.register_object(&root, ObjectKind::Tree, length);
        self.files.add_file(root.clone(), stored);
        root
    }

    fn layer(&mut self, name: &str, target: Option<&Layer>) -> Layer {
        let root = self.store.current_world().unwrap().root_tree;
        let view = format!("/world/.javelin/views/{name}");
        self.store
            .create_layer(NewLayer {
                name,
                origin_ref: "v1",
                synchronized_ref: "v1",
                root_tree: &root,
                target_kind: if target.is_some() { "layer" } else { "world" },
                target_id: target.map(|parent| parent.id.as_str()),
                view_path: &view,
            })
            .unwrap()
    }
}

#[test]
fn a_restore_appends_a_version_and_keeps_history() {
    let mut world = World::new();
    let second = world.tree(&[("a.txt", "second")]);
    world
        .store
        .append_world_version(&second, None, "test", Json::empty())
        .unwrap();
    let selected = select_version(&world.store, "v1", false, None).unwrap();
    let restored =
        restore_world(&mut world.store, &selected, false, None, &Vec::new()).unwrap();
    assert_eq!(restored.id, "v3");
    assert_eq!(restored.root_tree, selected.root_tree);
    assert_eq!(restored.parent_version, Some("v2".to_string()));
    let ids: Vec<String> = world
        .store
        .world_history()
        .into_iter()
        .map(|version| version.id)
        .collect();
    assert_eq!(ids, ["v1", "v2", "v3"]);
    assert_eq!(world.store.current_world().unwrap().id, "v3");
}

#[test]
fn a_restore_past_a_required_rule_needs_an_override() {
    let mut world = World::new();
    assert_eq!(
        select_version(&world.store, "v1", true, None)
            .unwrap_err()
            .message,
        "--accept-failing requires --reason"
    );
    let selected = select_version(&world.store, "v1", false, None).unwrap();
    let failed = ValidationRecord {
        id: "run".to_string(),
        rule_name: "gate".to_string(),
        command_json: "[]".to_string(),
        required: true,
        exit_code: 1,
        duration_ms: 0,
        environment_json: "{}".to_string(),
        stdout_object: None,
        stderr_object: None,
        candidate_root: selected.root_tree.clone(),
        policy_hash: String::new(),
        created_at: String::new(),
    };
    world.store.record_validation(&failed).unwrap();
    let runs = vec![failed];
    let error = restore_world(&mut world.store, &selected, false, None, &runs).unwrap_err();
    assert_eq!(error.exit_code, 5);
    assert_eq!(
        error.recovery,
        ["javelin world restore v1 --accept-failing --reason TEXT"]
    );
    assert_eq!(world.store.versions.len(), 1);
    restore_world(&mut world.store, &selected, true, Some("because"), &runs).unwrap();
    assert_eq!(world.store.versions.len(), 2);
    assert_eq!(world.store.version_validations.len(), 1);
}

#[test]
fn a_layer_begins_with_what_its_view_holds() {
    let mut world = World::new();
    let changed = world.tree(&[("a.txt", "changed")]);
    let head = world
        .store
        .append_checkpoint("local", &changed, "v1", "explicit")
        .unwrap();
    let request = LayerRequest {
        name: "work",
        from: None,
        target: "world",
    };
    let (layer, order) =
        create(&mut world.store, &world.files, &head.id, &request).unwrap();
    assert_eq!(order.root_tree, changed);
    assert_eq!(layer.origin_ref, head.id);
    assert_eq!(layer.synchronized_ref, "v1");
    assert_eq!(layer.view_path, "/world/.javelin/views/work");
    let pinned = LayerRequest {
        name: "pinned",
        from: Some("world"),
        target: "world",
    };
    let (layer, _) = create(&mut world.store, &world.files, &head.id, &pinned).unwrap();
    assert_eq!(layer.origin_ref, "v1");
    let wrong = LayerRequest {
        name: "wrong",
        from: None,
        target: "elsewhere",
    };
    assert_eq!(
        create(&mut world.store, &world.files, &head.id, &wrong)
            .unwrap_err()
            .message,
        "Layer target must be world or layer:LAYER"
    );
}

#[test]
fn restoring_a_checkpoint_appends_to_the_layer() {
    let mut world = World::new();
    let first = world.store.layer("local").unwrap().head_checkpoint;
    let changed = world.tree(&[("a.txt", "changed")]);
    world
        .store
        .append_checkpoint("local", &changed, "v1", "explicit")
        .unwrap();
    let (_, appended, order) =
        restore(&mut world.store, &world.files, &first, "local").unwrap();
    assert_eq!(appended.reason, "restore");
    assert_eq!(appended.sequence, 3);
    assert_eq!(order.root_tree, appended.root_tree);
    assert_eq!(world.store.checkpoint_history("local").len(), 3);
    assert_eq!(world.store.versions.len(), 1);
}

#[test]
fn reparenting_never_closes_a_cycle() {
    let mut world = World::new();
    let top = world.layer("top", None);
    let middle = world.layer("middle", Some(&top));
    let bottom = world.layer("bottom", Some(&middle));
    assert!(reparent_would_cycle(&world.store, &middle.id, &bottom.id).unwrap());
    assert!(!reparent_would_cycle(&world.store, &bottom.id, &top.id).unwrap());
    world
        .store
        .reparent_layer(&bottom.id, "layer", Some(&top.id))
        .unwrap();
    assert!(!reparent_would_cycle(&world.store, &middle.id, &bottom.id).unwrap());
    assert_eq!(
        world
            .store
            .reparent_layer(&top.id, "layer", Some(&top.id))
            .unwrap_err()
            .message,
        "Private Layer cannot target itself"
    );
}

#[test]
fn a_cascade_discards_every_descendant_and_keeps_the_world() {
    let mut world = World::new();
    let top = world.layer("top", None);
    let middle = world.layer("middle", Some(&top));
    let bottom = world.layer("bottom", Some(&middle));
    let terms = DiscardTerms {
        purge: false,
        purge_after: "2100-01-01T00:00:00.000Z".to_string(),
        now: "2000-01-01T00:00:00.000Z".to_string(),
    };
    let children = world.store.active_children(&top.id);
    let mut moves = Vec::new();
    cascade_discard(&mut world.store, &children, &terms, &mut moves, 4).unwrap();
    assert_eq!(moves.len(), 2);
    for id in [&middle.id, &bottom.id] {
        assert_eq!(
            world.store.layer(id).unwrap().status,
            LayerStatus::Discarded
        );
    }
    assert_eq!(
        world.store.layer("top").unwrap().status,
        LayerStatus::Active
    );
    assert_eq!(world.store.current_world().unwrap().id, "v1");
}

#[test]
fn what_history_holds_is_reachable() {
    let mut world = World::new();
    let second = world.tree(&[("a.txt", "second")]);
    world
        .store
        .append_world_version(&second, None, "test", Json::empty())
        .unwrap();
    let reached = collect_reachability(&world.store, &world.files).unwrap();
    for version in world.store.world_history() {
        assert!(reached.roots.contains(&version.root_tree));
        let tree = world.files.read_tree(&version.root_tree).unwrap();
        for entry in tree.entries {
            assert!(reached.blobs.contains(&entry.object_id.unwrap()));
        }
    }
    assert_eq!(reached.all().len(), 4);
}

#[test]
fn explain_names_the_versions_that_changed_a_path() {
    let mut world = World::new();
    let second = world.tree(&[("a.txt", "second")]);
    world
        .store
        .append_world_version(&second, None, "test", Json::empty())
        .unwrap();
    let (_, human) = explain(&world.store, &world.files, "a.txt").unwrap();
    assert_eq!(human, "2 accepted changes, 1 private changes for a.txt");
    let (_, human) = explain(&world.store, &world.files, "b.txt").unwrap();
    assert_eq!(human, "0 accepted changes, 0 private changes for b.txt");
    assert_eq!(
        explain(&world.store, &world.files, "../x")
            .unwrap_err()
            .exit_code,
        9
    );
}

#[test]
fn integration_keeps_the_side_that_changed() {
    let id = |letter: &str| letter.repeat(64);
    let base = Tree {
        entries: vec![file("both", &id("a")), file("mine", &id("a")), file("theirs", &id("a"))],
    };
    let target = Tree {
        entries: vec![file("both", &id("b")), file("mine", &id("a")), file("theirs", &id("b"))],
    };
    let private = Tree {
        entries: vec![file("both", &id("b")), file("mine", &id("c")), file("theirs", &id("a"))],
    };
    let result = integrate_trees(&base, &target, &private, &PathMap::new());
    assert!(result.conflicts.is_empty());
    assert_eq!(
        result.tree,
        Tree {
            entries: vec![
                file("both", &id("b")),
                file("mine", &id("c")),
                file("theirs", &id("b"))
            ],
        }
    );
    let unchanged = integrate_trees(&base, &target, &base, &PathMap::new());
    assert_eq!(unchanged.tree, target);
    let unmoved = integrate_trees(&base, &base, &private, &PathMap::new());
    assert_eq!(unmoved.tree, private);
}

#[test]
fn claims_overlap_either_way() {
    for (left, right, expected) in [
        ("src/**", "src/main.rs", true),
        ("src/**", "src", true),
        ("src/**", "source/main.rs", false),
        ("**", "anything", true),
        ("a", "a", true),
        ("a", "b", false),
    ] {
        assert_eq!(claim_overlap(left, right), expected);
        assert_eq!(claim_overlap(right, left), expected);
    }
}

#[test]
fn a_claim_can_be_renewed_and_released() {
    let mut world = World::new();
    let id = world.store.create_claim("local", "src", 3600).unwrap();
    assert_eq!(world.store.claims().len(), 1);
    world.store.renew_claim(&id, 7200).unwrap();
    world.store.release_claim(&id).unwrap();
    assert!(world.store.claims().is_empty());
    assert_eq!(
        world.store.renew_claim(&id, 60).unwrap_err().message,
        "Claim is unknown or released"
    );
    assert!(world.store.create_claim("local", "src", u64::MAX).is_err());
    let brief = world.store.create_claim("local", "src", 0).unwrap();
    assert_eq!(world.store.expire_claims("2100-01-01T00:00:00.000Z"), 1);
    assert!(world.store.release_claim(&brief).is_err());
}

#[test]
fn purged_sessions_keep_their_tombstones() {
    let mut world = World::new();
    let session = world
        .store
        .begin_provenance(Some("local"), "{}")
        .unwrap();
    world
        .store
        .append_provenance_event(&session, "prompt", "{\"text\":\"hello\"}")
        .unwrap();
    world
        .store
        .attach_provenance(&session, "trace", None, &"a".repeat(64))
        .unwrap();
    world.store.purge_provenance(&session).unwrap();
    let (_, events) = world.store.provenance_session(&session).unwrap();
    assert_eq!(events.len(), 1);
    assert_eq!(events[0].payload_json, "{\"purged\":true}");
    assert_eq!(world.store.attachments[0].object_id, None);
    assert!(world.store.attachments[0].purged);
    assert_eq!(
        world
            .store
            .end_provenance("missing")
            .unwrap_err()
            .message,
        "provenance session is unknown or ended"
    );
}

#[test]
fn publishing_a_stale_source_is_refused() {
    let mut world = World::new();
    let layer = world.layer("late", None);
    let head = world.store.layer_head(&layer).unwrap();
    let second = world.tree(&[("a.txt", "second")]);
    world
        .store
        .append_world_version(&second, None, "test", Json::empty())
        .unwrap();
    let error = world
        .store
        .accept_publish(&layer, &head, &head.root_tree, None, &vec![], "{}")
        .unwrap_err();
    assert_eq!(error.exit_code, 6);
    assert_eq!(
        error.message,
        "Publish target advanced after final Refresh; retry Publish"
    );
    assert_eq!(world.store.versions.len(), 2);
    assert!(world.store.contributions.is_empty());
}

#[test]
fn purging_a_layer_keeps_what_was_accepted_from_it() {
    let mut world = World::new();
    let layer = world.layer("source", None);
    let head = world.store.layer_head(&layer).unwrap();
    world
        .store
        .accept_publish(&layer, &head, &head.root_tree, Some("key"), &vec![], "{}")
        .unwrap();
    assert_eq!(
        world.store.purge_layer(&layer.id).unwrap_err().message,
        "only an exact discarded named Layer can be purged"
    );
    world
        .store
        .record_discard(&layer.id, "2100-01-01T00:00:00.000Z")
        .unwrap();
    world.store.purge_layer(&layer.id).unwrap();
    assert_eq!(world.store.contributions.len(), 1);
    assert_eq!(world.store.contributions[0].source_layer, None);
    assert_eq!(world.store.current_world().unwrap().id, "v2");
    let details = world.store.contribution_details_by_key("key").unwrap();
    assert_eq!(details.resulting_target_ref, "v2");
}

#[test]
fn evidence_is_reachable() {
    let mut world = World::new();
    let (kept, stored) = world.store.objects.put_blob(b"attached").unwrap();
    world.files.add_file(kept.clone(), stored);
    let session = world.store.begin_provenance(Some("local"), "{}").unwrap();
    world
        .store
        .attach_provenance(&session, "trace", None, &kept)
        .unwrap();
    let reached = collect_reachability(&world.store, &world.files).unwrap();
    assert!(reached.blobs.contains(&kept));
    world.store.purge_provenance(&session).unwrap();
    let reached = collect_reachability(&world.store, &world.files).unwrap();
    assert!(!reached.blobs.contains(&kept));
}

#[test]
fn an_edited_policy_waits_for_acceptance() {
    let mut world = World::new();
    let layer = world.store.layer("local").unwrap();
    let edited = world.tree(&[("a.txt", "first"), (".javelinignore", "*.txt\n")]);
    world
        .store
        .append_checkpoint("local", &edited, "v1", "explicit")
        .unwrap();
    let policy = tracking_policy(&world.store, &world.files, &layer).unwrap();
    assert!(!policy.ignored("a.txt", false));
    world
        .store
        .append_world_version(&edited, None, "test", Json::empty())
        .unwrap();
    world
        .store
        .append_checkpoint("local", &edited, "v2", "refresh")
        .unwrap();
    let layer = world.store.layer("local").unwrap();
    let policy = tracking_policy(&world.store, &world.files, &layer).unwrap();
    assert!(policy.ignored("a.txt", false));
}

#[test]
fn private_work_moves_no_target() {
    let mut world = World::new();
    let layer = world.layer("one", None);
    let other = world.layer("two", None);
    world.store.create_claim("two", "a.txt", 60).unwrap();
    let session = world
        .store
        .begin_provenance(Some(&other.id), "{}")
        .unwrap();
    world
        .store
        .append_provenance_event(&session, "file-write", "{\"path\":\"a.txt\"}")
        .unwrap();
    let changed = world.tree(&[("a.txt", "private")]);
    let head = world
        .store
        .append_checkpoint("one", &changed, "v1", "explicit")
        .unwrap();
    assert_eq!(world.store.current_world().unwrap().id, "v1");
    assert_eq!(world.store.versions.len(), 1);
    assert!(world.store.contributions.is_empty());
    let after = world.store.layer("one").unwrap();
    assert_eq!(after.head_checkpoint, head.id);
    assert_eq!(after.origin_ref, layer.origin_ref);
    assert_eq!(
        world.store.layer_head(&world.store.layer("two").unwrap()).unwrap().sequence,
        1
    );
    for layer in world.store.layers(true) {
        assert_eq!(
            world.store.layer_head(&layer).unwrap().layer_id,
            layer.id
        );
    }
    let mut cursor = 0;
    for event in &world.store.events {
        assert!(event.cursor > cursor);
        cursor = event.cursor;
    }
}

#[test]
fn a_view_is_recorded_once_it_is_at_rest() {
    let stamped = |stamp: &str, known: bool| Progress::Stamped {
        stamp: stamp.to_string(),
        known,
    };
    let mut watch = Watch::new();
    assert_eq!(watch.step("a", stamped("1", false)), Task::Next);
    assert_eq!(watch.step("b", stamped("1", false)), Task::Next);
    assert_eq!(watch.step("a", stamped("2", false)), Task::Next);
    assert_eq!(watch.step("a", stamped("2", false)), Task::Scan);
    assert_eq!(
        watch.step(
            "a",
            Progress::Scanned {
                stamp: "3".to_string()
            }
        ),
        Task::Next
    );
    assert_eq!(watch.step("a", stamped("3", false)), Task::Scan);
    assert_eq!(
        watch.step(
            "a",
            Progress::Scanned {
                stamp: "3".to_string()
            }
        ),
        Task::Record
    );
    assert_eq!(
        watch.step("a", Progress::Recorded { done: true }),
        Task::Note
    );
    assert_eq!(
        watch.step(
            "a",
            Progress::Noted {
                stamp: "3".to_string()
            }
        ),
        Task::Next
    );
    assert_eq!(watch.step("a", stamped("3", false)), Task::Next);
    assert_eq!(watch.step("b", stamped("1", false)), Task::Scan);
    assert_eq!(
        watch.step(
            "b",
            Progress::Failed {
                stage: Stage::Scan,
                code: "SCAN_IO".to_string(),
                message: "cannot scan".to_string(),
            }
        ),
        Task::Next
    );
    assert_eq!(watch.step("b", Progress::Gone), Task::Next);
    assert_eq!(watch.step("b", Progress::Busy), Task::Next);
    assert_eq!(watch.round(true, false), Round::Retry);
}

#[test]
fn recovery_undoes_a_discard() {
    let mut world = World::new();
    let layer = world.layer("one", None);
    world
        .store
        .record_discard(&layer.id, "2100-01-01T00:00:00.000Z")
        .unwrap();
    assert_eq!(
        world.store.layer("one").unwrap().status,
        LayerStatus::Discarded
    );
    assert_eq!(world.store.layers(false).len(), 1);
    world.store.recover_discard(&layer.id);
    assert_eq!(world.store.layer("one").unwrap(), layer);
    assert!(world.store.discards.is_empty());
}

#[test]
fn an_event_reader_resumes_where_it_stopped() {
    let mut world = World::new();
    world.layer("one", None);
    let all = world.store.events_since(0);
    let middle = world.store.events[all[0]].cursor;
    world.layer("two", None);
    let rest = world.store.events_since(middle);
    assert_eq!(world.store.events_since(0)[1..], rest[..]);
}

fn heads_stand(store: &Store) -> bool {
    store.layers(true).iter().all(|layer| {
        store
            .layer_head(layer)
            .map(|head| head.layer_id == layer.id)
            .unwrap_or(false)
    })
}

#[test]
fn every_layer_keeps_a_head_of_its_own() {
    let mut world = World::new();
    let first = world.layer("first", None);
    let second = world.layer("second", Some(&first));
    assert!(heads_stand(&world.store));
    let root = world.tree(&[("a.txt", "private")]);
    let stored = world
        .store
        .append_checkpoint(&second.id, &root, "v1", "manual")
        .unwrap();
    assert_eq!(world.store.layer("second").unwrap().head_checkpoint, stored.id);
    assert_eq!(
        world.store.layer("first").unwrap().head_checkpoint,
        first.head_checkpoint
    );
    assert!(heads_stand(&world.store));
    world
        .store
        .reparent_layer(&second.id, "world", None)
        .unwrap();
    world
        .store
        .record_discard(&first.id, "2100-01-01T00:00:00.000Z")
        .unwrap();
    assert!(heads_stand(&world.store));
    world.store.purge_layer(&first.id).unwrap();
    assert!(world.store.layer("first").is_err());
    assert_eq!(world.store.layers(true).len(), 2);
    assert!(heads_stand(&world.store));
}
