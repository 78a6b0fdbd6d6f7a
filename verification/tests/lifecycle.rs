use javelin::commands::checkpoints::{self, observe, observed_checkpoint};
use javelin::commands::conflicts::{resolve, Choice};
use javelin::commands::discard::{
    discard, discard_local, plan_recovery, purge_discarded, ViewMove,
};
use javelin::commands::explain::{layer_changes, show, status_human, ShowPlan};
use javelin::commands::history::{layer_history, world_history};
use javelin::commands::inspect::{claim_line, diff};
use javelin::commands::maintenance::{begin_repair, fsck};
use javelin::commands::monitor::{Progress, Task, Watch};
use javelin::commands::publish::{
    publish_changes, publish_summary, published_parent_view, repair_parent_view, repeat_publish,
};
use javelin::commands::refresh::{
    break_refresh, check_refresh, finish_refresh, plan_refresh, settle_refresh, RefreshPlan,
};
use javelin::commands::sessions::actor_json;
use javelin::commands::validation::{
    check_runs, merge_rules, policy_hash, record_run, tracking_policy, RuleEnd, RuleRun,
};
use javelin::commands::views::{close_view, ViewOrder};
use javelin::commands::worlds::{create, LayerRequest};
use javelin::config::{
    CheckpointConfig, Config, IgnorePolicy, ProvenanceConfig, RetentionConfig, VerificationConfig,
    WorldRule, DEFAULT_CONFIG, DEFAULT_IGNORE,
};
use javelin::error::{JavelinError, Result};
use javelin::files::ObjectFiles;
use javelin::json::Json;
use javelin::model::{Checkpoint, EntryKind, Layer, LayerStatus, TargetKind, ViewMarker};
use javelin::objects::{encode_tree, ObjectKind};
use javelin::ordered::PathMap;
use javelin::paths::{check_registered_view, marker_context};
use javelin::records::{QueueEntry, ValidationRecord};
use javelin::scan::{paths_to_clear, scan_view, Found, ViewItem};
use javelin::store::claims::overlapping_claims;
use javelin::store::recovery::{process_number, temp_grace_seconds, temp_is_abandoned};
use javelin::store::Store;
use javelin::view::ScanResult;
use std::collections::{BTreeMap, BTreeSet};

#[derive(Clone, Debug, PartialEq)]
enum Content {
    File(Vec<u8>, bool),
    Link(Vec<u8>),
    Directory,
}

type View = BTreeMap<String, Content>;

/// A World whose views stand in memory.
struct Project {
    store: Store,
    files: ObjectFiles,
    views: BTreeMap<String, View>,
}

fn config() -> Config {
    Config {
        format: 1,
        checkpoint: CheckpointConfig::default(),
        retention: RetentionConfig::default(),
        verification: VerificationConfig { rules: Vec::new() },
        provenance: ProvenanceConfig { redact: Vec::new() },
    }
}

fn init_with(content: &[(&str, &str)]) -> Project {
    let mut view = View::new();
    view.insert(
        "javelin.toml".into(),
        Content::File(DEFAULT_CONFIG.as_bytes().to_vec(), false),
    );
    view.insert(
        ".javelinignore".into(),
        Content::File(DEFAULT_IGNORE.as_bytes().to_vec(), false),
    );
    for (path, text) in content {
        view.insert(
            (*path).into(),
            Content::File(text.as_bytes().to_vec(), false),
        );
    }
    let mut project = Project {
        store: Store::create("/world"),
        files: ObjectFiles::new("/world/.javelin"),
        views: BTreeMap::new(),
    };
    project.views.insert("local".into(), view);
    let policy = IgnorePolicy::from_file(Some(DEFAULT_IGNORE)).unwrap();
    let scan = project.scan("local", &policy).unwrap();
    project.store.register_objects(&scan.objects);
    let (root, file) = project.store.objects.put_tree(&scan.tree).unwrap();
    project.files.add_file(root.clone(), file);
    let length = encode_tree(&scan.tree).unwrap().len() as u64;
    project
        .store
        .register_object(&root, ObjectKind::Tree, length);
    project.store.initialize_world(&root).unwrap();
    project
}

fn init() -> Project {
    init_with(&[])
}

impl Project {
    fn write(&mut self, layer: &str, path: &str, content: &[u8]) {
        let id = self.store.layer(layer).unwrap().id;
        self.views
            .get_mut(&id)
            .unwrap()
            .insert(path.into(), Content::File(content.to_vec(), false));
    }

    fn read(&self, layer: &str, path: &str) -> Option<Vec<u8>> {
        let id = self.store.layer(layer).unwrap().id;
        match self.views[&id].get(path) {
            Some(Content::File(content, _)) => Some(content.clone()),
            _ => None,
        }
    }

    fn items(&mut self, layer_id: &str) -> Vec<ViewItem> {
        let view = self.views[layer_id].clone();
        let mut directories = BTreeSet::new();
        for path in view.keys() {
            let mut parent = path.as_str();
            while let Some(at) = parent.rfind('/') {
                parent = &parent[..at];
                directories.insert(parent.to_string());
            }
        }
        let mut items: Vec<ViewItem> = directories
            .into_iter()
            .filter(|directory| !view.contains_key(directory))
            .map(|directory| ViewItem {
                relative: Some(directory),
                found: Found::Directory,
            })
            .collect();
        for (path, content) in view {
            let found = match content {
                Content::File(bytes, executable) => {
                    let (object_id, file) = self.store.objects.put_blob(&bytes).unwrap();
                    self.files.add_file(object_id.clone(), file);
                    Found::File {
                        object_id,
                        length: bytes.len() as u64,
                        executable,
                    }
                }
                Content::Link(target) => {
                    let (object_id, file) = self.store.objects.put_blob(&target).unwrap();
                    self.files.add_file(object_id.clone(), file);
                    Found::Symlink {
                        object_id,
                        length: target.len() as u64,
                    }
                }
                Content::Directory => Found::Directory,
            };
            items.push(ViewItem {
                relative: Some(path),
                found,
            });
        }
        items.sort_by(|left, right| left.relative.cmp(&right.relative));
        items
    }

    fn scan(&mut self, layer_id: &str, policy: &IgnorePolicy) -> Result<ScanResult> {
        let items = self.items(layer_id);
        scan_view(policy, &items)
    }

    fn scan_layer(&mut self, layer: &Layer) -> Result<ScanResult> {
        let policy = tracking_policy(&self.store, &self.files, layer)?;
        self.scan(&layer.id, &policy)
    }

    fn checkpoint(&mut self, name: &str, reason: &str) -> Result<Checkpoint> {
        let layer = self.store.layer(name)?;
        checkpoints::check_layer_open(&layer)?;
        let scan = self.scan_layer(&layer)?;
        let (checkpoint, file) =
            checkpoints::reconcile(&mut self.store, &layer.id, &scan, "seen", "seen", reason)?;
        self.files.add_file(file.0, file.1);
        Ok(checkpoint)
    }

    fn fill(&mut self, order: &ViewOrder) {
        let mut view = View::new();
        for entry in &order.tree.entries {
            let content = match entry.kind {
                EntryKind::Directory => Content::Directory,
                EntryKind::File => Content::File(
                    self.files
                        .read_blob(entry.object_id.as_ref().unwrap())
                        .unwrap(),
                    entry.executable,
                ),
                EntryKind::Symlink => Content::Link(
                    self.files
                        .read_blob(entry.object_id.as_ref().unwrap())
                        .unwrap(),
                ),
            };
            view.insert(entry.path.clone(), content);
        }
        self.views.insert(order.layer_id.clone(), view);
        close_view(
            &mut self.store,
            &order.layer_id,
            &order.checkpoint_id,
            Some("copy"),
        );
    }

    fn create(&mut self, name: &str, from: &str, target: &str) -> Layer {
        let head = self.checkpoint("local", "command-reconcile").unwrap();
        let request = LayerRequest {
            name,
            from: Some(from),
            target,
        };
        let (layer, order) =
            create(&mut self.store, &self.files, &head.id, &request).unwrap();
        self.fill(&order);
        layer
    }

    fn refresh(&mut self, name: &str) -> Result<Checkpoint> {
        let layer = self.store.layer(name)?;
        check_refresh(&self.store, &layer)?;
        let source = self.checkpoint(name, "refresh-reconcile")?;
        let layer = self.store.layer(name)?;
        match plan_refresh(&self.store, &self.files, &layer, &source)? {
            RefreshPlan::Current { .. } => Ok(source),
            RefreshPlan::Broken(broken) => Err(break_refresh(&mut self.store, broken).error),
            RefreshPlan::Merge {
                target_ref,
                integration,
                ..
            } => {
                let settled =
                    settle_refresh(&mut self.store, &layer, &target_ref, &integration);
                let refreshed = match settled {
                    Ok(refreshed) => refreshed,
                    Err(refusal) => {
                        for (id, file) in refusal.written {
                            self.files.add_file(id, file);
                        }
                        return Err(refusal.error);
                    }
                };
                for (id, file) in refreshed.written {
                    self.files.add_file(id, file);
                }
                self.fill(&refreshed.order);
                finish_refresh(
                    &mut self.store,
                    &refreshed.order,
                    &target_ref,
                    Some("copy"),
                );
                Ok(refreshed.checkpoint)
            }
        }
    }

    fn publish_checked(
        &mut self,
        name: &str,
        key: &str,
        records: &Vec<ValidationRecord>,
        crash: bool,
    ) -> Result<String> {
        let layer = self.store.layer(name)?;
        if let Some(repeat) = repeat_publish(&mut self.store, &layer, key)? {
            if let Some(order) = repair_parent_view(&self.store, &self.files, &layer, &repeat)? {
                self.fill(&order);
            }
            return Ok(repeat.resulting_target_ref);
        }
        let source = self.refresh(name)?;
        let layer = self.store.layer(name)?;
        let candidate = self.files.read_tree(&source.root_tree)?;
        let changes = publish_changes(&self.store, &self.files, &source, &candidate)?;
        assert!(matches!(publish_summary(&changes), Json::Object(_)));
        let (_, resulting, _) = javelin::commands::publish::publish(
            &mut self.store,
            &layer,
            &source,
            &source.root_tree,
            Some(key),
            "{}",
            records,
        )?;
        if !crash {
            if let Some(order) =
                published_parent_view(&self.store, &layer, &source.root_tree, &candidate)?
            {
                self.fill(&order);
            }
        }
        Ok(resulting)
    }

    fn publish(&mut self, name: &str, key: &str) -> Result<String> {
        self.publish_checked(name, key, &Vec::new(), false)
    }

    fn show(&self, reference: &str) -> Result<Vec<u8>> {
        match show(&self.store, &self.files, reference)? {
            ShowPlan::File { object_id, .. } => self.files.read_blob(&object_id),
            other => panic!("no file: {other:?}"),
        }
    }

    fn fsck(&self) -> Result<usize> {
        let mut ids = Vec::new();
        let mut i = 0;
        while i < self.files.found.len() {
            ids.push(self.files.found.key_at(i).clone());
            i += 1;
        }
        Ok(fsck(&self.store, &self.files, &ids, "ok", &None)?.objects_checked)
    }

    fn discard(
        &mut self,
        name: &str,
        cascade: bool,
        reparent: Option<&str>,
        purge: bool,
    ) -> Result<Vec<ViewMove>> {
        let layer = self.store.layer(name)?;
        let mut moves = Vec::new();
        discard(
            &mut self.store,
            &layer,
            cascade,
            reparent,
            purge,
            &config(),
            &mut moves,
        )?;
        Ok(moves)
    }

    fn conflicted_right(&mut self) -> JavelinError {
        self.write("local", "shared.txt", b"base\n");
        self.publish("local", "base").unwrap();
        self.create("left", "world", "world");
        self.create("right", "world", "world");
        self.write("left", "shared.txt", b"left\n");
        self.write("right", "shared.txt", b"right\n");
        self.publish("left", "left").unwrap();
        self.publish("right", "right").unwrap_err()
    }
}

#[test]
fn init_is_idempotent_and_existing_content_is_world_v1() {
    let mut project = init_with(&[("hello.txt", "hello\n")]);
    let root = project.store.current_world().unwrap().root_tree;
    let (again, local) = project.store.initialize_world("another").unwrap();
    assert_eq!(again.root_tree, root);
    assert_eq!(local.id, "local");
    assert_eq!(project.show("v1:hello.txt").unwrap(), b"hello\n");
    assert_eq!(project.store.current_world().unwrap().id, "v1");
    assert_eq!(project.store.world_history().len(), 1);
    project.fsck().unwrap();
}

#[test]
fn unchanged_status_uses_observation_and_dropped_events_still_reconcile() {
    let mut project = init_with(&[("tracked.txt", "before\n")]);
    let layer = project.store.layer("local").unwrap();
    let head = project.store.layer_head(&layer).unwrap();
    let noted = Some(observe(&layer, &head, "stamp-1"));
    let known = observed_checkpoint(&project.store, &layer, "stamp-1", &noted).unwrap();
    assert_eq!(known.unwrap().id, head.id);
    assert!(observed_checkpoint(&project.store, &layer, "stamp-2", &noted)
        .unwrap()
        .is_none());

    project.write("local", "tracked.txt", b"after\n");
    let checkpoint = project.checkpoint("local", "command-reconcile").unwrap();
    let (_, changes) = layer_changes(&project.store, &project.files, &checkpoint).unwrap();
    let layer = project.store.layer("local").unwrap();
    assert_eq!(
        status_human(&layer, &checkpoint.id, &changes),
        "Modify\ttracked.txt"
    );
}

#[test]
fn independent_layers_publish_without_lost_updates() {
    let mut project = init();
    project.write("local", "base.txt", b"base\n");
    project.publish("local", "base").unwrap();
    project.create("alpha", "world", "world");
    project.create("beta", "world", "world");
    project.write("alpha", "alpha.txt", b"alpha\n");
    project.write("beta", "beta.txt", b"beta\n");
    assert!(project.read("alpha", "beta.txt").is_none());
    assert!(project.read("beta", "alpha.txt").is_none());
    project.publish("alpha", "alpha").unwrap();
    project.publish("beta", "beta").unwrap();
    assert_eq!(project.show("world:alpha.txt").unwrap(), b"alpha\n");
    assert_eq!(project.show("world:beta.txt").unwrap(), b"beta\n");
    let history = world_history(&project.store, &project.files, None).unwrap();
    assert_eq!(history.len(), 4);
    let ids: Vec<&str> = history.iter().map(|version| version.id.as_str()).collect();
    assert_eq!(ids, ["v1", "v2", "v3", "v4"]);
    let touched = world_history(&project.store, &project.files, Some("alpha.txt")).unwrap();
    assert_eq!(touched.len(), 1);
    assert_eq!(touched[0].id, "v3");
}

#[test]
fn conflict_preserves_base_target_private_and_exit_code() {
    let mut project = init();
    let error = project.conflicted_right();
    assert_eq!(error.exit_code, 4);
    assert_eq!(error.code, "CONFLICT");
    let right = project.store.layer("right").unwrap();
    assert_eq!(right.status, LayerStatus::Conflicted);
    let conflicts = project.store.conflicts(Some(&right.id), false);
    assert_eq!(conflicts.len(), 1);
    let conflict = &conflicts[0];
    assert_eq!(conflict.conflict_type, "modify_modify");
    for (state, content) in [
        (&conflict.base_entry, b"base\n".as_slice()),
        (&conflict.target_entry, b"left\n".as_slice()),
        (&conflict.private_entry, b"right\n".as_slice()),
    ] {
        let id = state.as_ref().unwrap().object_id.as_ref().unwrap();
        assert_eq!(project.files.read_blob(id).unwrap(), content);
    }
}

#[test]
fn resolving_a_conflict_twice_does_not_append_another_checkpoint() {
    let mut project = init();
    assert_eq!(project.conflicted_right().exit_code, 4);
    let right = project.store.layer("right").unwrap();
    let conflict_id = project.store.conflicts(Some(&right.id), false)[0].id.clone();
    let resolved = resolve(
        &mut project.store,
        &project.files,
        &conflict_id,
        &Choice::Private,
    )
    .unwrap();
    project.files.add_file(resolved.file.0, resolved.file.1);
    project.fill(&resolved.order);
    let (_, before) =
        layer_history(&project.store, &project.files, "right", None).unwrap();
    let rejected = resolve(
        &mut project.store,
        &project.files,
        &conflict_id,
        &Choice::Private,
    )
    .unwrap_err();
    assert_eq!(rejected.exit_code, 2);
    let (layer, after) =
        layer_history(&project.store, &project.files, "right", None).unwrap();
    assert_eq!(before, after);
    assert_eq!(layer.status, LayerStatus::Active);
    assert_eq!(project.read("right", "shared.txt").unwrap(), b"right\n");
    assert_eq!(project.publish("right", "right").unwrap(), "v4");
    assert_eq!(project.show("world:shared.txt").unwrap(), b"right\n");
}

#[test]
fn diff_honors_every_path_filter() {
    let mut project = init();
    project.write("local", "first.txt", b"first\n");
    project.write("local", "second.txt", b"second\n");
    project.write("local", "third.txt", b"third\n");
    let head = project.checkpoint("local", "command-reconcile").unwrap();
    let filters = vec!["first.txt".to_string(), "second.txt".to_string()];
    let (shown, human) = diff(
        &project.store,
        &project.files,
        &head,
        None,
        None,
        &filters,
    )
    .unwrap();
    let mut paths = Vec::new();
    if let Json::Object(fields) = &shown {
        if let Json::Array(changes) = &fields[4].1 {
            for change in changes {
                if let Json::Object(parts) = change {
                    paths.push(parts[0].1.copy());
                }
            }
        }
    }
    assert_eq!(paths, [Json::text("first.txt"), Json::text("second.txt")]);
    assert!(human.contains("+first\n"));
    assert!(!human.contains("third"));
}

#[test]
fn claims_use_restricted_path_grammar_and_plain_human_output() {
    let mut project = init();
    let layer = project.create("valid", "world", "world");
    project
        .store
        .create_claims(&layer.id, &vec!["src/**".to_string()], 3600)
        .unwrap();
    let claims = project.store.claims();
    let listed = claim_line(&claims[0], "valid");
    assert!(listed.contains("\tvalid\tsrc/**"));
    assert!(!listed.contains('"'));

    let other = project.create("invalid", "world", "world");
    let rejected = project
        .store
        .create_claims(&other.id, &vec!["src/*.rs".to_string()], 3600)
        .unwrap_err();
    assert_eq!(rejected.exit_code, 2);
    assert_eq!(project.store.claims().len(), 1);
}

#[test]
fn refresh_reports_case_fold_collision_as_conflict() {
    let mut project = init();
    project.create("upper", "world", "world");
    project.create("lower", "world", "world");
    project.write("upper", "Name.txt", b"upper\n");
    project.write("lower", "name.txt", b"lower\n");
    project.publish("upper", "upper").unwrap();
    let failed = project.publish("lower", "lower").unwrap_err();
    assert_eq!(failed.exit_code, 4);
    let lower = project.store.layer("lower").unwrap();
    let conflicts = project.store.conflicts(Some(&lower.id), false);
    assert_eq!(conflicts.len(), 2);
    assert!(conflicts
        .iter()
        .all(|conflict| conflict.conflict_type == "case"));
}

#[test]
fn monitor_records_stable_writes_without_explicit_checkpoint() {
    let mut project = init();
    project.write("local", "automatic.txt", b"captured\n");
    let layer = project.store.layer("local").unwrap();
    let mut watch = Watch::new();
    let stamped = || Progress::Stamped {
        stamp: "stamp".to_string(),
        known: false,
    };
    assert_eq!(watch.step(&layer.id, stamped()), Task::Next);
    assert_eq!(watch.step(&layer.id, stamped()), Task::Scan);
    let scan = project.scan_layer(&layer).unwrap();
    let after = Progress::Scanned {
        stamp: "stamp".to_string(),
    };
    assert_eq!(watch.step(&layer.id, after), Task::Record);
    let (captured, _) = checkpoints::capture(
        &mut project.store,
        &layer.id,
        &layer.synchronized_ref,
        &scan,
    )
    .unwrap();
    let captured = captured.unwrap();
    assert_eq!(captured.checkpoint.reason, "automatic");
    assert_eq!(
        watch.step(&layer.id, Progress::Recorded { done: true }),
        Task::Note
    );
    let noted = Progress::Noted {
        stamp: "stamp".to_string(),
    };
    assert_eq!(watch.step(&layer.id, noted), Task::Next);
    assert_eq!(watch.step(&layer.id, stamped()), Task::Next);
    let history = project.store.checkpoint_history("local");
    assert!(history
        .iter()
        .any(|checkpoint| checkpoint.reason == "automatic"));
}

#[test]
fn ignore_policy_change_cannot_hide_or_include_files_in_same_contribution() {
    let mut project = init();
    let policy = DEFAULT_IGNORE
        .lines()
        .filter(|line| *line != ".env")
        .collect::<Vec<_>>()
        .join("\n");
    project.write("local", ".javelinignore", format!("{policy}\n").as_bytes());
    project.write("local", ".env", b"TRACK_AFTER_POLICY_ACCEPTS=1\n");
    project.publish("local", "policy-first").unwrap();
    let absent = project.show("v2:.env").unwrap_err();
    assert_eq!(absent.exit_code, 2);
    project.publish("local", "file-second").unwrap();
    assert_eq!(
        project.show("v3:.env").unwrap(),
        b"TRACK_AFTER_POLICY_ACCEPTS=1\n"
    );
}

#[test]
fn parent_discard_requires_explicit_reparent_and_preserves_child() {
    let mut project = init();
    project.create("parent", "world", "world");
    project.create("child", "layer:parent", "layer:parent");
    let rejected = project.discard("parent", false, None, false).unwrap_err();
    assert_eq!(rejected.exit_code, 10);
    project
        .discard("parent", false, Some("world"), false)
        .unwrap();
    let child = project.store.layer("child").unwrap();
    assert_eq!(child.target_kind, TargetKind::World);
    assert_eq!(child.status, LayerStatus::Active);
    let (parent, order) =
        plan_recovery(&project.store, &project.files, "parent", true).unwrap();
    assert!(order.is_none());
    project.store.recover_discard(&parent.id);
    assert_eq!(
        project.store.layer("parent").unwrap().status,
        LayerStatus::Active
    );
}

#[test]
fn repair_rebuilds_corrupted_view_and_root_cache_from_objects() {
    let mut project = init();
    project.create("repairable", "world", "world");
    project.write("repairable", "safe.txt", b"canonical\n");
    project.checkpoint("repairable", "safe").unwrap();
    project.write("repairable", "safe.txt", b"corrupt view\n");
    let layer = project.store.layer("repairable").unwrap();
    let order = begin_repair(&mut project.store, &project.files, &layer).unwrap();
    assert!(project.store.view_stale(&layer.id).unwrap());
    project.fill(&order);
    assert_eq!(
        project.read("repairable", "safe.txt").unwrap(),
        b"canonical\n"
    );
    assert!(!project.store.view_stale(&layer.id).unwrap());
}

#[test]
fn failed_repair_marks_view_as_repair_required() {
    let mut project = init();
    project.create("broken-view", "world", "world");
    project.write("broken-view", "payload.txt", b"payload\n");
    project.checkpoint("broken-view", "explicit").unwrap();
    let layer = project.store.layer("broken-view").unwrap();
    let order = begin_repair(&mut project.store, &project.files, &layer).unwrap();
    let blob = order
        .tree
        .entries
        .iter()
        .find(|entry| entry.path == "payload.txt")
        .and_then(|entry| entry.object_id.clone())
        .unwrap();
    project.files.found.remove(&blob);
    let error = project.files.read_blob(&blob).unwrap_err();
    assert_eq!(error.exit_code, 7);
    assert_eq!(error.code, "MISSING_OBJECT");
    close_view(
        &mut project.store,
        &order.layer_id,
        &order.checkpoint_id,
        None,
    );
    let row = project
        .store
        .views
        .iter()
        .find(|view| view.layer_id == layer.id)
        .unwrap();
    assert!(row.stale);
    assert_eq!(row.backend, "repair_required");
}

#[test]
fn checkpoints_capture_symlink_executable_and_empty_directory() {
    let mut project = init();
    let view = project.views.get_mut("local").unwrap();
    view.insert("empty".into(), Content::Directory);
    view.insert(
        "run.sh".into(),
        Content::File(b"#!/bin/sh\nexit 0\n".to_vec(), true),
    );
    view.insert("run-link".into(), Content::Link(b"run.sh".to_vec()));
    project.checkpoint("local", "portable-metadata").unwrap();
    let ShowPlan::Listing { tree, .. } =
        show(&project.store, &project.files, "local").unwrap()
    else {
        panic!("no listing");
    };
    assert!(tree
        .entries
        .iter()
        .any(|entry| entry.path == "empty" && entry.kind == EntryKind::Directory));
    assert!(tree
        .entries
        .iter()
        .any(|entry| entry.path == "run.sh" && entry.executable));
    assert!(tree
        .entries
        .iter()
        .any(|entry| entry.path == "run-link" && entry.kind == EntryKind::Symlink));
}

#[test]
fn nested_child_publish_parent_publish_and_idempotent_retry_are_linear() {
    let mut project = init();
    project.create("feature", "world", "world");
    project.create("api", "layer:feature", "layer:feature");
    project.write("api", "api.ts", b"export const api = 1;\n");
    project.publish("api", "child-api").unwrap();
    assert_eq!(
        project.read("feature", "api.ts").unwrap(),
        b"export const api = 1;\n"
    );
    assert_eq!(project.publish("feature", "feature-world").unwrap(), "v2");
    assert_eq!(project.publish("feature", "feature-world").unwrap(), "v2");
    assert_eq!(project.store.world_history().len(), 2);
    assert_eq!(
        project.show("world:api.ts").unwrap(),
        b"export const api = 1;\n"
    );
}

#[test]
fn idempotent_child_publish_repairs_parent_view_after_commit_crash() {
    let mut project = init();
    project.create("parent", "world", "world");
    project.create("child", "layer:parent", "layer:parent");
    project.write("child", "child.txt", b"accepted\n");
    project
        .publish_checked("child", "child-crash-repair", &Vec::new(), true)
        .unwrap();
    assert!(project.read("parent", "child.txt").is_none());
    let parent = project.store.layer("parent").unwrap();
    assert!(project.store.view_stale(&parent.id).unwrap());

    project.publish("child", "child-crash-repair").unwrap();
    assert_eq!(project.read("parent", "child.txt").unwrap(), b"accepted\n");
    assert!(!project.store.view_stale(&parent.id).unwrap());
}

#[test]
fn retrying_an_older_publish_key_does_not_roll_back_an_advanced_layer() {
    let mut project = init();
    project.create("advancing", "world", "world");
    project.write("advancing", "state.txt", b"one\n");
    project.publish("advancing", "key-a").unwrap();
    project.write("advancing", "state.txt", b"two\n");
    project.publish("advancing", "key-b").unwrap();
    let layer = project.store.layer("advancing").unwrap();
    let before = project.store.layer_head(&layer).unwrap();

    assert_eq!(project.publish("advancing", "key-a").unwrap(), "v2");

    let layer = project.store.layer("advancing").unwrap();
    let after = project.store.layer_head(&layer).unwrap();
    assert_eq!(before, after);
    assert_eq!(project.read("advancing", "state.txt").unwrap(), b"two\n");
    assert_eq!(project.store.current_world().unwrap().id, "v3");
}

#[test]
fn idempotency_key_cannot_alias_a_different_layer() {
    let mut project = init();
    project.create("first", "world", "world");
    project.create("second", "world", "world");
    project.write("first", "first.txt", b"first\n");
    project.write("second", "second.txt", b"second\n");
    project.publish("first", "shared-key").unwrap();

    let rejected = project.publish("second", "shared-key").unwrap_err();
    assert_eq!(rejected.exit_code, 6);
    assert_eq!(project.store.current_world().unwrap().id, "v2");
}

#[test]
fn copied_view_marker_cannot_redirect_project_discovery() {
    let mut project = init();
    let layer = project.create("real", "world", "world");
    let marker = ViewMarker {
        format: 1,
        project: "/world".to_string(),
        layer_id: layer.id.clone(),
    };
    let genuine = marker_context(&marker, "/world", &layer.view_path).unwrap();
    assert!(check_registered_view(&genuine, Some(&layer)).is_ok());
    let forged = marker_context(&marker, "/world", "/forged-view").unwrap();
    let rejected = check_registered_view(&forged, Some(&layer)).unwrap_err();
    assert_eq!(rejected.exit_code, 7);
    assert!(rejected.message.contains("view marker does not match"));
    let unknown = ViewMarker {
        format: 2,
        project: "/world".to_string(),
        layer_id: layer.id.clone(),
    };
    assert!(marker_context(&unknown, "/world", &layer.view_path).is_err());
}

#[test]
fn published_discarded_layer_can_be_purged_without_losing_contribution() {
    let mut project = init();
    project.create("published", "world", "world");
    project.write("published", "published.txt", b"accepted\n");
    project.publish("published", "published-layer").unwrap();
    project.discard("published", false, None, false).unwrap();
    purge_discarded(&mut project.store, "published").unwrap();
    project.fsck().unwrap();
    assert_eq!(
        project.show("world:published.txt").unwrap(),
        b"accepted\n"
    );

    project.create("replacement", "world", "world");
    project.write("replacement", "replacement.txt", b"must not publish\n");
    let rejected = project
        .publish("replacement", "published-layer")
        .unwrap_err();
    assert_eq!(rejected.exit_code, 6);
    assert!(project.show("world:replacement.txt").is_err());
}

#[test]
fn claim_prefix_matches_path_segments_only() {
    let mut project = init();
    let prefix = project.create("prefix", "world", "world");
    project
        .store
        .create_claims(&prefix.id, &vec!["a/**".to_string()], 3600)
        .unwrap();
    let sibling = project.create("sibling", "world", "world");
    project
        .store
        .create_claims(&sibling.id, &vec!["a-b".to_string()], 3600)
        .unwrap();
    assert!(overlapping_claims(&project.store.claims()).is_empty());
}

#[test]
fn provenance_search_treats_wildcards_as_literal_text() {
    let mut project = init();
    for name in ["percent%agent", "ordinary-agent"] {
        let actor = actor_json(name, &None, &None);
        let Json::Object(fields) = &actor else {
            panic!("no object")
        };
        assert_eq!(fields[0].1, Json::text("agent"));
        let Json::Text(name) = &fields[1].1 else {
            panic!("no name")
        };
        let text = format!("{{\"kind\":\"agent\",\"name\":\"{name}\",\"model\":null}}");
        project
            .store
            .begin_provenance(Some("local"), &text)
            .unwrap();
    }
    let sessions = project.store.search_provenance("%").unwrap();
    assert_eq!(sessions.len(), 1);
    assert!(sessions[0].actor_json.contains("percent%agent"));
    assert_eq!(project.store.search_provenance("AGENT").unwrap().len(), 2);
}

#[test]
fn provenance_rejects_attachments_after_end_or_purge_and_unknown_purge() {
    let mut project = init();
    let object = "a".repeat(64);
    let ended = project
        .store
        .begin_provenance(Some("local"), "ended-agent")
        .unwrap();
    project.store.end_provenance(&ended).unwrap();
    let rejected_ended = project
        .store
        .attach_provenance(&ended, "trace.jsonl", None, &object)
        .unwrap_err();
    assert_eq!(rejected_ended.exit_code, 10);

    let purged = project
        .store
        .begin_provenance(Some("local"), "purged-agent")
        .unwrap();
    project.store.purge_provenance(&purged).unwrap();
    let rejected_purged = project
        .store
        .attach_provenance(&purged, "trace.jsonl", None, &object)
        .unwrap_err();
    assert_eq!(rejected_purged.exit_code, 10);

    let unknown = project
        .store
        .purge_provenance("unknown-session")
        .unwrap_err();
    assert_eq!(unknown.exit_code, 2);
}

fn rule(name: &str, required: bool, timeout_seconds: u64) -> WorldRule {
    WorldRule {
        name: name.to_string(),
        command: vec!["sh".to_string(), "-c".to_string(), "sleep 2".to_string()],
        required,
        timeout_seconds,
    }
}

fn run_of(end: RuleEnd) -> RuleRun {
    RuleRun {
        end,
        duration_ms: 7,
        environment_json: "{}".to_string(),
        stdout: b"out".to_vec(),
        stderr: Vec::new(),
    }
}

#[test]
fn candidate_timeout_change_is_not_deduplicated() {
    let accepted = vec![rule("timeout-policy", true, 3)];
    let candidate = vec![rule("timeout-policy", true, 1)];
    let rules = merge_rules(&accepted, &candidate);
    let seconds: Vec<u64> = rules.iter().map(|rule| rule.timeout_seconds).collect();
    assert_eq!(seconds, [3, 1]);
    assert_eq!(merge_rules(&accepted, &accepted).len(), 1);

    let mut project = init();
    let policy = policy_hash("policy");
    let mut records = Vec::new();
    for (rule, end) in rules
        .iter()
        .zip([RuleEnd::Exited(Some(0)), RuleEnd::TimedOut])
    {
        let (record, _) = record_run(
            &mut project.store,
            rule,
            &run_of(end),
            "root",
            &policy,
        )
        .unwrap();
        records.push(record);
    }
    assert_eq!(records[1].exit_code, 124);
    project.write("local", "new.txt", b"new\n");
    let rejected = project
        .publish_checked("local", "timeout-policy-candidate", &records, false)
        .unwrap_err();
    assert_eq!(rejected.exit_code, 5);
}

#[test]
fn discard_preserves_world_and_supports_recover_and_exact_purge() {
    let mut project = init();
    project.write("local", "accepted.txt", b"accepted\n");
    project.publish("local", "accepted").unwrap();
    let before = project.store.current_world().unwrap();
    let experiment = project.create("experiment", "world", "world");
    project.write("experiment", "accepted.txt", b"tentative\n");
    let moves = project.discard("experiment", false, None, false).unwrap();
    assert_eq!(moves.len(), 1);
    assert!(
        matches!(&moves[0], ViewMove::Retain { layer_id, .. } if *layer_id == experiment.id)
    );
    let after = project.store.current_world().unwrap();
    assert_eq!(before.root_tree, after.root_tree);
    assert_eq!(project.show("world:accepted.txt").unwrap(), b"accepted\n");
    let (layer, order) =
        plan_recovery(&project.store, &project.files, "experiment", true).unwrap();
    assert!(order.is_none());
    project.store.recover_discard(&layer.id);
    assert_eq!(
        project.read("experiment", "accepted.txt").unwrap(),
        b"tentative\n"
    );
    project.discard("experiment", false, None, false).unwrap();
    purge_discarded(&mut project.store, "experiment").unwrap();
    let missing = project.store.layer("experiment").unwrap_err();
    assert_eq!(missing.exit_code, 2);
}

#[test]
fn local_discard_preserves_reserved_and_ignored_content() {
    let mut project = init();
    project.write("local", "tracked.txt", b"accepted\n");
    project.publish("local", "accepted").unwrap();
    project.write("local", "tracked.txt", b"tentative\n");
    let policy = IgnorePolicy::from_file(Some(DEFAULT_IGNORE)).unwrap();
    let cleared = paths_to_clear(
        &policy,
        &vec![
            (".git".to_string(), true),
            (".git/config".to_string(), false),
            (".javelin".to_string(), true),
            ("node_modules".to_string(), true),
            ("node_modules/pkg".to_string(), true),
            ("node_modules/pkg/cache".to_string(), false),
            ("tracked.txt".to_string(), false),
        ],
    );
    assert_eq!(cleared, ["tracked.txt"]);

    let local = project.store.layer("local").unwrap();
    let (checkpoint, order) =
        discard_local(&mut project.store, &project.files, &local).unwrap();
    assert_eq!(checkpoint.root_tree, order.root_tree);
    assert!(order.marker.is_none());
    project.fill(&order);
    assert_eq!(project.read("local", "tracked.txt").unwrap(), b"accepted\n");
}

#[test]
fn required_failure_blocks_while_informational_failure_is_recorded() {
    let mut project = init();
    project.write("local", "change.txt", b"change\n");
    let (gate, _) = record_run(
        &mut project.store,
        &rule("gate", true, 10),
        &run_of(RuleEnd::Exited(Some(2))),
        "root",
        "policy",
    )
    .unwrap();
    let rejected = project
        .publish_checked("local", "bad-policy", &vec![gate], false)
        .unwrap_err();
    assert_eq!(rejected.exit_code, 5);
    assert_eq!(project.store.current_world().unwrap().id, "v1");

    let (note, files) = record_run(
        &mut project.store,
        &rule("information", false, 10),
        &run_of(RuleEnd::Exited(Some(2))),
        "root",
        "policy",
    )
    .unwrap();
    assert_eq!(files.len(), 1);
    assert_eq!(note.exit_code, 2);
    assert!(!note.required);
    assert!(check_runs(&vec![note.clone()], "rejected").is_ok());
    let resulting = project
        .publish_checked("local", "informational", &vec![note], false)
        .unwrap();
    assert_eq!(resulting, "v2");
    assert_eq!(project.store.validation_runs.len(), 2);
    assert_eq!(project.store.validations.len(), 1);
}

#[test]
fn startup_recovery_removes_abandoned_temp_and_dead_queue_entry() {
    let mut project = init();
    project.store.queue.push(QueueEntry {
        ticket: 1,
        request_id: "dead-request".to_string(),
        target: "world".to_string(),
        pid: 2147483647,
        created_at: "2000-01-01T00:00:00Z".to_string(),
    });
    assert_eq!(process_number(" 42\n"), Some(42));
    let recovered = project
        .store
        .recover_startup(Some(42), &Vec::new(), &PathMap::new());
    assert!(recovered);
    assert!(project.store.queue.is_empty());
    assert_eq!(temp_grace_seconds(Some("0")), 0);
    assert_eq!(temp_grace_seconds(None), 3600);
    assert!(temp_is_abandoned(Some(0), 0));
    assert!(!temp_is_abandoned(Some(3599), 3600));
}

#[test]
fn fsck_detects_corrupt_copied_store_without_damaging_original() {
    let mut project = init();
    project.write("local", "payload.txt", b"canonical bytes\n");
    project.publish("local", "canonical").unwrap();
    let mut copied = ObjectFiles::new("/copied-world/.javelin");
    let mut ids = Vec::new();
    let mut i = 0;
    while i < project.files.found.len() {
        let id = project.files.found.key_at(i).clone();
        let mut file = project.files.found.value_at(i).clone();
        if i == 0 {
            let last = file.len() - 1;
            file[last] ^= 0xff;
        }
        copied.add_file(id.clone(), file);
        ids.push(id);
        i += 1;
    }
    let error = fsck(&project.store, &copied, &ids, "ok", &None).unwrap_err();
    assert_eq!(error.exit_code, 7);
    assert!(matches!(error.code, "STORAGE_CORRUPTION" | "CORRUPT_OBJECT"));
    assert_eq!(project.fsck().unwrap(), ids.len());
}

#[test]
fn fsck_reports_missing_object_metadata_without_repairing_it() {
    let mut project = init();
    project.write("local", "tracked.txt", b"tracked\n");
    project.publish("local", "tracked").unwrap();
    let before = project.store.object_metadata.len();
    let place = project
        .store
        .object_metadata
        .iter()
        .position(|row| row.kind == "blob")
        .unwrap();
    let removed = project.store.object_metadata.remove(place);
    let error = project.fsck().unwrap_err();
    assert_eq!(error.exit_code, 7);
    assert_eq!(
        error.message,
        format!("object metadata missing for {}", removed.id)
    );
    assert_eq!(project.store.object_metadata.len(), before - 1);
}

#[test]
fn one_hundred_layers_checkpoint_refresh_and_publish_without_loss() {
    let mut project = init();
    let names: Vec<String> = (0..100).map(|index| format!("layer-{index:03}")).collect();
    for name in &names {
        project.create(name, "world", "world");
        for file in 0..4 {
            let path = format!("{name}-{file}.txt");
            project.write(name, &path, format!("{name}:{file}\n").as_bytes());
        }
    }
    for name in &names {
        project.checkpoint(name, "stress").unwrap();
    }
    for name in &names {
        project.publish(name, &format!("stress-{name}")).unwrap();
    }
    assert_eq!(project.store.current_world().unwrap().id, "v101");
    let ShowPlan::Listing { tree, .. } =
        show(&project.store, &project.files, "world").unwrap()
    else {
        panic!("no listing");
    };
    assert_eq!(tree.entries.len(), 402);
    project.fsck().unwrap();
}
