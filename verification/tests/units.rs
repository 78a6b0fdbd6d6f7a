use javelin::cli::{
    render_error, run, Command, HookCommand, Lease, ProvenanceArgs, ProvenanceCommand,
};
use javelin::commands::history::{
    detected_renames, entry_text, filter_changes, make_patch, render_change, StateText,
};
use javelin::commands::hooks::{hook_report, record_hook, Hook};
use javelin::commands::inspect::{
    checkpoint_report, layer_report, layers_report, lines, stream_event, tree_report,
};
use javelin::commands::maintenance::{doctor, hex, Environment, Repaired};
use javelin::commands::monitor::{
    monitor_process, record_monitor_error, record_monitor_ready, rest_between_rounds, startup_step,
    Round, Stage, Startup, Watch,
};
use javelin::commands::replies::{
    attached_report, begun_session_report, claims_report, created_layer_report, directory_report,
    discarded_layers_report, discarded_local_report, discarded_report, ended_session_report,
    init_report, layer_path_report, purged_layer_report, purged_session_report,
    recorded_event_report, recovered_layer_report, released_claim_report, renewed_claim_report,
    repaired_report, restored_layer_report, version_report,
};
use javelin::commands::retention::{check_follow, gc, next_cursor};
use javelin::commands::sessions::{is_sensitive, redact_value, scrub, session_report};
use javelin::commands::validation::{config_from_tree, exit_code, policy_hash, record_run, verify};
use javelin::commands::validation::{RuleEnd, RuleRun};
use javelin::config::{
    reached_time, retention_seconds, CheckpointConfig, Config, IgnorePolicy, ProvenanceConfig, RetentionConfig,
    VerificationConfig, WorldRule, DEFAULT_IGNORE,
};
use javelin::error::{Context, JavelinError};
use javelin::files::ObjectFiles;
use javelin::integration::{
    integrate_trees, merge_candidates, try_text_integration, ConflictKind, Contents,
};
use javelin::json::Json;
use javelin::materialize::{materialize_tree_from_cache, populate_snapshot, Step};
use javelin::model::{
    Change, ChangeKind, EntryKind, Layer, LayerStatus, TargetKind, Tree, TreeEntry,
};
use javelin::objects::{
    decode_tree, encode_object, encode_tree, is_valid_id, object_file, object_id, ObjectKind,
    ObjectStore,
};
use javelin::ordered::PathMap;
use javelin::paths::{
    components_of, discover, is_reserved_path, join_path, safe_join, validate_relative, Ancestor,
    Component,
};
use javelin::process::{fault_enabled, process_alive, windows_process_alive, Probe};
use javelin::report::{in_envelope, Shown};
use javelin::scan::{inspect_item, scan_view, view_stamp, Found, ItemOutcome, StampItem, ViewItem};
use javelin::search;
use javelin::store::claims::expiry_of;
use javelin::store::layers::NewLayer;
use javelin::store::recovery::{
    publish_request_expired, queue_step, request_expired, wait_in_queue, QueueStep,
};
use javelin::store::{is_version_name, Store};
use javelin::text;
use javelin::view::{
    apply_entries, detect_case_collisions, diff_trees, invalid_cache_path, managed_cache_path,
};

fn file(path: &str, id: &str) -> TreeEntry {
    TreeEntry {
        path: path.to_string(),
        kind: EntryKind::File,
        object_id: Some(id.repeat(64)),
        executable: false,
    }
}

fn directory(path: &str) -> TreeEntry {
    TreeEntry {
        path: path.to_string(),
        kind: EntryKind::Directory,
        object_id: None,
        executable: false,
    }
}

fn tree(entries: Vec<TreeEntry>) -> Tree {
    Tree { entries }
}

fn world() -> (Store, ObjectFiles) {
    let mut store = Store::create("/world");
    let mut files = ObjectFiles::new("/world/.javelin");
    let (root, content) = store.objects.put_tree(&Tree::default()).unwrap();
    files.add_file(root.clone(), content);
    store.register_object(&root, ObjectKind::Tree, 4);
    store.initialize_world(&root).unwrap();
    (store, files)
}

#[test]
fn decimal_numbers_are_written_without_leading_zeros() {
    assert_eq!(text::number(0), "0");
    assert_eq!(text::number(1024), "1024");
    assert_eq!(text::number_i64(-37), "-37");
    assert_eq!(text::number_i64(i64::MIN), "-9223372036854775808");
}

#[test]
fn numbers_are_read_within_their_limit() {
    assert_eq!(search::parse("42", 100), Some(42));
    assert_eq!(search::parse("+42", 100), Some(42));
    assert_eq!(search::parse("101", 100), None);
    assert_eq!(search::parse("", 100), None);
    assert_eq!(search::parse("+", 100), None);
    assert_eq!(search::parse("4 2", 100), None);
}

#[test]
fn texts_are_split_joined_trimmed_and_replaced() {
    assert_eq!(text::split_on("a,b,,c", ','), ["a", "b", "", "c"]);
    assert_eq!(
        text::join(&vec!["a".to_string(), "b".to_string()], "--"),
        "a--b"
    );
    assert_eq!(text::trim(" \t x y \n"), "x y");
    assert_eq!(search::replace("aaa", "aa", "b"), "ba");
    assert_eq!(
        search::cut_at("world:src/main.rs", ':'),
        ("world".to_string(), "src/main.rs".to_string())
    );
    assert_eq!(
        search::cut_at("world", ':'),
        ("world".to_string(), String::new())
    );
    assert!(text::same_ignoring_case("ReadMe", "rEADmE"));
    assert!(text::less("A", "a"));
    assert!(!text::less("a", "a"));
}

#[test]
fn errors_have_the_documented_codes() {
    let cases = [
        (JavelinError::invalid("m".into()), 2, "INVALID_ARGUMENT"),
        (JavelinError::no_world("/x"), 3, "NO_WORLD"),
        (JavelinError::conflict("m".into()), 4, "CONFLICT"),
        (
            JavelinError::verification("m".into()),
            5,
            "VERIFICATION_FAILED",
        ),
        (JavelinError::stale("m".into()), 6, "STALE_STATE"),
        (JavelinError::corruption("m".into()), 7, "STORAGE_CORRUPTION"),
        (JavelinError::busy("m".into()), 8, "RESOURCE_BUSY"),
        (
            JavelinError::unsupported("m".into()),
            9,
            "UNSUPPORTED_FEATURE",
        ),
        (JavelinError::policy("m".into()), 10, "POLICY_REJECTED"),
    ];
    for (error, code, name) in cases {
        assert_eq!(error.exit_code, code);
        assert_eq!(error.code, name);
        assert_eq!(run(&Err(error)), i32::from(code));
    }
    assert_eq!(run(&Ok(())), 0);
}

#[test]
fn errors_are_rendered_with_their_ways_out() {
    let error = JavelinError::no_world("/nowhere");
    assert_eq!(
        render_error(&error),
        [
            "error [NO_WORLD]: no Javelin World found from /nowhere",
            "recovery: javelin init"
        ]
    );
    let Json::Object(fields) = error.json() else {
        panic!("no object")
    };
    assert_eq!(fields[0].1, Json::Number("1".to_string()));
    assert_eq!(fields[1].1, Json::Bool(false));
}

#[test]
fn context_carries_the_cause() {
    let failed: std::result::Result<u8, String> = Err("disk full".to_string());
    let error = failed
        .jctx(7, "OBJECT_IO", "cannot write".to_string())
        .unwrap_err();
    assert_eq!(error.code, "OBJECT_IO");
    assert_eq!(
        error.details,
        Json::empty().with("cause", Json::text("disk full"))
    );
    let fine: std::result::Result<u8, String> = Ok(3);
    assert_eq!(fine.jctx(7, "X", String::new()).unwrap(), 3);
}

#[test]
fn rejected_paths_are_quoted() {
    let error = validate_relative("../a\"b").unwrap_err();
    assert_eq!(error.message, "unsafe path \"../a\\\"b\"");
    assert_eq!(validate_relative("").unwrap_err().exit_code, 9);
    assert_eq!(validate_relative("a\\b").unwrap_err().exit_code, 9);
    assert_eq!(validate_relative("a\0b").unwrap_err().exit_code, 9);
    assert!(validate_relative("./a").is_ok());
    assert!(validate_relative("a/../b").is_err());
}

#[test]
fn reserved_names_are_found() {
    assert!(is_reserved_path(".git/config"));
    assert!(is_reserved_path(".javelin-view"));
    assert!(!is_reserved_path("git/config"));
    assert!(!is_reserved_path(".gitignore"));
}

#[test]
fn paths_are_taken_apart_and_joined() {
    assert_eq!(
        components_of("/a/./b//../c"),
        [
            Component::RootDir,
            Component::Normal("a".to_string()),
            Component::Normal("b".to_string()),
            Component::ParentDir,
            Component::Normal("c".to_string()),
        ]
    );
    assert_eq!(join_path("/a", "b"), "/a/b");
    assert_eq!(join_path("/a/", "b"), "/a/b");
}

#[test]
fn safe_join_refuses_links_above_the_path() {
    let links = vec!["/root/link".to_string()];
    assert_eq!(safe_join("/root", "a/b", &links).unwrap(), "/root/a/b");
    assert_eq!(safe_join("/root", "link", &links).unwrap(), "/root/link");
    let error = safe_join("/root", "link/b", &links).unwrap_err();
    assert_eq!(error.exit_code, 9);
    assert_eq!(error.message, "symlink parent rejected for \"link/b\"");
}

#[test]
fn object_identities_are_blake3_of_domain_and_content() {
    let mut input = b"javelin:blob:v1\0".to_vec();
    input.extend_from_slice(b"content");
    assert_eq!(
        object_id(ObjectKind::Blob, b"content"),
        blake3::hash(&input).to_hex().to_string()
    );
    assert_ne!(
        object_id(ObjectKind::Blob, b"content"),
        object_id(ObjectKind::Tree, b"content")
    );
    assert!(is_valid_id(&object_id(ObjectKind::Tree, b"")));
    assert!(!is_valid_id("abc"));
}

#[test]
fn object_files_have_a_header_and_a_zstd_frame() {
    let content = b"some content, some content, some content".to_vec();
    let encoded = encode_object(ObjectKind::Blob, &content).unwrap();
    assert_eq!(&encoded[..4], b"JVL1");
    assert_eq!(encoded[4], 1);
    assert_eq!(encoded[5..13], (content.len() as u64).to_be_bytes());
    assert_eq!(zstd::decode_all(&encoded[13..]).unwrap(), content);
    assert_eq!(&encoded[13..], zstd::encode_all(&content[..], 3).unwrap());
}

#[test]
fn what_the_encoder_gives_becomes_a_file_or_an_error() {
    let file = object_file(ObjectKind::Tree, 258, Ok(vec![9, 8])).unwrap();
    assert_eq!(file, b"JVL1\x02\0\0\0\0\0\0\x01\x02\x09\x08");
    let error = object_file(ObjectKind::Blob, 0, Err("no memory".to_string())).unwrap_err();
    assert_eq!(error.code, "OBJECT_IO");
    assert_eq!(error.message, "cannot finish object compression");
    assert_eq!(
        error.details,
        Json::empty().with("cause", Json::text("no memory"))
    );
}

#[test]
fn damaged_objects_are_recognized() {
    let objects = ObjectStore::new("/m");
    let (id, good) = objects.put_blob(b"payload").unwrap();
    assert_eq!(objects.validate(&id, &good).unwrap(), (ObjectKind::Blob, 7));
    assert_eq!(objects.info(&id, &good).unwrap(), (ObjectKind::Blob, 7));
    assert_eq!(objects.read_tree(&id, &good).unwrap_err().exit_code, 7);
    let mut wrong = good.clone();
    wrong[0] = b'X';
    assert_eq!(
        objects.read_blob(&id, &wrong).unwrap_err().message,
        format!("invalid object header {id}")
    );
    let mut kind = good.clone();
    kind[4] = 9;
    assert_eq!(
        objects.read_blob(&id, &kind).unwrap_err().message,
        "unknown object kind 9"
    );
    let mut length = good.clone();
    length[12] = 8;
    assert_eq!(
        objects.read_blob(&id, &length).unwrap_err().message,
        format!("object {id} length mismatch")
    );
    assert_eq!(
        objects.read_blob(&id, &good[..5]).unwrap_err().code,
        "CORRUPT_OBJECT"
    );
    assert_eq!(
        objects.read_blob(&id, &good[..14]).unwrap_err().code,
        "CORRUPT_OBJECT"
    );
    let (other, _) = objects.put_blob(b"other").unwrap();
    assert_eq!(
        objects.read_blob(&other, &good).unwrap_err().message,
        format!("object {other} content hash mismatch")
    );
    assert_eq!(
        objects.object_path("xyz").unwrap_err().message,
        "invalid object ID xyz"
    );
    assert_eq!(
        objects.object_path(&id).unwrap(),
        format!("/m/objects/{}/{}", &id[..2], &id[2..])
    );
}

#[test]
fn missing_objects_are_named() {
    let (_, files) = world();
    let id = "a".repeat(64);
    let error = files.read_blob(&id).unwrap_err();
    assert_eq!(error.code, "MISSING_OBJECT");
    assert_eq!(
        error.message,
        format!("missing object {id} at /world/.javelin/objects/aa/{}", "a".repeat(62))
    );
}

#[test]
fn malformed_trees_are_rejected() {
    let good = encode_tree(&tree(vec![file("a", "b")])).unwrap();
    assert_eq!(&good[..4], [0, 0, 0, 1]);
    assert!(decode_tree(&good[..good.len() - 1]).is_err());
    let mut trailing = good.clone();
    trailing.push(0);
    assert!(decode_tree(&trailing).is_err());
    assert!(encode_tree(&tree(vec![file("a", "b"), file("a", "c")])).is_err());
    let outside = encode_tree(&tree(vec![file("../a", "b")])).unwrap();
    assert_eq!(decode_tree(&outside).unwrap_err().exit_code, 9);
    assert!(decode_tree(&[]).is_err());
    assert_eq!(decode_tree(&[0, 0, 0, 0]).unwrap(), Tree::default());
}

#[test]
fn case_collisions_are_rejected() {
    let error =
        detect_case_collisions(&vec![file("Name.txt", "a"), file("name.txt", "b")]).unwrap_err();
    assert_eq!(
        error.message,
        "case-fold collision between \"Name.txt\" and \"name.txt\""
    );
    assert!(detect_case_collisions(&vec![file("a", "a"), file("b", "b")]).is_ok());
}

#[test]
fn a_walk_becomes_a_tree() {
    let policy = IgnorePolicy::from_file(Some("*.log\n")).unwrap();
    let item = |path: &str, found: Found| ViewItem {
        relative: Some(path.to_string()),
        found,
    };
    let scan = scan_view(
        &policy,
        &vec![
            item(
                "b.txt",
                Found::File {
                    object_id: "b".repeat(64),
                    length: 3,
                    executable: true,
                },
            ),
            item("a", Found::Directory),
            item("debug.log", Found::Unread { directory: false }),
        ],
    )
    .unwrap();
    let paths: Vec<&str> = scan
        .tree
        .entries
        .iter()
        .map(|entry| entry.path.as_str())
        .collect();
    assert_eq!(paths, ["a", "b.txt"]);
    assert_eq!(scan.ignored, [("debug.log".to_string(), "*.log".to_string())]);
    assert_eq!(scan.objects, [("b".repeat(64), ObjectKind::Blob, 3)]);
    let device = scan_view(&policy, &vec![item("device", Found::Other)]).unwrap_err();
    assert_eq!(device.message, "unsupported filesystem entry device");
    let unnamed = ViewItem {
        relative: None,
        found: Found::Directory,
    };
    assert_eq!(
        inspect_item(&policy, &unnamed).unwrap_err().message,
        "non-UTF-8 paths are unsupported"
    );
    assert_eq!(
        inspect_item(&policy, &item(".git", Found::Directory)).unwrap(),
        ItemOutcome::Pruned
    );
}

#[test]
fn stamps_follow_every_part_of_an_entry() {
    let entry = |length: u64, nanoseconds: u32| StampItem {
        relative: Some("a".to_string()),
        length,
        seconds: 1,
        nanoseconds,
        kind: EntryKind::File,
        mode: Some(0o644),
        link_target: Vec::new(),
    };
    let first = view_stamp(&vec![entry(1, 2)]).unwrap();
    assert_eq!(first.len(), 64);
    assert_eq!(view_stamp(&vec![entry(1, 2)]).unwrap(), first);
    assert_ne!(view_stamp(&vec![entry(2, 2)]).unwrap(), first);
    assert_ne!(view_stamp(&vec![entry(1, 3)]).unwrap(), first);
    let mut input = b"a\0".to_vec();
    input.extend_from_slice(&1u64.to_be_bytes());
    input.extend_from_slice(&1u64.to_be_bytes());
    input.extend_from_slice(&2u32.to_be_bytes());
    input.push(1);
    input.extend_from_slice(&0o644u32.to_be_bytes());
    assert_eq!(first, blake3::hash(&input).to_hex().to_string());
}

#[test]
fn a_plan_copies_files_and_links() {
    let link = TreeEntry {
        path: "b/link".to_string(),
        kind: EntryKind::Symlink,
        object_id: Some("c".repeat(64)),
        executable: false,
    };
    let entries = tree(vec![directory("a"), file("a/x", "b"), link]);
    let root = "d".repeat(64);
    let steps =
        materialize_tree_from_cache(&entries, &root, "/m", "/view", Vec::new()).unwrap();
    assert_eq!(
        steps[0],
        Step::Directory {
            path: "/view/a".to_string()
        }
    );
    assert!(steps.contains(&Step::Copy {
        from: format!("/m/materialized/{root}/a/x"),
        path: "/view/a/x".to_string(),
        executable: false,
    }));
    assert!(steps.contains(&Step::Link {
        path: "/view/b/link".to_string(),
        object_id: "c".repeat(64),
    }));
    let snapshot = populate_snapshot(&entries, "/cache").unwrap();
    assert!(snapshot.contains(&Step::Blob {
        path: "/cache/a/x".to_string(),
        object_id: "b".repeat(64),
        executable: false,
    }));
    assert_eq!(
        managed_cache_path("/m", &root),
        format!("/m/materialized/{root}")
    );
    assert!(invalid_cache_path("/m", "short").is_err());
}

#[test]
fn differences_are_classified() {
    let old = tree(vec![file("gone", "a"), file("mode", "b"), file("same", "c"), file("type", "d")]);
    let mut mode = file("mode", "b");
    mode.executable = true;
    let new = tree(vec![file("added", "e"), mode, file("same", "c"), directory("type")]);
    let changes = diff_trees(&old, &new);
    let kinds: Vec<(&str, ChangeKind)> = changes
        .iter()
        .map(|change| (change.path.as_str(), change.change))
        .collect();
    assert_eq!(
        kinds,
        [
            ("added", ChangeKind::Add),
            ("gone", ChangeKind::Delete),
            ("mode", ChangeKind::Mode),
            ("type", ChangeKind::Type),
        ]
    );
    let mut updates = PathMap::new();
    for change in changes {
        updates.insert(change.path, change.new);
    }
    assert_eq!(apply_entries(&old, &updates), new);
}

#[test]
fn renames_are_detected_by_content() {
    let changes = diff_trees(
        &tree(vec![file("old.txt", "a")]),
        &tree(vec![file("new.txt", "a")]),
    );
    let renames = detected_renames(&changes);
    assert_eq!(renames.get("new.txt").unwrap(), "old.txt");
    assert!(renames.get("old.txt").is_none());
}

#[test]
fn filters_pass_a_path_and_what_is_below() {
    let changes = diff_trees(
        &Tree::default(),
        &tree(vec![file("a/x", "a"), file("ab", "b"), file("c", "c")]),
    );
    let kept = filter_changes(changes, &vec!["a".to_string()]);
    assert_eq!(kept.len(), 1);
    assert_eq!(kept[0].path, "a/x");
}

#[test]
fn texts_merge_line_by_line() {
    let contents = |private: &str, target: &str| Contents {
        base: b"one\ntwo\nthree\nfour\nfive\n".to_vec(),
        target: target.as_bytes().to_vec(),
        private: private.as_bytes().to_vec(),
    };
    assert_eq!(
        try_text_integration(&contents(
            "ONE\ntwo\nthree\nfour\nfive\n",
            "one\ntwo\nthree\nfour\nFIVE\n"
        ))
        .unwrap(),
        b"ONE\ntwo\nthree\nfour\nFIVE\n"
    );
    assert!(try_text_integration(&contents(
        "mine\ntwo\nthree\nfour\nfive\n",
        "yours\ntwo\nthree\nfour\nfive\n"
    ))
    .is_none());
    assert!(try_text_integration(&Contents {
        base: b"a\0".to_vec(),
        target: b"b".to_vec(),
        private: b"c".to_vec(),
    })
    .is_none());
    assert!(try_text_integration(&Contents {
        base: vec![0xff],
        target: b"b".to_vec(),
        private: b"c".to_vec(),
    })
    .is_none());
}

#[test]
fn a_merged_text_is_a_new_blob() {
    let base = tree(vec![file("f", "a")]);
    let target = tree(vec![file("f", "b")]);
    let private = tree(vec![file("f", "c")]);
    let wanted = merge_candidates(&base, &target, &private);
    assert_eq!(wanted.len(), 1);
    assert_eq!(wanted[0].path, "f");
    let mut contents = PathMap::new();
    contents.insert(
        "f".to_string(),
        Contents {
            base: b"1\n2\n3\n4\n5\n".to_vec(),
            target: b"1\n2\n3\n4\nfive\n".to_vec(),
            private: b"one\n2\n3\n4\n5\n".to_vec(),
        },
    );
    let result = integrate_trees(&base, &target, &private, &contents);
    assert!(result.conflicts.is_empty());
    assert_eq!(result.blobs.len(), 1);
    assert_eq!(result.blobs[0].1, b"one\n2\n3\n4\nfive\n");
    assert_eq!(
        result.tree.entries[0].object_id.as_ref().unwrap(),
        &object_id(ObjectKind::Blob, b"one\n2\n3\n4\nfive\n")
    );
}

#[test]
fn conflicts_are_classified() {
    let a = file("p", "a");
    let b = file("p", "b");
    let d = directory("p");
    let mut executable = file("p", "c");
    executable.executable = true;
    let cases = [
        (None, Some(&a), Some(&b), ConflictKind::CreateCreate, "create_create"),
        (Some(&a), None, Some(&b), ConflictKind::DeleteModify, "delete_modify"),
        (Some(&a), Some(&b), None, ConflictKind::ModifyDelete, "modify_delete"),
        (Some(&a), Some(&d), Some(&b), ConflictKind::Type, "type"),
        (Some(&a), Some(&b), Some(&executable), ConflictKind::Mode, "mode"),
        (Some(&a), Some(&b), Some(&a), ConflictKind::ModifyModify, "modify_modify"),
        (None, None, Some(&a), ConflictKind::PathState, "path_state"),
    ];
    for (base, target, private, kind, name) in cases {
        assert_eq!(ConflictKind::classify(base, target, private), kind);
        assert_eq!(kind.as_str(), name);
    }
    assert_eq!(ConflictKind::Case.as_str(), "case");
}

#[test]
fn patches_show_what_changed() {
    let patch = make_patch(
        &StateText::Lines("one\ntwo\n".to_string()),
        &StateText::Lines("one\n2\n".to_string()),
    )
    .unwrap();
    assert_eq!(
        patch,
        diffy::create_patch("one\ntwo\n", "one\n2\n").to_string()
    );
    assert!(patch.contains("-two\n+2\n"));
    assert!(make_patch(&StateText::Binary, &StateText::Lines(String::new())).is_none());
    assert!(make_patch(&StateText::Absent, &StateText::Absent).is_none());
}

#[test]
fn binary_states_have_no_patch() {
    let (store, mut files) = world();
    let mut put = |content: &[u8]| {
        let (id, stored) = store.objects.put_blob(content).unwrap();
        files.add_file(id.clone(), stored);
        TreeEntry {
            path: "f".to_string(),
            kind: EntryKind::File,
            object_id: Some(id),
            executable: false,
        }
    };
    let binary = put(&[0, 1, 2]);
    let invalid = put(&[0xff, 0xfe]);
    let readable = put(b"text\n");
    assert_eq!(
        entry_text(&files, &Some(binary.clone())).unwrap(),
        StateText::Binary
    );
    assert_eq!(
        entry_text(&files, &Some(invalid)).unwrap(),
        StateText::Binary
    );
    assert_eq!(
        entry_text(&files, &Some(readable.clone())).unwrap(),
        StateText::Lines("text\n".to_string())
    );
    assert_eq!(entry_text(&files, &None).unwrap(), StateText::Absent);
    let change = Change {
        path: "f".to_string(),
        change: ChangeKind::Modify,
        old: Some(binary),
        new: Some(readable),
    };
    let (_, human) = render_change(&files, &change, &PathMap::new()).unwrap();
    assert_eq!(human, "modify\tf");
}

fn config(format: u32, rules: Vec<WorldRule>, days: u64) -> Config {
    Config {
        format,
        checkpoint: CheckpointConfig::default(),
        retention: RetentionConfig {
            discarded_days: days,
            raw_trace_days: 30,
        },
        verification: VerificationConfig { rules },
        provenance: ProvenanceConfig { redact: Vec::new() },
    }
}

fn rule(name: &str, command: Vec<String>) -> WorldRule {
    WorldRule {
        name: name.to_string(),
        command,
        required: true,
        timeout_seconds: 600,
    }
}

#[test]
fn configurations_are_checked() {
    assert_eq!(CheckpointConfig::default().debounce_ms, 250);
    assert_eq!(RetentionConfig::default().discarded_days, 7);
    assert_eq!(RetentionConfig::default().raw_trace_days, 30);
    assert!(Config::parse(Ok(config(1, Vec::new(), 7))).is_ok());
    assert_eq!(
        Config::parse(Ok(config(2, Vec::new(), 7))).unwrap_err().message,
        "unsupported javelin.toml format 2"
    );
    assert_eq!(
        Config::parse(Ok(config(1, vec![rule("  ", vec!["true".into()])], 7)))
            .unwrap_err()
            .message,
        "verification rules require a name and argv command"
    );
    assert!(Config::parse(Ok(config(1, vec![rule("r", Vec::new())], 7))).is_err());
    assert_eq!(
        Config::parse(Ok(config(1, Vec::new(), u64::MAX)))
            .unwrap_err()
            .message,
        "retention.discarded_days is too large"
    );
    assert_eq!(
        Config::parse(Err("line 1".to_string())).unwrap_err().message,
        "invalid javelin.toml: line 1"
    );
    assert_eq!(retention_seconds(7, "f").unwrap(), 604800);
}

#[test]
fn ignore_rules_decide_by_the_last_match() {
    let policy = IgnorePolicy::parse("# note\n\n/build/\ndocs/*.md\n!docs/keep.md\n").unwrap();
    assert!(policy.ignored("build/out", false));
    assert!(policy.ignored("build", true));
    assert!(!policy.ignored("build", false));
    assert_eq!(
        policy.decision("docs/a.md", false),
        Some((true, "docs/*.md".to_string()))
    );
    assert_eq!(
        policy.decision("docs/keep.md", false),
        Some((false, "!docs/keep.md".to_string()))
    );
    assert_eq!(policy.decision("docs/deep/a.md", false), None);
    assert!(policy.ignored(".hg/store", false));
    let error = IgnorePolicy::parse("a[\n").unwrap_err();
    assert_eq!(error.exit_code, 10);
    assert!(search::contains(
        &error.message,
        "invalid .javelinignore rule \"a[\""
    ));
    let seeded = IgnorePolicy::from_file(Some(DEFAULT_IGNORE)).unwrap();
    assert!(seeded.ignored(".env.test.local", false));
    assert!(!seeded.ignored(".env.example", false));
}

#[test]
fn candidates_without_a_policy_are_rejected() {
    let (_, files) = world();
    assert_eq!(
        config_from_tree(&files, &Tree::default())
            .unwrap_err()
            .message,
        "candidate has no javelin.toml"
    );
}

#[test]
fn runs_are_recorded_with_their_command() {
    let (mut store, _) = world();
    let ran = RuleRun {
        end: RuleEnd::Exited(Some(0)),
        duration_ms: 5,
        environment_json: "{}".to_string(),
        stdout: Vec::new(),
        stderr: b"warn".to_vec(),
    };
    let registered = store.object_metadata.len();
    let (record, files) = record_run(
        &mut store,
        &rule("r", vec!["echo".into(), "a \"b\"".into()]),
        &ran,
        "root",
        &policy_hash("text"),
    )
    .unwrap();
    assert_eq!(record.command_json, "[\"echo\",\"a \\\"b\\\"\"]");
    assert_eq!(record.policy_hash, blake3::hash(b"text").to_hex().to_string());
    assert_eq!(record.stdout_object, None);
    assert_eq!(
        record.stderr_object,
        Some(object_id(ObjectKind::Blob, b"warn"))
    );
    assert_eq!(files.len(), 1);
    assert_eq!(store.object_metadata.len(), registered);
    assert_eq!(record.id.len(), 26);
    assert!(record
        .id
        .chars()
        .all(|c| "0123456789ABCDEFGHJKMNPQRSTVWXYZ".contains(c)));
    let commands = [
        (vec![], "[]"),
        (vec!["\u{8}\t\n\u{c}\r\u{0}\u{1f}\u{7f}".to_string()],
            "[\"\\b\\t\\n\\f\\r\\u0000\\u001f\u{7f}\"]"),
        (vec!["\\".to_string(), "/\u{e9}".to_string()], "[\"\\\\\",\"/\u{e9}\"]"),
    ];
    for (command, written) in commands {
        let (record, _) =
            record_run(&mut store, &rule("r", command), &ran, "root", "hash").unwrap();
        assert_eq!(record.command_json, written);
    }
    let (_, human) = verify("root", &vec![record]).unwrap();
    assert_eq!(human, "Verified 1 World Rules");
    assert_eq!(exit_code(RuleEnd::TimedOut), 124);
    assert_eq!(exit_code(RuleEnd::Exited(None)), 128);
    assert_eq!(exit_code(RuleEnd::Exited(Some(3))), 3);
}

#[test]
fn secrets_are_redacted() {
    assert!(is_sensitive("API_KEY"));
    assert!(is_sensitive("authorizationHeader"));
    assert!(!is_sensitive("summary"));
    let secrets = vec!["hunter2".to_string(), String::new()];
    assert_eq!(scrub("say hunter2!", &secrets), "say [REDACTED]!");
    let value = Json::empty()
        .with("Token", Json::text("abc"))
        .with(
            "nested",
            Json::Array(vec![
                Json::text("hunter2"),
                Json::Number("3".to_string()),
                Json::empty().with("password", Json::Null),
            ]),
        );
    let expected = Json::empty()
        .with("Token", Json::text("[REDACTED]"))
        .with(
            "nested",
            Json::Array(vec![
                Json::text("[REDACTED]"),
                Json::Number("3".to_string()),
                Json::empty().with("password", Json::text("[REDACTED]")),
            ]),
        );
    assert_eq!(redact_value(&value, &secrets), expected);
}

#[test]
fn processes_are_judged_by_their_answer() {
    assert!(process_alive(1, Probe::Reached));
    assert!(process_alive(1, Probe::Denied));
    assert!(!process_alive(1, Probe::Missing));
    assert!(windows_process_alive(4, Some(259)));
    assert!(!windows_process_alive(4, Some(0)));
    assert!(!windows_process_alive(0, Some(259)));
}

#[test]
fn fault_points_are_listed_with_commas() {
    assert!(fault_enabled("a,b", "b"));
    assert!(!fault_enabled("a,b", "c"));
    assert!(!fault_enabled("", "a"));
}

#[test]
fn requests_in_the_queue_grow_old() {
    assert!(publish_request_expired("2000-01-01T00:00:00Z"));
    assert!(publish_request_expired("no time at all"));
    assert!(!request_expired(Some((300, 0))));
    assert!(request_expired(Some((300, 1))));
    assert!(request_expired(None));
    assert!(wait_in_queue(299).is_ok());
    assert_eq!(
        wait_in_queue(300).unwrap_err().message,
        "Publish queue wait exceeded 300 seconds"
    );
}

#[test]
fn the_queue_admits_its_head() {
    let (mut store, _) = world();
    let first = store.enter_publish_queue("world", 10);
    let second = store.enter_publish_queue("world", 11);
    assert_ne!(first, second);
    let head = store.publish_queue_head("world");
    assert_eq!(queue_step(&head, &first, true, false), QueueStep::TryLease);
    assert_eq!(queue_step(&head, &second, true, false), QueueStep::Wait);
    assert_eq!(
        queue_step(&head, &second, false, false),
        QueueStep::RemoveHead
    );
    assert_eq!(
        queue_step(&head, &second, true, true),
        QueueStep::RemoveHead
    );
    store.leave_publish_queue(&first);
    assert_eq!(
        store.publish_queue_head("world").unwrap().request_id,
        second
    );
    assert!(store.publish_queue_head("layer-x").is_none());
}

#[test]
fn references_resolve_to_states() {
    let (store, _) = world();
    let version = store.current_world().unwrap();
    for reference in ["world", "current", "v1"] {
        assert_eq!(
            store.resolve_ref(reference).unwrap(),
            ("v1".to_string(), version.root_tree.clone())
        );
    }
    let head = store.layer("local").unwrap().head_checkpoint;
    for reference in ["layer:local", "local", head.as_str()] {
        assert_eq!(store.resolve_ref(reference).unwrap().0, head);
    }
    assert_eq!(
        store.resolve_ref("nothing").unwrap_err().message,
        "unknown State Reference nothing"
    );
    assert_eq!(
        store.resolve_ref("v9").unwrap_err().message,
        "unknown World Version v9"
    );
    assert!(is_version_name("v12"));
    assert!(is_version_name("v"));
    assert!(!is_version_name("v1a"));
    assert!(!is_version_name("x1"));
}

fn named<'a>(name: &'a str, root: &'a str, view: &'a str) -> NewLayer<&'a str> {
    NewLayer {
        name,
        origin_ref: "v1",
        synchronized_ref: "v1",
        root_tree: root,
        target_kind: "world",
        target_id: None,
        view_path: view,
    }
}

#[test]
fn layer_names_are_checked() {
    let (mut store, _) = world();
    let root = store.current_world().unwrap().root_tree;
    for name in ["local", "  ", "a/b", "a\\b", "a\0b"] {
        assert_eq!(
            store
                .create_layer(named(name, &root, "/v"))
                .unwrap_err()
                .message,
            "invalid Private Layer name"
        );
    }
    store.create_layer(named("one", &root, "/v/one")).unwrap();
    assert_eq!(
        store
            .create_layer(named("one", &root, "/v/two"))
            .unwrap_err()
            .message,
        "Private Layer one already exists"
    );
    assert_eq!(
        store
            .create_layer(named("two", &root, "/v/one"))
            .unwrap_err()
            .exit_code,
        2
    );
    assert_eq!(store.layers(false).len(), 2);
}

#[test]
fn a_repeated_checkpoint_is_not_appended() {
    let (mut store, _) = world();
    let layer = store.layer("local").unwrap();
    let head = store.layer_head(&layer).unwrap();
    let again = store
        .append_checkpoint("local", &head.root_tree, "v1", "explicit")
        .unwrap();
    assert_eq!(again.id, head.id);
    let restored = store
        .append_checkpoint("local", &head.root_tree, "v1", "restore")
        .unwrap();
    assert_ne!(restored.id, head.id);
    assert_eq!(restored.sequence, 2);
    assert_eq!(restored.previous_checkpoint, Some(head.id));
    assert_eq!(store.checkpoint_history("local").len(), 2);
}

#[test]
fn kinds_and_statuses_are_read_back() {
    for kind in [TargetKind::World, TargetKind::Layer] {
        assert_eq!(TargetKind::from_str(kind.as_str()).unwrap(), kind);
    }
    assert!(TargetKind::from_str("other").is_err());
    for status in [
        LayerStatus::Active,
        LayerStatus::Conflicted,
        LayerStatus::Publishing,
        LayerStatus::Discarded,
    ] {
        assert_eq!(LayerStatus::from_str(status.as_str()).unwrap(), status);
    }
    assert!(LayerStatus::from_str("other").is_err());
}

#[test]
fn every_command_says_what_it_needs() {
    assert_eq!(Command::Version.access().lease, Lease::Free);
    assert!(!Command::Version.access().world);
    assert_eq!(
        Command::Gc { dry_run: true }.access().lease,
        Lease::Collection
    );
    let repair = Command::Repair { view: None }.access();
    assert!(!repair.monitor);
    assert_eq!(repair.lease, Lease::Reference);
    let events = Command::Events {
        since: 0,
        follow: false,
        jsonl: false,
    }
    .access();
    assert_eq!(events.lease, Lease::Free);
    assert!(events.monitor);
    assert!(!Command::Monitor.access().monitor);
    let provenance = Command::Provenance(ProvenanceArgs {
        command: ProvenanceCommand::End {
            session: "s".to_string(),
        },
    });
    assert_eq!(provenance.access().lease, Lease::Reference);
}

#[test]
fn hooks_are_recorded() {
    let (mut store, _) = world();
    let command = HookCommand::OperationEnd {
        session: Some("s".to_string()),
    };
    let (hook, session) = command.terms();
    assert!(hook.refreshes());
    assert!(!Hook::SessionEnd.refreshes());
    record_hook(&mut store, hook, "local", &session, "c");
    let event = &store.events[store.events.len() - 1];
    assert_eq!(event.event_type, "hook.operation-end");
    assert_eq!(
        event.payload,
        Json::empty()
            .with("session_id", Json::text("s"))
            .with("checkpoint_id", Json::text("c"))
            .with("safe_refresh", Json::Bool(true))
    );
    let head = store.checkpoint_history("local").remove(0);
    let (_, human) = hook_report(hook, &head, &None);
    assert_eq!(human, "hook.operation-end");
}

#[test]
fn the_monitor_names_its_process() {
    let (mut store, _) = world();
    let told = record_monitor_ready(&mut store, 4711);
    assert_eq!(monitor_process(&told), Some(4711));
    assert_eq!(
        monitor_process(&Json::empty().with("pid", Json::Number("4294967296".to_string()))),
        None
    );
    assert_eq!(
        monitor_process(&Json::empty().with("pid", Json::text("7"))),
        None
    );
    assert_eq!(monitor_process(&Json::empty()), None);
    record_monitor_error(&mut store, Some("local"), Stage::Scan, "SCAN_IO", "cannot scan");
    let event = &store.events[store.events.len() - 1];
    assert_eq!(event.event_type, "monitor.error");
    assert_eq!(event.subject_kind, Some("layer".to_string()));
    assert_eq!(rest_between_rounds(0), 25);
    assert_eq!(rest_between_rounds(250), 250);
}

#[test]
fn a_monitor_is_waited_for() {
    assert_eq!(startup_step(true, None).unwrap(), Startup::Ready);
    assert_eq!(startup_step(false, None).unwrap(), Startup::Start);
    assert_eq!(startup_step(false, Some(4999)).unwrap(), Startup::Wait);
    assert_eq!(startup_step(true, Some(10)).unwrap(), Startup::Ready);
    assert_eq!(startup_step(false, Some(5000)).unwrap_err().exit_code, 8);
    let mut watch = Watch::new();
    assert_eq!(watch.round(true, false), Round::Retry);
    assert_eq!(watch.round(true, true), Round::Visit);
    assert_eq!(watch.round(true, false), Round::Retry);
    assert_eq!(watch.round(true, false), Round::Retry);
    assert_eq!(watch.round(true, false), Round::GiveUp);
    assert_eq!(Watch::new().round(false, true), Round::Stop);
}

#[test]
fn events_are_streamed_after_a_cursor() {
    let (mut store, _) = world();
    let first = store.append_event("one", None, None, Json::empty());
    let second = store.append_event("two", None, None, Json::empty());
    assert_eq!(second, first + 1);
    let places = store.events_since(first);
    assert_eq!(places.len(), 1);
    let event = &store.events[places[0]];
    assert_eq!(event.event_type, "two");
    assert_eq!(next_cursor(&store, &places, first), second);
    let Json::Object(fields) = stream_event(event) else {
        panic!("no object")
    };
    assert_eq!(fields[0].1, Json::text("javelin.event.v1"));
    assert!(check_follow(true, false).is_err());
    assert!(check_follow(true, true).is_ok());
}

#[test]
fn reports_have_a_line_for_each_record() {
    let (store, _) = world();
    let layer: Layer = store.layer("local").unwrap();
    let head = store.layer_head(&layer).unwrap();
    let (_, human) = layers_report(&store.layers(true));
    assert_eq!(human, "local\tactive\t/world");
    let (_, human) = layer_report(&layer, &head);
    assert_eq!(human, format!("local\t{}", head.id));
    let (shown, human) = checkpoint_report(&head, &head.id);
    assert_eq!(human, format!("Layer Checkpoint {} (init)", head.id));
    let Json::Object(fields) = shown else {
        panic!("no object")
    };
    assert_eq!(fields[1].1, Json::Bool(false));
    let (_, human) = tree_report("v1", "root", &tree(vec![directory("a"), file("a/b", "c")]));
    assert_eq!(human, "Directory\ta\nFile\ta/b");
    assert_eq!(
        lines(&store.checkpoint_history("local")),
        format!("{}\tinit\t{}", head.id, head.root_tree)
    );
    let Json::Object(fields) = in_envelope(layer.shown()) else {
        panic!("no object")
    };
    assert_eq!(fields[1].1, Json::Bool(true));
}

#[test]
fn the_doctor_tells_the_version() {
    let (store, _) = world();
    let environment = Environment {
        version: "0.0.1",
        platform: "linux",
        architecture: "x86_64",
        clones: false,
        monitor_ready: true,
    };
    let (_, human) = doctor(&store, &environment).unwrap();
    assert_eq!(
        human,
        "Javelin 0.0.1: World v1, store readable, backend copy"
    );
    assert_eq!(hex(&[0, 15, 255]), "000fff");
}

#[test]
fn garbage_is_collected_only_for_real() {
    let (mut store, mut files) = world();
    let (garbage, content) = store.objects.put_blob(b"unreferenced").unwrap();
    files.add_file(garbage.clone(), content);
    let kept = store.current_world().unwrap().root_tree;
    let ids = vec![garbage.clone(), kept];
    let terms = config(1, Vec::new(), 7);
    let events = store.events.len();
    let dry = gc(&mut store, &files, &ids, &terms, true).unwrap();
    assert_eq!(dry.unreachable, [garbage.clone()]);
    assert_eq!(dry.human(), "1 unreachable objects (dry run)");
    assert_eq!(store.events.len(), events);
    let done = gc(&mut store, &files, &ids, &terms, false).unwrap();
    assert_eq!(done.unreachable, [garbage]);
    assert_eq!(done.human(), "1 unreachable objects removed");
    assert_eq!(
        store.events[store.events.len() - 1].event_type,
        "gc.completed"
    );
}

#[test]
fn the_nearest_directory_is_found() {
    let ancestor = |directory: &str, marked: bool, has_store: bool| Ancestor {
        directory: directory.to_string(),
        marked,
        has_store,
    };
    let ancestors = vec![
        ancestor("/w/v/src", false, false),
        ancestor("/w/v", true, false),
        ancestor("/w", false, true),
    ];
    assert_eq!(discover("/w/v/src", &ancestors).unwrap(), 1);
    assert_eq!(discover("/w", &ancestors[2..].iter().map(|found| ancestor(
        &found.directory,
        found.marked,
        found.has_store,
    )).collect()).unwrap(), 0);
    let error = discover("/", &vec![ancestor("/", false, false)]).unwrap_err();
    assert_eq!(error.exit_code, 3);
    assert_eq!(error.message, "no Javelin World found from /");
}

#[test]
fn times_beyond_the_calendar_are_refused() {
    assert_eq!(expiry_of(Some("t".to_string())).unwrap(), "t");
    assert_eq!(
        expiry_of(None).unwrap_err().message,
        "Claim duration is too large"
    );
    assert_eq!(reached_time(Some("t".to_string()), "f").unwrap(), "t");
    assert_eq!(
        reached_time(None, "f").unwrap_err().message,
        "f is too large"
    );
}

#[test]
fn commands_say_what_they_did() {
    let (mut store, _) = world();
    assert_eq!(javelin::VERSION, "0.0.1");
    assert_eq!(version_report("0.0.1").1, "javelin 0.0.1");
    let version = store.current_world().unwrap();
    assert_eq!(
        init_report(&version, "/world", true).1,
        "Initialized World v1 at /world"
    );
    let (shown, human) = init_report(&version, "/world", false);
    assert_eq!(human, "World already initialized at /world (v1)");
    assert_eq!(
        shown,
        Json::empty()
            .with("world_version", Json::text("v1"))
            .with("root_tree", Json::text(&version.root_tree))
            .with("path", Json::text("/world"))
    );
    assert_eq!(
        directory_report("a", &directory("a")).1,
        "directory\ta"
    );
    let layer = store
        .create_layer(named("one", &version.root_tree, "/v/one"))
        .unwrap();
    let head = store.layer_head(&layer).unwrap();
    assert_eq!(layer_path_report(&layer).1, "/v/one");
    assert_eq!(created_layer_report(&layer, "copy").1, "/v/one");
    assert_eq!(
        restored_layer_report(&layer, &head).1,
        format!("Restored Layer one through {}", head.id)
    );
    assert_eq!(
        discarded_local_report(&head).1,
        format!("Discarded Local Layer changes through {}", head.id)
    );
    assert_eq!(
        discarded_report(&layer, true).0,
        Json::empty()
            .with("layer_id", Json::text(&layer.id))
            .with("name", Json::text("one"))
            .with("purged", Json::Bool(true))
    );
    assert_eq!(
        recovered_layer_report(&layer).1,
        "Recovered Private Layer one"
    );
    assert_eq!(
        purged_layer_report(&layer).1,
        "Purged discarded Private Layer one"
    );
    let line = format!("one\t{}", layer.id);
    assert_eq!(discarded_layers_report(&vec![layer]).1, line);
    let repaired = vec![Repaired {
        layer: "one".to_string(),
        checkpoint: "c".to_string(),
        backend: "copy".to_string(),
    }];
    assert_eq!(repaired_report(&repaired).1, "Repaired 1 Managed views");
}

#[test]
fn claims_are_listed_with_their_overlaps() {
    let (mut store, _) = world();
    let first = store.create_claim("local", "src/**", 60).unwrap();
    let second = store.create_claim("local", "src/a", 60).unwrap();
    let rows = store.claims();
    let (Json::Object(fields), human) = claims_report(&store, &rows) else {
        panic!("no object")
    };
    let ids: Vec<String> = rows.iter().map(|row| row.id.clone()).collect();
    assert_eq!(ids.len(), 2);
    assert!(ids.contains(&first) && ids.contains(&second));
    assert_eq!(
        fields[1].1,
        Json::Array(vec![Json::empty()
            .with("left", Json::text(&rows[0].id))
            .with("right", Json::text(&rows[1].id))
            .with("resource_left", Json::text(&rows[0].resource))
            .with("resource_right", Json::text(&rows[1].resource))])
    );
    assert_eq!(
        human,
        format!(
            "{}\tlocal\t{}\n{}\tlocal\t{}",
            rows[0].id, rows[0].resource, rows[1].id, rows[1].resource
        )
    );
    assert_eq!(
        renewed_claim_report("c", "t").1,
        "Renewed Claim c to t"
    );
    assert_eq!(released_claim_report("c").1, "Released Claim c");
}

#[test]
fn sessions_say_what_became_of_them() {
    let (mut store, _) = world();
    let id = store.begin_provenance(Some("local"), "{}").unwrap();
    store
        .append_provenance_event(&id, "prompt", "{\"a\":1}")
        .unwrap();
    assert_eq!(begun_session_report(&id, "local", Json::Null).1, id);
    assert_eq!(recorded_event_report("e", &id, "prompt").1, "e");
    assert_eq!(
        attached_report("a", "o", "n", 7).0,
        Json::empty()
            .with("attachment_id", Json::text("a"))
            .with("object_id", Json::text("o"))
            .with("name", Json::text("n"))
            .with("size", Json::Number("7".to_string()))
    );
    assert_eq!(
        ended_session_report("s").1,
        "Ended provenance session s"
    );
    assert_eq!(
        purged_session_report("s").1,
        "Purged raw provenance payloads for s"
    );
    let (session, events) = store.provenance_session(&id).unwrap();
    let (covered, human) = session_report(&session, &events, false);
    assert_eq!(human, format!("Provenance session {id}"));
    let (open, _) = session_report(&session, &events, true);
    assert_ne!(covered, open);
}
