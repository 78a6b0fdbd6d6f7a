use javelin::config::{
    CheckpointConfig, Config, IgnorePolicy, ProvenanceConfig, RetentionConfig, VerificationConfig,
    WorldRule,
};
use javelin::integration::integrate_trees;
use javelin::materialize::{plan, symlink_target_is_directory};
use javelin::model::{EntryKind, Tree, TreeEntry};
use javelin::objects::{decode_tree, encode_tree, ObjectKind, ObjectStore};
use javelin::ordered::PathMap;
use javelin::paths::validate_relative;
use javelin::process::{process_alive, windows_process_alive, Probe};
use javelin::search;
use javelin::store::layers::NewLayer;
use javelin::store::Store;

#[test]
fn tree_encoding_is_deterministic_and_round_trips() {
    let first = Tree {
        entries: vec![
            TreeEntry {
                path: "z.txt".into(),
                kind: EntryKind::File,
                object_id: Some("a".repeat(64)),
                executable: false,
            },
            TreeEntry {
                path: "a".into(),
                kind: EntryKind::Directory,
                object_id: None,
                executable: false,
            },
        ],
    };
    let second = Tree {
        entries: first.entries.iter().cloned().rev().collect(),
    };
    let encoded = encode_tree(&first).unwrap();
    assert_eq!(encoded, encode_tree(&second).unwrap());
    assert_eq!(
        decode_tree(&encoded).unwrap(),
        Tree {
            entries: vec![first.entries[1].clone(), first.entries[0].clone()],
        }
    );
}

#[test]
fn domain_separation_changes_blob_and_tree_identity() {
    let objects = ObjectStore::new(".javelin");
    let (blob, blob_file) = objects.put_blob(b"\0\0\0\0").unwrap();
    let (tree, tree_file) = objects.put_tree(&Tree::default()).unwrap();
    assert_ne!(blob, tree);
    assert_eq!(objects.read_blob(&blob, &blob_file).unwrap(), b"\0\0\0\0");
    assert_eq!(
        objects.read_tree(&tree, &tree_file).unwrap(),
        Tree::default()
    );
}

#[test]
fn unsafe_paths_are_rejected() {
    for path in [
        "../outside",
        "/absolute",
        ".javelin/store.sqlite3",
        ".javelin-view",
        ".git/config",
        ".hg/store",
        ".svn/wc.db",
        ".JAVELIN/store.sqlite3",
        ".Git/config",
    ] {
        assert!(validate_relative(path).is_err(), "accepted {path}");
    }
    for path in ["src/main.rs", ".env.example", "empty"] {
        assert!(validate_relative(path).is_ok(), "rejected {path}");
    }
}

#[test]
fn config_rejects_zero_timeouts_and_missing_ignore_uses_defaults() {
    let config = Config {
        format: 1,
        checkpoint: CheckpointConfig::default(),
        retention: RetentionConfig::default(),
        verification: VerificationConfig {
            rules: vec![WorldRule {
                name: "gate".into(),
                command: vec!["true".into()],
                required: true,
                timeout_seconds: 0,
            }],
        },
        provenance: ProvenanceConfig { redact: Vec::new() },
    };
    assert!(Config::parse(Ok(config)).is_err());

    let policy = IgnorePolicy::from_file(None).unwrap();
    assert!(policy.ignored(".env", false));
}

#[test]
fn ignore_policy_supports_reinclusion_and_exact_secrets() {
    let policy =
        IgnorePolicy::parse(".env\n.env.local\nnode_modules/\n*.log\n!important.log\n").unwrap();
    assert!(policy.ignored(".env", false));
    assert!(!policy.ignored(".env.example", false));
    assert!(policy.ignored("node_modules/pkg/index.js", false));
    assert!(policy.ignored("debug.log", false));
    assert!(!policy.ignored("important.log", false));
}

#[test]
fn publish_idempotency_key_keeps_its_original_layer_owner() {
    let mut store = Store::create("/world");
    let tree = Tree::default();
    let (root_tree, _) = store.objects.put_tree(&tree).unwrap();
    store.register_object(
        &root_tree,
        ObjectKind::Tree,
        encode_tree(&tree).unwrap().len() as u64,
    );
    let (world, _) = store.initialize_world(&root_tree).unwrap();
    let first = store
        .create_layer(NewLayer {
            name: "first",
            origin_ref: &world.id,
            synchronized_ref: &world.id,
            root_tree: &root_tree,
            target_kind: "world",
            target_id: None,
            view_path: "/world/.javelin/views/first",
        })
        .unwrap();
    let second = store
        .create_layer(NewLayer {
            name: "second",
            origin_ref: &world.id,
            synchronized_ref: &world.id,
            root_tree: &root_tree,
            target_kind: "world",
            target_id: None,
            view_path: "/world/.javelin/views/second",
        })
        .unwrap();
    let first_head = store.layer_head(&first).unwrap();
    let second_head = store.layer_head(&second).unwrap();
    store
        .accept_publish(
            &first,
            &first_head,
            &root_tree,
            Some("shared-key"),
            &vec![],
            "{}",
        )
        .unwrap();

    let error = store
        .accept_publish(
            &second,
            &second_head,
            &root_tree,
            Some("shared-key"),
            &vec![],
            "{}",
        )
        .unwrap_err();

    assert_eq!(error.exit_code, 6);
    assert!(search::contains(&error.message, "different Private Layer"));
}

#[test]
fn crafted_symlink_parent_cannot_escape_materialization() {
    let objects = ObjectStore::new("/project/.javelin");
    let (link, _) = objects.put_blob(b"../outside").unwrap();
    let (payload, _) = objects.put_blob(b"must stay contained").unwrap();
    let tree = Tree {
        entries: vec![
            TreeEntry {
                path: "escape".into(),
                kind: EntryKind::Symlink,
                object_id: Some(link),
                executable: false,
            },
            TreeEntry {
                path: "escape/written.txt".into(),
                kind: EntryKind::File,
                object_id: Some(payload),
                executable: false,
            },
        ],
    };
    let error = plan(&None, "/project/view", Vec::new(), &tree).unwrap_err();
    assert_eq!(error.exit_code, 9);
}

#[test]
fn impossible_unix_process_is_not_alive() {
    assert!(!process_alive(0, Probe::Reached));
    assert!(!process_alive(u32::MAX, Probe::Reached));
}

#[test]
fn impossible_windows_process_is_not_alive() {
    assert!(!windows_process_alive(u32::MAX, None));
}

#[test]
fn symlink_kind_follows_portable_tree_target() {
    let tree = Tree {
        entries: vec![TreeEntry {
            path: "assets".into(),
            kind: EntryKind::Directory,
            object_id: None,
            executable: false,
        }],
    };
    assert!(symlink_target_is_directory(
        &tree,
        "links/assets",
        b"../assets"
    ));
    assert!(!symlink_target_is_directory(
        &tree,
        "links/file",
        b"../missing"
    ));
}

fn state(identity: &str) -> Option<TreeEntry> {
    Some(TreeEntry {
        path: "path".into(),
        kind: EntryKind::Symlink,
        object_id: Some(identity.repeat(64)),
        executable: false,
    })
}

fn tree(entry: Option<TreeEntry>) -> Tree {
    Tree {
        entries: entry.into_iter().collect(),
    }
}

#[test]
fn path_state_integration_table_is_exhaustive() {
    let a = state("a");
    let b = state("b");
    let c = state("c");
    let cases = [
        (a.clone(), a.clone(), b.clone(), b.clone(), false),
        (a.clone(), b.clone(), a.clone(), b.clone(), false),
        (a.clone(), b.clone(), b.clone(), b.clone(), false),
        (a.clone(), b.clone(), c.clone(), None, true),
        (None, None, a.clone(), a.clone(), false),
        (None, a.clone(), a.clone(), a.clone(), false),
        (None, a.clone(), b.clone(), None, true),
        (a.clone(), None, None, None, false),
        (a.clone(), b.clone(), None, None, true),
        (a.clone(), None, b.clone(), None, true),
        (a.clone(), a.clone(), None, None, false),
    ];
    for (base, target, private, expected, conflict) in cases {
        let result = integrate_trees(
            &tree(base),
            &tree(target),
            &tree(private),
            &PathMap::new(),
        );
        assert_eq!(
            result.tree.entries.into_iter().next(),
            expected,
            "wrong integrated path state"
        );
        assert_eq!(
            !result.conflicts.is_empty(),
            conflict,
            "wrong conflict decision"
        );
    }
}
