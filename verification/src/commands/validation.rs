//! World Rules: which of them a candidate has to meet, and what their runs say.
use vstd::prelude::*;
use vstd::utf8::*;
use crate::bytes;
use crate::clock;
use crate::config;
use crate::config::{IgnorePolicy, RuleValue, WorldRule};
use crate::error::{Failure, JavelinError, Result};
use crate::files;
use crate::files::{FilesState, ObjectFiles};
use crate::json::{Json, JsonValue};
use crate::model::{EntryKind, Layer, Tree, TreeEntry};
use crate::objects;
use crate::objects::ObjectKind;
use crate::records;
use crate::records::ValidationRecord;
use crate::report;
use crate::store;
use crate::store::{layers, Store, StoreState};
use crate::commands::views;
use crate::tables;
use crate::text;
use crate::text::Text;

verus! {

/// A file with a name.
pub open spec fn file_named(name: Text) -> spec_fn(TreeEntry<Text>) -> bool {
    |entry: TreeEntry<Text>| entry.path == name && entry.kind == EntryKind::File
}

fn find_file(tree: &Tree, name: &str) -> (r: Option<usize>)
    ensures
        match r {
            Some(i) => i < tree.entries@.len() && tables::find(tree@, file_named(name@)) == Some(
                tree.entries@[i as int]@,
            ),
            None => tables::find(tree@, file_named(name@)) is None,
        },
{
    let ghost all = tree@;
    let mut i: usize = 0;
    while i < tree.entries.len()
        invariant
            i <= tree.entries@.len(),
            all == tree@,
            forall|j: int| 0 <= j < i ==> !file_named(name@)(#[trigger] all[j]),
        decreases tree.entries@.len() - i,
    {
        assert(all[i as int] == tree.entries@[i as int]@);
        if text::same(tree.entries[i].path.as_str(), name) && tree.entries[i].kind
            == EntryKind::File {
            proof {
                tables::lemma_first_at(all, file_named(name@), i as int);
            }
            return Some(i);
        }
        i = i + 1;
    }
    proof {
        tables::lemma_first_none(all, file_named(name@));
    }
    None
}

/// The object of an entry, as text.
pub open spec fn entry_text_outcome(
    files: FilesState,
    entry: TreeEntry<Text>,
    refused: Text,
) -> std::result::Result<Text, Failure> {
    let id = match entry.object_id {
        Some(id) => id,
        None => Seq::empty(),
    };
    match files::blob_outcome(files, id) {
        Err(failure) => Err(failure),
        Ok(content) => match bytes::utf8_text(content) {
            Some(found) => Ok(found),
            None => Err(Failure::policy(refused)),
        },
    }
}

fn read_entry_text(files: &ObjectFiles, entry: &TreeEntry, refused: &str) -> (r: Result<String>)
    requires
        files.wf(),
    ensures
        match entry_text_outcome(files@, entry@, refused@) {
            Ok(found) => r is Ok && r->Ok_0@ == found,
            Err(failure) => r is Err && r->Err_0@ == failure,
        },
{
    let content = match &entry.object_id {
        Some(id) => files.read_blob(id.as_str())?,
        None => {
            let nothing = String::new();
            assert(nothing@ =~= Seq::<char>::empty());
            files.read_blob(nothing.as_str())?
        },
    };
    match bytes::text_from_utf8(content.as_slice()) {
        Some(found) => Ok(found),
        None => Err(JavelinError::policy(refused.to_owned())),
    }
}

/// The configuration that a tree holds, as text.
pub open spec fn config_text_outcome(
    files: FilesState,
    entries: Seq<TreeEntry<Text>>,
) -> std::result::Result<Text, Failure> {
    match tables::find(entries, file_named("javelin.toml"@)) {
        None => Err(Failure::policy("candidate has no javelin.toml"@)),
        Some(entry) => entry_text_outcome(files, entry, "javelin.toml is not UTF-8"@),
    }
}

/// The configuration that a tree holds, as text.
pub fn config_from_tree(files: &ObjectFiles, tree: &Tree) -> (r: Result<String>)
    requires
        files.wf(),
    ensures
        match config_text_outcome(files@, tree@) {
            Ok(found) => r is Ok && r->Ok_0@ == found,
            Err(failure) => r is Err && r->Err_0@ == failure,
        },
{
    match find_file(tree, "javelin.toml") {
        None => Err(JavelinError::policy("candidate has no javelin.toml".to_owned())),
        Some(i) => read_entry_text(files, &tree.entries[i], "javelin.toml is not UTF-8"),
    }
}

/// The tracking policy of a Layer, as text: the one of the state that the
/// Layer is synchronized with, so that a change of the policy takes effect
/// only once it is accepted.
pub open spec fn policy_text_outcome(
    state: StoreState,
    files: FilesState,
    layer: Layer<Text>,
) -> std::result::Result<Text, Failure> {
    match views::tree_for_ref_outcome(state, files, layer.synchronized_ref) {
        Err(failure) => Err(failure),
        Ok((_, _, entries)) => match tables::find(entries, file_named(".javelinignore"@)) {
            None => Ok(config::DEFAULT_IGNORE@),
            Some(entry) => entry_text_outcome(files, entry, ".javelinignore is not UTF-8"@),
        },
    }
}

/// The tracking policy of a Layer.
pub fn tracking_policy(store: &Store, files: &ObjectFiles, layer: &Layer) -> (r: Result<
    IgnorePolicy,
>)
    requires
        files.wf(),
    ensures
        match policy_text_outcome(store@, files@, layer@) {
            Err(failure) => r is Err && r->Err_0@ == failure,
            Ok(content) => match config::policy_outcome(text::split(content, '\n')) {
                Ok(rules) => r is Ok && r->Ok_0.wf() && r->Ok_0.rules() == rules,
                Err(failure) => r is Err && r->Err_0@ == failure,
            },
        },
{
    let (_, _, tree) = views::tree_for_ref(store, files, layer.synchronized_ref.as_str())?;
    let content = match find_file(&tree, ".javelinignore") {
        None => config::DEFAULT_IGNORE.to_owned(),
        Some(i) => read_entry_text(files, &tree.entries[i], ".javelinignore is not UTF-8")?,
    };
    IgnorePolicy::parse(content.as_str())
}

/// The reference names an accepted state, or a Checkpoint.
pub open spec fn names_state(state: StoreState, reference: Text) -> bool {
    ||| reference == "world"@ || reference == "current"@ || store::names_version(reference)
    ||| !text::has_prefix(reference, "layer:"@) && state.checkpoint(reference) is Some
}

/// A Layer's own Checkpoints do not change what it tracks: an edited policy
/// takes effect only once the Layer is synchronized with a state that holds
/// it.
pub proof fn law_policy_waits_for_acceptance(
    state: StoreState,
    files: FilesState,
    layer: Layer<Text>,
    root_tree: Text,
    reason: Text,
    id: Text,
    now: Text,
)
    requires
        names_state(state, layer.synchronized_ref),
        layers::append_checkpoint_outcome(
            state,
            layer.id,
            root_tree,
            layer.synchronized_ref,
            reason,
            id,
            now,
        ) is Ok,
    ensures
        ({
            let (after, _) = layers::append_checkpoint_outcome(
                state,
                layer.id,
                root_tree,
                layer.synchronized_ref,
                reason,
                id,
                now,
            )->Ok_0;
            policy_text_outcome(after, files, layer) == policy_text_outcome(state, files, layer)
        }),
{
    let (after, checkpoint) = layers::append_checkpoint_outcome(
        state,
        layer.id,
        root_tree,
        layer.synchronized_ref,
        reason,
        id,
        now,
    )->Ok_0;
    if after.checkpoints != state.checkpoints {
        assert(after.checkpoints == state.checkpoints.push(checkpoint));
        tables::lemma_first_push(
            state.checkpoints,
            checkpoint,
            records::checkpoint_is(layer.synchronized_ref),
        );
        tables::lemma_first(state.checkpoints, records::checkpoint_is(layer.synchronized_ref));
    }
}

/// The rules that a candidate has to meet: the accepted ones, and those of the
/// candidate that are not among them letter for letter.
pub open spec fn merged_rules(accepted: Seq<RuleValue>, candidate: Seq<RuleValue>) -> Seq<RuleValue>
    decreases candidate.len(),
{
    if candidate.len() == 0 {
        accepted
    } else {
        let before = merged_rules(accepted, candidate.drop_last());
        if before.contains(candidate.last()) {
            before
        } else {
            before.push(candidate.last())
        }
    }
}

fn has_rule(rules: &Vec<WorldRule>, rule: &WorldRule) -> (r: bool)
    ensures
        r == rules.deep_view().contains(rule@),
{
    let mut i: usize = 0;
    while i < rules.len()
        invariant
            i <= rules@.len(),
            forall|j: int| 0 <= j < i ==> (#[trigger] rules@[j])@ != rule@,
        decreases rules@.len() - i,
    {
        let existing = &rules[i];
        if text::same(existing.name.as_str(), rule.name.as_str()) && text::same_list(
            &existing.command,
            &rule.command,
        ) && existing.required == rule.required && existing.timeout_seconds
            == rule.timeout_seconds {
            assert(existing@ =~= rule@);
            assert(rules.deep_view()[i as int] == rule@);
            return true;
        }
        i = i + 1;
    }
    proof {
        if rules.deep_view().contains(rule@) {
            let j = choose|j: int|
                0 <= j < rules.deep_view().len() && rules.deep_view()[j] == rule@;
            assert(rules@[j]@ == rule@);
        }
    }
    false
}

/// The rules that a candidate has to meet.
pub fn merge_rules(accepted: &Vec<WorldRule>, candidate: &Vec<WorldRule>) -> (r: Vec<WorldRule>)
    ensures
        r.deep_view() == merged_rules(accepted.deep_view(), candidate.deep_view()),
{
    let mut rules: Vec<WorldRule> = Vec::new();
    let mut i: usize = 0;
    while i < accepted.len()
        invariant
            i <= accepted@.len(),
            rules@.len() == i,
            forall|j: int| 0 <= j < i ==> (#[trigger] rules@[j])@ == accepted@[j]@,
        decreases accepted@.len() - i,
    {
        rules.push(accepted[i].clone());
        i = i + 1;
    }
    let ghost all = candidate.deep_view();
    let mut k: usize = 0;
    assert(rules.deep_view() =~= accepted.deep_view());
    assert(all.take(0) =~= Seq::empty());
    while k < candidate.len()
        invariant
            k <= candidate@.len(),
            all == candidate.deep_view(),
            rules.deep_view() == merged_rules(accepted.deep_view(), all.take(k as int)),
        decreases candidate@.len() - k,
    {
        let ghost before = rules.deep_view();
        proof {
            assert(all.take(k as int + 1).drop_last() =~= all.take(k as int));
            assert(all.take(k as int + 1).last() == candidate@[k as int]@);
        }
        if !has_rule(&rules, &candidate[k]) {
            let rule = candidate[k].clone();
            let ghost value = rule@;
            rules.push(rule);
            assert(rules.deep_view() =~= before.push(value));
        }
        k = k + 1;
    }
    assert(all.take(k as int) =~= all);
    rules
}

/// The hash of a configuration.
pub fn policy_hash(policy: &str) -> (r: String)
    ensures
        r@ == objects::blake3_hex(encode_utf8(policy@)),
{
    objects::blake3_of(policy.as_bytes())
}

/// A hexadecimal digit.
pub open spec fn hex_digit(n: int) -> char {
    "0123456789abcdef"@[n]
}

/// A character as it stands in a JSON text.
pub open spec fn json_char(c: char) -> Text {
    let n = c as int;
    if c == '"' || c == '\\' {
        seq!['\\', c]
    } else if n == 8 {
        seq!['\\', 'b']
    } else if n == 9 {
        seq!['\\', 't']
    } else if n == 10 {
        seq!['\\', 'n']
    } else if n == 12 {
        seq!['\\', 'f']
    } else if n == 13 {
        seq!['\\', 'r']
    } else if n < 32 {
        seq!['\\', 'u', '0', '0', hex_digit(n / 16), hex_digit(n % 16)]
    } else {
        seq![c]
    }
}

/// The characters of a JSON text.
pub open spec fn json_chars(content: Text) -> Text
    decreases content.len(),
{
    if content.len() == 0 {
        Seq::empty()
    } else {
        json_chars(content.drop_last()) + json_char(content.last())
    }
}

/// A list of texts as JSON, without any space.
pub open spec fn list_json(items: Seq<Text>) -> Text {
    seq!['['] + text::joined(
        items.map_values(|item: Text| seq!['"'] + json_chars(item) + seq!['"']),
        seq![','],
    ) + seq![']']
}

/// `serde_json::to_string` of a list of texts, which never fails: the texts in
/// quotes and with escapes, with commas between them, in square brackets.
#[verifier::external_body]
fn write_list(items: &Vec<String>) -> (r: String)
    ensures
        r@ == list_json(items.deep_view()),
{
    serde_json::to_string(items).unwrap()
}

/// How the run of a rule ended.
#[derive(Clone, Copy, Debug, PartialEq, Eq, Structural)]
pub enum RuleEnd {
    TimedOut,
    /// With an exit code, or without one where a signal ended it.
    Exited(Option<i32>),
}

/// The exit code that stands for an end.
pub open spec fn end_code(end: RuleEnd) -> i32 {
    match end {
        RuleEnd::TimedOut => 124,
        RuleEnd::Exited(Some(code)) => code,
        RuleEnd::Exited(None) => 128,
    }
}

pub fn exit_code(end: RuleEnd) -> (r: i32)
    ensures
        r == end_code(end),
{
    match end {
        RuleEnd::TimedOut => 124,
        RuleEnd::Exited(Some(code)) => code,
        RuleEnd::Exited(None) => 128,
    }
}

/// The run of a rule, as it was seen.
#[derive(Debug)]
pub struct RuleRun {
    pub end: RuleEnd,
    pub duration_ms: i64,
    pub environment_json: String,
    pub stdout: Vec<u8>,
    pub stderr: Vec<u8>,
}

/// The object of an output; an empty output has none.
pub open spec fn output_id(output: Seq<u8>) -> Option<Text> {
    if output.len() == 0 {
        None
    } else {
        Some(objects::identity(ObjectKind::Blob, output))
    }
}

/// The record of a run.
pub open spec fn run_record(
    rule: RuleValue,
    run: RuleRun,
    candidate_root: Text,
    policy: Text,
    id: Text,
    now: Text,
) -> ValidationRecord<Text> {
    ValidationRecord {
        id,
        rule_name: rule.name,
        command_json: list_json(rule.command),
        required: rule.required,
        exit_code: end_code(run.end),
        duration_ms: run.duration_ms,
        environment_json: run.environment_json@,
        stdout_object: output_id(run.stdout@),
        stderr_object: output_id(run.stderr@),
        candidate_root,
        policy_hash: policy,
        created_at: now,
    }
}

/// What recording a run gives.
pub open spec fn run_outcome(
    state: StoreState,
    rule: RuleValue,
    run: RuleRun,
    candidate_root: Text,
    policy: Text,
    id: Text,
    now: Text,
) -> std::result::Result<StoreState, Failure> {
    layers::record_validation_outcome(
        state,
        run_record(rule, run, candidate_root, policy, id, now),
    )
}

/// An output of the run could not be compressed, and this is the error.
pub open spec fn run_refused(run: RuleRun, failure: Failure) -> bool {
    ||| run.stdout@.len() > 0 && objects::compression_failure(run.stdout@, failure)
    ||| run.stderr@.len() > 0 && objects::compression_failure(run.stderr@, failure)
}

/// The store went by the outcome, with the record and every output to write, or
/// nothing changed because an output could not be compressed.
pub open spec fn run_told(
    before: StoreState,
    after: StoreState,
    outcome: std::result::Result<StoreState, Failure>,
    run: RuleRun,
    due: ValidationRecord<Text>,
    r: Result<(ValidationRecord, Vec<(String, Vec<u8>)>)>,
) -> bool {
    match r {
        Ok((record, written)) => {
            &&& outcome == Ok::<StoreState, Failure>(after)
            &&& record@ == due
            &&& run.stdout@.len() > 0 ==> files::holds_object(
                written@,
                ObjectKind::Blob,
                run.stdout@,
            )
            &&& run.stderr@.len() > 0 ==> files::holds_object(
                written@,
                ObjectKind::Blob,
                run.stderr@,
            )
        },
        Err(error) => after == before && (outcome == Err::<StoreState, Failure>(error@)
            || run_refused(run, error@)),
    }
}

fn output_object(store: &Store, output: &Vec<u8>) -> (r: Result<Option<(String, Vec<u8>)>>)
    ensures
        match r {
            Ok(None) => output@.len() == 0,
            Ok(Some((id, file))) => output@.len() > 0 && output_id(output@) == Some(id@)
                && objects::read_outcome(id@, file@) == Ok::<(ObjectKind, Seq<u8>), Failure>(
                (ObjectKind::Blob, output@),
            ),
            Err(error) => output@.len() > 0 && objects::compression_failure(output@, error@),
        },
{
    if output.len() == 0 {
        return Ok(None);
    }
    let (id, file) = store.objects.put_blob(output.as_slice())?;
    Ok(Some((id, file)))
}

/// Records the run of a rule with a given identity and time, and gives the
/// record and the object files to write.
pub fn record_run_at(
    store: &mut Store,
    rule: &WorldRule,
    run: &RuleRun,
    candidate_root: &str,
    policy: &str,
    id: &str,
    now: &str,
) -> (r: Result<(ValidationRecord, Vec<(String, Vec<u8>)>)>)
    ensures
        run_told(
            old(store)@,
            final(store)@,
            run_outcome(old(store)@, rule@, *run, candidate_root@, policy@, id@, now@),
            *run,
            run_record(rule@, *run, candidate_root@, policy@, id@, now@),
            r,
        ),
{
    let stdout = output_object(store, &run.stdout)?;
    let stderr = output_object(store, &run.stderr)?;
    let mut written: Vec<(String, Vec<u8>)> = Vec::new();
    let mut stdout_object: Option<String> = None;
    let mut stderr_object: Option<String> = None;
    if let Some((object_id, file)) = stdout {
        stdout_object = Some(object_id.clone());
        written.push((object_id, file));
        assert(files::is_object(written@[0], ObjectKind::Blob, run.stdout@));
        assert(files::holds_object(written@, ObjectKind::Blob, run.stdout@));
    }
    if let Some((object_id, file)) = stderr {
        stderr_object = Some(object_id.clone());
        let ghost earlier = written@;
        written.push((object_id, file));
        proof {
            assert(files::is_object(
                written@[earlier.len() as int],
                ObjectKind::Blob,
                run.stderr@,
            ));
            if run.stdout@.len() > 0 {
                assert(files::is_object(written@[0], ObjectKind::Blob, run.stdout@));
                assert(files::holds_object(written@, ObjectKind::Blob, run.stdout@));
            }
        }
        assert(files::holds_object(written@, ObjectKind::Blob, run.stderr@));
    }
    let record = ValidationRecord {
        id: id.to_owned(),
        rule_name: rule.name.clone(),
        command_json: write_list(&rule.command),
        required: rule.required,
        exit_code: exit_code(run.end),
        duration_ms: run.duration_ms,
        environment_json: run.environment_json.clone(),
        stdout_object,
        stderr_object,
        candidate_root: candidate_root.to_owned(),
        policy_hash: policy.to_owned(),
        created_at: now.to_owned(),
    };
    assert(record@ =~= run_record(rule@, *run, candidate_root@, policy@, id@, now@));
    store.record_validation(&record)?;
    Ok((record, written))
}

/// Records the run of a rule.
pub fn record_run(
    store: &mut Store,
    rule: &WorldRule,
    run: &RuleRun,
    candidate_root: &str,
    policy: &str,
) -> (r: Result<(ValidationRecord, Vec<(String, Vec<u8>)>)>)
    ensures
        exists|id: Text, now: Text|
            clock::is_stamp(now) && clock::is_fresh(id) && run_told(
                old(store)@,
                final(store)@,
                #[trigger] run_outcome(
                    old(store)@,
                    rule@,
                    *run,
                    candidate_root@,
                    policy@,
                    id,
                    now,
                ),
                *run,
                run_record(rule@, *run, candidate_root@, policy@, id, now),
                r,
            ),
{
    let id = clock::new_id();
    let now = clock::now();
    record_run_at(store, rule, run, candidate_root, policy, id.as_str(), now.as_str())
}

/// A required rule that was not met.
pub open spec fn blocks() -> spec_fn(ValidationRecord<Text>) -> bool {
    |record: ValidationRecord<Text>| record.required && record.exit_code != 0
}

/// Whether a required rule was not met.
pub fn required_rule_failed(records: &Vec<ValidationRecord>) -> (r: bool)
    ensures
        r == tables::any(records.deep_view(), blocks()),
{
    let ghost all = records.deep_view();
    let mut i: usize = 0;
    while i < records.len()
        invariant
            i <= records@.len(),
            all == records.deep_view(),
            forall|j: int| 0 <= j < i ==> !blocks()(#[trigger] all[j]),
        decreases records@.len() - i,
    {
        assert(all[i as int] == records@[i as int]@);
        if records[i].required && records[i].exit_code != 0 {
            proof {
                tables::lemma_any(all, blocks(), i as int);
            }
            return true;
        }
        i = i + 1;
    }
    proof {
        tables::lemma_first_none(all, blocks());
    }
    false
}

/// The runs, under the name that a report gives them.
pub open spec fn runs_value(records: Seq<ValidationRecord<Text>>) -> JsonValue {
    JsonValue::object().field(
        "validations"@,
        JsonValue::Array(report::values::<ValidationRecord>(records)),
    )
}

/// The failure of a candidate that does not meet a required rule.
pub open spec fn gate_failure(message: Text, records: Seq<ValidationRecord<Text>>) -> Failure {
    Failure { details: runs_value(records), ..Failure::verification(message) }
}

/// Lets a candidate pass that meets every required rule.
pub fn check_runs(records: &Vec<ValidationRecord>, message: &str) -> (r: Result<()>)
    ensures
        if tables::any(records.deep_view(), blocks()) {
            r is Err && r->Err_0@ == gate_failure(message@, records.deep_view())
        } else {
            r is Ok
        },
{
    if required_rule_failed(records) {
        return Err(
            JavelinError::verification(message.to_owned()).details(
                Json::empty().with("validations", report::list(records)),
            ),
        );
    }
    Ok(())
}

/// What the verify command shows and says of a candidate that meets every
/// required rule.
pub fn verify(candidate_root: &str, records: &Vec<ValidationRecord>) -> (r: Result<
    (Json, String),
>)
    ensures
        if tables::any(records.deep_view(), blocks()) {
            r is Err && r->Err_0@ == gate_failure(
                "required World Rule failed"@,
                records.deep_view(),
            )
        } else {
            r is Ok && r->Ok_0.0@ == JsonValue::object().field(
                "candidate_root"@,
                JsonValue::Text(candidate_root@),
            ).field(
                "validations"@,
                JsonValue::Array(report::values::<ValidationRecord>(records.deep_view())),
            ) && r->Ok_0.1@ == "Verified "@ + text::decimal(records@.len()) + " World Rules"@
        },
{
    check_runs(records, "required World Rule failed")?;
    let shown = Json::empty().with("candidate_root", Json::text(candidate_root)).with(
        "validations",
        report::list(records),
    );
    let human = text::concat3(
        "Verified ",
        text::number(records.len() as u64).as_str(),
        " World Rules",
    );
    Ok((shown, human))
}

/// The identities of runs.
pub open spec fn run_ids(records: Seq<ValidationRecord<Text>>) -> Seq<Text> {
    Seq::new(records.len(), |i: int| records[i].id)
}

/// The identities of runs.
pub fn ids_of_runs(records: &Vec<ValidationRecord>) -> (r: Vec<String>)
    ensures
        r.deep_view() == run_ids(records.deep_view()),
        r@.len() == records@.len(),
{
    let mut out: Vec<String> = Vec::new();
    let mut i: usize = 0;
    while i < records.len()
        invariant
            i <= records@.len(),
            out@.len() == i,
            forall|j: int| 0 <= j < i ==> (#[trigger] out@[j])@ == records@[j]@.id,
        decreases records@.len() - i,
    {
        out.push(records[i].id.clone());
        i = i + 1;
    }
    assert(out.deep_view() =~= run_ids(records.deep_view()));
    out
}

/// What is told of the place where rules ran.
pub fn validation_environment(
    platform: &str,
    architecture: &str,
    directory: &str,
    path_configured: bool,
) -> (r: Json)
    ensures
        r@ == JsonValue::object().field("os"@, JsonValue::Text(platform@)).field(
            "architecture"@,
            JsonValue::Text(architecture@),
        ).field("candidate_cwd"@, JsonValue::Text(directory@)).field(
            "path_configured"@,
            JsonValue::Bool(path_configured),
        ),
{
    Json::empty().with("os", Json::text(platform)).with(
        "architecture",
        Json::text(architecture),
    ).with("candidate_cwd", Json::text(directory)).with(
        "path_configured",
        Json::Bool(path_configured),
    )
}

/// A candidate cannot drop an accepted rule: the accepted ones all apply, at
/// their places, and every rule of the candidate applies too.
pub proof fn law_rules_only_grow(accepted: Seq<RuleValue>, candidate: Seq<RuleValue>)
    ensures
        merged_rules(accepted, candidate).len() >= accepted.len(),
        merged_rules(accepted, candidate).take(accepted.len() as int) == accepted,
        forall|i: int|
            0 <= i < candidate.len() ==> merged_rules(accepted, candidate).contains(
                #[trigger] candidate[i],
            ),
    decreases candidate.len(),
{
    if candidate.len() == 0 {
        assert(accepted.take(accepted.len() as int) =~= accepted);
    } else {
        let rest = candidate.drop_last();
        law_rules_only_grow(accepted, rest);
        let before = merged_rules(accepted, rest);
        let after = merged_rules(accepted, candidate);
        assert(after.take(accepted.len() as int) =~= before.take(accepted.len() as int));
        assert forall|i: int| 0 <= i < candidate.len() implies after.contains(
            #[trigger] candidate[i],
        ) by {
            if i < candidate.len() - 1 {
                assert(rest[i] == candidate[i]);
                let j = choose|j: int| 0 <= j < before.len() && before[j] == rest[i];
                assert(after[j] == candidate[i]);
            } else if !before.contains(candidate.last()) {
                assert(after[before.len() as int] == candidate.last());
            }
        }
    }
}

/// A rule that runs out of time is not met, nor is one that a signal ends.
pub proof fn law_only_success_meets_a_rule(end: RuleEnd)
    ensures
        end_code(end) == 0 <==> end == RuleEnd::Exited(Some(0)),
{
}

/// A candidate is stopped exactly where a run of a required rule ended with an
/// exit code other than 0, whichever it is.
pub proof fn law_required_rules_ask_for_success(records: Seq<ValidationRecord<Text>>)
    ensures
        tables::any(records, blocks()) <==> exists|i: int|
            0 <= i < records.len() && (#[trigger] records[i]).required && records[i].exit_code
                != 0,
{
    tables::lemma_first(records, blocks());
    if exists|i: int|
        0 <= i < records.len() && (#[trigger] records[i]).required && records[i].exit_code != 0 {
        let i = choose|i: int|
            0 <= i < records.len() && (#[trigger] records[i]).required && records[i].exit_code != 0;
        tables::lemma_any(records, blocks(), i);
    }
}

/// A required rule stops a candidate whichever way its run ends, but for the
/// exit code 0; a rule that is not required never does.
pub proof fn law_run_decides_on_its_candidate(
    rule: RuleValue,
    run: RuleRun,
    candidate_root: Text,
    policy: Text,
    id: Text,
    now: Text,
)
    ensures
        tables::any(seq![run_record(rule, run, candidate_root, policy, id, now)], blocks())
            <==> rule.required && run.end != RuleEnd::Exited(Some(0)),
{
    let record = run_record(rule, run, candidate_root, policy, id, now);
    let records = seq![record];
    assert(records[0] == record);
    law_required_rules_ask_for_success(records);
    law_only_success_meets_a_rule(run.end);
}

/// The record of a run tells the rule, the candidate and the policy that it was
/// for, and names the whole output: an empty output has no object, and any
/// other is the object of its bytes.
pub proof fn law_run_is_told_whole(
    rule: RuleValue,
    run: RuleRun,
    candidate_root: Text,
    policy: Text,
    id: Text,
    now: Text,
)
    ensures
        ({
            let record = run_record(rule, run, candidate_root, policy, id, now);
            &&& record.id == id
            &&& record.rule_name == rule.name
            &&& record.required == rule.required
            &&& record.candidate_root == candidate_root
            &&& record.policy_hash == policy
            &&& record.created_at == now
            &&& record.duration_ms == run.duration_ms
            &&& record.environment_json == run.environment_json@
            &&& run.end == RuleEnd::TimedOut ==> record.exit_code == 124
            &&& run.end == RuleEnd::Exited(None) ==> record.exit_code == 128
            &&& run.end matches RuleEnd::Exited(Some(code)) ==> record.exit_code == code
            &&& record.stdout_object is None <==> run.stdout@.len() == 0
            &&& record.stderr_object is None <==> run.stderr@.len() == 0
            &&& run.stdout@.len() > 0 ==> record.stdout_object == Some(
                objects::identity(ObjectKind::Blob, run.stdout@),
            )
            &&& run.stderr@.len() > 0 ==> record.stderr_object == Some(
                objects::identity(ObjectKind::Blob, run.stderr@),
            )
        }),
{
}

/// The configuration of a candidate is what its own `javelin.toml` holds, and a
/// candidate without one is refused by policy.
pub proof fn law_configuration_is_the_candidates_own(
    files: FilesState,
    entries: Seq<TreeEntry<Text>>,
    i: int,
)
    ensures
        (forall|k: int|
            0 <= k < entries.len() ==> !((#[trigger] entries[k]).path == "javelin.toml"@
                && entries[k].kind == EntryKind::File)) ==> config_text_outcome(files, entries)
            is Err && config_text_outcome(files, entries)->Err_0.exit_code == 10,
        0 <= i < entries.len() && entries[i].path == "javelin.toml"@ && entries[i].kind
            == EntryKind::File && (forall|k: int|
            0 <= k < i ==> (#[trigger] entries[k]).path != "javelin.toml"@)
            && entries[i].object_id is Some ==> match config_text_outcome(files, entries) {
            Ok(found) => {
                let content = files::blob_outcome(files, entries[i].object_id->Some_0);
                content is Ok && valid_utf8(content->Ok_0) && found == decode_utf8(content->Ok_0)
            },
            Err(_) => {
                let content = files::blob_outcome(files, entries[i].object_id->Some_0);
                content is Err || !valid_utf8(content->Ok_0)
            },
        },
{
    tables::lemma_first(entries, file_named("javelin.toml"@));
    if 0 <= i < entries.len() && entries[i].path == "javelin.toml"@ && entries[i].kind
        == EntryKind::File && (forall|k: int|
        0 <= k < i ==> (#[trigger] entries[k]).path != "javelin.toml"@) {
        tables::lemma_first_at(entries, file_named("javelin.toml"@), i);
    }
}

/// A Layer goes by the tracking policy of the state that it is synchronized
/// with, and by the default one where that state has none.
pub proof fn law_policy_is_that_of_the_synchronized_state(
    state: StoreState,
    files: FilesState,
    layer: Layer<Text>,
)
    requires
        views::tree_for_ref_outcome(state, files, layer.synchronized_ref) is Ok,
        forall|k: int|
            0 <= k < views::tree_for_ref_outcome(state, files, layer.synchronized_ref)->Ok_0.2.len()
                ==> (#[trigger] views::tree_for_ref_outcome(
                state,
                files,
                layer.synchronized_ref,
            )->Ok_0.2[k]).path != ".javelinignore"@,
    ensures
        policy_text_outcome(state, files, layer) == Ok::<Text, Failure>(config::DEFAULT_IGNORE@),
{
    let entries = views::tree_for_ref_outcome(state, files, layer.synchronized_ref)->Ok_0.2;
    tables::lemma_first(entries, file_named(".javelinignore"@));
}

/// A rule of a candidate is added only where no rule before it is the same
/// letter for letter, and every rule that applies is an accepted one or one of
/// the candidate's.
pub proof fn law_rules_come_from_both_sides(
    accepted: Seq<RuleValue>,
    candidate: Seq<RuleValue>,
    rule: RuleValue,
)
    ensures
        merged_rules(accepted, candidate).contains(rule) <==> accepted.contains(rule)
            || candidate.contains(rule),
        accepted.contains(rule) ==> merged_rules(accepted, candidate.push(rule)) == merged_rules(
            accepted,
            candidate,
        ),
    decreases candidate.len(),
{
    let all = merged_rules(accepted, candidate);
    if candidate.len() > 0 {
        let shorter = candidate.drop_last();
        let before = merged_rules(accepted, shorter);
        law_rules_come_from_both_sides(accepted, shorter, rule);
        assert(candidate[candidate.len() - 1] == candidate.last());
        if before.contains(rule) {
            let k = choose|k: int| 0 <= k < before.len() && before[k] == rule;
            assert(all[k] == rule);
        }
        if rule == candidate.last() && !before.contains(rule) {
            assert(all[before.len() as int] == rule);
        }
        if all.contains(rule) && rule != candidate.last() {
            let k = choose|k: int| 0 <= k < all.len() && all[k] == rule;
            assert(before[k] == rule);
        }
        if shorter.contains(rule) {
            let k = choose|k: int| 0 <= k < shorter.len() && shorter[k] == rule;
            assert(candidate[k] == rule);
        }
        if candidate.contains(rule) && rule != candidate.last() {
            let k = choose|k: int| 0 <= k < candidate.len() && candidate[k] == rule;
            assert(shorter[k] == rule);
        }
    }
    assert(candidate.push(rule).drop_last() =~= candidate);
}

/// In a JSON text a plain character stands for itself, and a quote, a backslash
/// or a control character stands behind a backslash: nothing below a space is
/// left in it.
pub proof fn law_json_text_holds_no_control(c: char, i: int)
    ensures
        c as int >= 32 && c != '"' && c != '\\' ==> json_char(c) == seq![c],
        c == '"' || c == '\\' ==> json_char(c) == seq!['\\', c],
        (c as int) < 32 ==> json_char(c)[0] == '\\' && json_char(c).len() >= 2,
        c as int == 9 ==> json_char(c) == seq!['\\', 't'],
        c as int == 10 ==> json_char(c) == seq!['\\', 'n'],
        c as int == 13 ==> json_char(c) == seq!['\\', 'r'],
        0 <= i < json_char(c).len() ==> json_char(c)[i] as int >= 32,
{
    reveal_strlit("0123456789abcdef");
    let n = c as int;
    if n < 32 {
        assert(0 <= n / 16 < 2);
        assert(0 <= n % 16 < 16);
    }
}

} // verus!
