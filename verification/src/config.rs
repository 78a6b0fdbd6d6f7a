//! The World's settings and its tracking policy.
use vstd::prelude::*;
use crate::clock;
use crate::error::{Failure, JavelinError, Result};
use crate::globs;
use crate::globs::CompiledGlob;
use crate::paths;
use crate::text;
use crate::text::Text;

verus! {

pub const PURGED_PROVENANCE_PAYLOAD: &'static str = "{\"purged\":true}";

pub const DEFAULT_CONFIG: &'static str =
    "format = 1\n\n[checkpoint]\ndebounce_ms = 250\n\n[retention]\ndiscarded_days = 7\nraw_trace_days = 30\n";

pub const DEFAULT_IGNORE: &'static str =
    "# Javelin tracking policy\n.git/\n.hg/\n.svn/\nnode_modules/\ntarget/\ndist/\nbuild/\n.next/\n.turbo/\n.cache/\n.DS_Store\n.idea/\n.vscode/\n.env\n.env.local\n.env.*.local\n";

#[derive(Debug)]
pub struct Config {
    pub format: u32,
    pub checkpoint: CheckpointConfig,
    pub retention: RetentionConfig,
    pub verification: VerificationConfig,
    pub provenance: ProvenanceConfig,
}

#[derive(Debug, Clone, Copy)]
pub struct CheckpointConfig {
    pub debounce_ms: u64,
}

impl Default for CheckpointConfig {
    fn default() -> (r: Self)
        ensures
            r.debounce_ms == 250,
    {
        CheckpointConfig { debounce_ms: 250 }
    }
}

#[derive(Debug, Clone, Copy)]
pub struct RetentionConfig {
    pub discarded_days: u64,
    pub raw_trace_days: u64,
}

impl Default for RetentionConfig {
    fn default() -> (r: Self)
        ensures
            r.discarded_days == 7,
            r.raw_trace_days == 30,
    {
        RetentionConfig { discarded_days: 7, raw_trace_days: 30 }
    }
}

#[derive(Debug)]
pub struct VerificationConfig {
    pub rules: Vec<WorldRule>,
}

impl Default for VerificationConfig {
    fn default() -> (r: Self)
        ensures
            r.rules@.len() == 0,
    {
        VerificationConfig { rules: Vec::new() }
    }
}

#[derive(Debug)]
pub struct WorldRule {
    pub name: String,
    pub command: Vec<String>,
    pub required: bool,
    pub timeout_seconds: u64,
}

/// The mathematical value of a [`WorldRule`].
#[verifier::ext_equal]
pub struct RuleValue {
    pub name: Text,
    pub command: Seq<Text>,
    pub required: bool,
    pub timeout_seconds: u64,
}

impl View for WorldRule {
    type V = RuleValue;

    open spec fn view(&self) -> RuleValue {
        RuleValue {
            name: self.name@,
            command: self.command.deep_view(),
            required: self.required,
            timeout_seconds: self.timeout_seconds,
        }
    }
}

impl DeepView for WorldRule {
    type V = RuleValue;

    open spec fn deep_view(&self) -> RuleValue {
        self@
    }
}

impl Clone for WorldRule {
    fn clone(&self) -> (r: Self)
        ensures
            r@ == self@,
    {
        WorldRule {
            name: self.name.clone(),
            command: text::copy_list(&self.command),
            required: self.required,
            timeout_seconds: self.timeout_seconds,
        }
    }
}

#[derive(Debug)]
pub struct ProvenanceConfig {
    pub redact: Vec<String>,
}

impl Default for ProvenanceConfig {
    fn default() -> (r: Self)
        ensures
            r.redact.deep_view() == Seq::<Text>::empty(),
    {
        let redact: Vec<String> = Vec::new();
        assert(redact.deep_view() =~= Seq::<Text>::empty());
        ProvenanceConfig { redact }
    }
}

/// What a rule that leaves it out takes for `required`.
pub fn default_required() -> (r: bool)
    ensures
        r,
{
    true
}

/// What a rule that leaves it out takes for `timeout_seconds`.
pub fn default_timeout() -> (r: u64)
    ensures
        r == 600,
{
    600
}

/// Why a rule is refused, if it is.
pub open spec fn rule_failure(rule: RuleValue) -> Option<Failure> {
    if text::trimmed(rule.name).len() == 0 || rule.command.len() == 0 {
        Some(Failure::policy("verification rules require a name and argv command"@))
    } else if rule.timeout_seconds == 0 {
        Some(Failure::policy("verification rule timeout_seconds must be greater than zero"@))
    } else {
        None
    }
}

/// The failure of the first refused rule.
pub open spec fn rules_failure(rules: Seq<RuleValue>) -> Option<Failure>
    decreases rules.len(),
{
    if rules.len() == 0 {
        None
    } else {
        match rules_failure(rules.drop_last()) {
            Some(failure) => Some(failure),
            None => rule_failure(rules.last()),
        }
    }
}

/// A failure among the first rules stays the failure of all.
proof fn lemma_rules_failure_stays(rules: Seq<RuleValue>, n: int)
    requires
        0 <= n <= rules.len(),
        rules_failure(rules.take(n)) is Some,
    ensures
        rules_failure(rules) == rules_failure(rules.take(n)),
    decreases rules.len() - n,
{
    if n == rules.len() {
        assert(rules.take(n) =~= rules);
    } else {
        assert(rules.take(n + 1).drop_last() =~= rules.take(n));
        lemma_rules_failure_stays(rules, n + 1);
    }
}

/// The days fit in the span that a duration can hold.
pub open spec fn days_fit(days: u64) -> bool {
    days * 86400 <= 9223372036854775
}

/// Why settings are refused, if they are.
pub open spec fn config_failure(
    format: u32,
    rules: Seq<RuleValue>,
    retention: RetentionConfig,
) -> Option<Failure> {
    if format != 1 {
        Some(Failure::policy("unsupported javelin.toml format "@ + text::decimal(format as nat)))
    } else if rules_failure(rules) is Some {
        rules_failure(rules)
    } else if !days_fit(retention.discarded_days) {
        Some(Failure::policy("retention.discarded_days"@ + " is too large"@))
    } else if !days_fit(retention.raw_trace_days) {
        Some(Failure::policy("retention.raw_trace_days"@ + " is too large"@))
    } else {
        None
    }
}

fn check_rule(rule: &WorldRule) -> (r: Result<()>)
    ensures
        match rule_failure(rule@) {
            Some(failure) => r is Err && r->Err_0@ == failure,
            None => r is Ok,
        },
{
    if text::trim(rule.name.as_str()).as_str().is_empty() || rule.command.len() == 0 {
        return Err(
            JavelinError::policy("verification rules require a name and argv command".to_owned()),
        );
    }
    if rule.timeout_seconds == 0 {
        return Err(
            JavelinError::policy(
                "verification rule timeout_seconds must be greater than zero".to_owned(),
            ),
        );
    }
    Ok(())
}

impl Config {
    /// Holds decoded settings to the rules. `decoded` is what the TOML decoder
    /// made of the file, or the message of its error.
    pub fn parse(decoded: std::result::Result<Config, String>) -> (r: Result<Config>)
        ensures
            match decoded {
                Err(message) => r is Err && r->Err_0@ == Failure::policy(
                    "invalid javelin.toml: "@ + message@,
                ),
                Ok(config) => match config_failure(
                    config.format,
                    config.verification.rules.deep_view(),
                    config.retention,
                ) {
                    Some(failure) => r is Err && r->Err_0@ == failure,
                    None => r == Ok::<Config, JavelinError>(config),
                },
            },
    {
        let config = match decoded {
            Ok(config) => config,
            Err(message) => {
                return Err(
                    JavelinError::policy(text::concat2("invalid javelin.toml: ", message.as_str())),
                );
            },
        };
        if config.format != 1 {
            return Err(
                JavelinError::policy(
                    text::concat2(
                        "unsupported javelin.toml format ",
                        text::number(config.format as u64).as_str(),
                    ),
                ),
            );
        }
        let rules = &config.verification.rules;
        let ghost all = rules.deep_view();
        let mut i: usize = 0;
        assert(all.take(0) =~= Seq::empty());
        while i < rules.len()
            invariant
                i <= rules@.len(),
                all == rules.deep_view(),
                *rules == config.verification.rules,
                config.format == 1,
                decoded == Ok::<Config, String>(config),
                rules_failure(all.take(i as int)) is None,
            decreases rules@.len() - i,
        {
            proof {
                assert(all.take(i as int + 1).drop_last() =~= all.take(i as int));
                assert(all.take(i as int + 1).last() == rules@[i as int]@);
            }
            match check_rule(&rules[i]) {
                Ok(()) => {},
                Err(error) => {
                    proof {
                        lemma_rules_failure_stays(all, i as int + 1);
                    }
                    return Err(error);
                },
            }
            i = i + 1;
        }
        assert(all.take(i as int) =~= all);
        retention_seconds(config.retention.discarded_days, "retention.discarded_days")?;
        retention_seconds(config.retention.raw_trace_days, "retention.raw_trace_days")?;
        Ok(config)
    }
}

/// The time that a setting leads to, given what the calendar reaches.
pub fn reached_time(time: Option<String>, field: &str) -> (r: Result<String>)
    ensures
        match time {
            Some(found) => r == Ok::<String, JavelinError>(found),
            None => r is Err && r->Err_0@ == Failure::policy(field@ + " is too large"@),
        },
{
    match time {
        Some(found) => Ok(found),
        None => Err(JavelinError::policy(text::concat2(field, " is too large"))),
    }
}

/// A span of days in seconds, refused where a duration cannot hold it.
pub fn retention_seconds(days: u64, field: &str) -> (r: Result<i64>)
    ensures
        if days_fit(days) {
            r is Ok && r->Ok_0 == days * 86400
        } else {
            r is Err && r->Err_0@ == Failure::policy(field@ + " is too large"@)
        },
{
    if days > 106751991167 {
        return Err(JavelinError::policy(text::concat2(field, " is too large")));
    }
    Ok(days as i64 * 86400)
}

/// The time some days after another, or before it where the days are negative,
/// or the refusal of the setting that gives the days.
pub open spec fn days_from(present: Text, days: int, field: Text) -> std::result::Result<
    Text,
    Failure,
> {
    let found = if -9223372036854775 <= days * 86400 <= 9223372036854775 {
        clock::later(present, days * 86400)
    } else {
        None
    };
    match found {
        Some(time) => Ok(time),
        None => Err(Failure::policy(field + " is too large"@)),
    }
}

/// The time some days after another.
pub fn days_after(present: &str, days: u64, field: &str) -> (r: Result<String>)
    ensures
        match days_from(present@, days as int, field@) {
            Ok(time) => r is Ok && r->Ok_0@ == time,
            Err(failure) => r is Err && r->Err_0@ == failure,
        },
{
    let seconds: i64 = retention_seconds(days, field)?;
    reached_time(clock::time_later(present, seconds), field)
}

/// The time some days before another.
pub fn days_before(present: &str, days: u64, field: &str) -> (r: Result<String>)
    ensures
        match days_from(present@, -(days as int), field@) {
            Ok(time) => r is Ok && r->Ok_0@ == time,
            Err(failure) => r is Err && r->Err_0@ == failure,
        },
{
    let seconds: i64 = retention_seconds(days, field)?;
    reached_time(clock::time_later(present, -seconds), field)
}

/// A line of the tracking policy, taken apart.
#[verifier::ext_equal]
pub struct RuleText {
    pub source: Text,
    pub keeps: bool,
    pub directory: bool,
    pub glob: Text,
}

/// The text without the given character at its start.
pub open spec fn without_leading(content: Text, c: char) -> Text
    decreases content.len(),
{
    if content.len() > 0 && content[0] == c {
        without_leading(content.drop_first(), c)
    } else {
        content
    }
}

/// The text without the given character at its end.
pub open spec fn without_trailing(content: Text, c: char) -> Text
    decreases content.len(),
{
    if content.len() > 0 && content.last() == c {
        without_trailing(content.drop_last(), c)
    } else {
        content
    }
}

/// What a line says: `!` at the start keeps what earlier lines exclude, `/` at
/// the end is for directories, and a pattern without `/` is for every
/// directory.
pub open spec fn rule_of(line: Text) -> RuleText {
    let keeps = line.len() > 0 && line[0] == '!';
    let body = without_leading(
        if keeps {
            line.drop_first()
        } else {
            line
        },
        '/',
    );
    let directory = body.len() > 0 && body.last() == '/';
    let pattern = without_trailing(body, '/');
    RuleText {
        source: line,
        keeps,
        directory,
        glob: if pattern.contains('/') {
            if directory {
                pattern + "/**"@
            } else {
                pattern
            }
        } else if directory {
            "**/"@ + pattern + "/**"@
        } else {
            "**/"@ + pattern
        },
    }
}

/// A line that says something: not blank and no comment.
pub open spec fn is_rule(line: Text) -> bool {
    line.len() > 0 && line[0] != '#'
}

/// The pattern's options: `*` stops at a separator, a backslash is itself.
pub open spec fn rule_error(rule: RuleText) -> Option<Text> {
    globs::glob_error(rule.glob, true, false)
}

pub open spec fn rule_glob_matches(rule: RuleText, path: Text) -> bool {
    globs::glob_matches(rule.glob, true, false, path)
}

/// The rules that the lines give, or the failure of the first bad one.
pub open spec fn policy_outcome(lines: Seq<Text>) -> std::result::Result<Seq<RuleText>, Failure>
    decreases lines.len(),
{
    if lines.len() == 0 {
        Ok(Seq::empty())
    } else {
        match policy_outcome(lines.drop_last()) {
            Err(failure) => Err(failure),
            Ok(rules) => {
                let line = text::trimmed(lines.last());
                if !is_rule(line) {
                    Ok(rules)
                } else {
                    match rule_error(rule_of(line)) {
                        Some(message) => Err(
                            Failure::policy(
                                "invalid .javelinignore rule "@ + text::quoted(line) + (": "@
                                    + message),
                            ),
                        ),
                        None => Ok(rules.push(rule_of(line))),
                    }
                }
            },
        }
    }
}

proof fn lemma_policy_failure_stays(lines: Seq<Text>, n: int)
    requires
        0 <= n <= lines.len(),
        policy_outcome(lines.take(n)) is Err,
    ensures
        policy_outcome(lines) == policy_outcome(lines.take(n)),
    decreases lines.len() - n,
{
    if n == lines.len() {
        assert(lines.take(n) =~= lines);
    } else {
        assert(lines.take(n + 1).drop_last() =~= lines.take(n));
        lemma_policy_failure_stays(lines, n + 1);
    }
}

#[derive(Debug)]
struct IgnoreRule {
    source: String,
    keeps: bool,
    directory: bool,
    glob: CompiledGlob,
}

impl IgnoreRule {
    spec fn value(self) -> RuleText {
        RuleText {
            source: self.source@,
            keeps: self.keeps,
            directory: self.directory,
            glob: self.glob.pattern(),
        }
    }

    spec fn wf(self) -> bool {
        self.glob.literal_separator() && !self.glob.backslash_escape()
    }
}

/// Which paths a World tracks.
#[derive(Debug)]
pub struct IgnorePolicy {
    rules: Vec<IgnoreRule>,
}

impl IgnorePolicy {
    /// The rules, in the order of their lines.
    pub closed spec fn rules(self) -> Seq<RuleText> {
        Seq::new(self.rules@.len(), |i: int| self.rules@[i].value())
    }

    /// Every pattern was compiled with the policy's options.
    pub closed spec fn wf(self) -> bool {
        forall|i: int| 0 <= i < self.rules@.len() ==> (#[trigger] self.rules@[i]).wf()
    }
}

/// The rule says something of the path.
pub open spec fn applies(rule: RuleText, path: Text, is_directory: bool) -> bool {
    rule_glob_matches(rule, path) || (is_directory && rule.directory && rule_glob_matches(
        rule,
        path + "/x"@,
    ))
}

/// The last rule that applies decides.
pub open spec fn last_decision(rules: Seq<RuleText>, path: Text, is_directory: bool) -> Option<
    (bool, Text),
>
    decreases rules.len(),
{
    if rules.len() == 0 {
        None
    } else if applies(rules.last(), path, is_directory) {
        Some((!rules.last().keeps, rules.last().source))
    } else {
        last_decision(rules.drop_last(), path, is_directory)
    }
}

/// Whether a path is ignored, and the rule that says so. A reserved path
/// always is.
pub open spec fn decision_of(rules: Seq<RuleText>, path: Text, is_directory: bool) -> Option<
    (bool, Text),
> {
    if paths::reserved(path) {
        Some((true, "Javelin internal/VCS isolation"@))
    } else {
        last_decision(rules, path, is_directory)
    }
}

pub open spec fn ignored_by(rules: Seq<RuleText>, path: Text, is_directory: bool) -> bool {
    decision_of(rules, path, is_directory) is Some && decision_of(
        rules,
        path,
        is_directory,
    )->Some_0.0
}

/// The rule is for a directory that its pattern names letter for letter, and
/// the path stands below that directory, at any depth.
pub open spec fn stands_below(rule: RuleText, path: Text) -> bool {
    exists|name: Text| #[trigger]
        globs::literal(name) && (rule.glob == name + "/**"@ && text::has_prefix(
            path,
            name + "/"@,
        ) || rule.glob == "**/"@ + name + "/**"@ && globs::has_directory(path, name))
}

/// No rule unhides a reserved path.
pub proof fn law_reserved_is_ignored(rules: Seq<RuleText>, path: Text, is_directory: bool)
    requires
        paths::reserved(path),
    ensures
        ignored_by(rules, path, is_directory),
{
}

/// A rule that applies overrides every rule before it.
pub proof fn law_last_rule_decides(
    rules: Seq<RuleText>,
    rule: RuleText,
    path: Text,
    is_directory: bool,
)
    requires
        !paths::reserved(path),
        applies(rule, path, is_directory),
    ensures
        ignored_by(rules.push(rule), path, is_directory) == !rule.keeps,
{
    assert(rules.push(rule).last() == rule);
}

fn strip_leading(chars: &Vec<char>, from: usize, c: char) -> (r: usize)
    requires
        from <= chars@.len(),
    ensures
        from <= r <= chars@.len(),
        chars@.skip(r as int) == without_leading(chars@.skip(from as int), c),
{
    let mut i: usize = from;
    while i < chars.len() && chars[i] == c
        invariant
            from <= i <= chars@.len(),
            without_leading(chars@.skip(from as int), c) == without_leading(
                chars@.skip(i as int),
                c,
            ),
        decreases chars@.len() - i,
    {
        assert(chars@.skip(i as int).drop_first() =~= chars@.skip(i as int + 1));
        i = i + 1;
    }
    i
}

fn strip_trailing(chars: &Vec<char>, from: usize, c: char) -> (r: usize)
    requires
        from <= chars@.len(),
    ensures
        from <= r <= chars@.len(),
        chars@.subrange(from as int, r as int) == without_trailing(chars@.skip(from as int), c),
{
    let mut i: usize = chars.len();
    assert(chars@.subrange(from as int, i as int) =~= chars@.skip(from as int));
    while i > from && chars[i - 1] == c
        invariant
            from <= i <= chars@.len(),
            without_trailing(chars@.skip(from as int), c) == without_trailing(
                chars@.subrange(from as int, i as int),
                c,
            ),
        decreases i,
    {
        assert(chars@.subrange(from as int, i as int).drop_last() =~= chars@.subrange(
            from as int,
            i as int - 1,
        ));
        i = i - 1;
    }
    i
}

/// Takes a line apart: whether it keeps, whether it is for directories, and
/// its pattern.
fn read_rule(line: &str) -> (r: (bool, bool, String))
    ensures
        r.0 == rule_of(line@).keeps,
        r.1 == rule_of(line@).directory,
        r.2@ == rule_of(line@).glob,
{
    let chars = text::chars_of(line);
    let keeps = chars.len() > 0 && chars[0] == '!';
    let start: usize = if keeps {
        1
    } else {
        0
    };
    let from: usize = strip_leading(&chars, start, '/');
    proof {
        if keeps {
            assert(line@.skip(1) =~= line@.drop_first());
        } else {
            assert(line@.skip(0) =~= line@);
        }
    }
    let ghost body = chars@.skip(from as int);
    let directory = chars.len() > from && chars[chars.len() - 1] == '/';
    assert(directory == (body.len() > 0 && body.last() == '/'));
    let to: usize = strip_trailing(&chars, from, '/');
    let pattern = line.substring_char(from, to);
    let glob = if text::has_char(pattern, '/') {
        if directory {
            text::concat2(pattern, "/**")
        } else {
            pattern.to_owned()
        }
    } else if directory {
        text::concat3("**/", pattern, "/**")
    } else {
        text::concat2("**/", pattern)
    };
    (keeps, directory, glob)
}

impl IgnorePolicy {
    /// The policy of a view's `.javelinignore`, or the default one where the
    /// view has none.
    pub fn from_file(content: Option<&str>) -> (r: Result<IgnorePolicy>)
        ensures
            match policy_outcome(
                text::split(
                    match content {
                        Some(lines) => lines@,
                        None => DEFAULT_IGNORE@,
                    },
                    '\n',
                ),
            ) {
                Ok(rules) => r is Ok && r->Ok_0.wf() && r->Ok_0.rules() == rules,
                Err(failure) => r is Err && r->Err_0@ == failure,
            },
    {
        match content {
            Some(lines) => IgnorePolicy::parse(lines),
            None => IgnorePolicy::parse(DEFAULT_IGNORE),
        }
    }

    /// Reads a policy, one rule a line.
    pub fn parse(content: &str) -> (r: Result<IgnorePolicy>)
        ensures
            match policy_outcome(text::split(content@, '\n')) {
                Ok(rules) => r is Ok && r->Ok_0.wf() && r->Ok_0.rules() == rules,
                Err(failure) => r is Err && r->Err_0@ == failure,
            },
    {
        let lines = text::split_on(content, '\n');
        let ghost all = lines.deep_view();
        let mut policy = IgnorePolicy { rules: Vec::new() };
        let mut i: usize = 0;
        assert(all.take(0) =~= Seq::empty());
        assert(policy.rules() =~= Seq::empty());
        while i < lines.len()
            invariant
                i <= lines@.len(),
                all == lines.deep_view(),
                all == text::split(content@, '\n'),
                policy.wf(),
                policy_outcome(all.take(i as int)) == Ok::<Seq<RuleText>, Failure>(policy.rules()),
            decreases lines@.len() - i,
        {
            let line = text::trim(lines[i].as_str());
            proof {
                assert(all.take(i as int + 1).drop_last() =~= all.take(i as int));
                assert(all.take(i as int + 1).last() == lines@[i as int]@);
            }
            let chars = text::chars_of(line.as_str());
            if chars.len() > 0 && chars[0] != '#' {
                let (keeps, directory, pattern) = read_rule(line.as_str());
                match globs::compile(pattern.as_str(), true, false) {
                    Ok(glob) => {
                        let ghost before = policy.rules();
                        policy.rules.push(IgnoreRule { source: line, keeps, directory, glob });
                        assert(policy.rules() =~= before.push(rule_of(line@)));
                    },
                    Err(message) => {
                        proof {
                            lemma_policy_failure_stays(all, i as int + 1);
                        }
                        return Err(
                            JavelinError::policy(
                                text::concat2(
                                    text::concat2(
                                        "invalid .javelinignore rule ",
                                        text::quote(line.as_str()).as_str(),
                                    ).as_str(),
                                    text::concat2(": ", message.as_str()).as_str(),
                                ),
                            ),
                        );
                    },
                }
            }
            i = i + 1;
        }
        assert(all.take(i as int) =~= all);
        Ok(policy)
    }

    /// Whether a path is ignored, and the rule that says so.
    pub fn decision(&self, path: &str, is_directory: bool) -> (r: Option<(bool, String)>)
        requires
            self.wf(),
        ensures
            r.deep_view() == decision_of(self.rules(), path@, is_directory),
            !path@.contains('\\') && !paths::reserved(path@) ==> forall|k: int|
                0 <= k < self.rules().len() && stands_below(#[trigger] self.rules()[k], path@) && (
                forall|j: int|
                    k < j < self.rules().len() ==> !applies(
                        #[trigger] self.rules()[j],
                        path@,
                        is_directory,
                    )) ==> r is Some && r->Some_0.0 == !self.rules()[k].keeps,
    {
        if paths::is_reserved_path(path) {
            return Some((true, "Javelin internal/VCS isolation".to_owned()));
        }
        let below = text::concat2(path, "/x");
        let ghost all = self.rules();
        let mut i: usize = self.rules.len();
        assert(all.take(i as int) =~= all);
        while i > 0
            invariant
                i <= self.rules@.len(),
                self.wf(),
                all == self.rules(),
                below@ == path@ + "/x"@,
                last_decision(all, path@, is_directory) == last_decision(
                    all.take(i as int),
                    path@,
                    is_directory,
                ),
                !paths::reserved(path@),
                !path@.contains('\\') ==> forall|k: int|
                    i <= k < all.len() ==> !stands_below(#[trigger] all[k], path@),
            decreases i,
        {
            let rule = &self.rules[i - 1];
            assert(all[i - 1] == rule.value());
            proof {
                assert(all.take(i as int).last() == rule.value());
                assert(all.take(i as int).drop_last() =~= all.take(i as int - 1));
            }
            let here = globs::is_match(&rule.glob, path);
            if here || (is_directory && rule.directory && globs::is_match(
                &rule.glob,
                below.as_str(),
            )) {
                assert(applies(all[i - 1], path@, is_directory));
                return Some((!rule.keeps, rule.source.clone()));
            }
            assert(!path@.contains('\\') ==> !stands_below(all[i - 1], path@));
            i = i - 1;
        }
        None
    }

    pub fn ignored(&self, path: &str, is_directory: bool) -> (r: bool)
        requires
            self.wf(),
        ensures
            r == ignored_by(self.rules(), path@, is_directory),
            !path@.contains('\\') && !paths::reserved(path@) ==> forall|k: int|
                0 <= k < self.rules().len() && stands_below(#[trigger] self.rules()[k], path@) && (
                forall|j: int|
                    k < j < self.rules().len() ==> !applies(
                        #[trigger] self.rules()[j],
                        path@,
                        is_directory,
                    )) ==> r == !self.rules()[k].keeps,
    {
        match self.decision(path, is_directory) {
            Some((ignored, _)) => ignored,
            None => false,
        }
    }
}

/// A text whose first character is another loses nothing at its start.
proof fn lemma_nothing_leading(content: Text, c: char)
    requires
        content.len() == 0 || content[0] != c,
    ensures
        without_leading(content, c) == content,
{
}

proof fn lemma_nothing_trailing(content: Text, c: char)
    requires
        content.len() == 0 || content.last() != c,
    ensures
        without_trailing(content, c) == content,
{
}

/// A line that ends with `/` is for everything below the directory that it
/// names. With a `/` inside, the name is a path from the root of the view;
/// without one it is the name of a directory anywhere.
pub proof fn law_directory_line_covers_what_is_below(name: Text)
    requires
        name.len() > 0,
        name[0] != '/' && name[0] != '!',
        name.last() != '/',
    ensures
        rule_of(name + "/"@).glob == (if name.contains('/') {
            name + "/**"@
        } else {
            "**/"@ + name + "/**"@
        }),
        rule_of(name + "/"@).directory,
        !rule_of(name + "/"@).keeps,
        rule_of(name + "/"@).source == name + "/"@,
{
    let line = name + "/"@;
    reveal_strlit("/");
    assert(line[0] == name[0]);
    assert(line.last() == '/');
    lemma_nothing_leading(line, '/');
    assert(line.drop_last() =~= name);
    lemma_nothing_trailing(name, '/');
    assert(without_trailing(line, '/') == name);
}

/// Every path below a directory that a line names, at any depth, is what the
/// line's rule speaks of.
pub proof fn law_directory_line_reaches_every_depth(name: Text, above: Text, rest: Text)
    requires
        globs::literal(name),
        name[0] != '/' && name[0] != '!',
        name.last() != '/',
    ensures
        stands_below(rule_of(name + "/"@), name + "/"@ + rest),
        !name.contains('/') ==> stands_below(
            rule_of(name + "/"@),
            above + "/"@ + name + "/"@ + rest,
        ),
{
    law_directory_line_covers_what_is_below(name);
    let path = name + "/"@ + rest;
    reveal_strlit("/");
    assert(path.take((name + "/"@).len() as int) =~= name + "/"@);
    assert(globs::literal(name));
    assert(globs::has_directory(path, name));
    let deep = above + "/"@ + name + "/"@ + rest;
    let tail = deep.skip(above.len() as int);
    assert(tail =~= "/"@ + name + "/"@ + rest);
    assert(tail.take(("/"@ + name + "/"@).len() as int) =~= "/"@ + name + "/"@);
    assert(text::has_prefix(deep.skip(above.len() as int), "/"@ + name + "/"@));
    assert(globs::has_directory(deep, name));
}

/// A line that does not end with `/` is for the path that it names from the
/// root of the view where it holds a `/`, and for that name in every directory
/// where it holds none.
pub proof fn law_plain_line_names_a_path(name: Text)
    requires
        name.len() > 0,
        name[0] != '/' && name[0] != '!',
        name.last() != '/',
    ensures
        rule_of(name).glob == (if name.contains('/') {
            name
        } else {
            "**/"@ + name
        }),
        !rule_of(name).directory,
        !rule_of(name).keeps,
        rule_of(name).source == name,
{
    lemma_nothing_leading(name, '/');
    lemma_nothing_trailing(name, '/');
}

/// A `!` at the start of a line turns its rule around and changes nothing of
/// what it speaks of; a `/` at the start changes nothing at all.
pub proof fn law_marks_at_the_start(line: Text)
    requires
        line.len() > 0,
        line[0] != '!',
    ensures
        rule_of("!"@ + line).keeps,
        !rule_of(line).keeps,
        rule_of("!"@ + line).glob == rule_of(line).glob,
        rule_of("!"@ + line).directory == rule_of(line).directory,
        rule_of("/"@ + line).glob == rule_of(line).glob,
        rule_of("/"@ + line).directory == rule_of(line).directory,
        !rule_of("/"@ + line).keeps,
{
    reveal_strlit("!");
    reveal_strlit("/");
    assert(("!"@ + line).drop_first() =~= line);
    assert(("/"@ + line).drop_first() =~= line);
    assert(without_leading("/"@ + line, '/') == without_leading(line, '/'));
}

/// Every line that is not blank and does not start with `#` is a rule, in its
/// place, and no other line is: a policy that is read has for each such line
/// its rule and nothing else.
pub proof fn law_policy_holds_every_line(lines: Seq<Text>, line: Text)
    requires
        policy_outcome(lines) is Ok,
    ensures
        policy_outcome(lines.push(line)) is Ok ==> policy_outcome(lines.push(line))->Ok_0 == (
        if text::trimmed(line).len() == 0 || text::trimmed(line)[0] == '#' {
            policy_outcome(lines)->Ok_0
        } else {
            policy_outcome(lines)->Ok_0.push(rule_of(text::trimmed(line)))
        }),
        policy_outcome(lines.push(line)) is Err ==> text::trimmed(line).len() > 0 && text::trimmed(
            line,
        )[0] != '#' && globs::glob_error(rule_of(text::trimmed(line)).glob, true, false) is Some
            && policy_outcome(lines.push(line))->Err_0.exit_code == 10,
{
    assert(lines.push(line).drop_last() =~= lines);
}

/// A rule speaks of a path that its pattern matches, and of a directory where
/// the pattern matches what stands in it and the line ended with `/`. A path
/// that no rule speaks of is tracked.
pub proof fn law_unmentioned_path_is_tracked(
    rules: Seq<RuleText>,
    path: Text,
    is_directory: bool,
)
    requires
        !paths::reserved(path),
        forall|i: int|
            0 <= i < rules.len() ==> !globs::glob_matches(
                (#[trigger] rules[i]).glob,
                true,
                false,
                path,
            ) && !(is_directory && rules[i].directory && globs::glob_matches(
                rules[i].glob,
                true,
                false,
                path + "/x"@,
            )),
    ensures
        !ignored_by(rules, path, is_directory),
        decision_of(rules, path, is_directory) is None,
    decreases rules.len(),
{
    if rules.len() > 0 {
        let shorter = rules.drop_last();
        assert(rules[rules.len() - 1] == rules.last());
        assert forall|i: int| 0 <= i < shorter.len() implies !globs::glob_matches(
            (#[trigger] shorter[i]).glob,
            true,
            false,
            path,
        ) && !(is_directory && shorter[i].directory && globs::glob_matches(
            shorter[i].glob,
            true,
            false,
            path + "/x"@,
        )) by {
            assert(rules[i] == shorter[i]);
        }
        law_unmentioned_path_is_tracked(shorter, path, is_directory);
    }
}

/// The last rule whose pattern matches decides, and is the one that is told.
pub proof fn law_last_match_is_told(
    rules: Seq<RuleText>,
    k: int,
    path: Text,
    is_directory: bool,
)
    requires
        !paths::reserved(path),
        0 <= k < rules.len(),
        globs::glob_matches(rules[k].glob, true, false, path),
        forall|i: int|
            k < i < rules.len() ==> !globs::glob_matches(
                (#[trigger] rules[i]).glob,
                true,
                false,
                path,
            ) && !(is_directory && rules[i].directory && globs::glob_matches(
                rules[i].glob,
                true,
                false,
                path + "/x"@,
            )),
    ensures
        decision_of(rules, path, is_directory) == Some((!rules[k].keeps, rules[k].source)),
        ignored_by(rules, path, is_directory) == !rules[k].keeps,
    decreases rules.len(),
{
    if k < rules.len() - 1 {
        let shorter = rules.drop_last();
        assert(rules[rules.len() - 1] == rules.last());
        assert forall|i: int| k < i < shorter.len() implies !globs::glob_matches(
            (#[trigger] shorter[i]).glob,
            true,
            false,
            path,
        ) && !(is_directory && shorter[i].directory && globs::glob_matches(
            shorter[i].glob,
            true,
            false,
            path + "/x"@,
        )) by {
            assert(rules[i] == shorter[i]);
        }
        law_last_match_is_told(shorter, k, path, is_directory);
    }
}

/// Settings are taken only in the one format, with rules that have a name, a
/// command and time to run, and with retentions that a duration can hold;
/// everything else is refused by policy.
pub proof fn law_settings_are_checked(
    format: u32,
    rules: Seq<RuleValue>,
    retention: RetentionConfig,
)
    ensures
        config_failure(format, rules, retention) is None <==> format == 1 && (forall|i: int|
            0 <= i < rules.len() ==> text::trimmed((#[trigger] rules[i]).name).len() > 0
                && rules[i].command.len() > 0 && rules[i].timeout_seconds > 0)
            && retention.discarded_days * 86400 <= 9223372036854775 && retention.raw_trace_days
            * 86400 <= 9223372036854775,
        config_failure(format, rules, retention) is Some ==> config_failure(
            format,
            rules,
            retention,
        )->Some_0.exit_code == 10,
{
    lemma_rules_checked(rules);
}

proof fn lemma_rules_checked(rules: Seq<RuleValue>)
    ensures
        rules_failure(rules) is None <==> forall|i: int|
            0 <= i < rules.len() ==> text::trimmed((#[trigger] rules[i]).name).len() > 0
                && rules[i].command.len() > 0 && rules[i].timeout_seconds > 0,
        rules_failure(rules) is Some ==> rules_failure(rules)->Some_0.exit_code == 10,
    decreases rules.len(),
{
    if rules.len() > 0 {
        let shorter = rules.drop_last();
        lemma_rules_checked(shorter);
        assert(rules[rules.len() - 1] == rules.last());
        if rules_failure(rules) is None {
            assert forall|i: int| 0 <= i < rules.len() implies text::trimmed(
                (#[trigger] rules[i]).name,
            ).len() > 0 && rules[i].command.len() > 0 && rules[i].timeout_seconds > 0 by {
                if i < shorter.len() {
                    assert(shorter[i] == rules[i]);
                }
            }
        }
        if forall|i: int|
            0 <= i < rules.len() ==> text::trimmed((#[trigger] rules[i]).name).len() > 0
                && rules[i].command.len() > 0 && rules[i].timeout_seconds > 0 {
            assert forall|i: int| 0 <= i < shorter.len() implies text::trimmed(
                (#[trigger] shorter[i]).name,
            ).len() > 0 && shorter[i].command.len() > 0 && shorter[i].timeout_seconds > 0 by {
                assert(rules[i] == shorter[i]);
            }
        }
    }
}

/// A number of days leads that many times 86400 seconds ahead, or back where it
/// is negative; a time out of reach is refused by policy.
pub proof fn law_days_are_whole_days(present: Text, days: int, field: Text)
    ensures
        days_from(present, days, field) matches Ok(time) ==> clock::later(present, days * 86400)
            == Some(time),
        days_from(present, days, field) is Err ==> days_from(present, days, field)->Err_0.exit_code
            == 10,
        -9223372036854775 <= days * 86400 <= 9223372036854775 && clock::later(
            present,
            days * 86400,
        ) is Some ==> days_from(present, days, field) is Ok,
{
}

/// A rule that says nothing else is required and may run for ten minutes.
pub proof fn law_rules_are_required_by_default(required: bool, seconds: u64)
    requires
        call_ensures(default_required, (), required),
        call_ensures(default_timeout, (), seconds),
    ensures
        required,
        seconds == 10 * 60,
{
}

} // verus!
