//! Provenance sessions: what is kept of them, and what is shown.
use vstd::prelude::*;
use crate::json;
use crate::json::{Json, JsonValue};
use crate::records::{ProvenanceEvent, Session};
use crate::report::Shown;
use crate::search;
use crate::text;
use crate::text::Text;

verus! {

/// Who acts in a session.
pub open spec fn actor_value(name: Text, kind: Option<Text>, model: Option<Text>) -> JsonValue {
    JsonValue::object().field(
        "kind"@,
        JsonValue::Text(
            match kind {
                Some(content) => content,
                None => "agent"@,
            },
        ),
    ).field("name"@, JsonValue::Text(name)).field("model"@, json::text_or_null(model))
}

/// Who acts in a session, as JSON.
pub fn actor_json(name: &str, kind: &Option<String>, model: &Option<String>) -> (r: Json)
    ensures
        r@ == actor_value(name@, kind.deep_view(), model.deep_view()),
{
    let kind = match kind {
        Some(content) => Json::text(content.as_str()),
        None => Json::text("agent"),
    };
    Json::empty().with("kind", kind).with("name", Json::text(name)).with(
        "model",
        Json::option(model),
    )
}

/// A field with this name is not to be kept.
pub open spec fn sensitive(name: Text) -> bool {
    let lower = text::lowercased(name);
    ||| search::occurs(lower, "token"@)
    ||| search::occurs(lower, "password"@)
    ||| search::occurs(lower, "secret"@)
    ||| search::occurs(lower, "authorization"@)
    ||| search::occurs(lower, "api_key"@)
}

/// Whether a field with this name is not to be kept.
pub fn is_sensitive(name: &str) -> (r: bool)
    ensures
        r == sensitive(name@),
{
    let lower = text::lowercase(name);
    search::contains(lower.as_str(), "token") || search::contains(lower.as_str(), "password")
        || search::contains(lower.as_str(), "secret") || search::contains(
        lower.as_str(),
        "authorization",
    ) || search::contains(lower.as_str(), "api_key")
}

/// A text with a mark in place of each secret, one secret after the other.
pub open spec fn scrubbed(content: Text, secrets: Seq<Text>) -> Text
    decreases secrets.len(),
{
    if secrets.len() == 0 {
        content
    } else {
        let earlier = scrubbed(content, secrets.drop_last());
        if secrets.last().len() == 0 {
            earlier
        } else {
            search::replaced(earlier, secrets.last(), "[REDACTED]"@)
        }
    }
}

/// Puts a mark in place of each secret.
pub fn scrub(content: &str, secrets: &Vec<String>) -> (r: String)
    ensures
        r@ == scrubbed(content@, secrets.deep_view()),
{
    let ghost all = secrets.deep_view();
    let mut out = content.to_owned();
    let mut i: usize = 0;
    while i < secrets.len()
        invariant
            i <= secrets@.len(),
            all == secrets.deep_view(),
            out@ == scrubbed(content@, all.take(i as int)),
        decreases secrets@.len() - i,
    {
        proof {
            assert(all.take(i + 1).drop_last() =~= all.take(i as int));
            assert(all.take(i + 1).last() == secrets@[i as int]@);
        }
        let secret = secrets[i].as_str();
        if secret.unicode_len() > 0 {
            out = search::replace(out.as_str(), secret, "[REDACTED]");
        }
        i = i + 1;
    }
    assert(all.take(i as int) =~= all);
    out
}

/// A value without what is not to be kept.
pub open spec fn redacted(value: JsonValue, secrets: Seq<Text>) -> JsonValue
    decreases value,
{
    match value {
        JsonValue::Object(fields) => JsonValue::Object(redacted_fields(fields, secrets)),
        JsonValue::Array(items) => JsonValue::Array(redacted_items(items, secrets)),
        JsonValue::Text(content) => JsonValue::Text(scrubbed(content, secrets)),
        other => other,
    }
}

pub open spec fn redacted_items(items: Seq<JsonValue>, secrets: Seq<Text>) -> Seq<JsonValue>
    decreases items,
{
    if items.len() == 0 {
        Seq::empty()
    } else {
        redacted_items(items.drop_last(), secrets).push(redacted(items.last(), secrets))
    }
}

pub open spec fn redacted_fields(fields: Seq<(Text, JsonValue)>, secrets: Seq<Text>) -> Seq<
    (Text, JsonValue),
>
    decreases fields,
{
    if fields.len() == 0 {
        Seq::empty()
    } else {
        redacted_fields(fields.drop_last(), secrets).push(
            (
                fields.last().0,
                if sensitive(fields.last().0) {
                    JsonValue::Text("[REDACTED]"@)
                } else {
                    redacted(fields.last().1, secrets)
                },
            ),
        )
    }
}

/// Takes out of a value what is not to be kept.
pub fn redact_value(value: &Json, configured: &Vec<String>) -> (r: Json)
    ensures
        r@ == redacted(value@, configured.deep_view()),
    decreases value,
{
    match value {
        Json::Object(fields) => Json::Object(redact_fields(fields, configured)),
        Json::Array(items) => Json::Array(redact_items(items, configured)),
        Json::Text(content) => Json::Text(scrub(content.as_str(), configured)),
        Json::Null => Json::Null,
        Json::Bool(flag) => Json::Bool(*flag),
        Json::Number(digits) => Json::Number(digits.clone()),
        Json::Raw(content) => Json::Raw(content.clone()),
    }
}

fn redact_items(items: &Vec<Json>, configured: &Vec<String>) -> (r: Vec<Json>)
    ensures
        json::items_view(r@) == redacted_items(
            json::items_view(items@),
            configured.deep_view(),
        ),
    decreases items,
{
    let ghost secrets = configured.deep_view();
    let mut out: Vec<Json> = Vec::new();
    let mut i: usize = 0;
    assert(items@.take(0) =~= Seq::empty());
    while i < items.len()
        invariant
            i <= items@.len(),
            secrets == configured.deep_view(),
            json::items_view(out@) == redacted_items(
                json::items_view(items@.take(i as int)),
                secrets,
            ),
        decreases items@.len() - i,
    {
        let ghost before = out@;
        assert(decreases_to!(items => items@[i as int]));
        out.push(redact_value(&items[i], configured));
        proof {
            assert(out@.drop_last() =~= before);
            assert(items@.take(i + 1).drop_last() =~= items@.take(i as int));
            assert(items@.take(i + 1).last() == items@[i as int]);
            let shorter = json::items_view(items@.take(i as int));
            assert(json::items_view(items@.take(i + 1)).drop_last() =~= shorter);
        }
        i = i + 1;
    }
    assert(items@.take(i as int) =~= items@);
    out
}

fn redact_fields(fields: &Vec<(String, Json)>, configured: &Vec<String>) -> (r: Vec<
    (String, Json),
>)
    ensures
        json::fields_view(r@) == redacted_fields(
            json::fields_view(fields@),
            configured.deep_view(),
        ),
    decreases fields,
{
    let ghost secrets = configured.deep_view();
    let mut out: Vec<(String, Json)> = Vec::new();
    let mut i: usize = 0;
    assert(fields@.take(0) =~= Seq::empty());
    while i < fields.len()
        invariant
            i <= fields@.len(),
            secrets == configured.deep_view(),
            json::fields_view(out@) == redacted_fields(
                json::fields_view(fields@.take(i as int)),
                secrets,
            ),
        decreases fields@.len() - i,
    {
        let ghost before = out@;
        assert(decreases_to!(fields => fields@[i as int]));
        let value = if is_sensitive(fields[i].0.as_str()) {
            Json::text("[REDACTED]")
        } else {
            redact_value(&fields[i].1, configured)
        };
        out.push((fields[i].0.clone(), value));
        proof {
            assert(out@.drop_last() =~= before);
            assert(fields@.take(i + 1).drop_last() =~= fields@.take(i as int));
            assert(fields@.take(i + 1).last() == fields@[i as int]);
            let shorter = json::fields_view(fields@.take(i as int));
            assert(json::fields_view(fields@.take(i + 1)).drop_last() =~= shorter);
        }
        i = i + 1;
    }
    assert(fields@.take(i as int) =~= fields@);
    out
}

/// No sensitive field of a value holds anything.
pub open spec fn discreet(value: JsonValue) -> bool
    decreases value,
{
    match value {
        JsonValue::Object(fields) => discreet_fields(fields),
        JsonValue::Array(items) => discreet_items(items),
        _ => true,
    }
}

pub open spec fn discreet_items(items: Seq<JsonValue>) -> bool
    decreases items,
{
    items.len() == 0 || (discreet_items(items.drop_last()) && discreet(items.last()))
}

pub open spec fn discreet_fields(fields: Seq<(Text, JsonValue)>) -> bool
    decreases fields,
{
    fields.len() == 0 || (discreet_fields(fields.drop_last()) && discreet(fields.last().1) && (
    sensitive(fields.last().0) ==> fields.last().1 == JsonValue::Text("[REDACTED]"@)))
}

/// At no depth does a redacted value hold anything in a sensitive field.
pub proof fn law_sensitive_fields_are_hidden(value: JsonValue, secrets: Seq<Text>)
    ensures
        discreet(redacted(value, secrets)),
    decreases value,
{
    match value {
        JsonValue::Object(fields) => lemma_discreet_fields(fields, secrets),
        JsonValue::Array(items) => lemma_discreet_items(items, secrets),
        _ => {},
    }
}

proof fn lemma_discreet_items(items: Seq<JsonValue>, secrets: Seq<Text>)
    ensures
        discreet_items(redacted_items(items, secrets)),
    decreases items,
{
    if items.len() > 0 {
        lemma_discreet_items(items.drop_last(), secrets);
        law_sensitive_fields_are_hidden(items.last(), secrets);
        assert(redacted_items(items, secrets).drop_last() =~= redacted_items(
            items.drop_last(),
            secrets,
        ));
    }
}

proof fn lemma_discreet_fields(fields: Seq<(Text, JsonValue)>, secrets: Seq<Text>)
    ensures
        discreet_fields(redacted_fields(fields, secrets)),
    decreases fields,
{
    if fields.len() > 0 {
        lemma_discreet_fields(fields.drop_last(), secrets);
        law_sensitive_fields_are_hidden(fields.last().1, secrets);
        assert(redacted_fields(fields, secrets).drop_last() =~= redacted_fields(
            fields.drop_last(),
            secrets,
        ));
        assert(discreet(JsonValue::Text("[REDACTED]"@)));
        assert(discreet(redacted_fields(fields, secrets).last().1));
    }
}

impl Shown for Session {
    open spec fn value(row: Session<Text>) -> JsonValue {
        JsonValue::object().field("id"@, JsonValue::Text(row.id)).field(
            "layer_id"@,
            json::text_or_null(row.layer_id),
        ).field("actor"@, JsonValue::Raw(row.actor_json)).field(
            "status"@,
            JsonValue::Text(row.status),
        ).field("started_at"@, JsonValue::Text(row.started_at)).field(
            "ended_at"@,
            json::text_or_null(row.ended_at),
        )
    }

    fn shown(&self) -> (r: Json) {
        Json::empty().with("id", Json::text(self.id.as_str())).with(
            "layer_id",
            Json::option(&self.layer_id),
        ).with("actor", Json::Raw(self.actor_json.clone())).with(
            "status",
            Json::text(self.status.as_str()),
        ).with("started_at", Json::text(self.started_at.as_str())).with(
            "ended_at",
            Json::option(&self.ended_at),
        )
    }
}

/// An event of a session, with what it holds or a mark in its place.
pub open spec fn event_value(row: ProvenanceEvent<Text>, raw: bool) -> JsonValue {
    JsonValue::object().field("schema"@, JsonValue::Text("javelin.provenance.v1"@)).field(
        "event_id"@,
        JsonValue::Text(row.event_id),
    ).field("session_id"@, JsonValue::Text(row.session_id)).field(
        "layer_id"@,
        json::text_or_null(row.layer_id),
    ).field("timestamp"@, JsonValue::Text(row.timestamp)).field(
        "actor"@,
        JsonValue::Raw(row.actor_json),
    ).field("type"@, JsonValue::Text(row.event_type)).field(
        "payload"@,
        if raw {
            JsonValue::Raw(row.payload_json)
        } else {
            JsonValue::object().field("hidden"@, JsonValue::Bool(true))
        },
    )
}

fn event_json(row: &ProvenanceEvent, raw: bool) -> (r: Json)
    ensures
        r@ == event_value(row@, raw),
{
    let payload = if raw {
        Json::Raw(row.payload_json.clone())
    } else {
        Json::empty().with("hidden", Json::Bool(true))
    };
    Json::empty().with("schema", Json::text("javelin.provenance.v1")).with(
        "event_id",
        Json::text(row.event_id.as_str()),
    ).with("session_id", Json::text(row.session_id.as_str())).with(
        "layer_id",
        Json::option(&row.layer_id),
    ).with("timestamp", Json::text(row.timestamp.as_str())).with(
        "actor",
        Json::Raw(row.actor_json.clone()),
    ).with("type", Json::text(row.event_type.as_str())).with("payload", payload)
}

pub open spec fn event_values(rows: Seq<ProvenanceEvent<Text>>, raw: bool) -> Seq<JsonValue> {
    Seq::new(rows.len(), |i: int| event_value(rows[i], raw))
}

/// What is shown and said of a session: its events show what they hold only
/// when that is asked for.
pub fn session_report(session: &Session, events: &Vec<ProvenanceEvent>, raw: bool) -> (r: (
    Json,
    String,
))
    ensures
        r.0@ == JsonValue::object().field("session"@, Session::value(session@)).field(
            "events"@,
            JsonValue::Array(event_values(events.deep_view(), raw)),
        ),
        r.1@ == "Provenance session "@ + session@.id,
{
    let mut out: Vec<Json> = Vec::new();
    let mut i: usize = 0;
    while i < events.len()
        invariant
            i <= events@.len(),
            out@.len() == i,
            forall|j: int|
                0 <= j < i ==> json::json_view(#[trigger] out@[j]) == event_value(
                    events@[j]@,
                    raw,
                ),
        decreases events@.len() - i,
    {
        out.push(event_json(&events[i], raw));
        i = i + 1;
    }
    proof {
        json::lemma_items_view(out@);
        assert(json::items_view(out@) =~= event_values(events.deep_view(), raw));
    }
    (
        Json::empty().with("session", session.shown()).with("events", Json::Array(out)),
        text::concat2("Provenance session ", session.id.as_str()),
    )
}

/// What is shown of a session that was searched for.
pub open spec fn found_value(row: Session<Text>) -> JsonValue {
    JsonValue::object().field("id"@, JsonValue::Text(row.id)).field(
        "layer_id"@,
        json::text_or_null(row.layer_id),
    ).field("actor"@, JsonValue::Raw(row.actor_json)).field(
        "status"@,
        JsonValue::Text(row.status),
    ).field("started_at"@, JsonValue::Text(row.started_at))
}

pub open spec fn found_values(rows: Seq<Session<Text>>) -> Seq<JsonValue> {
    Seq::new(rows.len(), |i: int| found_value(rows[i]))
}

pub open spec fn session_ids(rows: Seq<Session<Text>>) -> Seq<Text> {
    Seq::new(rows.len(), |i: int| rows[i].id)
}

/// What is shown and said of the sessions that were searched for.
pub fn search_report(sessions: &Vec<Session>) -> (r: (Json, String))
    ensures
        r.0@ == JsonValue::object().field(
            "sessions"@,
            JsonValue::Array(found_values(sessions.deep_view())),
        ),
        r.1@ == text::joined(session_ids(sessions.deep_view()), "\n"@),
{
    let mut out: Vec<Json> = Vec::new();
    let mut ids: Vec<String> = Vec::new();
    let mut i: usize = 0;
    while i < sessions.len()
        invariant
            i <= sessions@.len(),
            out@.len() == i,
            ids@.len() == i,
            forall|j: int|
                0 <= j < i ==> json::json_view(#[trigger] out@[j]) == found_value(sessions@[j]@),
            forall|j: int| 0 <= j < i ==> (#[trigger] ids@[j])@ == sessions@[j]@.id,
        decreases sessions@.len() - i,
    {
        let row = &sessions[i];
        out.push(
            Json::empty().with("id", Json::text(row.id.as_str())).with(
                "layer_id",
                Json::option(&row.layer_id),
            ).with("actor", Json::Raw(row.actor_json.clone())).with(
                "status",
                Json::text(row.status.as_str()),
            ).with("started_at", Json::text(row.started_at.as_str())),
        );
        ids.push(row.id.clone());
        i = i + 1;
    }
    proof {
        json::lemma_items_view(out@);
        assert(json::items_view(out@) =~= found_values(sessions.deep_view()));
        assert(ids.deep_view() =~= session_ids(sessions.deep_view()));
    }
    (Json::empty().with("sessions", Json::Array(out)), text::join(&ids, "\n"))
}

/// A field whose name holds one of the words for something secret, in capitals
/// or small letters, is sensitive; no other is.
pub proof fn law_secret_words_make_a_field_sensitive(name: Text, before: Text, after: Text)
    ensures
        text::lowercased(name) == before + "token"@ + after ==> sensitive(name),
        text::lowercased(name) == before + "password"@ + after ==> sensitive(name),
        text::lowercased(name) == before + "secret"@ + after ==> sensitive(name),
        text::lowercased(name) == before + "authorization"@ + after ==> sensitive(name),
        text::lowercased(name) == before + "api_key"@ + after ==> sensitive(name),
        sensitive(name) ==> search::occurs(text::lowercased(name), "token"@) || search::occurs(
            text::lowercased(name),
            "password"@,
        ) || search::occurs(text::lowercased(name), "secret"@) || search::occurs(
            text::lowercased(name),
            "authorization"@,
        ) || search::occurs(text::lowercased(name), "api_key"@),
{
    lemma_stands_between(before, "token"@, after);
    lemma_stands_between(before, "password"@, after);
    lemma_stands_between(before, "secret"@, after);
    lemma_stands_between(before, "authorization"@, after);
    lemma_stands_between(before, "api_key"@, after);
}

proof fn lemma_stands_between(before: Text, word: Text, after: Text)
    ensures
        search::occurs(before + word + after, word),
{
    let all = before + word + after;
    let n = before.len() as int;
    assert(all.subrange(n, n + word.len()) =~= word);
    assert(search::matches_at(all, word, n));
}

/// What is not sensitive is kept: a redacted object has the same names in the
/// same places, a mark for each sensitive field and the redacted value for every
/// other; a redacted list has the redacted items; texts lose the secrets alone;
/// and every other value stays.
pub proof fn law_redaction_keeps_the_rest(
    fields: Seq<(Text, JsonValue)>,
    items: Seq<JsonValue>,
    content: Text,
    flag: bool,
    digits: Text,
    secrets: Seq<Text>,
)
    ensures
        redacted(JsonValue::Object(fields), secrets) == JsonValue::Object(
            Seq::new(
                fields.len(),
                |i: int|
                    (
                        fields[i].0,
                        if sensitive(fields[i].0) {
                            JsonValue::Text("[REDACTED]"@)
                        } else {
                            redacted(fields[i].1, secrets)
                        },
                    ),
            ),
        ),
        redacted(JsonValue::Array(items), secrets) == JsonValue::Array(
            Seq::new(items.len(), |i: int| redacted(items[i], secrets)),
        ),
        (forall|i: int|
            0 <= i < secrets.len() ==> !search::occurs(content, #[trigger] secrets[i]))
            ==> redacted(JsonValue::Text(content), secrets) == JsonValue::Text(content),
        redacted(JsonValue::Null, secrets) == JsonValue::Null,
        redacted(JsonValue::Bool(flag), secrets) == JsonValue::Bool(flag),
        redacted(JsonValue::Number(digits), secrets) == JsonValue::Number(digits),
{
    lemma_redacted_fields(fields, secrets);
    lemma_redacted_items(items, secrets);
    assert(redacted_fields(fields, secrets) =~= Seq::new(
        fields.len(),
        |i: int|
            (
                fields[i].0,
                if sensitive(fields[i].0) {
                    JsonValue::Text("[REDACTED]"@)
                } else {
                    redacted(fields[i].1, secrets)
                },
            ),
    ));
    assert(redacted_items(items, secrets) =~= Seq::new(
        items.len(),
        |i: int| redacted(items[i], secrets),
    ));
    if forall|i: int| 0 <= i < secrets.len() ==> !search::occurs(content, #[trigger] secrets[i]) {
        lemma_nothing_to_scrub(content, secrets);
    }
}

proof fn lemma_nothing_to_scrub(content: Text, secrets: Seq<Text>)
    requires
        forall|i: int| 0 <= i < secrets.len() ==> !search::occurs(content, #[trigger] secrets[i]),
    ensures
        scrubbed(content, secrets) == content,
    decreases secrets.len(),
{
    if secrets.len() > 0 {
        let shorter = secrets.drop_last();
        assert forall|i: int| 0 <= i < shorter.len() implies !search::occurs(
            content,
            #[trigger] shorter[i],
        ) by {
            assert(shorter[i] == secrets[i]);
        }
        lemma_nothing_to_scrub(content, shorter);
        assert(secrets[secrets.len() - 1] == secrets.last());
        if secrets.last().len() > 0 {
            search::law_leftmost_occurrence_is_replaced(
                content,
                secrets.last(),
                "[REDACTED]"@,
                0,
            );
        }
    }
}

proof fn lemma_redacted_fields(fields: Seq<(Text, JsonValue)>, secrets: Seq<Text>)
    ensures
        redacted_fields(fields, secrets).len() == fields.len(),
        forall|i: int|
            0 <= i < fields.len() ==> #[trigger] redacted_fields(fields, secrets)[i] == (
                fields[i].0,
                if sensitive(fields[i].0) {
                    JsonValue::Text("[REDACTED]"@)
                } else {
                    redacted(fields[i].1, secrets)
                },
            ),
    decreases fields.len(),
{
    if fields.len() > 0 {
        let shorter = fields.drop_last();
        lemma_redacted_fields(shorter, secrets);
        assert forall|i: int| 0 <= i < fields.len() implies #[trigger] redacted_fields(
            fields,
            secrets,
        )[i] == (
            fields[i].0,
            if sensitive(fields[i].0) {
                JsonValue::Text("[REDACTED]"@)
            } else {
                redacted(fields[i].1, secrets)
            },
        ) by {
            if i < shorter.len() {
                assert(redacted_fields(fields, secrets)[i] == redacted_fields(shorter, secrets)[i]);
                assert(shorter[i] == fields[i]);
            }
        }
    }
}

proof fn lemma_redacted_items(items: Seq<JsonValue>, secrets: Seq<Text>)
    ensures
        redacted_items(items, secrets).len() == items.len(),
        forall|i: int|
            0 <= i < items.len() ==> #[trigger] redacted_items(items, secrets)[i] == redacted(
                items[i],
                secrets,
            ),
    decreases items.len(),
{
    if items.len() > 0 {
        let shorter = items.drop_last();
        lemma_redacted_items(shorter, secrets);
        assert forall|i: int| 0 <= i < items.len() implies #[trigger] redacted_items(
            items,
            secrets,
        )[i] == redacted(items[i], secrets) by {
            if i < shorter.len() {
                assert(redacted_items(items, secrets)[i] == redacted_items(shorter, secrets)[i]);
                assert(shorter[i] == items[i]);
            }
        }
    }
}

/// A single secret is replaced wherever it stands first, and so on behind it.
pub proof fn law_secret_gives_way_to_a_mark(before: Text, secret: Text, after: Text)
    requires
        secret.len() > 0,
        forall|j: int|
            0 <= j < before.len() ==> !#[trigger] search::matches_at(
                before + secret + after,
                secret,
                j,
            ),
    ensures
        scrubbed(before + secret + after, seq![secret]) == before + "[REDACTED]"@ + scrubbed(
            after,
            seq![secret],
        ),
{
    let all = before + secret + after;
    let n = before.len() as int;
    assert(all.subrange(n, n + secret.len()) =~= secret);
    assert(search::matches_at(all, secret, n));
    search::law_leftmost_occurrence_is_replaced(all, secret, "[REDACTED]"@, n);
    assert(all.take(n) =~= before);
    assert(all.skip(n + secret.len()) =~= after);
    let secrets = seq![secret];
    assert(secrets.last() == secret);
    assert(secrets.drop_last() =~= Seq::empty());
    assert(scrubbed(all, secrets.drop_last()) == all);
    assert(scrubbed(after, secrets.drop_last()) == after);
}

/// What a session recorded is hidden unless it is asked for: without that, two
/// events that differ in their payload alone look the same.
pub proof fn law_payload_is_hidden_unless_asked_for(row: ProvenanceEvent<Text>, other: Text)
    ensures
        event_value(row, false) == event_value(
            ProvenanceEvent { payload_json: other, ..row },
            false,
        ),
        event_value(row, true) == JsonValue::object().field(
            "schema"@,
            JsonValue::Text("javelin.provenance.v1"@),
        ).field("event_id"@, JsonValue::Text(row.event_id)).field(
            "session_id"@,
            JsonValue::Text(row.session_id),
        ).field("layer_id"@, json::text_or_null(row.layer_id)).field(
            "timestamp"@,
            JsonValue::Text(row.timestamp),
        ).field("actor"@, JsonValue::Raw(row.actor_json)).field(
            "type"@,
            JsonValue::Text(row.event_type),
        ).field("payload"@, JsonValue::Raw(row.payload_json)),
{
}

} // verus!
