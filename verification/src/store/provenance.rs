//! Provenance sessions: what an actor did, what is attached to it, and what a
//! purge leaves.
use vstd::prelude::*;
use vstd::utf8::*;
use crate::clock;
use crate::config;
use crate::error;
use crate::error::{Failure, JavelinError, Result};
use crate::json;
use crate::json::{Json, JsonValue};
use crate::records;
use crate::records::{Attachment, ProvenanceEvent, ProvenanceLink, Session};
use crate::store;
use crate::store::{Store, StoreState};
use crate::tables;
use crate::text;
use crate::text::Text;

verus! {

/// What beginning a session gives.
pub open spec fn begin_outcome(
    state: StoreState,
    layer_id: Option<Text>,
    actor_json: Text,
    id: Text,
    now: Text,
) -> std::result::Result<StoreState, Failure> {
    if layer_id is Some && state.layer(layer_id->Some_0) is None {
        Err(Failure::invalid("unknown Private Layer "@ + layer_id->Some_0))
    } else if layer_id is Some && !tables::any(
        state.layers,
        records::layer_is(layer_id->Some_0),
    ) {
        Err(store::no_reference("cannot begin provenance session"@))
    } else {
        Ok(
            StoreState {
                sessions: state.sessions.push(
                    Session {
                        id,
                        layer_id,
                        actor_json,
                        status: "active"@,
                        started_at: now,
                        ended_at: None,
                    },
                ),
                ..state
            }.with_event(
                "provenance.started"@,
                Some("provenance"@),
                Some(id),
                JsonValue::object().field("layer_id"@, json::text_or_null(layer_id)).field(
                    "actor"@,
                    JsonValue::Raw(actor_json),
                ),
                now,
            ),
        )
    }
}

/// Why nothing can be added to a session, if nothing can.
pub open spec fn closed_failure(state: StoreState, session_id: Text) -> Option<Failure> {
    match tables::find(state.sessions, records::session_is(session_id)) {
        None => Some(Failure::invalid("unknown provenance session "@ + session_id)),
        Some(session) => if session.status != "active"@ {
            Some(Failure::policy("provenance session has ended"@))
        } else {
            None
        },
    }
}

/// The store with one more event of an open session.
pub open spec fn with_session_event(
    state: StoreState,
    session: Session<Text>,
    event_type: Text,
    payload_json: Text,
    id: Text,
    now: Text,
) -> StoreState {
    StoreState {
        provenance_events: state.provenance_events.push(
            ProvenanceEvent {
                event_id: id,
                session_id: session.id,
                layer_id: session.layer_id,
                timestamp: now,
                actor_json: session.actor_json,
                event_type,
                payload_json,
            },
        ),
        ..state
    }
}

/// What appending an event to a session gives.
pub open spec fn session_event_outcome(
    state: StoreState,
    session_id: Text,
    event_type: Text,
    payload_json: Text,
    id: Text,
    now: Text,
) -> std::result::Result<StoreState, Failure> {
    match closed_failure(state, session_id) {
        Some(failure) => Err(failure),
        None => Ok(
            with_session_event(
                state,
                tables::find(state.sessions, records::session_is(session_id))->Some_0,
                event_type,
                payload_json,
                id,
                now,
            ),
        ),
    }
}

/// What attaching a file to a session gives. Nothing is attached to a session
/// that has ended or was purged.
pub open spec fn attach_outcome(
    state: StoreState,
    session_id: Text,
    name: Text,
    media_type: Option<Text>,
    object_id: Text,
    id: Text,
    now: Text,
) -> std::result::Result<StoreState, Failure> {
    match closed_failure(state, session_id) {
        Some(failure) => Err(failure),
        None => if was_purged(state, session_id) {
            Err(Failure::policy("provenance session was purged"@))
        } else {
            Ok(
                StoreState {
                    attachments: state.attachments.push(
                        Attachment {
                            id,
                            session_id,
                            object_id: Some(object_id),
                            name,
                            media_type,
                            purged: false,
                            created_at: now,
                        },
                    ),
                    ..state
                },
            )
        },
    }
}

/// The event of the stream says that the session was purged.
pub open spec fn purge_event(session_id: Text) -> spec_fn(
    crate::records::Event<Text, JsonValue>,
) -> bool {
    |event: crate::records::Event<Text, JsonValue>|
        event.event_type == "provenance.purged"@ && event.subject_id == Some(session_id)
}

/// The session was purged.
pub open spec fn was_purged(state: StoreState, session_id: Text) -> bool {
    tables::any(state.events, purge_event(session_id))
}

/// An active session.
pub open spec fn active_session(id: Text) -> spec_fn(Session<Text>) -> bool {
    |row: Session<Text>| row.id == id && row.status == "active"@
}

/// What ending a session gives.
pub open spec fn end_outcome(state: StoreState, session_id: Text, now: Text) -> std::result::Result<
    StoreState,
    Failure,
> {
    match tables::first(state.sessions, active_session(session_id)) {
        None => Err(Failure::invalid("provenance session is unknown or ended"@)),
        Some(i) => Ok(
            StoreState {
                sessions: state.sessions.update(
                    i,
                    Session { status: "ended"@, ended_at: Some(now), ..state.sessions[i] },
                ),
                ..state
            }.with_event(
                "provenance.ended"@,
                Some("provenance"@),
                Some(session_id),
                JsonValue::object(),
                now,
            ),
        ),
    }
}

/// An event of a session.
pub open spec fn event_of(session_id: Text) -> spec_fn(ProvenanceEvent<Text>) -> bool {
    |row: ProvenanceEvent<Text>| row.session_id == session_id
}

/// An event without its payload, if it is the session's.
pub open spec fn purge_payload(session_id: Text) -> spec_fn(ProvenanceEvent<Text>) -> ProvenanceEvent<
    Text,
> {
    |row: ProvenanceEvent<Text>|
        if row.session_id == session_id {
            ProvenanceEvent { payload_json: config::PURGED_PROVENANCE_PAYLOAD@, ..row }
        } else {
            row
        }
}

/// An attachment without its object, if it is the session's.
pub open spec fn purge_attachment(session_id: Text) -> spec_fn(Attachment<Text>) -> Attachment<
    Text,
> {
    |row: Attachment<Text>|
        if row.session_id == session_id {
            Attachment { object_id: None, purged: true, ..row }
        } else {
            row
        }
}

/// What purging a session gives: the record of what happened stays, its
/// content goes.
pub open spec fn purge_outcome(state: StoreState, session_id: Text, now: Text) -> std::result::Result<
    StoreState,
    Failure,
> {
    if !tables::any(state.sessions, records::session_is(session_id)) {
        Err(Failure::invalid("unknown provenance session "@ + session_id))
    } else {
        Ok(
            StoreState {
                provenance_events: tables::changed(
                    state.provenance_events,
                    purge_payload(session_id),
                ),
                attachments: tables::changed(state.attachments, purge_attachment(session_id)),
                ..state
            }.with_event(
                "provenance.purged"@,
                Some("provenance"@),
                Some(session_id),
                JsonValue::object(),
                now,
            ),
        )
    }
}

/// A query as the pattern that a store is searched with: its own wildcards are
/// escaped, and anything may stand before and after it.
pub open spec fn escaped(query: Text) -> Text
    decreases query.len(),
{
    if query.len() == 0 {
        Seq::empty()
    } else {
        let before = escaped(query.drop_last());
        let c = query.last();
        if c == '\\' || c == '%' || c == '_' {
            before.push('\\').push(c)
        } else {
            before.push(c)
        }
    }
}

/// The longest pattern that a store can be searched with, in bytes.
pub const LONGEST_PATTERN: usize = 50000;

/// The pattern of a query is too long.
pub open spec fn too_complex(query: Text) -> bool {
    encode_utf8(seq!['%'] + escaped(query) + seq!['%']).len() > LONGEST_PATTERN
}

fn is_too_complex(query: &str) -> (r: bool)
    ensures
        r == too_complex(query@),
{
    let chars = text::chars_of(query);
    let mut pattern = String::new();
    pattern.push('%');
    let mut i: usize = 0;
    proof {
        assert(query@.take(0) =~= Seq::<char>::empty());
        assert(pattern@ =~= seq!['%'] + escaped(query@.take(0)));
    }
    while i < chars.len()
        invariant
            i <= chars@.len(),
            chars@ == query@,
            pattern@ == seq!['%'] + escaped(query@.take(i as int)),
        decreases chars@.len() - i,
    {
        let c = chars[i];
        proof {
            assert(query@.take(i as int + 1).drop_last() =~= query@.take(i as int));
            assert(query@.take(i as int + 1).last() == c);
        }
        if c == '\\' || c == '%' || c == '_' {
            pattern.push('\\');
        }
        pattern.push(c);
        assert(pattern@ =~= seq!['%'] + escaped(query@.take(i as int + 1)));
        i = i + 1;
    }
    pattern.push('%');
    proof {
        assert(query@.take(i as int) =~= query@);
        assert(pattern@ =~= seq!['%'] + escaped(query@) + seq!['%']);
    }
    pattern.as_str().as_bytes().len() > LONGEST_PATTERN
}

/// The sessions that a search gives, by their start.
pub open spec fn search_outcome(state: StoreState, query: Text) -> std::result::Result<
    Seq<Session<Text>>,
    Failure,
> {
    if state.sessions.len() > 0 && too_complex(query) {
        Err(
            error::caused(
                7,
                "STORE_QUERY"@,
                "cannot decode provenance search"@,
                "LIKE or GLOB pattern too complex"@,
            ),
        )
    } else {
        Ok(tables::in_order::<Session>(tables::kept(state.sessions, found(state, query))))
    }
}

/// The part of a text before its first NUL character.
pub open spec fn before_nul(content: Text) -> Text {
    text::split(content, '\0')[0]
}

/// A search finds the needle in the text, whatever the case of ASCII letters. No
/// character of the needle has a special meaning but NUL, at which the text and
/// the needle end: what stands before it has to stand at the text's end.
pub open spec fn mentions(content: Text, needle: Text) -> bool {
    let shown = before_nul(content);
    if needle.contains('\0') {
        let end = before_nul(needle);
        end.len() <= shown.len() && text::same_but_case(
            shown.subrange(shown.len() - end.len(), shown.len() as int),
            end,
        )
    } else {
        stands_in(shown, needle)
    }
}

/// The needle stands somewhere in the text, whatever the case of ASCII letters.
pub open spec fn stands_in(content: Text, needle: Text) -> bool {
    exists|i: int|
        0 <= i && i + needle.len() <= content.len() && text::same_but_case(
            #[trigger] content.subrange(i, i + needle.len()),
            needle,
        )
}

/// A session that a search finds: by its ID or actor, or by the payload or type
/// of one of its events.
pub open spec fn found(state: StoreState, needle: Text) -> spec_fn(Session<Text>) -> bool {
    |session: Session<Text>|
        mentions(session.id, needle) || mentions(session.actor_json, needle) || tables::any(
            state.provenance_events,
            event_mentions(session.id, needle),
        )
}

pub open spec fn event_mentions(session_id: Text, needle: Text) -> spec_fn(
    ProvenanceEvent<Text>,
) -> bool {
    |row: ProvenanceEvent<Text>|
        row.session_id == session_id && (mentions(row.payload_json, needle) || mentions(
            row.event_type,
            needle,
        ))
}

/// An event of a session that has its payload.
pub open spec fn unpurged_event(session_id: Text) -> spec_fn(ProvenanceEvent<Text>) -> bool {
    |row: ProvenanceEvent<Text>|
        row.session_id == session_id && row.payload_json != config::PURGED_PROVENANCE_PAYLOAD@
}

/// An attachment of a session that has its object.
pub open spec fn unpurged_attachment(session_id: Text) -> spec_fn(Attachment<Text>) -> bool {
    |row: Attachment<Text>| row.session_id == session_id && !row.purged
}

/// A session that started early enough and still has content.
pub open spec fn expired(state: StoreState, cutoff: Text) -> spec_fn(Session<Text>) -> bool {
    |session: Session<Text>|
        !text::text_less(cutoff, session.started_at) && (tables::any(
            state.provenance_events,
            unpurged_event(session.id),
        ) || tables::any(state.attachments, unpurged_attachment(session.id)))
}

/// A link of an owner.
pub open spec fn link_of(owner: Text) -> spec_fn(ProvenanceLink<Text>) -> bool {
    |row: ProvenanceLink<Text>| row.owner == owner
}

fn cut_at_nul(content: &str) -> (r: String)
    ensures
        r@ == before_nul(content@),
{
    let parts = text::split_on(content, '\0');
    proof {
        text::lemma_split_nonempty(content@, '\0');
        assert(parts.deep_view().len() == parts@.len());
        assert(parts.deep_view()[0] == parts@[0]@);
    }
    parts[0].clone()
}

/// Whether a search finds the needle in the text.
pub fn is_mentioned(content: &str, needle: &str) -> (r: bool)
    ensures
        r == mentions(content@, needle@),
{
    let shown = cut_at_nul(content);
    if !text::has_char(needle, '\0') {
        return is_part(shown.as_str(), needle);
    }
    let end = cut_at_nul(needle);
    let length: usize = shown.as_str().unicode_len();
    let size: usize = end.as_str().unicode_len();
    size <= length && text::same_ignoring_case(
        shown.as_str().substring_char(length - size, length),
        end.as_str(),
    )
}

fn is_part(content: &str, needle: &str) -> (r: bool)
    ensures
        r == stands_in(content@, needle@),
{
    let length: usize = content.unicode_len();
    let size: usize = needle.unicode_len();
    if size > length {
        return false;
    }
    let mut i: usize = 0;
    while i <= length - size
        invariant
            length == content@.len(),
            size == needle@.len(),
            size <= length,
            i <= length - size + 1,
            forall|j: int|
                0 <= j < i ==> !text::same_but_case(
                    #[trigger] content@.subrange(j, j + size),
                    needle@,
                ),
        decreases length - size + 1 - i,
    {
        if text::same_ignoring_case(content.substring_char(i, i + size), needle) {
            return true;
        }
        if i == length - size {
            assert forall|j: int|
                0 <= j && j + needle@.len() <= content@.len() implies !text::same_but_case(
                #[trigger] content@.subrange(j, j + needle@.len()),
                needle@,
            ) by {}
            return false;
        }
        i = i + 1;
    }
    false
}

impl Store {
    /// Begins a session with a given identity and time.
    pub fn begin_provenance_at(
        &mut self,
        layer_id: Option<&str>,
        actor_json: &str,
        id: &str,
        now: &str,
    ) -> (r: Result<()>)
        ensures
            match begin_outcome(old(self)@, layer_id.deep_view(), actor_json@, id@, now@) {
                Ok(state) => r is Ok && final(self)@ == state,
                Err(failure) => r is Err && r->Err_0@ == failure && final(self)@ == old(self)@,
            },
    {
        if let Some(name) = layer_id {
            if self.layer_place(name).is_none() {
                return Err(JavelinError::invalid(text::concat2("unknown Private Layer ", name)));
            }
            if records::find_layer(&self.layers, name).is_none() {
                return Err(store::no_reference_error("cannot begin provenance session"));
            }
        }
        let ghost before = self@;
        self.sessions.push(
            Session {
                id: id.to_owned(),
                layer_id: store::owned(layer_id),
                actor_json: actor_json.to_owned(),
                status: "active".to_owned(),
                started_at: now.to_owned(),
                ended_at: None,
            },
        );
        let payload = Json::empty().with("layer_id", Json::option(&store::owned(layer_id))).with(
            "actor",
            Json::Raw(actor_json.to_owned()),
        );
        self.append_event_at("provenance.started", Some("provenance"), Some(id), payload, now);
        assert(self@ =~= begin_outcome(
            before,
            layer_id.deep_view(),
            actor_json@,
            id@,
            now@,
        )->Ok_0);
        Ok(())
    }

    /// Begins a session.
    pub fn begin_provenance(&mut self, layer_id: Option<&str>, actor_json: &str) -> (r: Result<
        String,
    >)
        ensures
            exists|id: Text, now: Text|
                clock::is_stamp(now) && clock::is_fresh(id) && match #[trigger] begin_outcome(
                    old(self)@,
                    layer_id.deep_view(),
                    actor_json@,
                    id,
                    now,
                ) {
                    Ok(state) => r is Ok && r->Ok_0@ == id && final(self)@ == state,
                    Err(failure) => r is Err && r->Err_0@ == failure && final(self)@ == old(self)@,
                },
    {
        let id = clock::new_id();
        let now = clock::now();
        self.begin_provenance_at(layer_id, actor_json, id.as_str(), now.as_str())?;
        Ok(id)
    }

    fn open_session(&self, session_id: &str) -> (r: Result<usize>)
        ensures
            match closed_failure(self@, session_id@) {
                Some(failure) => r is Err && r->Err_0@ == failure,
                None => r is Ok && r->Ok_0 < self.sessions@.len() && tables::find(
                    self@.sessions,
                    records::session_is(session_id@),
                ) == Some(self.sessions@[r->Ok_0 as int]@) && self.sessions@[r->Ok_0 as int]@.id
                    == session_id@,
            },
    {
        match records::find_session(&self.sessions, session_id) {
            None => Err(
                JavelinError::invalid(text::concat2("unknown provenance session ", session_id)),
            ),
            Some(i) => {
                proof {
                    tables::lemma_first(self@.sessions, records::session_is(session_id@));
                }
                if !text::same(self.sessions[i].status.as_str(), "active") {
                    Err(JavelinError::policy("provenance session has ended".to_owned()))
                } else {
                    Ok(i)
                }
            },
        }
    }

    /// Appends an event to a session with a given identity and time.
    pub fn append_provenance_event_at(
        &mut self,
        session_id: &str,
        event_type: &str,
        payload_json: &str,
        id: &str,
        now: &str,
    ) -> (r: Result<()>)
        ensures
            match session_event_outcome(
                old(self)@,
                session_id@,
                event_type@,
                payload_json@,
                id@,
                now@,
            ) {
                Ok(state) => r is Ok && final(self)@ == state,
                Err(failure) => r is Err && r->Err_0@ == failure && final(self)@ == old(self)@,
            },
    {
        let i: usize = self.open_session(session_id)?;
        let ghost before = self@;
        let session = self.sessions[i].clone();
        self.provenance_events.push(
            ProvenanceEvent {
                event_id: id.to_owned(),
                session_id: session.id.clone(),
                layer_id: text::copy_option(&session.layer_id),
                timestamp: now.to_owned(),
                actor_json: session.actor_json.clone(),
                event_type: event_type.to_owned(),
                payload_json: payload_json.to_owned(),
            },
        );
        assert(self@ =~= with_session_event(
            before,
            session@,
            event_type@,
            payload_json@,
            id@,
            now@,
        ));
        Ok(())
    }

    /// Appends an event to a session.
    pub fn append_provenance_event(
        &mut self,
        session_id: &str,
        event_type: &str,
        payload_json: &str,
    ) -> (r: Result<String>)
        ensures
            match r {
                Ok(id) => clock::is_fresh(id@) && exists|now: Text|
                    clock::is_stamp(now) && match #[trigger] session_event_outcome(
                        old(self)@,
                        session_id@,
                        event_type@,
                        payload_json@,
                        id@,
                        now,
                    ) {
                        Ok(state) => final(self)@ == state,
                        Err(_) => false,
                    },
                Err(error) => final(self)@ == old(self)@ && closed_failure(
                    old(self)@,
                    session_id@,
                ) == Some(error@),
            },
    {
        let id = clock::new_id();
        let now = clock::now();
        self.append_provenance_event_at(
            session_id,
            event_type,
            payload_json,
            id.as_str(),
            now.as_str(),
        )?;
        let r: Result<String> = Ok(id);
        assert(session_event_outcome(
            old(self)@,
            session_id@,
            event_type@,
            payload_json@,
            r->Ok_0@,
            now@,
        ) == Ok::<StoreState, Failure>(self@));
        r
    }

    fn is_purged(&self, session_id: &str) -> (r: bool)
        ensures
            r == was_purged(self@, session_id@),
    {
        let ghost all = self@.events;
        let mut i: usize = 0;
        while i < self.events.len()
            invariant
                i <= self.events@.len(),
                all == self@.events,
                forall|j: int| 0 <= j < i ==> !purge_event(session_id@)(#[trigger] all[j]),
            decreases self.events@.len() - i,
        {
            assert(all[i as int] == self.events@[i as int]@);
            if let Some(subject) = &self.events[i].subject_id {
                if text::same(subject.as_str(), session_id) && text::same(
                    self.events[i].event_type.as_str(),
                    "provenance.purged",
                ) {
                    proof {
                        tables::lemma_any(all, purge_event(session_id@), i as int);
                    }
                    return true;
                }
            }
            i = i + 1;
        }
        proof {
            tables::lemma_first_none(all, purge_event(session_id@));
        }
        false
    }

    /// Attaches a stored file to a session with a given identity and time.
    pub fn attach_provenance_at(
        &mut self,
        session_id: &str,
        name: &str,
        media_type: Option<&str>,
        object_id: &str,
        id: &str,
        now: &str,
    ) -> (r: Result<()>)
        ensures
            match attach_outcome(
                old(self)@,
                session_id@,
                name@,
                media_type.deep_view(),
                object_id@,
                id@,
                now@,
            ) {
                Ok(state) => r is Ok && final(self)@ == state,
                Err(failure) => r is Err && r->Err_0@ == failure && final(self)@ == old(self)@,
            },
    {
        self.open_session(session_id)?;
        if self.is_purged(session_id) {
            return Err(JavelinError::policy("provenance session was purged".to_owned()));
        }
        let ghost before = self@;
        self.attachments.push(
            Attachment {
                id: id.to_owned(),
                session_id: session_id.to_owned(),
                object_id: Some(object_id.to_owned()),
                name: name.to_owned(),
                media_type: store::owned(media_type),
                purged: false,
                created_at: now.to_owned(),
            },
        );
        assert(self@ =~= attach_outcome(
            before,
            session_id@,
            name@,
            media_type.deep_view(),
            object_id@,
            id@,
            now@,
        )->Ok_0);
        Ok(())
    }

    /// Attaches a stored file to a session.
    pub fn attach_provenance(
        &mut self,
        session_id: &str,
        name: &str,
        media_type: Option<&str>,
        object_id: &str,
    ) -> (r: Result<String>)
        ensures
            match r {
                Ok(id) => clock::is_fresh(id@) && exists|now: Text|
                    clock::is_stamp(now) && match #[trigger] attach_outcome(
                        old(self)@,
                        session_id@,
                        name@,
                        media_type.deep_view(),
                        object_id@,
                        id@,
                        now,
                    ) {
                        Ok(state) => final(self)@ == state,
                        Err(_) => false,
                    },
                Err(error) => final(self)@ == old(self)@ && exists|id: Text, now: Text|
                    clock::is_stamp(now) && clock::is_fresh(id) && #[trigger] attach_outcome(
                        old(self)@,
                        session_id@,
                        name@,
                        media_type.deep_view(),
                        object_id@,
                        id,
                        now,
                    ) == Err::<StoreState, Failure>(error@),
            },
    {
        let id = clock::new_id();
        let now = clock::now();
        match self.attach_provenance_at(
            session_id,
            name,
            media_type,
            object_id,
            id.as_str(),
            now.as_str(),
        ) {
            Ok(()) => {
                let r: Result<String> = Ok(id);
                assert(attach_outcome(
                    old(self)@,
                    session_id@,
                    name@,
                    media_type.deep_view(),
                    object_id@,
                    r->Ok_0@,
                    now@,
                ) == Ok::<StoreState, Failure>(self@));
                r
            },
            Err(error) => Err(error),
        }
    }

    fn active_session_place(&self, id: &str) -> (r: Option<usize>)
        ensures
            match r {
                Some(i) => i < self.sessions@.len() && tables::first(
                    self@.sessions,
                    active_session(id@),
                ) == Some(i as int),
                None => tables::first(self@.sessions, active_session(id@)) is None,
            },
    {
        let ghost all = self@.sessions;
        let mut i: usize = 0;
        while i < self.sessions.len()
            invariant
                i <= self.sessions@.len(),
                all == self@.sessions,
                forall|j: int| 0 <= j < i ==> !active_session(id@)(#[trigger] all[j]),
            decreases self.sessions@.len() - i,
        {
            assert(all[i as int] == self.sessions@[i as int]@);
            if text::same(self.sessions[i].id.as_str(), id) && text::same(
                self.sessions[i].status.as_str(),
                "active",
            ) {
                proof {
                    tables::lemma_first_at(all, active_session(id@), i as int);
                }
                return Some(i);
            }
            i = i + 1;
        }
        proof {
            tables::lemma_first_none(all, active_session(id@));
        }
        None
    }

    /// Ends a session at a given time.
    pub fn end_provenance_at(&mut self, session_id: &str, now: &str) -> (r: Result<()>)
        ensures
            match end_outcome(old(self)@, session_id@, now@) {
                Ok(state) => r is Ok && final(self)@ == state,
                Err(failure) => r is Err && r->Err_0@ == failure && final(self)@ == old(self)@,
            },
    {
        let ghost before = self@;
        match self.active_session_place(session_id) {
            None => {
                return Err(
                    JavelinError::invalid("provenance session is unknown or ended".to_owned()),
                );
            },
            Some(i) => {
                let mut row = self.sessions[i].clone();
                row.status = "ended".to_owned();
                row.ended_at = Some(now.to_owned());
                self.sessions.set(i, row);
            },
        }
        self.append_event_at(
            "provenance.ended",
            Some("provenance"),
            Some(session_id),
            Json::empty(),
            now,
        );
        assert(self@ =~= end_outcome(before, session_id@, now@)->Ok_0);
        Ok(())
    }

    /// Ends a session.
    pub fn end_provenance(&mut self, session_id: &str) -> (r: Result<()>)
        ensures
            exists|now: Text|
                clock::is_stamp(now) && match #[trigger] end_outcome(old(self)@, session_id@, now) {
                    Ok(state) => r is Ok && final(self)@ == state,
                    Err(failure) => r is Err && r->Err_0@ == failure && final(self)@ == old(self)@,
                },
    {
        let now = clock::now();
        self.end_provenance_at(session_id, now.as_str())
    }

    /// A session and its events, by their time and then by identity.
    pub fn provenance_session(&self, session_id: &str) -> (r: Result<
        (Session, Vec<ProvenanceEvent>),
    >)
        ensures
            match tables::find(self@.sessions, records::session_is(session_id@)) {
                None => r is Err && r->Err_0@ == Failure::invalid(
                    "unknown provenance session "@ + session_id@,
                ),
                Some(session) => r is Ok && r->Ok_0.0@ == session && r->Ok_0.1.deep_view()
                    == tables::in_order::<ProvenanceEvent>(
                    tables::kept(self@.provenance_events, event_of(session_id@)),
                ),
            },
    {
        let session = match records::find_session(&self.sessions, session_id) {
            Some(i) => self.sessions[i].clone(),
            None => {
                return Err(
                    JavelinError::invalid(
                        text::concat2("unknown provenance session ", session_id),
                    ),
                );
            },
        };
        let ghost all = self@.provenance_events;
        let ghost state = self@;
        let mut out: Vec<ProvenanceEvent> = Vec::new();
        let mut i: usize = 0;
        assert(all.take(0) =~= Seq::empty());
        assert(out.deep_view() =~= Seq::empty());
        while i < self.provenance_events.len()
            invariant
                i <= self.provenance_events@.len(),
                all == self@.provenance_events,
                state == self@,
                tables::find(state.sessions, records::session_is(session_id@)) == Some(session@),
                out.deep_view() == tables::kept(all.take(i as int), event_of(session_id@)),
            decreases self.provenance_events@.len() - i,
        {
            let ghost before = out.deep_view();
            let row = &self.provenance_events[i];
            proof {
                assert(all.take(i as int + 1).drop_last() =~= all.take(i as int));
                assert(all.take(i as int + 1).last() == row@);
            }
            if text::same(row.session_id.as_str(), session_id) {
                out.push(row.clone());
                assert(out.deep_view() =~= before.push(row@));
            }
            i = i + 1;
        }
        assert(all.take(i as int) =~= all);
        Ok((session, tables::put_in_order(&out)))
    }

    fn some_event_mentions(&self, session_id: &str, needle: &str) -> (r: bool)
        ensures
            r == tables::any(
                self@.provenance_events,
                event_mentions(session_id@, needle@),
            ),
    {
        let ghost all = self@.provenance_events;
        let ghost wanted = event_mentions(session_id@, needle@);
        let mut i: usize = 0;
        while i < self.provenance_events.len()
            invariant
                i <= self.provenance_events@.len(),
                all == self@.provenance_events,
                wanted == event_mentions(session_id@, needle@),
                forall|j: int| 0 <= j < i ==> !wanted(#[trigger] all[j]),
            decreases self.provenance_events@.len() - i,
        {
            let row = &self.provenance_events[i];
            assert(all[i as int] == row@);
            if text::same(row.session_id.as_str(), session_id) && (is_mentioned(
                row.payload_json.as_str(),
                needle,
            ) || is_mentioned(row.event_type.as_str(), needle)) {
                proof {
                    tables::lemma_any(all, wanted, i as int);
                }
                return true;
            }
            i = i + 1;
        }
        proof {
            tables::lemma_first_none(all, wanted);
        }
        false
    }

    /// The sessions that mention a text, by their start.
    pub fn search_provenance(&self, query: &str) -> (r: Result<Vec<Session>>)
        ensures
            match search_outcome(self@, query@) {
                Ok(sessions) => r is Ok && r->Ok_0.deep_view() == sessions,
                Err(failure) => r is Err && r->Err_0@ == failure,
            },
    {
        assert(self@.sessions.len() == self.sessions@.len());
        if self.sessions.len() > 0 && is_too_complex(query) {
            return Err(
                JavelinError::new(
                    7,
                    "STORE_QUERY",
                    "cannot decode provenance search".to_owned(),
                ).details(
                    Json::empty().with("cause", Json::text("LIKE or GLOB pattern too complex")),
                ),
            );
        }
        let ghost all = self@.sessions;
        let ghost wanted = found(self@, query@);
        let mut out: Vec<Session> = Vec::new();
        let mut i: usize = 0;
        assert(all.take(0) =~= Seq::empty());
        assert(out.deep_view() =~= Seq::empty());
        while i < self.sessions.len()
            invariant
                i <= self.sessions@.len(),
                all == self@.sessions,
                wanted == found(self@, query@),
                out.deep_view() == tables::kept(all.take(i as int), wanted),
            decreases self.sessions@.len() - i,
        {
            let ghost before = out.deep_view();
            let row = &self.sessions[i];
            proof {
                assert(all.take(i as int + 1).drop_last() =~= all.take(i as int));
                assert(all.take(i as int + 1).last() == row@);
            }
            if is_mentioned(row.id.as_str(), query) || is_mentioned(row.actor_json.as_str(), query)
                || self.some_event_mentions(row.id.as_str(), query) {
                out.push(row.clone());
                assert(out.deep_view() =~= before.push(row@));
            }
            i = i + 1;
        }
        assert(all.take(i as int) =~= all);
        Ok(tables::put_in_order(&out))
    }

    /// Takes the content of a session away, at a given time.
    pub fn purge_provenance_at(&mut self, session_id: &str, now: &str) -> (r: Result<()>)
        ensures
            match purge_outcome(old(self)@, session_id@, now@) {
                Ok(state) => r is Ok && final(self)@ == state,
                Err(failure) => r is Err && r->Err_0@ == failure && final(self)@ == old(self)@,
            },
    {
        if records::find_session(&self.sessions, session_id).is_none() {
            return Err(
                JavelinError::invalid(text::concat2("unknown provenance session ", session_id)),
            );
        }
        let ghost before = self@;
        purge_payloads(&mut self.provenance_events, session_id);
        purge_attachments(&mut self.attachments, session_id);
        self.append_event_at(
            "provenance.purged",
            Some("provenance"),
            Some(session_id),
            Json::empty(),
            now,
        );
        assert(self@ =~= purge_outcome(before, session_id@, now@)->Ok_0);
        Ok(())
    }

    /// Takes the content of a session away.
    pub fn purge_provenance(&mut self, session_id: &str) -> (r: Result<()>)
        ensures
            exists|now: Text|
                clock::is_stamp(now)
                    && match #[trigger] purge_outcome(old(self)@, session_id@, now) {
                    Ok(state) => r is Ok && final(self)@ == state,
                    Err(failure) => r is Err && r->Err_0@ == failure && final(self)@ == old(self)@,
                },
    {
        let now = clock::now();
        self.purge_provenance_at(session_id, now.as_str())
    }

    fn has_unpurged_event(&self, session_id: &str) -> (r: bool)
        ensures
            r == tables::any(self@.provenance_events, unpurged_event(session_id@)),
    {
        let ghost all = self@.provenance_events;
        let ghost wanted = unpurged_event(session_id@);
        let mut i: usize = 0;
        while i < self.provenance_events.len()
            invariant
                i <= self.provenance_events@.len(),
                all == self@.provenance_events,
                wanted == unpurged_event(session_id@),
                forall|j: int| 0 <= j < i ==> !wanted(#[trigger] all[j]),
            decreases self.provenance_events@.len() - i,
        {
            let row = &self.provenance_events[i];
            assert(all[i as int] == row@);
            if text::same(row.session_id.as_str(), session_id) && !text::same(
                row.payload_json.as_str(),
                config::PURGED_PROVENANCE_PAYLOAD,
            ) {
                proof {
                    tables::lemma_any(all, wanted, i as int);
                }
                return true;
            }
            i = i + 1;
        }
        proof {
            tables::lemma_first_none(all, wanted);
        }
        false
    }

    fn has_unpurged_attachment(&self, session_id: &str) -> (r: bool)
        ensures
            r == tables::any(self@.attachments, unpurged_attachment(session_id@)),
    {
        let ghost all = self@.attachments;
        let ghost wanted = unpurged_attachment(session_id@);
        let mut i: usize = 0;
        while i < self.attachments.len()
            invariant
                i <= self.attachments@.len(),
                all == self@.attachments,
                wanted == unpurged_attachment(session_id@),
                forall|j: int| 0 <= j < i ==> !wanted(#[trigger] all[j]),
            decreases self.attachments@.len() - i,
        {
            let row = &self.attachments[i];
            assert(all[i as int] == row@);
            if text::same(row.session_id.as_str(), session_id) && !row.purged {
                proof {
                    tables::lemma_any(all, wanted, i as int);
                }
                return true;
            }
            i = i + 1;
        }
        proof {
            tables::lemma_first_none(all, wanted);
        }
        false
    }

    /// The sessions that started early enough and still have content, by their
    /// start.
    pub fn expired_provenance_sessions(&self, cutoff: &str) -> (r: Vec<Session>)
        ensures
            r.deep_view() == tables::in_order::<Session>(
                tables::kept(self@.sessions, expired(self@, cutoff@)),
            ),
    {
        let ghost all = self@.sessions;
        let ghost wanted = expired(self@, cutoff@);
        let mut out: Vec<Session> = Vec::new();
        let mut i: usize = 0;
        assert(all.take(0) =~= Seq::empty());
        assert(out.deep_view() =~= Seq::empty());
        while i < self.sessions.len()
            invariant
                i <= self.sessions@.len(),
                all == self@.sessions,
                wanted == expired(self@, cutoff@),
                out.deep_view() == tables::kept(all.take(i as int), wanted),
            decreases self.sessions@.len() - i,
        {
            let ghost before = out.deep_view();
            let row = &self.sessions[i];
            proof {
                assert(all.take(i as int + 1).drop_last() =~= all.take(i as int));
                assert(all.take(i as int + 1).last() == row@);
            }
            if !text::less(cutoff, row.started_at.as_str()) && (self.has_unpurged_event(
                row.id.as_str(),
            ) || self.has_unpurged_attachment(row.id.as_str())) {
                out.push(row.clone());
                assert(out.deep_view() =~= before.push(row@));
            }
            i = i + 1;
        }
        assert(all.take(i as int) =~= all);
        tables::put_in_order(&out)
    }

    /// The sessions behind a Contribution, in order.
    pub fn provenance_for_contribution(&self, contribution: &str) -> (r: Vec<ProvenanceLink>)
        ensures
            r.deep_view() == tables::in_order::<ProvenanceLink>(
                tables::kept(self@.contribution_provenance, link_of(contribution@)),
            ),
    {
        tables::put_in_order(&links_of(&self.contribution_provenance, contribution))
    }

    /// The sessions behind a Checkpoint, in order.
    pub fn provenance_for_checkpoint(&self, checkpoint: &str) -> (r: Vec<ProvenanceLink>)
        ensures
            r.deep_view() == tables::in_order::<ProvenanceLink>(
                tables::kept(self@.checkpoint_provenance, link_of(checkpoint@)),
            ),
    {
        tables::put_in_order(&links_of(&self.checkpoint_provenance, checkpoint))
    }
}

fn links_of(links: &Vec<ProvenanceLink>, owner: &str) -> (r: Vec<ProvenanceLink>)
    ensures
        r.deep_view() == tables::kept(links.deep_view(), link_of(owner@)),
{
    let ghost all = links.deep_view();
    let mut out: Vec<ProvenanceLink> = Vec::new();
    let mut i: usize = 0;
    assert(all.take(0) =~= Seq::empty());
    assert(out.deep_view() =~= Seq::empty());
    while i < links.len()
        invariant
            i <= links@.len(),
            all == links.deep_view(),
            out.deep_view() == tables::kept(all.take(i as int), link_of(owner@)),
        decreases links@.len() - i,
    {
        let ghost before = out.deep_view();
        let row = &links[i];
        proof {
            assert(all.take(i as int + 1).drop_last() =~= all.take(i as int));
            assert(all.take(i as int + 1).last() == row@);
        }
        if text::same(row.owner.as_str(), owner) {
            out.push(row.clone());
            assert(out.deep_view() =~= before.push(row@));
        }
        i = i + 1;
    }
    assert(all.take(i as int) =~= all);
    out
}

fn purge_payloads(rows: &mut Vec<ProvenanceEvent>, session_id: &str)
    ensures
        final(rows).deep_view() == tables::changed(
            old(rows).deep_view(),
            purge_payload(session_id@),
        ),
{
    let ghost all = rows.deep_view();
    let mut i: usize = 0;
    while i < rows.len()
        invariant
            i <= rows@.len(),
            rows@.len() == all.len(),
            forall|j: int|
                0 <= j < i ==> (#[trigger] rows@[j])@ == purge_payload(session_id@)(all[j]),
            forall|j: int| i <= j < all.len() ==> (#[trigger] rows@[j])@ == all[j],
        decreases rows@.len() - i,
    {
        let mut row = rows[i].clone();
        assert(row@ == all[i as int]);
        if text::same(row.session_id.as_str(), session_id) {
            row.payload_json = config::PURGED_PROVENANCE_PAYLOAD.to_owned();
        }
        assert(row@ == purge_payload(session_id@)(all[i as int]));
        rows.set(i, row);
        i = i + 1;
    }
    assert(rows.deep_view() =~= tables::changed(all, purge_payload(session_id@)));
}

fn purge_attachments(rows: &mut Vec<Attachment>, session_id: &str)
    ensures
        final(rows).deep_view() == tables::changed(
            old(rows).deep_view(),
            purge_attachment(session_id@),
        ),
{
    let ghost all = rows.deep_view();
    let mut i: usize = 0;
    while i < rows.len()
        invariant
            i <= rows@.len(),
            rows@.len() == all.len(),
            forall|j: int|
                0 <= j < i ==> (#[trigger] rows@[j])@ == purge_attachment(session_id@)(all[j]),
            forall|j: int| i <= j < all.len() ==> (#[trigger] rows@[j])@ == all[j],
        decreases rows@.len() - i,
    {
        let mut row = rows[i].clone();
        assert(row@ == all[i as int]);
        if text::same(row.session_id.as_str(), session_id) {
            row.object_id = None;
            row.purged = true;
        }
        assert(row@ == purge_attachment(session_id@)(all[i as int]));
        rows.set(i, row);
        i = i + 1;
    }
    assert(rows.deep_view() =~= tables::changed(all, purge_attachment(session_id@)));
}

/// After a purge nothing of a session's content is left, and a later purge
/// finds nothing to take. What was recorded, who did it and what it was linked
/// to stays.
pub proof fn law_purge_leaves_no_content(state: StoreState, session_id: Text, now: Text)
    requires
        tables::any(state.sessions, records::session_is(session_id)),
    ensures
        ({
            let after = purge_outcome(state, session_id, now)->Ok_0;
            &&& !tables::any(after.provenance_events, unpurged_event(session_id))
            &&& !tables::any(after.attachments, unpurged_attachment(session_id))
            &&& after.sessions == state.sessions
            &&& after.provenance_events.len() == state.provenance_events.len()
            &&& after.attachments.len() == state.attachments.len()
            &&& forall|i: int|
                0 <= i < state.provenance_events.len() ==> #[trigger] after.provenance_events[i]
                    == (ProvenanceEvent {
                    payload_json: after.provenance_events[i].payload_json,
                    ..state.provenance_events[i]
                })
            &&& forall|i: int|
                0 <= i < state.attachments.len() ==> #[trigger] after.attachments[i] == (
                Attachment {
                    object_id: after.attachments[i].object_id,
                    purged: after.attachments[i].purged,
                    ..state.attachments[i]
                })
            &&& after.checkpoint_provenance == state.checkpoint_provenance
            &&& after.contribution_provenance == state.contribution_provenance
            &&& was_purged(after, session_id)
        }),
{
    let after = purge_outcome(state, session_id, now)->Ok_0;
    tables::lemma_first_none(after.provenance_events, unpurged_event(session_id));
    tables::lemma_first_none(after.attachments, unpurged_attachment(session_id));
    tables::lemma_any(after.events, purge_event(session_id), after.events.len() - 1);
}

/// Nothing is added to a session that has ended or that was purged.
pub proof fn law_closed_session_stays_closed(
    state: StoreState,
    session_id: Text,
    event_type: Text,
    payload: Text,
    name: Text,
    media_type: Option<Text>,
    object_id: Text,
    id: Text,
    now: Text,
)
    requires
        closed_failure(state, session_id) is Some || was_purged(state, session_id),
    ensures
        attach_outcome(state, session_id, name, media_type, object_id, id, now) is Err,
        closed_failure(state, session_id) is Some ==> session_event_outcome(
            state,
            session_id,
            event_type,
            payload,
            id,
            now,
        ) is Err,
{
}

/// A session begins active, for its Layer and its actor, and ends once: then it
/// has an end and takes nothing more.
pub proof fn law_session_begins_and_ends(
    state: StoreState,
    layer_id: Option<Text>,
    actor_json: Text,
    id: Text,
    now: Text,
    i: int,
)
    ensures
        begin_outcome(state, layer_id, actor_json, id, now) matches Ok(after) ==> {
            let session = after.sessions.last();
            &&& after.sessions.drop_last() == state.sessions
            &&& session.id == id && session.layer_id == layer_id && session.actor_json
                == actor_json && session.status == "active"@ && session.started_at == now
                && session.ended_at is None
            &&& after.provenance_events == state.provenance_events
            &&& after.attachments == state.attachments
        },
        layer_id is Some && (forall|k: int|
            0 <= k < state.layers.len() ==> (#[trigger] state.layers[k]).id != layer_id->Some_0)
            ==> begin_outcome(state, layer_id, actor_json, id, now) is Err,
        0 <= i < state.sessions.len() && state.sessions[i].id == id && state.sessions[i].status
            == "active"@ && (forall|k: int|
            0 <= k < i ==> (#[trigger] state.sessions[k]).id != id) ==> {
            &&& end_outcome(state, id, now) is Ok
            &&& end_outcome(state, id, now)->Ok_0.sessions == state.sessions.update(
                i,
                Session { status: "ended"@, ended_at: Some(now), ..state.sessions[i] },
            )
        },
        (forall|k: int|
            0 <= k < state.sessions.len() && (#[trigger] state.sessions[k]).id == id
                ==> state.sessions[k].status != "active"@) ==> end_outcome(state, id, now) is Err,
{
    if let Ok(after) = begin_outcome(state, layer_id, actor_json, id, now) {
        assert(after.sessions.drop_last() =~= state.sessions);
    }
    if layer_id is Some {
        tables::lemma_first(state.layers, records::layer_is(layer_id->Some_0));
    }
    tables::lemma_first(state.sessions, active_session(id));
    if 0 <= i < state.sessions.len() && state.sessions[i].id == id && state.sessions[i].status
        == "active"@ && (forall|k: int| 0 <= k < i ==> (#[trigger] state.sessions[k]).id != id) {
        tables::lemma_first_at(state.sessions, active_session(id), i);
    }
}

/// What is recorded in a session carries the session's Layer and actor, and the
/// type and payload it was given; an attachment names the object, and is not
/// purged.
pub proof fn law_record_is_kept_as_given(
    state: StoreState,
    session_id: Text,
    event_type: Text,
    payload_json: Text,
    name: Text,
    media_type: Option<Text>,
    object_id: Text,
    id: Text,
    now: Text,
    i: int,
)
    requires
        0 <= i < state.sessions.len(),
        state.sessions[i].id == session_id,
        forall|k: int| 0 <= k < i ==> (#[trigger] state.sessions[k]).id != session_id,
    ensures
        session_event_outcome(state, session_id, event_type, payload_json, id, now) is Ok
            <==> state.sessions[i].status == "active"@,
        session_event_outcome(state, session_id, event_type, payload_json, id, now) matches Ok(
            after,
        ) ==> {
            let event = after.provenance_events.last();
            &&& after.provenance_events.drop_last() == state.provenance_events
            &&& event.event_id == id && event.session_id == session_id && event.layer_id
                == state.sessions[i].layer_id && event.actor_json == state.sessions[i].actor_json
                && event.event_type == event_type && event.payload_json == payload_json
                && event.timestamp == now
            &&& after.sessions == state.sessions
        },
        attach_outcome(state, session_id, name, media_type, object_id, id, now) matches Ok(after)
            ==> {
            let attachment = after.attachments.last();
            &&& after.attachments.drop_last() == state.attachments
            &&& attachment.id == id && attachment.session_id == session_id && attachment.object_id
                == Some(object_id) && attachment.name == name && attachment.media_type
                == media_type && !attachment.purged && attachment.created_at == now
            &&& state.sessions[i].status == "active"@
        },
{
    tables::lemma_first_at(state.sessions, records::session_is(session_id), i);
    if let Ok(after) = session_event_outcome(state, session_id, event_type, payload_json, id, now) {
        assert(after.provenance_events.drop_last() =~= state.provenance_events);
    }
    if let Ok(after) = attach_outcome(state, session_id, name, media_type, object_id, id, now) {
        assert(after.attachments.drop_last() =~= state.attachments);
    }
}

/// A purge takes the payloads and the attached objects of its session, and
/// nothing of any other.
pub proof fn law_purge_takes_one_session(state: StoreState, session_id: Text, now: Text)
    requires
        purge_outcome(state, session_id, now) is Ok,
    ensures
        ({
            let after = purge_outcome(state, session_id, now)->Ok_0;
            &&& forall|i: int|
                0 <= i < state.provenance_events.len() ==> #[trigger] after.provenance_events[i]
                    == (if state.provenance_events[i].session_id == session_id {
                    ProvenanceEvent {
                        payload_json: "{\"purged\":true}"@,
                        ..state.provenance_events[i]
                    }
                } else {
                    state.provenance_events[i]
                })
            &&& forall|i: int|
                0 <= i < state.attachments.len() ==> #[trigger] after.attachments[i] == (
                if state.attachments[i].session_id == session_id {
                    Attachment { object_id: None, purged: true, ..state.attachments[i] }
                } else {
                    state.attachments[i]
                })
        }),
{
}

/// A text without the separator is one part.
proof fn lemma_one_part(content: Text, separator: char)
    requires
        !content.contains(separator),
    ensures
        text::split(content, separator) == seq![content],
    decreases content.len(),
{
    if content.len() > 0 {
        let shorter = content.drop_last();
        assert(!shorter.contains(separator)) by {
            if shorter.contains(separator) {
                let i = choose|i: int| 0 <= i < shorter.len() && shorter[i] == separator;
                assert(content[i] == separator);
            }
        }
        lemma_one_part(shorter, separator);
        assert(content.last() == content[content.len() - 1]);
        assert(shorter.push(content.last()) =~= content);
        assert(text::split(content, separator) =~= seq![content]);
    } else {
        assert(content =~= Seq::empty());
    }
}

/// A search finds a text that holds the query somewhere, letter for letter but
/// for the case of ASCII letters; none of the query's characters is a wildcard.
pub proof fn law_search_goes_letter_by_letter(content: Text, query: Text)
    requires
        !content.contains('\0'),
        !query.contains('\0'),
    ensures
        mentions(content, query) <==> exists|i: int|
            0 <= i && i + query.len() <= content.len() && #[trigger] letters_match(
                content,
                query,
                i,
            ),
{
    lemma_one_part(content, '\0');
    assert(before_nul(content) == content);
    if mentions(content, query) {
        let i = choose|i: int|
            0 <= i && i + query.len() <= content.len() && text::same_but_case(
                #[trigger] content.subrange(i, i + query.len()),
                query,
            );
        let part = content.subrange(i, i + query.len());
        assert forall|k: int| 0 <= k < query.len() implies #[trigger] text::ascii_lower(
            content[i + k],
        ) == text::ascii_lower(query[k]) by {
            assert(part.map_values(|c: char| text::ascii_lower(c))[k] == text::ascii_lower(
                content[i + k],
            ));
            assert(query.map_values(|c: char| text::ascii_lower(c))[k] == text::ascii_lower(
                query[k],
            ));
        }
        assert(letters_match(content, query, i));
    }
    if exists|i: int|
        0 <= i && i + query.len() <= content.len() && #[trigger] letters_match(content, query, i) {
        let i = choose|i: int|
            0 <= i && i + query.len() <= content.len() && #[trigger] letters_match(
                content,
                query,
                i,
            );
        let part = content.subrange(i, i + query.len());
        let small = part.map_values(|c: char| text::ascii_lower(c));
        let wanted = query.map_values(|c: char| text::ascii_lower(c));
        assert forall|k: int| 0 <= k < query.len() implies small[k] == wanted[k] by {
            assert(small[k] == text::ascii_lower(content[i + k]));
        }
        assert(small =~= wanted);
        assert(text::same_but_case(content.subrange(i, i + query.len()), query));
    }
}

/// The query stands in the text at a place, but for the case of ASCII letters.
pub open spec fn letters_match(content: Text, query: Text, i: int) -> bool {
    forall|k: int|
        0 <= k < query.len() ==> #[trigger] text::ascii_lower(content[i + k]) == text::ascii_lower(
            query[k],
        )
}

/// A search gives the sessions whose identity or actor it finds, or one of whose
/// events it finds by payload or type, and no others.
pub proof fn law_search_looks_everywhere(state: StoreState, query: Text, session: Session<Text>)
    requires
        search_outcome(state, query) is Ok,
    ensures
        search_outcome(state, query)->Ok_0.contains(session) <==> state.sessions.contains(session)
            && (mentions(session.id, query) || mentions(session.actor_json, query) || exists|i: int|
            0 <= i < state.provenance_events.len() && (#[trigger]
            state.provenance_events[i]).session_id == session.id && (mentions(
                state.provenance_events[i].payload_json,
                query,
            ) || mentions(state.provenance_events[i].event_type, query))),
{
    let kept = tables::kept(state.sessions, found(state, query));
    tables::lemma_kept(state.sessions, found(state, query));
    tables::lemma_in_order_rows::<Session>(kept);
    tables::lemma_first(state.provenance_events, event_mentions(session.id, query));
    if exists|i: int|
        0 <= i < state.provenance_events.len() && (#[trigger]
        state.provenance_events[i]).session_id == session.id && (mentions(
            state.provenance_events[i].payload_json,
            query,
        ) || mentions(state.provenance_events[i].event_type, query)) {
        let i = choose|i: int|
            0 <= i < state.provenance_events.len() && (#[trigger]
            state.provenance_events[i]).session_id == session.id && (mentions(
                state.provenance_events[i].payload_json,
                query,
            ) || mentions(state.provenance_events[i].event_type, query));
        assert(event_mentions(session.id, query)(state.provenance_events[i]));
    }
}

/// The content of a session is due to go where the session started at the cutoff
/// or before it and some payload or attachment is left.
pub proof fn law_old_content_is_due(state: StoreState, cutoff: Text, session: Session<Text>)
    ensures
        expired(state, cutoff)(session) <==> !text::text_less(cutoff, session.started_at) && (
        (exists|i: int|
            0 <= i < state.provenance_events.len() && (#[trigger]
            state.provenance_events[i]).session_id == session.id
                && state.provenance_events[i].payload_json != "{\"purged\":true}"@) || (exists|
            i: int,
        |
            0 <= i < state.attachments.len() && (#[trigger] state.attachments[i]).session_id
                == session.id && !state.attachments[i].purged)),
{
    tables::lemma_first(state.provenance_events, unpurged_event(session.id));
    tables::lemma_first(state.attachments, unpurged_attachment(session.id));
    if exists|i: int|
        0 <= i < state.provenance_events.len() && (#[trigger]
        state.provenance_events[i]).session_id == session.id
            && state.provenance_events[i].payload_json != "{\"purged\":true}"@ {
        let i = choose|i: int|
            0 <= i < state.provenance_events.len() && (#[trigger]
            state.provenance_events[i]).session_id == session.id
                && state.provenance_events[i].payload_json != "{\"purged\":true}"@;
        assert(unpurged_event(session.id)(state.provenance_events[i]));
    }
    if exists|i: int|
        0 <= i < state.attachments.len() && (#[trigger] state.attachments[i]).session_id
            == session.id && !state.attachments[i].purged {
        let i = choose|i: int|
            0 <= i < state.attachments.len() && (#[trigger] state.attachments[i]).session_id
                == session.id && !state.attachments[i].purged;
        assert(unpurged_attachment(session.id)(state.attachments[i]));
    }
}

/// A query without characters that have a meaning in the store's own patterns is
/// its own pattern; in any other each such character is escaped.
pub proof fn law_wildcards_are_escaped(query: Text, c: char)
    ensures
        c == '\\' || c == '%' || c == '_' ==> escaped(query.push(c)) == escaped(query) + seq![
            '\\',
            c,
        ],
        c != '\\' && c != '%' && c != '_' ==> escaped(query.push(c)) == escaped(query).push(c),
        escaped(Seq::empty()) == Seq::<char>::empty(),
        too_complex(query) <==> encode_utf8(seq!['%'] + escaped(query) + seq!['%']).len() > 50000,
{
    assert(query.push(c).drop_last() =~= query);
    assert(escaped(query).push('\\').push(c) =~= escaped(query) + seq!['\\', c]);
}

/// What is owed to sessions: one can begin wherever its Layer is known or it has
/// none, a file can be attached to every active session that was not purged, any
/// known session can be purged, and a search fails only for a pattern that is
/// too long.
pub proof fn law_sessions_take_what_is_owed(
    state: StoreState,
    layer_id: Option<Text>,
    actor_json: Text,
    session_id: Text,
    name: Text,
    media_type: Option<Text>,
    object_id: Text,
    query: Text,
    id: Text,
    now: Text,
)
    ensures
        begin_outcome(state, layer_id, actor_json, id, now) is Ok <==> layer_id is None || exists|
            k: int,
        |
            0 <= k < state.layers.len() && (#[trigger] state.layers[k]).id == layer_id->Some_0,
        attach_outcome(state, session_id, name, media_type, object_id, id, now) is Ok <==> {
            let session = tables::find(state.sessions, records::session_is(session_id));
            &&& session is Some
            &&& session->Some_0.status == "active"@
            &&& forall|k: int|
                0 <= k < state.events.len() ==> !((#[trigger] state.events[k]).event_type
                    == "provenance.purged"@ && state.events[k].subject_id == Some(session_id))
        },
        purge_outcome(state, session_id, now) is Ok <==> exists|k: int|
            0 <= k < state.sessions.len() && (#[trigger] state.sessions[k]).id == session_id,
        search_outcome(state, query) is Ok <==> state.sessions.len() == 0 || encode_utf8(
            seq!['%'] + escaped(query) + seq!['%'],
        ).len() <= 50000,
{
    if layer_id is Some {
        tables::lemma_first(state.layers, records::layer_is(layer_id->Some_0));
    }
    tables::lemma_first(state.sessions, records::session_is(session_id));
    tables::lemma_first(state.events, purge_event(session_id));
    if tables::any(state.events, purge_event(session_id)) {
        let k = tables::first(state.events, purge_event(session_id))->Some_0;
        assert(state.events[k].event_type == "provenance.purged"@);
    }
    if exists|k: int|
        0 <= k < state.events.len() && (#[trigger] state.events[k]).event_type
            == "provenance.purged"@ && state.events[k].subject_id == Some(session_id) {
        let k = choose|k: int|
            0 <= k < state.events.len() && (#[trigger] state.events[k]).event_type
                == "provenance.purged"@ && state.events[k].subject_id == Some(session_id);
        assert(purge_event(session_id)(state.events[k]));
    }
}

} // verus!
