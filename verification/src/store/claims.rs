//! Passive Claims: who says to be working where.
use vstd::prelude::*;
use crate::clock;
use crate::error::{Failure, JavelinError, Result};
use crate::json::{Json, JsonValue};
use crate::paths;
use crate::records::Claim;
use crate::store;
use crate::store::rows;
use crate::store::{Store, StoreState};
use crate::tables;
use crate::text;
use crate::text::Text;

verus! {

/// A Claim whose time is over and which nobody released.
pub open spec fn due(cutoff: Text) -> spec_fn(Claim<Text>) -> bool {
    |row: Claim<Text>| row.released_at is None && !text::text_less(cutoff, row.expires_at)
}

/// A Claim that holds at a time.
pub open spec fn held(now: Text) -> spec_fn(Claim<Text>) -> bool {
    |row: Claim<Text>| row.released_at is None && text::text_less(now, row.expires_at)
}

/// The store with one more Claim.
pub open spec fn with_claim(
    state: StoreState,
    layer_id: Text,
    resource: Text,
    id: Text,
    expires: Text,
    now: Text,
) -> StoreState {
    StoreState {
        claims: state.claims.push(
            Claim {
                id,
                layer_id,
                resource,
                kind: "path"@,
                expires_at: expires,
                released_at: None,
                created_at: now,
            },
        ),
        ..state
    }.with_event(
        "claim.created"@,
        Some("claim"@),
        Some(id),
        JsonValue::object().field("layer_id"@, JsonValue::Text(layer_id)).field(
            "resource"@,
            JsonValue::Text(resource),
        ).field("expires_at"@, JsonValue::Text(expires)),
        now,
    )
}

/// What creating a Claim gives.
pub open spec fn create_claim_outcome(
    state: StoreState,
    layer_id: Text,
    resource: Text,
    id: Text,
    expires: Text,
    now: Text,
) -> std::result::Result<StoreState, Failure> {
    match store::layer_outcome(state, layer_id) {
        Err(failure) => Err(failure),
        Ok(layer) => Ok(with_claim(state, layer.id, resource, id, expires, now)),
    }
}

/// A Claim that nobody released.
pub open spec fn unreleased(id: Text) -> spec_fn(Claim<Text>) -> bool {
    |row: Claim<Text>| row.id == id && row.released_at is None
}

/// What renewing a Claim gives.
pub open spec fn renew_outcome(
    state: StoreState,
    id: Text,
    expires: Text,
    now: Text,
) -> std::result::Result<StoreState, Failure> {
    match tables::first(state.claims, unreleased(id)) {
        None => Err(Failure::invalid("Claim is unknown or released"@)),
        Some(i) => Ok(
            StoreState {
                claims: state.claims.update(i, Claim { expires_at: expires, ..state.claims[i] }),
                ..state
            }.with_event(
                "claim.renewed"@,
                Some("claim"@),
                Some(id),
                JsonValue::object().field("expires_at"@, JsonValue::Text(expires)),
                now,
            ),
        ),
    }
}

/// What releasing a Claim gives.
pub open spec fn release_outcome(state: StoreState, id: Text, now: Text) -> std::result::Result<
    StoreState,
    Failure,
> {
    match tables::first(state.claims, unreleased(id)) {
        None => Err(Failure::invalid("Claim is unknown or released"@)),
        Some(i) => Ok(
            StoreState {
                claims: state.claims.update(i, Claim { released_at: Some(now), ..state.claims[i] }),
                ..state
            }.with_event(
                "claim.released"@,
                Some("claim"@),
                Some(id),
                JsonValue::object(),
                now,
            ),
        ),
    }
}

/// How long a Claim holds where no time is asked for, in seconds.
pub const CLAIM_SECONDS: u64 = 3600;

/// The failure of a time that the calendar does not reach.
pub open spec fn out_of_calendar() -> Failure {
    Failure::invalid("Claim duration is too large"@)
}

/// The end of a Claim that is made or renewed at a time for a number of seconds,
/// if the calendar reaches it.
pub open spec fn claim_end(present: Text, seconds: u64) -> Option<Text> {
    if seconds <= i64::MAX {
        clock::later(present, seconds as int)
    } else {
        None
    }
}

/// What creating a Claim for a number of seconds gives.
pub open spec fn claim_for_outcome(
    state: StoreState,
    layer_id: Text,
    resource: Text,
    seconds: u64,
    id: Text,
    now: Text,
) -> std::result::Result<StoreState, Failure> {
    match (store::layer_outcome(state, layer_id), claim_end(now, seconds)) {
        (Err(failure), _) => Err(failure),
        (Ok(_), None) => Err(out_of_calendar()),
        (Ok(_), Some(expires)) => create_claim_outcome(
            state,
            layer_id,
            resource,
            id,
            expires,
            now,
        ),
    }
}

/// What renewing a Claim for a number of seconds gives: its new end.
pub open spec fn renew_for_outcome(
    state: StoreState,
    id: Text,
    seconds: u64,
    now: Text,
) -> std::result::Result<(StoreState, Text), Failure> {
    match claim_end(now, seconds) {
        None => Err(out_of_calendar()),
        Some(expires) => match renew_outcome(state, id, expires, now) {
            Err(failure) => Err(failure),
            Ok(after) => Ok((after, expires)),
        },
    }
}

/// The end of a Claim, given the time that the calendar reaches, if it does.
pub fn expiry_of(time: Option<String>) -> (r: Result<String>)
    ensures
        match time {
            Some(end) => r == Ok::<String, JavelinError>(end),
            None => r is Err && r->Err_0@ == out_of_calendar(),
        },
{
    match time {
        Some(end) => Ok(end),
        None => Err(JavelinError::invalid("Claim duration is too large".to_owned())),
    }
}

impl Store {
    /// Releases the Claims whose time is over and counts them.
    pub fn expire_claims(&mut self, cutoff: &str) -> (r: usize)
        ensures
            final(self)@ == (StoreState {
                claims: tables::changed(
                    old(self)@.claims,
                    rows::expire_claims_change(cutoff@),
                ),
                ..old(self)@
            }),
            r == tables::count(old(self)@.claims, due(cutoff@)),
    {
        let ghost all = self@.claims;
        let mut count: usize = 0;
        let mut i: usize = 0;
        assert(all.take(0) =~= Seq::empty());
        while i < self.claims.len()
            invariant
                i <= self.claims@.len(),
                count <= i,
                all == self@.claims,
                count == tables::count(all.take(i as int), due(cutoff@)),
            decreases self.claims@.len() - i,
        {
            proof {
                assert(all.take(i as int + 1).drop_last() =~= all.take(i as int));
                assert(all.take(i as int + 1).last() == self.claims@[i as int]@);
            }
            if self.claims[i].released_at.is_none() && !text::less(
                cutoff,
                self.claims[i].expires_at.as_str(),
            ) {
                count = count + 1;
            }
            i = i + 1;
        }
        assert(all.take(i as int) =~= all);
        rows::expire_claims(&mut self.claims, cutoff);
        count
    }

    /// Claims a resource for a Layer with a given identity and times.
    pub fn create_claim_at(
        &mut self,
        layer_id: &str,
        resource: &str,
        id: &str,
        expires: &str,
        now: &str,
    ) -> (r: Result<()>)
        ensures
            match create_claim_outcome(
                old(self)@,
                layer_id@,
                resource@,
                id@,
                expires@,
                now@,
            ) {
                Ok(state) => r is Ok && final(self)@ == state,
                Err(failure) => r is Err && r->Err_0@ == failure && final(self)@ == old(self)@,
            },
    {
        let layer = self.layer(layer_id)?;
        let ghost before = self@;
        self.claims.push(
            Claim {
                id: id.to_owned(),
                layer_id: layer.id.clone(),
                resource: resource.to_owned(),
                kind: "path".to_owned(),
                expires_at: expires.to_owned(),
                released_at: None,
                created_at: now.to_owned(),
            },
        );
        let payload = Json::empty().with("layer_id", Json::text(layer.id.as_str())).with(
            "resource",
            Json::text(resource),
        ).with("expires_at", Json::text(expires));
        self.append_event_at("claim.created", Some("claim"), Some(id), payload, now);
        assert(self@ =~= with_claim(before, layer@.id, resource@, id@, expires@, now@));
        Ok(())
    }

    /// Claims a resource for a Layer at a given time, for a number of seconds.
    pub fn create_claim_for(
        &mut self,
        layer_id: &str,
        resource: &str,
        seconds: u64,
        id: &str,
        now: &str,
    ) -> (r: Result<()>)
        ensures
            match claim_for_outcome(old(self)@, layer_id@, resource@, seconds, id@, now@) {
                Ok(state) => r is Ok && final(self)@ == state,
                Err(failure) => r is Err && r->Err_0@ == failure && final(self)@ == old(self)@,
            },
    {
        self.layer(layer_id)?;
        let expires = expiry(now, seconds)?;
        self.create_claim_at(layer_id, resource, id, expires.as_str(), now)
    }

    /// Claims a resource for a Layer, for a number of seconds.
    pub fn create_claim(&mut self, layer_id: &str, resource: &str, seconds: u64) -> (r: Result<
        String,
    >)
        ensures
            exists|id: Text, now: Text|
                clock::is_stamp(now) && clock::is_fresh(id) && match #[trigger] claim_for_outcome(
                    old(self)@,
                    layer_id@,
                    resource@,
                    seconds,
                    id,
                    now,
                ) {
                    Ok(state) => r is Ok && r->Ok_0@ == id && final(self)@ == state,
                    Err(failure) => r is Err && r->Err_0@ == failure && final(self)@ == old(self)@,
                },
    {
        let id = clock::new_id();
        let now = clock::now();
        self.create_claim_for(layer_id, resource, seconds, id.as_str(), now.as_str())?;
        Ok(id)
    }

    /// The Claims that hold at a time, by the time of their creation.
    pub fn claims_at(&self, now: &str) -> (r: Vec<Claim>)
        ensures
            r.deep_view() == tables::in_order::<Claim>(tables::kept(self@.claims, held(now@))),
    {
        let ghost all = self@.claims;
        let mut out: Vec<Claim> = Vec::new();
        let mut i: usize = 0;
        assert(all.take(0) =~= Seq::empty());
        assert(out.deep_view() =~= Seq::empty());
        while i < self.claims.len()
            invariant
                i <= self.claims@.len(),
                all == self@.claims,
                out.deep_view() == tables::kept(all.take(i as int), held(now@)),
            decreases self.claims@.len() - i,
        {
            let ghost before = out.deep_view();
            let row = &self.claims[i];
            proof {
                assert(all.take(i as int + 1).drop_last() =~= all.take(i as int));
                assert(all.take(i as int + 1).last() == row@);
            }
            if row.released_at.is_none() && text::less(now, row.expires_at.as_str()) {
                out.push(row.clone());
                assert(out.deep_view() =~= before.push(row@));
            }
            i = i + 1;
        }
        assert(all.take(i as int) =~= all);
        tables::put_in_order(&out)
    }

    /// The Claims that hold now.
    pub fn claims(&self) -> (r: Vec<Claim>)
        ensures
            exists|now: Text|
                clock::is_stamp(now) && r.deep_view() == tables::in_order::<Claim>(
                    tables::kept(self@.claims, #[trigger] held(now)),
                ),
    {
        let now = clock::now();
        self.claims_at(now.as_str())
    }

    fn unreleased_place(&self, id: &str) -> (r: Option<usize>)
        ensures
            match r {
                Some(i) => i < self.claims@.len() && tables::first(self@.claims, unreleased(id@))
                    == Some(i as int),
                None => tables::first(self@.claims, unreleased(id@)) is None,
            },
    {
        let ghost all = self@.claims;
        let mut i: usize = 0;
        while i < self.claims.len()
            invariant
                i <= self.claims@.len(),
                all == self@.claims,
                forall|j: int| 0 <= j < i ==> !unreleased(id@)(#[trigger] all[j]),
            decreases self.claims@.len() - i,
        {
            assert(all[i as int] == self.claims@[i as int]@);
            if text::same(self.claims[i].id.as_str(), id) && self.claims[i].released_at.is_none() {
                proof {
                    tables::lemma_first_at(all, unreleased(id@), i as int);
                }
                return Some(i);
            }
            i = i + 1;
        }
        proof {
            tables::lemma_first_none(all, unreleased(id@));
        }
        None
    }

    /// Renews a Claim to a given time.
    pub fn renew_claim_at(&mut self, id: &str, expires: &str, now: &str) -> (r: Result<()>)
        ensures
            match renew_outcome(old(self)@, id@, expires@, now@) {
                Ok(state) => r is Ok && final(self)@ == state,
                Err(failure) => r is Err && r->Err_0@ == failure && final(self)@ == old(self)@,
            },
    {
        let ghost before = self@;
        match self.unreleased_place(id) {
            None => {
                return Err(JavelinError::invalid("Claim is unknown or released".to_owned()));
            },
            Some(i) => {
                let mut row = self.claims[i].clone();
                row.expires_at = expires.to_owned();
                self.claims.set(i, row);
            },
        }
        let payload = Json::empty().with("expires_at", Json::text(expires));
        self.append_event_at("claim.renewed", Some("claim"), Some(id), payload, now);
        assert(self@ =~= renew_outcome(before, id@, expires@, now@)->Ok_0);
        Ok(())
    }

    /// Renews a Claim at a given time for a number of seconds and gives its new
    /// end.
    pub fn renew_claim_for(&mut self, id: &str, seconds: u64, now: &str) -> (r: Result<String>)
        ensures
            match renew_for_outcome(old(self)@, id@, seconds, now@) {
                Ok((state, expires)) => r is Ok && r->Ok_0@ == expires && final(self)@ == state,
                Err(failure) => r is Err && r->Err_0@ == failure && final(self)@ == old(self)@,
            },
    {
        let expires = expiry(now, seconds)?;
        self.renew_claim_at(id, expires.as_str(), now)?;
        Ok(expires)
    }

    /// Renews a Claim for a number of seconds and gives its new end.
    pub fn renew_claim(&mut self, id: &str, seconds: u64) -> (r: Result<String>)
        ensures
            exists|now: Text|
                clock::is_stamp(now)
                    && match #[trigger] renew_for_outcome(old(self)@, id@, seconds, now) {
                    Ok((state, expires)) => r is Ok && r->Ok_0@ == expires && final(self)@ == state,
                    Err(failure) => r is Err && r->Err_0@ == failure && final(self)@ == old(self)@,
                },
    {
        let now = clock::now();
        self.renew_claim_for(id, seconds, now.as_str())
    }

    /// Releases a Claim at a given time.
    pub fn release_claim_at(&mut self, id: &str, now: &str) -> (r: Result<()>)
        ensures
            match release_outcome(old(self)@, id@, now@) {
                Ok(state) => r is Ok && final(self)@ == state,
                Err(failure) => r is Err && r->Err_0@ == failure && final(self)@ == old(self)@,
            },
    {
        let ghost before = self@;
        match self.unreleased_place(id) {
            None => {
                return Err(JavelinError::invalid("Claim is unknown or released".to_owned()));
            },
            Some(i) => {
                let mut row = self.claims[i].clone();
                row.released_at = Some(now.to_owned());
                self.claims.set(i, row);
            },
        }
        self.append_event_at("claim.released", Some("claim"), Some(id), Json::empty(), now);
        assert(self@ =~= release_outcome(before, id@, now@)->Ok_0);
        Ok(())
    }

    /// Releases a Claim.
    pub fn release_claim(&mut self, id: &str) -> (r: Result<()>)
        ensures
            exists|now: Text|
                clock::is_stamp(now) && match #[trigger] release_outcome(old(self)@, id@, now) {
                    Ok(state) => r is Ok && final(self)@ == state,
                    Err(failure) => r is Err && r->Err_0@ == failure && final(self)@ == old(self)@,
                },
    {
        let now = clock::now();
        self.release_claim_at(id, now.as_str())
    }
}

/// The end of a Claim that is made or renewed at a time.
pub fn expiry(present: &str, seconds: u64) -> (r: Result<String>)
    ensures
        match claim_end(present@, seconds) {
            Some(end) => r is Ok && r->Ok_0@ == end,
            None => r is Err && r->Err_0@ == out_of_calendar(),
        },
{
    if seconds > 9223372036854775807 {
        return expiry_of(None);
    }
    expiry_of(clock::time_later(present, seconds as i64))
}

/// The text before `/**` at its end.
pub open spec fn subtree_of(resource: Text) -> Option<Text> {
    let n = resource.len() - 3;
    if n >= 0 && resource.skip(n) == "/**"@ {
        Some(resource.take(n))
    } else {
        None
    }
}

fn subtree(resource: &str) -> (r: Option<String>)
    ensures
        r.deep_view() == subtree_of(resource@),
{
    let chars = text::chars_of(resource);
    let n: usize = chars.len();
    if n < 3 {
        return None;
    }
    proof {
        reveal_strlit("/**");
    }
    if chars[n - 3] == '/' && chars[n - 2] == '*' && chars[n - 1] == '*' {
        let start = resource.substring_char(0, n - 3);
        proof {
            assert(resource@.skip(n - 3) =~= "/**"@);
            assert(resource@.subrange(0, n - 3) =~= resource@.take(n - 3));
        }
        Some(start.to_owned())
    } else {
        proof {
            let tail = resource@.skip(n - 3);
            assert(tail[0] == chars@[n - 3] && tail[1] == chars@[n - 2] && tail[2] == chars@[n
                - 1]);
        }
        None
    }
}

/// Why a resource cannot be claimed, if it cannot: a Claim is of everything, of
/// a path, or of a path and all below it.
pub open spec fn resource_failure(resource: Text) -> Option<Failure> {
    if resource == "**"@ {
        None
    } else {
        let path = match subtree_of(resource) {
            Some(prefix) => prefix,
            None => resource,
        };
        if path.contains('*') || path.contains('?') || path.contains('[') || path.contains(']') {
            Some(
                Failure::invalid(
                    "Claim must be an exact path, **, or an exact path ending in /**"@,
                ),
            )
        } else {
            paths::path_failure(path)
        }
    }
}

/// Accepts a resource exactly when it can be claimed.
pub fn validate_claim_resource(resource: &str) -> (r: Result<()>)
    ensures
        match resource_failure(resource@) {
            Some(failure) => r is Err && r->Err_0@ == failure,
            None => r is Ok,
        },
{
    if text::same(resource, "**") {
        return Ok(());
    }
    let path = match subtree(resource) {
        Some(prefix) => prefix,
        None => resource.to_owned(),
    };
    if text::has_char(path.as_str(), '*') || text::has_char(path.as_str(), '?') || text::has_char(
        path.as_str(),
        '[',
    ) || text::has_char(path.as_str(), ']') {
        return Err(
            JavelinError::invalid(
                "Claim must be an exact path, **, or an exact path ending in /**".to_owned(),
            ),
        );
    }
    paths::validate_relative(path.as_str())
}

/// What claiming resources one after the other gives: the first that cannot be
/// claimed ends it, and those before it stay claimed.
pub open spec fn create_claims_outcome(
    state: StoreState,
    layer_id: Text,
    resources: Seq<Text>,
    ids: Seq<Text>,
    expires: Text,
    now: Text,
) -> (StoreState, Option<Failure>)
    decreases resources.len(),
{
    if resources.len() == 0 {
        (state, None)
    } else {
        let (before, failed) = create_claims_outcome(
            state,
            layer_id,
            resources.drop_last(),
            ids,
            expires,
            now,
        );
        if failed is Some {
            (before, failed)
        } else {
            match resource_failure(resources.last()) {
                Some(failure) => (before, Some(failure)),
                None => match create_claim_outcome(
                    before,
                    layer_id,
                    resources.last(),
                    ids[resources.len() - 1],
                    expires,
                    now,
                ) {
                    Err(failure) => (before, Some(failure)),
                    Ok(after) => (after, None),
                },
            }
        }
    }
}

/// What claiming resources one after the other for a number of seconds gives. A
/// time that the calendar does not reach shows at the first of them.
pub open spec fn claims_for_outcome(
    state: StoreState,
    layer_id: Text,
    resources: Seq<Text>,
    seconds: u64,
    ids: Seq<Text>,
    now: Text,
) -> (StoreState, Option<Failure>) {
    match claim_end(now, seconds) {
        Some(expires) => create_claims_outcome(state, layer_id, resources, ids, expires, now),
        None => (
            state,
            if resources.len() == 0 {
                None
            } else if resource_failure(resources[0]) is Some {
                resource_failure(resources[0])
            } else {
                match store::layer_outcome(state, layer_id) {
                    Err(failure) => Some(failure),
                    Ok(_) => Some(out_of_calendar()),
                }
            },
        ),
    }
}

proof fn lemma_claim_failure_stays(
    state: StoreState,
    layer_id: Text,
    resources: Seq<Text>,
    ids: Seq<Text>,
    expires: Text,
    now: Text,
    i: int,
)
    requires
        0 <= i <= resources.len(),
        create_claims_outcome(state, layer_id, resources.take(i), ids, expires, now).1 is Some,
    ensures
        create_claims_outcome(state, layer_id, resources, ids, expires, now)
            == create_claims_outcome(state, layer_id, resources.take(i), ids, expires, now),
    decreases resources.len(),
{
    if i < resources.len() {
        assert(resources.drop_last().take(i) =~= resources.take(i));
        lemma_claim_failure_stays(state, layer_id, resources.drop_last(), ids, expires, now, i);
    } else {
        assert(resources.take(i) =~= resources);
    }
}

impl Store {
    /// Claims resources for a Layer one after the other, with given identities
    /// and times.
    pub fn create_claims_at(
        &mut self,
        layer_id: &str,
        resources: &Vec<String>,
        ids: &Vec<String>,
        expires: &str,
        now: &str,
    ) -> (r: Result<()>)
        requires
            ids@.len() == resources@.len(),
        ensures
            ({
                let (state, failed) = create_claims_outcome(
                    old(self)@,
                    layer_id@,
                    resources.deep_view(),
                    ids.deep_view(),
                    expires@,
                    now@,
                );
                final(self)@ == state && match failed {
                    Some(failure) => r is Err && r->Err_0@ == failure,
                    None => r is Ok,
                }
            }),
    {
        let ghost all = resources.deep_view();
        let ghost given = ids.deep_view();
        let ghost before = self@;
        let mut i: usize = 0;
        assert(all.take(0) =~= Seq::empty());
        while i < resources.len()
            invariant
                i <= resources@.len(),
                ids@.len() == resources@.len(),
                all == resources.deep_view(),
                given == ids.deep_view(),
                before == old(self)@,
                create_claims_outcome(before, layer_id@, all.take(i as int), given, expires@, now@)
                    == (self@, None::<Failure>),
            decreases resources@.len() - i,
        {
            let ghost next = all.take(i + 1);
            proof {
                assert(next.drop_last() =~= all.take(i as int));
                assert(next.last() == resources@[i as int]@);
                assert(given[i as int] == ids@[i as int]@);
                if create_claims_outcome(before, layer_id@, next, given, expires@, now@).1 is Some {
                    lemma_claim_failure_stays(
                        before,
                        layer_id@,
                        all,
                        given,
                        expires@,
                        now@,
                        i + 1,
                    );
                }
            }
            let resource = resources[i].as_str();
            validate_claim_resource(resource)?;
            self.create_claim_at(layer_id, resource, ids[i].as_str(), expires, now)?;
            i = i + 1;
        }
        assert(all.take(i as int) =~= all);
        Ok(())
    }

    /// Claims resources for a Layer one after the other at a given time, for a
    /// number of seconds.
    pub fn create_claims_for(
        &mut self,
        layer_id: &str,
        resources: &Vec<String>,
        seconds: u64,
        ids: &Vec<String>,
        now: &str,
    ) -> (r: Result<()>)
        requires
            ids@.len() == resources@.len(),
        ensures
            ({
                let (state, failed) = claims_for_outcome(
                    old(self)@,
                    layer_id@,
                    resources.deep_view(),
                    seconds,
                    ids.deep_view(),
                    now@,
                );
                final(self)@ == state && match failed {
                    Some(failure) => r is Err && r->Err_0@ == failure,
                    None => r is Ok,
                }
            }),
    {
        match expiry(now, seconds) {
            Ok(end) => self.create_claims_at(layer_id, resources, ids, end.as_str(), now),
            Err(error) => {
                if resources.len() == 0 {
                    return Ok(());
                }
                assert(resources.deep_view()[0] == resources@[0]@);
                validate_claim_resource(resources[0].as_str())?;
                self.layer(layer_id)?;
                Err(error)
            },
        }
    }

    /// Claims resources for a Layer one after the other, for a number of
    /// seconds.
    pub fn create_claims(&mut self, layer_id: &str, resources: &Vec<String>, seconds: u64) -> (r:
        Result<()>)
        ensures
            exists|ids: Seq<Text>, now: Text|
                {
                    let (state, failed) = #[trigger] claims_for_outcome(
                        old(self)@,
                        layer_id@,
                        resources.deep_view(),
                        seconds,
                        ids,
                        now,
                    );
                    ids.len() == resources@.len() && clock::are_fresh(ids) && clock::is_stamp(now)
                        && final(self)@ == state && match failed {
                        Some(failure) => r is Err && r->Err_0@ == failure,
                        None => r is Ok,
                    }
                },
    {
        let ids = clock::new_ids(resources.len());
        let now = clock::now();
        let r = self.create_claims_for(layer_id, resources, seconds, &ids, now.as_str());
        assert(ids.deep_view().len() == resources@.len());
        r
    }
}

/// A subtree resource covers another: the directory itself or what is below.
pub open spec fn covers(left: Text, right: Text) -> bool {
    match subtree_of(left) {
        Some(prefix) => right == prefix || text::has_prefix(right, prefix + "/"@),
        None => false,
    }
}

/// Two claimed resources have paths in common.
pub open spec fn overlap(left: Text, right: Text) -> bool {
    left == right || left == "**"@ || right == "**"@ || covers(left, right) || covers(right, left)
}

fn is_covered(left: &str, right: &str) -> (r: bool)
    ensures
        r == covers(left@, right@),
{
    match subtree(left) {
        Some(prefix) => text::same(right, prefix.as_str()) || text::starts_with(
            right,
            text::concat2(prefix.as_str(), "/").as_str(),
        ),
        None => false,
    }
}

/// Whether two claimed resources have paths in common.
pub fn claim_overlap(left: &str, right: &str) -> (r: bool)
    ensures
        r == overlap(left@, right@),
{
    text::same(left, right) || text::same(left, "**") || text::same(right, "**") || is_covered(
        left,
        right,
    ) || is_covered(right, left)
}

/// Overlap does not depend on which Claim comes first.
pub proof fn law_overlap_is_symmetric(left: Text, right: Text)
    ensures
        overlap(left, right) == overlap(right, left),
{
}

/// Two of the Claims overlap.
pub open spec fn clash_at(claims: Seq<Claim<Text>>, i: int, j: int) -> bool {
    0 <= i < j < claims.len() && overlap(claims[i].resource, claims[j].resource)
}

/// The places are those of each two Claims that overlap, in their order.
pub open spec fn lists_overlaps(claims: Seq<Claim<Text>>, places: Seq<(usize, usize)>) -> bool {
    &&& forall|k: int|
        0 <= k < places.len() ==> clash_at(
            claims,
            (#[trigger] places[k]).0 as int,
            places[k].1 as int,
        )
    &&& forall|i: int, j: int| #[trigger]
        clash_at(claims, i, j) ==> places.contains((i as usize, j as usize))
    &&& forall|a: int, b: int|
        0 <= a < b < places.len() ==> (#[trigger] places[a]).0 < (#[trigger] places[b]).0 || (
        places[a].0 == places[b].0 && places[a].1 < places[b].1)
}

/// The places of each two Claims that overlap.
pub fn overlapping_claims(claims: &Vec<Claim>) -> (r: Vec<(usize, usize)>)
    ensures
        lists_overlaps(claims.deep_view(), r@),
{
    let ghost all = claims.deep_view();
    let mut out: Vec<(usize, usize)> = Vec::new();
    let mut i: usize = 0;
    while i < claims.len()
        invariant
            i <= claims@.len(),
            all == claims.deep_view(),
            forall|k: int|
                0 <= k < out@.len() ==> clash_at(
                    all,
                    (#[trigger] out@[k]).0 as int,
                    out@[k].1 as int,
                ) && out@[k].0 < i,
            forall|a: int, b: int| #[trigger]
                clash_at(all, a, b) && a < i ==> out@.contains((a as usize, b as usize)),
            forall|a: int, b: int|
                0 <= a < b < out@.len() ==> (#[trigger] out@[a]).0 < (#[trigger] out@[b]).0 || (
                out@[a].0 == out@[b].0 && out@[a].1 < out@[b].1),
        decreases claims@.len() - i,
    {
        let mut j: usize = i + 1;
        while j < claims.len()
            invariant
                i < j <= claims@.len(),
                all == claims.deep_view(),
                forall|k: int|
                    0 <= k < out@.len() ==> clash_at(
                        all,
                        (#[trigger] out@[k]).0 as int,
                        out@[k].1 as int,
                    ) && (out@[k].0 < i || (out@[k].0 == i && out@[k].1 < j)),
                forall|a: int, b: int| #[trigger]
                    clash_at(all, a, b) && (a < i || (a == i && b < j)) ==> out@.contains(
                        (a as usize, b as usize),
                    ),
                forall|a: int, b: int|
                    0 <= a < b < out@.len() ==> (#[trigger] out@[a]).0 < (#[trigger] out@[b]).0 || (
                    out@[a].0 == out@[b].0 && out@[a].1 < out@[b].1),
            decreases claims@.len() - j,
        {
            let ghost before = out@;
            assert(all[i as int].resource == claims@[i as int].resource@);
            assert(all[j as int].resource == claims@[j as int].resource@);
            if claim_overlap(claims[i].resource.as_str(), claims[j].resource.as_str()) {
                out.push((i, j));
                proof {
                    assert(out@[before.len() as int] == (i, j));
                    assert forall|a: int, b: int| #[trigger]
                        clash_at(all, a, b) && (a < i || (a == i && b < j
                            + 1)) implies out@.contains((a as usize, b as usize)) by {
                        if a == i && b == j {
                        } else {
                            let k = choose|k: int|
                                0 <= k < before.len() && before[k] == (a as usize, b as usize);
                            assert(out@[k] == before[k]);
                        }
                    }
                }
            }
            j = j + 1;
        }
        i = i + 1;
    }
    out
}

/// A Claim lasts its seconds: once made or renewed, it holds at a time exactly
/// where that is before the end of the seconds.
pub proof fn law_claim_lasts_its_seconds(
    state: StoreState,
    layer_id: Text,
    resource: Text,
    seconds: u64,
    id: Text,
    now: Text,
    time: Text,
)
    ensures
        match claim_for_outcome(state, layer_id, resource, seconds, id, now) {
            Ok(after) => {
                &&& after.claims.len() == state.claims.len() + 1
                &&& after.claims.last().id == id
                &&& held(time)(after.claims.last()) == text::text_less(
                    time,
                    clock::later(now, seconds as int)->Some_0,
                )
            },
            Err(_) => true,
        },
        match renew_for_outcome(state, id, seconds, now) {
            Ok((after, _)) => {
                let place = tables::first(state.claims, unreleased(id))->Some_0;
                &&& after.claims.len() == state.claims.len()
                &&& held(time)(after.claims[place]) == text::text_less(
                    time,
                    clock::later(now, seconds as int)->Some_0,
                )
            },
            Err(_) => true,
        },
{
    tables::lemma_first(state.claims, unreleased(id));
}

/// A resource covers a path: it is everything, the path itself, or a directory
/// with all below it that the path is or stands in.
pub open spec fn claims_path(resource: Text, path: Text) -> bool {
    ||| resource == "**"@
    ||| resource == path
    ||| exists|directory: Text|
        resource == #[trigger] (directory + "/**"@) && (path == directory || text::has_prefix(
            path,
            directory + "/"@,
        ))
}

/// Two Claims overlap exactly where some path is claimed by both.
pub proof fn law_overlap_is_a_common_path(left: Text, right: Text)
    ensures
        overlap(left, right) <==> exists|path: Text|
            #[trigger] claims_path(left, path) && claims_path(right, path),
{
    reveal_strlit("/**");
    reveal_strlit("/");
    if overlap(left, right) {
        assert(claims_path(left, left) && claims_path(right, right));
        if covers(left, right) {
            let directory = subtree_of(left)->Some_0;
            assert(left =~= directory + "/**"@);
            assert(claims_path(left, right));
        } else if covers(right, left) {
            let directory = subtree_of(right)->Some_0;
            assert(right =~= directory + "/**"@);
            assert(claims_path(right, left));
        } else if left == "**"@ {
            assert(claims_path(left, right));
        } else if right == "**"@ {
            assert(claims_path(right, left));
        }
    }
    if exists|path: Text| #[trigger] claims_path(left, path) && claims_path(right, path) {
        let path = choose|path: Text| #[trigger] claims_path(left, path) && claims_path(right, path);
        lemma_common_path(left, right, path);
    }
}

proof fn lemma_common_path(left: Text, right: Text, path: Text)
    requires
        claims_path(left, path),
        claims_path(right, path),
    ensures
        overlap(left, right),
{
    reveal_strlit("/**");
    reveal_strlit("/");
    if left != "**"@ && right != "**"@ && left != right {
        if left == path {
            let directory = choose|directory: Text|
                right == #[trigger] (directory + "/**"@) && (path == directory || text::has_prefix(
                    path,
                    directory + "/"@,
                ));
            lemma_subtree(right, directory);
        } else if right == path {
            let directory = choose|directory: Text|
                left == #[trigger] (directory + "/**"@) && (path == directory || text::has_prefix(
                    path,
                    directory + "/"@,
                ));
            lemma_subtree(left, directory);
        } else {
            let a = choose|directory: Text|
                left == #[trigger] (directory + "/**"@) && (path == directory || text::has_prefix(
                    path,
                    directory + "/"@,
                ));
            let b = choose|directory: Text|
                right == #[trigger] (directory + "/**"@) && (path == directory || text::has_prefix(
                    path,
                    directory + "/"@,
                ));
            lemma_subtree(left, a);
            lemma_subtree(right, b);
            lemma_directories_of_a_path(path, a);
            lemma_directories_of_a_path(path, b);
            if a.len() == b.len() {
                assert(a =~= path.take(a.len() as int));
                assert(b =~= path.take(b.len() as int));
            } else if a.len() < b.len() {
                assert(right.take(a.len() as int + 1) =~= path.take(a.len() as int + 1)) by {
                    assert(b =~= path.take(b.len() as int));
                }
                assert(text::has_prefix(right, a + "/"@));
            } else {
                assert(left.take(b.len() as int + 1) =~= path.take(b.len() as int + 1)) by {
                    assert(a =~= path.take(a.len() as int));
                }
                assert(text::has_prefix(left, b + "/"@));
            }
        }
    }
}

proof fn lemma_subtree(resource: Text, directory: Text)
    requires
        resource == directory + "/**"@,
    ensures
        subtree_of(resource) == Some(directory),
{
    reveal_strlit("/**");
    assert(resource.skip(resource.len() - 3) =~= "/**"@);
    assert(resource.take(resource.len() - 3) =~= directory);
}

proof fn lemma_directories_of_a_path(path: Text, directory: Text)
    requires
        path == directory || text::has_prefix(path, directory + "/"@),
    ensures
        directory.len() <= path.len(),
        path.take(directory.len() as int) == directory,
        path.len() > directory.len() ==> path.take(directory.len() as int + 1) == directory + "/"@,
{
    reveal_strlit("/");
    if path == directory {
        assert(path.take(directory.len() as int) =~= directory);
    } else {
        let longer = path.take((directory + "/"@).len() as int);
        assert(path.take(directory.len() as int) =~= longer.take(directory.len() as int));
        assert(longer.take(directory.len() as int) =~= directory);
    }
}

/// A Claim is of one path, of a path and all below it, or of everything. A
/// pattern is refused as an argument, and a path that no tree may hold as
/// unsupported.
pub proof fn law_claims_are_of_paths(path: Text)
    ensures
        resource_failure("**"@) is None,
        (path.contains('*') || path.contains('?') || path.contains('[') || path.contains(']'))
            && path != "**"@ && subtree_of(path) is None ==> resource_failure(path) is Some
            && resource_failure(path)->Some_0.exit_code == 2,
        (path.contains('*') || path.contains('?') || path.contains('[') || path.contains(']'))
            && path + "/**"@ != "**"@ ==> resource_failure(path + "/**"@) is Some
            && resource_failure(path + "/**"@)->Some_0.exit_code == 2,
        !path.contains('*') && !path.contains('?') && !path.contains('[') && !path.contains(']')
            && path + "/**"@ != "**"@ ==> resource_failure(path + "/**"@) == paths::path_failure(
            path,
        ),
        !path.contains('*') && !path.contains('?') && !path.contains('[') && !path.contains(']')
            && path != "**"@ ==> resource_failure(path) == paths::path_failure(path),
{
    reveal_strlit("/**");
    lemma_subtree(path + "/**"@, path);
    if let Some(prefix) = subtree_of(path) {
        assert(path.skip(path.len() - 3)[1] == path[path.len() - 2]);
        assert(path[path.len() - 2] == '*');
        assert(path.contains('*'));
    }
}

/// A Claim holds at a time where nobody released it and the time is before its
/// end; from its end on, one that nobody released is due to be released.
pub proof fn law_claim_holds_until_its_end(claim: Claim<Text>, time: Text)
    ensures
        held(time)(claim) <==> claim.released_at is None && text::text_less(
            time,
            claim.expires_at,
        ),
        due(time)(claim) <==> claim.released_at is None && !text::text_less(
            time,
            claim.expires_at,
        ),
        claim.released_at is Some ==> !held(time)(claim) && !due(time)(claim),
        claim.released_at is None ==> held(time)(claim) != due(time)(claim),
{
}

/// A Claim that is made is the Layer's, of the resource, until its end.
pub proof fn law_claim_is_made_as_asked(
    state: StoreState,
    layer_id: Text,
    resource: Text,
    id: Text,
    expires: Text,
    now: Text,
)
    requires
        create_claim_outcome(state, layer_id, resource, id, expires, now) is Ok,
    ensures
        ({
            let after = create_claim_outcome(state, layer_id, resource, id, expires, now)->Ok_0;
            let claim = after.claims.last();
            &&& after.claims.drop_last() == state.claims
            &&& claim.id == id
            &&& claim.layer_id == state.layer(layer_id)->Some_0.id
            &&& claim.resource == resource
            &&& claim.expires_at == expires
            &&& claim.released_at is None
            &&& claim.created_at == now
        }),
{
    let after = create_claim_outcome(state, layer_id, resource, id, expires, now)->Ok_0;
    assert(after.claims.drop_last() =~= state.claims);
}

/// Renewing a Claim moves its end and releasing it ends it; neither changes
/// anything else of it, nor any other Claim. A Claim that was released can be
/// neither renewed nor released again.
pub proof fn law_claim_is_renewed_or_released_alone(
    state: StoreState,
    id: Text,
    expires: Text,
    now: Text,
    i: int,
)
    requires
        0 <= i < state.claims.len(),
        state.claims[i].id == id,
        forall|j: int| 0 <= j < state.claims.len() && (#[trigger] state.claims[j]).id == id ==> j
            == i,
    ensures
        state.claims[i].released_at is None ==> {
            &&& renew_outcome(state, id, expires, now) matches Ok(after) ==> after.claims
                == state.claims.update(i, Claim { expires_at: expires, ..state.claims[i] })
            &&& release_outcome(state, id, now) matches Ok(after) ==> after.claims
                == state.claims.update(i, Claim { released_at: Some(now), ..state.claims[i] })
            &&& renew_outcome(state, id, expires, now) is Ok
            &&& release_outcome(state, id, now) is Ok
        },
        state.claims[i].released_at is Some ==> {
            &&& renew_outcome(state, id, expires, now) is Err
            &&& release_outcome(state, id, now) is Err
            &&& renew_outcome(state, id, expires, now)->Err_0.exit_code == 2
            &&& release_outcome(state, id, now)->Err_0.exit_code == 2
        },
{
    tables::lemma_first(state.claims, unreleased(id));
    if state.claims[i].released_at is None {
        tables::lemma_first_at(state.claims, unreleased(id), i);
    }
}

/// Claims that are made one after the other are made in order, each of its own
/// resource; a resource that cannot be claimed stops the rest and undoes nothing.
pub proof fn law_claims_are_made_in_order(
    state: StoreState,
    layer_id: Text,
    resources: Seq<Text>,
    ids: Seq<Text>,
    expires: Text,
    now: Text,
)
    ensures
        ({
            let (after, failed) = create_claims_outcome(
                state,
                layer_id,
                resources,
                ids,
                expires,
                now,
            );
            let made = after.claims.len() - state.claims.len();
            &&& 0 <= made <= resources.len()
            &&& failed is None ==> made == resources.len()
            &&& forall|k: int|
                0 <= k < state.claims.len() ==> #[trigger] after.claims[k] == state.claims[k]
            &&& forall|k: int|
                0 <= k < made ==> {
                    let row = after.claims[state.claims.len() + k];
                    &&& row.resource == #[trigger] resources[k]
                    &&& row.id == ids[k]
                    &&& row.expires_at == expires
                    &&& row.released_at is None
                }
            &&& after.layers == state.layers
        }),
    decreases resources.len(),
{
    if resources.len() > 0 {
        let shorter = resources.drop_last();
        law_claims_are_made_in_order(state, layer_id, shorter, ids, expires, now);
        let (before, failed) = create_claims_outcome(
            state,
            layer_id,
            shorter,
            ids,
            expires,
            now,
        );
        let after = create_claims_outcome(state, layer_id, resources, ids, expires, now).0;
        let made = after.claims.len() - state.claims.len();
        assert forall|k: int| 0 <= k < made implies {
            let row = after.claims[state.claims.len() + k];
            &&& row.resource == #[trigger] resources[k]
            &&& row.id == ids[k]
            &&& row.expires_at == expires
            &&& row.released_at is None
        } by {
            if k < before.claims.len() - state.claims.len() {
                assert(shorter[k] == resources[k]);
                assert(after.claims[state.claims.len() + k] == before.claims[state.claims.len()
                    + k]);
            }
        }
    }
}

/// A Claim holds for an hour where no time is asked for, and its end is the
/// asked number of seconds after the present.
pub proof fn law_claims_end_after_their_seconds(present: Text, seconds: u64)
    ensures
        CLAIM_SECONDS == 3600,
        seconds <= i64::MAX ==> claim_end(present, seconds) == clock::later(
            present,
            seconds as int,
        ),
        seconds > i64::MAX ==> claim_end(present, seconds) is None,
        out_of_calendar().exit_code == 2,
{
}

/// Claims that would end out of the calendar are not made: where any is asked
/// for, the request fails and changes nothing. Otherwise all of them end after
/// the seconds given.
pub proof fn law_claims_need_an_end(
    state: StoreState,
    layer_id: Text,
    resources: Seq<Text>,
    seconds: u64,
    ids: Seq<Text>,
    now: Text,
)
    requires
        seconds <= i64::MAX,
    ensures
        ({
            let (after, failure) = claims_for_outcome(
                state,
                layer_id,
                resources,
                seconds,
                ids,
                now,
            );
            let end = clock::later(now, seconds as int);
            &&& end is None ==> after == state && (failure is Some <==> resources.len() > 0)
            &&& end is Some ==> (after, failure) == create_claims_outcome(
                state,
                layer_id,
                resources,
                ids,
                end->Some_0,
                now,
            )
        }),
{
}

} // verus!
