//! The store: providers, usage events and daily rollups behind verified
//! dedup and increment logic.
//!
//! The in-memory relations are the single source of truth for every verified
//! contract; durability is a concern of the surrounding application. Every
//! mutation is specified by a transition function from `crate::state` and
//! keeps `wf` — in particular, every rollup row always equals the exact
//! aggregate of its slice of events, and at most one provider is active.
use vstd::prelude::*;
use vstd::string::*;

use crate::clock;
use crate::hashing::{credential_hash, sha256_hex_of};
use crate::models::{prefix8, view_opt, MessageRecord, MessageUsage, Provider, ProviderV, UsageV};
use crate::seqs::{
    count_where, first_where, lemma_count_where_exists, lemma_first_where,
    lemma_set_where_membership,
};
use crate::state::{
    ev_session, event_of, find_provider, find_rollup, insert_fits, msg_exists, psel_hash,
    rollup_bumped, rollup_fresh, rsel_pd, sel_msg, sel_pd, session_exists, sessions_on,
    spec_insert, upsert_fits, wf, EventV, RepoV, RollupV,
};
use crate::text::str_eq;

verus! {

/// The store's error class. `Overflow` reports an aggregate that left the
/// 64-bit range: the one storage failure this representation can produce.
/// `LockPoisoned` is reserved for a caller that serializes access to the
/// store and finds its lock poisoned by an earlier panic.
#[derive(Clone, Copy, Debug, PartialEq, Eq, Structural)]
pub enum RepositoryError {
    Overflow,
    LockPoisoned,
}

/// One stored usage event. `date` is the local calendar date the event was
/// filed under when it was recorded.
#[derive(Clone, Debug)]
pub struct UsageEvent {
    pub provider_id: i64,
    pub session_id: String,
    pub message_id: String,
    pub model: String,
    pub usage: MessageUsage,
    pub created_at: String,
    pub date: String,
}

impl View for UsageEvent {
    type V = EventV;

    open spec fn view(&self) -> EventV {
        EventV {
            provider_id: self.provider_id as int,
            session_id: self.session_id@,
            message_id: self.message_id@,
            model: self.model@,
            usage: self.usage@,
            created_at: self.created_at@,
            date: self.date@,
        }
    }
}

/// One materialized daily aggregate, keyed by provider and date.
#[derive(Clone, Debug)]
pub struct DailyRollup {
    pub provider_id: i64,
    pub date: String,
    pub total_input_tokens: i64,
    pub total_output_tokens: i64,
    pub total_cache_read_tokens: i64,
    pub total_cache_creation_tokens: i64,
    pub total_cost_micros: i64,
    pub session_count: i64,
    pub message_count: i64,
}

impl View for DailyRollup {
    type V = RollupV;

    open spec fn view(&self) -> RollupV {
        RollupV {
            provider_id: self.provider_id as int,
            date: self.date@,
            total_input: self.total_input_tokens as int,
            total_output: self.total_output_tokens as int,
            total_cache_read: self.total_cache_read_tokens as int,
            total_cache_creation: self.total_cache_creation_tokens as int,
            total_cost: self.total_cost_micros as int,
            session_count: self.session_count as int,
            message_count: self.message_count as int,
        }
    }
}

/// The durable store: provider, usage-event and daily-rollup relations plus
/// the next free surrogate id.
pub struct Repository {
    pub providers: Vec<Provider>,
    pub events: Vec<UsageEvent>,
    pub rollups: Vec<DailyRollup>,
    pub next_provider_id: i64,
}

impl View for Repository {
    type V = RepoV;

    open spec fn view(&self) -> RepoV {
        RepoV {
            providers: self.providers@.map_values(|p: Provider| p@),
            events: self.events@.map_values(|e: UsageEvent| e@),
            rollups: self.rollups@.map_values(|r: DailyRollup| r@),
            next_id: self.next_provider_id as int,
        }
    }
}

/// Copies an optional string.
pub fn clone_opt_string(o: &Option<String>) -> (r: Option<String>)
    ensures
        view_opt(r) == view_opt(*o),
{
    match o {
        Some(s) => Some(s.clone()),
        None => None,
    }
}

/// Copies a provider value field by field.
pub fn clone_provider(p: &Provider) -> (r: Provider)
    ensures
        r@ == p@,
{
    Provider {
        id: p.id,
        api_key_hash: p.api_key_hash.clone(),
        api_key_prefix: p.api_key_prefix.clone(),
        display_name: clone_opt_string(&p.display_name),
        base_url: clone_opt_string(&p.base_url),
        is_active: p.is_active,
        first_seen_at: p.first_seen_at.clone(),
        last_seen_at: p.last_seen_at.clone(),
    }
}

impl Repository {
    /// The store's well-formedness: see `crate::state::wf`.
    pub open spec fn wf(&self) -> bool {
        wf(self@)
    }

    /// A fresh, empty store.
    pub fn new_in_memory() -> (r: Result<Repository, RepositoryError>)
        ensures
            (match r {
                Ok(repo) => repo.wf() && repo@.providers.len() == 0 && repo@.events.len() == 0
                    && repo@.rollups.len() == 0 && repo@.next_id == 1,
                Err(_) => false,
            }),
    {
        let repo = Repository {
            providers: Vec::new(),
            events: Vec::new(),
            rollups: Vec::new(),
            next_provider_id: 1,
        };
        proof {
            assert(repo@.providers =~= Seq::<ProviderV>::empty());
            assert(repo@.events =~= Seq::<EventV>::empty());
            assert(repo@.rollups =~= Seq::<RollupV>::empty());
            assert forall|id: int| #[trigger] count_where(
                repo@.providers,
                crate::state::psel_id(id),
            ) <= 1 by {
                lemma_count_where_exists(repo@.providers, crate::state::psel_id(id));
            }
            assert forall|h: Seq<char>| #[trigger] count_where(repo@.providers, psel_hash(h))
                <= 1 by {
                lemma_count_where_exists(repo@.providers, psel_hash(h));
            }
            lemma_count_where_exists(repo@.providers, crate::state::psel_active());
            assert forall|pid: int, mid: Seq<char>| #[trigger] count_where(
                repo@.events,
                sel_msg(pid, mid),
            ) <= 1 by {
                lemma_count_where_exists(repo@.events, sel_msg(pid, mid));
            }
            assert forall|pid: int, d: Seq<char>| #[trigger] count_where(
                repo@.rollups,
                rsel_pd(pid, d),
            ) <= 1 by {
                lemma_count_where_exists(repo@.rollups, rsel_pd(pid, d));
            }
        }
        Ok(repo)
    }

    /// Whether an event with this provider and message id is already stored.
    fn message_seen(&self, provider_id: i64, message_id: &str) -> (r: bool)
        ensures
            r == msg_exists(self@.events, provider_id as int, message_id@),
    {
        let ghost sel = sel_msg(provider_id as int, message_id@);
        proof {
            lemma_count_where_exists(self@.events, sel);
        }
        let n = self.events.len();
        let mut i: usize = 0;
        while i < n
            invariant
                i <= n,
                n == self.events.len(),
                forall|k: int| 0 <= k < i ==> !sel(#[trigger] self@.events[k]),
            decreases n - i,
        {
            if self.events[i].provider_id == provider_id && str_eq(
                self.events[i].message_id.as_str(),
                message_id,
            ) {
                proof {
                    assert(sel(self@.events[i as int]));
                    assert(count_where(self@.events, sel) != 0);
                }
                return true;
            }
            i = i + 1;
        }
        proof {
            assert(count_where(self@.events, sel) == 0);
        }
        false
    }

    /// Whether this provider already has an event of this session on `date`.
    fn session_seen(&self, provider_id: i64, session_id: &str, date: &str) -> (r: bool)
        ensures
            r == session_exists(self@.events, provider_id as int, session_id@, date@),
    {
        let ghost pid = provider_id as int;
        let ghost sel = sel_pd(pid, date@);
        proof {
            lemma_set_where_membership(self@.events, sel, ev_session(), session_id@);
        }
        let n = self.events.len();
        let mut i: usize = 0;
        while i < n
            invariant
                i <= n,
                n == self.events.len(),
                forall|k: int|
                    0 <= k < i ==> !(sel(#[trigger] self@.events[k]) && self@.events[k].session_id
                        == session_id@),
            decreases n - i,
        {
            if self.events[i].provider_id == provider_id && str_eq(
                self.events[i].date.as_str(),
                date,
            ) && str_eq(self.events[i].session_id.as_str(), session_id) {
                proof {
                    assert(sel(self@.events[i as int]) && self@.events[i as int].session_id
                        == session_id@);
                }
                return true;
            }
            i = i + 1;
        }
        false
    }

    /// The position of the rollup row for `(provider_id, date)`, if any.
    pub(crate) fn rollup_position(&self, provider_id: i64, date: &str) -> (r: Option<usize>)
        ensures
            (match r {
                Some(i) => i < self@.rollups.len() && i as int == find_rollup(
                    self@.rollups,
                    provider_id as int,
                    date@,
                ),
                None => find_rollup(self@.rollups, provider_id as int, date@) == -1,
            }),
    {
        let ghost sel = rsel_pd(provider_id as int, date@);
        proof {
            lemma_first_where(self@.rollups, sel);
        }
        let n = self.rollups.len();
        let mut i: usize = 0;
        while i < n
            invariant
                i <= n,
                n == self.rollups.len(),
                forall|k: int| 0 <= k < i ==> !sel(#[trigger] self@.rollups[k]),
            decreases n - i,
        {
            if self.rollups[i].provider_id == provider_id && str_eq(
                self.rollups[i].date.as_str(),
                date,
            ) {
                proof {
                    assert(sel(self@.rollups[i as int]));
                    let fw = first_where(self@.rollups, sel);
                    assert(fw != -1);
                    if fw < i as int {
                        assert(!sel(self@.rollups[fw]));
                    }
                    if fw > i as int {
                        assert(!sel(self@.rollups[i as int]));
                    }
                    assert(fw == i as int);
                }
                return Some(i);
            }
            i = i + 1;
        }
        None
    }

    /// The position of the provider row with this credential hash, if any.
    fn provider_position(&self, hash: &str) -> (r: Option<usize>)
        ensures
            (match r {
                Some(i) => i < self@.providers.len() && i as int == find_provider(
                    self@.providers,
                    hash@,
                ),
                None => find_provider(self@.providers, hash@) == -1,
            }),
    {
        let ghost sel = psel_hash(hash@);
        proof {
            lemma_first_where(self@.providers, sel);
        }
        let n = self.providers.len();
        let mut i: usize = 0;
        while i < n
            invariant
                i <= n,
                n == self.providers.len(),
                forall|k: int| 0 <= k < i ==> !sel(#[trigger] self@.providers[k]),
            decreases n - i,
        {
            if str_eq(self.providers[i].api_key_hash.as_str(), hash) {
                proof {
                    assert(sel(self@.providers[i as int]));
                    let fw = first_where(self@.providers, sel);
                    assert(fw != -1);
                    if fw < i as int {
                        assert(!sel(self@.providers[fw]));
                    }
                    if fw > i as int {
                        assert(!sel(self@.providers[i as int]));
                    }
                    assert(fw == i as int);
                }
                return Some(i);
            }
            i = i + 1;
        }
        None
    }

    /// Recognizes a raw credential: deactivates every provider, then
    /// reactivates the row whose hash matches — refreshing `last_seen_at`
    /// and merging in a non-null endpoint override — or creates a new active
    /// row. Exactly one provider is active afterwards. Fails only when the
    /// id space is exhausted, leaving the store unchanged.
    pub fn upsert_provider(&mut self, api_key: &str, base_url: Option<String>) -> (r: Result<
        Provider,
        RepositoryError,
    >)
        requires
            old(self).wf(),
        ensures
            final(self).wf(),
            r is Ok <==> upsert_fits(old(self)@, sha256_hex_of(api_key@)),
            (match r {
                Ok(p) => {
                    let su = crate::state::spec_upsert(
                        old(self)@,
                        sha256_hex_of(api_key@),
                        prefix8(api_key@),
                        view_opt(base_url),
                        p@.last_seen_at,
                    );
                    final(self)@ == su.0 && p@ == su.1 && p.is_active
                },
                Err(e) => final(self)@ == old(self)@ && e == RepositoryError::Overflow,
            }),
            r is Ok ==> count_where(final(self)@.providers, crate::state::psel_active()) == 1,
    {
        let ghost s0 = self@;
        let ghost url = view_opt(base_url);
        let hash = credential_hash(api_key);
        let found = self.provider_position(hash.as_str());
        if found.is_none() && self.next_provider_id == i64::MAX {
            return Err(RepositoryError::Overflow);
        }
        // Deactivate every row; the single-active invariant is re-established
        // below by activating exactly one.
        let n = self.providers.len();
        let mut i: usize = 0;
        while i < n
            invariant
                i <= n,
                n == self.providers.len(),
                forall|k: int|
                    0 <= k < i ==> self@.providers[k] == (ProviderV {
                        is_active: false,
                        ..s0.providers[k]
                    }),
                forall|k: int| i <= k < n ==> self@.providers[k] == s0.providers[k],
                self@.events == s0.events,
                self@.rollups == s0.rollups,
                self@.next_id == s0.next_id,
            decreases n - i,
        {
            let ghost entry_view = self@.providers;
            let ghost before = self.providers@;
            let mut p = clone_provider(&self.providers[i]);
            p.is_active = false;
            let ghost pv = p@;
            proof {
                assert(pv == (ProviderV { is_active: false, ..s0.providers[i as int] }));
            }
            self.providers.set(i, p);
            proof {
                assert forall|k: int|
                    0 <= k < i + 1 implies self@.providers[k] == (ProviderV {
                        is_active: false,
                        ..s0.providers[k]
                    }) by {
                    if k < i {
                        assert(self.providers@[k] == before[k]);
                        assert(self@.providers[k] == before[k]@);
                        assert(entry_view[k] == before[k]@);
                    } else {
                        assert(self@.providers[k] == pv);
                    }
                }
                assert forall|k: int| i + 1 <= k < n implies self@.providers[k]
                    == s0.providers[k] by {
                    assert(self.providers@[k] == before[k]);
                    assert(self@.providers[k] == before[k]@);
                    assert(entry_view[k] == before[k]@);
                }
            }
            i = i + 1;
        }
        proof {
            assert(self@.providers =~= crate::state::deactivated(s0.providers));
        }
        match found {
            Some(j) => {
                let now = clock::now_rfc3339();
                let mut p = clone_provider(&self.providers[j]);
                proof {
                    assert(self@.providers[j as int] == (ProviderV {
                        is_active: false,
                        ..s0.providers[j as int]
                    }));
                    assert(p@ == (ProviderV { is_active: false, ..s0.providers[j as int] }));
                }
                p.is_active = true;
                p.last_seen_at = now;
                if base_url.is_some() {
                    p.base_url = base_url;
                }
                let ghost dview = self@.providers;
                let ghost before2 = self.providers@;
                self.providers.set(j, clone_provider(&p));
                proof {
                    let su = crate::state::spec_upsert(
                        s0,
                        hash@,
                        prefix8(api_key@),
                        url,
                        p@.last_seen_at,
                    );
                    assert(p@ == su.1);
                    assert(dview == crate::state::deactivated(s0.providers));
                    assert forall|k: int|
                        0 <= k < self@.providers.len() implies self@.providers[k]
                        == su.0.providers[k] by {
                        if k != j {
                            assert(self.providers@[k] == before2[k]);
                            assert(self@.providers[k] == before2[k]@);
                            assert(dview[k] == before2[k]@);
                        }
                    }
                    assert(self@.providers =~= su.0.providers);
                    assert(self@ =~= su.0);
                    crate::state::lemma_upsert_preserves_wf(
                        s0,
                        hash@,
                        prefix8(api_key@),
                        url,
                        p@.last_seen_at,
                    );
                }
                Ok(p)
            },
            None => {
                let mut p = Provider::new(api_key, None, base_url);
                p.id = self.next_provider_id;
                self.next_provider_id = self.next_provider_id + 1;
                let ghost dview = self@.providers;
                let ghost before2 = self.providers@;
                self.providers.push(clone_provider(&p));
                proof {
                    let su = crate::state::spec_upsert(
                        s0,
                        hash@,
                        prefix8(api_key@),
                        url,
                        p@.last_seen_at,
                    );
                    assert(p@ == su.1);
                    assert(dview == crate::state::deactivated(s0.providers));
                    assert forall|k: int|
                        0 <= k < self@.providers.len() implies self@.providers[k]
                        == su.0.providers[k] by {
                        if k < before2.len() {
                            assert(self.providers@[k] == before2[k]);
                            assert(self@.providers[k] == before2[k]@);
                            assert(dview[k] == before2[k]@);
                        }
                    }
                    assert(self@.providers =~= su.0.providers);
                    assert(self@ =~= su.0);
                    crate::state::lemma_upsert_preserves_wf(
                        s0,
                        hash@,
                        prefix8(api_key@),
                        url,
                        p@.last_seen_at,
                    );
                }
                Ok(p)
            },
        }
    }

    /// Registers a credential by hand. An existing row only has its display
    /// name updated (when one is given); a new row is created inactive, so
    /// the tracked live session is not disturbed. Fails only when the id
    /// space is exhausted, leaving the store unchanged.
    pub fn create_provider(&mut self, api_key: &str, display_name: Option<String>) -> (r: Result<
        Provider,
        RepositoryError,
    >)
        requires
            old(self).wf(),
        ensures
            final(self).wf(),
            r is Ok <==> upsert_fits(old(self)@, sha256_hex_of(api_key@)),
            (match r {
                Ok(p) => {
                    let sc = crate::state::spec_create(
                        old(self)@,
                        sha256_hex_of(api_key@),
                        prefix8(api_key@),
                        view_opt(display_name),
                        p@.first_seen_at,
                    );
                    final(self)@ == sc.0 && p@ == sc.1
                },
                Err(e) => final(self)@ == old(self)@ && e == RepositoryError::Overflow,
            }),
    {
        let ghost s0 = self@;
        let hash = credential_hash(api_key);
        let found = self.provider_position(hash.as_str());
        match found {
            Some(j) => {
                match display_name {
                    Some(name) => {
                        let mut p = clone_provider(&self.providers[j]);
                        p.display_name = Some(name);
                        self.providers.set(j, clone_provider(&p));
                        proof {
                            let sc = crate::state::spec_create(
                                s0,
                                hash@,
                                prefix8(api_key@),
                                view_opt(Some(name)),
                                p@.first_seen_at,
                            );
                            assert(p@ == sc.1);
                            assert(self@.providers =~= sc.0.providers);
                            assert(self@ =~= sc.0);
                            crate::state::lemma_create_preserves_wf(
                                s0,
                                hash@,
                                prefix8(api_key@),
                                view_opt(Some(name)),
                                p@.first_seen_at,
                            );
                        }
                        Ok(p)
                    },
                    None => {
                        let p = clone_provider(&self.providers[j]);
                        proof {
                            assert(self@ =~= s0);
                        }
                        Ok(p)
                    },
                }
            },
            None => {
                if self.next_provider_id == i64::MAX {
                    return Err(RepositoryError::Overflow);
                }
                let mut p = Provider::new(api_key, display_name, None);
                p.id = self.next_provider_id;
                p.is_active = false;
                self.next_provider_id = self.next_provider_id + 1;
                self.providers.push(clone_provider(&p));
                proof {
                    let sc = crate::state::spec_create(
                        s0,
                        hash@,
                        prefix8(api_key@),
                        view_opt(display_name),
                        p@.first_seen_at,
                    );
                    assert(p@ == sc.1);
                    assert(self@.providers =~= sc.0.providers);
                    assert(self@ =~= sc.0);
                    crate::state::lemma_create_preserves_wf(
                        s0,
                        hash@,
                        prefix8(api_key@),
                        view_opt(display_name),
                        p@.first_seen_at,
                    );
                }
                Ok(p)
            },
        }
    }

    /// The single currently active provider, if one exists.
    pub fn get_active_provider(&self) -> (r: Result<Option<Provider>, RepositoryError>)
        requires
            self.wf(),
        ensures
            (match r {
                Ok(opt) => match opt {
                    Some(p) => p@.is_active && (exists|i: int|
                        0 <= i < self@.providers.len() && #[trigger] self@.providers[i] == p@),
                    None => forall|i: int|
                        0 <= i < self@.providers.len() ==> !(#[trigger] self@.providers[i]).is_active,
                },
                Err(_) => false,
            }),
    {
        let n = self.providers.len();
        let mut i: usize = 0;
        while i < n
            invariant
                i <= n,
                n == self.providers.len(),
                forall|k: int| 0 <= k < i ==> !(#[trigger] self@.providers[k]).is_active,
            decreases n - i,
        {
            if self.providers[i].is_active {
                let p = clone_provider(&self.providers[i]);
                proof {
                    assert(self@.providers[i as int] == p@);
                }
                return Ok(Some(p));
            }
            i = i + 1;
        }
        Ok(None)
    }

    /// Renames provider `provider_id`; an unknown id changes nothing.
    pub fn update_provider_display_name(&mut self, provider_id: i64, display_name: &str) -> (r:
        Result<(), RepositoryError>)
        requires
            old(self).wf(),
        ensures
            final(self).wf(),
            final(self)@ == crate::state::spec_rename(old(self)@, provider_id as int, display_name@),
            r is Ok,
    {
        let ghost s0 = self@;
        let ghost sel = crate::state::psel_id(provider_id as int);
        proof {
            lemma_first_where(s0.providers, sel);
        }
        let n = self.providers.len();
        let mut i: usize = 0;
        while i < n
            invariant
                i <= n,
                n == self.providers.len(),
                self@ == s0,
                forall|k: int| 0 <= k < i ==> !sel(#[trigger] self@.providers[k]),
            decreases n - i,
        {
            if self.providers[i].id == provider_id {
                proof {
                    assert(sel(s0.providers[i as int]));
                    let fw = crate::state::find_provider_id(s0.providers, provider_id as int);
                    assert(fw != -1);
                    if fw < i as int {
                        assert(!sel(s0.providers[fw]));
                    }
                    if fw > i as int {
                        assert(!sel(s0.providers[i as int]));
                    }
                    assert(fw == i as int);
                }
                let mut p = clone_provider(&self.providers[i]);
                p.display_name = Some(display_name.to_owned());
                self.providers.set(i, p);
                proof {
                    assert(self@.providers =~= crate::state::spec_rename(
                        s0,
                        provider_id as int,
                        display_name@,
                    ).providers);
                    assert(self@ =~= crate::state::spec_rename(
                        s0,
                        provider_id as int,
                        display_name@,
                    ));
                    crate::state::lemma_rename_preserves_wf(s0, provider_id as int, display_name@);
                }
                return Ok(());
            }
            i = i + 1;
        }
        proof {
            assert(crate::state::find_provider_id(s0.providers, provider_id as int) == -1);
        }
        Ok(())
    }

    /// Removes a provider and everything attributed to it: its usage events
    /// and rollup rows go first, then the provider row itself.
    pub fn delete_provider(&mut self, provider_id: i64) -> (r: Result<(), RepositoryError>)
        requires
            old(self).wf(),
        ensures
            final(self).wf(),
            final(self)@ == crate::state::spec_delete(old(self)@, provider_id as int),
            r is Ok,
    {
        let ghost s0 = self@;
        let ghost pid = provider_id as int;

        let mut kept_events: Vec<UsageEvent> = Vec::new();
        let mut i: usize = 0;
        let n = self.events.len();
        while i < n
            invariant
                i <= n,
                n == self.events.len(),
                self@ == s0,
                kept_events@.map_values(|e: UsageEvent| e@) =~= crate::seqs::seq_filter(
                    s0.events.take(i as int),
                    crate::state::sel_not_pid(pid),
                ),
            decreases n - i,
        {
            proof {
                assert(s0.events.take(i + 1 as int).drop_last() =~= s0.events.take(i as int));
                assert(s0.events.take(i + 1 as int).last() == s0.events[i as int]);
            }
            if self.events[i].provider_id != provider_id {
                let e = &self.events[i];
                kept_events.push(
                    UsageEvent {
                        provider_id: e.provider_id,
                        session_id: e.session_id.clone(),
                        message_id: e.message_id.clone(),
                        model: e.model.clone(),
                        usage: e.usage,
                        created_at: e.created_at.clone(),
                        date: e.date.clone(),
                    },
                );
            }
            i = i + 1;
        }
        proof {
            assert(s0.events.take(n as int) =~= s0.events);
        }
        self.events = kept_events;

        let mut kept_rollups: Vec<DailyRollup> = Vec::new();
        let mut i: usize = 0;
        let n = self.rollups.len();
        while i < n
            invariant
                i <= n,
                n == self.rollups.len(),
                self@.rollups == s0.rollups,
                self@.providers == s0.providers,
                self@.next_id == s0.next_id,
                kept_rollups@.map_values(|r0: DailyRollup| r0@) =~= crate::seqs::seq_filter(
                    s0.rollups.take(i as int),
                    crate::state::rsel_not_pid(pid),
                ),
            decreases n - i,
        {
            proof {
                assert(s0.rollups.take(i + 1 as int).drop_last() =~= s0.rollups.take(i as int));
                assert(s0.rollups.take(i + 1 as int).last() == s0.rollups[i as int]);
            }
            if self.rollups[i].provider_id != provider_id {
                let r0 = &self.rollups[i];
                kept_rollups.push(
                    DailyRollup {
                        provider_id: r0.provider_id,
                        date: r0.date.clone(),
                        total_input_tokens: r0.total_input_tokens,
                        total_output_tokens: r0.total_output_tokens,
                        total_cache_read_tokens: r0.total_cache_read_tokens,
                        total_cache_creation_tokens: r0.total_cache_creation_tokens,
                        total_cost_micros: r0.total_cost_micros,
                        session_count: r0.session_count,
                        message_count: r0.message_count,
                    },
                );
            }
            i = i + 1;
        }
        proof {
            assert(s0.rollups.take(n as int) =~= s0.rollups);
        }
        self.rollups = kept_rollups;

        let mut kept_providers: Vec<Provider> = Vec::new();
        let mut i: usize = 0;
        let n = self.providers.len();
        while i < n
            invariant
                i <= n,
                n == self.providers.len(),
                self@.providers == s0.providers,
                self@.next_id == s0.next_id,
                kept_providers@.map_values(|p: Provider| p@) =~= crate::seqs::seq_filter(
                    s0.providers.take(i as int),
                    crate::state::psel_not_id(pid),
                ),
            decreases n - i,
        {
            proof {
                assert(s0.providers.take(i + 1 as int).drop_last() =~= s0.providers.take(i as int));
                assert(s0.providers.take(i + 1 as int).last() == s0.providers[i as int]);
            }
            if self.providers[i].id != provider_id {
                kept_providers.push(clone_provider(&self.providers[i]));
            }
            i = i + 1;
        }
        proof {
            assert(s0.providers.take(n as int) =~= s0.providers);
        }
        self.providers = kept_providers;

        proof {
            assert(self@ =~= crate::state::spec_delete(s0, pid));
            crate::state::lemma_delete_preserves_wf(s0, pid);
        }
        Ok(())
    }

    /// Puts one persisted provider row back into the store: added unchanged
    /// when its id and hash are free — deactivated when an active row already
    /// exists, so the single-active discipline survives whatever the durable
    /// copy held — and skipped otherwise. The next free id moves past the
    /// row's own.
    pub fn restore_provider(&mut self, row: Provider) -> (r: Result<(), RepositoryError>)
        requires
            old(self).wf(),
        ensures
            final(self).wf(),
            final(self)@ == crate::state::spec_restore(old(self)@, row@),
            r is Ok,
    {
        let ghost s0 = self@;
        if row.id < 1 || row.id >= i64::MAX {
            return Ok(());
        }

        // Is the id already taken?
        let ghost idsel = crate::state::psel_id(row.id as int);
        proof {
            lemma_count_where_exists(s0.providers, idsel);
        }
        let n = self.providers.len();
        let mut i: usize = 0;
        while i < n
            invariant
                i <= n,
                n == self.providers.len(),
                self@ == s0,
                idsel == crate::state::psel_id(row.id as int),
                forall|k: int| 0 <= k < i ==> !idsel(#[trigger] s0.providers[k]),
            decreases n - i,
        {
            if self.providers[i].id == row.id {
                proof {
                    assert(idsel(s0.providers[i as int]));
                    assert(count_where(s0.providers, idsel) != 0);
                }
                return Ok(());
            }
            i = i + 1;
        }
        proof {
            assert(count_where(s0.providers, idsel) == 0);
        }

        // Is the hash already taken?
        let found = self.provider_position(row.api_key_hash.as_str());
        proof {
            lemma_first_where(s0.providers, psel_hash(row@.hash));
            lemma_count_where_exists(s0.providers, psel_hash(row@.hash));
        }
        if found.is_some() {
            proof {
                let fw = find_provider(s0.providers, row@.hash);
                assert(psel_hash(row@.hash)(s0.providers[fw]));
                assert(count_where(s0.providers, psel_hash(row@.hash)) != 0);
            }
            return Ok(());
        }
        proof {
            assert(count_where(s0.providers, psel_hash(row@.hash)) == 0);
        }

        // Is some row already active?
        let ghost asel = crate::state::psel_active();
        proof {
            lemma_count_where_exists(s0.providers, asel);
        }
        let mut has_active = false;
        let mut i: usize = 0;
        while i < n
            invariant
                i <= n,
                n == self.providers.len(),
                self@ == s0,
                !has_active ==> forall|k: int| 0 <= k < i ==> !(#[trigger] s0.providers[k]).is_active,
                has_active ==> count_where(s0.providers, crate::state::psel_active()) >= 1,
            decreases n - i + (if has_active {
                0int
            } else {
                1
            }),
        {
            if self.providers[i].is_active {
                proof {
                    assert(crate::state::psel_active()(s0.providers[i as int]));
                    assert(count_where(s0.providers, crate::state::psel_active()) != 0);
                }
                has_active = true;
                break ;
            }
            i = i + 1;
        }
        proof {
            if !has_active {
                assert(count_where(s0.providers, crate::state::psel_active()) == 0);
            }
        }

        let mut q = row;
        if has_active {
            q.is_active = false;
        }
        if q.id + 1 > self.next_provider_id {
            self.next_provider_id = q.id + 1;
        }
        self.providers.push(q);
        proof {
            assert(self@.providers =~= crate::state::spec_restore(s0, row@).providers);
            assert(self@ =~= crate::state::spec_restore(s0, row@));
            crate::state::lemma_restore_preserves_wf(s0, row@);
        }
        Ok(())
    }

    /// Records one usage event for `provider_id`, filed under the local
    /// calendar date `date`.
    ///
    /// A message id already stored for this provider makes the call a no-op
    /// that still succeeds: reprocessing a file is safe. Otherwise the event
    /// is appended and the day's rollup row is bumped — every token and cost
    /// field added, the message count raised by one, and the session count
    /// raised by one exactly when this event opens a new session for that
    /// provider and date. A bump that would leave the 64-bit range fails
    /// with `Overflow` and changes nothing.
    pub fn insert_message_usage_on(
        &mut self,
        provider_id: i64,
        record: &MessageRecord,
        date: &str,
    ) -> (r: Result<(), RepositoryError>)
        requires
            old(self).wf(),
            record@.usage.wf(),
        ensures
            final(self).wf(),
            r is Ok <==> insert_fits(old(self)@, provider_id as int, record@, date@),
            r is Ok ==> final(self)@ == spec_insert(old(self)@, provider_id as int, record@, date@),
            r is Err ==> final(self)@ == old(self)@ && r == Err::<(), RepositoryError>(
                RepositoryError::Overflow,
            ),
    {
        let ghost s0 = self@;
        let ghost pid = provider_id as int;
        if self.message_seen(provider_id, record.message_id.as_str()) {
            return Ok(());
        }
        let new_session = !self.session_seen(
            provider_id,
            record.session_id.as_str(),
            date,
        );
        let inc: i64 = if new_session {
            1
        } else {
            0
        };
        let found = self.rollup_position(provider_id, date);
        match found {
            Some(j) => {
                let row = &self.rollups[j];
                if row.total_input_tokens > i64::MAX - record.usage.input_tokens
                    || row.total_output_tokens > i64::MAX - record.usage.output_tokens
                    || row.total_cache_read_tokens > i64::MAX - record.usage.cache_read_tokens
                    || row.total_cache_creation_tokens > i64::MAX
                    - record.usage.cache_creation_tokens || row.total_cost_micros > i64::MAX
                    - record.usage.cost_micros || row.session_count == i64::MAX
                    || row.message_count == i64::MAX {
                    return Err(RepositoryError::Overflow);
                }
                let bumped = DailyRollup {
                    provider_id: row.provider_id,
                    date: row.date.clone(),
                    total_input_tokens: row.total_input_tokens + record.usage.input_tokens,
                    total_output_tokens: row.total_output_tokens + record.usage.output_tokens,
                    total_cache_read_tokens: row.total_cache_read_tokens
                        + record.usage.cache_read_tokens,
                    total_cache_creation_tokens: row.total_cache_creation_tokens
                        + record.usage.cache_creation_tokens,
                    total_cost_micros: row.total_cost_micros + record.usage.cost_micros,
                    session_count: row.session_count + inc,
                    message_count: row.message_count + 1,
                };
                self.rollups.set(j, bumped);
                proof {
                    assert(self@.rollups =~= s0.rollups.update(
                        j as int,
                        rollup_bumped(s0.rollups[j as int], record@.usage, inc as int),
                    ));
                }
            },
            None => {
                let fresh = DailyRollup {
                    provider_id: provider_id,
                    date: date.to_owned(),
                    total_input_tokens: record.usage.input_tokens,
                    total_output_tokens: record.usage.output_tokens,
                    total_cache_read_tokens: record.usage.cache_read_tokens,
                    total_cache_creation_tokens: record.usage.cache_creation_tokens,
                    total_cost_micros: record.usage.cost_micros,
                    session_count: 1,
                    message_count: 1,
                };
                self.rollups.push(fresh);
                proof {
                    assert(self@.rollups =~= s0.rollups.push(
                        rollup_fresh(pid, date@, record@.usage),
                    ));
                }
            },
        }
        let event = UsageEvent {
            provider_id: provider_id,
            session_id: record.session_id.clone(),
            message_id: record.message_id.clone(),
            model: record.model.clone(),
            usage: record.usage,
            created_at: record.created_at.clone(),
            date: date.to_owned(),
        };
        self.events.push(event);
        proof {
            assert(self@.events =~= s0.events.push(event_of(pid, record@, date@)));
            assert(self@ =~= spec_insert(s0, pid, record@, date@));
            crate::state::lemma_insert_preserves_wf(s0, pid, record@, date@);
        }
        Ok(())
    }

    /// Records one usage event for `provider_id`, filed under the local
    /// calendar date of the record's own timestamp — today's when that
    /// timestamp does not parse. The date is taken from the machine's time
    /// zone, so the contract binds the outcome for every date.
    pub fn insert_message_usage(&mut self, provider_id: i64, record: &MessageRecord) -> (r: Result<
        (),
        RepositoryError,
    >)
        requires
            old(self).wf(),
            record@.usage.wf(),
        ensures
            final(self).wf(),
            (match r {
                Ok(()) => exists|d: Seq<char>|
                    final(self)@ == spec_insert(old(self)@, provider_id as int, record@, d)
                        && insert_fits(old(self)@, provider_id as int, record@, d),
                Err(e) => final(self)@ == old(self)@ && e == RepositoryError::Overflow && (exists|
                    d: Seq<char>,
                |
                    !insert_fits(old(self)@, provider_id as int, record@, d)),
            }),
    {
        let date = match clock::local_date_of(record.created_at.as_str()) {
            Some(d) => d,
            None => clock::today_local(),
        };
        let r = self.insert_message_usage_on(provider_id, record, date.as_str());
        proof {
            if r is Ok {
                assert(self@ == spec_insert(old(self)@, provider_id as int, record@, date@)
                    && insert_fits(old(self)@, provider_id as int, record@, date@));
            } else {
                assert(!insert_fits(old(self)@, provider_id as int, record@, date@));
            }
        }
        r
    }
}

} // verus!
