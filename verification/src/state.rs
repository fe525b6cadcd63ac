//! Mathematical model of the store: the state it holds, its well-formedness
//! invariant, and the transition functions every mutation is specified by.
//!
//! The state is three relations. `events` is authoritative; every
//! `RollupV` is the exact aggregate of its provider/date slice of `events`,
//! and that consistency is part of well-formedness, so it holds after every
//! operation.
use vstd::prelude::*;

use crate::models::{ProviderV, RecordV, UsageV};
use crate::seqs::{
    count_where, first_where, lemma_count_where_exists, lemma_count_where_push,
    lemma_count_where_two, lemma_first_where, lemma_seq_filter_elements, lemma_set_where_filter,
    lemma_set_where_finite, lemma_set_where_membership, lemma_set_where_push,
    lemma_sum_where_elementwise, lemma_sum_where_filter, lemma_sum_where_filter_le,
    lemma_sum_where_none, lemma_sum_where_push, lemma_sum_where_update, set_where, sum_where,
};

verus! {

/// One stored usage event. `date` is the local calendar date derived from
/// `created_at` when the event was recorded; rollups are keyed by it.
#[verifier::ext_equal]
pub struct EventV {
    pub provider_id: int,
    pub session_id: Seq<char>,
    pub message_id: Seq<char>,
    pub model: Seq<char>,
    pub usage: UsageV,
    pub created_at: Seq<char>,
    pub date: Seq<char>,
}

/// One daily aggregate row, keyed by provider and date.
#[verifier::ext_equal]
pub struct RollupV {
    pub provider_id: int,
    pub date: Seq<char>,
    pub total_input: int,
    pub total_output: int,
    pub total_cache_read: int,
    pub total_cache_creation: int,
    pub total_cost: int,
    pub session_count: int,
    pub message_count: int,
}

/// The whole store state.
#[verifier::ext_equal]
pub struct RepoV {
    pub providers: Seq<ProviderV>,
    pub events: Seq<EventV>,
    pub rollups: Seq<RollupV>,
    pub next_id: int,
}

// Selectors and weights, each behind a named function so that every mention
// denotes the same closure.
/// Selects every event.
pub open spec fn sel_all() -> spec_fn(EventV) -> bool {
    |e: EventV| true
}

/// Selects the events of one provider on one date.
pub open spec fn sel_pd(pid: int, date: Seq<char>) -> spec_fn(EventV) -> bool {
    |e: EventV| e.provider_id == pid && e.date == date
}

/// Selects the events of one date, any provider.
pub open spec fn sel_date(date: Seq<char>) -> spec_fn(EventV) -> bool {
    |e: EventV| e.date == date
}

/// Selects one message: the dedup key.
pub open spec fn sel_msg(pid: int, mid: Seq<char>) -> spec_fn(EventV) -> bool {
    |e: EventV| e.provider_id == pid && e.message_id == mid
}

/// Selects the events of one model.
pub open spec fn sel_model(name: Seq<char>) -> spec_fn(EventV) -> bool {
    |e: EventV| e.model == name
}

/// Selects the events of one provider in an inclusive date range.
pub open spec fn sel_pid_range(pid: int, lo: Seq<char>, hi: Seq<char>) -> spec_fn(EventV) -> bool {
    |e: EventV| e.provider_id == pid && crate::text::seq_le(lo, e.date) && crate::text::seq_le(
        e.date,
        hi,
    )
}

/// Selects the events not owned by one provider: what a delete keeps.
pub open spec fn sel_not_pid(pid: int) -> spec_fn(EventV) -> bool {
    |e: EventV| e.provider_id != pid
}

pub open spec fn ev_input() -> spec_fn(EventV) -> int {
    |e: EventV| e.usage.input
}

pub open spec fn ev_output() -> spec_fn(EventV) -> int {
    |e: EventV| e.usage.output
}

pub open spec fn ev_cache_read() -> spec_fn(EventV) -> int {
    |e: EventV| e.usage.cache_read
}

pub open spec fn ev_cache_creation() -> spec_fn(EventV) -> int {
    |e: EventV| e.usage.cache_creation
}

pub open spec fn ev_cost() -> spec_fn(EventV) -> int {
    |e: EventV| e.usage.cost
}

pub open spec fn ev_session() -> spec_fn(EventV) -> Seq<char> {
    |e: EventV| e.session_id
}

/// Selects one rollup row by its key.
pub open spec fn rsel_pd(pid: int, date: Seq<char>) -> spec_fn(RollupV) -> bool {
    |r: RollupV| r.provider_id == pid && r.date == date
}

/// Selects the rollups of one date, any provider.
pub open spec fn rsel_date(date: Seq<char>) -> spec_fn(RollupV) -> bool {
    |r: RollupV| r.date == date
}

/// Selects the rollups of one provider in an inclusive date range.
pub open spec fn rsel_pid_range(pid: int, lo: Seq<char>, hi: Seq<char>) -> spec_fn(
    RollupV,
) -> bool {
    |r: RollupV| r.provider_id == pid && crate::text::seq_le(lo, r.date) && crate::text::seq_le(
        r.date,
        hi,
    )
}

/// Selects the rollups a delete keeps.
pub open spec fn rsel_not_pid(pid: int) -> spec_fn(RollupV) -> bool {
    |r: RollupV| r.provider_id != pid
}

/// Selects a provider row by credential hash.
pub open spec fn psel_hash(hash: Seq<char>) -> spec_fn(ProviderV) -> bool {
    |p: ProviderV| p.hash == hash
}

/// Selects a provider row by surrogate id.
pub open spec fn psel_id(id: int) -> spec_fn(ProviderV) -> bool {
    |p: ProviderV| p.id == id
}

/// Selects the active provider rows.
pub open spec fn psel_active() -> spec_fn(ProviderV) -> bool {
    |p: ProviderV| p.is_active
}

/// Selects the providers a delete keeps.
pub open spec fn psel_not_id(pid: int) -> spec_fn(ProviderV) -> bool {
    |p: ProviderV| p.id != pid
}

/// Whether some event of provider `pid` carries message id `mid`.
pub open spec fn msg_exists(evs: Seq<EventV>, pid: int, mid: Seq<char>) -> bool {
    count_where(evs, sel_msg(pid, mid)) >= 1
}

/// The distinct session ids of provider `pid` on `date`.
pub open spec fn sessions_on(evs: Seq<EventV>, pid: int, date: Seq<char>) -> Set<Seq<char>> {
    set_where(evs, sel_pd(pid, date), ev_session())
}

/// Whether provider `pid` already has an event of session `sid` on `date`.
pub open spec fn session_exists(evs: Seq<EventV>, pid: int, sid: Seq<char>, date: Seq<char>) -> bool {
    sessions_on(evs, pid, date).contains(sid)
}

/// Whether a rollup row exists for `(pid, date)`.
pub open spec fn has_rollup(rs: Seq<RollupV>, pid: int, date: Seq<char>) -> bool {
    count_where(rs, rsel_pd(pid, date)) >= 1
}

/// The index of the rollup row for `(pid, date)`, or -1.
pub open spec fn find_rollup(rs: Seq<RollupV>, pid: int, date: Seq<char>) -> int {
    first_where(rs, rsel_pd(pid, date))
}

/// The index of the provider row with `hash`, or -1.
pub open spec fn find_provider(ps: Seq<ProviderV>, hash: Seq<char>) -> int {
    first_where(ps, psel_hash(hash))
}

/// The rollup row `(pid, date)` would have if `evs` were re-aggregated.
pub open spec fn rollup_matches(evs: Seq<EventV>, r: RollupV) -> bool {
    let sel = sel_pd(r.provider_id, r.date);
    &&& r.total_input == sum_where(evs, sel, ev_input())
    &&& r.total_output == sum_where(evs, sel, ev_output())
    &&& r.total_cache_read == sum_where(evs, sel, ev_cache_read())
    &&& r.total_cache_creation == sum_where(evs, sel, ev_cache_creation())
    &&& r.total_cost == sum_where(evs, sel, ev_cost())
    &&& r.message_count == count_where(evs, sel)
    &&& r.session_count == sessions_on(evs, r.provider_id, r.date).len()
    &&& r.message_count >= 1
}

/// Provider relation invariants: ids unique and below the next free id,
/// hashes unique, and at most one row active.
pub open spec fn providers_wf(s: RepoV) -> bool {
    &&& forall|id: int| #[trigger] count_where(s.providers, psel_id(id)) <= 1
    &&& forall|h: Seq<char>| #[trigger] count_where(s.providers, psel_hash(h)) <= 1
    &&& count_where(s.providers, psel_active()) <= 1
    &&& forall|i: int|
        0 <= i < s.providers.len() ==> 1 <= (#[trigger] s.providers[i]).id < s.next_id
    &&& 1 <= s.next_id <= i64::MAX
}

/// Event relation invariants: the (provider, message id) pair is unique and
/// every count is non-negative.
pub open spec fn events_wf(s: RepoV) -> bool {
    &&& forall|pid: int, mid: Seq<char>| #[trigger] count_where(s.events, sel_msg(pid, mid)) <= 1
    &&& forall|i: int| 0 <= i < s.events.len() ==> (#[trigger] s.events[i]).usage.wf()
}

/// Rollup relation invariants: keys unique, every row the exact aggregate of
/// its slice of `events`, and a row present exactly for the populated slices.
pub open spec fn rollups_wf(s: RepoV) -> bool {
    &&& forall|pid: int, d: Seq<char>| #[trigger] count_where(s.rollups, rsel_pd(pid, d)) <= 1
    &&& forall|i: int| 0 <= i < s.rollups.len() ==> rollup_matches(s.events, #[trigger] s.rollups[i])
    &&& forall|i: int|
        0 <= i < s.events.len() ==> has_rollup(
            s.rollups,
            (#[trigger] s.events[i]).provider_id,
            s.events[i].date,
        )
}

/// The store's full invariant.
pub open spec fn wf(s: RepoV) -> bool {
    providers_wf(s) && events_wf(s) && rollups_wf(s)
}

/// The event a record lands as, for provider `pid` on local date `date`.
pub open spec fn event_of(pid: int, rec: RecordV, date: Seq<char>) -> EventV {
    EventV {
        provider_id: pid,
        session_id: rec.session_id,
        message_id: rec.message_id,
        model: rec.model,
        usage: rec.usage,
        created_at: rec.created_at,
        date: date,
    }
}

/// A rollup row bumped by one event: token and cost fields added, one more
/// message, and one more session when the event opens one.
pub open spec fn rollup_bumped(r: RollupV, u: UsageV, session_inc: int) -> RollupV {
    RollupV {
        provider_id: r.provider_id,
        date: r.date,
        total_input: r.total_input + u.input,
        total_output: r.total_output + u.output,
        total_cache_read: r.total_cache_read + u.cache_read,
        total_cache_creation: r.total_cache_creation + u.cache_creation,
        total_cost: r.total_cost + u.cost,
        session_count: r.session_count + session_inc,
        message_count: r.message_count + 1,
    }
}

/// The first rollup row of a fresh `(pid, date)` slice.
pub open spec fn rollup_fresh(pid: int, date: Seq<char>, u: UsageV) -> RollupV {
    RollupV {
        provider_id: pid,
        date: date,
        total_input: u.input,
        total_output: u.output,
        total_cache_read: u.cache_read,
        total_cache_creation: u.cache_creation,
        total_cost: u.cost,
        session_count: 1,
        message_count: 1,
    }
}

/// Whether recording `rec` leaves every bumped rollup field within `i64`.
/// Replays and fresh slices always fit.
pub open spec fn insert_fits(s: RepoV, pid: int, rec: RecordV, date: Seq<char>) -> bool {
    msg_exists(s.events, pid, rec.message_id) || {
        let j = find_rollup(s.rollups, pid, date);
        j == -1 || {
            let r = s.rollups[j];
            &&& r.total_input + rec.usage.input <= i64::MAX
            &&& r.total_output + rec.usage.output <= i64::MAX
            &&& r.total_cache_read + rec.usage.cache_read <= i64::MAX
            &&& r.total_cache_creation + rec.usage.cache_creation <= i64::MAX
            &&& r.total_cost + rec.usage.cost <= i64::MAX
            &&& r.session_count + 1 <= i64::MAX
            &&& r.message_count + 1 <= i64::MAX
        }
    }
}

/// The state after recording `rec` for provider `pid` on `date`: a replayed
/// message id is a no-op; otherwise the event is appended and the rollup row
/// of `(pid, date)` is bumped, or created when the slice was empty.
pub open spec fn spec_insert(s: RepoV, pid: int, rec: RecordV, date: Seq<char>) -> RepoV {
    if msg_exists(s.events, pid, rec.message_id) {
        s
    } else {
        let e = event_of(pid, rec, date);
        let inc: int = if session_exists(s.events, pid, rec.session_id, date) {
            0
        } else {
            1
        };
        let j = find_rollup(s.rollups, pid, date);
        let rollups = if j == -1 {
            s.rollups.push(rollup_fresh(pid, date, rec.usage))
        } else {
            s.rollups.update(j, rollup_bumped(s.rollups[j], rec.usage, inc))
        };
        RepoV { events: s.events.push(e), rollups: rollups, ..s }
    }
}

/// Every provider row deactivated: the first half of recognition.
pub open spec fn deactivated(ps: Seq<ProviderV>) -> Seq<ProviderV> {
    ps.map_values(|p: ProviderV| ProviderV { is_active: false, ..p })
}

/// Whether recognizing a credential with `hash` has a free id to assign.
pub open spec fn upsert_fits(s: RepoV, hash: Seq<char>) -> bool {
    find_provider(s.providers, hash) != -1 || s.next_id < i64::MAX
}

/// The state and resulting provider after recognizing a credential: every
/// row is deactivated, then the row with this hash is reactivated with a
/// fresh `last_seen_at` and a merged endpoint, or a new active row is
/// created with both timestamps at `now`.
pub open spec fn spec_upsert(
    s: RepoV,
    hash: Seq<char>,
    prefix: Seq<char>,
    url: Option<Seq<char>>,
    now: Seq<char>,
) -> (RepoV, ProviderV) {
    let ps = deactivated(s.providers);
    let j = find_provider(s.providers, hash);
    if j == -1 {
        let p = ProviderV {
            id: s.next_id,
            hash: hash,
            prefix: prefix,
            display_name: None,
            base_url: url,
            is_active: true,
            first_seen_at: now,
            last_seen_at: now,
        };
        (RepoV { providers: ps.push(p), next_id: s.next_id + 1, ..s }, p)
    } else {
        let p = ProviderV {
            is_active: true,
            last_seen_at: now,
            base_url: if url is Some {
                url
            } else {
                s.providers[j].base_url
            },
            ..s.providers[j]
        };
        (RepoV { providers: ps.update(j, p), ..s }, p)
    }
}

/// The state and resulting provider after a manual registration: an existing
/// row only has its display name updated (when one is given); a new row is
/// created inactive, so it does not disturb the tracked live session.
pub open spec fn spec_create(
    s: RepoV,
    hash: Seq<char>,
    prefix: Seq<char>,
    name: Option<Seq<char>>,
    now: Seq<char>,
) -> (RepoV, ProviderV) {
    let j = find_provider(s.providers, hash);
    if j == -1 {
        let p = ProviderV {
            id: s.next_id,
            hash: hash,
            prefix: prefix,
            display_name: name,
            base_url: None,
            is_active: false,
            first_seen_at: now,
            last_seen_at: now,
        };
        (RepoV { providers: s.providers.push(p), next_id: s.next_id + 1, ..s }, p)
    } else if name is Some {
        let p = ProviderV { display_name: name, ..s.providers[j] };
        (RepoV { providers: s.providers.update(j, p), ..s }, p)
    } else {
        (s, s.providers[j])
    }
}

/// The state after restoring one persisted provider row: the row is added
/// unchanged when its id and hash are free — deactivated when an active row
/// already exists, so the single-active discipline survives whatever the
/// durable copy held — and skipped otherwise; the next free id moves past it.
pub open spec fn spec_restore(s: RepoV, p: ProviderV) -> RepoV {
    if p.id < 1 || p.id >= i64::MAX || count_where(s.providers, psel_id(p.id)) >= 1 || count_where(
        s.providers,
        psel_hash(p.hash),
    ) >= 1 {
        s
    } else {
        let q = ProviderV {
            is_active: p.is_active && count_where(s.providers, psel_active()) == 0,
            ..p
        };
        RepoV {
            providers: s.providers.push(q),
            next_id: if p.id + 1 > s.next_id {
                p.id + 1
            } else {
                s.next_id
            },
            ..s
        }
    }
}

/// Restoring a persisted provider row keeps the store well-formed.
pub proof fn lemma_restore_preserves_wf(s: RepoV, p: ProviderV)
    requires
        wf(s),
    ensures
        wf(spec_restore(s, p)),
{
    let s2 = spec_restore(s, p);
    if !(p.id < 1 || p.id >= i64::MAX || count_where(s.providers, psel_id(p.id)) >= 1
        || count_where(s.providers, psel_hash(p.hash)) >= 1) {
        let q = ProviderV {
            is_active: p.is_active && count_where(s.providers, psel_active()) == 0,
            ..p
        };
        assert(s2.providers == s.providers.push(q));
        assert forall|id: int| #[trigger] count_where(s2.providers, psel_id(id)) <= 1 by {
            lemma_count_where_push(s.providers, q, psel_id(id));
            lemma_count_where_exists(s.providers, psel_id(id));
            if psel_id(id)(q) {
                assert(count_where(s.providers, psel_id(p.id)) <= 0);
            }
        }
        assert forall|h: Seq<char>| #[trigger] count_where(s2.providers, psel_hash(h)) <= 1 by {
            lemma_count_where_push(s.providers, q, psel_hash(h));
            lemma_count_where_exists(s.providers, psel_hash(h));
            if psel_hash(h)(q) {
                assert(count_where(s.providers, psel_hash(p.hash)) <= 0);
            }
        }
        lemma_count_where_push(s.providers, q, psel_active());
        lemma_count_where_exists(s.providers, psel_active());
        assert forall|i: int|
            0 <= i < s2.providers.len() implies 1 <= (#[trigger] s2.providers[i]).id
            < s2.next_id by {
            if i < s.providers.len() {
                assert(s2.providers[i] == s.providers[i]);
            }
        }
        assert(events_wf(s2));
        assert forall|i: int| 0 <= i < s2.rollups.len() implies rollup_matches(
            s2.events,
            #[trigger] s2.rollups[i],
        ) by {
            assert(s2.rollups[i] == s.rollups[i]);
        }
        assert(rollups_wf(s2));
    }
}

/// Recording a usage event keeps the store well-formed: in particular every
/// rollup row stays the exact aggregate of its slice of events.
pub proof fn lemma_insert_preserves_wf(s: RepoV, pid: int, rec: RecordV, date: Seq<char>)
    requires
        wf(s),
        rec.usage.wf(),
        insert_fits(s, pid, rec, date),
    ensures
        wf(spec_insert(s, pid, rec, date)),
{
    broadcast use vstd::set::group_set_axioms;

    if !msg_exists(s.events, pid, rec.message_id) {
        let s2 = spec_insert(s, pid, rec, date);
        let e = event_of(pid, rec, date);
        let evs2 = s.events.push(e);
        let inc: int = if session_exists(s.events, pid, rec.session_id, date) {
            0
        } else {
            1
        };
        let j = find_rollup(s.rollups, pid, date);
        lemma_first_where(s.rollups, rsel_pd(pid, date));
        lemma_count_where_exists(s.events, sel_msg(pid, rec.message_id));
        assert(s2.events == evs2);

        // The new event's slice had a rollup row exactly when j != -1.
        lemma_count_where_exists(s.rollups, rsel_pd(pid, date));
        if j == -1 {
            assert(count_where(s.rollups, rsel_pd(pid, date)) == 0);
        } else {
            assert(rsel_pd(pid, date)(s.rollups[j]));
            assert(count_where(s.rollups, rsel_pd(pid, date)) != 0);
        }

        // Message-id uniqueness survives the push.
        assert forall|pid2: int, mid2: Seq<char>| #[trigger] count_where(
            evs2,
            sel_msg(pid2, mid2),
        ) <= 1 by {
            lemma_count_where_push(s.events, e, sel_msg(pid2, mid2));
            if sel_msg(pid2, mid2)(e) {
                assert(pid2 == pid && mid2 == rec.message_id);
                lemma_count_where_exists(s.events, sel_msg(pid2, mid2));
            }
        }
        assert forall|i: int| 0 <= i < evs2.len() implies (#[trigger] evs2[i]).usage.wf() by {
            if i < s.events.len() {
                assert(evs2[i] == s.events[i]);
            }
        }
        assert(events_wf(s2));

        // The rollup relation after the bump or the fresh row.
        if j == -1 {
            let fresh = rollup_fresh(pid, date, rec.usage);
            let rs2 = s.rollups.push(fresh);
            assert(s2.rollups == rs2);

            // Key uniqueness.
            assert forall|pid2: int, d2: Seq<char>| #[trigger] count_where(
                rs2,
                rsel_pd(pid2, d2),
            ) <= 1 by {
                lemma_count_where_push(s.rollups, fresh, rsel_pd(pid2, d2));
                if rsel_pd(pid2, d2)(fresh) {
                    assert(pid2 == pid && d2 == date);
                    lemma_count_where_exists(s.rollups, rsel_pd(pid2, d2));
                }
            }

            // No old event lies in the new slice: its rollup would exist.
            assert forall|i: int| 0 <= i < s.events.len() implies !(sel_pd(pid, date)(
                #[trigger] s.events[i],
            )) by {
                if sel_pd(pid, date)(s.events[i]) {
                    assert(has_rollup(s.rollups, s.events[i].provider_id, s.events[i].date));
                    assert(count_where(s.rollups, rsel_pd(pid, date)) >= 1);
                }
            }

            // The fresh row aggregates exactly the one new event.
            lemma_sum_where_none(s.events, sel_pd(pid, date), ev_input());
            lemma_sum_where_none(s.events, sel_pd(pid, date), ev_output());
            lemma_sum_where_none(s.events, sel_pd(pid, date), ev_cache_read());
            lemma_sum_where_none(s.events, sel_pd(pid, date), ev_cache_creation());
            lemma_sum_where_none(s.events, sel_pd(pid, date), ev_cost());
            lemma_sum_where_none(s.events, sel_pd(pid, date), crate::seqs::one::<EventV>());
            lemma_sum_where_push(s.events, e, sel_pd(pid, date), ev_input());
            lemma_sum_where_push(s.events, e, sel_pd(pid, date), ev_output());
            lemma_sum_where_push(s.events, e, sel_pd(pid, date), ev_cache_read());
            lemma_sum_where_push(s.events, e, sel_pd(pid, date), ev_cache_creation());
            lemma_sum_where_push(s.events, e, sel_pd(pid, date), ev_cost());
            lemma_count_where_push(s.events, e, sel_pd(pid, date));
            assert forall|sid: Seq<char>| !(#[trigger] sessions_on(s.events, pid, date).contains(
                sid,
            )) by {
                lemma_set_where_membership(s.events, sel_pd(pid, date), ev_session(), sid);
            }
            assert(sessions_on(s.events, pid, date) =~= Set::empty());
            lemma_set_where_push(s.events, e, sel_pd(pid, date), ev_session());
            lemma_set_where_finite(s.events, sel_pd(pid, date), ev_session());
            assert(sessions_on(evs2, pid, date) == sessions_on(s.events, pid, date).insert(
                e.session_id,
            ));
            assert(sessions_on(evs2, pid, date).len() == 1);
            assert(inc == 1);
            assert(rollup_matches(evs2, fresh));

            // Old rows are untouched and their slices gain nothing.
            assert forall|i: int| 0 <= i < rs2.len() implies rollup_matches(
                evs2,
                #[trigger] rs2[i],
            ) by {
                if i < s.rollups.len() {
                    let r = s.rollups[i];
                    assert(rs2[i] == r);
                    assert(rollup_matches(s.events, r));
                    assert(!(r.provider_id == pid && r.date == date)) by {
                        if r.provider_id == pid && r.date == date {
                            assert(rsel_pd(pid, date)(r));
                            lemma_count_where_exists(s.rollups, rsel_pd(pid, date));
                        }
                    }
                    assert(!sel_pd(r.provider_id, r.date)(e));
                    lemma_sum_where_push(s.events, e, sel_pd(r.provider_id, r.date), ev_input());
                    lemma_sum_where_push(s.events, e, sel_pd(r.provider_id, r.date), ev_output());
                    lemma_sum_where_push(
                        s.events,
                        e,
                        sel_pd(r.provider_id, r.date),
                        ev_cache_read(),
                    );
                    lemma_sum_where_push(
                        s.events,
                        e,
                        sel_pd(r.provider_id, r.date),
                        ev_cache_creation(),
                    );
                    lemma_sum_where_push(s.events, e, sel_pd(r.provider_id, r.date), ev_cost());
                    lemma_count_where_push(s.events, e, sel_pd(r.provider_id, r.date));
                    lemma_set_where_push(s.events, e, sel_pd(r.provider_id, r.date), ev_session());
                    assert(rollup_matches(evs2, rs2[i]));
                } else {
                    assert(rs2[i] == fresh);
                }
            }

            // Every event still has its rollup row.
            assert forall|i: int| 0 <= i < evs2.len() implies has_rollup(
                rs2,
                (#[trigger] evs2[i]).provider_id,
                evs2[i].date,
            ) by {
                lemma_count_where_push(
                    s.rollups,
                    fresh,
                    rsel_pd(evs2[i].provider_id, evs2[i].date),
                );
                if i < s.events.len() {
                    assert(evs2[i] == s.events[i]);
                    assert(has_rollup(s.rollups, evs2[i].provider_id, evs2[i].date));
                } else {
                    assert(evs2[i] == e);
                    assert(rsel_pd(pid, date)(fresh));
                    lemma_count_where_exists(s.rollups, rsel_pd(pid, date));
                }
            }
            assert(rollups_wf(s2));
        } else {
            let r0 = s.rollups[j];
            assert(rsel_pd(pid, date)(r0));
            assert(r0.provider_id == pid && r0.date == date);
            let bumped = rollup_bumped(r0, rec.usage, inc);
            let rs2 = s.rollups.update(j, bumped);
            assert(s2.rollups == rs2);
            assert(rs2.len() == s.rollups.len());
            assert(forall|k: int|
                0 <= k < rs2.len() && k != j ==> #[trigger] rs2[k] == s.rollups[k]);

            // Keys are element-wise unchanged, so uniqueness and reachability
            // of every slice's row carry over.
            assert forall|pid2: int, d2: Seq<char>| #[trigger] count_where(
                rs2,
                rsel_pd(pid2, d2),
            ) == count_where(s.rollups, rsel_pd(pid2, d2)) by {
                lemma_sum_where_elementwise(
                    rs2,
                    s.rollups,
                    rsel_pd(pid2, d2),
                    crate::seqs::one::<RollupV>(),
                );
            }

            // The bumped row aggregates its slice, which gained the event.
            lemma_sum_where_push(s.events, e, sel_pd(pid, date), ev_input());
            lemma_sum_where_push(s.events, e, sel_pd(pid, date), ev_output());
            lemma_sum_where_push(s.events, e, sel_pd(pid, date), ev_cache_read());
            lemma_sum_where_push(s.events, e, sel_pd(pid, date), ev_cache_creation());
            lemma_sum_where_push(s.events, e, sel_pd(pid, date), ev_cost());
            lemma_count_where_push(s.events, e, sel_pd(pid, date));
            lemma_set_where_push(s.events, e, sel_pd(pid, date), ev_session());
            lemma_set_where_finite(s.events, sel_pd(pid, date), ev_session());
            assert(sessions_on(evs2, pid, date) == sessions_on(s.events, pid, date).insert(
                e.session_id,
            ));
            if session_exists(s.events, pid, rec.session_id, date) {
                assert(sessions_on(s.events, pid, date).contains(e.session_id));
            }
            assert(sessions_on(evs2, pid, date).len() == sessions_on(s.events, pid, date).len()
                + inc);
            assert(rollup_matches(evs2, bumped));

            assert forall|i: int| 0 <= i < rs2.len() implies rollup_matches(
                evs2,
                #[trigger] rs2[i],
            ) by {
                if i != j {
                    let r = s.rollups[i];
                    assert(rs2[i] == r);
                    assert(rollup_matches(s.events, r));
                    assert(!(r.provider_id == pid && r.date == date)) by {
                        if r.provider_id == pid && r.date == date {
                            assert(rsel_pd(pid, date)(r));
                            lemma_count_where_two(
                                s.rollups,
                                rsel_pd(pid, date),
                                if i < j {
                                    i
                                } else {
                                    j
                                },
                                if i < j {
                                    j
                                } else {
                                    i
                                },
                            );
                        }
                    }
                    assert(!sel_pd(r.provider_id, r.date)(e));
                    lemma_sum_where_push(s.events, e, sel_pd(r.provider_id, r.date), ev_input());
                    lemma_sum_where_push(s.events, e, sel_pd(r.provider_id, r.date), ev_output());
                    lemma_sum_where_push(
                        s.events,
                        e,
                        sel_pd(r.provider_id, r.date),
                        ev_cache_read(),
                    );
                    lemma_sum_where_push(
                        s.events,
                        e,
                        sel_pd(r.provider_id, r.date),
                        ev_cache_creation(),
                    );
                    lemma_sum_where_push(s.events, e, sel_pd(r.provider_id, r.date), ev_cost());
                    lemma_count_where_push(s.events, e, sel_pd(r.provider_id, r.date));
                    lemma_set_where_push(s.events, e, sel_pd(r.provider_id, r.date), ev_session());
                    assert(rollup_matches(evs2, rs2[i]));
                }
            }

            assert forall|i: int| 0 <= i < evs2.len() implies has_rollup(
                rs2,
                (#[trigger] evs2[i]).provider_id,
                evs2[i].date,
            ) by {
                if i < s.events.len() {
                    assert(evs2[i] == s.events[i]);
                    assert(has_rollup(s.rollups, evs2[i].provider_id, evs2[i].date));
                } else {
                    assert(evs2[i] == e);
                    lemma_count_where_exists(s.rollups, rsel_pd(pid, date));
                }
            }
            assert(rollups_wf(s2));
        }
        assert(providers_wf(s2));
    }
}

/// The state after deleting provider `pid`: its usage events and rollups go
/// first, then the provider row itself.
pub open spec fn spec_delete(s: RepoV, pid: int) -> RepoV {
    RepoV {
        providers: crate::seqs::seq_filter(s.providers, psel_not_id(pid)),
        events: crate::seqs::seq_filter(s.events, sel_not_pid(pid)),
        rollups: crate::seqs::seq_filter(s.rollups, rsel_not_pid(pid)),
        next_id: s.next_id,
    }
}

/// The index of the provider row with surrogate id `pid`, or -1.
pub open spec fn find_provider_id(ps: Seq<ProviderV>, pid: int) -> int {
    first_where(ps, psel_id(pid))
}

/// The state after renaming provider `pid`: only its display name moves;
/// an unknown id changes nothing.
pub open spec fn spec_rename(s: RepoV, pid: int, name: Seq<char>) -> RepoV {
    let j = find_provider_id(s.providers, pid);
    if j == -1 {
        s
    } else {
        RepoV {
            providers: s.providers.update(
                j,
                ProviderV { display_name: Some(name), ..s.providers[j] },
            ),
            ..s
        }
    }
}

/// Renaming a provider keeps the store well-formed.
pub proof fn lemma_rename_preserves_wf(s: RepoV, pid: int, name: Seq<char>)
    requires
        wf(s),
    ensures
        wf(spec_rename(s, pid, name)),
{
    let s2 = spec_rename(s, pid, name);
    let ps = s.providers;
    let j = find_provider_id(ps, pid);
    lemma_first_where(ps, psel_id(pid));
    if j != -1 {
        let p = ProviderV { display_name: Some(name), ..ps[j] };
        assert(s2.providers == ps.update(j, p));
        assert forall|id: int| #[trigger] count_where(s2.providers, psel_id(id)) <= 1 by {
            assert(count_where(ps, psel_id(id)) <= 1);
            lemma_sum_where_update(ps, j, p, psel_id(id), crate::seqs::one::<ProviderV>());
        }
        assert forall|h: Seq<char>| #[trigger] count_where(s2.providers, psel_hash(h)) <= 1 by {
            assert(count_where(ps, psel_hash(h)) <= 1);
            lemma_sum_where_update(ps, j, p, psel_hash(h), crate::seqs::one::<ProviderV>());
        }
        lemma_sum_where_update(ps, j, p, psel_active(), crate::seqs::one::<ProviderV>());
        assert forall|i: int|
            0 <= i < s2.providers.len() implies 1 <= (#[trigger] s2.providers[i]).id
            < s2.next_id by {
            if i != j {
                assert(s2.providers[i] == ps[i]);
            }
        }
        assert(events_wf(s2));
        assert forall|i: int| 0 <= i < s2.rollups.len() implies rollup_matches(
            s2.events,
            #[trigger] s2.rollups[i],
        ) by {
            assert(s2.rollups[i] == s.rollups[i]);
        }
        assert(rollups_wf(s2));
    }
}

/// Recognizing a credential keeps the store well-formed; in particular at
/// most one provider row stays active.
pub proof fn lemma_upsert_preserves_wf(
    s: RepoV,
    hash: Seq<char>,
    prefix: Seq<char>,
    url: Option<Seq<char>>,
    now: Seq<char>,
)
    requires
        wf(s),
        upsert_fits(s, hash),
    ensures
        wf(spec_upsert(s, hash, prefix, url, now).0),
        count_where(spec_upsert(s, hash, prefix, url, now).0.providers, psel_active()) == 1,
{
    let s2 = spec_upsert(s, hash, prefix, url, now).0;
    let p = spec_upsert(s, hash, prefix, url, now).1;
    let ps = s.providers;
    let dps = deactivated(ps);
    let j = find_provider(ps, hash);
    lemma_first_where(ps, psel_hash(hash));

    // Deactivation changes no id and no hash, and leaves nothing active.
    assert forall|id: int| #[trigger] count_where(dps, psel_id(id)) == count_where(
        ps,
        psel_id(id),
    ) by {
        lemma_sum_where_elementwise(dps, ps, psel_id(id), crate::seqs::one::<ProviderV>());
    }
    assert forall|h: Seq<char>| #[trigger] count_where(dps, psel_hash(h)) == count_where(
        ps,
        psel_hash(h),
    ) by {
        lemma_sum_where_elementwise(dps, ps, psel_hash(h), crate::seqs::one::<ProviderV>());
    }
    lemma_count_where_exists(dps, psel_active());
    assert(count_where(dps, psel_active()) == 0);

    if j == -1 {
        assert(s2.providers == dps.push(p));
        lemma_count_where_exists(ps, psel_hash(hash));
        assert forall|id: int| #[trigger] count_where(s2.providers, psel_id(id)) <= 1 by {
            lemma_count_where_push(dps, p, psel_id(id));
            if psel_id(id)(p) {
                lemma_count_where_exists(dps, psel_id(id));
            }
        }
        assert forall|h: Seq<char>| #[trigger] count_where(s2.providers, psel_hash(h)) <= 1 by {
            lemma_count_where_push(dps, p, psel_hash(h));
            if psel_hash(h)(p) {
                lemma_count_where_exists(dps, psel_hash(h));
            }
        }
        lemma_count_where_push(dps, p, psel_active());
        assert forall|i: int|
            0 <= i < s2.providers.len() implies 1 <= (#[trigger] s2.providers[i]).id
            < s2.next_id by {
            if i < ps.len() {
                assert(s2.providers[i] == dps[i]);
                assert(dps[i].id == ps[i].id);
            }
        }
    } else {
        assert(psel_hash(hash)(ps[j]));
        assert(s2.providers == dps.update(j, p));
        assert(p.id == ps[j].id && p.hash == ps[j].hash);
        assert forall|id: int| #[trigger] count_where(s2.providers, psel_id(id)) <= 1 by {
            assert(count_where(ps, psel_id(id)) <= 1);
            assert(count_where(dps, psel_id(id)) == count_where(ps, psel_id(id)));
            lemma_sum_where_update(dps, j, p, psel_id(id), crate::seqs::one::<ProviderV>());
        }
        assert forall|h: Seq<char>| #[trigger] count_where(s2.providers, psel_hash(h)) <= 1 by {
            assert(count_where(ps, psel_hash(h)) <= 1);
            assert(count_where(dps, psel_hash(h)) == count_where(ps, psel_hash(h)));
            lemma_sum_where_update(dps, j, p, psel_hash(h), crate::seqs::one::<ProviderV>());
        }
        lemma_sum_where_update(dps, j, p, psel_active(), crate::seqs::one::<ProviderV>());
        assert(count_where(s2.providers, psel_active()) == 1);
        assert forall|i: int|
            0 <= i < s2.providers.len() implies 1 <= (#[trigger] s2.providers[i]).id
            < s2.next_id by {
            if i != j {
                assert(s2.providers[i] == dps[i]);
                assert(dps[i].id == ps[i].id);
            }
        }
    }
    assert(events_wf(s2));
    assert forall|i: int| 0 <= i < s2.rollups.len() implies rollup_matches(
        s2.events,
        #[trigger] s2.rollups[i],
    ) by {
        assert(s2.rollups[i] == s.rollups[i]);
    }
    assert(rollups_wf(s2));
}

/// Manually registering a credential keeps the store well-formed: an
/// existing row only changes its display name, a new row starts inactive.
pub proof fn lemma_create_preserves_wf(
    s: RepoV,
    hash: Seq<char>,
    prefix: Seq<char>,
    name: Option<Seq<char>>,
    now: Seq<char>,
)
    requires
        wf(s),
        upsert_fits(s, hash),
    ensures
        wf(spec_create(s, hash, prefix, name, now).0),
        count_where(spec_create(s, hash, prefix, name, now).0.providers, psel_active())
            == count_where(s.providers, psel_active()),
{
    let s2 = spec_create(s, hash, prefix, name, now).0;
    let p = spec_create(s, hash, prefix, name, now).1;
    let ps = s.providers;
    let j = find_provider(ps, hash);
    lemma_first_where(ps, psel_hash(hash));

    if j == -1 {
        assert(s2.providers == ps.push(p));
        lemma_count_where_exists(ps, psel_hash(hash));
        assert forall|id: int| #[trigger] count_where(s2.providers, psel_id(id)) <= 1 by {
            lemma_count_where_push(ps, p, psel_id(id));
            if psel_id(id)(p) {
                lemma_count_where_exists(ps, psel_id(id));
            }
        }
        assert forall|h: Seq<char>| #[trigger] count_where(s2.providers, psel_hash(h)) <= 1 by {
            lemma_count_where_push(ps, p, psel_hash(h));
            if psel_hash(h)(p) {
                lemma_count_where_exists(ps, psel_hash(h));
            }
        }
        lemma_count_where_push(ps, p, psel_active());
        assert(!psel_active()(p));
    } else if name is Some {
        assert(psel_hash(hash)(ps[j]));
        assert(s2.providers == ps.update(j, p));
        assert(p.id == ps[j].id && p.hash == ps[j].hash && p.is_active == ps[j].is_active);
        assert forall|id: int| #[trigger] count_where(s2.providers, psel_id(id)) <= 1 by {
            assert(count_where(ps, psel_id(id)) <= 1);
            lemma_sum_where_update(ps, j, p, psel_id(id), crate::seqs::one::<ProviderV>());
        }
        assert forall|h: Seq<char>| #[trigger] count_where(s2.providers, psel_hash(h)) <= 1 by {
            assert(count_where(ps, psel_hash(h)) <= 1);
            lemma_sum_where_update(ps, j, p, psel_hash(h), crate::seqs::one::<ProviderV>());
        }
        lemma_sum_where_update(ps, j, p, psel_active(), crate::seqs::one::<ProviderV>());
        assert forall|i: int|
            0 <= i < s2.providers.len() implies 1 <= (#[trigger] s2.providers[i]).id
            < s2.next_id by {
            if i != j {
                assert(s2.providers[i] == ps[i]);
            }
        }
    }
    assert(events_wf(s2));
    assert forall|i: int| 0 <= i < s2.rollups.len() implies rollup_matches(
        s2.events,
        #[trigger] s2.rollups[i],
    ) by {
        assert(s2.rollups[i] == s.rollups[i]);
    }
    assert(rollups_wf(s2));
}

/// Deleting a provider keeps the store well-formed: the surviving rollup
/// rows still aggregate exactly the surviving events.
pub proof fn lemma_delete_preserves_wf(s: RepoV, pid: int)
    requires
        wf(s),
    ensures
        wf(spec_delete(s, pid)),
{
    let s2 = spec_delete(s, pid);
    let pq = psel_not_id(pid);
    let eq = sel_not_pid(pid);
    let rq = rsel_not_pid(pid);
    lemma_seq_filter_elements(s.providers, pq);
    lemma_seq_filter_elements(s.events, eq);
    lemma_seq_filter_elements(s.rollups, rq);

    assert forall|id: int| #[trigger] count_where(s2.providers, psel_id(id)) <= 1 by {
        assert(count_where(s.providers, psel_id(id)) <= 1);
        lemma_sum_where_filter_le(s.providers, pq, psel_id(id), crate::seqs::one::<ProviderV>());
    }
    assert forall|h: Seq<char>| #[trigger] count_where(s2.providers, psel_hash(h)) <= 1 by {
        assert(count_where(s.providers, psel_hash(h)) <= 1);
        lemma_sum_where_filter_le(s.providers, pq, psel_hash(h), crate::seqs::one::<ProviderV>());
    }
    lemma_sum_where_filter_le(s.providers, pq, psel_active(), crate::seqs::one::<ProviderV>());
    assert forall|i: int|
        0 <= i < s2.providers.len() implies 1 <= (#[trigger] s2.providers[i]).id < s2.next_id by {
        let b = s2.providers[i];
        let w = choose|w: int| 0 <= w < s.providers.len() && s.providers[w] == b;
        assert(1 <= s.providers[w].id < s.next_id);
    }
    assert(providers_wf(s2));

    assert forall|pid2: int, mid2: Seq<char>| #[trigger] count_where(
        s2.events,
        sel_msg(pid2, mid2),
    ) <= 1 by {
        assert(count_where(s.events, sel_msg(pid2, mid2)) <= 1);
        lemma_sum_where_filter_le(s.events, eq, sel_msg(pid2, mid2), crate::seqs::one::<EventV>());
    }
    assert forall|i: int| 0 <= i < s2.events.len() implies (#[trigger] s2.events[i]).usage.wf() by {
        let b = s2.events[i];
        let w = choose|w: int| 0 <= w < s.events.len() && s.events[w] == b;
        assert(s.events[w].usage.wf());
    }
    assert(events_wf(s2));

    assert forall|pid2: int, d2: Seq<char>| #[trigger] count_where(
        s2.rollups,
        rsel_pd(pid2, d2),
    ) <= 1 by {
        assert(count_where(s.rollups, rsel_pd(pid2, d2)) <= 1);
        lemma_sum_where_filter_le(s.rollups, rq, rsel_pd(pid2, d2), crate::seqs::one::<RollupV>());
    }
    assert forall|i: int| 0 <= i < s2.rollups.len() implies rollup_matches(
        s2.events,
        #[trigger] s2.rollups[i],
    ) by {
        let r = s2.rollups[i];
        let w = choose|w: int| 0 <= w < s.rollups.len() && s.rollups[w] == r;
        assert(rollup_matches(s.events, r));
        assert(rq(r) && r.provider_id != pid);
        let sel = sel_pd(r.provider_id, r.date);
        lemma_sum_where_filter(s.events, eq, sel, ev_input());
        lemma_sum_where_filter(s.events, eq, sel, ev_output());
        lemma_sum_where_filter(s.events, eq, sel, ev_cache_read());
        lemma_sum_where_filter(s.events, eq, sel, ev_cache_creation());
        lemma_sum_where_filter(s.events, eq, sel, ev_cost());
        lemma_sum_where_filter(s.events, eq, sel, crate::seqs::one::<EventV>());
        lemma_set_where_filter(s.events, eq, sel, ev_session());
    }
    assert forall|i: int| 0 <= i < s2.events.len() implies has_rollup(
        s2.rollups,
        (#[trigger] s2.events[i]).provider_id,
        s2.events[i].date,
    ) by {
        let e = s2.events[i];
        let w = choose|w: int| 0 <= w < s.events.len() && s.events[w] == e;
        assert(has_rollup(s.rollups, e.provider_id, e.date));
        assert(eq(e) && e.provider_id != pid);
        lemma_sum_where_filter(
            s.rollups,
            rq,
            rsel_pd(e.provider_id, e.date),
            crate::seqs::one::<RollupV>(),
        );
    }
    assert(rollups_wf(s2));
}

} // verus!
