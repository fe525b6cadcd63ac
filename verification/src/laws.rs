//! The store's global guarantees, stated and proved over the state model:
//! replay safety, per-day session counting, the single-active-provider
//! invariant, rollup/event consistency and the cache-hit-rate boundary.
use vstd::prelude::*;

use crate::models::{spec_hit_rate, RecordV};
use crate::seqs::{
    count_where, lemma_count_where_exists, lemma_count_where_push, lemma_count_where_two,
    lemma_set_where_finite, lemma_set_where_push, set_where, sum_where,
};
use crate::state::{
    event_of, find_rollup, insert_fits, msg_exists, psel_active, rsel_pd, sel_msg, sel_pd,
    session_exists, sessions_on, spec_insert, wf, RepoV,
};

verus! {

broadcast use vstd::set::group_set_axioms;

/// Recording the same (provider, message id) record twice leaves the store —
/// lifetime stats and every rollup row included — exactly as recording it
/// once: the replay is a no-op, whatever date it lands on.
pub proof fn lemma_insert_idempotent(
    s: RepoV,
    pid: int,
    rec: RecordV,
    d1: Seq<char>,
    d2: Seq<char>,
)
    ensures
        spec_insert(spec_insert(s, pid, rec, d1), pid, rec, d2) == spec_insert(s, pid, rec, d1),
{
    let s1 = spec_insert(s, pid, rec, d1);
    lemma_count_where_exists(s.events, sel_msg(pid, rec.message_id));
    if !msg_exists(s.events, pid, rec.message_id) {
        let e = event_of(pid, rec, d1);
        lemma_count_where_push(s.events, e, sel_msg(pid, rec.message_id));
        assert(sel_msg(pid, rec.message_id)(e));
        assert(msg_exists(s1.events, pid, rec.message_id));
    }
}

/// Two records of the same session, provider and date, with distinct message
/// ids not seen before, and a session not yet seen that day: the day's
/// message count rises by two, its session count by exactly one.
pub proof fn lemma_session_counted_once(
    s: RepoV,
    pid: int,
    r1: RecordV,
    r2: RecordV,
    d: Seq<char>,
)
    requires
        wf(s),
        r1.usage.wf(),
        r2.usage.wf(),
        r1.session_id == r2.session_id,
        r1.message_id != r2.message_id,
        !msg_exists(s.events, pid, r1.message_id),
        !msg_exists(s.events, pid, r2.message_id),
        !session_exists(s.events, pid, r1.session_id, d),
        insert_fits(s, pid, r1, d),
        insert_fits(spec_insert(s, pid, r1, d), pid, r2, d),
    ensures
        ({
            let s2 = spec_insert(spec_insert(s, pid, r1, d), pid, r2, d);
            &&& wf(s2)
            &&& crate::state::has_rollup(s2.rollups, pid, d)
            &&& forall|k: int|
                0 <= k < s2.rollups.len() && rsel_pd(pid, d)(#[trigger] s2.rollups[k]) ==> (
                s2.rollups[k].message_count == count_where(s.events, sel_pd(pid, d)) + 2
                    && s2.rollups[k].session_count == sessions_on(s.events, pid, d).len() + 1)
        }),
{
    let s1 = spec_insert(s, pid, r1, d);
    let s2 = spec_insert(s1, pid, r2, d);
    let e1 = event_of(pid, r1, d);
    let e2 = event_of(pid, r2, d);
    crate::state::lemma_insert_preserves_wf(s, pid, r1, d);
    lemma_count_where_exists(s.events, sel_msg(pid, r1.message_id));
    lemma_count_where_exists(s.events, sel_msg(pid, r2.message_id));
    assert(s1.events == s.events.push(e1));
    lemma_count_where_push(s.events, e1, sel_msg(pid, r2.message_id));
    assert(!sel_msg(pid, r2.message_id)(e1));
    assert(!msg_exists(s1.events, pid, r2.message_id));
    crate::state::lemma_insert_preserves_wf(s1, pid, r2, d);
    assert(s2.events == s1.events.push(e2));

    // Message count: both events land in the (pid, d) slice.
    lemma_count_where_push(s.events, e1, sel_pd(pid, d));
    lemma_count_where_push(s1.events, e2, sel_pd(pid, d));
    assert(sel_pd(pid, d)(e1) && sel_pd(pid, d)(e2));
    assert(count_where(s2.events, sel_pd(pid, d)) == count_where(s.events, sel_pd(pid, d)) + 2);

    // Session set: both events carry the same session id, so it is inserted
    // once and absorbed the second time.
    lemma_set_where_push(s.events, e1, sel_pd(pid, d), crate::state::ev_session());
    lemma_set_where_push(s1.events, e2, sel_pd(pid, d), crate::state::ev_session());
    lemma_set_where_finite(s.events, sel_pd(pid, d), crate::state::ev_session());
    let ss = sessions_on(s.events, pid, d);
    assert(!ss.contains(r1.session_id));
    assert(sessions_on(s1.events, pid, d) == ss.insert(r1.session_id));
    assert(sessions_on(s2.events, pid, d) == ss.insert(r1.session_id).insert(r2.session_id));
    assert(ss.insert(r1.session_id).insert(r2.session_id) =~= ss.insert(r1.session_id));
    assert(sessions_on(s2.events, pid, d).len() == ss.len() + 1);

    // The day's rollup row exists and aggregates the slice.
    assert(msg_exists(s2.events, pid, r2.message_id)) by {
        lemma_count_where_push(s1.events, e2, sel_msg(pid, r2.message_id));
        lemma_count_where_exists(s1.events, sel_msg(pid, r2.message_id));
        assert(sel_msg(pid, r2.message_id)(e2));
    }
    assert(crate::state::has_rollup(s2.rollups, pid, d)) by {
        assert(0 <= s2.events.len() - 1 < s2.events.len());
        assert(s2.events[s2.events.len() - 1] == e2);
        assert(crate::state::has_rollup(s2.rollups, e2.provider_id, e2.date));
    }
    assert forall|k: int|
        0 <= k < s2.rollups.len() && rsel_pd(pid, d)(#[trigger] s2.rollups[k]) implies (
    s2.rollups[k].message_count == count_where(s.events, sel_pd(pid, d)) + 2
        && s2.rollups[k].session_count == sessions_on(s.events, pid, d).len() + 1) by {
        assert(crate::state::rollup_matches(s2.events, s2.rollups[k]));
        assert(s2.rollups[k].provider_id == pid && s2.rollups[k].date == d);
    }
}

/// At most one provider is active in a well-formed store, however many
/// recognitions led to it.
pub proof fn lemma_single_active(s: RepoV)
    requires
        wf(s),
    ensures
        count_where(s.providers, psel_active()) <= 1,
        forall|i: int, j: int|
            0 <= i < s.providers.len() && 0 <= j < s.providers.len() && i != j ==> !((
            #[trigger] s.providers[i]).is_active && (#[trigger] s.providers[j]).is_active),
{
    assert forall|i: int, j: int|
        0 <= i < s.providers.len() && 0 <= j < s.providers.len() && i != j implies !((
    #[trigger] s.providers[i]).is_active && (#[trigger] s.providers[j]).is_active) by {
        if s.providers[i].is_active && s.providers[j].is_active {
            lemma_count_where_two(
                s.providers,
                psel_active(),
                if i < j {
                    i
                } else {
                    j
                },
                if i < j {
                    j
                } else {
                    i
                },
            );
        }
    }
}

/// With no input and no cache-read tokens the cache-hit rate is exactly
/// zero: the empty denominator never divides.
pub proof fn lemma_hit_rate_empty()
    ensures
        spec_hit_rate(0, 0) == 0,
{
}

/// Selects the events of one provider in an inclusive date range whose
/// (provider, date) slice has a rollup row in `rs`.
pub open spec fn sel_covered(
    rs: Seq<crate::state::RollupV>,
    pid: int,
    lo: Seq<char>,
    hi: Seq<char>,
) -> spec_fn(crate::state::EventV) -> bool {
    |e: crate::state::EventV| e.provider_id == pid && crate::text::seq_le(lo, e.date)
        && crate::text::seq_le(e.date, hi) && crate::state::has_rollup(rs, pid, e.date)
}

/// Summing a rollup weight over the rows of one provider and date range
/// equals summing the matching event weight over the covered events, as long
/// as rollup keys are unique and every row carries its slice's exact sum.
proof fn lemma_range_sum_covered(
    rs: Seq<crate::state::RollupV>,
    evs: Seq<crate::state::EventV>,
    pid: int,
    lo: Seq<char>,
    hi: Seq<char>,
    rf: spec_fn(crate::state::RollupV) -> int,
    ef: spec_fn(crate::state::EventV) -> int,
)
    requires
        forall|p2: int, d2: Seq<char>| #[trigger] count_where(rs, rsel_pd(p2, d2)) <= 1,
        forall|k: int|
            0 <= k < rs.len() ==> rf(#[trigger] rs[k]) == sum_where(
                evs,
                sel_pd(rs[k].provider_id, rs[k].date),
                ef,
            ),
    ensures
        sum_where(rs, crate::state::rsel_pid_range(pid, lo, hi), rf) == sum_where(
            evs,
            sel_covered(rs, pid, lo, hi),
            ef,
        ),
    decreases rs.len(),
{
    if rs.len() == 0 {
        assert forall|i: int| 0 <= i < evs.len() implies !(sel_covered(rs, pid, lo, hi)(
            #[trigger] evs[i],
        )) by {
            assert(count_where(rs, rsel_pd(pid, evs[i].date)) == 0);
        }
        crate::seqs::lemma_sum_where_none(evs, sel_covered(rs, pid, lo, hi), ef);
    } else {
        let rs0 = rs.drop_last();
        let r = rs.last();
        assert(forall|k: int| 0 <= k < rs0.len() ==> #[trigger] rs0[k] == rs[k]);
        assert(r == rs[rs.len() - 1]);
        assert forall|p2: int, d2: Seq<char>| #[trigger] count_where(rs0, rsel_pd(p2, d2))
            <= 1 by {
            assert(count_where(rs, rsel_pd(p2, d2)) <= 1);
        }
        lemma_range_sum_covered(rs0, evs, pid, lo, hi, rf, ef);
        if crate::state::rsel_pid_range(pid, lo, hi)(r) {
            // The last row's slice joins the covered events, disjointly.
            assert forall|i: int|
                0 <= i < evs.len() implies (sel_covered(rs, pid, lo, hi)(#[trigger] evs[i]) == (
            sel_covered(rs0, pid, lo, hi)(evs[i]) || sel_pd(pid, r.date)(evs[i])) && !(sel_covered(
                rs0,
                pid,
                lo,
                hi,
            )(evs[i]) && sel_pd(pid, r.date)(evs[i]))) by {
                let e = evs[i];
                assert(count_where(rs, rsel_pd(pid, e.date)) == count_where(
                    rs0,
                    rsel_pd(pid, e.date),
                ) + (if rsel_pd(pid, e.date)(r) {
                    1int
                } else {
                    0
                }));
                lemma_count_where_exists(rs0, rsel_pd(pid, e.date));
                lemma_count_where_exists(rs, rsel_pd(pid, e.date));
                if sel_covered(rs0, pid, lo, hi)(e) && sel_pd(pid, r.date)(e) {
                    assert(rsel_pd(pid, e.date)(r));
                    assert(count_where(rs, rsel_pd(pid, e.date)) >= 2);
                }
            }
            crate::seqs::lemma_sum_where_split(
                evs,
                sel_covered(rs, pid, lo, hi),
                sel_covered(rs0, pid, lo, hi),
                sel_pd(pid, r.date),
                ef,
            );
            assert(rf(r) == sum_where(evs, sel_pd(pid, r.date), ef));
        } else {
            assert forall|i: int|
                0 <= i < evs.len() implies sel_covered(rs, pid, lo, hi)(#[trigger] evs[i])
                == sel_covered(rs0, pid, lo, hi)(evs[i]) by {
                let e = evs[i];
                assert(count_where(rs, rsel_pd(pid, e.date)) == count_where(
                    rs0,
                    rsel_pd(pid, e.date),
                ) + (if rsel_pd(pid, e.date)(r) {
                    1int
                } else {
                    0
                }));
                lemma_count_where_exists(rs0, rsel_pd(pid, e.date));
                lemma_count_where_exists(rs, rsel_pd(pid, e.date));
            }
            crate::seqs::lemma_sum_where_congruent(
                evs,
                sel_covered(rs, pid, lo, hi),
                ef,
                sel_covered(rs0, pid, lo, hi),
                ef,
            );
        }
    }
}

/// Rollup consistency: for any provider and inclusive date range, summing
/// the rollup rows equals summing the matching usage events directly — for
/// every token field, the cost, and the message count. The derived table
/// never drifts from the authoritative one.
pub proof fn lemma_rollup_consistency(s: RepoV, pid: int, lo: Seq<char>, hi: Seq<char>)
    requires
        wf(s),
    ensures
        ({
            let rsel = crate::state::rsel_pid_range(pid, lo, hi);
            let esel = crate::state::sel_pid_range(pid, lo, hi);
            &&& sum_where(s.rollups, rsel, crate::queries::rw_input()) == sum_where(
                s.events,
                esel,
                crate::state::ev_input(),
            )
            &&& sum_where(s.rollups, rsel, crate::queries::rw_output()) == sum_where(
                s.events,
                esel,
                crate::state::ev_output(),
            )
            &&& sum_where(s.rollups, rsel, crate::queries::rw_cache_read()) == sum_where(
                s.events,
                esel,
                crate::state::ev_cache_read(),
            )
            &&& sum_where(s.rollups, rsel, crate::queries::rw_cache_creation()) == sum_where(
                s.events,
                esel,
                crate::state::ev_cache_creation(),
            )
            &&& sum_where(s.rollups, rsel, crate::queries::rw_cost()) == sum_where(
                s.events,
                esel,
                crate::state::ev_cost(),
            )
            &&& sum_where(s.rollups, rsel, crate::queries::rw_messages()) == count_where(
                s.events,
                esel,
            )
        }),
{
    let rs = s.rollups;
    let evs = s.events;
    assert forall|k: int|
        0 <= k < rs.len() implies crate::state::rollup_matches(evs, #[trigger] rs[k]) by {}
    lemma_range_sum_covered(rs, evs, pid, lo, hi, crate::queries::rw_input(), crate::state::ev_input());
    lemma_range_sum_covered(rs, evs, pid, lo, hi, crate::queries::rw_output(), crate::state::ev_output());
    lemma_range_sum_covered(
        rs,
        evs,
        pid,
        lo,
        hi,
        crate::queries::rw_cache_read(),
        crate::state::ev_cache_read(),
    );
    lemma_range_sum_covered(
        rs,
        evs,
        pid,
        lo,
        hi,
        crate::queries::rw_cache_creation(),
        crate::state::ev_cache_creation(),
    );
    lemma_range_sum_covered(rs, evs, pid, lo, hi, crate::queries::rw_cost(), crate::state::ev_cost());
    lemma_range_sum_covered(
        rs,
        evs,
        pid,
        lo,
        hi,
        crate::queries::rw_messages(),
        crate::seqs::one::<crate::state::EventV>(),
    );
    // Every event of the provider and range is covered: its slice has a row.
    assert forall|i: int|
        0 <= i < evs.len() implies sel_covered(rs, pid, lo, hi)(#[trigger] evs[i])
        == crate::state::sel_pid_range(pid, lo, hi)(evs[i]) by {
        if crate::state::sel_pid_range(pid, lo, hi)(evs[i]) {
            assert(crate::state::has_rollup(rs, evs[i].provider_id, evs[i].date));
        }
    }
    crate::seqs::lemma_sum_where_congruent(
        evs,
        sel_covered(rs, pid, lo, hi),
        crate::state::ev_input(),
        crate::state::sel_pid_range(pid, lo, hi),
        crate::state::ev_input(),
    );
    crate::seqs::lemma_sum_where_congruent(
        evs,
        sel_covered(rs, pid, lo, hi),
        crate::state::ev_output(),
        crate::state::sel_pid_range(pid, lo, hi),
        crate::state::ev_output(),
    );
    crate::seqs::lemma_sum_where_congruent(
        evs,
        sel_covered(rs, pid, lo, hi),
        crate::state::ev_cache_read(),
        crate::state::sel_pid_range(pid, lo, hi),
        crate::state::ev_cache_read(),
    );
    crate::seqs::lemma_sum_where_congruent(
        evs,
        sel_covered(rs, pid, lo, hi),
        crate::state::ev_cache_creation(),
        crate::state::sel_pid_range(pid, lo, hi),
        crate::state::ev_cache_creation(),
    );
    crate::seqs::lemma_sum_where_congruent(
        evs,
        sel_covered(rs, pid, lo, hi),
        crate::state::ev_cost(),
        crate::state::sel_pid_range(pid, lo, hi),
        crate::state::ev_cost(),
    );
    crate::seqs::lemma_sum_where_congruent(
        evs,
        sel_covered(rs, pid, lo, hi),
        crate::seqs::one::<crate::state::EventV>(),
        crate::state::sel_pid_range(pid, lo, hi),
        crate::seqs::one::<crate::state::EventV>(),
    );
}

} // verus!
