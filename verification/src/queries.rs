//! Read queries over the store: lifetime totals with a per-model breakdown,
//! today's aggregates, and per-day activity for a date range.
//!
//! Each query is a pure fold over the event or rollup relation; the
//! contracts state every returned number as an exact sum over that relation.
use vstd::prelude::*;
use vstd::string::*;

use crate::clock;
use crate::models::{
    find_model, model_sel, spec_add_model, spec_hit_rate, ModelUsage, ModelUsageV, StatsCache,
    TodayStats,
};
use crate::seqs::{
    count_where, lemma_count_where_exists, lemma_count_where_push, lemma_count_where_two,
    lemma_first_where, lemma_set_where_card_le, lemma_set_where_finite, lemma_set_where_push,
    lemma_sum_where_nonneg, lemma_sum_where_prefix_monotone, lemma_sum_where_push,
    lemma_sum_where_subset, set_where, sum_where,
};
use crate::state::{
    ev_cache_creation, ev_cache_read, ev_cost, ev_input, ev_output, ev_session, sel_all, sel_model,
    EventV,
};
use crate::store::{Repository, RepositoryError};

verus! {

broadcast use vstd::set::group_set_axioms;

/// The per-model row a single event contributes.
pub open spec fn model_row_of(e: EventV) -> ModelUsageV {
    ModelUsageV {
        model: e.model,
        input: e.usage.input,
        output: e.usage.output,
        cache_read: e.usage.cache_read,
        cache_creation: e.usage.cache_creation,
        cost: e.usage.cost,
        count: 1,
    }
}

/// The per-model breakdown of a sequence of events: each event's row
/// absorbed in turn.
pub open spec fn grouped(evs: Seq<EventV>) -> Seq<ModelUsageV>
    decreases evs.len(),
{
    if evs.len() == 0 {
        Seq::empty()
    } else {
        spec_add_model(grouped(evs.drop_last()), model_row_of(evs.last()))
    }
}

/// Whether a breakdown row carries exactly the sums of its model's events.
pub open spec fn model_row_matches(evs: Seq<EventV>, m: ModelUsageV) -> bool {
    let sel = sel_model(m.model);
    &&& m.input == sum_where(evs, sel, ev_input())
    &&& m.output == sum_where(evs, sel, ev_output())
    &&& m.cache_read == sum_where(evs, sel, ev_cache_read())
    &&& m.cache_creation == sum_where(evs, sel, ev_cache_creation())
    &&& m.cost == sum_where(evs, sel, ev_cost())
    &&& m.count == count_where(evs, sel)
    &&& m.count >= 1
}

/// Whether the breakdown has a row for `name`.
pub open spec fn found_model(ms: Seq<ModelUsageV>, name: Seq<char>) -> bool {
    count_where(ms, model_sel(name)) >= 1
}

/// What `grouped` produces: one row per model seen, each carrying exactly
/// that model's sums.
pub proof fn lemma_grouped(evs: Seq<EventV>)
    ensures
        forall|name: Seq<char>| count_where(grouped(evs), #[trigger] model_sel(name)) <= 1,
        forall|k: int|
            0 <= k < grouped(evs).len() ==> model_row_matches(evs, #[trigger] grouped(evs)[k]),
        forall|i: int| 0 <= i < evs.len() ==> found_model(grouped(evs), (#[trigger] evs[i]).model),
    decreases evs.len(),
{
    if evs.len() > 0 {
        let evs0 = evs.drop_last();
        let e = evs.last();
        let ms0 = grouped(evs0);
        let row = model_row_of(e);
        let ms = grouped(evs);
        lemma_grouped(evs0);
        lemma_first_where(ms0, model_sel(e.model));
        lemma_count_where_exists(ms0, model_sel(e.model));
        let j = find_model(ms0, e.model);
        assert(evs0 =~= evs.take(evs.len() - 1));
        assert(forall|i: int| 0 <= i < evs.len() - 1 ==> #[trigger] evs0[i] == evs[i]);
        assert(e == evs[evs.len() - 1]);
        if j == -1 {
            assert(ms == ms0.push(row));
            // No row for this model means no earlier event of this model.
            assert forall|i: int| 0 <= i < evs0.len() implies !(sel_model(e.model)(
                #[trigger] evs0[i],
            )) by {
                if evs0[i].model == e.model {
                    assert(found_model(ms0, e.model));
                }
            }
            crate::seqs::lemma_sum_where_none(evs0, sel_model(e.model), ev_input());
            crate::seqs::lemma_sum_where_none(evs0, sel_model(e.model), ev_output());
            crate::seqs::lemma_sum_where_none(evs0, sel_model(e.model), ev_cache_read());
            crate::seqs::lemma_sum_where_none(evs0, sel_model(e.model), ev_cache_creation());
            crate::seqs::lemma_sum_where_none(evs0, sel_model(e.model), ev_cost());
            crate::seqs::lemma_sum_where_none(
                evs0,
                sel_model(e.model),
                crate::seqs::one::<EventV>(),
            );
            assert forall|name: Seq<char>| count_where(ms, #[trigger] model_sel(name)) <= 1 by {
                lemma_count_where_push(ms0, row, model_sel(name));
                if model_sel(name)(row) {
                    assert(name == e.model);
                }
            }
            assert forall|k: int| 0 <= k < ms.len() implies model_row_matches(
                evs,
                #[trigger] ms[k],
            ) by {
                if k < ms0.len() {
                    assert(ms[k] == ms0[k]);
                    assert(!(ms0[k].model == e.model)) by {
                        if ms0[k].model == e.model {
                            assert(model_sel(e.model)(ms0[k]));
                        }
                    }
                    lemma_sum_where_push(evs0, e, sel_model(ms0[k].model), ev_input());
                    lemma_sum_where_push(evs0, e, sel_model(ms0[k].model), ev_output());
                    lemma_sum_where_push(evs0, e, sel_model(ms0[k].model), ev_cache_read());
                    lemma_sum_where_push(evs0, e, sel_model(ms0[k].model), ev_cache_creation());
                    lemma_sum_where_push(evs0, e, sel_model(ms0[k].model), ev_cost());
                    lemma_count_where_push(evs0, e, sel_model(ms0[k].model));
                    assert(evs0.push(e) =~= evs);
                } else {
                    assert(ms[k] == row);
                    lemma_sum_where_push(evs0, e, sel_model(e.model), ev_input());
                    lemma_sum_where_push(evs0, e, sel_model(e.model), ev_output());
                    lemma_sum_where_push(evs0, e, sel_model(e.model), ev_cache_read());
                    lemma_sum_where_push(evs0, e, sel_model(e.model), ev_cache_creation());
                    lemma_sum_where_push(evs0, e, sel_model(e.model), ev_cost());
                    lemma_count_where_push(evs0, e, sel_model(e.model));
                    assert(evs0.push(e) =~= evs);
                }
            }
            assert forall|i: int| 0 <= i < evs.len() implies found_model(
                ms,
                (#[trigger] evs[i]).model,
            ) by {
                lemma_count_where_push(ms0, row, model_sel(evs[i].model));
                if i < evs.len() - 1 {
                    assert(found_model(ms0, evs0[i].model));
                    lemma_count_where_exists(ms0, model_sel(evs[i].model));
                } else {
                    assert(model_sel(evs[i].model)(row));
                    lemma_count_where_exists(ms0, model_sel(evs[i].model));
                }
            }
        } else {
            assert(model_sel(e.model)(ms0[j]));
            assert(ms0[j].model == e.model);
            let merged = ModelUsageV {
                model: ms0[j].model,
                input: ms0[j].input + row.input,
                output: ms0[j].output + row.output,
                cache_read: ms0[j].cache_read + row.cache_read,
                cache_creation: ms0[j].cache_creation + row.cache_creation,
                cost: ms0[j].cost + row.cost,
                count: ms0[j].count + row.count,
            };
            assert(ms == ms0.update(j, merged));
            assert forall|name: Seq<char>| count_where(ms, #[trigger] model_sel(name)) <= 1 by {
                assert(count_where(ms0, model_sel(name)) <= 1);
                crate::seqs::lemma_sum_where_update(
                    ms0,
                    j,
                    merged,
                    model_sel(name),
                    crate::seqs::one::<ModelUsageV>(),
                );
            }
            assert forall|k: int| 0 <= k < ms.len() implies model_row_matches(
                evs,
                #[trigger] ms[k],
            ) by {
                if k != j {
                    assert(ms[k] == ms0[k]);
                    assert(!(ms0[k].model == e.model)) by {
                        if ms0[k].model == e.model {
                            assert(model_sel(e.model)(ms0[k]));
                            lemma_count_where_two(
                                ms0,
                                model_sel(e.model),
                                if k < j {
                                    k
                                } else {
                                    j
                                },
                                if k < j {
                                    j
                                } else {
                                    k
                                },
                            );
                        }
                    }
                    lemma_sum_where_push(evs0, e, sel_model(ms0[k].model), ev_input());
                    lemma_sum_where_push(evs0, e, sel_model(ms0[k].model), ev_output());
                    lemma_sum_where_push(evs0, e, sel_model(ms0[k].model), ev_cache_read());
                    lemma_sum_where_push(evs0, e, sel_model(ms0[k].model), ev_cache_creation());
                    lemma_sum_where_push(evs0, e, sel_model(ms0[k].model), ev_cost());
                    lemma_count_where_push(evs0, e, sel_model(ms0[k].model));
                    assert(evs0.push(e) =~= evs);
                } else {
                    assert(ms[k] == merged);
                    lemma_sum_where_push(evs0, e, sel_model(e.model), ev_input());
                    lemma_sum_where_push(evs0, e, sel_model(e.model), ev_output());
                    lemma_sum_where_push(evs0, e, sel_model(e.model), ev_cache_read());
                    lemma_sum_where_push(evs0, e, sel_model(e.model), ev_cache_creation());
                    lemma_sum_where_push(evs0, e, sel_model(e.model), ev_cost());
                    lemma_count_where_push(evs0, e, sel_model(e.model));
                    assert(evs0.push(e) =~= evs);
                }
            }
            assert forall|i: int| 0 <= i < evs.len() implies found_model(
                ms,
                (#[trigger] evs[i]).model,
            ) by {
                crate::seqs::lemma_sum_where_update(
                    ms0,
                    j,
                    merged,
                    model_sel(evs[i].model),
                    crate::seqs::one::<ModelUsageV>(),
                );
                if i < evs.len() - 1 {
                    assert(found_model(ms0, evs0[i].model));
                } else {
                    assert(model_sel(e.model)(ms0[j]) && model_sel(e.model)(merged));
                    lemma_count_where_exists(ms0, model_sel(e.model));
                }
            }
        }
    }
}

/// Whether every lifetime total fits in 64 bits.
pub open spec fn lifetime_fits(evs: Seq<EventV>) -> bool {
    &&& sum_where(evs, sel_all(), ev_input()) <= i64::MAX
    &&& sum_where(evs, sel_all(), ev_output()) <= i64::MAX
    &&& sum_where(evs, sel_all(), ev_cache_read()) <= i64::MAX
    &&& sum_where(evs, sel_all(), ev_cache_creation()) <= i64::MAX
    &&& sum_where(evs, sel_all(), ev_cost()) <= i64::MAX
    &&& evs.len() <= i64::MAX
}

/// Every event weight used by the lifetime totals is non-negative on a
/// well-formed event relation.
proof fn lemma_event_weights_nonneg(evs: Seq<EventV>)
    requires
        forall|i: int| 0 <= i < evs.len() ==> (#[trigger] evs[i]).usage.wf(),
    ensures
        sum_where(evs, sel_all(), ev_input()) >= 0,
        sum_where(evs, sel_all(), ev_output()) >= 0,
        sum_where(evs, sel_all(), ev_cache_read()) >= 0,
        sum_where(evs, sel_all(), ev_cache_creation()) >= 0,
        sum_where(evs, sel_all(), ev_cost()) >= 0,
{
    lemma_sum_where_nonneg(evs, sel_all(), ev_input());
    lemma_sum_where_nonneg(evs, sel_all(), ev_output());
    lemma_sum_where_nonneg(evs, sel_all(), ev_cache_read());
    lemma_sum_where_nonneg(evs, sel_all(), ev_cache_creation());
    lemma_sum_where_nonneg(evs, sel_all(), ev_cost());
}

/// The count of all elements is the length.
proof fn lemma_count_all(evs: Seq<EventV>)
    ensures
        count_where(evs, sel_all()) == evs.len(),
    decreases evs.len(),
{
    if evs.len() > 0 {
        lemma_count_all(evs.drop_last());
    }
}

impl Repository {
    /// The lifetime snapshot: totals over every stored event, the number of
    /// distinct sessions and of messages, the cache-hit rate, and a
    /// per-model breakdown sorted by descending cost in which every model
    /// ever recorded has exactly one row carrying exactly its sums. Fails
    /// with `Overflow` exactly when some lifetime total no longer fits.
    pub fn get_current_stats(&self) -> (r: Result<StatsCache, RepositoryError>)
        requires
            self.wf(),
        ensures
            r is Ok <==> lifetime_fits(self@.events),
            (match r {
                Ok(sc) => {
                    let evs = self@.events;
                    let ms = sc.models@.map_values(|m: ModelUsage| m@);
                    &&& sc.total_input_tokens == sum_where(evs, sel_all(), ev_input())
                    &&& sc.total_output_tokens == sum_where(evs, sel_all(), ev_output())
                    &&& sc.total_cache_read_tokens == sum_where(evs, sel_all(), ev_cache_read())
                    &&& sc.total_cache_creation_tokens == sum_where(
                        evs,
                        sel_all(),
                        ev_cache_creation(),
                    )
                    &&& sc.total_cost_micros == sum_where(evs, sel_all(), ev_cost())
                    &&& sc.total_sessions == set_where(evs, sel_all(), ev_session()).len()
                    &&& sc.total_messages == evs.len()
                    &&& sc.cache_hit_rate == spec_hit_rate(
                        sum_where(evs, sel_all(), ev_cache_read()),
                        sum_where(evs, sel_all(), ev_input()),
                    )
                    &&& forall|name: Seq<char>| count_where(ms, #[trigger] model_sel(name)) <= 1
                    &&& forall|k: int|
                        0 <= k < ms.len() ==> model_row_matches(evs, #[trigger] ms[k])
                    &&& forall|i: int|
                        0 <= i < evs.len() ==> found_model(ms, (#[trigger] evs[i]).model)
                    &&& forall|a: int, b: int|
                        (0 <= a && a < b && b < ms.len()) ==> #[trigger] ms[b].cost
                            <= #[trigger] ms[a].cost
                },
                Err(e) => e == RepositoryError::Overflow,
            }),
    {
        broadcast use vstd::seq_lib::group_to_multiset_ensures;

        let ghost evs = self@.events;
        let n = self.events.len();
        proof {
            assert(evs.len() == n as int);
        }
        if n as u64 > (i64::MAX as u64) {
            return Err(RepositoryError::Overflow);
        }
        proof {
            lemma_count_all(evs);
        }

        // Lifetime token and cost totals.
        let mut input_t: i64 = 0;
        let mut output_t: i64 = 0;
        let mut cache_read_t: i64 = 0;
        let mut cache_creation_t: i64 = 0;
        let mut cost_t: i64 = 0;
        let mut i: usize = 0;
        proof {
            assert(evs.take(0) =~= Seq::<EventV>::empty());
        }
        while i < n
            invariant
                i <= n,
                n == self.events.len(),
                evs == self@.events,
                input_t == sum_where(evs.take(i as int), sel_all(), ev_input()),
                output_t == sum_where(evs.take(i as int), sel_all(), ev_output()),
                cache_read_t == sum_where(evs.take(i as int), sel_all(), ev_cache_read()),
                cache_creation_t == sum_where(evs.take(i as int), sel_all(), ev_cache_creation()),
                cost_t == sum_where(evs.take(i as int), sel_all(), ev_cost()),
                0 <= input_t,
                0 <= output_t,
                0 <= cache_read_t,
                0 <= cache_creation_t,
                0 <= cost_t,
            decreases n - i,
        {
            proof {
                assert(evs.take(i + 1 as int).drop_last() =~= evs.take(i as int));
                assert(evs.take(i + 1 as int).last() == evs[i as int]);
                assert(evs[i as int].usage.wf());
            }
            let u = &self.events[i].usage;
            if input_t > i64::MAX - u.input_tokens || output_t > i64::MAX - u.output_tokens
                || cache_read_t > i64::MAX - u.cache_read_tokens || cache_creation_t > i64::MAX
                - u.cache_creation_tokens || cost_t > i64::MAX - u.cost_micros {
                proof {
                    lemma_sum_where_prefix_monotone(evs, i + 1, sel_all(), ev_input());
                    lemma_sum_where_prefix_monotone(evs, i + 1, sel_all(), ev_output());
                    lemma_sum_where_prefix_monotone(evs, i + 1, sel_all(), ev_cache_read());
                    lemma_sum_where_prefix_monotone(evs, i + 1, sel_all(), ev_cache_creation());
                    lemma_sum_where_prefix_monotone(evs, i + 1, sel_all(), ev_cost());
                }
                return Err(RepositoryError::Overflow);
            }
            input_t = input_t + u.input_tokens;
            output_t = output_t + u.output_tokens;
            cache_read_t = cache_read_t + u.cache_read_tokens;
            cache_creation_t = cache_creation_t + u.cache_creation_tokens;
            cost_t = cost_t + u.cost_micros;
            i = i + 1;
        }
        proof {
            assert(evs.take(n as int) =~= evs);
        }

        // Distinct sessions.
        let mut seen: Vec<String> = Vec::new();
        let mut sessions: i64 = 0;
        let mut i: usize = 0;
        proof {
            assert(set_where(evs.take(0), sel_all(), ev_session()) =~= Set::<Seq<char>>::empty());
        }
        while i < n
            invariant
                i <= n,
                n == self.events.len(),
                evs == self@.events,
                sessions == set_where(evs.take(i as int), sel_all(), ev_session()).len(),
                0 <= sessions <= i,
                forall|sid: Seq<char>|
                    (exists|k: int| 0 <= k < seen@.len() && (#[trigger] seen@[k])@ == sid)
                        <==> set_where(evs.take(i as int), sel_all(), ev_session()).contains(sid),
            decreases n - i,
        {
            let ghost ss = set_where(evs.take(i as int), sel_all(), ev_session());
            proof {
                assert(evs.take(i + 1 as int).drop_last() =~= evs.take(i as int));
                assert(evs.take(i + 1 as int).last() == evs[i as int]);
                lemma_set_where_push(evs.take(i as int), evs[i as int], sel_all(), ev_session());
                lemma_set_where_finite(evs.take(i as int), sel_all(), ev_session());
            }
            let sid = &self.events[i].session_id;
            let mut found = false;
            let m = seen.len();
            let mut k: usize = 0;
            while k < m
                invariant
                    k <= m,
                    m == seen.len(),
                    !found ==> forall|q: int| 0 <= q < k ==> (#[trigger] seen@[q])@ != sid@,
                    found ==> (exists|q: int|
                        0 <= q < seen@.len() && (#[trigger] seen@[q])@ == sid@),
                decreases m - k,
            {
                if crate::text::str_eq(seen[k].as_str(), sid.as_str()) {
                    proof {
                        assert((seen@[k as int])@ == sid@);
                    }
                    found = true;
                    break ;
                }
                k = k + 1;
            }
            proof {
                if found {
                    assert(ss.contains(sid@));
                    assert(ss.insert(sid@) =~= ss);
                } else {
                    assert(!ss.contains(sid@));
                }
            }
            if !found {
                let ghost seen0 = seen@;
                seen.push(sid.clone());
                sessions = sessions + 1;
                proof {
                    let ss2 = set_where(evs.take(i + 1 as int), sel_all(), ev_session());
                    assert(ss2 == ss.insert(sid@));
                    assert forall|s2: Seq<char>|
                        #![trigger set_where(evs.take(i + 1 as int), sel_all(), ev_session()).contains(s2)]
                        (exists|q: int| 0 <= q < seen@.len() && (#[trigger] seen@[q])@ == s2)
                            <==> set_where(
                            evs.take(i + 1 as int),
                            sel_all(),
                            ev_session(),
                        ).contains(s2) by {
                        if s2 == sid@ {
                            assert((seen@[seen@.len() - 1])@ == s2);
                            assert(ss2.contains(s2));
                        } else {
                            if exists|q: int|
                                0 <= q < seen@.len() && (#[trigger] seen@[q])@ == s2 {
                                let q = choose|q: int|
                                    0 <= q < seen@.len() && (#[trigger] seen@[q])@ == s2;
                                assert(q < seen0.len());
                                assert((seen0[q])@ == s2);
                                assert(ss.contains(s2));
                            }
                            if ss2.contains(s2) {
                                assert(ss.contains(s2));
                                let q = choose|q: int|
                                    0 <= q < seen0.len() && (#[trigger] seen0[q])@ == s2;
                                assert((seen@[q])@ == s2);
                            }
                        }
                    }
                }
            }
            i = i + 1;
        }
        proof {
            assert(evs.take(n as int) =~= evs);
        }

        // Per-model breakdown.
        let mut cache = StatsCache::default();
        let mut i: usize = 0;
        proof {
            assert(cache.models@.map_values(|m: ModelUsage| m@) =~= grouped(evs.take(0)));
        }
        while i < n
            invariant
                i <= n,
                n == self.events.len(),
                evs == self@.events,
                lifetime_fits(evs),
                cache.models@.map_values(|m: ModelUsage| m@) == grouped(evs.take(i as int)),
            decreases n - i,
        {
            let ghost prefix = evs.take(i as int);
            let ghost ms0 = grouped(prefix);
            proof {
                assert(evs.take(i + 1 as int).drop_last() =~= prefix);
                assert(evs.take(i + 1 as int).last() == evs[i as int]);
                lemma_grouped(prefix);
                assert(evs[i as int].usage.wf());
                let name = evs[i as int].model;
                let j = find_model(ms0, name);
                lemma_first_where(ms0, model_sel(name));
                if j != -1 {
                    assert(model_row_matches(prefix, ms0[j]));
                    assert(ms0[j].model == name);
                    lemma_sum_where_push(prefix, evs[i as int], sel_model(name), ev_input());
                    lemma_sum_where_push(prefix, evs[i as int], sel_model(name), ev_output());
                    lemma_sum_where_push(prefix, evs[i as int], sel_model(name), ev_cache_read());
                    lemma_sum_where_push(
                        prefix,
                        evs[i as int],
                        sel_model(name),
                        ev_cache_creation(),
                    );
                    lemma_sum_where_push(prefix, evs[i as int], sel_model(name), ev_cost());
                    lemma_count_where_push(prefix, evs[i as int], sel_model(name));
                    lemma_sum_where_prefix_monotone(evs, i + 1, sel_model(name), ev_input());
                    lemma_sum_where_prefix_monotone(evs, i + 1, sel_model(name), ev_output());
                    lemma_sum_where_prefix_monotone(evs, i + 1, sel_model(name), ev_cache_read());
                    lemma_sum_where_prefix_monotone(
                        evs,
                        i + 1,
                        sel_model(name),
                        ev_cache_creation(),
                    );
                    lemma_sum_where_prefix_monotone(evs, i + 1, sel_model(name), ev_cost());
                    lemma_sum_where_prefix_monotone(
                        evs,
                        i + 1,
                        sel_model(name),
                        crate::seqs::one::<EventV>(),
                    );
                    lemma_sum_where_subset(evs, sel_model(name), sel_all(), ev_input());
                    lemma_sum_where_subset(evs, sel_model(name), sel_all(), ev_output());
                    lemma_sum_where_subset(evs, sel_model(name), sel_all(), ev_cache_read());
                    lemma_sum_where_subset(evs, sel_model(name), sel_all(), ev_cache_creation());
                    lemma_sum_where_subset(evs, sel_model(name), sel_all(), ev_cost());
                    lemma_sum_where_subset(
                        evs,
                        sel_model(name),
                        sel_all(),
                        crate::seqs::one::<EventV>(),
                    );
                    lemma_count_all(evs);
                    lemma_sum_where_nonneg(prefix, sel_model(name), ev_input());
                    lemma_sum_where_nonneg(prefix, sel_model(name), ev_output());
                    lemma_sum_where_nonneg(prefix, sel_model(name), ev_cache_read());
                    lemma_sum_where_nonneg(prefix, sel_model(name), ev_cache_creation());
                    lemma_sum_where_nonneg(prefix, sel_model(name), ev_cost());
                    lemma_sum_where_nonneg(prefix, sel_model(name), crate::seqs::one::<EventV>());
                }
            }
            let e = &self.events[i];
            let row = ModelUsage {
                model: e.model.clone(),
                input_tokens: e.usage.input_tokens,
                output_tokens: e.usage.output_tokens,
                cache_read_tokens: e.usage.cache_read_tokens,
                cache_creation_tokens: e.usage.cache_creation_tokens,
                cost_micros: e.usage.cost_micros,
                message_count: 1,
            };
            cache.add_or_update_model(row);
            i = i + 1;
        }
        proof {
            assert(evs.take(n as int) =~= evs);
        }

        // Finalize the snapshot.
        cache.total_input_tokens = input_t;
        cache.total_output_tokens = output_t;
        cache.total_cache_read_tokens = cache_read_t;
        cache.total_cache_creation_tokens = cache_creation_t;
        cache.total_cost_micros = cost_t;
        cache.total_sessions = sessions;
        cache.total_messages = n as i64;
        proof {
            lemma_event_weights_nonneg(evs);
        }
        cache.update_cache_hit_rate();
        proof {
            lemma_grouped(evs);
        }
        cache.sort_models_by_cost();
        proof {
            let ms = cache.models@.map_values(|m: ModelUsage| m@);
            let gs = grouped(evs);
            assert forall|k: int| 0 <= k < ms.len() implies model_row_matches(
                evs,
                #[trigger] ms[k],
            ) by {
                assert(ms.to_multiset().count(ms[k]) > 0);
                assert(gs.contains(ms[k]));
                let w = choose|w: int| 0 <= w < gs.len() && gs[w] == ms[k];
                assert(model_row_matches(evs, gs[w]));
            }
            assert forall|i2: int| 0 <= i2 < evs.len() implies found_model(
                ms,
                (#[trigger] evs[i2]).model,
            ) by {
                assert(found_model(gs, evs[i2].model));
            }
        }
        Ok(cache)
    }

    /// One day's aggregate across all providers, straight off the events of
    /// that calendar date. Fails with `Overflow` exactly when a total of
    /// that day no longer fits.
    pub fn today_stats_on(&self, date: &str) -> (r: Result<TodayStats, RepositoryError>)
        requires
            self.wf(),
        ensures
            r is Ok <==> day_fits(self@.events, date@),
            (match r {
                Ok(t) => {
                    let evs = self@.events;
                    let sel = crate::state::sel_date(date@);
                    &&& t.input_tokens == sum_where(evs, sel, ev_input())
                    &&& t.output_tokens == sum_where(evs, sel, ev_output())
                    &&& t.cache_read_tokens == sum_where(evs, sel, ev_cache_read())
                    &&& t.cache_creation_tokens == sum_where(evs, sel, ev_cache_creation())
                    &&& t.cost_micros == sum_where(evs, sel, ev_cost())
                    &&& t.session_count == set_where(evs, sel, ev_session()).len()
                    &&& t.message_count == count_where(evs, sel)
                    &&& t.cache_hit_rate == spec_hit_rate(
                        sum_where(evs, sel, ev_cache_read()),
                        sum_where(evs, sel, ev_input()),
                    )
                },
                Err(e) => e == RepositoryError::Overflow,
            }),
    {
        let ghost evs = self@.events;
        let ghost sel = crate::state::sel_date(date@);
        let n = self.events.len();
        proof {
            assert(evs.len() == n as int);
        }
        if n as u64 > (i64::MAX as u64) {
            return Err(RepositoryError::Overflow);
        }
        let mut input_t: i64 = 0;
        let mut output_t: i64 = 0;
        let mut cache_read_t: i64 = 0;
        let mut cache_creation_t: i64 = 0;
        let mut cost_t: i64 = 0;
        let mut messages: i64 = 0;
        let mut sessions: i64 = 0;
        let mut seen: Vec<String> = Vec::new();
        let mut i: usize = 0;
        proof {
            assert(evs.take(0) =~= Seq::<EventV>::empty());
            assert(set_where(evs.take(0), sel, ev_session()) =~= Set::<Seq<char>>::empty());
        }
        while i < n
            invariant
                i <= n,
                n == self.events.len(),
                evs == self@.events,
                sel == crate::state::sel_date(date@),
                input_t == sum_where(evs.take(i as int), sel, ev_input()),
                output_t == sum_where(evs.take(i as int), sel, ev_output()),
                cache_read_t == sum_where(evs.take(i as int), sel, ev_cache_read()),
                cache_creation_t == sum_where(evs.take(i as int), sel, ev_cache_creation()),
                cost_t == sum_where(evs.take(i as int), sel, ev_cost()),
                messages == count_where(evs.take(i as int), sel),
                0 <= input_t,
                0 <= output_t,
                0 <= cache_read_t,
                0 <= cache_creation_t,
                0 <= cost_t,
                0 <= messages <= i,
                sessions == set_where(evs.take(i as int), sel, ev_session()).len(),
                0 <= sessions <= i,
                forall|sid: Seq<char>|
                    (exists|k: int| 0 <= k < seen@.len() && (#[trigger] seen@[k])@ == sid)
                        <==> set_where(evs.take(i as int), sel, ev_session()).contains(sid),
            decreases n - i,
        {
            let ghost ss = set_where(evs.take(i as int), sel, ev_session());
            proof {
                assert(evs.take(i + 1 as int).drop_last() =~= evs.take(i as int));
                assert(evs.take(i + 1 as int).last() == evs[i as int]);
                assert(evs[i as int].usage.wf());
                lemma_set_where_push(evs.take(i as int), evs[i as int], sel, ev_session());
                lemma_set_where_finite(evs.take(i as int), sel, ev_session());
                lemma_count_where_push(evs.take(i as int), evs[i as int], sel);
            }
            if crate::text::str_eq(self.events[i].date.as_str(), date) {
                let u = &self.events[i].usage;
                if input_t > i64::MAX - u.input_tokens || output_t > i64::MAX - u.output_tokens
                    || cache_read_t > i64::MAX - u.cache_read_tokens || cache_creation_t > i64::MAX
                    - u.cache_creation_tokens || cost_t > i64::MAX - u.cost_micros {
                    proof {
                        lemma_sum_where_prefix_monotone(evs, i + 1, sel, ev_input());
                        lemma_sum_where_prefix_monotone(evs, i + 1, sel, ev_output());
                        lemma_sum_where_prefix_monotone(evs, i + 1, sel, ev_cache_read());
                        lemma_sum_where_prefix_monotone(evs, i + 1, sel, ev_cache_creation());
                        lemma_sum_where_prefix_monotone(evs, i + 1, sel, ev_cost());
                    }
                    return Err(RepositoryError::Overflow);
                }
                input_t = input_t + u.input_tokens;
                output_t = output_t + u.output_tokens;
                cache_read_t = cache_read_t + u.cache_read_tokens;
                cache_creation_t = cache_creation_t + u.cache_creation_tokens;
                cost_t = cost_t + u.cost_micros;
                messages = messages + 1;

                let sid = &self.events[i].session_id;
                let mut found = false;
                let m = seen.len();
                let mut k: usize = 0;
                while k < m
                    invariant
                        k <= m,
                        m == seen.len(),
                        !found ==> forall|q: int| 0 <= q < k ==> (#[trigger] seen@[q])@ != sid@,
                        found ==> (exists|q: int|
                            0 <= q < seen@.len() && (#[trigger] seen@[q])@ == sid@),
                    decreases m - k,
                {
                    if crate::text::str_eq(seen[k].as_str(), sid.as_str()) {
                        proof {
                            assert((seen@[k as int])@ == sid@);
                        }
                        found = true;
                        break ;
                    }
                    k = k + 1;
                }
                proof {
                    if found {
                        assert(ss.contains(sid@));
                        assert(ss.insert(sid@) =~= ss);
                    } else {
                        assert(!ss.contains(sid@));
                    }
                }
                if !found {
                    let ghost seen0 = seen@;
                    seen.push(sid.clone());
                    sessions = sessions + 1;
                    proof {
                        let ss2 = set_where(evs.take(i + 1 as int), sel, ev_session());
                        assert(ss2 == ss.insert(sid@));
                        assert forall|s2: Seq<char>|
                            #![trigger set_where(evs.take(i + 1 as int), sel, ev_session()).contains(s2)]
                            (exists|q: int| 0 <= q < seen@.len() && (#[trigger] seen@[q])@ == s2)
                                <==> set_where(evs.take(i + 1 as int), sel, ev_session()).contains(
                                s2,
                            ) by {
                            if s2 == sid@ {
                                assert((seen@[seen@.len() - 1])@ == s2);
                                assert(ss2.contains(s2));
                            } else {
                                if exists|q: int|
                                    0 <= q < seen@.len() && (#[trigger] seen@[q])@ == s2 {
                                    let q = choose|q: int|
                                        0 <= q < seen@.len() && (#[trigger] seen@[q])@ == s2;
                                    assert(q < seen0.len());
                                    assert((seen0[q])@ == s2);
                                    assert(ss.contains(s2));
                                }
                                if ss2.contains(s2) {
                                    assert(ss.contains(s2));
                                    let q = choose|q: int|
                                        0 <= q < seen0.len() && (#[trigger] seen0[q])@ == s2;
                                    assert((seen@[q])@ == s2);
                                }
                            }
                        }
                    }
                }
            }
            i = i + 1;
        }
        proof {
            assert(evs.take(n as int) =~= evs);
            lemma_sum_where_nonneg(evs, sel, ev_cache_read());
            lemma_sum_where_nonneg(evs, sel, ev_input());
        }
        let mut t = TodayStats {
            input_tokens: input_t,
            output_tokens: output_t,
            cache_read_tokens: cache_read_t,
            cache_creation_tokens: cache_creation_t,
            cost_micros: cost_t,
            session_count: sessions,
            message_count: messages,
            cache_hit_rate: 0,
        };
        t.update_cache_hit_rate();
        Ok(t)
    }

    /// Today's aggregate across all providers, for today's local calendar
    /// date. The date is taken from the machine's time zone, so the contract
    /// binds the outcome for every date.
    pub fn get_today_stats(&self) -> (r: Result<TodayStats, RepositoryError>)
        requires
            self.wf(),
        ensures
            (match r {
                Ok(t) => exists|d: Seq<char>|
                    #![trigger crate::state::sel_date(d)]
                    {
                        let evs = self@.events;
                        let sel = crate::state::sel_date(d);
                        &&& day_fits(evs, d)
                        &&& t.input_tokens == sum_where(evs, sel, ev_input())
                        &&& t.output_tokens == sum_where(evs, sel, ev_output())
                        &&& t.cache_read_tokens == sum_where(evs, sel, ev_cache_read())
                        &&& t.cache_creation_tokens == sum_where(evs, sel, ev_cache_creation())
                        &&& t.cost_micros == sum_where(evs, sel, ev_cost())
                        &&& t.session_count == set_where(evs, sel, ev_session()).len()
                        &&& t.message_count == count_where(evs, sel)
                        &&& t.cache_hit_rate == spec_hit_rate(
                            sum_where(evs, sel, ev_cache_read()),
                            sum_where(evs, sel, ev_input()),
                        )
                    },
                Err(e) => e == RepositoryError::Overflow && (exists|d: Seq<char>|
                    !(#[trigger] day_fits(self@.events, d))),
            }),
    {
        let today = clock::today_local();
        let r = self.today_stats_on(today.as_str());
        proof {
            if r is Ok {
                assert(day_fits(self@.events, today@));
            } else {
                assert(!day_fits(self@.events, today@));
            }
        }
        r
    }
}

/// Selects the provider rows a listing returns: the active ones when
/// `active_only`, else all of them.
pub open spec fn psel_listed(active_only: bool) -> spec_fn(crate::models::ProviderV) -> bool {
    |p: crate::models::ProviderV| active_only ==> p.is_active
}

/// Sorts providers by descending `last_seen_at`: most recently recognized
/// first. The rows are exactly those given, reordered.
fn sort_providers_desc(v: Vec<crate::models::Provider>) -> (r: Vec<crate::models::Provider>)
    ensures
        r@.map_values(|p: crate::models::Provider| p@).to_multiset() == v@.map_values(
            |p: crate::models::Provider| p@,
        ).to_multiset(),
        ({
            let rv = r@.map_values(|p: crate::models::Provider| p@);
            forall|a: int, b: int|
                (0 <= a && a < b && b < rv.len()) ==> crate::text::seq_le(
                    #[trigger] rv[b].last_seen_at,
                    #[trigger] rv[a].last_seen_at,
                )
        }),
{
    broadcast use vstd::seq_lib::group_to_multiset_ensures;
    broadcast use vstd::multiset::group_multiset_axioms;

    let ghost view_of = |p: crate::models::Provider| p@;
    let ghost ms0 = v@.map_values(view_of);
    let mut src = v;
    let mut out: Vec<crate::models::Provider> = Vec::new();
    proof {
        assert(out@.map_values(view_of) =~= Seq::<crate::models::ProviderV>::empty());
        assert(ms0.to_multiset() =~= out@.map_values(view_of).to_multiset().add(
            ms0.to_multiset(),
        ));
    }
    while src.len() > 0
        invariant
            out@.map_values(view_of).to_multiset().add(src@.map_values(view_of).to_multiset())
                == ms0.to_multiset(),
            forall|a: int, b: int|
                (0 <= a && a < b && b < out@.len()) ==> crate::text::seq_le(
                    (#[trigger] out@[b])@.last_seen_at,
                    (#[trigger] out@[a])@.last_seen_at,
                ),
            forall|a: int, b: int|
                (0 <= a && a < out@.len() && 0 <= b && b < src@.len()) ==> crate::text::seq_le(
                    (#[trigger] src@[b])@.last_seen_at,
                    (#[trigger] out@[a])@.last_seen_at,
                ),
        decreases src.len(),
    {
        let n = src.len();
        let mut m: usize = 0;
        let mut k: usize = 1;
        proof {
            crate::text::lemma_seq_le_total(src@[0]@.last_seen_at, src@[0]@.last_seen_at);
        }
        while k < n
            invariant
                m < k <= n,
                n == src.len(),
                forall|q: int|
                    0 <= q < k ==> crate::text::seq_le(
                        (#[trigger] src@[q])@.last_seen_at,
                        src@[m as int]@.last_seen_at,
                    ),
            decreases n - k,
        {
            if crate::text::str_le(src[m].last_seen_at.as_str(), src[k].last_seen_at.as_str()) {
                proof {
                    assert forall|q: int| 0 <= q < k + 1 implies crate::text::seq_le(
                        (#[trigger] src@[q])@.last_seen_at,
                        src@[k as int]@.last_seen_at,
                    ) by {
                        if q < k {
                            crate::text::lemma_seq_le_trans(
                                src@[q]@.last_seen_at,
                                src@[m as int]@.last_seen_at,
                                src@[k as int]@.last_seen_at,
                            );
                        } else {
                            crate::text::lemma_seq_le_total(
                                src@[k as int]@.last_seen_at,
                                src@[k as int]@.last_seen_at,
                            );
                        }
                    }
                }
                m = k;
            } else {
                proof {
                    crate::text::lemma_seq_le_total(
                        src@[m as int]@.last_seen_at,
                        src@[k as int]@.last_seen_at,
                    );
                }
            }
            k = k + 1;
        }
        let ghost rem = src@.map_values(view_of);
        let ghost out_before = out@;
        let x = src.remove(m);
        out.push(x);
        proof {
            assert(rem[m as int] == x@);
            assert(src@.map_values(view_of) =~= rem.remove(m as int));
            assert(rem.remove(m as int).to_multiset() =~= rem.to_multiset().remove(x@));
            assert(rem.contains(x@));
            assert(rem.to_multiset().count(x@) > 0);
            assert(out@ == out_before.push(x));
            assert(out@.map_values(view_of) =~= out_before.map_values(view_of).push(x@));
            assert(out@.map_values(view_of).to_multiset() =~= out_before.map_values(
                view_of,
            ).to_multiset().insert(x@));
            let lhs = out_before.map_values(view_of).to_multiset().insert(x@).add(
                rem.to_multiset().remove(x@),
            );
            let rhs = out_before.map_values(view_of).to_multiset().add(rem.to_multiset());
            assert forall|e: crate::models::ProviderV| lhs.count(e) == rhs.count(e) by {
                if e == x@ {
                    assert(rem.to_multiset().count(x@) >= 1);
                }
            }
            assert(lhs =~= rhs);
            assert(out@.map_values(view_of).to_multiset().add(
                src@.map_values(view_of).to_multiset(),
            ) =~= ms0.to_multiset());
            assert forall|b: int| 0 <= b < src@.len() implies crate::text::seq_le(
                (#[trigger] src@[b])@.last_seen_at,
                x@.last_seen_at,
            ) by {
                if b < m {
                    assert(src@[b]@ == rem[b]);
                } else {
                    assert(src@[b]@ == rem[b + 1]);
                }
            }
        }
    }
    proof {
        assert(out@.map_values(view_of).to_multiset().add(
            src@.map_values(view_of).to_multiset(),
        ) == ms0.to_multiset());
        assert(src@.map_values(view_of) =~= Seq::<crate::models::ProviderV>::empty());
        assert forall|e: crate::models::ProviderV|
            out@.map_values(view_of).to_multiset().count(e) == ms0.to_multiset().count(e) by {}
        assert(out@.map_values(view_of).to_multiset() =~= ms0.to_multiset());
        assert forall|a: int, b: int|
            (0 <= a && a < b && b < out@.map_values(view_of).len()) implies crate::text::seq_le(
            #[trigger] out@.map_values(view_of)[b].last_seen_at,
            #[trigger] out@.map_values(view_of)[a].last_seen_at,
        ) by {
            assert(out@.map_values(view_of)[a] == out@[a]@);
            assert(out@.map_values(view_of)[b] == out@[b]@);
        }
    }
    out
}

impl Repository {
    /// The providers, most recently recognized first; with `active_only`
    /// just the active ones. The rows are exactly the matching stored ones.
    pub fn get_all_providers(&self, active_only: bool) -> (r: Result<
        Vec<crate::models::Provider>,
        RepositoryError,
    >)
        requires
            self.wf(),
        ensures
            (match r {
                Ok(v) => {
                    let rv = v@.map_values(|p: crate::models::Provider| p@);
                    &&& rv.to_multiset() == crate::seqs::seq_filter(
                        self@.providers,
                        psel_listed(active_only),
                    ).to_multiset()
                    &&& forall|a: int, b: int|
                        (0 <= a && a < b && b < rv.len()) ==> crate::text::seq_le(
                            #[trigger] rv[b].last_seen_at,
                            #[trigger] rv[a].last_seen_at,
                        )
                },
                Err(_) => false,
            }),
    {
        let ghost ps = self@.providers;
        let ghost sel = psel_listed(active_only);
        let mut kept: Vec<crate::models::Provider> = Vec::new();
        let n = self.providers.len();
        let mut i: usize = 0;
        proof {
            assert(kept@.map_values(|p: crate::models::Provider| p@) =~= crate::seqs::seq_filter(
                ps.take(0),
                sel,
            ));
        }
        while i < n
            invariant
                i <= n,
                n == self.providers.len(),
                ps == self@.providers,
                sel == psel_listed(active_only),
                kept@.map_values(|p: crate::models::Provider| p@) =~= crate::seqs::seq_filter(
                    ps.take(i as int),
                    sel,
                ),
            decreases n - i,
        {
            proof {
                assert(ps.take(i + 1 as int).drop_last() =~= ps.take(i as int));
                assert(ps.take(i + 1 as int).last() == ps[i as int]);
            }
            if !active_only || self.providers[i].is_active {
                kept.push(crate::store::clone_provider(&self.providers[i]));
            }
            i = i + 1;
        }
        proof {
            assert(ps.take(n as int) =~= ps);
        }
        Ok(sort_providers_desc(kept))
    }
}

/// Whether a per-provider row carries exactly that provider's sums for the
/// given date, and the matching cache-hit rate.
pub open spec fn provider_day_row_matches(
    evs: Seq<EventV>,
    date: Seq<char>,
    s: crate::models::ProviderStats,
) -> bool {
    let sel = crate::state::sel_pd(s.provider.id as int, date);
    &&& s.today_input_tokens == sum_where(evs, sel, ev_input())
    &&& s.today_output_tokens == sum_where(evs, sel, ev_output())
    &&& s.today_cache_read_tokens == sum_where(evs, sel, ev_cache_read())
    &&& s.today_cache_creation_tokens == sum_where(evs, sel, ev_cache_creation())
    &&& s.today_cost_micros == sum_where(evs, sel, ev_cost())
    &&& s.cache_hit_rate == spec_hit_rate(
        sum_where(evs, sel, ev_cache_read()),
        sum_where(evs, sel, ev_input()),
    )
}

/// Whether every row of a per-provider listing carries its provider's exact
/// sums for the given date.
pub open spec fn provider_day_rows_match(
    evs: Seq<EventV>,
    date: Seq<char>,
    v: Seq<crate::models::ProviderStats>,
) -> bool {
    forall|k: int| 0 <= k < v.len() ==> provider_day_row_matches(evs, date, #[trigger] v[k])
}

impl Repository {
    /// Every known provider joined with its usage on the given date, most
    /// recently recognized first; a provider with no activity that day shows
    /// zeros.
    pub fn today_provider_stats_on(&self, date: &str) -> (r: Result<
        Vec<crate::models::ProviderStats>,
        RepositoryError,
    >)
        requires
            self.wf(),
        ensures
            (match r {
                Ok(v) => {
                    &&& v@.map_values(|s: crate::models::ProviderStats| s.provider@).to_multiset()
                        == self@.providers.to_multiset()
                    &&& forall|k: int|
                        0 <= k < v@.len() ==> provider_day_row_matches(
                            self@.events,
                            date@,
                            #[trigger] v@[k],
                        )
                    &&& forall|a: int, b: int|
                        (0 <= a && a < b && b < v@.len()) ==> crate::text::seq_le(
                            (#[trigger] v@[b]).provider@.last_seen_at,
                            (#[trigger] v@[a]).provider@.last_seen_at,
                        )
                },
                Err(_) => false,
            }),
    {
        let ghost evs = self@.events;
        let mut all: Vec<crate::models::Provider> = Vec::new();
        let n = self.providers.len();
        let mut i: usize = 0;
        proof {
            assert(all@.map_values(|p: crate::models::Provider| p@) =~= self@.providers.take(0));
        }
        while i < n
            invariant
                i <= n,
                n == self.providers.len(),
                evs == self@.events,
                all@.map_values(|p: crate::models::Provider| p@) =~= self@.providers.take(i as int),
            decreases n - i,
        {
            all.push(crate::store::clone_provider(&self.providers[i]));
            proof {
                assert(all@.map_values(|p: crate::models::Provider| p@) =~= self@.providers.take(
                    i + 1 as int,
                ));
            }
            i = i + 1;
        }
        proof {
            assert(self@.providers.take(n as int) =~= self@.providers);
        }
        let sorted = sort_providers_desc(all);
        let ghost sv = sorted@.map_values(|p: crate::models::Provider| p@);

        let mut out: Vec<crate::models::ProviderStats> = Vec::new();
        let m = sorted.len();
        let mut k: usize = 0;
        while k < m
            invariant
                k <= m,
                m == sorted.len(),
                evs == self@.events,
                self.wf(),
                sv == sorted@.map_values(|p: crate::models::Provider| p@),
                out@.len() == k,
                forall|q: int| 0 <= q < k ==> (#[trigger] out@[q]).provider@ == sv[q],
                forall|q: int|
                    0 <= q < k ==> provider_day_row_matches(evs, date@, #[trigger] out@[q]),
            decreases m - k,
        {
            let p = crate::store::clone_provider(&sorted[k]);
            let ghost pid = p.id as int;
            let ghost sel = crate::state::sel_pd(pid, date@);
            let mut stats = crate::models::ProviderStats::new(p);
            let rp = self.rollup_position(stats.provider.id, date);
            proof {
                lemma_first_where(self@.rollups, crate::state::rsel_pd(pid, date@));
                lemma_count_where_exists(self@.rollups, crate::state::rsel_pd(pid, date@));
            }
            match rp {
                Some(j) => {
                    proof {
                        assert(crate::state::rsel_pd(pid, date@)(self@.rollups[j as int]));
                        assert(crate::state::rollup_matches(evs, self@.rollups[j as int]));
                        lemma_sum_where_nonneg(evs, sel, ev_cache_read());
                        lemma_sum_where_nonneg(evs, sel, ev_input());
                    }
                    let row = &self.rollups[j];
                    stats.today_input_tokens = row.total_input_tokens;
                    stats.today_output_tokens = row.total_output_tokens;
                    stats.today_cache_read_tokens = row.total_cache_read_tokens;
                    stats.today_cache_creation_tokens = row.total_cache_creation_tokens;
                    stats.today_cost_micros = row.total_cost_micros;
                },
                None => {
                    proof {
                        assert forall|q: int| 0 <= q < evs.len() implies !(sel(
                            #[trigger] evs[q],
                        )) by {
                            if sel(evs[q]) {
                                assert(crate::state::has_rollup(self@.rollups, pid, date@));
                            }
                        }
                        crate::seqs::lemma_sum_where_none(evs, sel, ev_input());
                        crate::seqs::lemma_sum_where_none(evs, sel, ev_output());
                        crate::seqs::lemma_sum_where_none(evs, sel, ev_cache_read());
                        crate::seqs::lemma_sum_where_none(evs, sel, ev_cache_creation());
                        crate::seqs::lemma_sum_where_none(evs, sel, ev_cost());
                    }
                },
            }
            stats.update_cache_hit_rate();
            out.push(stats);
            k = k + 1;
        }
        proof {
            assert(out@.map_values(|s: crate::models::ProviderStats| s.provider@) =~= sv);
        }
        Ok(out)
    }

    /// Every known provider joined with its usage today, most recently
    /// recognized first. The date is today's in the machine's time zone, so
    /// the contract binds the outcome for every date.
    pub fn get_today_provider_stats(&self) -> (r: Result<
        Vec<crate::models::ProviderStats>,
        RepositoryError,
    >)
        requires
            self.wf(),
        ensures
            (match r {
                Ok(v) => {
                    &&& v@.map_values(|s: crate::models::ProviderStats| s.provider@).to_multiset()
                        == self@.providers.to_multiset()
                    &&& exists|d: Seq<char>| #[trigger] provider_day_rows_match(
                        self@.events,
                        d,
                        v@,
                    )
                    &&& forall|a: int, b: int|
                        (0 <= a && a < b && b < v@.len()) ==> crate::text::seq_le(
                            (#[trigger] v@[b]).provider@.last_seen_at,
                            (#[trigger] v@[a]).provider@.last_seen_at,
                        )
                },
                Err(_) => false,
            }),
    {
        let today = clock::today_local();
        let r = self.today_provider_stats_on(today.as_str());
        proof {
            if r is Ok {
                let v = r->Ok_0;
                assert(provider_day_rows_match(self@.events, today@, v@));
            }
        }
        r
    }
}

// Rollup weights for per-day sums.
pub open spec fn rw_input() -> spec_fn(crate::state::RollupV) -> int {
    |r: crate::state::RollupV| r.total_input
}

pub open spec fn rw_output() -> spec_fn(crate::state::RollupV) -> int {
    |r: crate::state::RollupV| r.total_output
}

pub open spec fn rw_cache_read() -> spec_fn(crate::state::RollupV) -> int {
    |r: crate::state::RollupV| r.total_cache_read
}

pub open spec fn rw_cache_creation() -> spec_fn(crate::state::RollupV) -> int {
    |r: crate::state::RollupV| r.total_cache_creation
}

pub open spec fn rw_cost() -> spec_fn(crate::state::RollupV) -> int {
    |r: crate::state::RollupV| r.total_cost
}

pub open spec fn rw_sessions() -> spec_fn(crate::state::RollupV) -> int {
    |r: crate::state::RollupV| r.session_count
}

pub open spec fn rw_messages() -> spec_fn(crate::state::RollupV) -> int {
    |r: crate::state::RollupV| r.message_count
}

/// Selects the rollup rows of an inclusive date range, any provider.
pub open spec fn rsel_in_range(lo: Seq<char>, hi: Seq<char>) -> spec_fn(
    crate::state::RollupV,
) -> bool {
    |r: crate::state::RollupV| crate::text::seq_le(lo, r.date) && crate::text::seq_le(r.date, hi)
}

/// The per-day row a single rollup contributes.
pub open spec fn activity_row_of(r: crate::state::RollupV) -> crate::models::ActivityV {
    crate::models::ActivityV {
        date: r.date,
        input: r.total_input,
        output: r.total_output,
        cost: r.total_cost,
        sessions: r.session_count,
        messages: r.message_count,
    }
}

/// The per-day listing of a sequence of rollup rows: each row absorbed in
/// turn.
pub open spec fn grouped_daily(rs: Seq<crate::state::RollupV>) -> Seq<crate::models::ActivityV>
    decreases rs.len(),
{
    if rs.len() == 0 {
        Seq::empty()
    } else {
        crate::models::spec_add_activity(grouped_daily(rs.drop_last()), activity_row_of(rs.last()))
    }
}

/// Whether a per-day row carries exactly the sums of its date's rollups.
pub open spec fn activity_row_matches(
    rs: Seq<crate::state::RollupV>,
    a: crate::models::ActivityV,
) -> bool {
    let sel = crate::state::rsel_date(a.date);
    &&& a.input == sum_where(rs, sel, rw_input())
    &&& a.output == sum_where(rs, sel, rw_output())
    &&& a.cost == sum_where(rs, sel, rw_cost())
    &&& a.sessions == sum_where(rs, sel, rw_sessions())
    &&& a.messages == sum_where(rs, sel, rw_messages())
    &&& count_where(rs, crate::state::rsel_date(a.date)) >= 1
}

/// Whether the listing has a row for `date`.
pub open spec fn found_date(acts: Seq<crate::models::ActivityV>, d: Seq<char>) -> bool {
    count_where(acts, crate::models::asel_date(d)) >= 1
}

/// What `grouped_daily` produces: one row per populated date, each carrying
/// exactly that date's sums.
pub proof fn lemma_grouped_daily(rs: Seq<crate::state::RollupV>)
    ensures
        forall|d: Seq<char>| count_where(grouped_daily(rs), #[trigger] crate::models::asel_date(d))
            <= 1,
        forall|k: int|
            0 <= k < grouped_daily(rs).len() ==> activity_row_matches(
                rs,
                #[trigger] grouped_daily(rs)[k],
            ),
        forall|j: int| 0 <= j < rs.len() ==> found_date(grouped_daily(rs), (#[trigger] rs[j]).date),
    decreases rs.len(),
{
    if rs.len() > 0 {
        let rs0 = rs.drop_last();
        let x = rs.last();
        let as0 = grouped_daily(rs0);
        let row = activity_row_of(x);
        let acts = grouped_daily(rs);
        lemma_grouped_daily(rs0);
        lemma_first_where(as0, crate::models::asel_date(x.date));
        lemma_count_where_exists(as0, crate::models::asel_date(x.date));
        let j = crate::models::find_activity(as0, x.date);
        assert(forall|i: int| 0 <= i < rs.len() - 1 ==> #[trigger] rs0[i] == rs[i]);
        assert(x == rs[rs.len() - 1]);
        if j == -1 {
            assert(acts == as0.push(row));
            assert forall|i: int| 0 <= i < rs0.len() implies !(crate::state::rsel_date(x.date)(
                #[trigger] rs0[i],
            )) by {
                if rs0[i].date == x.date {
                    assert(found_date(as0, x.date));
                }
            }
            crate::seqs::lemma_sum_where_none(rs0, crate::state::rsel_date(x.date), rw_input());
            crate::seqs::lemma_sum_where_none(rs0, crate::state::rsel_date(x.date), rw_output());
            crate::seqs::lemma_sum_where_none(rs0, crate::state::rsel_date(x.date), rw_cost());
            crate::seqs::lemma_sum_where_none(rs0, crate::state::rsel_date(x.date), rw_sessions());
            crate::seqs::lemma_sum_where_none(rs0, crate::state::rsel_date(x.date), rw_messages());
            crate::seqs::lemma_sum_where_none(
                rs0,
                crate::state::rsel_date(x.date),
                crate::seqs::one::<crate::state::RollupV>(),
            );
            assert forall|d: Seq<char>| count_where(acts, #[trigger] crate::models::asel_date(d))
                <= 1 by {
                lemma_count_where_push(as0, row, crate::models::asel_date(d));
                if crate::models::asel_date(d)(row) {
                    assert(d == x.date);
                }
            }
            assert forall|k: int| 0 <= k < acts.len() implies activity_row_matches(
                rs,
                #[trigger] acts[k],
            ) by {
                if k < as0.len() {
                    assert(acts[k] == as0[k]);
                    assert(!(as0[k].date == x.date)) by {
                        if as0[k].date == x.date {
                            assert(crate::models::asel_date(x.date)(as0[k]));
                        }
                    }
                    lemma_sum_where_push(rs0, x, crate::state::rsel_date(as0[k].date), rw_input());
                    lemma_sum_where_push(rs0, x, crate::state::rsel_date(as0[k].date), rw_output());
                    lemma_sum_where_push(rs0, x, crate::state::rsel_date(as0[k].date), rw_cost());
                    lemma_sum_where_push(
                        rs0,
                        x,
                        crate::state::rsel_date(as0[k].date),
                        rw_sessions(),
                    );
                    lemma_sum_where_push(
                        rs0,
                        x,
                        crate::state::rsel_date(as0[k].date),
                        rw_messages(),
                    );
                    lemma_count_where_push(rs0, x, crate::state::rsel_date(as0[k].date));
                    assert(rs0.push(x) =~= rs);
                } else {
                    assert(acts[k] == row);
                    lemma_sum_where_push(rs0, x, crate::state::rsel_date(x.date), rw_input());
                    lemma_sum_where_push(rs0, x, crate::state::rsel_date(x.date), rw_output());
                    lemma_sum_where_push(rs0, x, crate::state::rsel_date(x.date), rw_cost());
                    lemma_sum_where_push(rs0, x, crate::state::rsel_date(x.date), rw_sessions());
                    lemma_sum_where_push(rs0, x, crate::state::rsel_date(x.date), rw_messages());
                    lemma_count_where_push(rs0, x, crate::state::rsel_date(x.date));
                    assert(rs0.push(x) =~= rs);
                }
            }
            assert forall|i: int| 0 <= i < rs.len() implies found_date(
                acts,
                (#[trigger] rs[i]).date,
            ) by {
                lemma_count_where_push(as0, row, crate::models::asel_date(rs[i].date));
                if i < rs.len() - 1 {
                    assert(found_date(as0, rs0[i].date));
                    lemma_count_where_exists(as0, crate::models::asel_date(rs[i].date));
                } else {
                    assert(crate::models::asel_date(rs[i].date)(row));
                    lemma_count_where_exists(as0, crate::models::asel_date(rs[i].date));
                }
            }
        } else {
            assert(crate::models::asel_date(x.date)(as0[j]));
            assert(as0[j].date == x.date);
            let merged = crate::models::ActivityV {
                date: as0[j].date,
                input: as0[j].input + row.input,
                output: as0[j].output + row.output,
                cost: as0[j].cost + row.cost,
                sessions: as0[j].sessions + row.sessions,
                messages: as0[j].messages + row.messages,
            };
            assert(acts == as0.update(j, merged));
            assert forall|d: Seq<char>| count_where(acts, #[trigger] crate::models::asel_date(d))
                <= 1 by {
                assert(count_where(as0, crate::models::asel_date(d)) <= 1);
                crate::seqs::lemma_sum_where_update(
                    as0,
                    j,
                    merged,
                    crate::models::asel_date(d),
                    crate::seqs::one::<crate::models::ActivityV>(),
                );
            }
            assert forall|k: int| 0 <= k < acts.len() implies activity_row_matches(
                rs,
                #[trigger] acts[k],
            ) by {
                if k != j {
                    assert(acts[k] == as0[k]);
                    assert(!(as0[k].date == x.date)) by {
                        if as0[k].date == x.date {
                            assert(crate::models::asel_date(x.date)(as0[k]));
                            lemma_count_where_two(
                                as0,
                                crate::models::asel_date(x.date),
                                if k < j {
                                    k
                                } else {
                                    j
                                },
                                if k < j {
                                    j
                                } else {
                                    k
                                },
                            );
                        }
                    }
                    lemma_sum_where_push(rs0, x, crate::state::rsel_date(as0[k].date), rw_input());
                    lemma_sum_where_push(rs0, x, crate::state::rsel_date(as0[k].date), rw_output());
                    lemma_sum_where_push(rs0, x, crate::state::rsel_date(as0[k].date), rw_cost());
                    lemma_sum_where_push(
                        rs0,
                        x,
                        crate::state::rsel_date(as0[k].date),
                        rw_sessions(),
                    );
                    lemma_sum_where_push(
                        rs0,
                        x,
                        crate::state::rsel_date(as0[k].date),
                        rw_messages(),
                    );
                    lemma_count_where_push(rs0, x, crate::state::rsel_date(as0[k].date));
                    assert(rs0.push(x) =~= rs);
                } else {
                    assert(acts[k] == merged);
                    lemma_sum_where_push(rs0, x, crate::state::rsel_date(x.date), rw_input());
                    lemma_sum_where_push(rs0, x, crate::state::rsel_date(x.date), rw_output());
                    lemma_sum_where_push(rs0, x, crate::state::rsel_date(x.date), rw_cost());
                    lemma_sum_where_push(rs0, x, crate::state::rsel_date(x.date), rw_sessions());
                    lemma_sum_where_push(rs0, x, crate::state::rsel_date(x.date), rw_messages());
                    lemma_count_where_push(rs0, x, crate::state::rsel_date(x.date));
                    assert(rs0.push(x) =~= rs);
                }
            }
            assert forall|i: int| 0 <= i < rs.len() implies found_date(
                acts,
                (#[trigger] rs[i]).date,
            ) by {
                crate::seqs::lemma_sum_where_update(
                    as0,
                    j,
                    merged,
                    crate::models::asel_date(rs[i].date),
                    crate::seqs::one::<crate::models::ActivityV>(),
                );
                if i < rs.len() - 1 {
                    assert(found_date(as0, rs0[i].date));
                } else {
                    assert(crate::models::asel_date(x.date)(as0[j]) && crate::models::asel_date(
                        x.date,
                    )(merged));
                    lemma_count_where_exists(as0, crate::models::asel_date(x.date));
                }
            }
        }
    }
}

/// Whether every per-day sum over these rollup rows fits in 64 bits.
pub open spec fn daily_fits(rs: Seq<crate::state::RollupV>) -> bool {
    forall|d: Seq<char>|
        {
            let sel = #[trigger] crate::state::rsel_date(d);
            &&& sum_where(rs, sel, rw_input()) <= i64::MAX
            &&& sum_where(rs, sel, rw_output()) <= i64::MAX
            &&& sum_where(rs, sel, rw_cost()) <= i64::MAX
            &&& sum_where(rs, sel, rw_sessions()) <= i64::MAX
            &&& sum_where(rs, sel, rw_messages()) <= i64::MAX
        }
}

/// Sorts per-day rows by ascending date. The rows are exactly those given,
/// reordered; in particular each date keeps its single row.
fn sort_activities_asc(v: Vec<crate::models::DailyActivity>) -> (r: Vec<
    crate::models::DailyActivity,
>)
    ensures
        ({
            let rv = r@.map_values(|a: crate::models::DailyActivity| a@);
            let vv = v@.map_values(|a: crate::models::DailyActivity| a@);
            &&& rv.to_multiset() == vv.to_multiset()
            &&& forall|d: Seq<char>|
                count_where(rv, #[trigger] crate::models::asel_date(d)) == count_where(
                    vv,
                    crate::models::asel_date(d),
                )
            &&& forall|a: int, b: int|
                (0 <= a && a < b && b < rv.len()) ==> crate::text::seq_le(
                    #[trigger] rv[a].date,
                    #[trigger] rv[b].date,
                )
        }),
{
    broadcast use vstd::seq_lib::group_to_multiset_ensures;
    broadcast use vstd::multiset::group_multiset_axioms;

    let ghost view_of = |a: crate::models::DailyActivity| a@;
    let ghost ms0 = v@.map_values(view_of);
    let mut src = v;
    let mut out: Vec<crate::models::DailyActivity> = Vec::new();
    proof {
        assert(out@.map_values(view_of) =~= Seq::<crate::models::ActivityV>::empty());
        assert(ms0.to_multiset() =~= out@.map_values(view_of).to_multiset().add(
            ms0.to_multiset(),
        ));
        assert forall|d: Seq<char>|
            count_where(out@.map_values(view_of), #[trigger] crate::models::asel_date(d))
                + count_where(src@.map_values(view_of), crate::models::asel_date(d)) == count_where(
                ms0,
                crate::models::asel_date(d),
            ) by {
            lemma_count_where_exists(out@.map_values(view_of), crate::models::asel_date(d));
        }
    }
    while src.len() > 0
        invariant
            out@.map_values(view_of).to_multiset().add(src@.map_values(view_of).to_multiset())
                == ms0.to_multiset(),
            forall|d: Seq<char>|
                count_where(out@.map_values(view_of), #[trigger] crate::models::asel_date(d))
                    + count_where(src@.map_values(view_of), crate::models::asel_date(d))
                    == count_where(ms0, crate::models::asel_date(d)),
            forall|a: int, b: int|
                (0 <= a && a < b && b < out@.len()) ==> crate::text::seq_le(
                    (#[trigger] out@[a])@.date,
                    (#[trigger] out@[b])@.date,
                ),
            forall|a: int, b: int|
                (0 <= a && a < out@.len() && 0 <= b && b < src@.len()) ==> crate::text::seq_le(
                    (#[trigger] out@[a])@.date,
                    (#[trigger] src@[b])@.date,
                ),
        decreases src.len(),
    {
        let n = src.len();
        let mut m: usize = 0;
        let mut k: usize = 1;
        proof {
            crate::text::lemma_seq_le_total(src@[0]@.date, src@[0]@.date);
        }
        // Pick the earliest remaining date.
        while k < n
            invariant
                m < k <= n,
                n == src.len(),
                forall|q: int|
                    0 <= q < k ==> crate::text::seq_le(
                        src@[m as int]@.date,
                        (#[trigger] src@[q])@.date,
                    ),
            decreases n - k,
        {
            if crate::text::str_le(src[k].date.as_str(), src[m].date.as_str()) {
                proof {
                    assert forall|q: int| 0 <= q < k + 1 implies crate::text::seq_le(
                        src@[k as int]@.date,
                        (#[trigger] src@[q])@.date,
                    ) by {
                        if q < k {
                            crate::text::lemma_seq_le_trans(
                                src@[k as int]@.date,
                                src@[m as int]@.date,
                                src@[q]@.date,
                            );
                        } else {
                            crate::text::lemma_seq_le_total(
                                src@[k as int]@.date,
                                src@[k as int]@.date,
                            );
                        }
                    }
                }
                m = k;
            } else {
                proof {
                    crate::text::lemma_seq_le_total(src@[m as int]@.date, src@[k as int]@.date);
                }
            }
            k = k + 1;
        }
        let ghost rem = src@.map_values(view_of);
        let ghost out_before = out@;
        let x = src.remove(m);
        out.push(x);
        proof {
            assert(rem[m as int] == x@);
            assert(src@.map_values(view_of) =~= rem.remove(m as int));
            assert(rem.remove(m as int).to_multiset() =~= rem.to_multiset().remove(x@));
            assert(rem.contains(x@));
            assert(rem.to_multiset().count(x@) > 0);
            assert(out@ == out_before.push(x));
            assert(out@.map_values(view_of) =~= out_before.map_values(view_of).push(x@));
            assert(out@.map_values(view_of).to_multiset() =~= out_before.map_values(
                view_of,
            ).to_multiset().insert(x@));
            let lhs = out_before.map_values(view_of).to_multiset().insert(x@).add(
                rem.to_multiset().remove(x@),
            );
            let rhs = out_before.map_values(view_of).to_multiset().add(rem.to_multiset());
            assert forall|e: crate::models::ActivityV| lhs.count(e) == rhs.count(e) by {
                if e == x@ {
                    assert(rem.to_multiset().count(x@) >= 1);
                }
            }
            assert(lhs =~= rhs);
            assert(out@.map_values(view_of).to_multiset().add(
                src@.map_values(view_of).to_multiset(),
            ) =~= ms0.to_multiset());
            assert forall|d: Seq<char>|
                count_where(out@.map_values(view_of), #[trigger] crate::models::asel_date(d))
                    + count_where(src@.map_values(view_of), crate::models::asel_date(d))
                    == count_where(ms0, crate::models::asel_date(d)) by {
                lemma_count_where_push(
                    out_before.map_values(view_of),
                    x@,
                    crate::models::asel_date(d),
                );
                crate::seqs::lemma_sum_where_remove(
                    rem,
                    m as int,
                    crate::models::asel_date(d),
                    crate::seqs::one::<crate::models::ActivityV>(),
                );
            }
            assert forall|b: int| 0 <= b < src@.len() implies crate::text::seq_le(
                x@.date,
                (#[trigger] src@[b])@.date,
            ) by {
                if b < m {
                    assert(src@[b]@ == rem[b]);
                } else {
                    assert(src@[b]@ == rem[b + 1]);
                }
            }
        }
    }
    proof {
        assert(src@.map_values(view_of) =~= Seq::<crate::models::ActivityV>::empty());
        assert forall|e: crate::models::ActivityV|
            out@.map_values(view_of).to_multiset().count(e) == ms0.to_multiset().count(e) by {}
        assert(out@.map_values(view_of).to_multiset() =~= ms0.to_multiset());
        assert forall|d: Seq<char>|
            count_where(out@.map_values(view_of), #[trigger] crate::models::asel_date(d))
                == count_where(ms0, crate::models::asel_date(d)) by {
            lemma_count_where_exists(src@.map_values(view_of), crate::models::asel_date(d));
        }
        assert forall|a: int, b: int|
            (0 <= a && a < b && b < out@.map_values(view_of).len()) implies crate::text::seq_le(
            #[trigger] out@.map_values(view_of)[a].date,
            #[trigger] out@.map_values(view_of)[b].date,
        ) by {
            assert(out@.map_values(view_of)[a] == out@[a]@);
            assert(out@.map_values(view_of)[b] == out@[b]@);
        }
    }
    out
}

impl Repository {
    /// Per-day activity over the inclusive date range, ascending by date:
    /// one row per populated date — dates with no rollup rows are omitted —
    /// carrying exactly the sums of that date's rollup rows across all
    /// providers. Fails with `Overflow` exactly when some day's sum in the
    /// range no longer fits.
    pub fn get_daily_activities(&self, start_date: &str, end_date: &str) -> (r: Result<
        Vec<crate::models::DailyActivity>,
        RepositoryError,
    >)
        requires
            self.wf(),
        ensures
            r is Ok <==> daily_fits(
                crate::seqs::seq_filter(self@.rollups, rsel_in_range(start_date@, end_date@)),
            ),
            (match r {
                Ok(v) => {
                    let rs = crate::seqs::seq_filter(
                        self@.rollups,
                        rsel_in_range(start_date@, end_date@),
                    );
                    let avs = v@.map_values(|a: crate::models::DailyActivity| a@);
                    &&& forall|d: Seq<char>|
                        count_where(avs, #[trigger] crate::models::asel_date(d)) <= 1
                    &&& forall|k: int|
                        0 <= k < avs.len() ==> activity_row_matches(rs, #[trigger] avs[k])
                    &&& forall|j: int|
                        0 <= j < rs.len() ==> found_date(avs, (#[trigger] rs[j]).date)
                    &&& forall|a: int, b: int|
                        (0 <= a && a < b && b < avs.len()) ==> crate::text::seq_le(
                            #[trigger] avs[a].date,
                            #[trigger] avs[b].date,
                        )
                },
                Err(e) => e == RepositoryError::Overflow,
            }),
    {
        broadcast use vstd::seq_lib::group_to_multiset_ensures;

        let ghost all = self@.rollups;
        let ghost q = rsel_in_range(start_date@, end_date@);

        // Keep the rows of the range.
        let mut kept: Vec<crate::store::DailyRollup> = Vec::new();
        let n = self.rollups.len();
        let mut i: usize = 0;
        proof {
            assert(kept@.map_values(|r0: crate::store::DailyRollup| r0@) =~= crate::seqs::seq_filter(
                all.take(0),
                q,
            ));
        }
        while i < n
            invariant
                i <= n,
                n == self.rollups.len(),
                all == self@.rollups,
                q == rsel_in_range(start_date@, end_date@),
                kept@.map_values(|r0: crate::store::DailyRollup| r0@) =~= crate::seqs::seq_filter(
                    all.take(i as int),
                    q,
                ),
            decreases n - i,
        {
            proof {
                assert(all.take(i + 1 as int).drop_last() =~= all.take(i as int));
                assert(all.take(i + 1 as int).last() == all[i as int]);
            }
            if crate::text::str_in_range(self.rollups[i].date.as_str(), start_date, end_date) {
                let r0 = &self.rollups[i];
                kept.push(
                    crate::store::DailyRollup {
                        provider_id: r0.provider_id,
                        date: r0.date.clone(),
                        total_input_tokens: r0.total_input_tokens,
                        total_output_tokens: r0.total_output_tokens,
                        total_cache_read_tokens: r0.total_cache_read_tokens,
                        total_cache_creation_tokens: r0.total_cache_creation_tokens,
                        total_cost_micros: r0.total_cost_micros,
                        session_count: r0.session_count,
                        message_count: r0.message_count,
                    },
                );
            }
            i = i + 1;
        }
        proof {
            assert(all.take(n as int) =~= all);
        }
        let ghost rs = crate::seqs::seq_filter(all, q);

        // Every kept row aggregates events, so its numbers are non-negative.
        proof {
            crate::seqs::lemma_seq_filter_elements(all, q);
            assert forall|w: int| 0 <= w < rs.len() implies (#[trigger] rs[w]).total_input >= 0
                && rs[w].total_output >= 0 && rs[w].total_cost >= 0 && rs[w].session_count >= 0
                && rs[w].message_count >= 0 by {
                let b = rs[w];
                let w2 = choose|w2: int| 0 <= w2 < all.len() && all[w2] == b;
                assert(crate::state::rollup_matches(self@.events, b));
                let sel = crate::state::sel_pd(b.provider_id, b.date);
                lemma_sum_where_nonneg(self@.events, sel, ev_input());
                lemma_sum_where_nonneg(self@.events, sel, ev_output());
                lemma_sum_where_nonneg(self@.events, sel, ev_cost());
                lemma_sum_where_nonneg(self@.events, sel, crate::seqs::one::<EventV>());
                lemma_set_where_card_le(self@.events, sel, crate::state::ev_session());
                crate::seqs::lemma_set_where_finite(
                    self@.events,
                    sel,
                    crate::state::ev_session(),
                );
            }
        }

        // Group by date.
        let mut acts: Vec<crate::models::DailyActivity> = Vec::new();
        let m = kept.len();
        let mut k: usize = 0;
        proof {
            assert(kept@.map_values(|r0: crate::store::DailyRollup| r0@) == rs);
            assert(acts@.map_values(|a: crate::models::DailyActivity| a@) =~= grouped_daily(
                rs.take(0),
            ));
        }
        while k < m
            invariant
                k <= m,
                m == kept.len(),
                kept@.map_values(|r0: crate::store::DailyRollup| r0@) == rs,
                forall|w: int|
                    0 <= w < rs.len() ==> (#[trigger] rs[w]).total_input >= 0 && rs[w].total_output
                        >= 0 && rs[w].total_cost >= 0 && rs[w].session_count >= 0
                        && rs[w].message_count >= 0,
                acts@.map_values(|a: crate::models::DailyActivity| a@) == grouped_daily(
                    rs.take(k as int),
                ),
            decreases m - k,
        {
            let ghost prefix = rs.take(k as int);
            let ghost as0 = grouped_daily(prefix);
            let ghost x = rs[k as int];
            let ghost d = x.date;
            proof {
                assert(rs.take(k + 1 as int).drop_last() =~= prefix);
                assert(rs.take(k + 1 as int).last() == x);
                lemma_grouped_daily(prefix);
                lemma_first_where(as0, crate::models::asel_date(d));
                assert(forall|w: int| 0 <= w < prefix.len() ==> #[trigger] prefix[w] == rs[w]);
            }
            let row = &kept[k];
            let ghost j = crate::models::find_activity(as0, d);

            // Locate the row for this date, if one exists yet.
            let mut pos: usize = 0;
            let acts_len = acts.len();
            let mut found = false;
            while pos < acts_len
                invariant
                    pos <= acts_len,
                    acts_len == acts.len(),
                    as0 == acts@.map_values(|a: crate::models::DailyActivity| a@),
                    d == x.date,
                    x == rs[k as int],
                    k < rs.len(),
                    !found ==> forall|w: int|
                        0 <= w < pos ==> !(crate::models::asel_date(d)(#[trigger] as0[w])),
                    found ==> pos < acts_len && as0[pos as int].date == d && (forall|w: int|
                        0 <= w < pos ==> !(crate::models::asel_date(d)(#[trigger] as0[w]))),
                decreases acts_len - pos,
            {
                if crate::text::str_eq(acts[pos].date.as_str(), row.date.as_str()) {
                    proof {
                        assert(crate::models::asel_date(d)(as0[pos as int]));
                    }
                    found = true;
                    break ;
                }
                pos = pos + 1;
            }
            if found {
                proof {
                    assert(crate::models::asel_date(d)(as0[pos as int]));
                    assert(j == pos as int);
                    assert(activity_row_matches(prefix, as0[j]));
                    lemma_sum_where_push(prefix, x, crate::state::rsel_date(d), rw_input());
                    lemma_sum_where_push(prefix, x, crate::state::rsel_date(d), rw_output());
                    lemma_sum_where_push(prefix, x, crate::state::rsel_date(d), rw_cost());
                    lemma_sum_where_push(prefix, x, crate::state::rsel_date(d), rw_sessions());
                    lemma_sum_where_push(prefix, x, crate::state::rsel_date(d), rw_messages());
                    lemma_count_where_push(prefix, x, crate::state::rsel_date(d));
                    assert(prefix.push(x) =~= rs.take(k + 1 as int));
                    lemma_sum_where_prefix_monotone(rs, k + 1, crate::state::rsel_date(d), rw_input());
                    lemma_sum_where_prefix_monotone(rs, k + 1, crate::state::rsel_date(d), rw_output());
                    lemma_sum_where_prefix_monotone(rs, k + 1, crate::state::rsel_date(d), rw_cost());
                    lemma_sum_where_prefix_monotone(rs, k + 1, crate::state::rsel_date(d), rw_sessions());
                    lemma_sum_where_prefix_monotone(rs, k + 1, crate::state::rsel_date(d), rw_messages());
                    lemma_sum_where_nonneg(prefix, crate::state::rsel_date(d), rw_input());
                    lemma_sum_where_nonneg(prefix, crate::state::rsel_date(d), rw_output());
                    lemma_sum_where_nonneg(prefix, crate::state::rsel_date(d), rw_cost());
                    lemma_sum_where_nonneg(prefix, crate::state::rsel_date(d), rw_sessions());
                    lemma_sum_where_nonneg(prefix, crate::state::rsel_date(d), rw_messages());
                }
                let cur = &acts[pos];
                if cur.input_tokens > i64::MAX - row.total_input_tokens || cur.output_tokens
                    > i64::MAX - row.total_output_tokens || cur.cost_micros > i64::MAX
                    - row.total_cost_micros || cur.session_count > i64::MAX - row.session_count
                    || cur.message_count > i64::MAX - row.message_count {
                    return Err(RepositoryError::Overflow);
                }
                let merged = crate::models::DailyActivity {
                    date: acts[pos].date.clone(),
                    input_tokens: acts[pos].input_tokens + row.total_input_tokens,
                    output_tokens: acts[pos].output_tokens + row.total_output_tokens,
                    cost_micros: acts[pos].cost_micros + row.total_cost_micros,
                    session_count: acts[pos].session_count + row.session_count,
                    message_count: acts[pos].message_count + row.message_count,
                };
                acts.set(pos, merged);
                proof {
                    assert(acts@.map_values(|a: crate::models::DailyActivity| a@)
                        =~= crate::models::spec_add_activity(as0, activity_row_of(x)));
                }
            } else {
                proof {
                    assert(j == -1);
                }
                let fresh = crate::models::DailyActivity {
                    date: row.date.clone(),
                    input_tokens: row.total_input_tokens,
                    output_tokens: row.total_output_tokens,
                    cost_micros: row.total_cost_micros,
                    session_count: row.session_count,
                    message_count: row.message_count,
                };
                acts.push(fresh);
                proof {
                    assert(acts@.map_values(|a: crate::models::DailyActivity| a@)
                        =~= crate::models::spec_add_activity(as0, activity_row_of(x)));
                }
            }
            k = k + 1;
        }
        proof {
            assert(rs.take(m as int) =~= rs);
            lemma_grouped_daily(rs);
            // Every day's sums fit: a populated date's sums sit in one of the
            // 64-bit rows just built, and an empty date's sums are zero.
            let gs = grouped_daily(rs);
            assert(acts@.map_values(|a: crate::models::DailyActivity| a@) == gs);
            assert forall|d: Seq<char>|
                {
                    let sel = #[trigger] crate::state::rsel_date(d);
                    &&& sum_where(rs, sel, rw_input()) <= i64::MAX
                    &&& sum_where(rs, sel, rw_output()) <= i64::MAX
                    &&& sum_where(rs, sel, rw_cost()) <= i64::MAX
                    &&& sum_where(rs, sel, rw_sessions()) <= i64::MAX
                    &&& sum_where(rs, sel, rw_messages()) <= i64::MAX
                } by {
                lemma_count_where_exists(gs, crate::models::asel_date(d));
                if count_where(gs, crate::models::asel_date(d)) == 0 {
                    assert forall|w: int| 0 <= w < rs.len() implies !(crate::state::rsel_date(d)(
                        #[trigger] rs[w],
                    )) by {
                        if rs[w].date == d {
                            assert(found_date(gs, rs[w].date));
                        }
                    }
                    crate::seqs::lemma_sum_where_none(rs, crate::state::rsel_date(d), rw_input());
                    crate::seqs::lemma_sum_where_none(rs, crate::state::rsel_date(d), rw_output());
                    crate::seqs::lemma_sum_where_none(rs, crate::state::rsel_date(d), rw_cost());
                    crate::seqs::lemma_sum_where_none(rs, crate::state::rsel_date(d), rw_sessions());
                    crate::seqs::lemma_sum_where_none(rs, crate::state::rsel_date(d), rw_messages());
                } else {
                    let w = choose|w: int|
                        0 <= w < gs.len() && crate::models::asel_date(d)(#[trigger] gs[w]);
                    assert(activity_row_matches(rs, gs[w]));
                    assert(gs[w] == acts@[w]@);
                }
            }
        }
        let sorted = sort_activities_asc(acts);
        proof {
            let avs = sorted@.map_values(|a: crate::models::DailyActivity| a@);
            let gs = grouped_daily(rs);
            assert forall|k2: int| 0 <= k2 < avs.len() implies activity_row_matches(
                rs,
                #[trigger] avs[k2],
            ) by {
                assert(avs.to_multiset().count(avs[k2]) > 0);
                assert(gs.contains(avs[k2]));
                let w = choose|w: int| 0 <= w < gs.len() && gs[w] == avs[k2];
                assert(activity_row_matches(rs, gs[w]));
            }
        }
        Ok(sorted)
    }
}

/// Whether every total of one calendar date fits in 64 bits.
pub open spec fn day_fits(evs: Seq<EventV>, date: Seq<char>) -> bool {
    let sel = crate::state::sel_date(date);
    &&& sum_where(evs, sel, ev_input()) <= i64::MAX
    &&& sum_where(evs, sel, ev_output()) <= i64::MAX
    &&& sum_where(evs, sel, ev_cache_read()) <= i64::MAX
    &&& sum_where(evs, sel, ev_cache_creation()) <= i64::MAX
    &&& sum_where(evs, sel, ev_cost()) <= i64::MAX
    &&& evs.len() <= i64::MAX
}

} // verus!
