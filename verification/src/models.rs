//! Domain values: providers, usage records and the aggregate shapes the
//! presentation layer reads.
//!
//! Money is carried as integer micro-dollars (`*_micros`) and cache-hit
//! rates as integer millionths (0 ..= 1_000_000), so aggregation stays exact.
use vstd::prelude::*;
use vstd::string::*;

use crate::clock;
use crate::hashing::{credential_hash, sha256_hex_of};
use crate::seqs::{first_where, lemma_first_where};

verus! {

/// One million: the denominator of micro-dollar and millionth values.
pub const MILLION: i64 = 1_000_000;

/// View of an optional string.
pub open spec fn view_opt(o: Option<String>) -> Option<Seq<char>> {
    match o {
        Some(s) => Some(s@),
        None => None,
    }
}

/// Cache-hit rate in millionths: `cache_read / (cache_read + input)`,
/// defined as 0 when the denominator is 0.
pub open spec fn spec_hit_rate(cache_read: int, input: int) -> int {
    if cache_read + input > 0 {
        (cache_read * 1_000_000) / (cache_read + input)
    } else {
        0
    }
}

/// Computes the cache-hit rate in millionths.
pub fn hit_rate_millionths(cache_read: i64, input: i64) -> (r: i64)
    requires
        cache_read >= 0,
        input >= 0,
    ensures
        r == spec_hit_rate(cache_read as int, input as int),
        0 <= r <= 1_000_000,
{
    let total: i128 = cache_read as i128 + input as i128;
    if total > 0 {
        let num: i128 = (cache_read as i128) * 1_000_000;
        proof {
            assert(num / total <= 1_000_000 && num / total >= 0) by (nonlinear_arith)
                requires
                    num == (cache_read as i128) * 1_000_000,
                    total == cache_read + input,
                    0 <= cache_read,
                    0 <= input,
                    total > 0,
            ;
        }
        (num / total) as i64
    } else {
        0
    }
}

/// Token counts and cost of a single model invocation.
#[derive(Clone, Copy, Debug)]
pub struct MessageUsage {
    /// Input (prompt) tokens.
    pub input_tokens: i64,
    /// Output (completion) tokens.
    pub output_tokens: i64,
    /// Tokens read from cache.
    pub cache_read_tokens: i64,
    /// Tokens written to cache.
    pub cache_creation_tokens: i64,
    /// Cost in micro-dollars.
    pub cost_micros: i64,
}

/// Mathematical view of `MessageUsage`.
#[verifier::ext_equal]
pub struct UsageV {
    pub input: int,
    pub output: int,
    pub cache_read: int,
    pub cache_creation: int,
    pub cost: int,
}

impl View for MessageUsage {
    type V = UsageV;

    open spec fn view(&self) -> UsageV {
        UsageV {
            input: self.input_tokens as int,
            output: self.output_tokens as int,
            cache_read: self.cache_read_tokens as int,
            cache_creation: self.cache_creation_tokens as int,
            cost: self.cost_micros as int,
        }
    }
}

impl UsageV {
    /// Every count is non-negative, as the data model demands.
    pub open spec fn wf(self) -> bool {
        self.input >= 0 && self.output >= 0 && self.cache_read >= 0 && self.cache_creation >= 0
            && self.cost >= 0
    }
}

impl Default for MessageUsage {
    /// All counts and the cost start at zero.
    fn default() -> (r: Self)
        ensures
            r@ == (UsageV { input: 0, output: 0, cache_read: 0, cache_creation: 0, cost: 0 }),
    {
        MessageUsage {
            input_tokens: 0,
            output_tokens: 0,
            cache_read_tokens: 0,
            cache_creation_tokens: 0,
            cost_micros: 0,
        }
    }
}

/// One parsed usage record: the accounting unit for a single invocation.
#[derive(Clone, Debug)]
pub struct MessageRecord {
    /// Session the message belongs to; `"unknown"` when absent.
    pub session_id: String,
    /// Message id: the dedup key, unique per provider.
    pub message_id: String,
    /// Model name.
    pub model: String,
    /// Creation time, RFC 3339.
    pub created_at: String,
    /// Token counts and cost.
    pub usage: MessageUsage,
}

/// Mathematical view of `MessageRecord`.
#[verifier::ext_equal]
pub struct RecordV {
    pub session_id: Seq<char>,
    pub message_id: Seq<char>,
    pub model: Seq<char>,
    pub created_at: Seq<char>,
    pub usage: UsageV,
}

impl View for MessageRecord {
    type V = RecordV;

    open spec fn view(&self) -> RecordV {
        RecordV {
            session_id: self.session_id@,
            message_id: self.message_id@,
            model: self.model@,
            created_at: self.created_at@,
            usage: self.usage@,
        }
    }
}

impl MessageRecord {
    /// Bundles the fields of one usage record.
    pub fn new(
        session_id: String,
        message_id: String,
        model: String,
        created_at: String,
        usage: MessageUsage,
    ) -> (r: Self)
        ensures
            r@ == (RecordV {
                session_id: session_id@,
                message_id: message_id@,
                model: model@,
                created_at: created_at@,
                usage: usage@,
            }),
    {
        MessageRecord { session_id, message_id, model, created_at, usage }
    }
}

/// The display prefix of a credential: its first eight characters, or all of
/// them when it is shorter.
pub open spec fn prefix8(s: Seq<char>) -> Seq<char> {
    if s.len() <= 8 {
        s
    } else {
        s.take(8)
    }
}

/// One distinct API credential ever observed, identified by its hash.
#[derive(Clone, Debug)]
pub struct Provider {
    /// Surrogate key, assigned by the store on first insert (0 before that).
    pub id: i64,
    /// SHA-256 hex digest of the raw credential: the identity key.
    pub api_key_hash: String,
    /// First eight characters of the raw credential, for display only.
    pub api_key_prefix: String,
    /// Optional user-assigned label.
    pub display_name: Option<String>,
    /// Optional override base URL.
    pub base_url: Option<String>,
    /// Whether this is the single currently active provider.
    pub is_active: bool,
    /// When the credential was first recognized, RFC 3339.
    pub first_seen_at: String,
    /// When the credential was last recognized, RFC 3339.
    pub last_seen_at: String,
}

/// Mathematical view of `Provider`.
#[verifier::ext_equal]
pub struct ProviderV {
    pub id: int,
    pub hash: Seq<char>,
    pub prefix: Seq<char>,
    pub display_name: Option<Seq<char>>,
    pub base_url: Option<Seq<char>>,
    pub is_active: bool,
    pub first_seen_at: Seq<char>,
    pub last_seen_at: Seq<char>,
}

impl View for Provider {
    type V = ProviderV;

    open spec fn view(&self) -> ProviderV {
        ProviderV {
            id: self.id as int,
            hash: self.api_key_hash@,
            prefix: self.api_key_prefix@,
            display_name: view_opt(self.display_name),
            base_url: view_opt(self.base_url),
            is_active: self.is_active,
            first_seen_at: self.first_seen_at@,
            last_seen_at: self.last_seen_at@,
        }
    }
}

impl Provider {
    /// Builds a provider value for a raw credential: hash and prefix are
    /// derived from the credential, the id is 0 until the store assigns one,
    /// and both timestamps are set to the same current instant.
    pub fn new(api_key: &str, display_name: Option<String>, base_url: Option<String>) -> (r: Self)
        ensures
            r.id == 0,
            r@.hash == sha256_hex_of(api_key@),
            r@.hash.len() == 64,
            r@.prefix == prefix8(api_key@),
            r@.display_name == view_opt(display_name),
            r@.base_url == view_opt(base_url),
            r.is_active,
            r@.first_seen_at == r@.last_seen_at,
    {
        let now = clock::now_rfc3339();
        let api_key_hash = credential_hash(api_key);
        let len: usize = api_key.unicode_len();
        let cut: usize = if len <= 8 {
            len
        } else {
            8
        };
        let prefix_slice: &str = api_key.substring_char(0, cut);
        proof {
            if api_key@.len() <= 8 {
                assert(api_key@.subrange(0, cut as int) =~= api_key@);
            } else {
                assert(api_key@.subrange(0, cut as int) =~= api_key@.take(8));
            }
        }
        Provider {
            id: 0,
            api_key_hash,
            api_key_prefix: prefix_slice.to_owned(),
            display_name,
            base_url,
            is_active: true,
            first_seen_at: now.clone(),
            last_seen_at: now,
        }
    }

    /// Refreshes `last_seen_at` to the current instant; no other field moves.
    pub fn update_last_seen(&mut self)
        ensures
            final(self)@ == (ProviderV { last_seen_at: final(self)@.last_seen_at, ..old(self)@ }),
    {
        self.last_seen_at = clock::now_rfc3339();
    }
}

/// A provider joined with its usage so far today.
#[derive(Clone, Debug)]
pub struct ProviderStats {
    /// The provider itself.
    pub provider: Provider,
    /// Input tokens today.
    pub today_input_tokens: i64,
    /// Output tokens today.
    pub today_output_tokens: i64,
    /// Cache-read tokens today.
    pub today_cache_read_tokens: i64,
    /// Cache-creation tokens today.
    pub today_cache_creation_tokens: i64,
    /// Cost today, micro-dollars.
    pub today_cost_micros: i64,
    /// Cache-hit rate today, in millionths.
    pub cache_hit_rate: i64,
}

impl ProviderStats {
    /// Wraps a provider with all of today's numbers at zero.
    pub fn new(provider: Provider) -> (r: Self)
        ensures
            r.provider == provider,
            r.today_input_tokens == 0,
            r.today_output_tokens == 0,
            r.today_cache_read_tokens == 0,
            r.today_cache_creation_tokens == 0,
            r.today_cost_micros == 0,
            r.cache_hit_rate == 0,
    {
        ProviderStats {
            provider,
            today_input_tokens: 0,
            today_output_tokens: 0,
            today_cache_read_tokens: 0,
            today_cache_creation_tokens: 0,
            today_cost_micros: 0,
            cache_hit_rate: 0,
        }
    }

    /// Recomputes the cache-hit rate from today's token counts.
    pub fn update_cache_hit_rate(&mut self)
        requires
            old(self).today_cache_read_tokens >= 0,
            old(self).today_input_tokens >= 0,
        ensures
            final(self).cache_hit_rate == spec_hit_rate(
                old(self).today_cache_read_tokens as int,
                old(self).today_input_tokens as int,
            ),
            *final(self) == (ProviderStats { cache_hit_rate: final(self).cache_hit_rate, ..*old(self) }),
    {
        self.cache_hit_rate = hit_rate_millionths(self.today_cache_read_tokens, self.today_input_tokens);
    }
}

/// Lifetime usage of one model.
#[derive(Clone, Debug)]
pub struct ModelUsage {
    /// Model name.
    pub model: String,
    /// Input tokens.
    pub input_tokens: i64,
    /// Output tokens.
    pub output_tokens: i64,
    /// Cache-read tokens.
    pub cache_read_tokens: i64,
    /// Cache-creation tokens.
    pub cache_creation_tokens: i64,
    /// Cost in micro-dollars.
    pub cost_micros: i64,
    /// Number of messages.
    pub message_count: i64,
}

/// Mathematical view of `ModelUsage`.
#[verifier::ext_equal]
pub struct ModelUsageV {
    pub model: Seq<char>,
    pub input: int,
    pub output: int,
    pub cache_read: int,
    pub cache_creation: int,
    pub cost: int,
    pub count: int,
}

impl View for ModelUsage {
    type V = ModelUsageV;

    open spec fn view(&self) -> ModelUsageV {
        ModelUsageV {
            model: self.model@,
            input: self.input_tokens as int,
            output: self.output_tokens as int,
            cache_read: self.cache_read_tokens as int,
            cache_creation: self.cache_creation_tokens as int,
            cost: self.cost_micros as int,
            count: self.message_count as int,
        }
    }
}

impl ModelUsage {
    /// A fresh per-model row with every number at zero.
    pub fn new(model: String) -> (r: Self)
        ensures
            r@ == (ModelUsageV {
                model: model@,
                input: 0,
                output: 0,
                cache_read: 0,
                cache_creation: 0,
                cost: 0,
                count: 0,
            }),
    {
        ModelUsage {
            model,
            input_tokens: 0,
            output_tokens: 0,
            cache_read_tokens: 0,
            cache_creation_tokens: 0,
            cost_micros: 0,
            message_count: 0,
        }
    }

    /// The model's cache-hit rate in millionths.
    pub fn cache_hit_rate(&self) -> (r: i64)
        requires
            self.cache_read_tokens >= 0,
            self.input_tokens >= 0,
        ensures
            r == spec_hit_rate(self.cache_read_tokens as int, self.input_tokens as int),
    {
        hit_rate_millionths(self.cache_read_tokens, self.input_tokens)
    }
}

/// Index of the row for `name` in a per-model breakdown, or -1.
pub open spec fn model_sel(name: Seq<char>) -> spec_fn(ModelUsageV) -> bool {
    |m: ModelUsageV| m.model == name
}

/// First row for `name` in the breakdown, or -1 when none exists.
pub open spec fn find_model(ms: Seq<ModelUsageV>, name: Seq<char>) -> int {
    first_where(ms, model_sel(name))
}

/// The breakdown after absorbing one per-model row: added field-wise into
/// the existing row for that model, or appended when the model is new.
pub open spec fn spec_add_model(ms: Seq<ModelUsageV>, u: ModelUsageV) -> Seq<ModelUsageV> {
    let j = find_model(ms, u.model);
    if j == -1 {
        ms.push(u)
    } else {
        ms.update(
            j,
            ModelUsageV {
                model: ms[j].model,
                input: ms[j].input + u.input,
                output: ms[j].output + u.output,
                cache_read: ms[j].cache_read + u.cache_read,
                cache_creation: ms[j].cache_creation + u.cache_creation,
                cost: ms[j].cost + u.cost,
                count: ms[j].count + u.count,
            },
        )
    }
}

/// Lifetime totals plus the per-model breakdown: the main read snapshot.
#[derive(Clone, Debug)]
pub struct StatsCache {
    /// Total input tokens.
    pub total_input_tokens: i64,
    /// Total output tokens.
    pub total_output_tokens: i64,
    /// Total cache-read tokens.
    pub total_cache_read_tokens: i64,
    /// Total cache-creation tokens.
    pub total_cache_creation_tokens: i64,
    /// Total cost in micro-dollars.
    pub total_cost_micros: i64,
    /// Number of distinct sessions.
    pub total_sessions: i64,
    /// Number of messages.
    pub total_messages: i64,
    /// Lifetime cache-hit rate, in millionths.
    pub cache_hit_rate: i64,
    /// Per-model breakdown, sorted by descending cost.
    pub models: Vec<ModelUsage>,
    /// When this snapshot was computed, RFC 3339.
    pub updated_at: String,
}

impl Default for StatsCache {
    /// An empty snapshot: every total zero, no models, stamped with the
    /// current instant.
    fn default() -> (r: Self)
        ensures
            r.total_input_tokens == 0,
            r.total_output_tokens == 0,
            r.total_cache_read_tokens == 0,
            r.total_cache_creation_tokens == 0,
            r.total_cost_micros == 0,
            r.total_sessions == 0,
            r.total_messages == 0,
            r.cache_hit_rate == 0,
            r.models@.len() == 0,
    {
        StatsCache {
            total_input_tokens: 0,
            total_output_tokens: 0,
            total_cache_read_tokens: 0,
            total_cache_creation_tokens: 0,
            total_cost_micros: 0,
            total_sessions: 0,
            total_messages: 0,
            cache_hit_rate: 0,
            models: Vec::new(),
            updated_at: clock::now_rfc3339(),
        }
    }
}

impl StatsCache {
    /// Recomputes the lifetime cache-hit rate and refreshes the timestamp.
    pub fn update_cache_hit_rate(&mut self)
        requires
            old(self).total_cache_read_tokens >= 0,
            old(self).total_input_tokens >= 0,
        ensures
            final(self).cache_hit_rate == spec_hit_rate(
                old(self).total_cache_read_tokens as int,
                old(self).total_input_tokens as int,
            ),
            final(self).total_input_tokens == old(self).total_input_tokens,
            final(self).total_output_tokens == old(self).total_output_tokens,
            final(self).total_cache_read_tokens == old(self).total_cache_read_tokens,
            final(self).total_cache_creation_tokens == old(self).total_cache_creation_tokens,
            final(self).total_cost_micros == old(self).total_cost_micros,
            final(self).total_sessions == old(self).total_sessions,
            final(self).total_messages == old(self).total_messages,
            final(self).models == old(self).models,
    {
        self.cache_hit_rate = hit_rate_millionths(
            self.total_cache_read_tokens,
            self.total_input_tokens,
        );
        self.updated_at = clock::now_rfc3339();
    }

    /// Adds one per-model row into the breakdown: field-wise into the
    /// existing row for that model, or appended when the model is new.
    pub fn add_or_update_model(&mut self, model_usage: ModelUsage)
        requires
            ({
                let ms = old(self).models@.map_values(|m: ModelUsage| m@);
                let j = find_model(ms, model_usage@.model);
                j != -1 ==> {
                    &&& ms[j].input + model_usage@.input <= i64::MAX
                    &&& ms[j].output + model_usage@.output <= i64::MAX
                    &&& ms[j].cache_read + model_usage@.cache_read <= i64::MAX
                    &&& ms[j].cache_creation + model_usage@.cache_creation <= i64::MAX
                    &&& ms[j].cost + model_usage@.cost <= i64::MAX
                    &&& ms[j].count + model_usage@.count <= i64::MAX
                    &&& ms[j].input + model_usage@.input >= i64::MIN
                    &&& ms[j].output + model_usage@.output >= i64::MIN
                    &&& ms[j].cache_read + model_usage@.cache_read >= i64::MIN
                    &&& ms[j].cache_creation + model_usage@.cache_creation >= i64::MIN
                    &&& ms[j].cost + model_usage@.cost >= i64::MIN
                    &&& ms[j].count + model_usage@.count >= i64::MIN
                }
            }),
        ensures
            final(self).models@.map_values(|m: ModelUsage| m@) == spec_add_model(
                old(self).models@.map_values(|m: ModelUsage| m@),
                model_usage@,
            ),
            *final(self) == (StatsCache { models: final(self).models, ..*old(self) }),
    {
        let ghost ms = self.models@.map_values(|m: ModelUsage| m@);
        let ghost sel = model_sel(model_usage@.model);
        let mut i: usize = 0;
        let n: usize = self.models.len();
        proof {
            lemma_first_where(ms, sel);
        }
        while i < n
            invariant
                i <= n,
                n == self.models.len(),
                ms == self.models@.map_values(|m: ModelUsage| m@),
                forall|k: int| 0 <= k < i ==> !sel(#[trigger] ms[k]),
                *self == (StatsCache { models: self.models, ..*old(self) }),
            decreases n - i,
        {
            let hit: bool = crate::text::str_eq(self.models[i].model.as_str(), model_usage.model.as_str());
            if hit {
                proof {
                    assert(sel(ms[i as int]));
                    assert(find_model(ms, model_usage@.model) == i as int);
                }
                let merged = ModelUsage {
                    model: self.models[i].model.clone(),
                    input_tokens: self.models[i].input_tokens + model_usage.input_tokens,
                    output_tokens: self.models[i].output_tokens + model_usage.output_tokens,
                    cache_read_tokens: self.models[i].cache_read_tokens
                        + model_usage.cache_read_tokens,
                    cache_creation_tokens: self.models[i].cache_creation_tokens
                        + model_usage.cache_creation_tokens,
                    cost_micros: self.models[i].cost_micros + model_usage.cost_micros,
                    message_count: self.models[i].message_count + model_usage.message_count,
                };
                self.models.set(i, merged);
                proof {
                    assert(self.models@.map_values(|m: ModelUsage| m@) =~= spec_add_model(
                        ms,
                        model_usage@,
                    ));
                }
                return ;
            }
            proof {
                assert(!sel(ms[i as int]));
            }
            i = i + 1;
        }
        proof {
            assert(find_model(ms, model_usage@.model) == -1);
        }
        self.models.push(model_usage);
        proof {
            assert(self.models@.map_values(|m: ModelUsage| m@) =~= spec_add_model(
                ms,
                model_usage@,
            ));
        }
    }

    /// Reorders the per-model breakdown by descending cost; nothing else
    /// moves, and the breakdown keeps exactly the same rows.
    pub fn sort_models_by_cost(&mut self)
        ensures
            final(self).models@.map_values(|m: ModelUsage| m@).to_multiset() == old(
                self,
            ).models@.map_values(|m: ModelUsage| m@).to_multiset(),
            ({
                let fm = final(self).models@;
                forall|a: int, b: int|
                    (0 <= a && a < b && b < fm.len()) ==> #[trigger] fm[b].cost_micros
                        <= #[trigger] fm[a].cost_micros
            }),
            forall|name: Seq<char>|
                crate::seqs::count_where(
                    final(self).models@.map_values(|m: ModelUsage| m@),
                    #[trigger] model_sel(name),
                ) == crate::seqs::count_where(
                old(self).models@.map_values(|m: ModelUsage| m@),
                model_sel(name),
            ),
            *final(self) == (StatsCache { models: final(self).models, ..*old(self) }),
    {
        broadcast use vstd::seq_lib::group_to_multiset_ensures;
        broadcast use vstd::multiset::group_multiset_axioms;

        let ghost view_of = |m: ModelUsage| m@;
        let ghost ms0 = self.models@.map_values(view_of);
        let mut out: Vec<ModelUsage> = Vec::new();
        proof {
            assert(out@.map_values(view_of) =~= Seq::<ModelUsageV>::empty());
            assert(ms0.to_multiset() =~= out@.map_values(view_of).to_multiset().add(
                ms0.to_multiset(),
            ));
            assert forall|name: Seq<char>|
                crate::seqs::count_where(out@.map_values(view_of), #[trigger] model_sel(name))
                    + crate::seqs::count_where(self.models@.map_values(view_of), model_sel(name))
                    == crate::seqs::count_where(ms0, model_sel(name)) by {
                crate::seqs::lemma_count_where_exists(out@.map_values(view_of), model_sel(name));
            }
        }
        while self.models.len() > 0
            invariant
                out@.map_values(view_of).to_multiset().add(
                    self.models@.map_values(view_of).to_multiset(),
                ) == ms0.to_multiset(),
                forall|name: Seq<char>|
                    crate::seqs::count_where(out@.map_values(view_of), #[trigger] model_sel(name))
                        + crate::seqs::count_where(
                        self.models@.map_values(view_of),
                        model_sel(name),
                    ) == crate::seqs::count_where(ms0, model_sel(name)),
                forall|a: int, b: int|
                    0 <= a < b < out@.len() ==> #[trigger] out@[b].cost_micros
                        <= #[trigger] out@[a].cost_micros,
                forall|a: int, b: int|
                    0 <= a < out@.len() && 0 <= b < self.models@.len()
                        ==> #[trigger] self.models@[b].cost_micros <= #[trigger] out@[a].cost_micros,
                *self == (StatsCache { models: self.models, ..*old(self) }),
            decreases self.models.len(),
        {
            let n = self.models.len();
            let mut m: usize = 0;
            let mut k: usize = 1;
            while k < n
                invariant
                    m < k <= n,
                    n == self.models.len(),
                    forall|q: int|
                        0 <= q < k ==> #[trigger] self.models@[q].cost_micros
                            <= self.models@[m as int].cost_micros,
                decreases n - k,
            {
                if self.models[m].cost_micros < self.models[k].cost_micros {
                    m = k;
                }
                k = k + 1;
            }
            let ghost rem = self.models@.map_values(view_of);
            let ghost out_before = out@;
            let x = self.models.remove(m);
            out.push(x);
            proof {
                assert(rem[m as int] == x@);
                assert(self.models@.map_values(view_of) =~= rem.remove(m as int));
                assert(rem.remove(m as int).to_multiset() =~= rem.to_multiset().remove(x@));
                assert(rem.contains(x@));
                assert(rem.to_multiset().count(x@) > 0);
                assert(out@ == out_before.push(x));
                assert(out@.map_values(view_of) =~= out_before.map_values(view_of).push(x@));
                assert(out@.map_values(view_of).to_multiset() =~= out_before.map_values(
                    view_of,
                ).to_multiset().insert(x@));
                let lhs = out_before.map_values(view_of).to_multiset().insert(x@).add(
                    rem.to_multiset().remove(x@),
                );
                let rhs = out_before.map_values(view_of).to_multiset().add(rem.to_multiset());
                assert forall|e: ModelUsageV| lhs.count(e) == rhs.count(e) by {
                    if e == x@ {
                        assert(rem.to_multiset().count(x@) >= 1);
                    }
                }
                assert(lhs =~= rhs);
                assert(out@.map_values(view_of).to_multiset().add(
                    self.models@.map_values(view_of).to_multiset(),
                ) =~= ms0.to_multiset());
                assert forall|name: Seq<char>|
                    crate::seqs::count_where(out@.map_values(view_of), #[trigger] model_sel(name))
                        + crate::seqs::count_where(
                        self.models@.map_values(view_of),
                        model_sel(name),
                    ) == crate::seqs::count_where(ms0, model_sel(name)) by {
                    crate::seqs::lemma_count_where_push(
                        out_before.map_values(view_of),
                        x@,
                        model_sel(name),
                    );
                    crate::seqs::lemma_sum_where_remove(
                        rem,
                        m as int,
                        model_sel(name),
                        crate::seqs::one::<ModelUsageV>(),
                    );
                }
                assert(forall|b: int|
                    0 <= b < self.models@.len() ==> #[trigger] self.models@[b].cost_micros
                        <= x.cost_micros);
            }
        }
        self.models = out;
    }
}

/// Today's aggregate across all providers.
#[derive(Clone, Debug)]
pub struct TodayStats {
    /// Input tokens today.
    pub input_tokens: i64,
    /// Output tokens today.
    pub output_tokens: i64,
    /// Cache-read tokens today.
    pub cache_read_tokens: i64,
    /// Cache-creation tokens today.
    pub cache_creation_tokens: i64,
    /// Cost today, micro-dollars.
    pub cost_micros: i64,
    /// Distinct sessions today.
    pub session_count: i64,
    /// Messages today.
    pub message_count: i64,
    /// Cache-hit rate today, in millionths.
    pub cache_hit_rate: i64,
}

impl TodayStats {
    /// Recomputes the cache-hit rate from today's token counts.
    pub fn update_cache_hit_rate(&mut self)
        requires
            old(self).cache_read_tokens >= 0,
            old(self).input_tokens >= 0,
        ensures
            final(self).cache_hit_rate == spec_hit_rate(
                old(self).cache_read_tokens as int,
                old(self).input_tokens as int,
            ),
            *final(self) == (TodayStats { cache_hit_rate: final(self).cache_hit_rate, ..*old(self) }),
    {
        self.cache_hit_rate = hit_rate_millionths(self.cache_read_tokens, self.input_tokens);
    }
}

/// One day's aggregate across all providers, for trend views.
#[derive(Clone, Debug)]
pub struct DailyActivity {
    /// Date, `YYYY-MM-DD`.
    pub date: String,
    /// Input tokens that day.
    pub input_tokens: i64,
    /// Output tokens that day.
    pub output_tokens: i64,
    /// Cost that day, micro-dollars.
    pub cost_micros: i64,
    /// Sessions that day, summed over providers.
    pub session_count: i64,
    /// Messages that day.
    pub message_count: i64,
}

/// Mathematical view of `DailyActivity`.
#[verifier::ext_equal]
pub struct ActivityV {
    pub date: Seq<char>,
    pub input: int,
    pub output: int,
    pub cost: int,
    pub sessions: int,
    pub messages: int,
}

impl View for DailyActivity {
    type V = ActivityV;

    open spec fn view(&self) -> ActivityV {
        ActivityV {
            date: self.date@,
            input: self.input_tokens as int,
            output: self.output_tokens as int,
            cost: self.cost_micros as int,
            sessions: self.session_count as int,
            messages: self.message_count as int,
        }
    }
}

/// Selects an activity row by date.
pub open spec fn asel_date(d: Seq<char>) -> spec_fn(ActivityV) -> bool {
    |a: ActivityV| a.date == d
}

/// First activity row for `date`, or -1 when none exists.
pub open spec fn find_activity(acts: Seq<ActivityV>, d: Seq<char>) -> int {
    first_where(acts, asel_date(d))
}

/// The per-day listing after absorbing one row: added field-wise into the
/// existing row for that date, or appended when the date is new.
pub open spec fn spec_add_activity(acts: Seq<ActivityV>, a: ActivityV) -> Seq<ActivityV> {
    let j = find_activity(acts, a.date);
    if j == -1 {
        acts.push(a)
    } else {
        acts.update(
            j,
            ActivityV {
                date: acts[j].date,
                input: acts[j].input + a.input,
                output: acts[j].output + a.output,
                cost: acts[j].cost + a.cost,
                sessions: acts[j].sessions + a.sessions,
                messages: acts[j].messages + a.messages,
            },
        )
    }
}

impl DailyActivity {
    /// A fresh row for `date` with every number at zero.
    pub fn new(date: String) -> (r: Self)
        ensures
            r.date@ == date@,
            r.input_tokens == 0,
            r.output_tokens == 0,
            r.cost_micros == 0,
            r.session_count == 0,
            r.message_count == 0,
    {
        DailyActivity {
            date,
            input_tokens: 0,
            output_tokens: 0,
            cost_micros: 0,
            session_count: 0,
            message_count: 0,
        }
    }

    /// Input plus output tokens for the day.
    pub fn total_tokens(&self) -> (r: i64)
        requires
            self.input_tokens + self.output_tokens <= i64::MAX,
            self.input_tokens + self.output_tokens >= i64::MIN,
        ensures
            r == self.input_tokens + self.output_tokens,
    {
        self.input_tokens + self.output_tokens
    }
}

} // verus!
