//! The static price table: model name to per-token rates, and the cost of an
//! invocation. Rates are micro-dollars per million tokens, so costs are
//! exact integers.
//!
//! Rows are keyed by model family, and a model name reaches a row when the
//! family key ends the name — so a vendor's fully qualified model names land
//! on their family's rates.
use vstd::prelude::*;
use vstd::string::*;

use crate::seqs::{first_where, lemma_first_where};
use crate::text::{seq_ends_with, str_ends_with};

verus! {

/// Per-million-token rates for one model, in micro-dollars.
#[derive(Clone, Copy, Debug)]
pub struct ModelPricing {
    pub input_per_million_micros: i64,
    pub output_per_million_micros: i64,
    pub cache_read_per_million_micros: i64,
    pub cache_creation_per_million_micros: i64,
}

/// Whether a model name belongs to a price row: the row's family key ends
/// the name.
pub open spec fn key_matches(name: Seq<char>, key: Seq<char>) -> bool {
    seq_ends_with(name, key)
}

/// Selects the first price row whose family key ends the model name.
pub open spec fn price_sel(name: Seq<char>) -> spec_fn((String, ModelPricing)) -> bool {
    |e: (String, ModelPricing)| key_matches(name, e.0@)
}

/// One cost term: tokens at a per-million rate, truncated to micro-dollars.
pub open spec fn spec_term(tokens: int, rate: int) -> int {
    (tokens * rate) / 1_000_000
}

/// The price table.
pub struct PricingService {
    pub pricing: Vec<(String, ModelPricing)>,
}

impl PricingService {
    /// Every rate in the table is non-negative.
    pub open spec fn wf(&self) -> bool {
        forall|i: int|
            0 <= i < self.pricing@.len() ==> {
                let p = (#[trigger] self.pricing@[i]).1;
                p.input_per_million_micros >= 0 && p.output_per_million_micros >= 0
                    && p.cache_read_per_million_micros >= 0 && p.cache_creation_per_million_micros
                    >= 0
            }
    }

    /// The built-in table: example rates for three model families.
    pub fn new() -> (r: Self)
        ensures
            r.wf(),
            r.pricing@.len() == 3,
            r.pricing@[0].0@ == "opus"@,
            r.pricing@[0].1 == (ModelPricing {
                input_per_million_micros: 15_000_000,
                output_per_million_micros: 75_000_000,
                cache_read_per_million_micros: 1_500_000,
                cache_creation_per_million_micros: 0,
            }),
            r.pricing@[1].0@ == "sonnet"@,
            r.pricing@[1].1 == (ModelPricing {
                input_per_million_micros: 3_000_000,
                output_per_million_micros: 15_000_000,
                cache_read_per_million_micros: 300_000,
                cache_creation_per_million_micros: 0,
            }),
            r.pricing@[2].0@ == "haiku"@,
            r.pricing@[2].1 == (ModelPricing {
                input_per_million_micros: 250_000,
                output_per_million_micros: 1_250_000,
                cache_read_per_million_micros: 25_000,
                cache_creation_per_million_micros: 0,
            }),
    {
        let mut pricing: Vec<(String, ModelPricing)> = Vec::new();
        pricing.push(
            (
                "opus".to_owned(),
                ModelPricing {
                    input_per_million_micros: 15_000_000,
                    output_per_million_micros: 75_000_000,
                    cache_read_per_million_micros: 1_500_000,
                    cache_creation_per_million_micros: 0,
                },
            ),
        );
        pricing.push(
            (
                "sonnet".to_owned(),
                ModelPricing {
                    input_per_million_micros: 3_000_000,
                    output_per_million_micros: 15_000_000,
                    cache_read_per_million_micros: 300_000,
                    cache_creation_per_million_micros: 0,
                },
            ),
        );
        pricing.push(
            (
                "haiku".to_owned(),
                ModelPricing {
                    input_per_million_micros: 250_000,
                    output_per_million_micros: 1_250_000,
                    cache_read_per_million_micros: 25_000,
                    cache_creation_per_million_micros: 0,
                },
            ),
        );
        PricingService { pricing }
    }

    /// The cost of one invocation in micro-dollars: each token count at its
    /// per-million rate, truncated per term. The rates are those of the
    /// first row whose family key ends the model name; a model of no known
    /// family costs zero.
    pub fn calculate_cost(
        &self,
        model: &str,
        input_tokens: i64,
        output_tokens: i64,
        cache_read_tokens: i64,
        cache_creation_tokens: i64,
    ) -> (r: i64)
        requires
            self.wf(),
            input_tokens >= 0,
            output_tokens >= 0,
            cache_read_tokens >= 0,
            cache_creation_tokens >= 0,
            ({
                let j = first_where(self.pricing@, price_sel(model@));
                j != -1 ==> {
                    let p = self.pricing@[j].1;
                    spec_term(input_tokens as int, p.input_per_million_micros as int) + spec_term(
                        output_tokens as int,
                        p.output_per_million_micros as int,
                    ) + spec_term(cache_read_tokens as int, p.cache_read_per_million_micros as int)
                        + spec_term(
                        cache_creation_tokens as int,
                        p.cache_creation_per_million_micros as int,
                    ) <= i64::MAX
                }
            }),
        ensures
            ({
                let j = first_where(self.pricing@, price_sel(model@));
                if j == -1 {
                    r == 0
                } else {
                    let p = self.pricing@[j].1;
                    r == spec_term(input_tokens as int, p.input_per_million_micros as int)
                        + spec_term(output_tokens as int, p.output_per_million_micros as int)
                        + spec_term(
                        cache_read_tokens as int,
                        p.cache_read_per_million_micros as int,
                    ) + spec_term(
                        cache_creation_tokens as int,
                        p.cache_creation_per_million_micros as int,
                    )
                }
            }),
    {
        let ghost sel = price_sel(model@);
        proof {
            lemma_first_where(self.pricing@, sel);
        }
        let n = self.pricing.len();
        let mut i: usize = 0;
        while i < n
            invariant
                i <= n,
                n == self.pricing@.len(),
                sel == price_sel(model@),
                forall|k: int| 0 <= k < i ==> !sel(#[trigger] self.pricing@[k]),
            decreases n - i,
        {
            if str_ends_with(model, self.pricing[i].0.as_str()) {
                proof {
                    assert(sel(self.pricing@[i as int]));
                    let fw = first_where(self.pricing@, sel);
                    assert(fw != -1);
                    if fw < i as int {
                        assert(!sel(self.pricing@[fw]));
                    }
                    if fw > i as int {
                        assert(!sel(self.pricing@[i as int]));
                    }
                    assert(fw == i as int);
                }
                let p = self.pricing[i].1;
                let t1: i128 = (input_tokens as i128) * (p.input_per_million_micros as i128)
                    / 1_000_000;
                let t2: i128 = (output_tokens as i128) * (p.output_per_million_micros as i128)
                    / 1_000_000;
                let t3: i128 = (cache_read_tokens as i128) * (p.cache_read_per_million_micros
                    as i128) / 1_000_000;
                let t4: i128 = (cache_creation_tokens as i128)
                    * (p.cache_creation_per_million_micros as i128) / 1_000_000;
                proof {
                    assert((input_tokens as i128) * (p.input_per_million_micros as i128)
                        <= i64::MAX as i128 * i64::MAX as i128 && (input_tokens as i128)
                        * (p.input_per_million_micros as i128) >= 0) by (nonlinear_arith)
                        requires
                            0 <= input_tokens <= i64::MAX,
                            0 <= p.input_per_million_micros <= i64::MAX,
                    ;
                    assert((output_tokens as i128) * (p.output_per_million_micros as i128)
                        <= i64::MAX as i128 * i64::MAX as i128 && (output_tokens as i128)
                        * (p.output_per_million_micros as i128) >= 0) by (nonlinear_arith)
                        requires
                            0 <= output_tokens <= i64::MAX,
                            0 <= p.output_per_million_micros <= i64::MAX,
                    ;
                    assert((cache_read_tokens as i128) * (p.cache_read_per_million_micros as i128)
                        <= i64::MAX as i128 * i64::MAX as i128 && (cache_read_tokens as i128)
                        * (p.cache_read_per_million_micros as i128) >= 0) by (nonlinear_arith)
                        requires
                            0 <= cache_read_tokens <= i64::MAX,
                            0 <= p.cache_read_per_million_micros <= i64::MAX,
                    ;
                    assert((cache_creation_tokens as i128) * (p.cache_creation_per_million_micros
                        as i128) <= i64::MAX as i128 * i64::MAX as i128 && (cache_creation_tokens
                        as i128) * (p.cache_creation_per_million_micros as i128) >= 0)
                        by (nonlinear_arith)
                        requires
                            0 <= cache_creation_tokens <= i64::MAX,
                            0 <= p.cache_creation_per_million_micros <= i64::MAX,
                    ;
                }
                return (t1 + t2 + t3 + t4) as i64;
            }
            i = i + 1;
        }
        proof {
            assert(first_where(self.pricing@, sel) == -1);
        }
        0
    }
}

} // verus!
