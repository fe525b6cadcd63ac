//! The provider identity resolver: parsed settings in, recognized provider
//! out, with the single-active discipline enforced by the store.
use vstd::prelude::*;

use crate::hashing::sha256_hex_of;
use crate::models::{prefix8, view_opt, Provider};
use crate::parser::Settings;
use crate::store::{clone_opt_string, Repository, RepositoryError};

verus! {

/// Owns the store and recognizes credentials against it.
pub struct ProviderTracker {
    pub repository: Repository,
}

impl ProviderTracker {
    /// Wraps a store.
    pub fn new(repository: Repository) -> (r: Self)
        ensures
            r.repository == repository,
    {
        ProviderTracker { repository }
    }

    /// Recognizes the credential of a settings blob: the provider with that
    /// hash becomes the single active one, created on first sight.
    pub fn track_from_settings(&mut self, settings: &Settings) -> (r: Result<
        Provider,
        RepositoryError,
    >)
        requires
            old(self).repository.wf(),
        ensures
            final(self).repository.wf(),
            r is Ok <==> crate::state::upsert_fits(
                old(self).repository@,
                sha256_hex_of(settings.api_key@),
            ),
            (match r {
                Ok(p) => {
                    let su = crate::state::spec_upsert(
                        old(self).repository@,
                        sha256_hex_of(settings.api_key@),
                        prefix8(settings.api_key@),
                        view_opt(settings.base_url),
                        p@.last_seen_at,
                    );
                    final(self).repository@ == su.0 && p@ == su.1 && p.is_active
                },
                Err(e) => final(self).repository@ == old(self).repository@ && e
                    == RepositoryError::Overflow,
            }),
    {
        let url = clone_opt_string(&settings.base_url);
        self.repository.upsert_provider(settings.api_key.as_str(), url)
    }
}

} // verus!
