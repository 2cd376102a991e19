//! What a run is called with, and what one invocation of an action is
//! handed.
//!
//! The client and the credentials are handles that the engine carries and
//! never looks into; their types are left to the caller.

use crate::backoff::BackoffPolicy;
use crate::cache::ProgressCache;
use crate::error::RunError;
use crate::keyed::texts;
use crate::runner::{planned, BatchRunner, RunSettings};
use crate::value::{covers, NewValue};
use std::sync::Arc;
use vstd::prelude::*;

verus! {

/// The arguments of a whole run.
pub struct BatchActionArgs<C, K> {
    pub client: C,
    pub keypair: K,
    pub payer: Option<K>,
    pub mint_list: Vec<String>,
    pub cache_file: Option<String>,
    pub new_value: NewValue,
    pub rate_limit: usize,
    pub retries: u8,
}

/// The arguments of one invocation: the shared handles, the identifier and
/// the value to apply to it.
pub struct RunActionArgs<C, K> {
    pub client: Arc<C>,
    pub keypair: Arc<K>,
    pub payer: Arc<Option<K>>,
    pub mint_account: String,
    pub new_value: String,
}

impl<C, K> BatchActionArgs<C, K> {
    /// The pace of the run: the rate and the retries of the arguments, with
    /// the given delay policy and number of workers.
    pub fn settings(&self, backoff: BackoffPolicy, workers: usize) -> (settings: RunSettings)
        ensures
            settings.rate_limit == self.rate_limit,
            settings.retries == self.retries,
            settings.backoff == backoff,
            settings.workers == workers,
    {
        RunSettings { rate_limit: self.rate_limit, retries: self.retries, backoff, workers }
    }

    /// Plans the run that the arguments describe, with the progress recorded
    /// in `cache`: see [`BatchRunner::plan`].
    pub fn start(&self, cache: ProgressCache, backoff: BackoffPolicy, workers: usize) -> (run:
        Result<BatchRunner, RunError>)
        requires
            self.rate_limit > 0,
            self.new_value.wf(),
            cache.wf(),
        ensures
            match run {
                Ok(runner) => {
                    &&& self.mint_list.len() > 0
                    &&& covers(self.new_value@, texts(self.mint_list@))
                    &&& runner.wf()
                    &&& runner@ == planned(
                        texts(self.mint_list@),
                        self.new_value@,
                        RunSettings {
                            rate_limit: self.rate_limit,
                            retries: self.retries,
                            backoff,
                            workers,
                        },
                        cache@,
                    )
                },
                Err(e) => if self.mint_list.len() == 0 {
                    e == RunError::EmptyIdentifierList
                } else {
                    e == RunError::IncompleteValueMap && !covers(
                        self.new_value@,
                        texts(self.mint_list@),
                    )
                },
            },
    {
        let settings = self.settings(backoff, workers);
        BatchRunner::plan(&self.mint_list, &self.new_value, settings, cache)
    }
}

} // verus!
