//! The action that gives assets a new symbol.

use crate::action::{BatchActionArgs, RunActionArgs};
use crate::error::RunError;
use crate::outcome::ClassifiedError;
use crate::value::NewValue;
use std::sync::Arc;
use vstd::prelude::*;

verus! {

/// The arguments of a run that gives every asset of a list the same symbol.
pub struct UpdateSymbolAllArgs<C> {
    pub client: C,
    pub keypair: Option<String>,
    pub mint_list: Option<String>,
    pub cache_file: Option<String>,
    pub new_symbol: String,
    pub rate_limit: usize,
    pub retries: u8,
}

/// The arguments of the update of one asset.
pub struct UpdateSymbolArgs<C, K> {
    pub client: Arc<C>,
    pub keypair: Arc<K>,
    pub mint_account: String,
    pub new_symbol: String,
}

/// The stored data of an asset: its symbol, and the rest, which an update of
/// the symbol carries over as it is.
pub struct AssetData<R> {
    pub symbol: String,
    pub rest: R,
}

/// An update to submit: the asset, the authority that signs, and the data
/// that the asset is to hold.
pub struct UpdateAssetArgs<K, R> {
    pub payer: Option<Arc<K>>,
    pub authority: Arc<K>,
    pub mint: String,
    pub token: Option<String>,
    pub delegate_record: Option<String>,
    pub data: AssetData<R>,
}

/// Decides what follows the reading of an asset's data. A failed reading is
/// the failure of the update, passed on as it was classified. After a
/// successful one the update to submit is the asset's own data with the new
/// symbol in place of the old, signed by the keypair of the arguments, with
/// no separate payer, token or delegate record.
pub fn update_symbol<C, K, R>(
    args: UpdateSymbolArgs<C, K>,
    fetched: Result<AssetData<R>, ClassifiedError>,
) -> (update: Result<UpdateAssetArgs<K, R>, ClassifiedError>)
    ensures
        match fetched {
            Ok(current) => update == Ok::<UpdateAssetArgs<K, R>, ClassifiedError>(
                UpdateAssetArgs {
                    payer: None,
                    authority: args.keypair,
                    mint: args.mint_account,
                    token: None,
                    delegate_record: None,
                    data: AssetData { symbol: args.new_symbol, rest: current.rest },
                },
            ),
            Err(e) => update == Err::<UpdateAssetArgs<K, R>, ClassifiedError>(e),
        },
{
    match fetched {
        Ok(current) => Ok(
            UpdateAssetArgs {
                payer: None,
                authority: args.keypair,
                mint: args.mint_account,
                token: None,
                delegate_record: None,
                data: AssetData { symbol: args.new_symbol, rest: current.rest },
            },
        ),
        Err(e) => Err(e),
    }
}

/// The action that updates the symbol of every asset of a run.
#[derive(Clone, Copy, Debug)]
pub struct UpdateSymbolAll {}

impl UpdateSymbolAll {
    /// The name of the action.
    pub fn name() -> (name: &'static str)
        ensures
            name@ == "update-symbol-all"@,
    {
        "update-symbol-all"
    }

    /// The update that one invocation makes: of the asset that the
    /// invocation names, to the value that it carries, with its handles.
    pub fn action<C, K>(args: RunActionArgs<C, K>) -> (update: UpdateSymbolArgs<C, K>)
        ensures
            update == (UpdateSymbolArgs {
                client: args.client,
                keypair: args.keypair,
                mint_account: args.mint_account,
                new_symbol: args.new_value,
            }),
    {
        UpdateSymbolArgs {
            client: args.client,
            keypair: args.keypair,
            mint_account: args.mint_account,
            new_symbol: args.new_value,
        }
    }
}

/// Sets up the run that gives every asset of `mint_list` the symbol of the
/// arguments. `keypair` is the loaded credential, `None` if it could not be
/// loaded: the run then fails with `CredentialLoadFailure`. Else the run has
/// the client, the cache file, the rate and the retries of the arguments, no
/// separate payer, and the one symbol as the value for every asset.
pub fn update_symbol_all<C, K>(
    args: UpdateSymbolAllArgs<C>,
    keypair: Option<K>,
    mint_list: Vec<String>,
) -> (run: Result<BatchActionArgs<C, K>, RunError>)
    ensures
        match keypair {
            Some(k) => run == Ok::<BatchActionArgs<C, K>, RunError>(
                BatchActionArgs {
                    client: args.client,
                    keypair: k,
                    payer: None,
                    mint_list,
                    cache_file: args.cache_file,
                    new_value: NewValue::Single(args.new_symbol),
                    rate_limit: args.rate_limit,
                    retries: args.retries,
                },
            ),
            None => run == Err::<BatchActionArgs<C, K>, RunError>(RunError::CredentialLoadFailure),
        },
{
    match keypair {
        Some(k) => Ok(
            BatchActionArgs {
                client: args.client,
                keypair: k,
                payer: None,
                mint_list,
                cache_file: args.cache_file,
                new_value: NewValue::Single(args.new_symbol),
                rate_limit: args.rate_limit,
                retries: args.retries,
            },
        ),
        None => Err(RunError::CredentialLoadFailure),
    }
}

} // verus!
