//! Valuing a tree of pots from the bottom up.
//!
//! Cash is priced at one. An equity is priced by the quotes that the caller
//! brings. A nested pot is priced at the market value of the pot itself,
//! which is worked out before its owner is valued. Each pot is valued at
//! its own place with its own prices, so two nested pots of the same name
//! at different places never share a price.

use crate::amounts::{entered, Amounts};
use crate::asset_tag::{AssetTag, TagModel};
use crate::error::{ErrorModel, ValuationError};
use crate::portfolio::{market_value_result, market_values_result};
use crate::pot::PotModel;
use crate::pot_path::PotPath;
use crate::seqs::lemma_first_index_of;
use crate::store::{
    chain_with, leads_to, lemma_unresolved_fewer, local_subpots, places, places_of, pot_at,
    read_local_subpots, subpots_of, unresolved, PotStore,
};
use vstd::prelude::*;

verus! {

/// The prices before any nested pot is priced: the quotes, with cash at
/// one.
pub open spec fn base_prices(quotes: Seq<(TagModel, int)>) -> Seq<(TagModel, int)> {
    entered(quotes, TagModel::Usd, 1)
}

/// The prices for the assets of the pot at `at`: the base prices, and for
/// each nested pot that the pot owns the market value of that pot.
pub open spec fn pot_prices(
    store: Seq<(Seq<Seq<char>>, PotModel)>,
    at: Seq<Seq<char>>,
    resolving: Seq<Seq<Seq<char>>>,
    quotes: Seq<(TagModel, int)>,
) -> Result<Seq<(TagModel, int)>, ErrorModel>
    decreases unresolved(places(store), resolving), 0nat, 0nat,
{
    if resolving.contains(at) {
        Err(ErrorModel::CycleDetected(at))
    } else if pot_at(store, at) is None {
        Err(ErrorModel::NotInitialized(at))
    } else {
        let locals = local_subpots(pot_at(store, at)->0.lots, at);
        proof {
            lemma_first_index_of(places(store), at);
            lemma_unresolved_fewer(places(store), resolving, at);
        }
        sub_prices(store, locals, resolving.push(at), quotes, locals.len())
    }
}

/// The base prices and the prices of the first `k` of the nested pots
/// `locals`, each priced at its market value.
pub open spec fn sub_prices(
    store: Seq<(Seq<Seq<char>>, PotModel)>,
    locals: Seq<(TagModel, Seq<Seq<char>>)>,
    resolving: Seq<Seq<Seq<char>>>,
    quotes: Seq<(TagModel, int)>,
    k: nat,
) -> Result<Seq<(TagModel, int)>, ErrorModel>
    decreases unresolved(places(store), resolving), 2nat, k,
{
    if k == 0 || k > locals.len() {
        Ok(base_prices(quotes))
    } else {
        match sub_prices(store, locals, resolving, quotes, (k - 1) as nat) {
            Err(e) => Err(e),
            Ok(prices) => match pot_value(store, locals[k - 1].1, resolving, quotes) {
                Err(e) => Err(e),
                Ok(value) => Ok(entered(prices, locals[k - 1].0, value)),
            },
        }
    }
}

/// The market value of the pot at `at`: that of its lots and free cash at
/// the pot's own prices.
pub open spec fn pot_value(
    store: Seq<(Seq<Seq<char>>, PotModel)>,
    at: Seq<Seq<char>>,
    resolving: Seq<Seq<Seq<char>>>,
    quotes: Seq<(TagModel, int)>,
) -> Result<int, ErrorModel>
    decreases unresolved(places(store), resolving), 1nat, 0nat,
{
    match pot_prices(store, at, resolving, quotes) {
        Err(e) => Err(e),
        Ok(prices) => match pot_at(store, at) {
            None => Err(ErrorModel::NotInitialized(at)),
            Some(pot) => market_value_result(pot.lots, pot.free_cash, prices),
        },
    }
}

/// The market values of the assets of the pot at `at`, at the pot's own
/// prices.
pub open spec fn pot_values(
    store: Seq<(Seq<Seq<char>>, PotModel)>,
    at: Seq<Seq<char>>,
    quotes: Seq<(TagModel, int)>,
) -> Result<Seq<(TagModel, int)>, ErrorModel> {
    match pot_prices(store, at, Seq::empty(), quotes) {
        Err(e) => Err(e),
        Ok(prices) => match pot_at(store, at) {
            None => Err(ErrorModel::NotInitialized(at)),
            Some(pot) => market_values_result(pot.lots, pot.free_cash, prices),
        },
    }
}

/// Pricing that has stopped at one of the nested pots stays stopped
/// however many more there are.
pub proof fn lemma_sub_prices_stopped(
    store: Seq<(Seq<Seq<char>>, PotModel)>,
    locals: Seq<(TagModel, Seq<Seq<char>>)>,
    resolving: Seq<Seq<Seq<char>>>,
    quotes: Seq<(TagModel, int)>,
    j: nat,
    k: nat,
)
    requires
        j <= k <= locals.len(),
        sub_prices(store, locals, resolving, quotes, j) is Err,
    ensures
        sub_prices(store, locals, resolving, quotes, k) == sub_prices(
            store,
            locals,
            resolving,
            quotes,
            j,
        ),
    decreases k,
{
    if j < k {
        lemma_sub_prices_stopped(store, locals, resolving, quotes, j, (k - 1) as nat);
    }
}

impl PotStore {
    /// The prices for the assets of the pot at `at`: the quotes, cash at
    /// one, and each nested pot that the pot owns at its market value.
    pub fn fetch_prices(&self, at: &PotPath, quotes: &Amounts) -> (r: Result<
        Amounts,
        ValuationError,
    >)
        ensures
            match r {
                Ok(prices) => pot_prices(self@, at@, Seq::empty(), quotes@) == Ok::<
                    Seq<(TagModel, int)>,
                    ErrorModel,
                >(prices@),
                Err(e) => pot_prices(self@, at@, Seq::empty(), quotes@) == Err::<
                    Seq<(TagModel, int)>,
                    ErrorModel,
                >(e@),
            },
    {
        let resolving: Vec<PotPath> = Vec::new();
        assert(places_of(resolving@) == Seq::<Seq<Seq<char>>>::empty());
        self.prices_inside(at, &resolving, quotes)
    }

    /// The market value of the pot at `at`, nested pots included.
    pub fn read_market_value(&self, at: &PotPath, quotes: &Amounts) -> (r: Result<
        i128,
        ValuationError,
    >)
        ensures
            match r {
                Ok(value) => pot_value(self@, at@, Seq::empty(), quotes@) == Ok::<
                    int,
                    ErrorModel,
                >(value as int),
                Err(e) => pot_value(self@, at@, Seq::empty(), quotes@) == Err::<int, ErrorModel>(
                    e@,
                ),
            },
    {
        let resolving: Vec<PotPath> = Vec::new();
        assert(places_of(resolving@) == Seq::<Seq<Seq<char>>>::empty());
        self.value_inside(at, &resolving, quotes)
    }

    /// The market value of each asset of the pot at `at`, a nested pot at
    /// the market value of the pot itself.
    pub fn read_market_values(&self, at: &PotPath, quotes: &Amounts) -> (r: Result<
        Amounts,
        ValuationError,
    >)
        ensures
            match r {
                Ok(values) => pot_values(self@, at@, quotes@) == Ok::<
                    Seq<(TagModel, int)>,
                    ErrorModel,
                >(values@),
                Err(e) => pot_values(self@, at@, quotes@) == Err::<
                    Seq<(TagModel, int)>,
                    ErrorModel,
                >(e@),
            },
    {
        match self.fetch_prices(at, quotes) {
            Err(e) => Err(e),
            Ok(prices) => match self.get(at) {
                None => Err(ValuationError::NotInitialized(at.clone())),
                Some(pot) => pot.read_portfolio().market_values(&prices),
            },
        }
    }

    /// The prices for the pot at `at`, for a valuation that is inside the
    /// pots of `resolving`.
    pub fn prices_inside(&self, at: &PotPath, resolving: &Vec<PotPath>, quotes: &Amounts) -> (r:
        Result<Amounts, ValuationError>)
        ensures
            match r {
                Ok(prices) => pot_prices(self@, at@, places_of(resolving@), quotes@) == Ok::<
                    Seq<(TagModel, int)>,
                    ErrorModel,
                >(prices@),
                Err(e) => pot_prices(self@, at@, places_of(resolving@), quotes@) == Err::<
                    Seq<(TagModel, int)>,
                    ErrorModel,
                >(e@),
            },
        decreases unresolved(places(self@), places_of(resolving@)), 0nat, 0nat,
    {
        if leads_to(resolving, at) {
            return Err(ValuationError::CycleDetected(at.clone()));
        }
        let pot = match self.get(at) {
            Some(pot) => pot,
            None => {
                return Err(ValuationError::NotInitialized(at.clone()));
            },
        };
        let subpots = read_local_subpots(pot, at);
        let chain = chain_with(resolving, at);
        let ghost locals = subpots_of(subpots@);
        let ghost store = self@;
        proof {
            lemma_first_index_of(places(store), at@);
            lemma_unresolved_fewer(places(store), places_of(resolving@), at@);
        }
        let mut prices = quotes.clone();
        prices.insert(AssetTag::Usd, 1);
        let mut k: usize = 0;
        while k < subpots.len()
            invariant
                k <= subpots.len(),
                store == self@,
                !places_of(resolving@).contains(at@),
                pot_at(store, at@) == Some(pot@),
                locals == subpots_of(subpots@),
                locals == local_subpots(pot@.lots, at@),
                places_of(chain@) == places_of(resolving@).push(at@),
                unresolved(places(store), places_of(chain@)) < unresolved(
                    places(store),
                    places_of(resolving@),
                ),
                sub_prices(store, locals, places_of(chain@), quotes@, k as nat) == Ok::<
                    Seq<(TagModel, int)>,
                    ErrorModel,
                >(prices@),
            decreases subpots.len() - k,
        {
            assert(locals[k as int] == (subpots@[k as int].0@, subpots@[k as int].1@));
            match self.value_inside(&subpots[k].1, &chain, quotes) {
                Err(e) => {
                    proof {
                        lemma_sub_prices_stopped(
                            store,
                            locals,
                            places_of(chain@),
                            quotes@,
                            (k + 1) as nat,
                            locals.len(),
                        );
                    }
                    return Err(e);
                },
                Ok(value) => {
                    prices.insert(subpots[k].0.clone(), value);
                },
            }
            k += 1;
        }
        Ok(prices)
    }

    /// The market value of the pot at `at`, for a valuation that is inside
    /// the pots of `resolving`.
    pub fn value_inside(&self, at: &PotPath, resolving: &Vec<PotPath>, quotes: &Amounts) -> (r:
        Result<i128, ValuationError>)
        ensures
            match r {
                Ok(value) => pot_value(self@, at@, places_of(resolving@), quotes@) == Ok::<
                    int,
                    ErrorModel,
                >(value as int),
                Err(e) => pot_value(self@, at@, places_of(resolving@), quotes@) == Err::<
                    int,
                    ErrorModel,
                >(e@),
            },
        decreases unresolved(places(self@), places_of(resolving@)), 1nat, 0nat,
    {
        match self.prices_inside(at, resolving, quotes) {
            Err(e) => Err(e),
            Ok(prices) => match self.get(at) {
                None => Err(ValuationError::NotInitialized(at.clone())),
                Some(pot) => pot.read_portfolio().market_value(&prices),
            },
        }
    }
}

} // verus!
