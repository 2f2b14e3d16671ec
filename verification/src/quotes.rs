//! Prices of equities, as a price service answers for them.
//!
//! The service is asked with the texts of the assets and answers, symbol by
//! symbol, with a price in dollars or with none.

use crate::amounts::{entered, Amounts};
use crate::asset_tag::{tags_of, AssetTag, TagModel};
use crate::error::{ErrorModel, ValuationError};
use crate::seqs::unique;
use crate::targets::tag_texts;
use crate::text::{same_text, texts_of};
use vstd::prelude::*;
use vstd::string::*;

verus! {

/// The answer of the price service for one symbol.
#[derive(Debug)]
pub struct Quote {
    pub symbol: String,
    pub usd_price: Option<i128>,
}

impl View for Quote {
    type V = (Seq<char>, Option<int>);

    open spec fn view(&self) -> (Seq<char>, Option<int>) {
        (
            self.symbol@,
            match self.usd_price {
                Some(price) => Some(price as int),
                None => None,
            },
        )
    }
}

/// The answers held by a sequence of quotes.
pub open spec fn quotes_of(v: Seq<Quote>) -> Seq<(Seq<char>, Option<int>)> {
    Seq::new(v.len(), |i: int| v[i]@)
}

/// The asset that was asked for as `symbol`: the last of `equities` with
/// that text.
pub open spec fn asset_by_symbol(equities: Seq<TagModel>, symbol: Seq<char>) -> Option<TagModel>
    decreases equities.len(),
{
    if equities.len() == 0 {
        None
    } else if equities.last().text() == symbol {
        Some(equities.last())
    } else {
        asset_by_symbol(equities.drop_last(), symbol)
    }
}

/// The prices that the first `k` answers give. An answer without a price
/// for an asset that was asked for stops the pricing; an answer for a
/// symbol that was not asked for is passed over.
pub open spec fn quotes_priced(
    equities: Seq<TagModel>,
    quotes: Seq<(Seq<char>, Option<int>)>,
    k: nat,
) -> Result<Seq<(TagModel, int)>, ErrorModel>
    decreases k,
{
    if k == 0 || k > quotes.len() {
        Ok(Seq::empty())
    } else {
        match quotes_priced(equities, quotes, (k - 1) as nat) {
            Err(e) => Err(e),
            Ok(prices) => match asset_by_symbol(equities, quotes[k - 1].0) {
                None => Ok(prices),
                Some(tag) => match quotes[k - 1].1 {
                    None => Err(ErrorModel::MissingPrice(tag)),
                    Some(price) => Ok(entered(prices, tag, price)),
                },
            },
        }
    }
}

/// Pricing that has stopped at one answer stays stopped however many more
/// there are.
pub proof fn lemma_quotes_priced_stopped(
    equities: Seq<TagModel>,
    quotes: Seq<(Seq<char>, Option<int>)>,
    j: nat,
    k: nat,
)
    requires
        j <= k <= quotes.len(),
        quotes_priced(equities, quotes, j) is Err,
    ensures
        quotes_priced(equities, quotes, k) == quotes_priced(equities, quotes, j),
    decreases k,
{
    if j < k {
        lemma_quotes_priced_stopped(equities, quotes, j, (k - 1) as nat);
    }
}

/// Whether `symbol` is among the texts.
pub fn holds_text(texts: &Vec<String>, symbol: &str) -> (r: bool)
    ensures
        r == texts_of(texts@).contains(symbol@),
{
    let mut i: usize = 0;
    while i < texts.len()
        invariant
            i <= texts.len(),
            forall|j: int| 0 <= j < i ==> texts_of(texts@)[j] != symbol@,
        decreases texts.len() - i,
    {
        if same_text(texts[i].as_str(), symbol) {
            assert(texts_of(texts@)[i as int] == symbol@);
            return true;
        }
        i += 1;
    }
    false
}

/// The symbols to ask the price service for: the texts of the assets, each
/// once.
pub fn lookup_symbols(equities: &Vec<AssetTag>) -> (r: Vec<String>)
    ensures
        texts_of(r@) == unique(tag_texts(tags_of(equities@))),
{
    let mut r: Vec<String> = Vec::new();
    let ghost all = tag_texts(tags_of(equities@));
    let mut i: usize = 0;
    assert(all.take(0) == Seq::<Seq<char>>::empty());
    while i < equities.len()
        invariant
            i <= equities.len(),
            all == tag_texts(tags_of(equities@)),
            texts_of(r@) == unique(all.take(i as int)),
        decreases equities.len() - i,
    {
        let ghost before = texts_of(r@);
        proof {
            assert(all.take(i as int + 1).drop_last() == all.take(i as int));
            assert(all.take(i as int + 1).last() == equities@[i as int]@.text());
        }
        if !holds_text(&r, equities[i].as_str()) {
            r.push(equities[i].to_string());
            assert(texts_of(r@) == before.push(equities@[i as int]@.text()));
        }
        i += 1;
    }
    assert(all.take(i as int) == all);
    r
}

/// The asset that was asked for as `symbol`, if there is one.
pub fn find_by_symbol<'a>(equities: &'a Vec<AssetTag>, symbol: &str) -> (r: Option<&'a AssetTag>)
    ensures
        match r {
            Some(tag) => asset_by_symbol(tags_of(equities@), symbol@) == Some(tag@),
            None => asset_by_symbol(tags_of(equities@), symbol@) is None,
        },
{
    let ghost all = tags_of(equities@);
    let mut i: usize = equities.len();
    assert(all.take(i as int) == all);
    while i > 0
        invariant
            i <= equities.len(),
            all == tags_of(equities@),
            asset_by_symbol(all.take(i as int), symbol@) == asset_by_symbol(all, symbol@),
        decreases i,
    {
        proof {
            assert(all.take(i as int).drop_last() == all.take(i as int - 1));
            assert(all.take(i as int).last() == equities@[i as int - 1]@);
        }
        i -= 1;
        if equities[i].has_symbol(symbol) {
            return Some(&equities[i]);
        }
    }
    None
}

/// Turns the answers of the price service into prices by asset. An answer
/// without a price for an asset that was asked for is fatal.
pub fn fetch_equity_prices(equities: &Vec<AssetTag>, quotes: &Vec<Quote>) -> (r: Result<
    Amounts,
    ValuationError,
>)
    ensures
        match r {
            Ok(prices) => quotes_priced(tags_of(equities@), quotes_of(quotes@), quotes@.len())
                == Ok::<Seq<(TagModel, int)>, ErrorModel>(prices@),
            Err(e) => quotes_priced(tags_of(equities@), quotes_of(quotes@), quotes@.len())
                == Err::<Seq<(TagModel, int)>, ErrorModel>(e@),
        },
{
    let mut prices = Amounts::new();
    let ghost asked = tags_of(equities@);
    let ghost answers = quotes_of(quotes@);
    let mut k: usize = 0;
    while k < quotes.len()
        invariant
            k <= quotes.len(),
            asked == tags_of(equities@),
            answers == quotes_of(quotes@),
            quotes_priced(asked, answers, k as nat) == Ok::<Seq<(TagModel, int)>, ErrorModel>(
                prices@,
            ),
        decreases quotes.len() - k,
    {
        let quote = &quotes[k];
        assert(answers[k as int] == quote@);
        match find_by_symbol(equities, quote.symbol.as_str()) {
            None => {},
            Some(tag) => match quote.usd_price {
                None => {
                    proof {
                        lemma_quotes_priced_stopped(
                            asked,
                            answers,
                            (k + 1) as nat,
                            answers.len(),
                        );
                    }
                    return Err(ValuationError::MissingPrice(tag.clone()));
                },
                Some(price) => {
                    prices.insert(tag.clone(), price);
                },
            },
        }
        k += 1;
    }
    Ok(prices)
}

} // verus!
