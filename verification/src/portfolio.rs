//! A portfolio: the lots of one pot and its free cash, and what they are
//! worth at given prices.

use crate::amounts::{keys_of, lookup, Amounts};
use crate::asset_tag::{tags_of, AssetTag, TagModel};
use crate::error::{ErrorModel, ValuationError};
use crate::lot::{lots_of, Lot, LotModel};
use crate::seqs::{first_index_of, lemma_first_index_of};
use vstd::prelude::*;

verus! {

/// The lots of one pot and its free cash.
#[derive(Debug)]
pub struct Portfolio {
    pub lots: Vec<Lot>,
    pub free_cash: i128,
}

/// Whether `x` fits into a signed 128-bit number.
pub open spec fn fits(x: int) -> bool {
    i128::MIN <= x <= i128::MAX
}

/// The sum of the counts of the lots that hold `tag`.
pub open spec fn count_of(lots: Seq<LotModel>, tag: TagModel) -> int
    decreases lots.len(),
{
    if lots.len() == 0 {
        0
    } else {
        count_of(lots.drop_last(), tag) + if lots.last().tag == tag {
            lots.last().count
        } else {
            0
        }
    }
}

/// The assets of the lots, each once, in the order of first occurrence.
pub open spec fn tags_held(lots: Seq<LotModel>) -> Seq<TagModel>
    decreases lots.len(),
{
    if lots.len() == 0 {
        Seq::empty()
    } else {
        let before = tags_held(lots.drop_last());
        if before.contains(lots.last().tag) {
            before
        } else {
            before.push(lots.last().tag)
        }
    }
}

/// The assets of a portfolio: those of its lots, and cash in any case.
pub open spec fn assets_of(lots: Seq<LotModel>) -> Seq<TagModel> {
    let held = tags_held(lots);
    if held.contains(TagModel::Usd) {
        held
    } else {
        held.push(TagModel::Usd)
    }
}

/// The share count of an asset: the free cash for cash, and for any other
/// asset the sum over the lots that hold it.
pub open spec fn share_count(lots: Seq<LotModel>, free_cash: int, tag: TagModel) -> int {
    if tag == TagModel::Usd {
        free_cash
    } else {
        count_of(lots, tag)
    }
}

/// The share counts of a portfolio, asset by asset.
pub open spec fn share_counts_of(lots: Seq<LotModel>, free_cash: int) -> Seq<(TagModel, int)> {
    let assets = assets_of(lots);
    Seq::new(assets.len(), |i: int| (assets[i], share_count(lots, free_cash, assets[i])))
}

/// The funded assets of a portfolio: those with a share count above zero,
/// in the portfolio's order.
pub open spec fn funded_of(lots: Seq<LotModel>, free_cash: int) -> Seq<TagModel> {
    assets_of(lots).filter(|t: TagModel| share_count(lots, free_cash, t) > 0)
}

/// Whether the asset is funded and the prices do not cover it.
pub open spec fn lacks_price(
    lots: Seq<LotModel>,
    free_cash: int,
    prices: Seq<(TagModel, int)>,
    tag: TagModel,
) -> bool {
    share_count(lots, free_cash, tag) > 0 && lookup(prices, tag) is None
}

/// The market value of an asset: the free cash for cash; for a funded asset
/// its price times its share count; nothing for an asset that is not funded,
/// priced or not.
pub open spec fn value_of(
    lots: Seq<LotModel>,
    free_cash: int,
    prices: Seq<(TagModel, int)>,
    tag: TagModel,
) -> int {
    if tag == TagModel::Usd {
        free_cash
    } else if count_of(lots, tag) > 0 {
        lookup(prices, tag)->0 * count_of(lots, tag)
    } else {
        0
    }
}

/// The market values of a portfolio, asset by asset.
pub open spec fn market_values_of(
    lots: Seq<LotModel>,
    free_cash: int,
    prices: Seq<(TagModel, int)>,
) -> Seq<(TagModel, int)> {
    let assets = assets_of(lots);
    Seq::new(assets.len(), |i: int| (assets[i], value_of(lots, free_cash, prices, assets[i])))
}

/// The sum of the amounts of a list.
pub open spec fn total_of(entries: Seq<(TagModel, int)>) -> int
    decreases entries.len(),
{
    if entries.len() == 0 {
        0
    } else {
        total_of(entries.drop_last()) + entries.last().1
    }
}

/// Whether the amounts can be added up in order without leaving 128 bits.
pub open spec fn sums_fit(entries: Seq<(TagModel, int)>) -> bool {
    forall|k: int| 0 <= k <= entries.len() ==> fits(#[trigger] total_of(entries.take(k)))
}

/// The first position at which `flags` holds `true`, or its length where
/// it holds none.
pub open spec fn first_true(flags: Seq<bool>) -> int
    decreases flags.len(),
{
    if flags.len() == 0 {
        0
    } else if flags[0] {
        0
    } else {
        1 + first_true(flags.drop_first())
    }
}

/// For each asset of the portfolio, whether it is funded and has no price.
pub open spec fn unpriced(
    lots: Seq<LotModel>,
    free_cash: int,
    prices: Seq<(TagModel, int)>,
) -> Seq<bool> {
    let assets = assets_of(lots);
    Seq::new(assets.len(), |i: int| lacks_price(lots, free_cash, prices, assets[i]))
}

/// What `market_values` returns: the first funded asset without a price
/// stops it; failing that, a value that leaves 128 bits; else the values.
pub open spec fn market_values_result(
    lots: Seq<LotModel>,
    free_cash: int,
    prices: Seq<(TagModel, int)>,
) -> Result<Seq<(TagModel, int)>, ErrorModel> {
    let assets = assets_of(lots);
    let first = first_true(unpriced(lots, free_cash, prices));
    if first < assets.len() {
        Err(ErrorModel::MissingPrice(assets[first]))
    } else if exists|i: int|
        0 <= i < assets.len() && !fits(value_of(lots, free_cash, prices, #[trigger] assets[i])) {
        Err(ErrorModel::Overflow)
    } else {
        Ok(market_values_of(lots, free_cash, prices))
    }
}

/// What `market_value` returns: the sum of the market values, where there
/// are any and the sum stays within 128 bits.
pub open spec fn market_value_result(
    lots: Seq<LotModel>,
    free_cash: int,
    prices: Seq<(TagModel, int)>,
) -> Result<int, ErrorModel> {
    match market_values_result(lots, free_cash, prices) {
        Err(e) => Err(e),
        Ok(values) => if sums_fit(values) {
            Ok(total_of(values))
        } else {
            Err(ErrorModel::Overflow)
        },
    }
}

/// `first_true` finds the first `true`, and only misses what is not there.
pub proof fn lemma_first_true(flags: Seq<bool>)
    ensures
        0 <= first_true(flags) <= flags.len(),
        first_true(flags) < flags.len() ==> flags[first_true(flags)],
        forall|j: int| 0 <= j < first_true(flags) ==> !flags[j],
    decreases flags.len(),
{
    if flags.len() > 0 && !flags[0] {
        let rest = flags.drop_first();
        lemma_first_true(rest);
        let p = first_true(rest);
        assert forall|j: int| 0 <= j < p + 1 implies !flags[j] by {
            if j > 0 {
                assert(flags[j] == rest[j - 1]);
            }
        }
        if p < rest.len() {
            assert(flags[p + 1] == rest[p]);
        }
    }
}

/// The counts of the lots' assets, cash like any other.
pub open spec fn lot_counts(lots: Seq<LotModel>) -> Seq<(TagModel, int)> {
    let held = tags_held(lots);
    Seq::new(held.len(), |j: int| (held[j], count_of(lots, held[j])))
}

/// Each asset of the lots is held once, and exactly the assets of the lots
/// are held.
pub proof fn lemma_tags_held(lots: Seq<LotModel>)
    ensures
        tags_held(lots).no_duplicates(),
        tags_held(lots).len() <= lots.len(),
        forall|t: TagModel|
            tags_held(lots).contains(t) <==> exists|i: int|
                0 <= i < lots.len() && (#[trigger] lots[i]).tag == t,
    decreases lots.len(),
{
    if lots.len() > 0 {
        let init = lots.drop_last();
        let last = lots.last();
        lemma_tags_held(init);
        let before = tags_held(init);
        assert forall|t: TagModel|
            tags_held(lots).contains(t) <==> exists|i: int|
                0 <= i < lots.len() && (#[trigger] lots[i]).tag == t by {
            if tags_held(lots).contains(t) {
                if before.contains(t) {
                    let i = choose|i: int| 0 <= i < init.len() && (#[trigger] init[i]).tag == t;
                    assert(lots[i].tag == t);
                } else {
                    let k = choose|k: int| 0 <= k < tags_held(lots).len() && tags_held(lots)[k] == t;
                    if before.contains(last.tag) {
                    } else {
                        if k < before.len() {
                            assert(before[k] == t);
                        }
                    }
                    assert(lots[lots.len() - 1].tag == t);
                }
            }
            if exists|i: int| 0 <= i < lots.len() && (#[trigger] lots[i]).tag == t {
                let i = choose|i: int| 0 <= i < lots.len() && (#[trigger] lots[i]).tag == t;
                if i < init.len() {
                    assert(init[i].tag == t);
                    assert(before.contains(t));
                    let k = choose|k: int| 0 <= k < before.len() && before[k] == t;
                    if !before.contains(last.tag) {
                        assert(before.push(last.tag)[k] == t);
                    }
                } else {
                    if !before.contains(last.tag) {
                        assert(before.push(last.tag)[before.len() as int] == t);
                    }
                }
            }
        }
    }
}

/// Each asset of a portfolio is listed once; cash is among them, and so is
/// exactly what the lots hold.
pub proof fn lemma_assets_of(lots: Seq<LotModel>)
    ensures
        assets_of(lots).no_duplicates(),
        assets_of(lots).contains(TagModel::Usd),
        forall|t: TagModel|
            assets_of(lots).contains(t) <==> t == TagModel::Usd || tags_held(lots).contains(t),
{
    lemma_tags_held(lots);
    let held = tags_held(lots);
    if !held.contains(TagModel::Usd) {
        let all = held.push(TagModel::Usd);
        assert(all[held.len() as int] == TagModel::Usd);
        assert forall|t: TagModel| all.contains(t) <==> t == TagModel::Usd || held.contains(
            t,
        ) by {
            if all.contains(t) {
                let k = choose|k: int| 0 <= k < all.len() && all[k] == t;
                if k < held.len() {
                    assert(held[k] == t);
                }
            }
            if held.contains(t) {
                let k = choose|k: int| 0 <= k < held.len() && held[k] == t;
                assert(all[k] == t);
            }
        }
    }
}

/// An asset that no lot holds has the count zero.
pub proof fn lemma_count_of_absent(lots: Seq<LotModel>, tag: TagModel)
    requires
        !tags_held(lots).contains(tag),
    ensures
        count_of(lots, tag) == 0,
    decreases lots.len(),
{
    if lots.len() > 0 {
        let before = tags_held(lots.drop_last());
        if before.contains(lots.last().tag) {
            assert(lots.last().tag != tag);
        } else {
            assert(before.push(lots.last().tag)[before.len() as int] == lots.last().tag);
            if before.contains(tag) {
                let k = choose|k: int| 0 <= k < before.len() && before[k] == tag;
                assert(before.push(lots.last().tag)[k] == tag);
            }
        }
        lemma_count_of_absent(lots.drop_last(), tag);
    }
}

/// A sum of counts of 64 bits each stays within the number of lots times
/// the range of one count.
pub proof fn lemma_count_of_bound(lots: Seq<LotModel>, tag: TagModel)
    requires
        forall|i: int| 0 <= i < lots.len() ==> i64::MIN <= (#[trigger] lots[i]).count <= i64::MAX,
    ensures
        lots.len() * i64::MIN <= count_of(lots, tag) <= lots.len() * i64::MAX,
    decreases lots.len(),
{
    if lots.len() > 0 {
        let init = lots.drop_last();
        assert forall|i: int| 0 <= i < init.len() implies i64::MIN <= (#[trigger] init[i]).count
            <= i64::MAX by {
            assert(init[i] == lots[i]);
        }
        lemma_count_of_bound(init, tag);
        assert(lots.last() == lots[lots.len() - 1]);
    }
}

/// The count of an asset over two runs of lots is the sum of its counts
/// over each.
pub proof fn lemma_count_of_concat(a: Seq<LotModel>, b: Seq<LotModel>, tag: TagModel)
    ensures
        count_of(a + b, tag) == count_of(a, tag) + count_of(b, tag),
    decreases b.len(),
{
    if b.len() == 0 {
        assert(a + b == a);
    } else {
        assert((a + b).drop_last() == a + b.drop_last());
        assert((a + b).last() == b.last());
        lemma_count_of_concat(a, b.drop_last(), tag);
    }
}

/// The count of an asset does not depend on the order of the lots: two
/// runs with the same lots, each as often, give the same count.
pub proof fn lemma_count_of_any_order(a: Seq<LotModel>, b: Seq<LotModel>, tag: TagModel)
    requires
        a.to_multiset() == b.to_multiset(),
    ensures
        count_of(a, tag) == count_of(b, tag),
    decreases a.len(),
{
    broadcast use vstd::seq_lib::group_to_multiset_ensures;

    a.to_multiset_ensures();
    b.to_multiset_ensures();
    if a.len() == 0 {
        assert(b.len() == 0);
    } else {
        let x = a.last();
        let init = a.drop_last();
        assert(a == init.push(x));
        assert(a.to_multiset().count(x) > 0);
        assert(b.contains(x));
        let k = choose|k: int| 0 <= k < b.len() && b[k] == x;
        let rest = b.remove(k);
        init.to_multiset_ensures();
        rest.to_multiset_ensures();
        assert(init.to_multiset() == a.to_multiset().remove(x)) by {
            assert(a.remove(a.len() - 1) == init);
        }
        assert(rest.to_multiset() == b.to_multiset().remove(x));
        lemma_count_of_any_order(init, rest, tag);
        let front = b.take(k);
        let back = b.skip(k + 1);
        assert(b == front + seq![x] + back);
        assert(rest == front + back);
        lemma_count_of_concat(front + seq![x], back, tag);
        lemma_count_of_concat(front, seq![x], tag);
        lemma_count_of_concat(front, back, tag);
        assert(count_of(seq![x], tag) == if x.tag == tag {
            x.count
        } else {
            0
        }) by {
            assert(seq![x].drop_last() == Seq::<LotModel>::empty());
            assert(seq![x].last() == x);
            assert(count_of(Seq::<LotModel>::empty(), tag) == 0);
            assert(count_of(seq![x].drop_last(), tag) == 0);
        }
    }
}

impl Portfolio {
    /// The lots of the portfolio.
    pub open spec fn lots_view(&self) -> Seq<LotModel> {
        lots_of(self.lots@)
    }

    /// The share count of each asset: the sum over the lots that hold it,
    /// and the free cash for cash, whatever the lots say of cash.
    pub fn share_counts(&self) -> (r: Amounts)
        ensures
            r@ == share_counts_of(self.lots_view(), self.free_cash as int),
    {
        let mut map = Amounts::new();
        let ghost lots = self.lots_view();
        let mut i: usize = 0;
        assert(lots.take(0) == Seq::<LotModel>::empty());
        assert(map@ == lot_counts(lots.take(0)));
        while i < self.lots.len()
            invariant
                i <= self.lots.len(),
                lots == self.lots_view(),
                map@ == lot_counts(lots.take(i as int)),
            decreases self.lots.len() - i,
        {
            let lot = &self.lots[i];
            let ghost before = lots.take(i as int);
            let ghost after = lots.take(i as int + 1);
            let ghost held = tags_held(before);
            let ghost t = lot.asset_tag@;
            proof {
                assert(after.drop_last() == before);
                assert(after.last() == lots[i as int]);
                assert(lots[i as int] == lot@);
                assert(keys_of(map@) == held);
                lemma_first_index_of(held, t);
                lemma_tags_held(before);
                assert forall|k: int| 0 <= k < before.len() implies i64::MIN <= (
                #[trigger] before[k]).count <= i64::MAX by {
                    assert(before[k] == self.lots@[k]@);
                }
                lemma_count_of_bound(before, t);
                if !held.contains(t) {
                    lemma_count_of_absent(before, t);
                }
            }
            let previous: i128 = match map.get(&lot.asset_tag) {
                Some(amount) => amount,
                None => 0,
            };
            assert(previous == count_of(before, t));
            assert(before.len() * i64::MAX <= usize::MAX * i64::MAX) by (nonlinear_arith)
                requires
                    before.len() <= usize::MAX,
            ;
            assert(before.len() * i64::MIN >= usize::MAX * i64::MIN) by (nonlinear_arith)
                requires
                    before.len() <= usize::MAX,
            ;
            let next: i128 = previous + (lot.share_count.units() as i128);
            map.insert(lot.asset_tag.clone(), next);
            proof {
                let p = first_index_of(held, t);
                let now = lot_counts(after);
                if p < held.len() {
                    assert(tags_held(after) == held);
                    assert forall|j: int| 0 <= j < held.len() implies map@[j] == now[j] by {
                        if j != p {
                            assert(held[j] != held[p]);
                        }
                    }
                } else {
                    assert(tags_held(after) == held.push(t));
                }
                assert(map@ =~= now);
            }
            i += 1;
        }
        proof {
            assert(lots.take(i as int) == lots);
            let held = tags_held(lots);
            lemma_first_index_of(held, TagModel::Usd);
            lemma_tags_held(lots);
            assert(keys_of(map@) == held);
            let p = first_index_of(held, TagModel::Usd);
            let want = share_counts_of(lots, self.free_cash as int);
            if p < held.len() {
                assert forall|j: int| 0 <= j < held.len() implies (#[trigger] map@.update(
                    p,
                    (TagModel::Usd, self.free_cash as int),
                )[j]) == want[j] by {
                    if j != p {
                        assert(held[j] != held[p]);
                    }
                }
                assert(map@.update(p, (TagModel::Usd, self.free_cash as int)) =~= want);
            } else {
                assert(map@.push((TagModel::Usd, self.free_cash as int)) =~= want);
            }
        }
        map.insert(AssetTag::Usd, self.free_cash);
        map
    }

    /// The assets of the portfolio: those of its lots, each once, and cash.
    pub fn symbols(&self) -> (r: Vec<AssetTag>)
        ensures
            tags_of(r@) == assets_of(self.lots_view()),
    {
        let counts = self.share_counts();
        let mut r: Vec<AssetTag> = Vec::new();
        let mut i: usize = 0;
        while i < counts.len()
            invariant
                i <= counts@.len(),
                counts@ == share_counts_of(self.lots_view(), self.free_cash as int),
                tags_of(r@) == assets_of(self.lots_view()).take(i as int),
            decreases counts@.len() - i,
        {
            let ghost before = tags_of(r@);
            r.push(counts.tag_at(i).clone());
            assert(tags_of(r@) == before.push(assets_of(self.lots_view())[i as int]));
            i += 1;
            assert(assets_of(self.lots_view()).take(i as int) == before.push(
                assets_of(self.lots_view())[i as int - 1],
            ));
        }
        assert(assets_of(self.lots_view()).take(i as int) == assets_of(self.lots_view()));
        r
    }

    /// The funded assets: the assets of the portfolio whose share count is
    /// above zero, in the portfolio's order.
    pub fn funded_symbols(&self) -> (r: Vec<AssetTag>)
        ensures
            tags_of(r@) == funded_of(self.lots_view(), self.free_cash as int),
    {
        let counts = self.share_counts();
        let ghost lots = self.lots_view();
        let ghost cash = self.free_cash as int;
        let ghost assets = assets_of(lots);
        let ghost funded = |t: TagModel| share_count(lots, cash, t) > 0;
        let mut r: Vec<AssetTag> = Vec::new();
        let mut i: usize = 0;
        proof {
            assert(assets.take(0) == Seq::<TagModel>::empty());
            reveal(Seq::filter);
            assert(tags_of(r@) == assets.take(0).filter(funded));
        }
        while i < counts.len()
            invariant
                i <= counts@.len(),
                counts@ == share_counts_of(lots, cash),
                assets == assets_of(lots),
                funded == |t: TagModel| share_count(lots, cash, t) > 0,
                tags_of(r@) == assets.take(i as int).filter(funded),
            decreases counts@.len() - i,
        {
            let ghost before = tags_of(r@);
            proof {
                assert(assets.take(i as int + 1) == assets.take(i as int).push(assets[i as int]));
                assets.take(i as int).lemma_filter_push(assets[i as int], funded);
            }
            if counts.amount_at(i) > 0 {
                r.push(counts.tag_at(i).clone());
                assert(tags_of(r@) == before.push(assets[i as int]));
            }
            i += 1;
        }
        assert(assets.take(i as int) == assets);
        r
    }

    /// The market value of each asset at the given prices. A funded asset
    /// without a price stops the valuation; an asset that is not funded
    /// needs no price and is worth nothing.
    pub fn market_values(&self, prices: &Amounts) -> (r: Result<Amounts, ValuationError>)
        ensures
            match r {
                Ok(values) => market_values_result(
                    self.lots_view(),
                    self.free_cash as int,
                    prices@,
                ) == Ok::<Seq<(TagModel, int)>, ErrorModel>(values@),
                Err(e) => market_values_result(self.lots_view(), self.free_cash as int, prices@)
                    == Err::<Seq<(TagModel, int)>, ErrorModel>(e@),
            },
    {
        let counts = self.share_counts();
        let ghost lots = self.lots_view();
        let ghost cash = self.free_cash as int;
        let ghost assets = assets_of(lots);
        let ghost flags = unpriced(lots, cash, prices@);
        proof {
            lemma_first_true(flags);
        }
        let mut i: usize = 0;
        while i < counts.len()
            invariant
                i <= counts@.len(),
                counts@ == share_counts_of(lots, cash),
                assets == assets_of(lots),
                lots == self.lots_view(),
                cash == self.free_cash as int,
                flags == unpriced(lots, cash, prices@),
                0 <= first_true(flags) <= flags.len(),
                first_true(flags) < flags.len() ==> flags[first_true(flags)],
                forall|j: int| 0 <= j < first_true(flags) ==> !flags[j],
                forall|j: int| 0 <= j < i ==> !flags[j],
            decreases counts@.len() - i,
        {
            if counts.amount_at(i) > 0 && prices.get(counts.tag_at(i)).is_none() {
                proof {
                    assert(flags[i as int]);
                    let first = first_true(flags);
                    if first < i {
                        assert(!flags[first]);
                    }
                    if first > i {
                        assert(!flags[i as int]);
                    }
                    assert(first == i);
                    assert(counts@[i as int].0 == assets[i as int]);
                }
                return Err(ValuationError::MissingPrice(counts.tag_at(i).clone()));
            }
            i += 1;
        }
        assert(first_true(flags) == assets.len());
        let mut values = Amounts::new();
        let mut k: usize = 0;
        assert(market_values_of(lots, cash, prices@).take(0) == Seq::<(TagModel, int)>::empty());
        while k < counts.len()
            invariant
                k <= counts@.len(),
                counts@ == share_counts_of(lots, cash),
                assets == assets_of(lots),
                lots == self.lots_view(),
                cash == self.free_cash as int,
                flags == unpriced(lots, cash, prices@),
                first_true(flags) == assets.len(),
                forall|j: int| 0 <= j < flags.len() ==> !flags[j],
                values@ == market_values_of(lots, cash, prices@).take(k as int),
                forall|j: int|
                    0 <= j < k ==> fits(value_of(lots, cash, prices@, #[trigger] assets[j])),
            decreases counts@.len() - k,
        {
            let tag = counts.tag_at(k);
            let count = counts.amount_at(k);
            assert(!flags[k as int]);
            let value: i128 = if !tag.is_subpot() && !tag.is_equity() {
                self.free_cash
            } else if count > 0 {
                match prices.get(tag) {
                    Some(price) => match price.checked_mul(count) {
                        Some(product) => product,
                        None => {
                            assert(!fits(value_of(lots, cash, prices@, assets[k as int])));
                            return Err(ValuationError::Overflow);
                        },
                    },
                    None => {
                        assert(false);
                        0
                    },
                }
            } else {
                0
            };
            let ghost before = values@;
            values.entries.push((tag.clone(), value));
            proof {
                assert(values@ == before.push((assets[k as int], value as int)));
                assert(market_values_of(lots, cash, prices@).take(k as int + 1) == before.push(
                    (assets[k as int], value as int),
                ));
            }
            k += 1;
        }
        assert(market_values_of(lots, cash, prices@).take(k as int) == market_values_of(
            lots,
            cash,
            prices@,
        ));
        Ok(values)
    }

    /// The market value of the whole portfolio: the sum of the market
    /// values of its assets.
    pub fn market_value(&self, prices: &Amounts) -> (r: Result<i128, ValuationError>)
        ensures
            match r {
                Ok(total) => market_value_result(self.lots_view(), self.free_cash as int, prices@)
                    == Ok::<int, ErrorModel>(total as int),
                Err(e) => market_value_result(self.lots_view(), self.free_cash as int, prices@)
                    == Err::<int, ErrorModel>(e@),
            },
    {
        match self.market_values(prices) {
            Err(e) => Err(e),
            Ok(values) => match sum_amounts(&values) {
                Some(total) => Ok(total),
                None => Err(ValuationError::Overflow),
            },
        }
    }
}

/// Adds up the amounts of a list in order. There is no sum where adding
/// them up leaves 128 bits on the way.
pub fn sum_amounts(amounts: &Amounts) -> (r: Option<i128>)
    ensures
        match r {
            Some(total) => sums_fit(amounts@) && total == total_of(amounts@),
            None => !sums_fit(amounts@),
        },
{
    let mut total: i128 = 0;
    let mut k: usize = 0;
    assert(amounts@.take(0) == Seq::<(TagModel, int)>::empty());
    while k < amounts.len()
        invariant
            k <= amounts@.len(),
            total == total_of(amounts@.take(k as int)),
            forall|j: int| 0 <= j <= k ==> fits(#[trigger] total_of(amounts@.take(j))),
        decreases amounts@.len() - k,
    {
        proof {
            assert(amounts@.take(k as int + 1).drop_last() == amounts@.take(k as int));
            assert(amounts@.take(k as int + 1).last() == amounts@[k as int]);
        }
        match total.checked_add(amounts.amount_at(k)) {
            Some(next) => {
                total = next;
            },
            None => {
                assert(!fits(total_of(amounts@.take(k as int + 1))));
                return None;
            },
        }
        k += 1;
    }
    assert(amounts@.take(k as int) == amounts@);
    Some(total)
}

/// The share count entered for an asset that some lot holds is the sum of
/// the counts of the lots that hold it; the share count entered for cash
/// is the free cash.
pub proof fn lemma_share_counts_entered(lots: Seq<LotModel>, free_cash: int, tag: TagModel)
    ensures
        lookup(share_counts_of(lots, free_cash), TagModel::Usd) == Some(free_cash),
        tag != TagModel::Usd && tags_held(lots).contains(tag) ==> lookup(
            share_counts_of(lots, free_cash),
            tag,
        ) == Some(count_of(lots, tag)),
        tag != TagModel::Usd && !tags_held(lots).contains(tag) ==> lookup(
            share_counts_of(lots, free_cash),
            tag,
        ) is None,
{
    lemma_assets_of(lots);
    let counts = share_counts_of(lots, free_cash);
    assert(keys_of(counts) == assets_of(lots));
    lemma_first_index_of(assets_of(lots), TagModel::Usd);
    lemma_first_index_of(assets_of(lots), tag);
}

/// `market_values` stops for a missing price exactly where some asset of the
/// portfolio has a share count above zero and no price. Assets that are not
/// funded never stop it, priced or not.
pub proof fn lemma_missing_price(
    lots: Seq<LotModel>,
    free_cash: int,
    prices: Seq<(TagModel, int)>,
)
    ensures
        market_values_result(lots, free_cash, prices) matches Err(ErrorModel::MissingPrice(_))
            <==> exists|t: TagModel|
            assets_of(lots).contains(t) && share_count(lots, free_cash, t) > 0 && lookup(
                prices,
                t,
            ) is None,
        market_values_result(lots, free_cash, prices) matches Err(ErrorModel::MissingPrice(t))
            ==> assets_of(lots).contains(t) && lacks_price(lots, free_cash, prices, t),
{
    let assets = assets_of(lots);
    let flags = unpriced(lots, free_cash, prices);
    lemma_first_true(flags);
    let first = first_true(flags);
    if first < assets.len() {
        assert(flags[first]);
        assert(assets[first] == assets[first] && assets.contains(assets[first]));
    } else {
        assert forall|t: TagModel|
            !(assets.contains(t) && share_count(lots, free_cash, t) > 0 && lookup(prices, t)
                is None) by {
            if assets.contains(t) {
                let k = choose|k: int| 0 <= k < assets.len() && assets[k] == t;
                assert(!flags[k]);
            }
        }
    }
}

} // verus!
