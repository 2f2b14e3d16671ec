//! The status report: each asset of a pot with its share count and market
//! value, the targets of the ladder first.
//!
//! The rows for the targets come highest target first. The rows for the
//! other assets of the portfolio follow in the order of assets; cash has
//! such a row in any case. Weights, portions and drift are worked out from
//! the rows by whoever prints them.

use crate::amounts::{lookup, Amounts};
use crate::asset_tag::{position_of, tags_of, AssetTag, TagModel};
use crate::error::{ErrorModel, ValuationError};
use crate::ladder::Ladder;
use crate::lot::LotModel;
use crate::order::{in_order, sorted};
use crate::portfolio::{
    assets_of, market_value_result, market_values_of, share_counts_of, sum_amounts, Portfolio,
};
use vstd::prelude::*;

verus! {

/// One row of the report.
#[derive(Debug)]
pub struct StatusRow {
    /// The asset.
    pub symbol: AssetTag,
    /// Its share count, zero where the portfolio does not hold it.
    pub share_count: i128,
    /// Its market value, zero where the portfolio does not hold it.
    pub market_value: i128,
    /// Its place on the ladder, counted from the lowest target. Cash and
    /// assets that are no targets have none: their target portion is zero.
    pub rung: Option<usize>,
}

/// The mathematical value of a [`StatusRow`].
pub struct RowModel {
    pub symbol: TagModel,
    pub share_count: int,
    pub market_value: int,
    pub rung: Option<usize>,
}

impl View for StatusRow {
    type V = RowModel;

    open spec fn view(&self) -> RowModel {
        RowModel {
            symbol: self.symbol@,
            share_count: self.share_count as int,
            market_value: self.market_value as int,
            rung: self.rung,
        }
    }
}

/// The report on one pot.
#[derive(Debug)]
pub struct Status {
    /// The free cash of the pot.
    pub free_cash: i128,
    /// The market value of the whole pot.
    pub full_value: i128,
    /// The rows: targets first, highest first, then the other assets.
    pub rows: Vec<StatusRow>,
}

/// The rows held by a sequence of rows.
pub open spec fn rows_of(v: Seq<StatusRow>) -> Seq<RowModel> {
    Seq::new(v.len(), |i: int| v[i]@)
}

/// The assets of the rows, in order.
pub open spec fn row_symbols(rows: Seq<RowModel>) -> Seq<TagModel> {
    Seq::new(rows.len(), |i: int| rows[i].symbol)
}

/// The amount entered for `tag`, or zero where there is none.
pub open spec fn amount_or_zero(entries: Seq<(TagModel, int)>, tag: TagModel) -> int {
    match lookup(entries, tag) {
        Some(amount) => amount,
        None => 0,
    }
}

/// The row of `tag` with the given place on the ladder.
pub open spec fn row_of(
    lots: Seq<LotModel>,
    free_cash: int,
    prices: Seq<(TagModel, int)>,
    tag: TagModel,
    rung: Option<usize>,
) -> RowModel {
    RowModel {
        symbol: tag,
        share_count: amount_or_zero(share_counts_of(lots, free_cash), tag),
        market_value: amount_or_zero(market_values_of(lots, free_cash, prices), tag),
        rung,
    }
}

/// The place on the ladder of the target at position `i`: cash has none.
pub open spec fn rung_of(targets: Seq<TagModel>, i: int) -> Option<usize> {
    if targets[i] is Usd {
        None
    } else {
        Some(i as usize)
    }
}

/// The assets of the portfolio that are no targets, and cash in any case.
pub open spec fn off_target(assets: Seq<TagModel>, targets: Seq<TagModel>) -> Seq<TagModel> {
    let others = assets.filter(|t: TagModel| !targets.contains(t));
    if others.contains(TagModel::Usd) {
        others
    } else {
        others.push(TagModel::Usd)
    }
}

/// Whether `rows` are the rows of the report: one for each target, the
/// highest first, and behind them one for each asset off the targets, in
/// the order of assets.
pub open spec fn is_report(
    rows: Seq<RowModel>,
    lots: Seq<LotModel>,
    free_cash: int,
    prices: Seq<(TagModel, int)>,
    targets: Seq<TagModel>,
) -> bool {
    let n = targets.len() as int;
    let tail = row_symbols(rows).skip(n);
    &&& rows.len() >= n
    &&& forall|i: int|
        0 <= i < n ==> #[trigger] rows[i] == row_of(
            lots,
            free_cash,
            prices,
            targets[n - 1 - i],
            rung_of(targets, n - 1 - i),
        )
    &&& forall|i: int|
        n <= i < rows.len() ==> #[trigger] rows[i] == row_of(
            lots,
            free_cash,
            prices,
            rows[i].symbol,
            None,
        )
    &&& in_order(tail)
    &&& tail.to_multiset() == off_target(assets_of(lots), targets).to_multiset()
}

/// The assets of the portfolio that are no targets, and cash in any case.
pub fn off_target_symbols(symbols: &Vec<AssetTag>, targets: &Vec<AssetTag>) -> (r: Vec<AssetTag>)
    ensures
        tags_of(r@) == off_target(tags_of(symbols@), tags_of(targets@)),
{
    let mut r: Vec<AssetTag> = Vec::new();
    let ghost all = tags_of(symbols@);
    let ghost aims = tags_of(targets@);
    let ghost off = |t: TagModel| !aims.contains(t);
    let mut i: usize = 0;
    proof {
        reveal(Seq::filter);
        assert(all.take(0) == Seq::<TagModel>::empty());
        assert(tags_of(r@) == all.take(0).filter(off));
    }
    while i < symbols.len()
        invariant
            i <= symbols.len(),
            all == tags_of(symbols@),
            aims == tags_of(targets@),
            off == |t: TagModel| !aims.contains(t),
            tags_of(r@) == all.take(i as int).filter(off),
        decreases symbols.len() - i,
    {
        let ghost before = tags_of(r@);
        proof {
            assert(all.take(i as int + 1) == all.take(i as int).push(symbols@[i as int]@));
            all.take(i as int).lemma_filter_push(symbols@[i as int]@, off);
        }
        if position_of(targets, &symbols[i]).is_none() {
            r.push(symbols[i].clone());
            assert(tags_of(r@) == before.push(symbols@[i as int]@));
        }
        i += 1;
    }
    assert(all.take(i as int) == all);
    let ghost others = tags_of(r@);
    if position_of(&r, &AssetTag::Usd).is_none() {
        r.push(AssetTag::Usd);
        assert(tags_of(r@) == others.push(TagModel::Usd));
    }
    r
}

/// The row of `symbol` with the given place on the ladder.
pub fn make_row(counts: &Amounts, values: &Amounts, symbol: &AssetTag, rung: Option<usize>) -> (r:
    StatusRow)
    ensures
        r@ == (RowModel {
            symbol: symbol@,
            share_count: amount_or_zero(counts@, symbol@),
            market_value: amount_or_zero(values@, symbol@),
            rung,
        }),
{
    let share_count: i128 = match counts.get(symbol) {
        Some(count) => count,
        None => 0,
    };
    let market_value: i128 = match values.get(symbol) {
        Some(value) => value,
        None => 0,
    };
    StatusRow { symbol: symbol.clone(), share_count, market_value, rung }
}

/// Reports on a portfolio against a ladder at the given prices. There is
/// no report where the portfolio has no market value at these prices.
pub fn status(portfolio: &Portfolio, ladder: &Ladder, prices: &Amounts) -> (r: Result<
    Status,
    ValuationError,
>)
    ensures
        match r {
            Ok(report) => {
                &&& market_value_result(portfolio.lots_view(), portfolio.free_cash as int, prices@)
                    == Ok::<int, ErrorModel>(report.full_value as int)
                &&& report.free_cash == portfolio.free_cash
                &&& is_report(
                    rows_of(report.rows@),
                    portfolio.lots_view(),
                    portfolio.free_cash as int,
                    prices@,
                    ladder.order(),
                )
            },
            Err(e) => market_value_result(
                portfolio.lots_view(),
                portfolio.free_cash as int,
                prices@,
            ) == Err::<int, ErrorModel>(e@),
        },
{
    let counts = portfolio.share_counts();
    let values = match portfolio.market_values(prices) {
        Err(e) => {
            return Err(e);
        },
        Ok(values) => values,
    };
    let full_value = match sum_amounts(&values) {
        None => {
            return Err(ValuationError::Overflow);
        },
        Some(total) => total,
    };
    let ghost lots = portfolio.lots_view();
    let ghost cash = portfolio.free_cash as int;
    let ghost targets = ladder.order();
    let mut rows: Vec<StatusRow> = Vec::new();
    let n = ladder.targets.len();
    let mut i: usize = 0;
    while i < n
        invariant
            i <= n,
            n == ladder.targets.len(),
            targets == ladder.order(),
            counts@ == share_counts_of(lots, cash),
            values@ == market_values_of(lots, cash, prices@),
            rows.len() == i,
            forall|k: int|
                0 <= k < i ==> #[trigger] rows_of(rows@)[k] == row_of(
                    lots,
                    cash,
                    prices@,
                    targets[n - 1 - k],
                    rung_of(targets, n - 1 - k),
                ),
        decreases n - i,
    {
        let place = n - 1 - i;
        let target = &ladder.targets[place];
        let rung = if !target.is_equity() && !target.is_subpot() {
            None
        } else {
            Some(place)
        };
        let ghost before = rows_of(rows@);
        let row = make_row(&counts, &values, target, rung);
        rows.push(row);
        proof {
            assert(rows_of(rows@) == before.push(row@));
            assert(targets[place as int] == target@);
        }
        i += 1;
    }
    let symbols = portfolio.symbols();
    let others = sorted(&off_target_symbols(&symbols, &ladder.targets));
    let ghost heads = rows_of(rows@);
    let mut j: usize = 0;
    assert(row_symbols(rows_of(rows@)).skip(n as int) == tags_of(others@).take(0));
    while j < others.len()
        invariant
            j <= others.len(),
            n == targets.len(),
            counts@ == share_counts_of(lots, cash),
            values@ == market_values_of(lots, cash, prices@),
            rows.len() == n + j,
            heads.len() == n,
            rows_of(rows@).take(n as int) == heads,
            row_symbols(rows_of(rows@)).skip(n as int) == tags_of(others@).take(j as int),
            forall|k: int|
                n <= k < n + j ==> #[trigger] rows_of(rows@)[k] == row_of(
                    lots,
                    cash,
                    prices@,
                    rows_of(rows@)[k].symbol,
                    None,
                ),
        decreases others.len() - j,
    {
        let ghost before = rows_of(rows@);
        let row = make_row(&counts, &values, &others[j], None);
        rows.push(row);
        proof {
            assert(rows_of(rows@) == before.push(row@));
            assert(rows_of(rows@).take(n as int) == before.take(n as int));
            assert(row_symbols(rows_of(rows@)).skip(n as int) == row_symbols(before).skip(
                n as int,
            ).push(others@[j as int]@));
            assert(tags_of(others@).take(j as int + 1) == tags_of(others@).take(j as int).push(
                others@[j as int]@,
            ));
            assert forall|k: int| n <= k < n + j + 1 implies #[trigger] rows_of(rows@)[k]
                == row_of(lots, cash, prices@, rows_of(rows@)[k].symbol, None) by {
                if k < n + j {
                    assert(rows_of(rows@)[k] == before[k]);
                }
            }
        }
        j += 1;
    }
    proof {
        assert(tags_of(others@).take(j as int) == tags_of(others@));
        assert forall|k: int| 0 <= k < n implies #[trigger] rows_of(rows@)[k] == row_of(
            lots,
            cash,
            prices@,
            targets[n - 1 - k],
            rung_of(targets, n - 1 - k),
        ) by {
            assert(rows_of(rows@)[k] == rows_of(rows@).take(n as int)[k]);
            assert(heads[k] == row_of(
                lots,
                cash,
                prices@,
                targets[n - 1 - k],
                rung_of(targets, n - 1 - k),
            ));
        }
    }
    Ok(Status { free_cash: portfolio.free_cash, full_value, rows })
}

} // verus!
