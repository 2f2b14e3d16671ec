//! A pot: lots, free cash, a ramp and targets, as one folder stores them.

use crate::asset_tag::{position_of, tag_of, tags_of, AssetTag, TagModel};
use crate::ladder::Ladder;
use crate::lot::{lots_of, Lot, LotModel};
use crate::portfolio::Portfolio;
use crate::ramp::Ramp;
use vstd::prelude::*;

verus! {

/// What one pot holds.
#[derive(Debug)]
pub struct Pot {
    pub lots: Vec<Lot>,
    pub free_cash: i128,
    pub ramp: Ramp,
    pub targets: Vec<AssetTag>,
}

/// The mathematical value of a [`Pot`].
pub struct PotModel {
    pub lots: Seq<LotModel>,
    pub free_cash: int,
    pub ramp: Ramp,
    pub targets: Seq<TagModel>,
}

impl View for Pot {
    type V = PotModel;

    open spec fn view(&self) -> PotModel {
        PotModel {
            lots: lots_of(self.lots@),
            free_cash: self.free_cash as int,
            ramp: self.ramp,
            targets: tags_of(self.targets@),
        }
    }
}

/// The assets of the funded lots, each once, in the order of first
/// occurrence. A lot is funded where its own count is above zero.
pub open spec fn lot_assets_of(lots: Seq<LotModel>) -> Seq<TagModel>
    decreases lots.len(),
{
    if lots.len() == 0 {
        Seq::empty()
    } else {
        let before = lot_assets_of(lots.drop_last());
        if lots.last().count > 0 && !before.contains(lots.last().tag) {
            before.push(lots.last().tag)
        } else {
            before
        }
    }
}

/// Whether the lot is the one that `custodian` keeps of `tag`.
pub open spec fn is_holding(lot: LotModel, custodian: Seq<char>, tag: TagModel) -> bool {
    lot.tag == tag && lot.custodian == custodian
}

/// The count of the first lot that `custodian` keeps of `tag`, or zero
/// where there is none.
pub open spec fn shares_of(lots: Seq<LotModel>, custodian: Seq<char>, tag: TagModel) -> int
    decreases lots.len(),
{
    if lots.len() == 0 {
        0
    } else if is_holding(lots[0], custodian, tag) {
        lots[0].count
    } else {
        shares_of(lots.drop_first(), custodian, tag)
    }
}

/// The lots after every lot that `custodian` keeps of `tag` has been set to
/// `count`.
pub open spec fn lots_with_shares(
    lots: Seq<LotModel>,
    custodian: Seq<char>,
    tag: TagModel,
    count: int,
) -> Seq<LotModel> {
    Seq::new(
        lots.len(),
        |i: int|
            if is_holding(lots[i], custodian, tag) {
                LotModel { count, ..lots[i] }
            } else {
                lots[i]
            },
    )
}

/// The uid of the last lot that `custodian` keeps of `tag`.
pub open spec fn last_holding_uid(
    lots: Seq<LotModel>,
    custodian: Seq<char>,
    tag: TagModel,
) -> Option<u64>
    decreases lots.len(),
{
    if lots.len() == 0 {
        None
    } else if is_holding(lots.last(), custodian, tag) {
        Some(lots.last().uid)
    } else {
        last_holding_uid(lots.drop_last(), custodian, tag)
    }
}

/// Whether no two lots have the same uid.
pub open spec fn uids_distinct(lots: Seq<LotModel>) -> bool {
    forall|i: int, j: int|
        0 <= i < lots.len() && 0 <= j < lots.len() && i != j ==> (#[trigger] lots[i]).uid != (
        #[trigger] lots[j]).uid
}

/// Whether some lot has the uid.
pub open spec fn uid_taken(lots: Seq<LotModel>, uid: u64) -> bool {
    exists|i: int| 0 <= i < lots.len() && (#[trigger] lots[i]).uid == uid
}

/// The count with which a lot is stored: a nested pot is held or not, so
/// its count is one where the given count is above zero, and zero
/// otherwise; any other asset keeps the given count.
pub open spec fn stored_count(tag: TagModel, count: int) -> int {
    if tag is Pot {
        if count > 0 {
            1
        } else {
            0
        }
    } else {
        count
    }
}

/// The lots after `lot` has been offered: it is added at the end, unless
/// its uid is taken.
pub open spec fn lot_offered(lots: Seq<LotModel>, lot: LotModel) -> Seq<LotModel> {
    if uid_taken(lots, lot.uid) {
        lots
    } else {
        lots.push(lot)
    }
}

/// The lot that `add_lot` makes of its arguments.
pub open spec fn lot_made(custodian: Seq<char>, tag: TagModel, count: int, uid: u64) -> LotModel {
    LotModel { custodian, tag, count: stored_count(tag, count), uid }
}

/// Whether some lot holds the asset, funded or not.
pub open spec fn holds_tag(lots: Seq<LotModel>, tag: TagModel) -> bool {
    exists|i: int| 0 <= i < lots.len() && (#[trigger] lots[i]).tag == tag
}

/// A copy of the lots.
pub fn copy_lots(lots: &Vec<Lot>) -> (r: Vec<Lot>)
    ensures
        lots_of(r@) == lots_of(lots@),
{
    let mut r: Vec<Lot> = Vec::new();
    let mut i: usize = 0;
    while i < lots.len()
        invariant
            i <= lots.len(),
            lots_of(r@) == lots_of(lots@).take(i as int),
        decreases lots.len() - i,
    {
        let ghost before = lots_of(r@);
        r.push(lots[i].clone());
        assert(lots_of(r@) == before.push(lots@[i as int]@));
        i += 1;
        assert(lots_of(lots@).take(i as int) == before.push(lots@[i as int - 1]@));
    }
    assert(lots_of(lots@).take(i as int) == lots_of(lots@));
    r
}

/// A copy of the tags.
pub fn copy_tags(tags: &Vec<AssetTag>) -> (r: Vec<AssetTag>)
    ensures
        tags_of(r@) == tags_of(tags@),
{
    let mut r: Vec<AssetTag> = Vec::new();
    let mut i: usize = 0;
    while i < tags.len()
        invariant
            i <= tags.len(),
            tags_of(r@) == tags_of(tags@).take(i as int),
        decreases tags.len() - i,
    {
        let ghost before = tags_of(r@);
        r.push(tags[i].clone());
        assert(tags_of(r@) == before.push(tags@[i as int]@));
        i += 1;
        assert(tags_of(tags@).take(i as int) == before.push(tags@[i as int - 1]@));
    }
    assert(tags_of(tags@).take(i as int) == tags_of(tags@));
    r
}

impl Clone for Pot {
    fn clone(&self) -> (r: Self)
        ensures
            r@ == self@,
    {
        Pot {
            lots: copy_lots(&self.lots),
            free_cash: self.free_cash,
            ramp: self.ramp,
            targets: copy_tags(&self.targets),
        }
    }
}

impl Pot {
    /// An empty pot: no lots, no cash, no targets, the golden ramp.
    pub fn new() -> (r: Self)
        ensures
            r@ == (PotModel {
                lots: Seq::empty(),
                free_cash: 0,
                ramp: Ramp::Golden,
                targets: Seq::empty(),
            }),
    {
        let r = Pot { lots: Vec::new(), free_cash: 0, ramp: Ramp::Golden, targets: Vec::new() };
        assert(r@.lots == Seq::<LotModel>::empty());
        assert(r@.targets == Seq::<TagModel>::empty());
        r
    }

    /// The lots and the free cash as a portfolio.
    pub fn read_portfolio(&self) -> (r: Portfolio)
        ensures
            r.lots_view() == self@.lots,
            r.free_cash == self.free_cash,
    {
        Portfolio { lots: copy_lots(&self.lots), free_cash: self.free_cash }
    }

    /// The targets and the ramp as a ladder.
    pub fn read_ladder(&self) -> (r: Ladder)
        ensures
            r.order() == self@.targets,
            r.ramp == self.ramp,
    {
        Ladder { targets: copy_tags(&self.targets), ramp: self.ramp }
    }

    /// Whether some lot holds the asset, funded or not.
    pub fn has_tag(&self, tag: &AssetTag) -> (r: bool)
        ensures
            r == holds_tag(self@.lots, tag@),
    {
        let mut i: usize = 0;
        while i < self.lots.len()
            invariant
                i <= self.lots.len(),
                forall|j: int| 0 <= j < i ==> (#[trigger] self@.lots[j]).tag != tag@,
            decreases self.lots.len() - i,
        {
            if self.lots[i].has_tag(tag) {
                assert(self@.lots[i as int].tag == tag@);
                return true;
            }
            i += 1;
        }
        false
    }

    /// The assets of the funded lots, each once.
    pub fn read_lot_assets(&self) -> (r: Vec<AssetTag>)
        ensures
            tags_of(r@) == lot_assets_of(self@.lots),
    {
        let mut r: Vec<AssetTag> = Vec::new();
        let mut i: usize = 0;
        assert(self@.lots.take(0) == Seq::<LotModel>::empty());
        while i < self.lots.len()
            invariant
                i <= self.lots.len(),
                tags_of(r@) == lot_assets_of(self@.lots.take(i as int)),
            decreases self.lots.len() - i,
        {
            let ghost before = tags_of(r@);
            proof {
                assert(self@.lots.take(i as int + 1).drop_last() == self@.lots.take(i as int));
                assert(self@.lots.take(i as int + 1).last() == self.lots@[i as int]@);
            }
            let lot = &self.lots[i];
            if lot.is_funded() && position_of(&r, &lot.asset_tag).is_none() {
                r.push(lot.asset_tag.clone());
                assert(tags_of(r@) == before.push(lot@.tag));
            }
            i += 1;
        }
        assert(self@.lots.take(i as int) == self@.lots);
        r
    }

    /// The equities among the assets of the funded lots, each once: what
    /// the pot itself needs quotes for.
    pub fn read_lot_equities(&self) -> (r: Vec<AssetTag>)
        ensures
            tags_of(r@) == lot_assets_of(self@.lots).filter(|t: TagModel| t is Equity),
    {
        let assets = self.read_lot_assets();
        let ghost all = tags_of(assets@);
        let ghost wanted = |t: TagModel| t is Equity;
        let mut r: Vec<AssetTag> = Vec::new();
        let mut i: usize = 0;
        proof {
            reveal(Seq::filter);
            assert(all.take(0) == Seq::<TagModel>::empty());
            assert(tags_of(r@) == all.take(0).filter(wanted));
        }
        while i < assets.len()
            invariant
                i <= assets.len(),
                all == tags_of(assets@),
                wanted == |t: TagModel| t is Equity,
                tags_of(r@) == all.take(i as int).filter(wanted),
            decreases assets.len() - i,
        {
            let ghost before = tags_of(r@);
            proof {
                assert(all.take(i as int + 1) == all.take(i as int).push(assets@[i as int]@));
                all.take(i as int).lemma_filter_push(assets@[i as int]@, wanted);
            }
            if assets[i].is_equity() {
                r.push(assets[i].clone());
                assert(tags_of(r@) == before.push(assets@[i as int]@));
            }
            i += 1;
        }
        assert(all.take(i as int) == all);
        r
    }

    /// The count of the first lot that `custodian` keeps of `tag`, or zero
    /// where there is none.
    pub fn shares_held(&self, custodian: &str, tag: &AssetTag) -> (r: i64)
        ensures
            r == shares_of(self@.lots, custodian@, tag@),
    {
        let mut i: usize = 0;
        assert(self@.lots.skip(0) == self@.lots);
        while i < self.lots.len()
            invariant
                i <= self.lots.len(),
                shares_of(self@.lots.skip(i as int), custodian@, tag@) == shares_of(
                    self@.lots,
                    custodian@,
                    tag@,
                ),
            decreases self.lots.len() - i,
        {
            let lot = &self.lots[i];
            proof {
                assert(self@.lots.skip(i as int)[0] == lot@);
                assert(self@.lots.skip(i as int).drop_first() == self@.lots.skip(i as int + 1));
            }
            if lot.has_tag(tag) && lot.has_custodian(custodian) {
                return lot.share_count.units();
            }
            i += 1;
        }
        0
    }

    /// The count that `custodian` keeps of the asset written as `symbol`.
    pub fn read_shares(&self, custodian: &str, symbol: &str) -> (r: i64)
        ensures
            r == shares_of(self@.lots, custodian@, tag_of(symbol@)),
    {
        let tag = AssetTag::from(symbol);
        self.shares_held(custodian, &tag)
    }

    /// Sets every lot that `custodian` keeps of `tag` to `count`, and tells
    /// the uid of the last of them. Without such a lot nothing changes.
    pub fn set_shares(&mut self, custodian: &str, tag: &AssetTag, count: i64) -> (r: Option<u64>)
        ensures
            final(self)@ == (PotModel {
                lots: lots_with_shares(old(self)@.lots, custodian@, tag@, count as int),
                ..old(self)@
            }),
            r == last_holding_uid(old(self)@.lots, custodian@, tag@),
            uids_distinct(old(self)@.lots) ==> uids_distinct(final(self)@.lots),
    {
        let mut lot_id: Option<u64> = None;
        let mut new_lots: Vec<Lot> = Vec::new();
        let ghost lots = self@.lots;
        let ghost want = lots_with_shares(lots, custodian@, tag@, count as int);
        let mut i: usize = 0;
        assert(lots.take(0) == Seq::<LotModel>::empty());
        while i < self.lots.len()
            invariant
                i <= self.lots.len(),
                lots == self@.lots,
                want == lots_with_shares(lots, custodian@, tag@, count as int),
                lots_of(new_lots@) == want.take(i as int),
                lot_id == last_holding_uid(lots.take(i as int), custodian@, tag@),
            decreases self.lots.len() - i,
        {
            let ghost before = lots_of(new_lots@);
            proof {
                assert(lots.take(i as int + 1).drop_last() == lots.take(i as int));
                assert(lots.take(i as int + 1).last() == self.lots@[i as int]@);
            }
            let lot = &self.lots[i];
            if lot.has_tag(tag) && lot.has_custodian(custodian) {
                lot_id = Some(lot.uid);
                let changed = lot.with_share_count(count);
                new_lots.push(changed);
                assert(lots_of(new_lots@) == before.push(changed@));
            } else {
                let same = lot.clone();
                new_lots.push(same);
                assert(lots_of(new_lots@) == before.push(same@));
            }
            i += 1;
            assert(want.take(i as int) == before.push(want[i as int - 1]));
        }
        proof {
            assert(lots.take(i as int) == lots);
            assert(want.take(i as int) == want);
        }
        self.lots = new_lots;
        lot_id
    }

    /// Sets the count that `custodian` keeps of the asset written as
    /// `symbol`, and tells the uid of the lot.
    pub fn write_shares(&mut self, custodian: &str, symbol: &str, count: i64) -> (r: Option<u64>)
        ensures
            final(self)@ == (PotModel {
                lots: lots_with_shares(old(self)@.lots, custodian@, tag_of(symbol@), count as int),
                ..old(self)@
            }),
            r == last_holding_uid(old(self)@.lots, custodian@, tag_of(symbol@)),
            uids_distinct(old(self)@.lots) ==> uids_distinct(final(self)@.lots),
    {
        let tag = AssetTag::from(symbol);
        self.set_shares(custodian, &tag, count)
    }

    /// Whether some lot has the uid.
    pub fn has_uid(&self, uid: u64) -> (r: bool)
        ensures
            r == uid_taken(self@.lots, uid),
    {
        let mut i: usize = 0;
        while i < self.lots.len()
            invariant
                i <= self.lots.len(),
                forall|j: int| 0 <= j < i ==> (#[trigger] self@.lots[j]).uid != uid,
            decreases self.lots.len() - i,
        {
            if self.lots[i].uid == uid {
                assert(self@.lots[i as int].uid == uid);
                return true;
            }
            i += 1;
        }
        false
    }

    /// Adds a lot under the given uid, unless the uid is taken: then the
    /// lot is skipped and nothing changes. Tells whether the lot was added.
    pub fn add_lot_with_uid(
        &mut self,
        custody: &str,
        asset_tag: &AssetTag,
        share_count: i64,
        uid: u64,
    ) -> (added: bool)
        ensures
            final(self)@ == (PotModel {
                lots: lot_offered(
                    old(self)@.lots,
                    lot_made(custody@, asset_tag@, share_count as int, uid),
                ),
                ..old(self)@
            }),
            added == !uid_taken(old(self)@.lots, uid),
            uids_distinct(old(self)@.lots) ==> uids_distinct(final(self)@.lots),
    {
        if self.has_uid(uid) {
            false
        } else {
            let count: i64 = if asset_tag.is_subpot() {
                if share_count > 0 {
                    1
                } else {
                    0
                }
            } else {
                share_count
            };
            let lot = Lot::new(custody, asset_tag, count, uid);
            let ghost before = self@.lots;
            self.lots.push(lot);
            assert(self@.lots == before.push(lot@));
            true
        }
    }

    /// Adds a lot under the given uid, or under a uid drawn at random where
    /// none is given. A lot whose uid is taken is skipped. Tells whether the
    /// lot was added.
    pub fn add_lot(
        &mut self,
        custody: &str,
        asset_tag: &AssetTag,
        share_count: i64,
        uid: Option<u64>,
    ) -> (added: bool)
        ensures
            exists|u: u64|
                {
                    &&& uid is Some ==> uid == Some(u)
                    &&& final(self)@ == (PotModel {
                        lots: lot_offered(
                            old(self)@.lots,
                            #[trigger] lot_made(custody@, asset_tag@, share_count as int, u),
                        ),
                        ..old(self)@
                    })
                    &&& added == !uid_taken(old(self)@.lots, u)
                },
            uids_distinct(old(self)@.lots) ==> uids_distinct(final(self)@.lots),
    {
        let u = match uid {
            Some(given) => given,
            None => Lot::random_uid(),
        };
        self.add_lot_with_uid(custody, asset_tag, share_count, u)
    }
}

} // verus!
