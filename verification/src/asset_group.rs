//! Groups of occurrences of one asset across the tree of pots.

use crate::amounts::{lookup, Amounts};
use crate::asset_tag::{AssetTag, TagModel};
use crate::deep_asset::DeepAsset;
use crate::error::{ErrorModel, ValuationError};
use crate::portfolio::{fits, market_values_result};
use crate::pot::PotModel;
use crate::seqs::{first_index_of, lemma_first_index_of};
use crate::store::{deep_assets_in, holds_asset, pot_at, PotStore};
use vstd::prelude::*;

verus! {

/// All occurrences of one asset: the asset, and each pot that holds it.
#[derive(Debug)]
pub struct AssetGroup {
    pub tag: AssetTag,
    pub assets: Vec<DeepAsset>,
}

impl View for AssetGroup {
    type V = (TagModel, Seq<(Seq<Seq<char>>, TagModel)>);

    open spec fn view(&self) -> (TagModel, Seq<(Seq<Seq<char>>, TagModel)>) {
        (self.tag@, deep_assets_in(self.assets@))
    }
}

/// The groups held by a sequence of groups.
pub open spec fn groups_in(v: Seq<AssetGroup>) -> Seq<
    (TagModel, Seq<(Seq<Seq<char>>, TagModel)>),
> {
    Seq::new(v.len(), |i: int| v[i]@)
}

/// The assets of the groups, in order.
pub open spec fn group_tags(groups: Seq<(TagModel, Seq<(Seq<Seq<char>>, TagModel)>)>) -> Seq<
    TagModel,
> {
    Seq::new(groups.len(), |i: int| groups[i].0)
}

/// The members with `asset` among them: added at the end where it was
/// missing.
pub open spec fn member_added(
    members: Seq<(Seq<Seq<char>>, TagModel)>,
    asset: (Seq<Seq<char>>, TagModel),
) -> Seq<(Seq<Seq<char>>, TagModel)> {
    if members.contains(asset) {
        members
    } else {
        members.push(asset)
    }
}

/// The occurrences grouped by asset. Groups stand in the order in which
/// their assets first occur, and so do the members of each group.
pub open spec fn groups_of(assets: Seq<(Seq<Seq<char>>, TagModel)>) -> Seq<
    (TagModel, Seq<(Seq<Seq<char>>, TagModel)>),
>
    decreases assets.len(),
{
    if assets.len() == 0 {
        Seq::empty()
    } else {
        let before = groups_of(assets.drop_last());
        let asset = assets.last();
        let i = first_index_of(group_tags(before), asset.1);
        if i < before.len() {
            before.update(i, (asset.1, member_added(before[i].1, asset)))
        } else {
            before.push((asset.1, seq![asset]))
        }
    }
}

/// Whether the occurrence is a member of the group of its asset.
pub open spec fn is_grouped(
    groups: Seq<(TagModel, Seq<(Seq<Seq<char>>, TagModel)>)>,
    asset: (Seq<Seq<char>>, TagModel),
) -> bool {
    exists|g: int|
        0 <= g < groups.len() && (#[trigger] groups[g]).0 == asset.1 && groups[g].1.contains(asset)
}

/// Grouping is a partition by asset: no two groups are of one asset, the
/// members of a group are occurrences of the group's asset, each once, and
/// every occurrence is a member of the group of its asset.
pub proof fn lemma_groups_partition(assets: Seq<(Seq<Seq<char>>, TagModel)>)
    ensures
        group_tags(groups_of(assets)).no_duplicates(),
        forall|g: int, m: int|
            0 <= g < groups_of(assets).len() && 0 <= m < groups_of(assets)[g].1.len() ==> (
            #[trigger] groups_of(assets)[g].1[m]).1 == groups_of(assets)[g].0 && assets.contains(
                groups_of(assets)[g].1[m],
            ),
        forall|g: int| 0 <= g < groups_of(assets).len() ==> (#[trigger] groups_of(
            assets,
        )[g]).1.no_duplicates(),
        forall|i: int| 0 <= i < assets.len() ==> is_grouped(groups_of(assets), #[trigger] assets[i]),
    decreases assets.len(),
{
    if assets.len() > 0 {
        let init = assets.drop_last();
        let asset = assets.last();
        lemma_groups_partition(init);
        let before = groups_of(init);
        let now = groups_of(assets);
        let tags = group_tags(before);
        lemma_first_index_of(tags, asset.1);
        let p = first_index_of(tags, asset.1);
        assert(assets[assets.len() - 1] == asset);
        if p < before.len() {
            assert(tags[p] == before[p].0);
            assert(group_tags(now) == tags);
            let members = before[p].1;
            let grown = member_added(members, asset);
            assert forall|g: int, m: int| 0 <= g < now.len() && 0 <= m < now[g].1.len() implies (
            #[trigger] now[g].1[m]).1 == now[g].0 && assets.contains(now[g].1[m]) by {
                if g == p && m == members.len() {
                } else {
                    assert(now[g].1[m] == before[g].1[m]);
                    assert(init.contains(before[g].1[m]));
                    let i = choose|i: int| 0 <= i < init.len() && init[i] == before[g].1[m];
                    assert(assets[i] == before[g].1[m]);
                }
            }
            assert forall|g: int| 0 <= g < now.len() implies (#[trigger] now[g]).1.no_duplicates() by {
                if g != p {
                    assert(now[g] == before[g]);
                } else {
                    assert(before[p].1.no_duplicates());
                }
            }
            assert forall|i: int| 0 <= i < assets.len() implies is_grouped(
                now,
                #[trigger] assets[i],
            ) by {
                if i < init.len() {
                    assert(init[i] == assets[i]);
                    assert(is_grouped(before, init[i]));
                    let g = choose|g: int|
                        0 <= g < before.len() && (#[trigger] before[g]).0 == init[i].1
                            && before[g].1.contains(init[i]);
                    if g == p {
                        let m = choose|m: int| 0 <= m < members.len() && members[m] == init[i];
                        assert(grown[m] == init[i]);
                    }
                    assert(now[g].0 == assets[i].1 && now[g].1.contains(assets[i]));
                } else {
                    if !members.contains(asset) {
                        assert(grown[members.len() as int] == asset);
                    }
                    assert(now[p].0 == asset.1 && now[p].1.contains(asset));
                }
            }
        } else {
            let fresh = (asset.1, seq![asset]);
            assert(now == before.push(fresh));
            assert(group_tags(now) == tags.push(asset.1));
            assert forall|g: int, m: int| 0 <= g < now.len() && 0 <= m < now[g].1.len() implies (
            #[trigger] now[g].1[m]).1 == now[g].0 && assets.contains(now[g].1[m]) by {
                if g < before.len() {
                    assert(now[g].1[m] == before[g].1[m]);
                    assert(init.contains(before[g].1[m]));
                    let i = choose|i: int| 0 <= i < init.len() && init[i] == before[g].1[m];
                    assert(assets[i] == before[g].1[m]);
                }
            }
            assert forall|g: int| 0 <= g < now.len() implies (#[trigger] now[g]).1.no_duplicates() by {
                if g < before.len() {
                    assert(now[g] == before[g]);
                }
            }
            assert forall|i: int| 0 <= i < assets.len() implies is_grouped(
                now,
                #[trigger] assets[i],
            ) by {
                if i < init.len() {
                    assert(init[i] == assets[i]);
                    assert(is_grouped(before, init[i]));
                    let g = choose|g: int|
                        0 <= g < before.len() && (#[trigger] before[g]).0 == init[i].1
                            && before[g].1.contains(init[i]);
                    assert(now[g] == before[g]);
                } else {
                    assert(seq![asset][0] == asset);
                    assert(now[before.len() as int] == fresh);
                    assert(now[before.len() as int].1.contains(asset));
                }
            }
        }
    }
}

/// What one occurrence is worth: the market value that the asset has in
/// the lots of the pot that holds it, the pot's cash left aside.
pub open spec fn member_value(
    store: Seq<(Seq<Seq<char>>, PotModel)>,
    prices: Seq<(TagModel, int)>,
    member: (Seq<Seq<char>>, TagModel),
) -> Result<int, ErrorModel> {
    match pot_at(store, member.0) {
        None => Err(ErrorModel::NotInitialized(member.0)),
        Some(pot) => match market_values_result(pot.lots, 0, prices) {
            Err(e) => Err(e),
            Ok(values) => match lookup(values, member.1) {
                Some(value) => Ok(value),
                None => Ok(0),
            },
        },
    }
}

/// What the first `k` members are worth together.
pub open spec fn members_value(
    store: Seq<(Seq<Seq<char>>, PotModel)>,
    prices: Seq<(TagModel, int)>,
    members: Seq<(Seq<Seq<char>>, TagModel)>,
    k: nat,
) -> Result<int, ErrorModel>
    decreases k,
{
    if k == 0 || k > members.len() {
        Ok(0)
    } else {
        match members_value(store, prices, members, (k - 1) as nat) {
            Err(e) => Err(e),
            Ok(before) => match member_value(store, prices, members[k - 1]) {
                Err(e) => Err(e),
                Ok(value) => if fits(before + value) {
                    Ok(before + value)
                } else {
                    Err(ErrorModel::Overflow)
                },
            },
        }
    }
}

/// A sum that has stopped at one member stays stopped however many more
/// there are.
pub proof fn lemma_members_value_stopped(
    store: Seq<(Seq<Seq<char>>, PotModel)>,
    prices: Seq<(TagModel, int)>,
    members: Seq<(Seq<Seq<char>>, TagModel)>,
    j: nat,
    k: nat,
)
    requires
        j <= k <= members.len(),
        members_value(store, prices, members, j) is Err,
    ensures
        members_value(store, prices, members, k) == members_value(store, prices, members, j),
    decreases k,
{
    if j < k {
        lemma_members_value_stopped(store, prices, members, j, (k - 1) as nat);
    }
}

impl Clone for AssetGroup {
    fn clone(&self) -> (r: Self)
        ensures
            r@ == self@,
    {
        let mut assets: Vec<DeepAsset> = Vec::new();
        let mut i: usize = 0;
        while i < self.assets.len()
            invariant
                i <= self.assets.len(),
                deep_assets_in(assets@) == deep_assets_in(self.assets@).take(i as int),
            decreases self.assets.len() - i,
        {
            let ghost before = deep_assets_in(assets@);
            assets.push(self.assets[i].clone());
            assert(deep_assets_in(assets@) == before.push(self.assets@[i as int]@));
            i += 1;
            assert(deep_assets_in(self.assets@).take(i as int) == before.push(
                self.assets@[i as int - 1]@,
            ));
        }
        assert(deep_assets_in(self.assets@).take(i as int) == deep_assets_in(self.assets@));
        AssetGroup { tag: self.tag.clone(), assets }
    }
}

impl AssetGroup {
    /// The group of the one occurrence `asset`.
    pub fn new(asset: &DeepAsset) -> (r: Self)
        ensures
            r@ == (asset@.1, seq![asset@]),
    {
        let mut assets: Vec<DeepAsset> = Vec::new();
        assets.push(asset.clone());
        assert(deep_assets_in(assets@) == seq![asset@]);
        AssetGroup { tag: asset.asset_tag.clone(), assets }
    }

    /// The group with `asset` among its members. The occurrence must be
    /// one of the group's asset.
    pub fn add(&self, asset: &DeepAsset) -> (r: Self)
        requires
            asset@.1 == self@.0,
        ensures
            r@ == (self@.0, member_added(self@.1, asset@)),
    {
        let mut group = self.clone();
        if !holds_asset(&group.assets, asset) {
            let ghost before = deep_assets_in(group.assets@);
            group.assets.push(asset.clone());
            assert(deep_assets_in(group.assets@) == before.push(asset@));
        }
        group
    }

    /// What all occurrences of the asset are worth together: for each
    /// member, the market value of the asset in the pot that holds it.
    pub fn market_value(&self, store: &PotStore, prices: &Amounts) -> (r: Result<
        i128,
        ValuationError,
    >)
        ensures
            match r {
                Ok(value) => members_value(store@, prices@, self@.1, self@.1.len()) == Ok::<
                    int,
                    ErrorModel,
                >(value as int),
                Err(e) => members_value(store@, prices@, self@.1, self@.1.len()) == Err::<
                    int,
                    ErrorModel,
                >(e@),
            },
    {
        let mut sum: i128 = 0;
        let ghost members = self@.1;
        let mut k: usize = 0;
        while k < self.assets.len()
            invariant
                k <= self.assets.len(),
                members == self@.1,
                members_value(store@, prices@, members, k as nat) == Ok::<int, ErrorModel>(
                    sum as int,
                ),
            decreases self.assets.len() - k,
        {
            let asset = &self.assets[k];
            assert(members[k as int] == asset@);
            let pot = match store.get(&asset.pot_path) {
                None => {
                    proof {
                        lemma_members_value_stopped(
                            store@,
                            prices@,
                            members,
                            (k + 1) as nat,
                            members.len(),
                        );
                    }
                    return Err(ValuationError::NotInitialized(asset.pot_path.clone()));
                },
                Some(pot) => pot,
            };
            let mut portfolio = pot.read_portfolio();
            portfolio.free_cash = 0;
            let values = match portfolio.market_values(prices) {
                Err(e) => {
                    proof {
                        lemma_members_value_stopped(
                            store@,
                            prices@,
                            members,
                            (k + 1) as nat,
                            members.len(),
                        );
                    }
                    return Err(e);
                },
                Ok(values) => values,
            };
            let value: i128 = match values.get(&asset.asset_tag) {
                Some(value) => value,
                None => 0,
            };
            match sum.checked_add(value) {
                None => {
                    proof {
                        lemma_members_value_stopped(
                            store@,
                            prices@,
                            members,
                            (k + 1) as nat,
                            members.len(),
                        );
                    }
                    return Err(ValuationError::Overflow);
                },
                Some(next) => {
                    sum = next;
                },
            }
            k += 1;
        }
        Ok(sum)
    }
}

/// Where the group of `tag` stands among `groups`, if there is one.
pub fn group_position(groups: &Vec<AssetGroup>, tag: &AssetTag) -> (r: Option<usize>)
    ensures
        match r {
            Some(p) => p < groups.len() && p == first_index_of(
                group_tags(groups_in(groups@)),
                tag@,
            ),
            None => first_index_of(group_tags(groups_in(groups@)), tag@) == groups.len(),
        },
{
    let ghost tags = group_tags(groups_in(groups@));
    proof {
        lemma_first_index_of(tags, tag@);
    }
    let ghost first = first_index_of(tags, tag@);
    let mut i: usize = 0;
    while i < groups.len()
        invariant
            i <= groups.len(),
            tags == group_tags(groups_in(groups@)),
            first == first_index_of(tags, tag@),
            0 <= first <= tags.len(),
            first < tags.len() ==> tags[first] == tag@,
            forall|j: int| 0 <= j < first ==> tags[j] != tag@,
            forall|j: int| 0 <= j < i ==> tags[j] != tag@,
        decreases groups.len() - i,
    {
        if groups[i].tag.has_tag(tag) {
            assert(tags[i as int] == tag@);
            return Some(i);
        }
        i += 1;
    }
    None
}

/// Groups the occurrences by asset: one group for each asset, holding
/// every occurrence of it once.
pub fn into_groups(assets: Vec<DeepAsset>) -> (r: Vec<AssetGroup>)
    ensures
        groups_in(r@) == groups_of(deep_assets_in(assets@)),
{
    let mut groups: Vec<AssetGroup> = Vec::new();
    let ghost all = deep_assets_in(assets@);
    let mut i: usize = 0;
    assert(all.take(0) == Seq::<(Seq<Seq<char>>, TagModel)>::empty());
    assert(groups_in(groups@) == groups_of(all.take(0)));
    while i < assets.len()
        invariant
            i <= assets.len(),
            all == deep_assets_in(assets@),
            groups_in(groups@) == groups_of(all.take(i as int)),
        decreases assets.len() - i,
    {
        let asset = &assets[i];
        let ghost before = groups_in(groups@);
        proof {
            assert(all.take(i as int + 1).drop_last() == all.take(i as int));
            assert(all.take(i as int + 1).last() == asset@);
        }
        match group_position(&groups, &asset.asset_tag) {
            None => {
                let group = AssetGroup::new(asset);
                groups.push(group);
                assert(groups_in(groups@) == before.push((asset@.1, seq![asset@])));
            },
            Some(p) => {
                proof {
                    lemma_first_index_of(group_tags(before), asset@.1);
                    assert(group_tags(before)[p as int] == before[p as int].0);
                    assert(before[p as int] == groups@[p as int]@);
                }
                let group = groups[p].add(asset);
                groups.set(p, group);
                assert(groups_in(groups@) == before.update(
                    p as int,
                    (asset@.1, member_added(before[p as int].1, asset@)),
                ));
            },
        }
        i += 1;
    }
    assert(all.take(i as int) == all);
    groups
}

} // verus!
