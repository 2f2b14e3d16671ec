//! Gathering an asset: moving every lot of it from the pots of a tree into
//! one pot.

use crate::asset_tag::{tag_of, AssetTag, TagModel};
use crate::deep_asset::DeepAsset;
use crate::error::{ErrorModel, ValuationError};
use crate::lot::{lots_of, Lot, LotModel};
use crate::portfolio::{count_of, lemma_count_of_concat};
use crate::pot::{copy_lots, copy_tags, Pot, PotModel};
use crate::pot_path::PotPath;
use crate::seqs::{first_index_of, lemma_first_index_of, lemma_unique, unique};
use crate::store::{
    deep_assets_in, deep_assets_of, leads_to, places, places_of, pot_at, PotStore, StoredPot,
};
use vstd::prelude::*;

verus! {

/// The lots of `tag` among `lots`, funded or not, in order.
pub open spec fn lots_moving(lots: Seq<LotModel>, tag: TagModel) -> Seq<LotModel> {
    lots.filter(|lot: LotModel| lot.tag == tag)
}

/// The lots of other assets than `tag` among `lots`, in order.
pub open spec fn lots_staying(lots: Seq<LotModel>, tag: TagModel) -> Seq<LotModel> {
    lots.filter(|lot: LotModel| lot.tag != tag)
}

/// Whether the lots of `a` are those of `b` in all but their uids.
pub open spec fn same_but_uid(a: Seq<LotModel>, b: Seq<LotModel>) -> bool {
    &&& a.len() == b.len()
    &&& forall|i: int|
        0 <= i < a.len() ==> (#[trigger] a[i]).custodian == b[i].custodian && a[i].tag == b[i].tag
            && a[i].count == b[i].count
}

/// The places of the occurrences of `tag` outside the pot at `dest`.
pub open spec fn holders_among(
    assets: Seq<(Seq<Seq<char>>, TagModel)>,
    tag: TagModel,
    dest: Seq<Seq<char>>,
) -> Seq<Seq<Seq<char>>>
    decreases assets.len(),
{
    if assets.len() == 0 {
        Seq::empty()
    } else {
        let before = holders_among(assets.drop_last(), tag, dest);
        if assets.last().1 == tag && assets.last().0 != dest {
            before.push(assets.last().0)
        } else {
            before
        }
    }
}

/// The pots that an asset is gathered from: each pot outside `dest` with
/// an occurrence of `tag`, once.
pub open spec fn sources_among(
    assets: Seq<(Seq<Seq<char>>, TagModel)>,
    tag: TagModel,
    dest: Seq<Seq<char>>,
) -> Seq<Seq<Seq<char>>> {
    unique(holders_among(assets, tag, dest))
}

/// The lots of `tag` in the first `k` of the pots at `sources`, pot after
/// pot.
pub open spec fn lots_moving_over(
    store: Seq<(Seq<Seq<char>>, PotModel)>,
    sources: Seq<Seq<Seq<char>>>,
    tag: TagModel,
    k: nat,
) -> Seq<LotModel>
    decreases k,
{
    if k == 0 || k > sources.len() {
        Seq::empty()
    } else {
        let before = lots_moving_over(store, sources, tag, (k - 1) as nat);
        match pot_at(store, sources[k - 1]) {
            None => before,
            Some(pot) => before + lots_moving(pot.lots, tag),
        }
    }
}

/// The pot kept at position `i` after the gathering: the pot at `dest` has
/// the arrivals behind its lots, each source has lost its lots of `tag`,
/// and every other pot is as before. A pot that stands behind another pot
/// of the same place does not count and stays as it is.
pub open spec fn gathered_pot(
    store: Seq<(Seq<Seq<char>>, PotModel)>,
    sources: Seq<Seq<Seq<char>>>,
    dest: Seq<Seq<char>>,
    tag: TagModel,
    arrivals: Seq<LotModel>,
    i: int,
) -> PotModel {
    let place = store[i].0;
    let pot = store[i].1;
    if first_index_of(places(store), place) != i {
        pot
    } else if place == dest {
        PotModel { lots: pot.lots + arrivals, ..pot }
    } else if sources.contains(place) {
        PotModel { lots: lots_staying(pot.lots, tag), ..pot }
    } else {
        pot
    }
}

/// The store after the gathering.
pub open spec fn gathered(
    store: Seq<(Seq<Seq<char>>, PotModel)>,
    sources: Seq<Seq<Seq<char>>>,
    dest: Seq<Seq<char>>,
    tag: TagModel,
    arrivals: Seq<LotModel>,
) -> Seq<(Seq<Seq<char>>, PotModel)> {
    Seq::new(
        store.len(),
        |i: int| (store[i].0, gathered_pot(store, sources, dest, tag, arrivals, i)),
    )
}

/// Splits the lots into those of `tag` and the others, each in order.
pub fn split_lots(lots: &Vec<Lot>, tag: &AssetTag) -> (r: (Vec<Lot>, Vec<Lot>))
    ensures
        lots_of(r.0@) == lots_moving(lots_of(lots@), tag@),
        lots_of(r.1@) == lots_staying(lots_of(lots@), tag@),
{
    let mut moving: Vec<Lot> = Vec::new();
    let mut staying: Vec<Lot> = Vec::new();
    let ghost all = lots_of(lots@);
    let ghost goes = |lot: LotModel| lot.tag == tag@;
    let ghost stays = |lot: LotModel| lot.tag != tag@;
    let mut i: usize = 0;
    proof {
        reveal(Seq::filter);
        assert(all.take(0) == Seq::<LotModel>::empty());
        assert(lots_of(moving@) == all.take(0).filter(goes));
        assert(lots_of(staying@) == all.take(0).filter(stays));
    }
    while i < lots.len()
        invariant
            i <= lots.len(),
            all == lots_of(lots@),
            goes == |lot: LotModel| lot.tag == tag@,
            stays == |lot: LotModel| lot.tag != tag@,
            lots_of(moving@) == all.take(i as int).filter(goes),
            lots_of(staying@) == all.take(i as int).filter(stays),
        decreases lots.len() - i,
    {
        let ghost moving_before = lots_of(moving@);
        let ghost staying_before = lots_of(staying@);
        proof {
            assert(all.take(i as int + 1) == all.take(i as int).push(lots@[i as int]@));
            all.take(i as int).lemma_filter_push(lots@[i as int]@, goes);
            all.take(i as int).lemma_filter_push(lots@[i as int]@, stays);
        }
        if lots[i].has_tag(tag) {
            moving.push(lots[i].clone());
            assert(lots_of(moving@) == moving_before.push(lots@[i as int]@));
        } else {
            staying.push(lots[i].clone());
            assert(lots_of(staying@) == staying_before.push(lots@[i as int]@));
        }
        i += 1;
    }
    assert(all.take(i as int) == all);
    (moving, staying)
}

/// The same holdings, each under a uid drawn anew.
pub fn with_fresh_uids(lots: &Vec<Lot>) -> (r: Vec<Lot>)
    ensures
        same_but_uid(lots_of(r@), lots_of(lots@)),
{
    let mut r: Vec<Lot> = Vec::new();
    let mut i: usize = 0;
    while i < lots.len()
        invariant
            i <= lots.len(),
            same_but_uid(lots_of(r@), lots_of(lots@).take(i as int)),
        decreases lots.len() - i,
    {
        let ghost before = lots_of(r@);
        let fresh = lots[i].with_fresh_uid();
        r.push(fresh);
        proof {
            assert(lots_of(r@) == before.push(fresh@));
            assert(lots_of(lots@).take(i as int + 1) == lots_of(lots@).take(i as int).push(
                lots@[i as int]@,
            ));
        }
        i += 1;
    }
    assert(lots_of(lots@).take(i as int) == lots_of(lots@));
    r
}

/// The pots that `tag` is gathered from: each pot outside `dest` with an
/// occurrence of `tag`, once.
pub fn sources_in(assets: &Vec<DeepAsset>, tag: &AssetTag, dest: &PotPath) -> (r: Vec<PotPath>)
    ensures
        places_of(r@) == sources_among(deep_assets_in(assets@), tag@, dest@),
{
    let mut r: Vec<PotPath> = Vec::new();
    let ghost all = deep_assets_in(assets@);
    let mut i: usize = 0;
    assert(all.take(0) == Seq::<(Seq<Seq<char>>, TagModel)>::empty());
    while i < assets.len()
        invariant
            i <= assets.len(),
            all == deep_assets_in(assets@),
            places_of(r@) == unique(holders_among(all.take(i as int), tag@, dest@)),
        decreases assets.len() - i,
    {
        let ghost before = places_of(r@);
        let ghost holders = holders_among(all.take(i as int), tag@, dest@);
        proof {
            assert(all.take(i as int + 1).drop_last() == all.take(i as int));
            assert(all.take(i as int + 1).last() == assets@[i as int]@);
        }
        let asset = &assets[i];
        if asset.has_tag(tag) && !asset.has_path(dest) {
            proof {
                assert(holders.push(asset@.0).drop_last() == holders);
                assert(holders.push(asset@.0).last() == asset@.0);
            }
            if !leads_to(&r, &asset.pot_path) {
                r.push(asset.pot_path.clone());
                assert(places_of(r@) == before.push(asset@.0));
            }
        }
        i += 1;
    }
    assert(all.take(i as int) == all);
    r
}

/// Whether a gathering of `tag` into `dest` has led from the store `before`
/// to the store `after` with the outcome `outcome`. Nothing changes where
/// the tree cannot be walked, where no other pot holds the asset, or where
/// there is no pot at `dest`. Otherwise the lots of the asset arrive at
/// `dest`, alike in all but their uids, and their number is told.
pub open spec fn is_gathered(
    before: Seq<(Seq<Seq<char>>, PotModel)>,
    after: Seq<(Seq<Seq<char>>, PotModel)>,
    root: Seq<Seq<char>>,
    tag: TagModel,
    dest: Seq<Seq<char>>,
    outcome: Result<usize, ErrorModel>,
) -> bool {
    match deep_assets_of(before, root) {
        Err(e) => outcome == Err::<usize, ErrorModel>(e) && after == before,
        Ok(assets) => {
            let sources = sources_among(assets, tag, dest);
            if sources.len() == 0 {
                outcome == Ok::<usize, ErrorModel>(0) && after == before
            } else if pot_at(before, dest) is None {
                outcome == Err::<usize, ErrorModel>(ErrorModel::NotInitialized(dest)) && after
                    == before
            } else {
                exists|arrivals: Seq<LotModel>|
                    {
                        &&& same_but_uid(
                            arrivals,
                            lots_moving_over(before, sources, tag, sources.len()),
                        )
                        &&& outcome == Ok::<usize, ErrorModel>(arrivals.len() as usize)
                        &&& after == #[trigger] gathered(before, sources, dest, tag, arrivals)
                    }
            }
        },
    }
}

/// Moves every lot of the asset written as `symbol` from the pots of the
/// tree below `root` into the pot at `dest`, and tells how many lots have
/// moved.
pub fn gather_asset(store: &mut PotStore, root: &PotPath, symbol: &str, dest: &PotPath) -> (r:
    Result<usize, ValuationError>)
    ensures
        match r {
            Ok(moved) => is_gathered(
                old(store)@,
                final(store)@,
                root@,
                tag_of(symbol@),
                dest@,
                Ok(moved),
            ),
            Err(e) => is_gathered(
                old(store)@,
                final(store)@,
                root@,
                tag_of(symbol@),
                dest@,
                Err(e@),
            ),
        },
{
    let tag = AssetTag::from(symbol);
    gather_tag(store, root, &tag, dest)
}

/// Moves every lot of the asset `tag` from the pots of the tree below
/// `root` into the pot at `dest`, and tells how many lots have moved. A pot
/// gives its lots where one of its lots of the asset is funded. Each lot
/// arrives behind the lots of `dest` under a uid drawn anew, with its
/// custodian, asset and count unchanged. Nothing changes where the tree
/// cannot be walked, or where there is something to move and no pot at
/// `dest`.
pub fn gather_tag(store: &mut PotStore, root: &PotPath, tag: &AssetTag, dest: &PotPath) -> (r:
    Result<usize, ValuationError>)
    ensures
        match r {
            Ok(moved) => is_gathered(old(store)@, final(store)@, root@, tag@, dest@, Ok(moved)),
            Err(e) => is_gathered(old(store)@, final(store)@, root@, tag@, dest@, Err(e@)),
        },
{
    let assets = match store.read_deep_assets(root) {
        Err(e) => {
            return Err(e);
        },
        Ok(assets) => assets,
    };
    let sources = sources_in(&assets, tag, dest);
    if sources.len() == 0 {
        return Ok(0);
    }
    let dest_index = match store.position(dest) {
        None => {
            return Err(ValuationError::NotInitialized(dest.clone()));
        },
        Some(p) => p,
    };
    let ghost before = store@;
    let ghost all = places_of(sources@);
    let ghost none = Seq::<LotModel>::empty();
    let mut arrivals: Vec<Lot> = Vec::new();
    let mut k: usize = 0;
    proof {
        lemma_unique(holders_among(deep_assets_in(assets@), tag@, dest@));
        lemma_holders_outside(deep_assets_in(assets@), tag@, dest@);
        assert(all.take(0) == Seq::<Seq<Seq<char>>>::empty());
        assert forall|i: int| 0 <= i < before.len() implies before[i].1 == gathered_pot(
            before,
            all.take(0),
            dest@,
            tag@,
            none,
            i,
        ) by {
            assert(before[i].1.lots + none == before[i].1.lots);
        }
        assert(store@ == gathered(before, all.take(0), dest@, tag@, none));
        assert(lots_of(arrivals@) == none);
    }
    while k < sources.len()
        invariant
            k <= sources.len(),
            all == places_of(sources@),
            all.no_duplicates(),
            !all.contains(dest@),
            none == Seq::<LotModel>::empty(),
            dest_index < before.len(),
            dest_index == first_index_of(places(before), dest@),
            store@ == gathered(before, all.take(k as int), dest@, tag@, none),
            same_but_uid(lots_of(arrivals@), lots_moving_over(before, all, tag@, k as nat)),
        decreases sources.len() - k,
    {
        let ghost now = store@;
        let ghost source = sources@[k as int]@;
        let ghost done = all.take(k as int);
        let ghost next = all.take(k as int + 1);
        proof {
            assert(places(now) == places(before));
            assert(all[k as int] == source);
            assert(all.take(k as int + 1) == all.take(k as int).push(source));
            lemma_first_index_of(places(before), source);
        }
        match store.position(&sources[k]) {
            None => {
                proof {
                    assert forall|i: int| 0 <= i < before.len() implies gathered_pot(
                        before,
                        all.take(k as int + 1),
                        dest@,
                        tag@,
                        none,
                        i,
                    ) == gathered_pot(before, all.take(k as int), dest@, tag@, none, i) by {
                        assert(places(before)[i] == before[i].0);
                        if all.take(k as int).contains(before[i].0) {
                            let j = choose|j: int|
                                0 <= j < done.len() && done[j] == before[i].0;
                            assert(next[j] == before[i].0);
                        }
                        if all.take(k as int + 1).contains(before[i].0) {
                            let j = choose|j: int|
                                0 <= j < next.len() && next[j] == before[i].0;
                            assert(j < k);
                            assert(done[j] == before[i].0);
                        }
                    }
                    assert(store@ == gathered(before, all.take(k as int + 1), dest@, tag@, none));
                }
            },
            Some(p) => {
                let kept = &store.pots[p];
                let (moving, staying) = split_lots(&kept.pot.lots, tag);
                let mut fresh = with_fresh_uids(&moving);
                let changed = StoredPot {
                    path: kept.path.clone(),
                    pot: Pot {
                        lots: staying,
                        free_cash: kept.pot.free_cash,
                        ramp: kept.pot.ramp,
                        targets: copy_tags(&kept.pot.targets),
                    },
                };
                let ghost arrived = lots_of(arrivals@);
                let ghost more = lots_of(fresh@);
                arrivals.append(&mut fresh);
                store.pots.set(p, changed);
                proof {
                    assert(places(now)[p as int] == source);
                    assert(before[p as int].0 == source);
                    assert(!all.take(k as int).contains(source)) by {
                        if all.take(k as int).contains(source) {
                            let j = choose|j: int| 0 <= j < done.len() && done[j] == source;
                            assert(all[j] == all[k as int]);
                        }
                    }
                    assert(now[p as int].1 == before[p as int].1);
                    assert(pot_at(before, source) == Some(before[p as int].1));
                    assert(lots_of(arrivals@) == arrived + more);
                    assert(all.take(k as int + 1)[k as int] == source);
                    assert forall|i: int| 0 <= i < before.len() implies (#[trigger] store@[i])
                        == (
                        before[i].0,
                        gathered_pot(before, all.take(k as int + 1), dest@, tag@, none, i),
                    ) by {
                        assert(places(before)[i] == before[i].0);
                        if i != p {
                            assert(store@[i] == now[i]);
                            if all.take(k as int).contains(before[i].0) {
                                let j = choose|j: int|
                                    0 <= j < done.len() && done[j] == before[i].0;
                                assert(next[j] == before[i].0);
                            }
                            if all.take(k as int + 1).contains(before[i].0) {
                                let j = choose|j: int|
                                    0 <= j < next.len() && next[j] == before[i].0;
                                if j == k {
                                    assert(before[i].0 == source);
                                } else {
                                    assert(done[j] == before[i].0);
                                }
                            }
                        } else {
                            assert(all.contains(source));
                        }
                    }
                    assert(store@ =~= gathered(before, all.take(k as int + 1), dest@, tag@, none));
                }
            },
        }
        k += 1;
    }
    proof {
        assert(all.take(k as int) == all);
    }
    let kept = &store.pots[dest_index];
    let mut lots = copy_lots(&kept.pot.lots);
    let count = arrivals.len();
    let ghost arrived = lots_of(arrivals@);
    let ghost held = lots_of(lots@);
    let changed = StoredPot {
        path: kept.path.clone(),
        pot: Pot {
            lots: Vec::new(),
            free_cash: kept.pot.free_cash,
            ramp: kept.pot.ramp,
            targets: copy_tags(&kept.pot.targets),
        },
    };
    let ghost now = store@;
    lots.append(&mut arrivals);
    let mut changed = changed;
    changed.pot.lots = lots;
    store.pots.set(dest_index, changed);
    proof {
        lemma_first_index_of(places(before), dest@);
        assert(places(before)[dest_index as int] == before[dest_index as int].0);
        assert(now[dest_index as int].1.lots == before[dest_index as int].1.lots + none);
        assert(before[dest_index as int].1.lots + none == before[dest_index as int].1.lots);
        assert(lots_of(lots@) == held + arrived);
        assert forall|i: int| 0 <= i < before.len() implies (#[trigger] store@[i]) == (
            before[i].0,
            gathered_pot(before, all, dest@, tag@, arrived, i),
        ) by {
            assert(places(before)[i] == before[i].0);
            if i != dest_index {
                assert(store@[i] == now[i]);
            }
        }
        assert(store@ =~= gathered(before, all, dest@, tag@, arrived));
        assert(pot_at(before, dest@) is Some);
    }
    Ok(count)
}

/// Splitting the lots by an asset splits its count: the lots that move
/// carry the whole count of the asset, the lots that stay carry none of
/// it, and the count of any other asset stays whole.
pub proof fn lemma_split_counts(lots: Seq<LotModel>, tag: TagModel, other: TagModel)
    ensures
        count_of(lots_moving(lots, tag), tag) == count_of(lots, tag),
        count_of(lots_staying(lots, tag), tag) == 0,
        other != tag ==> count_of(lots_staying(lots, tag), other) == count_of(lots, other),
        other != tag ==> count_of(lots_moving(lots, tag), other) == 0,
    decreases lots.len(),
{
    reveal(Seq::filter);
    if lots.len() > 0 {
        lemma_split_counts(lots.drop_last(), tag, other);
        let goes = |lot: LotModel| lot.tag == tag;
        let stays = |lot: LotModel| lot.tag != tag;
        let init = lots.drop_last();
        if lots.last().tag == tag {
            assert(lots.filter(goes) == init.filter(goes).push(lots.last()));
            assert(init.filter(goes).push(lots.last()).drop_last() == init.filter(goes));
            assert(lots.filter(stays) == init.filter(stays));
        } else {
            assert(lots.filter(stays) == init.filter(stays).push(lots.last()));
            assert(init.filter(stays).push(lots.last()).drop_last() == init.filter(stays));
            assert(lots.filter(goes) == init.filter(goes));
        }
    }
}

/// Lots that differ in their uids only have the same counts.
pub proof fn lemma_same_but_uid_counts(a: Seq<LotModel>, b: Seq<LotModel>, tag: TagModel)
    requires
        same_but_uid(a, b),
    ensures
        count_of(a, tag) == count_of(b, tag),
    decreases a.len(),
{
    if a.len() > 0 {
        assert(a.last() == a[a.len() - 1]);
        assert(b.last() == b[b.len() - 1]);
        assert forall|i: int| 0 <= i < a.drop_last().len() implies (#[trigger] a.drop_last()[i]).custodian
            == b.drop_last()[i].custodian && a.drop_last()[i].tag == b.drop_last()[i].tag
            && a.drop_last()[i].count == b.drop_last()[i].count by {
            assert(a.drop_last()[i] == a[i]);
        }
        lemma_same_but_uid_counts(a.drop_last(), b.drop_last(), tag);
    }
}

/// What a gathering does to the counts of a pot that counts at its place:
/// a source loses exactly its count of the asset and keeps every other
/// count; the pot at `dest` gains exactly the count of what arrives, which
/// is the count of what has moved.
pub proof fn lemma_gathered_counts(
    store: Seq<(Seq<Seq<char>>, PotModel)>,
    sources: Seq<Seq<Seq<char>>>,
    dest: Seq<Seq<char>>,
    tag: TagModel,
    arrivals: Seq<LotModel>,
    i: int,
    other: TagModel,
)
    requires
        0 <= i < store.len(),
        first_index_of(places(store), store[i].0) == i,
        same_but_uid(arrivals, lots_moving_over(store, sources, tag, sources.len())),
    ensures
        store[i].0 == dest ==> count_of(
            gathered_pot(store, sources, dest, tag, arrivals, i).lots,
            other,
        ) == count_of(store[i].1.lots, other) + count_of(
            lots_moving_over(store, sources, tag, sources.len()),
            other,
        ),
        store[i].0 != dest && sources.contains(store[i].0) ==> count_of(
            gathered_pot(store, sources, dest, tag, arrivals, i).lots,
            tag,
        ) == 0,
        store[i].0 != dest && other != tag ==> count_of(
            gathered_pot(store, sources, dest, tag, arrivals, i).lots,
            other,
        ) == count_of(store[i].1.lots, other),
{
    lemma_split_counts(store[i].1.lots, tag, other);
    lemma_same_but_uid_counts(
        arrivals,
        lots_moving_over(store, sources, tag, sources.len()),
        other,
    );
    lemma_count_of_concat(store[i].1.lots, arrivals, other);
}

/// No pot that an asset is gathered from is the pot that it is gathered
/// into.
pub proof fn lemma_holders_outside(
    assets: Seq<(Seq<Seq<char>>, TagModel)>,
    tag: TagModel,
    dest: Seq<Seq<char>>,
)
    ensures
        !holders_among(assets, tag, dest).contains(dest),
        !sources_among(assets, tag, dest).contains(dest),
    decreases assets.len(),
{
    lemma_unique(holders_among(assets, tag, dest));
    if assets.len() > 0 {
        lemma_holders_outside(assets.drop_last(), tag, dest);
        let before = holders_among(assets.drop_last(), tag, dest);
        if holders_among(assets, tag, dest).contains(dest) {
            let j = choose|j: int|
                0 <= j < holders_among(assets, tag, dest).len() && holders_among(
                    assets,
                    tag,
                    dest,
                )[j] == dest;
            if j < before.len() {
                assert(before[j] == dest);
            }
        }
    }
}

} // verus!
