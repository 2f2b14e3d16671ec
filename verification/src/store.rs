//! The store: every pot of a tree, each under the path that leads to it.
//!
//! A lot whose asset is a pot tag owns the pot in the folder of that name
//! below the pot that holds the lot. Walks through the tree keep the chain
//! of pots that they are inside of, and stop where a pot leads back into
//! its own chain.

use crate::asset_tag::{pot_tag, position_of, tags_of, AssetTag, TagModel};
use crate::deep_asset::DeepAsset;
use crate::error::{ErrorModel, ValuationError};
use crate::lot::{Lot, LotModel};
use crate::pot::{holds_tag, lot_assets_of, lot_made, lot_offered, uid_taken, Pot, PotModel};
use crate::ramp::Ramp;
use crate::text::lowercase_of;
use crate::pot_path::PotPath;
use crate::seqs::{first_index_of, lemma_first_index_of, lemma_unique_merged, merged, unique};
use vstd::prelude::*;

verus! {

/// A pot and the path that leads to it.
#[derive(Debug)]
pub struct StoredPot {
    pub path: PotPath,
    pub pot: Pot,
}

/// The pots of a tree. Of two pots at the same place only the first counts.
#[derive(Debug)]
pub struct PotStore {
    pub pots: Vec<StoredPot>,
}

impl View for PotStore {
    type V = Seq<(Seq<Seq<char>>, PotModel)>;

    open spec fn view(&self) -> Seq<(Seq<Seq<char>>, PotModel)> {
        Seq::new(self.pots@.len(), |i: int| (self.pots@[i].path@, self.pots@[i].pot@))
    }
}

/// The places of the stored pots, in order.
pub open spec fn places(store: Seq<(Seq<Seq<char>>, PotModel)>) -> Seq<Seq<Seq<char>>> {
    Seq::new(store.len(), |i: int| store[i].0)
}

/// The pot stored at a place, if there is one.
pub open spec fn pot_at(store: Seq<(Seq<Seq<char>>, PotModel)>, at: Seq<Seq<char>>) -> Option<
    PotModel,
> {
    let i = first_index_of(places(store), at);
    if i < store.len() {
        Some(store[i].1)
    } else {
        None
    }
}

/// The store with `pot` at the place `at`: in place of the pot that was
/// there, or at the end where there was none.
pub open spec fn pot_entered(
    store: Seq<(Seq<Seq<char>>, PotModel)>,
    at: Seq<Seq<char>>,
    pot: PotModel,
) -> Seq<(Seq<Seq<char>>, PotModel)> {
    let i = first_index_of(places(store), at);
    if i < store.len() {
        store.update(i, (at, pot))
    } else {
        store.push((at, pot))
    }
}

/// A pot that holds nothing yet.
pub open spec fn empty_pot() -> PotModel {
    PotModel { lots: Seq::empty(), free_cash: 0, ramp: Ramp::Golden, targets: Seq::empty() }
}

/// The store with a pot at `at` in any case: an empty pot is stored where
/// there was none.
pub open spec fn pot_ensured(store: Seq<(Seq<Seq<char>>, PotModel)>, at: Seq<Seq<char>>) -> Seq<
    (Seq<Seq<char>>, PotModel),
> {
    if pot_at(store, at) is None {
        pot_entered(store, at, empty_pot())
    } else {
        store
    }
}

/// The store after the pot at `at` has been made the owner of the pot
/// named `name`: that pot is there in any case, in the folder of its tag,
/// and the owner, if it is stored and holds no lot of the tag yet, is
/// offered one lot of it under `uid`, with the tag's text as its custodian.
pub open spec fn subpot_added(
    store: Seq<(Seq<Seq<char>>, PotModel)>,
    at: Seq<Seq<char>>,
    name: Seq<char>,
    uid: u64,
) -> Seq<(Seq<Seq<char>>, PotModel)> {
    let tag = pot_tag(lowercase_of(name));
    let ensured = pot_ensured(store, child_place(at, tag));
    match pot_at(ensured, at) {
        None => ensured,
        Some(owner) => if holds_tag(owner.lots, tag) {
            ensured
        } else {
            pot_entered(
                ensured,
                at,
                PotModel { lots: lot_offered(owner.lots, lot_made(tag.text(), tag, 1, uid)), ..owner },
            )
        },
    }
}

/// What `add_subpot` tells: that the owner is missing, or whether a lot
/// was added to it.
pub open spec fn subpot_added_result(
    store: Seq<(Seq<Seq<char>>, PotModel)>,
    at: Seq<Seq<char>>,
    name: Seq<char>,
    uid: u64,
) -> Result<bool, ErrorModel> {
    let tag = pot_tag(lowercase_of(name));
    let ensured = pot_ensured(store, child_place(at, tag));
    match pot_at(ensured, at) {
        None => Err(ErrorModel::NotInitialized(at)),
        Some(owner) => Ok(!holds_tag(owner.lots, tag) && !uid_taken(owner.lots, uid)),
    }
}

/// The places held by a sequence of paths.
pub open spec fn places_of(paths: Seq<PotPath>) -> Seq<Seq<Seq<char>>> {
    Seq::new(paths.len(), |i: int| paths[i]@)
}

/// The nested pots held by a sequence of tags with their paths.
pub open spec fn subpots_of(v: Seq<(AssetTag, PotPath)>) -> Seq<(TagModel, Seq<Seq<char>>)> {
    Seq::new(v.len(), |i: int| (v[i].0@, v[i].1@))
}

/// The place of the pot that `tag` names below the pot at `at`. An empty
/// folder name is the pot at `at` itself.
pub open spec fn child_place(at: Seq<Seq<char>>, tag: TagModel) -> Seq<Seq<char>> {
    if tag.folder().len() == 0 {
        at
    } else {
        at.push(tag.folder())
    }
}

/// The nested pots among the assets of the pot at `at`, each with its
/// place.
pub open spec fn subpots_among(assets: Seq<TagModel>, at: Seq<Seq<char>>) -> Seq<
    (TagModel, Seq<Seq<char>>),
>
    decreases assets.len(),
{
    if assets.len() == 0 {
        Seq::empty()
    } else {
        let before = subpots_among(assets.drop_last(), at);
        if assets.last() is Pot {
            before.push((assets.last(), child_place(at, assets.last())))
        } else {
            before
        }
    }
}

/// The nested pots that the funded lots of the pot at `at` own.
pub open spec fn local_subpots(lots: Seq<LotModel>, at: Seq<Seq<char>>) -> Seq<
    (TagModel, Seq<Seq<char>>),
> {
    subpots_among(lot_assets_of(lots), at)
}

/// How many of `places` are not in the chain `resolving`: what a walk can
/// still enter.
pub open spec fn unresolved(places: Seq<Seq<Seq<char>>>, resolving: Seq<Seq<Seq<char>>>) -> nat
    decreases places.len(),
{
    if places.len() == 0 {
        0
    } else {
        unresolved(places.drop_last(), resolving) + if resolving.contains(places.last()) {
            0nat
        } else {
            1nat
        }
    }
}

/// A longer chain leaves no more places to enter.
pub proof fn lemma_unresolved_no_more(
    places: Seq<Seq<Seq<char>>>,
    resolving: Seq<Seq<Seq<char>>>,
    at: Seq<Seq<char>>,
)
    ensures
        unresolved(places, resolving.push(at)) <= unresolved(places, resolving),
    decreases places.len(),
{
    if places.len() > 0 {
        lemma_unresolved_no_more(places.drop_last(), resolving, at);
        if resolving.contains(places.last()) {
            let k = choose|k: int| 0 <= k < resolving.len() && resolving[k] == places.last();
            assert(resolving.push(at)[k] == places.last());
        }
    }
}

/// Entering a stored pot that is not in the chain leaves fewer places to
/// enter.
pub proof fn lemma_unresolved_fewer(
    places: Seq<Seq<Seq<char>>>,
    resolving: Seq<Seq<Seq<char>>>,
    at: Seq<Seq<char>>,
)
    requires
        places.contains(at),
        !resolving.contains(at),
    ensures
        unresolved(places, resolving.push(at)) < unresolved(places, resolving),
    decreases places.len(),
{
    let init = places.drop_last();
    lemma_unresolved_no_more(init, resolving, at);
    if places.last() == at {
        assert(resolving.push(at)[resolving.len() as int] == at);
    } else {
        let k = choose|k: int| 0 <= k < places.len() && places[k] == at;
        assert(init[k] == at);
        lemma_unresolved_fewer(init, resolving, at);
        if resolving.contains(places.last()) {
            let j = choose|j: int| 0 <= j < resolving.len() && resolving[j] == places.last();
            assert(resolving.push(at)[j] == places.last());
        }
    }
}

/// All nested pots below the pot at `at`: first those that the pot owns,
/// then, for each of them in turn, all nested pots below it. The walk stops
/// at a pot that is in the chain `resolving` and at a pot that is not
/// stored.
pub open spec fn deep_subpots_of(
    store: Seq<(Seq<Seq<char>>, PotModel)>,
    at: Seq<Seq<char>>,
    resolving: Seq<Seq<Seq<char>>>,
) -> Result<Seq<(TagModel, Seq<Seq<char>>)>, ErrorModel>
    decreases unresolved(places(store), resolving), 0nat, 0nat,
{
    if resolving.contains(at) {
        Err(ErrorModel::CycleDetected(at))
    } else if pot_at(store, at) is None {
        Err(ErrorModel::NotInitialized(at))
    } else {
        let locals = local_subpots(pot_at(store, at)->0.lots, at);
        proof {
            lemma_first_index_of(places(store), at);
            lemma_unresolved_fewer(places(store), resolving, at);
        }
        match deep_subpots_below(store, locals, resolving.push(at), locals.len()) {
            Err(e) => Err(e),
            Ok(deep) => Ok(locals + deep),
        }
    }
}

/// All nested pots below the first `k` of `locals`, pot after pot.
pub open spec fn deep_subpots_below(
    store: Seq<(Seq<Seq<char>>, PotModel)>,
    locals: Seq<(TagModel, Seq<Seq<char>>)>,
    resolving: Seq<Seq<Seq<char>>>,
    k: nat,
) -> Result<Seq<(TagModel, Seq<Seq<char>>)>, ErrorModel>
    decreases unresolved(places(store), resolving), 1nat, k,
{
    if k == 0 || k > locals.len() {
        Ok(Seq::empty())
    } else {
        match deep_subpots_below(store, locals, resolving, (k - 1) as nat) {
            Err(e) => Err(e),
            Ok(before) => match deep_subpots_of(store, locals[k - 1].1, resolving) {
                Err(e) => Err(e),
                Ok(deep) => Ok(before + deep),
            },
        }
    }
}

/// The assets held by a sequence of deep assets.
pub open spec fn deep_assets_in(v: Seq<DeepAsset>) -> Seq<(Seq<Seq<char>>, TagModel)> {
    Seq::new(v.len(), |i: int| v[i]@)
}

/// The assets among `assets` that are no nested pots, each as held by the
/// pot at `at`.
pub open spec fn assets_among(assets: Seq<TagModel>, at: Seq<Seq<char>>) -> Seq<
    (Seq<Seq<char>>, TagModel),
>
    decreases assets.len(),
{
    if assets.len() == 0 {
        Seq::empty()
    } else {
        let before = assets_among(assets.drop_last(), at);
        if assets.last() is Pot {
            before
        } else {
            before.push((at, assets.last()))
        }
    }
}

/// The assets of the funded lots of the pot at `at`, nested pots left out.
pub open spec fn local_assets(lots: Seq<LotModel>, at: Seq<Seq<char>>) -> Seq<
    (Seq<Seq<char>>, TagModel),
> {
    assets_among(lot_assets_of(lots), at)
}

/// The assets of the first `k` of the pots at `pots`, pot after pot.
pub open spec fn assets_over(
    store: Seq<(Seq<Seq<char>>, PotModel)>,
    pots: Seq<Seq<Seq<char>>>,
    k: nat,
) -> Result<Seq<(Seq<Seq<char>>, TagModel)>, ErrorModel>
    decreases k,
{
    if k == 0 || k > pots.len() {
        Ok(Seq::empty())
    } else {
        match assets_over(store, pots, (k - 1) as nat) {
            Err(e) => Err(e),
            Ok(before) => match pot_at(store, pots[k - 1]) {
                None => Err(ErrorModel::NotInitialized(pots[k - 1])),
                Some(pot) => Ok(before + local_assets(pot.lots, pots[k - 1])),
            },
        }
    }
}

/// The places of the pot at `at` and of the nested pots below it.
pub open spec fn places_below(at: Seq<Seq<char>>, subpots: Seq<(TagModel, Seq<Seq<char>>)>) -> Seq<
    Seq<Seq<char>>,
> {
    Seq::new(subpots.len() + 1, |i: int| if i == 0 {
        at
    } else {
        subpots[i - 1].1
    })
}

/// Every occurrence of a funded asset in the tree below `at`, nested pots
/// themselves left out: each asset with the place of the pot that holds
/// it, each occurrence once.
pub open spec fn deep_assets_of(store: Seq<(Seq<Seq<char>>, PotModel)>, at: Seq<Seq<char>>) -> Result<
    Seq<(Seq<Seq<char>>, TagModel)>,
    ErrorModel,
> {
    match deep_subpots_of(store, at, Seq::empty()) {
        Err(e) => Err(e),
        Ok(subpots) => match assets_over(
            store,
            places_below(at, subpots),
            (subpots.len() + 1) as nat,
        ) {
            Err(e) => Err(e),
            Ok(all) => Ok(unique(all)),
        },
    }
}

/// The assets of a sequence of occurrences, in order.
pub open spec fn tags_in(assets: Seq<(Seq<Seq<char>>, TagModel)>) -> Seq<TagModel> {
    Seq::new(assets.len(), |i: int| assets[i].1)
}

/// The funded assets in the tree below `at`, nested pots themselves left
/// out, each asset once.
pub open spec fn deep_lot_assets_of(
    store: Seq<(Seq<Seq<char>>, PotModel)>,
    at: Seq<Seq<char>>,
) -> Result<Seq<TagModel>, ErrorModel> {
    match deep_assets_of(store, at) {
        Err(e) => Err(e),
        Ok(assets) => Ok(unique(tags_in(assets))),
    }
}

/// A walk that has stopped below some of the nested pots stays stopped
/// however many more there are.
pub proof fn lemma_deep_subpots_stopped(
    store: Seq<(Seq<Seq<char>>, PotModel)>,
    locals: Seq<(TagModel, Seq<Seq<char>>)>,
    resolving: Seq<Seq<Seq<char>>>,
    j: nat,
    k: nat,
)
    requires
        j <= k <= locals.len(),
        deep_subpots_below(store, locals, resolving, j) is Err,
    ensures
        deep_subpots_below(store, locals, resolving, k) == deep_subpots_below(
            store,
            locals,
            resolving,
            j,
        ),
    decreases k,
{
    if j < k {
        lemma_deep_subpots_stopped(store, locals, resolving, j, (k - 1) as nat);
    }
}

/// A listing that has stopped at one of the pots stays stopped however
/// many more there are.
pub proof fn lemma_assets_over_stopped(
    store: Seq<(Seq<Seq<char>>, PotModel)>,
    pots: Seq<Seq<Seq<char>>>,
    j: nat,
    k: nat,
)
    requires
        j <= k <= pots.len(),
        assets_over(store, pots, j) is Err,
    ensures
        assets_over(store, pots, k) == assets_over(store, pots, j),
    decreases k,
{
    if j < k {
        lemma_assets_over_stopped(store, pots, j, (k - 1) as nat);
    }
}

/// The nested pots that the funded lots of `pot`, which lies at `at`, own.
pub fn read_local_subpots(pot: &Pot, at: &PotPath) -> (r: Vec<(AssetTag, PotPath)>)
    ensures
        subpots_of(r@) == local_subpots(pot@.lots, at@),
{
    let assets = pot.read_lot_assets();
    let mut r: Vec<(AssetTag, PotPath)> = Vec::new();
    let mut i: usize = 0;
    assert(tags_of(assets@).take(0) == Seq::<TagModel>::empty());
    while i < assets.len()
        invariant
            i <= assets.len(),
            tags_of(assets@) == lot_assets_of(pot@.lots),
            subpots_of(r@) == subpots_among(tags_of(assets@).take(i as int), at@),
        decreases assets.len() - i,
    {
        let ghost before = subpots_of(r@);
        proof {
            assert(tags_of(assets@).take(i as int + 1).drop_last() == tags_of(assets@).take(
                i as int,
            ));
            assert(tags_of(assets@).take(i as int + 1).last() == assets@[i as int]@);
        }
        let tag = &assets[i];
        if tag.is_subpot() {
            let path = at.extend(tag.as_folder_name());
            r.push((tag.clone(), path));
            assert(subpots_of(r@) == before.push((tag@, child_place(at@, tag@))));
        }
        i += 1;
    }
    assert(tags_of(assets@).take(i as int) == tags_of(assets@));
    r
}

/// The assets of the funded lots of `pot`, which lies at `at`, nested pots
/// left out.
pub fn read_local_assets(pot: &Pot, at: &PotPath) -> (r: Vec<DeepAsset>)
    ensures
        deep_assets_in(r@) == local_assets(pot@.lots, at@),
{
    let assets = pot.read_lot_assets();
    let mut r: Vec<DeepAsset> = Vec::new();
    let mut i: usize = 0;
    assert(tags_of(assets@).take(0) == Seq::<TagModel>::empty());
    while i < assets.len()
        invariant
            i <= assets.len(),
            tags_of(assets@) == lot_assets_of(pot@.lots),
            deep_assets_in(r@) == assets_among(tags_of(assets@).take(i as int), at@),
        decreases assets.len() - i,
    {
        let ghost before = deep_assets_in(r@);
        proof {
            assert(tags_of(assets@).take(i as int + 1).drop_last() == tags_of(assets@).take(
                i as int,
            ));
            assert(tags_of(assets@).take(i as int + 1).last() == assets@[i as int]@);
        }
        let tag = &assets[i];
        if !tag.is_subpot() {
            r.push(DeepAsset::new(at, tag));
            assert(deep_assets_in(r@) == before.push((at@, tag@)));
        }
        i += 1;
    }
    assert(tags_of(assets@).take(i as int) == tags_of(assets@));
    r
}

/// Whether the asset is among `assets`.
pub fn holds_asset(assets: &Vec<DeepAsset>, asset: &DeepAsset) -> (r: bool)
    ensures
        r == deep_assets_in(assets@).contains(asset@),
{
    let mut i: usize = 0;
    while i < assets.len()
        invariant
            i <= assets.len(),
            forall|j: int| 0 <= j < i ==> deep_assets_in(assets@)[j] != asset@,
        decreases assets.len() - i,
    {
        if assets[i].same_as(asset) {
            assert(deep_assets_in(assets@)[i as int] == asset@);
            return true;
        }
        i += 1;
    }
    false
}

/// Whether one of the paths leads to the place of `at`.
pub fn leads_to(paths: &Vec<PotPath>, at: &PotPath) -> (r: bool)
    ensures
        r == places_of(paths@).contains(at@),
{
    let mut i: usize = 0;
    while i < paths.len()
        invariant
            i <= paths.len(),
            forall|j: int| 0 <= j < i ==> places_of(paths@)[j] != at@,
        decreases paths.len() - i,
    {
        if paths[i].same_location(at) {
            assert(places_of(paths@)[i as int] == at@);
            return true;
        }
        i += 1;
    }
    false
}

/// The chain `paths` with `at` entered behind it.
pub fn chain_with(paths: &Vec<PotPath>, at: &PotPath) -> (r: Vec<PotPath>)
    ensures
        places_of(r@) == places_of(paths@).push(at@),
{
    let mut r: Vec<PotPath> = Vec::new();
    let mut i: usize = 0;
    while i < paths.len()
        invariant
            i <= paths.len(),
            places_of(r@) == places_of(paths@).take(i as int),
        decreases paths.len() - i,
    {
        let ghost before = places_of(r@);
        r.push(paths[i].clone());
        assert(places_of(r@) == before.push(paths@[i as int]@));
        i += 1;
        assert(places_of(paths@).take(i as int) == before.push(paths@[i as int - 1]@));
    }
    assert(places_of(paths@).take(i as int) == places_of(paths@));
    let ghost before = places_of(r@);
    r.push(at.clone());
    assert(places_of(r@) == before.push(at@));
    r
}

impl PotStore {
    /// A store without pots.
    pub fn new() -> (r: Self)
        ensures
            r@ == Seq::<(Seq<Seq<char>>, PotModel)>::empty(),
    {
        let r = PotStore { pots: Vec::new() };
        assert(r@ == Seq::<(Seq<Seq<char>>, PotModel)>::empty());
        r
    }

    /// Where the pot at the place of `path` is kept, if it is stored.
    pub fn position(&self, path: &PotPath) -> (r: Option<usize>)
        ensures
            match r {
                Some(p) => p < self@.len() && p == first_index_of(places(self@), path@),
                None => first_index_of(places(self@), path@) == self@.len(),
            },
    {
        proof {
            lemma_first_index_of(places(self@), path@);
        }
        let ghost first = first_index_of(places(self@), path@);
        let mut i: usize = 0;
        while i < self.pots.len()
            invariant
                i <= self.pots.len(),
                first == first_index_of(places(self@), path@),
                forall|j: int| 0 <= j < i ==> places(self@)[j] != path@,
                0 <= first <= self@.len(),
                first < self@.len() ==> places(self@)[first] == path@,
                forall|j: int| 0 <= j < first ==> places(self@)[j] != path@,
            decreases self.pots.len() - i,
        {
            if self.pots[i].path.same_location(path) {
                assert(places(self@)[i as int] == path@);
                return Some(i);
            }
            i += 1;
        }
        None
    }

    /// The pot at the place of `path`, if it is stored.
    pub fn get(&self, path: &PotPath) -> (r: Option<&Pot>)
        ensures
            match r {
                Some(pot) => pot_at(self@, path@) == Some(pot@),
                None => pot_at(self@, path@) is None,
            },
    {
        match self.position(path) {
            Some(p) => Some(&self.pots[p].pot),
            None => None,
        }
    }

    /// Stores `pot` at `path`, in place of the pot that was at that place.
    pub fn insert(&mut self, path: PotPath, pot: Pot)
        ensures
            final(self)@ == pot_entered(old(self)@, path@, pot@),
    {
        match self.position(&path) {
            Some(p) => {
                self.pots.set(p, StoredPot { path, pot });
                assert(self@ == pot_entered(old(self)@, path@, pot@));
            },
            None => {
                self.pots.push(StoredPot { path, pot });
                assert(self@ == pot_entered(old(self)@, path@, pot@));
            },
        }
    }

    /// Stores an empty pot at `path` where no pot is stored there.
    pub fn init_if_not(&mut self, path: &PotPath)
        ensures
            final(self)@ == pot_ensured(old(self)@, path@),
    {
        if self.position(path).is_none() {
            self.insert(path.clone(), Pot::new());
        }
    }

    /// All nested pots below the pot at `at`, each with the tag under which
    /// its owner holds it: first the pots that the pot at `at` owns, then
    /// what lies below each of them.
    pub fn read_deep_subpots(&self, at: &PotPath) -> (r: Result<
        Vec<(AssetTag, PotPath)>,
        ValuationError,
    >)
        ensures
            match r {
                Ok(v) => deep_subpots_of(self@, at@, Seq::empty()) == Ok::<
                    Seq<(TagModel, Seq<Seq<char>>)>,
                    ErrorModel,
                >(subpots_of(v@)),
                Err(e) => deep_subpots_of(self@, at@, Seq::empty()) == Err::<
                    Seq<(TagModel, Seq<Seq<char>>)>,
                    ErrorModel,
                >(e@),
            },
    {
        let resolving: Vec<PotPath> = Vec::new();
        assert(places_of(resolving@) == Seq::<Seq<Seq<char>>>::empty());
        self.deep_subpots_inside(at, &resolving)
    }

    /// The pot to read next, for a store that is filled pot by pot: the
    /// first pot that a walk from `root` needs and does not find. There is
    /// none where the walk comes to an end, or where it meets a cycle.
    pub fn next_to_load(&self, root: &PotPath) -> (r: Option<PotPath>)
        ensures
            match deep_subpots_of(self@, root@, Seq::empty()) {
                Err(ErrorModel::NotInitialized(place)) => r is Some && r->0@ == place,
                _ => r is None,
            },
    {
        match self.read_deep_subpots(root) {
            Err(ValuationError::NotInitialized(path)) => Some(path),
            _ => None,
        }
    }

    /// Adds to `assets` the assets of the pot at `path` that are not among
    /// them yet. Nothing is added where no pot is stored there.
    pub fn read_assets_into(&self, path: &PotPath, assets: &mut Vec<DeepAsset>) -> (r: Result<
        (),
        ValuationError,
    >)
        ensures
            match r {
                Ok(_) => pot_at(self@, path@) is Some && deep_assets_in(final(assets)@) == merged(
                    deep_assets_in(old(assets)@),
                    local_assets(pot_at(self@, path@)->0.lots, path@),
                ),
                Err(e) => pot_at(self@, path@) is None && e@ == ErrorModel::NotInitialized(path@)
                    && deep_assets_in(final(assets)@) == deep_assets_in(old(assets)@),
            },
    {
        let pot = match self.get(path) {
            None => {
                return Err(ValuationError::NotInitialized(path.clone()));
            },
            Some(pot) => pot,
        };
        let found = read_local_assets(pot, path);
        let ghost have = deep_assets_in(assets@);
        let ghost new = deep_assets_in(found@);
        let mut i: usize = 0;
        assert(new.take(0) == Seq::<(Seq<Seq<char>>, TagModel)>::empty());
        while i < found.len()
            invariant
                i <= found.len(),
                new == deep_assets_in(found@),
                deep_assets_in(assets@) == merged(have, new.take(i as int)),
            decreases found.len() - i,
        {
            let ghost before = deep_assets_in(assets@);
            proof {
                assert(new.take(i as int + 1).drop_last() == new.take(i as int));
                assert(new.take(i as int + 1).last() == found@[i as int]@);
            }
            if !holds_asset(assets, &found[i]) {
                assets.push(found[i].clone());
                assert(deep_assets_in(assets@) == before.push(found@[i as int]@));
            }
            i += 1;
        }
        assert(new.take(i as int) == new);
        Ok(())
    }

    /// Every occurrence of a funded asset in the tree below `at`, nested
    /// pots themselves left out, each occurrence once.
    pub fn read_deep_assets(&self, at: &PotPath) -> (r: Result<Vec<DeepAsset>, ValuationError>)
        ensures
            match r {
                Ok(v) => deep_assets_of(self@, at@) == Ok::<
                    Seq<(Seq<Seq<char>>, TagModel)>,
                    ErrorModel,
                >(deep_assets_in(v@)),
                Err(e) => deep_assets_of(self@, at@) == Err::<
                    Seq<(Seq<Seq<char>>, TagModel)>,
                    ErrorModel,
                >(e@),
            },
    {
        let subpots = match self.read_deep_subpots(at) {
            Err(e) => {
                return Err(e);
            },
            Ok(subpots) => subpots,
        };
        let ghost store = self@;
        let ghost pots = places_below(at@, subpots_of(subpots@));
        let ghost none = Seq::<(Seq<Seq<char>>, TagModel)>::empty();
        let count = subpots.len();
        let mut r: Vec<DeepAsset> = Vec::new();
        proof {
            assert(deep_assets_in(r@) == unique(none));
            assert(assets_over(store, pots, 0) == Ok::<
                Seq<(Seq<Seq<char>>, TagModel)>,
                ErrorModel,
            >(none));
            assert(pots[0] == at@);
        }
        match self.read_assets_into(at, &mut r) {
            Err(e) => {
                proof {
                    lemma_assets_over_stopped(store, pots, 1, (count + 1) as nat);
                }
                return Err(e);
            },
            Ok(_) => {},
        }
        let ghost mut all = none + local_assets(pot_at(store, at@)->0.lots, at@);
        proof {
            lemma_unique_merged(none, local_assets(pot_at(store, at@)->0.lots, at@));
        }
        let mut k: usize = 0;
        while k < count
            invariant
                k <= count,
                count == subpots.len(),
                store == self@,
                pots == places_below(at@, subpots_of(subpots@)),
                deep_subpots_of(store, at@, Seq::empty()) == Ok::<
                    Seq<(TagModel, Seq<Seq<char>>)>,
                    ErrorModel,
                >(subpots_of(subpots@)),
                assets_over(store, pots, (k + 1) as nat) == Ok::<
                    Seq<(Seq<Seq<char>>, TagModel)>,
                    ErrorModel,
                >(all),
                deep_assets_in(r@) == unique(all),
            decreases count - k,
        {
            let path = &subpots[k].1;
            assert(path@ == pots[k as int + 1]);
            match self.read_assets_into(path, &mut r) {
                Err(e) => {
                    proof {
                        lemma_assets_over_stopped(store, pots, (k + 2) as nat, (count + 1) as nat);
                    }
                    return Err(e);
                },
                Ok(_) => {},
            }
            proof {
                let found = local_assets(pot_at(store, path@)->0.lots, path@);
                lemma_unique_merged(all, found);
                all = all + found;
            }
            k += 1;
        }
        Ok(r)
    }

    /// The funded assets in the tree below `at`, nested pots themselves
    /// left out, each asset once.
    pub fn read_deep_lot_assets(&self, at: &PotPath) -> (r: Result<Vec<AssetTag>, ValuationError>)
        ensures
            match r {
                Ok(v) => deep_lot_assets_of(self@, at@) == Ok::<Seq<TagModel>, ErrorModel>(
                    tags_of(v@),
                ),
                Err(e) => deep_lot_assets_of(self@, at@) == Err::<Seq<TagModel>, ErrorModel>(e@),
            },
    {
        let assets = match self.read_deep_assets(at) {
            Err(e) => {
                return Err(e);
            },
            Ok(assets) => assets,
        };
        let ghost tags = tags_in(deep_assets_in(assets@));
        let mut r: Vec<AssetTag> = Vec::new();
        let mut i: usize = 0;
        assert(tags.take(0) == Seq::<TagModel>::empty());
        while i < assets.len()
            invariant
                i <= assets.len(),
                tags == tags_in(deep_assets_in(assets@)),
                tags_of(r@) == unique(tags.take(i as int)),
            decreases assets.len() - i,
        {
            let ghost before = tags_of(r@);
            proof {
                assert(tags.take(i as int + 1).drop_last() == tags.take(i as int));
                assert(tags.take(i as int + 1).last() == assets@[i as int]@.1);
            }
            if position_of(&r, &assets[i].asset_tag).is_none() {
                r.push(assets[i].asset_tag.clone());
                assert(tags_of(r@) == before.push(assets@[i as int]@.1));
            }
            i += 1;
        }
        assert(tags.take(i as int) == tags);
        Ok(r)
    }

    /// All nested pots below the pot at `at`, for a walk that is inside the
    /// pots of `resolving`.
    pub fn deep_subpots_inside(&self, at: &PotPath, resolving: &Vec<PotPath>) -> (r: Result<
        Vec<(AssetTag, PotPath)>,
        ValuationError,
    >)
        ensures
            match r {
                Ok(v) => deep_subpots_of(self@, at@, places_of(resolving@)) == Ok::<
                    Seq<(TagModel, Seq<Seq<char>>)>,
                    ErrorModel,
                >(subpots_of(v@)),
                Err(e) => deep_subpots_of(self@, at@, places_of(resolving@)) == Err::<
                    Seq<(TagModel, Seq<Seq<char>>)>,
                    ErrorModel,
                >(e@),
            },
        decreases unresolved(places(self@), places_of(resolving@)), 0nat, 0nat,
    {
        if leads_to(resolving, at) {
            return Err(ValuationError::CycleDetected(at.clone()));
        }
        let pot = match self.get(at) {
            Some(pot) => pot,
            None => {
                return Err(ValuationError::NotInitialized(at.clone()));
            },
        };
        let mut all = read_local_subpots(pot, at);
        let chain = chain_with(resolving, at);
        let count = all.len();
        let ghost locals = subpots_of(all@);
        let ghost store = self@;
        proof {
            lemma_first_index_of(places(store), at@);
            lemma_unresolved_fewer(places(store), places_of(resolving@), at@);
            assert(subpots_of(all@).take(count as int) == locals);
            assert(subpots_of(all@).skip(count as int) == Seq::<
                (TagModel, Seq<Seq<char>>),
            >::empty());
        }
        let mut k: usize = 0;
        while k < count
            invariant
                k <= count,
                count == locals.len(),
                count <= all.len(),
                store == self@,
                !places_of(resolving@).contains(at@),
                pot_at(store, at@) == Some(pot@),
                locals == local_subpots(pot@.lots, at@),
                subpots_of(all@).take(count as int) == locals,
                places_of(chain@) == places_of(resolving@).push(at@),
                unresolved(places(store), places_of(chain@)) < unresolved(
                    places(store),
                    places_of(resolving@),
                ),
                deep_subpots_below(store, locals, places_of(chain@), k as nat) == Ok::<
                    Seq<(TagModel, Seq<Seq<char>>)>,
                    ErrorModel,
                >(subpots_of(all@).skip(count as int)),
            decreases count - k,
        {
            let ghost before = subpots_of(all@);
            assert(before[k as int] == locals[k as int]);
            match self.deep_subpots_inside(&all[k].1, &chain) {
                Err(e) => {
                    proof {
                        lemma_deep_subpots_stopped(
                            store,
                            locals,
                            places_of(chain@),
                            (k + 1) as nat,
                            count as nat,
                        );
                    }
                    return Err(e);
                },
                Ok(deep) => {
                    let mut deep = deep;
                    let ghost more = subpots_of(deep@);
                    all.append(&mut deep);
                    proof {
                        assert(subpots_of(all@) == before + more);
                        assert(subpots_of(all@).take(count as int) == before.take(count as int));
                        assert(subpots_of(all@).skip(count as int) == before.skip(count as int)
                            + more);
                    }
                },
            }
            k += 1;
        }
        proof {
            assert(subpots_of(all@) == subpots_of(all@).take(count as int) + subpots_of(
                all@,
            ).skip(count as int));
        }
        Ok(all)
    }
}

/// Makes the pot at `at` the owner of the pot named `name`. The nested pot
/// lies in the folder of its tag, the name in lower case, and is stored
/// empty where it was missing. The owner gets one lot
/// of the pot's tag under `uid`, unless it holds the tag already or the
/// uid is taken. Tells whether the lot was added.
pub fn add_subpot_with_uid(store: &mut PotStore, at: &PotPath, name: &str, uid: u64) -> (r: Result<
    bool,
    ValuationError,
>)
    ensures
        final(store)@ == subpot_added(old(store)@, at@, name@, uid),
        match r {
            Ok(added) => subpot_added_result(old(store)@, at@, name@, uid) == Ok::<
                bool,
                ErrorModel,
            >(added),
            Err(e) => subpot_added_result(old(store)@, at@, name@, uid) == Err::<
                bool,
                ErrorModel,
            >(e@),
        },
{
    let tag = AssetTag::pot_from_name(name);
    let sub = at.extend(tag.as_folder_name());
    store.init_if_not(&sub);
    let owner = match store.get(at) {
        None => {
            return Err(ValuationError::NotInitialized(at.clone()));
        },
        Some(owner) => owner,
    };
    if owner.has_tag(&tag) {
        Ok(false)
    } else {
        let mut changed = owner.clone();
        let added = changed.add_lot_with_uid(tag.as_str(), &tag, 1, uid);
        store.insert(at.clone(), changed);
        Ok(added)
    }
}

/// Makes the pot at `at` the owner of the pot named `name`, with a lot
/// under a uid drawn at random. Tells whether the lot was added.
pub fn add_subpot(store: &mut PotStore, at: &PotPath, name: &str) -> (r: Result<
    bool,
    ValuationError,
>)
    ensures
        exists|u: u64|
            {
                &&& final(store)@ == #[trigger] subpot_added(old(store)@, at@, name@, u)
                &&& match r {
                    Ok(added) => subpot_added_result(old(store)@, at@, name@, u) == Ok::<
                        bool,
                        ErrorModel,
                    >(added),
                    Err(e) => subpot_added_result(old(store)@, at@, name@, u) == Err::<
                        bool,
                        ErrorModel,
                    >(e@),
                }
            },
{
    let uid = Lot::random_uid();
    add_subpot_with_uid(store, at, name, uid)
}

} // verus!
