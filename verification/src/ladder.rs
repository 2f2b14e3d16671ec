//! The ladder: an ordered list of target assets and the ramp that weights
//! them. Position 0 is the lowest target; later positions weigh more.

use crate::asset_tag::{position_of, tags_of, AssetTag, TagModel};
use crate::ramp::Ramp;
use crate::seqs::{first_index_of, lemma_first_index_of};
use vstd::prelude::*;

verus! {

/// The order after `t` has moved one place up: it is taken out and put back
/// one place later, at most at the end. Without `t` nothing changes.
pub open spec fn promoted(s: Seq<TagModel>, t: TagModel) -> Seq<TagModel> {
    let p = first_index_of(s, t);
    if p < s.len() {
        s.remove(p).insert(promoted_index(s, t), t)
    } else {
        s
    }
}

/// Where `t` stands after `promoted`.
pub open spec fn promoted_index(s: Seq<TagModel>, t: TagModel) -> int {
    let p = first_index_of(s, t);
    if p + 1 < s.len() {
        p + 1
    } else {
        s.len() - 1
    }
}

/// The order after `t` has moved one place down, at most to the front.
/// Without `t` nothing changes.
pub open spec fn demoted(s: Seq<TagModel>, t: TagModel) -> Seq<TagModel> {
    let p = first_index_of(s, t);
    if p < s.len() {
        s.remove(p).insert(demoted_index(s, t), t)
    } else {
        s
    }
}

/// Where `t` stands after `demoted`.
pub open spec fn demoted_index(s: Seq<TagModel>, t: TagModel) -> int {
    let p = first_index_of(s, t);
    if p > 0 {
        p - 1
    } else {
        0
    }
}

/// Taking an element out and putting it back elsewhere keeps the elements
/// distinct.
pub proof fn lemma_moved_distinct(s: Seq<TagModel>, from: int, to: int)
    requires
        s.no_duplicates(),
        0 <= from < s.len(),
        0 <= to < s.len(),
    ensures
        s.remove(from).insert(to, s[from]).no_duplicates(),
        s.remove(from).insert(to, s[from]).to_multiset() == s.to_multiset(),
{
    let moved = s.remove(from).insert(to, s[from]);
    vstd::seq_lib::to_multiset_remove(s, from);
    vstd::seq_lib::to_multiset_insert(s.remove(from), to, s[from]);
    s.to_multiset_ensures();
    assert(s.to_multiset().count(s[from]) > 0);
    assert(moved.to_multiset() =~= s.to_multiset());
    s.lemma_multiset_has_no_duplicates();
    moved.lemma_multiset_has_no_duplicates_conv();
}

/// Promoting and demoting keep the targets distinct and keep all of them.
pub proof fn lemma_moves_keep_targets(s: Seq<TagModel>, t: TagModel)
    requires
        s.no_duplicates(),
    ensures
        promoted(s, t).no_duplicates(),
        demoted(s, t).no_duplicates(),
        promoted(s, t).to_multiset() == s.to_multiset(),
        demoted(s, t).to_multiset() == s.to_multiset(),
{
    lemma_first_index_of(s, t);
    let p = first_index_of(s, t);
    if p < s.len() {
        lemma_moved_distinct(s, p, promoted_index(s, t));
        lemma_moved_distinct(s, p, demoted_index(s, t));
    }
}

/// Promoting a target and then demoting it restores the order, unless the
/// target stood highest among several: there the promotion changes nothing
/// and the demotion still moves it down.
pub proof fn lemma_promote_then_demote(s: Seq<TagModel>, t: TagModel)
    requires
        s.no_duplicates(),
        !s.contains(t) || first_index_of(s, t) + 1 < s.len() || s.len() == 1,
    ensures
        demoted(promoted(s, t), t) == s,
{
    lemma_first_index_of(s, t);
    let p = first_index_of(s, t);
    let up = promoted(s, t);
    lemma_first_index_of(up, t);
    if !s.contains(t) {
    } else if s.len() == 1 {
        assert(up == s);
        assert(s.remove(0).insert(0, t) == s);
    } else {
        assert(up[p + 1] == t);
        assert forall|j: int| 0 <= j < p + 1 implies up[j] != t by {
            if j == p {
                assert(up[p] == s[p + 1]);
            } else {
                assert(up[j] == s[j]);
            }
        }
        assert(first_index_of(up, t) == p + 1);
        assert(up.remove(p + 1).insert(p, t) == s);
    }
}

/// Demoting a target and then promoting it restores the order, unless the
/// target stood lowest among several: there the demotion changes nothing
/// and the promotion still moves it up.
pub proof fn lemma_demote_then_promote(s: Seq<TagModel>, t: TagModel)
    requires
        s.no_duplicates(),
        !s.contains(t) || first_index_of(s, t) > 0 || s.len() == 1,
    ensures
        promoted(demoted(s, t), t) == s,
{
    lemma_first_index_of(s, t);
    let p = first_index_of(s, t);
    let down = demoted(s, t);
    lemma_first_index_of(down, t);
    if !s.contains(t) {
    } else if s.len() == 1 {
        assert(down == s);
        assert(s.remove(0).insert(0, t) == s);
    } else {
        assert(down[p - 1] == t);
        assert forall|j: int| 0 <= j < p - 1 implies down[j] != t by {
            assert(down[j] == s[j]);
        }
        assert(first_index_of(down, t) == p - 1);
        assert(down.remove(p - 1).insert(p, t) == s);
    }
}

/// An ordered list of distinct target assets and their ramp.
#[derive(Debug)]
pub struct Ladder {
    pub targets: Vec<AssetTag>,
    pub ramp: Ramp,
}

impl Ladder {
    /// The targets, lowest first.
    pub open spec fn order(&self) -> Seq<TagModel> {
        tags_of(self.targets@)
    }

    /// No target occurs twice.
    pub open spec fn well_formed(&self) -> bool {
        self.order().no_duplicates()
    }

    /// The targets from the lowest weight to the highest.
    pub fn target_symbols_ascending(&self) -> (r: Vec<AssetTag>)
        ensures
            tags_of(r@) == self.order(),
    {
        let mut r: Vec<AssetTag> = Vec::new();
        let mut i: usize = 0;
        while i < self.targets.len()
            invariant
                i <= self.targets.len(),
                tags_of(r@) == self.order().take(i as int),
            decreases self.targets.len() - i,
        {
            let ghost before = tags_of(r@);
            r.push(self.targets[i].clone());
            assert(tags_of(r@) == before.push(self.targets@[i as int]@));
            i += 1;
            assert(self.order().take(i as int) == before.push(self.targets@[i as int - 1]@));
        }
        assert(self.order().take(i as int) == self.order());
        r
    }

    /// The targets from the highest weight to the lowest: the order in which
    /// reports show them.
    pub fn target_symbols_descending(&self) -> (r: Vec<AssetTag>)
        ensures
            tags_of(r@) == self.order().reverse(),
    {
        let mut r: Vec<AssetTag> = Vec::new();
        let n = self.targets.len();
        let mut i: usize = 0;
        while i < n
            invariant
                n == self.targets.len(),
                i <= n,
                tags_of(r@) == self.order().reverse().take(i as int),
            decreases n - i,
        {
            let ghost before = tags_of(r@);
            r.push(self.targets[n - 1 - i].clone());
            assert(tags_of(r@) == before.push(self.targets@[n - 1 - i]@));
            i += 1;
            assert(self.order().reverse().take(i as int) == before.push(
                self.targets@[n - i as int]@,
            ));
        }
        assert(self.order().reverse().take(i as int) == self.order().reverse());
        r
    }

    /// The targets as a set: each target once, in the order of its first
    /// occurrence.
    pub fn target_symbols(&self) -> (r: Vec<AssetTag>)
        ensures
            tags_of(r@).no_duplicates(),
            tags_of(r@).to_set() == self.order().to_set(),
            self.well_formed() ==> tags_of(r@) == self.order(),
    {
        let mut r: Vec<AssetTag> = Vec::new();
        let mut i: usize = 0;
        while i < self.targets.len()
            invariant
                i <= self.targets.len(),
                tags_of(r@).no_duplicates(),
                tags_of(r@).to_set() == self.order().take(i as int).to_set(),
                self.well_formed() ==> tags_of(r@) == self.order().take(i as int),
            decreases self.targets.len() - i,
        {
            let ghost before = tags_of(r@);
            let ghost t = self.targets@[i as int]@;
            proof {
                assert(self.order().take(i as int + 1) == self.order().take(i as int).push(t));
                self.order().take(i as int).lemma_push_to_set_commute(t);
            }
            if position_of(&r, &self.targets[i]).is_none() {
                r.push(self.targets[i].clone());
                proof {
                    assert(tags_of(r@) == before.push(t));
                    before.lemma_push_to_set_commute(t);
                }
            } else {
                proof {
                    assert(before.to_set().contains(t));
                    assert(before.to_set().insert(t) == before.to_set());
                    if self.well_formed() {
                        let k = choose|k: int| 0 <= k < before.len() && before[k] == t;
                        assert(self.order()[k] == self.order()[i as int]);
                    }
                }
            }
            i += 1;
        }
        assert(self.order().take(i as int) == self.order());
        r
    }

    /// Moves `asset` one place up, towards a higher weight, and tells where
    /// it stands now. A target that is already highest stays. Tells `None`
    /// and changes nothing where `asset` is no target.
    pub fn promote_target(&mut self, asset: &AssetTag) -> (r: Option<usize>)
        ensures
            final(self).ramp == old(self).ramp,
            final(self).order() == promoted(old(self).order(), asset@),
            old(self).order().contains(asset@) ==> r is Some && r->0 == promoted_index(
                old(self).order(),
                asset@,
            ),
            !old(self).order().contains(asset@) ==> r is None,
            old(self).well_formed() ==> final(self).well_formed(),
    {
        let ghost s = self.order();
        proof {
            lemma_first_index_of(s, asset@);
            if s.no_duplicates() {
                lemma_moves_keep_targets(s, asset@);
            }
        }
        match position_of(&self.targets, asset) {
            Some(position) => {
                self.targets.remove(position);
                let new_position = if position + 1 < self.targets.len() {
                    position + 1
                } else {
                    self.targets.len()
                };
                self.targets.insert(new_position, asset.clone());
                assert(self.order() == s.remove(position as int).insert(new_position as int, asset@));
                Some(new_position)
            },
            None => None,
        }
    }

    /// Moves `asset` one place down, towards a lower weight, and tells where
    /// it stands now. A target that is already lowest stays. Tells `None`
    /// and changes nothing where `asset` is no target.
    pub fn demote_target(&mut self, asset: &AssetTag) -> (r: Option<usize>)
        ensures
            final(self).ramp == old(self).ramp,
            final(self).order() == demoted(old(self).order(), asset@),
            old(self).order().contains(asset@) ==> r is Some && r->0 == demoted_index(
                old(self).order(),
                asset@,
            ),
            !old(self).order().contains(asset@) ==> r is None,
            old(self).well_formed() ==> final(self).well_formed(),
    {
        let ghost s = self.order();
        proof {
            lemma_first_index_of(s, asset@);
            if s.no_duplicates() {
                lemma_moves_keep_targets(s, asset@);
            }
        }
        match position_of(&self.targets, asset) {
            Some(position) => {
                self.targets.remove(position);
                let new_position = if position > 0 {
                    position - 1
                } else {
                    0
                };
                self.targets.insert(new_position, asset.clone());
                assert(self.order() == s.remove(position as int).insert(new_position as int, asset@));
                Some(new_position)
            },
            None => None,
        }
    }
}

} // verus!
