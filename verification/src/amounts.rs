//! Amounts by asset: share counts, prices and market values.
//!
//! An amount is a whole number of the smallest unit that the caller keeps
//! books in. The list keeps its entries in the order in which their assets
//! were first entered.

use crate::asset_tag::{AssetTag, TagModel};
use crate::seqs::{first_index_of, lemma_first_index_of};
use vstd::prelude::*;

verus! {

/// The assets of a list of entries, in order.
pub open spec fn keys_of(entries: Seq<(TagModel, int)>) -> Seq<TagModel> {
    Seq::new(entries.len(), |i: int| entries[i].0)
}

/// The amount entered for `tag`: that of its first entry.
pub open spec fn lookup(entries: Seq<(TagModel, int)>, tag: TagModel) -> Option<int> {
    let i = first_index_of(keys_of(entries), tag);
    if i < entries.len() {
        Some(entries[i].1)
    } else {
        None
    }
}

/// The list with `amount` entered for `tag`: in place of the first entry for
/// `tag`, or at the end where there was none.
pub open spec fn entered(entries: Seq<(TagModel, int)>, tag: TagModel, amount: int) -> Seq<
    (TagModel, int),
> {
    let i = first_index_of(keys_of(entries), tag);
    if i < entries.len() {
        entries.update(i, (tag, amount))
    } else {
        entries.push((tag, amount))
    }
}

/// Amounts by asset, in the order in which the assets were first entered.
#[derive(Debug)]
pub struct Amounts {
    pub entries: Vec<(AssetTag, i128)>,
}

impl View for Amounts {
    type V = Seq<(TagModel, int)>;

    open spec fn view(&self) -> Seq<(TagModel, int)> {
        Seq::new(self.entries@.len(), |i: int| (self.entries@[i].0@, self.entries@[i].1 as int))
    }
}

impl Clone for Amounts {
    fn clone(&self) -> (r: Self)
        ensures
            r@ == self@,
    {
        let mut entries: Vec<(AssetTag, i128)> = Vec::new();
        let mut i: usize = 0;
        while i < self.entries.len()
            invariant
                i <= self.entries.len(),
                entries.len() == i,
                forall|j: int|
                    0 <= j < i ==> (#[trigger] entries@[j]).0@ == self.entries@[j].0@
                        && entries@[j].1 == self.entries@[j].1,
            decreases self.entries.len() - i,
        {
            entries.push((self.entries[i].0.clone(), self.entries[i].1));
            i += 1;
        }
        let r = Amounts { entries };
        assert(r@ =~= self@);
        r
    }
}

impl Amounts {
    /// The empty list.
    pub fn new() -> (r: Self)
        ensures
            r@ == Seq::<(TagModel, int)>::empty(),
    {
        let r = Amounts { entries: Vec::new() };
        assert(r@ == Seq::<(TagModel, int)>::empty());
        r
    }

    /// The number of entries.
    pub fn len(&self) -> (r: usize)
        ensures
            r == self@.len(),
    {
        self.entries.len()
    }

    /// The asset of entry `i`.
    pub fn tag_at(&self, i: usize) -> (r: &AssetTag)
        requires
            i < self@.len(),
        ensures
            r@ == self@[i as int].0,
    {
        &self.entries[i].0
    }

    /// The amount of entry `i`.
    pub fn amount_at(&self, i: usize) -> (r: i128)
        requires
            i < self@.len(),
        ensures
            r == self@[i as int].1,
    {
        self.entries[i].1
    }

    /// The position of the first entry for `tag`, if there is one.
    pub fn position(&self, tag: &AssetTag) -> (r: Option<usize>)
        ensures
            match r {
                Some(p) => p < self@.len() && p == first_index_of(keys_of(self@), tag@),
                None => first_index_of(keys_of(self@), tag@) == self@.len(),
            },
    {
        proof {
            lemma_first_index_of(keys_of(self@), tag@);
        }
        let mut i: usize = 0;
        while i < self.entries.len()
            invariant
                i <= self.entries.len(),
                forall|j: int| 0 <= j < i ==> keys_of(self@)[j] != tag@,
                0 <= first_index_of(keys_of(self@), tag@) <= self@.len(),
                first_index_of(keys_of(self@), tag@) < self@.len() ==> keys_of(self@)[first_index_of(
                    keys_of(self@),
                    tag@,
                )] == tag@,
                forall|j: int|
                    0 <= j < first_index_of(keys_of(self@), tag@) ==> keys_of(self@)[j] != tag@,
            decreases self.entries.len() - i,
        {
            if self.entries[i].0.has_tag(tag) {
                assert(keys_of(self@)[i as int] == tag@);
                return Some(i);
            }
            i += 1;
        }
        None
    }

    /// The amount entered for `tag`, if there is one.
    pub fn get(&self, tag: &AssetTag) -> (r: Option<i128>)
        ensures
            match r {
                Some(a) => lookup(self@, tag@) == Some(a as int),
                None => lookup(self@, tag@) is None,
            },
    {
        match self.position(tag) {
            Some(p) => Some(self.entries[p].1),
            None => None,
        }
    }

    /// Enters `amount` for `tag`, in place of what was entered for it
    /// before.
    pub fn insert(&mut self, tag: AssetTag, amount: i128)
        ensures
            final(self)@ == entered(old(self)@, tag@, amount as int),
    {
        match self.position(&tag) {
            Some(p) => {
                self.entries.set(p, (tag, amount));
                assert(self@ == entered(old(self)@, tag@, amount as int));
            },
            None => {
                self.entries.push((tag, amount));
                assert(self@ == entered(old(self)@, tag@, amount as int));
            },
        }
    }
}

} // verus!
