//! The order of assets in reports: equities first, then nested pots, then
//! cash; within a kind by text, character by character.

use crate::asset_tag::{tags_of, AssetTag, TagModel};
use crate::text::chars_of;
use vstd::prelude::*;

verus! {

/// Whether the text `a` stands before `b` or is `b`: at the first place
/// where they differ `a` has the lower character, or `a` ends first.
pub open spec fn text_precedes(a: Seq<char>, b: Seq<char>) -> bool
    decreases a.len(),
{
    if a.len() == 0 {
        true
    } else if b.len() == 0 {
        false
    } else if a[0] != b[0] {
        a[0] < b[0]
    } else {
        text_precedes(a.drop_first(), b.drop_first())
    }
}

/// The rank of a tag's kind.
pub open spec fn kind_rank(tag: TagModel) -> int {
    match tag {
        TagModel::Equity(_) => 0,
        TagModel::Pot(_) => 1,
        TagModel::Usd => 2,
    }
}

/// Whether the tag `a` stands before `b` or is `b`.
pub open spec fn tag_precedes(a: TagModel, b: TagModel) -> bool {
    kind_rank(a) < kind_rank(b) || (kind_rank(a) == kind_rank(b) && text_precedes(
        a.text(),
        b.text(),
    ))
}

/// Whether each tag stands before all that follow it.
pub open spec fn in_order(tags: Seq<TagModel>) -> bool {
    forall|i: int, j: int| 0 <= i < j < tags.len() ==> tag_precedes(tags[i], tags[j])
}

/// A text stands before itself.
pub proof fn lemma_text_precedes_itself(a: Seq<char>)
    ensures
        text_precedes(a, a),
    decreases a.len(),
{
    if a.len() > 0 {
        lemma_text_precedes_itself(a.drop_first());
    }
}

/// Of two texts one stands before the other.
pub proof fn lemma_text_precedes_either(a: Seq<char>, b: Seq<char>)
    ensures
        text_precedes(a, b) || text_precedes(b, a),
    decreases a.len(),
{
    if a.len() > 0 && b.len() > 0 && a[0] == b[0] {
        lemma_text_precedes_either(a.drop_first(), b.drop_first());
    }
}

/// What stands before a text stands before all that the text stands
/// before.
pub proof fn lemma_text_precedes_chain(a: Seq<char>, b: Seq<char>, c: Seq<char>)
    requires
        text_precedes(a, b),
        text_precedes(b, c),
    ensures
        text_precedes(a, c),
    decreases a.len(),
{
    if a.len() > 0 && b.len() > 0 && c.len() > 0 && a[0] == b[0] && b[0] == c[0] {
        lemma_text_precedes_chain(a.drop_first(), b.drop_first(), c.drop_first());
    }
}

/// Two texts that stand before each other are one text.
pub proof fn lemma_text_precedes_both(a: Seq<char>, b: Seq<char>)
    requires
        text_precedes(a, b),
        text_precedes(b, a),
    ensures
        a == b,
    decreases a.len(),
{
    if a.len() > 0 && b.len() > 0 {
        lemma_text_precedes_both(a.drop_first(), b.drop_first());
        assert(a == seq![a[0]] + a.drop_first());
        assert(b == seq![b[0]] + b.drop_first());
    } else {
        assert(a == b);
    }
}

/// Of two tags one stands before the other.
pub proof fn lemma_tag_precedes_either(a: TagModel, b: TagModel)
    ensures
        tag_precedes(a, b) || tag_precedes(b, a),
{
    lemma_text_precedes_either(a.text(), b.text());
}

/// What stands before a tag stands before all that the tag stands before.
pub proof fn lemma_tag_precedes_chain(a: TagModel, b: TagModel, c: TagModel)
    requires
        tag_precedes(a, b),
        tag_precedes(b, c),
    ensures
        tag_precedes(a, c),
{
    if kind_rank(a) == kind_rank(b) && kind_rank(b) == kind_rank(c) {
        lemma_text_precedes_chain(a.text(), b.text(), c.text());
    }
}

/// Two tags that stand before each other are one tag.
pub proof fn lemma_tag_precedes_both(a: TagModel, b: TagModel)
    requires
        tag_precedes(a, b),
        tag_precedes(b, a),
    ensures
        a == b,
{
    lemma_text_precedes_both(a.text(), b.text());
}

/// Whether the text `a` stands before `b` or is `b`.
pub fn text_before(a: &str, b: &str) -> (r: bool)
    ensures
        r == text_precedes(a@, b@),
{
    let x = chars_of(a);
    let y = chars_of(b);
    let mut i: usize = 0;
    assert(x@.skip(0) == x@);
    assert(y@.skip(0) == y@);
    while i < x.len()
        invariant
            i <= x.len(),
            i <= y.len(),
            x@ == a@,
            y@ == b@,
            text_precedes(x@.skip(i as int), y@.skip(i as int)) == text_precedes(a@, b@),
        decreases x.len() - i,
    {
        proof {
            assert(x@.skip(i as int)[0] == x@[i as int]);
            assert(x@.skip(i as int).drop_first() == x@.skip(i as int + 1));
            if i < y.len() {
                assert(y@.skip(i as int)[0] == y@[i as int]);
                assert(y@.skip(i as int).drop_first() == y@.skip(i as int + 1));
            }
        }
        if i >= y.len() {
            return false;
        }
        if x[i] != y[i] {
            return x[i] < y[i];
        }
        i += 1;
    }
    true
}

/// Whether the tag `a` stands before `b` or is `b`.
pub fn tag_before(a: &AssetTag, b: &AssetTag) -> (r: bool)
    ensures
        r == tag_precedes(a@, b@),
{
    let rank_a: u8 = if a.is_equity() {
        0
    } else if a.is_subpot() {
        1
    } else {
        2
    };
    let rank_b: u8 = if b.is_equity() {
        0
    } else if b.is_subpot() {
        1
    } else {
        2
    };
    if rank_a != rank_b {
        rank_a < rank_b
    } else {
        text_before(a.as_str(), b.as_str())
    }
}

/// The tags in order: the same tags, each as often as before, each before
/// all that follow it.
pub fn sorted(tags: &Vec<AssetTag>) -> (r: Vec<AssetTag>)
    ensures
        in_order(tags_of(r@)),
        tags_of(r@).to_multiset() == tags_of(tags@).to_multiset(),
{
    let mut r: Vec<AssetTag> = Vec::new();
    let ghost all = tags_of(tags@);
    let mut i: usize = 0;
    assert(all.take(0) == Seq::<TagModel>::empty());
    assert(tags_of(r@) == Seq::<TagModel>::empty());
    while i < tags.len()
        invariant
            i <= tags.len(),
            all == tags_of(tags@),
            r.len() == i,
            in_order(tags_of(r@)),
            tags_of(r@).to_multiset() == all.take(i as int).to_multiset(),
        decreases tags.len() - i,
    {
        let tag = &tags[i];
        let ghost before = tags_of(r@);
        let mut j: usize = 0;
        while j < r.len() && tag_before(&r[j], tag)
            invariant
                j <= r.len(),
                before == tags_of(r@),
                forall|k: int| 0 <= k < j ==> tag_precedes(before[k], tag@),
            decreases r.len() - j,
        {
            j += 1;
        }
        r.insert(j, tag.clone());
        proof {
            let now = tags_of(r@);
            assert(now == before.insert(j as int, tag@));
            assert(all.take(i as int + 1) == all.take(i as int).push(tag@));
            vstd::seq_lib::to_multiset_insert(before, j as int, tag@);
            vstd::seq_lib::to_multiset_build(all.take(i as int), tag@);
            assert(now.to_multiset() == all.take(i as int + 1).to_multiset());
            assert forall|a: int, b: int| 0 <= a < b < now.len() implies tag_precedes(
                now[a],
                now[b],
            ) by {
                if b < j {
                    assert(now[a] == before[a] && now[b] == before[b]);
                } else if b == j {
                    assert(now[a] == before[a]);
                } else if a < j {
                    assert(now[a] == before[a] && now[b] == before[b - 1]);
                } else if a == j {
                    assert(now[b] == before[b - 1]);
                    assert(!tag_precedes(before[j as int], tag@));
                    lemma_tag_precedes_either(before[j as int], tag@);
                    if b - 1 > j {
                        lemma_tag_precedes_chain(tag@, before[j as int], before[b - 1]);
                    }
                } else {
                    assert(now[a] == before[a - 1] && now[b] == before[b - 1]);
                }
            }
        }
        i += 1;
    }
    assert(all.take(i as int) == all);
    r
}

} // verus!
