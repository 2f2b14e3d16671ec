//! The stored list of targets: how it is read, written and edited.
//!
//! The list is stored one target to a line, the lowest target first.

use crate::asset_tag::{
    position_of, tag_of, tags_of, AssetTag, TagModel,
};
use crate::ladder::Ladder;
use crate::ramp::{ramp_of, Ramp};
use crate::text::{
    join, joined, lemma_split_joined, lowercase_of, split, split_on, texts_of, trim, trim_of,
};
use crate::seqs::{first_index_of, lemma_first_index_of};
use vstd::prelude::*;
use vstd::string::*;

verus! {

/// The tags that the pieces of a text stand for, each piece trimmed.
pub open spec fn symbols_read(pieces: Seq<Seq<char>>) -> Seq<TagModel> {
    Seq::new(pieces.len(), |i: int| tag_of(trim_of(pieces[i])))
}

/// A line that holds no target: it is empty, or nothing is left of it
/// after trimming.
pub open spec fn is_blank(line: Seq<char>) -> bool {
    line.len() == 0 || trim_of(line).len() == 0
}

/// The targets that the lines of a stored list stand for: one for each
/// line that is not blank.
pub open spec fn targets_read(lines: Seq<Seq<char>>) -> Seq<TagModel>
    decreases lines.len(),
{
    if lines.len() == 0 {
        Seq::empty()
    } else {
        let before = targets_read(lines.drop_last());
        if is_blank(lines.last()) {
            before
        } else {
            before.push(tag_of(trim_of(lines.last())))
        }
    }
}

/// The texts of the tags, in order.
pub open spec fn tag_texts(tags: Seq<TagModel>) -> Seq<Seq<char>> {
    Seq::new(tags.len(), |i: int| tags[i].text())
}

/// The text under which a list of targets is stored.
pub open spec fn targets_written(tags: Seq<TagModel>) -> Seq<char> {
    joined(tag_texts(tags), seq!['\n'])
}

/// The targets after the new ones have been put in front of them. A new
/// target that is already there is left out; the others keep their order.
pub open spec fn targets_added(targets: Seq<TagModel>, new: Seq<TagModel>) -> Seq<TagModel>
    decreases new.len(),
{
    if new.len() == 0 {
        targets
    } else {
        let rest = targets_added(targets, new.drop_first());
        if rest.contains(new[0]) {
            rest
        } else {
            seq![new[0]] + rest
        }
    }
}

/// The sequence without the first occurrence of `t`.
pub open spec fn without_first(s: Seq<TagModel>, t: TagModel) -> Seq<TagModel> {
    let p = first_index_of(s, t);
    if p < s.len() {
        s.remove(p)
    } else {
        s
    }
}

/// The targets after each of `gone`, in turn, has been taken out once.
pub open spec fn targets_removed(targets: Seq<TagModel>, gone: Seq<TagModel>) -> Seq<TagModel>
    decreases gone.len(),
{
    if gone.len() == 0 {
        targets
    } else {
        targets_removed(without_first(targets, gone[0]), gone.drop_first())
    }
}

/// Adding targets keeps the targets distinct.
pub proof fn lemma_added_distinct(targets: Seq<TagModel>, new: Seq<TagModel>)
    requires
        targets.no_duplicates(),
    ensures
        targets_added(targets, new).no_duplicates(),
    decreases new.len(),
{
    if new.len() > 0 {
        lemma_added_distinct(targets, new.drop_first());
        let rest = targets_added(targets, new.drop_first());
        if !rest.contains(new[0]) {
            let all = seq![new[0]] + rest;
            assert forall|i: int, j: int| 0 <= i < all.len() && 0 <= j < all.len() && i != j implies all[i]
                != all[j] by {
                if i > 0 && j > 0 {
                    assert(all[i] == rest[i - 1] && all[j] == rest[j - 1]);
                } else if i == 0 {
                    assert(all[j] == rest[j - 1]);
                } else {
                    assert(all[i] == rest[i - 1]);
                }
            }
        }
    }
}

/// Removing targets keeps the targets distinct.
pub proof fn lemma_removed_distinct(targets: Seq<TagModel>, gone: Seq<TagModel>)
    requires
        targets.no_duplicates(),
    ensures
        targets_removed(targets, gone).no_duplicates(),
    decreases gone.len(),
{
    if gone.len() > 0 {
        lemma_first_index_of(targets, gone[0]);
        let p = first_index_of(targets, gone[0]);
        let next = without_first(targets, gone[0]);
        if p < targets.len() {
            assert forall|i: int, j: int|
                0 <= i < next.len() && 0 <= j < next.len() && i != j implies next[i] != next[j] by {
                let a = if i < p {
                    i
                } else {
                    i + 1
                };
                let b = if j < p {
                    j
                } else {
                    j + 1
                };
                assert(next[i] == targets[a] && next[j] == targets[b]);
            }
        }
        lemma_removed_distinct(next, gone.drop_first());
    }
}

/// Reads the tags of a list of symbols separated by commas.
pub fn parse_symbols(symbols: &str) -> (r: Vec<AssetTag>)
    ensures
        tags_of(r@) == symbols_read(split_on(symbols@, ',')),
{
    let pieces = split(symbols, ',');
    let mut r: Vec<AssetTag> = Vec::new();
    let mut i: usize = 0;
    while i < pieces.len()
        invariant
            i <= pieces.len(),
            texts_of(pieces@) == split_on(symbols@, ','),
            tags_of(r@) == symbols_read(texts_of(pieces@)).take(i as int),
        decreases pieces.len() - i,
    {
        let ghost before = tags_of(r@);
        let tag = AssetTag::from(trim(pieces[i].as_str()));
        r.push(tag);
        proof {
            assert(texts_of(pieces@)[i as int] == pieces@[i as int]@);
            assert(tags_of(r@) == before.push(tag@));
            assert(symbols_read(texts_of(pieces@)).take(i as int + 1) == before.push(tag@));
        }
        i += 1;
    }
    assert(symbols_read(texts_of(pieces@)).take(i as int) == symbols_read(texts_of(pieces@)));
    r
}

/// Puts the new targets in front of the list, leaving out those that are
/// already there, and tells whether the list has changed.
pub fn add_target_tags(targets: &mut Vec<AssetTag>, new: &Vec<AssetTag>) -> (changed: bool)
    ensures
        tags_of(final(targets)@) == targets_added(tags_of(old(targets)@), tags_of(new@)),
        changed == (tags_of(final(targets)@) != tags_of(old(targets)@)),
        changed == (final(targets).len() > old(targets).len()),
        tags_of(old(targets)@).no_duplicates() ==> tags_of(final(targets)@).no_duplicates(),
{
    let ghost start = tags_of(targets@);
    proof {
        if start.no_duplicates() {
            lemma_added_distinct(start, tags_of(new@));
        }
    }
    let ghost all = tags_of(new@);
    let length_before = targets.len();
    let mut i: usize = new.len();
    assert(all.skip(i as int) == Seq::<TagModel>::empty());
    while i > 0
        invariant
            i <= new.len(),
            all == tags_of(new@),
            tags_of(targets@) == targets_added(start, all.skip(i as int)),
            targets.len() >= length_before,
            length_before == start.len(),
            targets.len() == length_before ==> tags_of(targets@) == start,
        decreases i,
    {
        i -= 1;
        let tag = &new[i];
        let ghost rest = tags_of(targets@);
        proof {
            assert(all.skip(i as int).drop_first() == all.skip(i as int + 1));
            assert(all.skip(i as int)[0] == tag@);
        }
        if position_of(targets, tag).is_none() {
            targets.insert(0, tag.clone());
            assert(tags_of(targets@) == seq![tag@] + rest);
        }
    }
    assert(all.skip(0) == all);
    targets.len() > length_before
}

/// Takes each of `gone` out of the list once, and tells whether the list
/// has changed.
pub fn remove_target_tags(targets: &mut Vec<AssetTag>, gone: &Vec<AssetTag>) -> (changed: bool)
    ensures
        tags_of(final(targets)@) == targets_removed(tags_of(old(targets)@), tags_of(gone@)),
        changed == (tags_of(final(targets)@) != tags_of(old(targets)@)),
        changed == (final(targets).len() < old(targets).len()),
        tags_of(old(targets)@).no_duplicates() ==> tags_of(final(targets)@).no_duplicates(),
{
    let ghost start = tags_of(targets@);
    proof {
        if start.no_duplicates() {
            lemma_removed_distinct(start, tags_of(gone@));
        }
    }
    let ghost all = tags_of(gone@);
    let length_before = targets.len();
    let mut i: usize = 0;
    assert(all.skip(0) == all);
    while i < gone.len()
        invariant
            i <= gone.len(),
            all == tags_of(gone@),
            targets_removed(tags_of(targets@), all.skip(i as int)) == targets_removed(start, all),
            targets.len() <= length_before,
            length_before == start.len(),
            targets.len() == length_before ==> tags_of(targets@) == start,
        decreases gone.len() - i,
    {
        let tag = &gone[i];
        let ghost now = tags_of(targets@);
        proof {
            assert(all.skip(i as int).drop_first() == all.skip(i as int + 1));
            assert(all.skip(i as int)[0] == tag@);
            lemma_first_index_of(now, tag@);
        }
        match position_of(targets, tag) {
            Some(index) => {
                targets.remove(index);
                assert(tags_of(targets@) == now.remove(index as int));
            },
            None => {},
        }
        i += 1;
    }
    assert(all.skip(i as int) == Seq::<TagModel>::empty());
    targets.len() < length_before
}

/// Puts the targets named in `symbols`, a list separated by commas, in
/// front of the list, and tells whether the list has changed.
pub fn add_targets(targets: &mut Vec<AssetTag>, symbols: &str) -> (changed: bool)
    ensures
        tags_of(final(targets)@) == targets_added(
            tags_of(old(targets)@),
            symbols_read(split_on(symbols@, ',')),
        ),
        changed == (tags_of(final(targets)@) != tags_of(old(targets)@)),
        tags_of(old(targets)@).no_duplicates() ==> tags_of(final(targets)@).no_duplicates(),
{
    let new = parse_symbols(symbols);
    add_target_tags(targets, &new)
}

/// Takes the targets named in `symbols`, a list separated by commas, out
/// of the list, and tells whether the list has changed.
pub fn remove_targets(targets: &mut Vec<AssetTag>, symbols: &str) -> (changed: bool)
    ensures
        tags_of(final(targets)@) == targets_removed(
            tags_of(old(targets)@),
            symbols_read(split_on(symbols@, ',')),
        ),
        changed == (tags_of(final(targets)@) != tags_of(old(targets)@)),
        tags_of(old(targets)@).no_duplicates() ==> tags_of(final(targets)@).no_duplicates(),
{
    let gone = parse_symbols(symbols);
    remove_target_tags(targets, &gone)
}

/// Reads a stored list of targets: one target for each line that is not
/// blank.
pub fn read_targets(text: &str) -> (r: Vec<AssetTag>)
    ensures
        tags_of(r@) == targets_read(split_on(text@, '\n')),
{
    let lines = split(text, '\n');
    let mut r: Vec<AssetTag> = Vec::new();
    let mut i: usize = 0;
    assert(texts_of(lines@).take(0) == Seq::<Seq<char>>::empty());
    while i < lines.len()
        invariant
            i <= lines.len(),
            texts_of(lines@) == split_on(text@, '\n'),
            tags_of(r@) == targets_read(texts_of(lines@).take(i as int)),
        decreases lines.len() - i,
    {
        let ghost before = tags_of(r@);
        proof {
            assert(texts_of(lines@).take(i as int + 1).drop_last() == texts_of(lines@).take(
                i as int,
            ));
            assert(texts_of(lines@).take(i as int + 1).last() == lines@[i as int]@);
        }
        let line = lines[i].as_str();
        if line.unicode_len() > 0 {
            let trimmed = trim(line);
            if trimmed.unicode_len() > 0 {
                let tag = AssetTag::from(trimmed);
                r.push(tag);
                assert(tags_of(r@) == before.push(tag@));
            }
        }
        i += 1;
    }
    assert(texts_of(lines@).take(i as int) == texts_of(lines@));
    r
}

/// Writes a list of targets for storing: one target to a line.
pub fn write_targets(targets: &Vec<AssetTag>) -> (r: String)
    ensures
        r@ == targets_written(tags_of(targets@)),
{
    let mut symbols: Vec<String> = Vec::new();
    let mut i: usize = 0;
    while i < targets.len()
        invariant
            i <= targets.len(),
            texts_of(symbols@) == tag_texts(tags_of(targets@)).take(i as int),
        decreases targets.len() - i,
    {
        let ghost before = texts_of(symbols@);
        symbols.push(targets[i].to_string());
        proof {
            assert(texts_of(symbols@) == before.push(targets@[i as int]@.text()));
            assert(tag_texts(tags_of(targets@)).take(i as int + 1) == before.push(
                targets@[i as int]@.text(),
            ));
        }
        i += 1;
    }
    assert(tag_texts(tags_of(targets@)).take(i as int) == tag_texts(tags_of(targets@)));
    let r = join(&symbols, "\n");
    proof {
        reveal_strlit("\n");
        assert("\n"@ == seq!['\n']);
    }
    r
}

/// Reads a ladder from the stored list of targets and the stored name of
/// the ramp.
pub fn read_ladder(targets: &str, ramp: &str) -> (r: Ladder)
    ensures
        r.order() == targets_read(split_on(targets@, '\n')),
        r.ramp == ramp_of(trim_of(lowercase_of(ramp@))),
{
    Ladder { targets: read_targets(targets), ramp: Ramp::from_str(ramp) }
}

/// Whether a target comes back from storage as it went in: its text holds
/// no line break, is not blank, and reads as the target itself.
pub open spec fn keeps(tag: TagModel) -> bool {
    &&& !tag.text().contains('\n')
    &&& !is_blank(tag.text())
    &&& tag_of(trim_of(tag.text())) == tag
}

/// A list of targets that is written and then read comes back as it was,
/// the empty list and the list of one target too, where each target keeps
/// in storage.
pub proof fn lemma_targets_round_trip(tags: Seq<TagModel>)
    ensures
        (forall|i: int| 0 <= i < tags.len() ==> keeps(#[trigger] tags[i])) ==> targets_read(
            split_on(targets_written(tags), '\n'),
        ) == tags,
{
    if forall|i: int| 0 <= i < tags.len() ==> keeps(#[trigger] tags[i]) {
        let texts = tag_texts(tags);
        if tags.len() == 0 {
            let none = Seq::<char>::empty();
            assert(targets_written(tags) == none);
            assert(split_on(none, '\n') == seq![none]);
            assert(seq![none].drop_last() == Seq::<Seq<char>>::empty());
            assert(seq![none].last() == none);
            assert(targets_read(seq![none].drop_last()) == Seq::<TagModel>::empty());
        } else {
            assert forall|i: int| 0 <= i < texts.len() implies !(#[trigger] texts[i]).contains(
                '\n',
            ) by {
                assert(keeps(tags[i]));
            }
            lemma_split_joined(texts, '\n');
            lemma_targets_read_kept(tags);
        }
    }
}

/// Lines that are the texts of targets that keep in storage read as those
/// targets.
proof fn lemma_targets_read_kept(tags: Seq<TagModel>)
    requires
        forall|i: int| 0 <= i < tags.len() ==> keeps(#[trigger] tags[i]),
    ensures
        targets_read(tag_texts(tags)) == tags,
    decreases tags.len(),
{
    if tags.len() > 0 {
        let init = tags.drop_last();
        assert forall|i: int| 0 <= i < init.len() implies keeps(#[trigger] init[i]) by {
            assert(init[i] == tags[i]);
        }
        lemma_targets_read_kept(init);
        assert(tag_texts(tags).drop_last() == tag_texts(init));
        assert(tag_texts(tags).last() == tags.last().text());
        assert(keeps(tags[tags.len() - 1]));
        assert(init.push(tags.last()) == tags);
    } else {
        assert(tag_texts(tags) == Seq::<Seq<char>>::empty());
    }
}

} // verus!
