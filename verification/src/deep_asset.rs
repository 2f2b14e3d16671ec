//! One occurrence of an asset at one place in the tree of pots.

use crate::asset_tag::{AssetTag, TagModel};
use crate::pot_path::PotPath;
use crate::text::{join, joined, texts_of};
use vstd::prelude::*;
use vstd::string::*;

verus! {

/// An asset together with the pot that holds it.
#[derive(Debug)]
pub struct DeepAsset {
    pub pot_path: PotPath,
    pub asset_tag: AssetTag,
}

impl View for DeepAsset {
    type V = (Seq<Seq<char>>, TagModel);

    open spec fn view(&self) -> (Seq<Seq<char>>, TagModel) {
        (self.pot_path@, self.asset_tag@)
    }
}

/// The parts of a title: the folders on the way, then the asset's text,
/// leaving out what is empty.
pub open spec fn title_parts(folders: Seq<Seq<char>>, tag: TagModel) -> Seq<Seq<char>> {
    if tag.text().len() == 0 {
        folders
    } else {
        folders.push(tag.text())
    }
}

impl Clone for DeepAsset {
    fn clone(&self) -> (r: Self)
        ensures
            r@ == self@,
    {
        DeepAsset { pot_path: self.pot_path.clone(), asset_tag: self.asset_tag.clone() }
    }
}

impl DeepAsset {
    /// The asset `asset_tag` as held by the pot at `pot_path`.
    pub fn new(pot_path: &PotPath, asset_tag: &AssetTag) -> (r: Self)
        ensures
            r@ == (pot_path@, asset_tag@),
    {
        DeepAsset { pot_path: pot_path.clone(), asset_tag: asset_tag.clone() }
    }

    /// The folders and the asset's text, joined by `::`.
    pub fn title(&self) -> (r: String)
        ensures
            r@ == joined(title_parts(self@.0, self@.1), "::"@),
    {
        let mut names = self.pot_path.location();
        let text = self.asset_tag.as_str();
        if text.unicode_len() > 0 {
            let ghost before = names@;
            names.push(String::from_str(text));
            assert(texts_of(names@) == texts_of(before).push(text@));
        }
        join(&names, "::")
    }

    /// Whether the asset lies in the pot at `path`.
    pub fn has_path(&self, path: &PotPath) -> (r: bool)
        ensures
            r == (self@.0 == path@),
    {
        self.pot_path.same_location(path)
    }

    /// Whether the asset is `tag`.
    pub fn has_tag(&self, tag: &AssetTag) -> (r: bool)
        ensures
            r == (self@.1 == tag@),
    {
        self.asset_tag.has_tag(tag)
    }

    /// Whether both are the same asset in the same pot.
    pub fn same_as(&self, other: &DeepAsset) -> (r: bool)
        ensures
            r == (self@ == other@),
    {
        self.pot_path.same_location(&other.pot_path) && self.asset_tag.has_tag(&other.asset_tag)
    }
}

} // verus!
