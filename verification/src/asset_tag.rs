//! Asset tags: what a lot holds.

use crate::seqs::{first_index_of, lemma_first_index_of};
use crate::text::{chars_of, lowercase, lowercase_of, same_text, text_of, uppercase, uppercase_of};
use vstd::prelude::*;
use vstd::string::*;

verus! {

/// Identifies a holding: an equity by its upper-case ticker, a nested pot by
/// its lower-case name behind a `:`, or the one cash unit.
#[derive(Debug, Eq, Hash)]
pub enum AssetTag {
    Equity(String),
    Pot(String),
    Usd,
}

/// The mathematical value of an [`AssetTag`].
pub enum TagModel {
    Equity(Seq<char>),
    Pot(Seq<char>),
    Usd,
}

impl TagModel {
    /// The text that stands for the tag in files and reports.
    pub open spec fn text(self) -> Seq<char> {
        match self {
            TagModel::Equity(s) => s,
            TagModel::Pot(s) => s,
            TagModel::Usd => "USD"@,
        }
    }

    /// A pot tag carries the `:` in front of its name.
    pub open spec fn well_formed(self) -> bool {
        self matches TagModel::Pot(s) ==> s.len() > 0 && s[0] == ':'
    }

    /// The folder of the pot that a pot tag names: its text without the
    /// first character, the `:`.
    pub open spec fn folder(self) -> Seq<char>
        recommends
            self is Pot,
    {
        if self.text().len() == 0 {
            Seq::empty()
        } else {
            self.text().subrange(1, self.text().len() as int)
        }
    }
}

impl View for AssetTag {
    type V = TagModel;

    open spec fn view(&self) -> TagModel {
        match self {
            AssetTag::Equity(s) => TagModel::Equity(s@),
            AssetTag::Pot(s) => TagModel::Pot(s@),
            AssetTag::Usd => TagModel::Usd,
        }
    }
}

/// The tag of an upper-case symbol: cash for `USD`, an equity otherwise.
pub open spec fn symbol_tag(symbol: Seq<char>) -> TagModel {
    if symbol == "USD"@ {
        TagModel::Usd
    } else {
        TagModel::Equity(symbol)
    }
}

/// The tag of the pot with the given lower-case name.
pub open spec fn pot_tag(name: Seq<char>) -> TagModel {
    TagModel::Pot(seq![':'] + name)
}

/// The tag that a raw text stands for: behind a leading `:` a pot name,
/// which is lower-cased; otherwise a symbol, which is upper-cased.
pub open spec fn tag_of(raw: Seq<char>) -> TagModel {
    if raw.len() > 0 && raw[0] == ':' {
        pot_tag(lowercase_of(raw.subrange(1, raw.len() as int)))
    } else {
        symbol_tag(uppercase_of(raw))
    }
}

impl Clone for AssetTag {
    fn clone(&self) -> (r: Self)
        ensures
            r@ == self@,
    {
        match self {
            AssetTag::Equity(s) => AssetTag::Equity(s.clone()),
            AssetTag::Pot(s) => AssetTag::Pot(s.clone()),
            AssetTag::Usd => AssetTag::Usd,
        }
    }
}

impl PartialEq for AssetTag {
    fn eq(&self, other: &Self) -> (r: bool) {
        match self {
            AssetTag::Equity(a) => match other {
                AssetTag::Equity(b) => *a == *b,
                _ => false,
            },
            AssetTag::Pot(a) => match other {
                AssetTag::Pot(b) => *a == *b,
                _ => false,
            },
            AssetTag::Usd => match other {
                AssetTag::Usd => true,
                _ => false,
            },
        }
    }
}

impl vstd::std_specs::cmp::PartialEqSpecImpl for AssetTag {
    open spec fn obeys_eq_spec() -> bool {
        true
    }

    open spec fn eq_spec(&self, other: &Self) -> bool {
        self@ == other@
    }
}

impl AssetTag {
    /// Whether the tag names a nested pot.
    pub fn is_subpot(&self) -> (r: bool)
        ensures
            r == (self@ is Pot),
    {
        match self {
            AssetTag::Pot(_) => true,
            _ => false,
        }
    }

    /// Whether the tag names an equity.
    pub fn is_equity(&self) -> (r: bool)
        ensures
            r == (self@ is Equity),
    {
        match self {
            AssetTag::Equity(_) => true,
            _ => false,
        }
    }

    /// The text that stands for the tag.
    pub fn as_str(&self) -> (r: &str)
        ensures
            r@ == self@.text(),
    {
        match self {
            AssetTag::Equity(s) => s.as_str(),
            AssetTag::Pot(s) => s.as_str(),
            AssetTag::Usd => "USD",
        }
    }

    /// The folder of the nested pot. Only a pot tag has one.
    pub fn as_folder_name(&self) -> (r: &str)
        requires
            self@ is Pot,
        ensures
            r@ == self@.folder(),
    {
        let s = self.as_str();
        let n = s.unicode_len();
        if n == 0 {
            s
        } else {
            s.substring_char(1, n)
        }
    }

    /// The text that stands for the tag, as an owned string.
    pub fn to_string(&self) -> (r: String)
        ensures
            r@ == self@.text(),
    {
        String::from_str(self.as_str())
    }

    /// Whether the tag is written as `symbol`.
    pub fn has_symbol(&self, symbol: &str) -> (r: bool)
        ensures
            r == (self@.text() == symbol@),
    {
        same_text(self.as_str(), symbol)
    }

    /// Whether the two tags are the same.
    pub fn has_tag(&self, other: &AssetTag) -> (r: bool)
        ensures
            r == (self@ == other@),
    {
        self == other
    }

    /// The tag of a symbol that is already upper-case.
    pub fn of_symbol(symbol: String) -> (r: AssetTag)
        ensures
            r@ == symbol_tag(symbol@),
            r@.well_formed(),
    {
        if same_text(symbol.as_str(), "USD") {
            AssetTag::Usd
        } else {
            AssetTag::Equity(symbol)
        }
    }

    /// The tag of the pot whose name, already lower-case, is `name`.
    pub fn of_pot_name(name: &str) -> (r: AssetTag)
        ensures
            r@ == pot_tag(name@),
            r@.well_formed(),
    {
        let mut s = String::new();
        s.push(':');
        s.append(name);
        assert(s@ == seq![':'] + name@);
        AssetTag::Pot(s)
    }

    /// The tag of an equity symbol in any case. `USD` in any case is cash.
    pub fn equity(symbol: &str) -> (r: AssetTag)
        ensures
            r@ == symbol_tag(uppercase_of(symbol@)),
            r@.well_formed(),
    {
        AssetTag::of_symbol(uppercase(symbol))
    }

    /// The tag of the nested pot in the folder `name`, in any case.
    pub fn pot_from_name(name: &str) -> (r: AssetTag)
        ensures
            r@ == pot_tag(lowercase_of(name@)),
            r@.well_formed(),
    {
        let lower = lowercase(name);
        AssetTag::of_pot_name(lower.as_str())
    }

    /// Reads a tag from raw text: a leading `:` marks a pot, anything else
    /// is a symbol.
    pub fn from(raw: &str) -> (r: AssetTag)
        ensures
            r@ == tag_of(raw@),
            r@.well_formed(),
    {
        let chars = chars_of(raw);
        if chars.len() > 0 && chars[0] == ':' {
            let name = text_of(&chars, 1, chars.len());
            AssetTag::pot_from_name(name.as_str())
        } else {
            AssetTag::equity(raw)
        }
    }
}

/// The tags held by a sequence of asset tags.
pub open spec fn tags_of(v: Seq<AssetTag>) -> Seq<TagModel> {
    Seq::new(v.len(), |i: int| v[i]@)
}

/// The first position of `tag` among `tags`, if it occurs.
pub fn position_of(tags: &Vec<AssetTag>, tag: &AssetTag) -> (r: Option<usize>)
    ensures
        match r {
            Some(p) => p < tags.len() && p == first_index_of(tags_of(tags@), tag@),
            None => first_index_of(tags_of(tags@), tag@) == tags.len(),
        },
        r is Some <==> tags_of(tags@).contains(tag@),
{
    let mut i: usize = 0;
    proof {
        lemma_first_index_of(tags_of(tags@), tag@);
    }
    while i < tags.len()
        invariant
            i <= tags.len(),
            forall|j: int| 0 <= j < i ==> tags_of(tags@)[j] != tag@,
            0 <= first_index_of(tags_of(tags@), tag@) <= tags.len(),
            first_index_of(tags_of(tags@), tag@) < tags.len() ==> tags_of(tags@)[first_index_of(
                tags_of(tags@),
                tag@,
            )] == tag@,
            forall|j: int|
                0 <= j < first_index_of(tags_of(tags@), tag@) ==> tags_of(tags@)[j] != tag@,
            first_index_of(tags_of(tags@), tag@) == tags.len() <==> !tags_of(tags@).contains(
                tag@,
            ),
        decreases tags.len() - i,
    {
        if tags[i].has_tag(tag) {
            assert(tags_of(tags@)[i as int] == tag@);
            return Some(i);
        }
        i += 1;
    }
    None
}

} // verus!
