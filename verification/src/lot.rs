//! Lots: a count of shares of one asset, held for the owner by one
//! custodian.

use crate::asset_tag::{AssetTag, TagModel};
use crate::text::same_text;
use rand::Rng;
use vstd::prelude::*;
use vstd::string::*;

verus! {

/// Who keeps a lot for its owner.
#[derive(Debug)]
pub struct Custodian(String);

impl View for Custodian {
    type V = Seq<char>;

    closed spec fn view(&self) -> Seq<char> {
        self.0@
    }
}

impl Clone for Custodian {
    fn clone(&self) -> (r: Self)
        ensures
            r@ == self@,
    {
        Custodian(self.0.clone())
    }
}

impl Custodian {
    /// The custodian of the given name.
    pub fn new(name: &str) -> (r: Self)
        ensures
            r@ == name@,
    {
        Custodian(String::from_str(name))
    }

    /// The custodian's name.
    pub fn as_str(&self) -> (r: &str)
        ensures
            r@ == self@,
    {
        self.0.as_str()
    }
}

/// A count of shares, in whole units of the smallest part of a share that
/// the books keep. It may be zero or negative.
#[derive(Copy, Clone, PartialEq, Eq, Structural, Debug)]
pub struct ShareCount(pub i64);

impl View for ShareCount {
    type V = int;

    open spec fn view(&self) -> int {
        self.0 as int
    }
}

impl ShareCount {
    /// The count in units.
    pub fn units(&self) -> (r: i64)
        ensures
            r == self@,
    {
        self.0
    }

    /// Whether nothing is held.
    pub fn is_zero(&self) -> (r: bool)
        ensures
            r == (self@ == 0),
    {
        self.0 == 0
    }

    /// Whether anything is held or owed.
    pub fn is_non_zero(&self) -> (r: bool)
        ensures
            r == (self@ != 0),
    {
        !self.is_zero()
    }
}

/// A count of shares of one asset at one custodian, known by its uid.
#[derive(Debug)]
pub struct Lot {
    pub custodian: Custodian,
    pub asset_tag: AssetTag,
    pub share_count: ShareCount,
    pub uid: u64,
}

/// The mathematical value of a [`Lot`].
pub struct LotModel {
    pub custodian: Seq<char>,
    pub tag: TagModel,
    pub count: int,
    pub uid: u64,
}

impl View for Lot {
    type V = LotModel;

    open spec fn view(&self) -> LotModel {
        LotModel {
            custodian: self.custodian@,
            tag: self.asset_tag@,
            count: self.share_count@,
            uid: self.uid,
        }
    }
}

/// The lots held by a sequence of lots.
pub open spec fn lots_of(v: Seq<Lot>) -> Seq<LotModel> {
    Seq::new(v.len(), |i: int| v[i]@)
}

/// `x` with its `n` lowest bytes dropped.
pub open spec fn bytes_dropped(x: int, n: nat) -> int
    decreases n,
{
    if n == 0 {
        x
    } else {
        bytes_dropped(x, (n - 1) as nat) / 256
    }
}

/// The eight bytes of `x`, the most significant first.
pub open spec fn be_bytes(x: u64) -> Seq<u8> {
    Seq::new(8, |k: int| (bytes_dropped(x as int, (7 - k) as nat) % 256) as u8)
}

/// The hexadecimal digit for a value below 16, in lower case.
pub open spec fn hex_digit(n: int) -> char {
    "0123456789abcdef"@[n]
}

/// Two hexadecimal digits for each byte, the high half first.
pub open spec fn hex_text(bytes: Seq<u8>) -> Seq<char> {
    Seq::new(
        2 * bytes.len(),
        |i: int|
            if i % 2 == 0 {
                hex_digit(bytes[i / 2] as int / 16)
            } else {
                hex_digit(bytes[i / 2] as int % 16)
            },
    )
}

/// Calls `hex::encode`, which writes each byte as two lower-case
/// hexadecimal digits, the high half first.
#[verifier::external_body]
fn hex_encode(bytes: &Vec<u8>) -> (r: String)
    ensures
        r@ == hex_text(bytes@),
{
    hex::encode(bytes)
}

/// The eight bytes of `x`, the most significant first.
pub fn to_be_bytes(x: u64) -> (r: Vec<u8>)
    ensures
        r@ == be_bytes(x),
{
    let mut r: Vec<u8> = Vec::new();
    let mut k: usize = 0;
    while k < 8
        invariant
            k <= 8,
            r.len() == k,
            forall|j: int| 0 <= j < k ==> r@[j] == 0u8,
        decreases 8 - k,
    {
        r.push(0u8);
        k += 1;
    }
    let mut rest: u64 = x;
    let mut n: usize = 0;
    while n < 8
        invariant
            n <= 8,
            r.len() == 8,
            rest == bytes_dropped(x as int, n as nat),
            forall|j: int| 8 - n <= j < 8 ==> r@[j] == be_bytes(x)[j],
        decreases 8 - n,
    {
        let low: u8 = (rest % 256) as u8;
        r.set(7 - n, low);
        rest = rest / 256;
        n += 1;
    }
    assert(r@ =~= be_bytes(x));
    r
}

impl Clone for Lot {
    fn clone(&self) -> (r: Self)
        ensures
            r@ == self@,
    {
        Lot {
            custodian: self.custodian.clone(),
            asset_tag: self.asset_tag.clone(),
            share_count: self.share_count,
            uid: self.uid,
        }
    }
}

impl Lot {
    /// Draws a uid: calls `rand::thread_rng` and, on the generator that it
    /// hands out, `Rng::gen`. Any 64-bit value may come back, so nothing is
    /// promised of it. The generator panics where the system gives it no
    /// seed.
    #[verifier::external_body]
    pub fn random_uid() -> u64 {
        rand::thread_rng().gen()
    }

    /// A lot with the given fields.
    pub fn new(custodian: &str, asset_tag: &AssetTag, share_count: i64, uid: u64) -> (r: Self)
        ensures
            r@ == (LotModel {
                custodian: custodian@,
                tag: asset_tag@,
                count: share_count as int,
                uid,
            }),
    {
        Lot {
            custodian: Custodian::new(custodian),
            asset_tag: asset_tag.clone(),
            share_count: ShareCount(share_count),
            uid,
        }
    }

    /// The uid as sixteen hexadecimal digits.
    pub fn uid_pretty(&self) -> (r: String)
        ensures
            r@ == hex_text(be_bytes(self.uid)),
    {
        let bytes = to_be_bytes(self.uid);
        hex_encode(&bytes)
    }

    /// The asset that the lot holds.
    pub fn symbol_string(&self) -> (r: AssetTag)
        ensures
            r@ == self@.tag,
    {
        self.asset_tag.clone()
    }

    /// Whether the lot holds anything: its count is above zero.
    pub fn is_funded(&self) -> (r: bool)
        ensures
            r == (self@.count > 0),
    {
        self.share_count.units() > 0
    }

    /// Whether the lot's asset is written as `symbol`.
    pub fn has_symbol(&self, symbol: &str) -> (r: bool)
        ensures
            r == (self@.tag.text() == symbol@),
    {
        self.asset_tag.has_symbol(symbol)
    }

    /// Whether the lot holds the asset `tag`.
    pub fn has_tag(&self, tag: &AssetTag) -> (r: bool)
        ensures
            r == (self@.tag == tag@),
    {
        self.asset_tag.has_tag(tag)
    }

    /// Whether the lot is kept by `custodian`.
    pub fn has_custodian(&self, custodian: &str) -> (r: bool)
        ensures
            r == (self@.custodian == custodian@),
    {
        same_text(custodian, self.custodian.as_str())
    }

    /// The same lot with another count.
    pub fn with_share_count(&self, count: i64) -> (r: Self)
        ensures
            r@ == (LotModel { count: count as int, ..self@ }),
    {
        Lot {
            custodian: self.custodian.clone(),
            asset_tag: self.asset_tag.clone(),
            share_count: ShareCount(count),
            uid: self.uid,
        }
    }

    /// The same holding under another uid.
    pub fn with_uid(&self, uid: u64) -> (r: Self)
        ensures
            r@ == (LotModel { uid, ..self@ }),
    {
        Lot {
            custodian: self.custodian.clone(),
            asset_tag: self.asset_tag.clone(),
            share_count: self.share_count,
            uid,
        }
    }

    /// The same holding under a uid drawn anew. The draw may by chance
    /// return the old uid.
    pub fn with_fresh_uid(&self) -> (r: Self)
        ensures
            r@ == (LotModel { uid: r@.uid, ..self@ }),
    {
        self.with_uid(Lot::random_uid())
    }
}

} // verus!
