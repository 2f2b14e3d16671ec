//! The ramp of a ladder: how fast weights grow from one target to the next.

use crate::text::{lowercase, lowercase_of, same_text, trim, trim_of};
use vstd::prelude::*;
use vstd::string::*;

verus! {

/// `Golden` weights each target by the golden ratio over the one below it;
/// `Flat` weights all targets alike.
#[derive(Copy, Clone, PartialEq, Eq, Structural, Debug)]
pub enum Ramp {
    Golden,
    Flat,
}

/// The unit in which the base of a ramp is counted: there are this many
/// units to one.
pub const BASE_UNITS: u64 = 1_000_000_000_000_000;

/// The ramp that a stored name selects: `flat` selects `Flat`, and any other
/// text, `golden` among them, selects `Golden`.
pub open spec fn ramp_of(name: Seq<char>) -> Ramp {
    if name == "flat"@ {
        Ramp::Flat
    } else {
        Ramp::Golden
    }
}

impl Ramp {
    /// The name under which the ramp is stored.
    pub open spec fn name(self) -> Seq<char> {
        match self {
            Ramp::Golden => "golden"@,
            Ramp::Flat => "flat"@,
        }
    }

    /// The base of the ramp in units of which `BASE_UNITS` make one: the
    /// golden ratio, 1.618033988749895, for `Golden`, and one for `Flat`.
    /// The weight of a target is the base to the power of the target's
    /// position.
    pub open spec fn base(self) -> nat {
        match self {
            Ramp::Golden => 1_618_033_988_749_895,
            Ramp::Flat => 1_000_000_000_000_000,
        }
    }

    /// The base of the ramp in units of which `BASE_UNITS` make one.
    pub fn base_units(&self) -> (r: u64)
        ensures
            r == self.base(),
            self == Ramp::Flat ==> r == BASE_UNITS,
    {
        match self {
            Ramp::Golden => 1_618_033_988_749_895,
            Ramp::Flat => BASE_UNITS,
        }
    }

    /// The ramp with the given name, which is already trimmed and lower-case.
    /// An unknown name selects `Golden`.
    pub fn of_name(name: &str) -> (r: Ramp)
        ensures
            r == ramp_of(name@),
    {
        if same_text(name, "flat") {
            Ramp::Flat
        } else {
            Ramp::Golden
        }
    }

    /// Reads a ramp from stored text, in any case and with white space
    /// around it. Unknown text selects `Golden`.
    pub fn from_str(s: &str) -> (r: Ramp)
        ensures
            r == ramp_of(trim_of(lowercase_of(s@))),
    {
        let lower = lowercase(s);
        Ramp::of_name(trim(lower.as_str()))
    }

    /// The name under which the ramp is stored.
    pub fn as_str(&self) -> (r: &'static str)
        ensures
            r@ == self.name(),
    {
        match self {
            Ramp::Golden => "golden",
            Ramp::Flat => "flat",
        }
    }
}

/// A ramp's own name selects that ramp again.
pub proof fn lemma_name_selects_ramp(ramp: Ramp)
    ensures
        ramp_of(ramp.name()) == ramp,
{
    reveal_strlit("golden");
    reveal_strlit("flat");
    if ramp == Ramp::Golden {
        assert("golden"@.len() != "flat"@.len());
    }
}

} // verus!
