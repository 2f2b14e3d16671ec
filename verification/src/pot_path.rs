//! Paths from the current folder down to a nested pot.

use crate::text::{same_text, texts_of};
use vstd::prelude::*;
use vstd::string::*;

verus! {

/// Where a pot lies: the current folder, or a named folder below another pot.
#[derive(Debug)]
pub enum PotPath {
    CurrentFolder,
    SubFolder(Box<PotPath>, String),
}

impl PotPath {
    /// The names along the path. The current folder has the empty name.
    pub open spec fn segments(&self) -> Seq<Seq<char>>
        decreases self,
    {
        match self {
            PotPath::CurrentFolder => seq![Seq::<char>::empty()],
            PotPath::SubFolder(pred, name) => pred.segments().push(name@),
        }
    }

    /// The names along the path that are not empty.
    pub open spec fn folders(&self) -> Seq<Seq<char>>
        decreases self,
    {
        match self {
            PotPath::CurrentFolder => Seq::empty(),
            PotPath::SubFolder(pred, name) => if name@.len() == 0 {
                pred.folders()
            } else {
                pred.folders().push(name@)
            },
        }
    }
}

impl View for PotPath {
    type V = Seq<Seq<char>>;

    /// The location that the path leads to: its names that are not empty.
    /// An empty name stands for the folder itself, so a path that only adds
    /// empty names leads to the same pot.
    open spec fn view(&self) -> Seq<Seq<char>> {
        self.folders()
    }
}

impl Clone for PotPath {
    fn clone(&self) -> (r: Self)
        ensures
            r.segments() == self.segments(),
            r@ == self@,
        decreases self,
    {
        match self {
            PotPath::CurrentFolder => PotPath::CurrentFolder,
            PotPath::SubFolder(pred, name) => {
                let p: &PotPath = &**pred;
                PotPath::SubFolder(Box::new(p.clone()), name.clone())
            },
        }
    }
}

impl PotPath {
    /// The names along the path, the current folder's empty name first.
    pub fn segment_names(&self) -> (r: Vec<String>)
        ensures
            texts_of(r@) == self.segments(),
        decreases self,
    {
        match self {
            PotPath::CurrentFolder => {
                let mut names: Vec<String> = Vec::new();
                names.push(String::new());
                assert(texts_of(names@) == seq![Seq::<char>::empty()]);
                names
            },
            PotPath::SubFolder(pred, name) => {
                let mut names = pred.segment_names();
                let ghost before = names@;
                names.push(name.clone());
                assert(texts_of(names@) == texts_of(before).push(name@));
                names
            },
        }
    }

    /// The names of the folders to walk through, none of them empty.
    pub fn location(&self) -> (r: Vec<String>)
        ensures
            texts_of(r@) == self@,
        decreases self,
    {
        match self {
            PotPath::CurrentFolder => {
                let names: Vec<String> = Vec::new();
                assert(texts_of(names@) == Seq::<Seq<char>>::empty());
                names
            },
            PotPath::SubFolder(pred, name) => {
                let mut names = pred.location();
                if name.as_str().unicode_len() > 0 {
                    let ghost before = names@;
                    names.push(name.clone());
                    assert(texts_of(names@) == texts_of(before).push(name@));
                }
                names
            },
        }
    }

    /// The path of the folder `name` below this one.
    pub fn extend(&self, name: &str) -> (r: Self)
        ensures
            r.segments() == self.segments().push(name@),
            r@ == if name@.len() == 0 {
                self@
            } else {
                self@.push(name@)
            },
    {
        PotPath::SubFolder(Box::new(self.clone()), String::from_str(name))
    }

    /// Whether both paths lead to the same pot.
    pub fn same_location(&self, other: &PotPath) -> (r: bool)
        ensures
            r == (self@ == other@),
    {
        let a = self.location();
        let b = other.location();
        if a.len() != b.len() {
            return false;
        }
        let mut i: usize = 0;
        while i < a.len()
            invariant
                texts_of(a@) == self@,
                texts_of(b@) == other@,
                a.len() == b.len(),
                i <= a.len(),
                forall|j: int| 0 <= j < i ==> a@[j]@ == b@[j]@,
            decreases a.len() - i,
        {
            if !same_text(a[i].as_str(), b[i].as_str()) {
                assert(texts_of(a@)[i as int] != texts_of(b@)[i as int]);
                return false;
            }
            i += 1;
        }
        assert(texts_of(a@) =~= texts_of(b@));
        true
    }
}

} // verus!
