//! Where a pot is stored: its folder and the files in it.

use crate::pot_path::PotPath;
use crate::text::texts_of;
use vstd::prelude::*;
use vstd::string::*;

verus! {

/// The folder of a pot, as a path relative to the current folder with `/`
/// between its parts.
#[derive(Debug)]
pub struct FolderPot {
    path: String,
}

impl View for FolderPot {
    type V = Seq<char>;

    closed spec fn view(&self) -> Seq<char> {
        self.path@
    }
}

/// The path of the file or folder `name` in the folder `folder`.
pub open spec fn path_in(folder: Seq<char>, name: Seq<char>) -> Seq<char> {
    folder + seq!['/'] + name
}

/// The path of the folder that lies `folders` below the current folder.
pub open spec fn folder_of(folders: Seq<Seq<char>>) -> Seq<char>
    decreases folders.len(),
{
    if folders.len() == 0 {
        seq!['.']
    } else {
        path_in(folder_of(folders.drop_last()), folders.last())
    }
}

impl Clone for FolderPot {
    fn clone(&self) -> (r: Self)
        ensures
            r@ == self@,
    {
        FolderPot { path: self.path.clone() }
    }
}

impl FolderPot {
    /// The pot in the current folder.
    pub fn new() -> (r: Self)
        ensures
            r@ == seq!['.'],
    {
        let mut path = String::new();
        path.push('.');
        FolderPot { path }
    }

    /// The pot at the place that `pot_path` leads to.
    pub fn from_pot_path(pot_path: &PotPath) -> (r: Self)
        ensures
            r@ == folder_of(pot_path@),
    {
        let folders = pot_path.location();
        let mut pot = FolderPot::new();
        let mut i: usize = 0;
        assert(texts_of(folders@).take(0) == Seq::<Seq<char>>::empty());
        while i < folders.len()
            invariant
                i <= folders.len(),
                texts_of(folders@) == pot_path@,
                pot@ == folder_of(texts_of(folders@).take(i as int)),
            decreases folders.len() - i,
        {
            proof {
                assert(texts_of(folders@).take(i as int + 1).drop_last() == texts_of(
                    folders@,
                ).take(i as int));
                assert(texts_of(folders@).take(i as int + 1).last() == folders@[i as int]@);
            }
            pot = pot.subpot(folders[i].as_str());
            i += 1;
        }
        assert(texts_of(folders@).take(i as int) == texts_of(folders@));
        pot
    }

    /// The folder of the pot.
    pub fn path(&self) -> (r: &str)
        ensures
            r@ == self@,
    {
        self.path.as_str()
    }

    /// The nested pot in the folder `name` below this one.
    pub fn subpot(&self, name: &str) -> (r: FolderPot)
        ensures
            r@ == path_in(self@, name@),
    {
        FolderPot { path: self.file_path(name) }
    }

    /// The path of the file `filename` in the pot's folder.
    pub fn file_path(&self, filename: &str) -> (r: String)
        ensures
            r@ == path_in(self@, filename@),
    {
        let mut r = self.path.clone();
        r.push('/');
        r.append(filename);
        assert(r@ == self@ + seq!['/'] + filename@);
        r
    }

    /// The file that holds the free cash.
    pub fn cash_file(&self) -> (r: String)
        ensures
            r@ == path_in(self@, "cash.txt"@),
    {
        self.file_path("cash.txt")
    }

    /// The file that holds the name of the ramp.
    pub fn ramp_file(&self) -> (r: String)
        ensures
            r@ == path_in(self@, "ramp.txt"@),
    {
        self.file_path("ramp.txt")
    }

    /// The file that holds the lots.
    pub fn lots_file(&self) -> (r: String)
        ensures
            r@ == path_in(self@, "lots.csv"@),
    {
        self.file_path("lots.csv")
    }

    /// The file that holds the targets.
    pub fn team_file(&self) -> (r: String)
        ensures
            r@ == path_in(self@, "team.txt"@),
    {
        self.file_path("team.txt")
    }
}

} // verus!
