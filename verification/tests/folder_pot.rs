use pots::folder_pot::FolderPot;
use pots::pot_path::PotPath;

#[test]
fn current_folder_files() {
    let pot = FolderPot::new();
    assert_eq!(pot.path(), ".");
    assert_eq!(pot.cash_file(), "./cash.txt");
    assert_eq!(pot.ramp_file(), "./ramp.txt");
    assert_eq!(pot.lots_file(), "./lots.csv");
    assert_eq!(pot.team_file(), "./team.txt");
    assert_eq!(pot.file_path("x"), "./x");
}

#[test]
fn nested_folders() {
    let pot = FolderPot::new().subpot("hunt").subpot("deep");
    assert_eq!(pot.path(), "./hunt/deep");
    assert_eq!(pot.lots_file(), "./hunt/deep/lots.csv");
    assert_eq!(pot.clone().path(), "./hunt/deep");
}

#[test]
fn from_pot_path_walks_the_folders() {
    let path = PotPath::CurrentFolder.extend("a").extend("").extend("b");
    assert_eq!(FolderPot::from_pot_path(&path).path(), "./a/b");
    assert_eq!(FolderPot::from_pot_path(&PotPath::CurrentFolder).path(), ".");
}
