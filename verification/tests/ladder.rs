use pots::asset_tag::AssetTag;
use pots::ladder::Ladder;
use pots::ramp::Ramp;

fn ladder_of(symbols: &[&str]) -> Ladder {
    Ladder { targets: symbols.iter().map(|s| AssetTag::from(s)).collect(), ramp: Ramp::Golden }
}

fn texts(tags: &Vec<AssetTag>) -> Vec<String> {
    tags.iter().map(|t| t.to_string()).collect()
}

#[test]
fn ascending_is_the_stored_order() {
    let ladder = ladder_of(&["a", "b", "c"]);
    assert_eq!(texts(&ladder.target_symbols_ascending()), vec!["A", "B", "C"]);
}

#[test]
fn descending_shows_the_highest_first() {
    let ladder = ladder_of(&["a", "b", "c"]);
    assert_eq!(texts(&ladder.target_symbols_descending()), vec!["C", "B", "A"]);
    assert!(ladder_of(&[]).target_symbols_descending().is_empty());
}

#[test]
fn target_symbols_holds_each_target_once() {
    let ladder = ladder_of(&["a", "b", "a", "c", "b"]);
    assert_eq!(texts(&ladder.target_symbols()), vec!["A", "B", "C"]);
}

#[test]
fn promote_moves_one_place_up() {
    let mut ladder = ladder_of(&["a", "b", "c"]);
    assert_eq!(ladder.promote_target(&AssetTag::from("a")), Some(1));
    assert_eq!(texts(&ladder.targets), vec!["B", "A", "C"]);
    assert_eq!(ladder.ramp, Ramp::Golden);
}

#[test]
fn promote_at_the_top_stays() {
    let mut ladder = ladder_of(&["a", "b", "c"]);
    assert_eq!(ladder.promote_target(&AssetTag::from("c")), Some(2));
    assert_eq!(texts(&ladder.targets), vec!["A", "B", "C"]);
}

#[test]
fn demote_moves_one_place_down() {
    let mut ladder = ladder_of(&["a", "b", "c"]);
    assert_eq!(ladder.demote_target(&AssetTag::from("c")), Some(1));
    assert_eq!(texts(&ladder.targets), vec!["A", "C", "B"]);
}

#[test]
fn demote_at_the_bottom_stays() {
    let mut ladder = ladder_of(&["a", "b", "c"]);
    assert_eq!(ladder.demote_target(&AssetTag::from("a")), Some(0));
    assert_eq!(texts(&ladder.targets), vec!["A", "B", "C"]);
}

#[test]
fn promote_and_demote_of_a_stranger_change_nothing() {
    let mut ladder = ladder_of(&["a", "b"]);
    assert_eq!(ladder.promote_target(&AssetTag::from("x")), None);
    assert_eq!(ladder.demote_target(&AssetTag::from("x")), None);
    assert_eq!(texts(&ladder.targets), vec!["A", "B"]);
    let mut empty = ladder_of(&[]);
    assert_eq!(empty.promote_target(&AssetTag::from("x")), None);
    assert!(empty.targets.is_empty());
}

#[test]
fn promote_then_demote_restores_the_order() {
    let mut ladder = ladder_of(&["a", "b", "c"]);
    let tag = AssetTag::from("b");
    assert_eq!(ladder.promote_target(&tag), Some(2));
    assert_eq!(ladder.demote_target(&tag), Some(1));
    assert_eq!(texts(&ladder.targets), vec!["A", "B", "C"]);
}

#[test]
fn demote_then_promote_restores_the_order() {
    let mut ladder = ladder_of(&["a", "b", "c"]);
    let tag = AssetTag::from("b");
    assert_eq!(ladder.demote_target(&tag), Some(0));
    assert_eq!(ladder.promote_target(&tag), Some(1));
    assert_eq!(texts(&ladder.targets), vec!["A", "B", "C"]);
}

#[test]
fn promote_then_demote_at_the_top_does_not_restore() {
    let mut ladder = ladder_of(&["a", "b", "c"]);
    let tag = AssetTag::from("c");
    assert_eq!(ladder.promote_target(&tag), Some(2));
    assert_eq!(ladder.demote_target(&tag), Some(1));
    assert_eq!(texts(&ladder.targets), vec!["A", "C", "B"]);
}

#[test]
fn single_target_stays_in_place() {
    let mut ladder = ladder_of(&["a"]);
    let tag = AssetTag::from("a");
    assert_eq!(ladder.promote_target(&tag), Some(0));
    assert_eq!(ladder.demote_target(&tag), Some(0));
    assert_eq!(texts(&ladder.targets), vec!["A"]);
}
