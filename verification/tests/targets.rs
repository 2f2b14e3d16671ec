use pots::asset_tag::AssetTag;
use pots::ramp::Ramp;
use pots::targets::{
    add_target_tags, add_targets, parse_symbols, read_ladder, read_targets, remove_target_tags,
    remove_targets, write_targets,
};

fn tags(symbols: &[&str]) -> Vec<AssetTag> {
    symbols.iter().map(|s| AssetTag::from(s)).collect()
}

#[test]
fn parse_symbols_trims_each_piece() {
    assert_eq!(parse_symbols("tsla, spce ,:Hunt,usd"), tags(&["TSLA", "SPCE", ":hunt", "USD"]));
    assert_eq!(parse_symbols(""), vec![AssetTag::Equity(String::new())]);
}

#[test]
fn add_targets_puts_new_ones_in_front() {
    let mut targets = tags(&["a", "b"]);
    assert!(add_targets(&mut targets, "c,d"));
    assert_eq!(targets, tags(&["c", "d", "a", "b"]));
}

#[test]
fn add_targets_leaves_out_what_is_there() {
    let mut targets = tags(&["a", "b"]);
    assert!(add_targets(&mut targets, "b, c ,a"));
    assert_eq!(targets, tags(&["c", "a", "b"]));
    assert!(!add_targets(&mut targets, "a,b,c"));
    assert_eq!(targets, tags(&["c", "a", "b"]));
}

#[test]
fn add_targets_keeps_the_last_of_a_repeated_symbol() {
    let mut targets: Vec<AssetTag> = vec![];
    assert!(add_target_tags(&mut targets, &tags(&["a", "b", "a"])));
    assert_eq!(targets, tags(&["b", "a"]));
}

#[test]
fn remove_targets_takes_them_out() {
    let mut targets = tags(&["a", "b", "c", "d"]);
    assert!(remove_targets(&mut targets, "b, d"));
    assert_eq!(targets, tags(&["a", "c"]));
    assert!(!remove_targets(&mut targets, "x,y"));
    assert_eq!(targets, tags(&["a", "c"]));
}

#[test]
fn remove_targets_takes_one_occurrence_for_each_mention() {
    let mut targets = tags(&["a", "b", "a", "a"]);
    assert!(remove_target_tags(&mut targets, &tags(&["a", "a"])));
    assert_eq!(targets, tags(&["b", "a"]));
}

#[test]
fn read_targets_skips_blank_lines() {
    assert_eq!(read_targets("tsla\n\n  spce \n \n:Hunt\n"), tags(&["tsla", "spce", ":hunt"]));
    assert!(read_targets("").is_empty());
    assert!(read_targets("\n \n").is_empty());
}

#[test]
fn write_targets_is_one_line_each() {
    assert_eq!(write_targets(&tags(&["a", ":b", "usd"])), "A\n:b\nUSD");
    assert_eq!(write_targets(&tags(&["a"])), "A");
    assert_eq!(write_targets(&vec![]), "");
}

#[test]
fn targets_round_trip() {
    for list in [tags(&[]), tags(&["tsla"]), tags(&["tsla", ":hunt", "usd", "spce"])] {
        assert_eq!(read_targets(&write_targets(&list)), list);
    }
}

#[test]
fn targets_round_trip_through_edits() {
    let mut targets = read_targets("a\nb\nc");
    add_targets(&mut targets, "d");
    remove_targets(&mut targets, "b");
    let stored = write_targets(&targets);
    assert_eq!(stored, "D\nA\nC");
    assert_eq!(read_targets(&stored), targets);
}

#[test]
fn an_empty_target_does_not_come_back() {
    let list = vec![AssetTag::Equity(String::new())];
    assert!(read_targets(&write_targets(&list)).is_empty());
}

#[test]
fn read_ladder_reads_targets_and_ramp() {
    let ladder = read_ladder("a\nb\n", " Flat ");
    assert_eq!(ladder.targets, tags(&["a", "b"]));
    assert_eq!(ladder.ramp, Ramp::Flat);
    let ladder = read_ladder("", "");
    assert!(ladder.targets.is_empty());
    assert_eq!(ladder.ramp, Ramp::Golden);
}
