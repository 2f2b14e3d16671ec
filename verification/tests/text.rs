use pots::text::{chars_of, join, same_text, split, text_of};

fn strings(parts: &[&str]) -> Vec<String> {
    parts.iter().map(|s| s.to_string()).collect()
}

#[test]
fn split_gives_one_more_piece_than_separators() {
    assert_eq!(split("a,b,c", ','), strings(&["a", "b", "c"]));
    assert_eq!(split("", ','), strings(&[""]));
    assert_eq!(split(",", ','), strings(&["", ""]));
    assert_eq!(split("a,,b,", ','), strings(&["a", "", "b", ""]));
    assert_eq!(split("abc", ','), strings(&["abc"]));
}

#[test]
fn join_puts_the_separator_between() {
    assert_eq!(join(&strings(&["a", "b", "c"]), "::"), "a::b::c");
    assert_eq!(join(&strings(&["a"]), "::"), "a");
    assert_eq!(join(&strings(&[]), "::"), "");
    assert_eq!(join(&strings(&["", ""]), "-"), "-");
}

#[test]
fn split_undoes_join() {
    let parts = strings(&["tsla", "usd", ":hunt"]);
    assert_eq!(split(&join(&parts, "\n"), '\n'), parts);
}

#[test]
fn chars_and_text_of_ranges() {
    let chars = chars_of("héllo");
    assert_eq!(chars, vec!['h', 'é', 'l', 'l', 'o']);
    assert_eq!(text_of(&chars, 1, 3), "él");
    assert_eq!(text_of(&chars, 2, 2), "");
    assert_eq!(text_of(&chars, 0, 5), "héllo");
}

#[test]
fn same_text_compares_characters() {
    assert!(same_text("abc", "abc"));
    assert!(same_text("", ""));
    assert!(!same_text("abc", "abd"));
    assert!(!same_text("abc", "ab"));
}
