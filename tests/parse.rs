use text_packing::{Grid, ParseError, TextWeight};

#[test]
fn parse_text_weight() {
    assert_eq!(Grid::parse_text_weight("apple,2"), Ok(("", TextWeight("apple", 2))));
}

#[test]
fn parse_list() {
    let expected = vec![TextWeight("apple", 2), TextWeight("bubble", 10)];
    assert_eq!(Grid::parse_pairs("apple,2 bubble,10"), Ok(("", expected)));
}

#[test]
fn parse_text_weight_leaves_the_rest() {
    assert_eq!(Grid::parse_text_weight("apple,2 bubble,10"), Ok((" bubble,10", TextWeight("apple", 2))));
    assert_eq!(Grid::parse_text_weight("Ab,0042x"), Ok(("x", TextWeight("Ab", 42))));
    assert_eq!(Grid::parse_text_weight("apple,2é"), Ok(("é", TextWeight("apple", 2))));
}

#[test]
fn parse_text_weight_rejects_malformed_tokens() {
    assert_eq!(Grid::parse_text_weight(""), Err(ParseError));
    assert_eq!(Grid::parse_text_weight(",2"), Err(ParseError));
    assert_eq!(Grid::parse_text_weight("apple,"), Err(ParseError));
    assert_eq!(Grid::parse_text_weight("apple2"), Err(ParseError));
    assert_eq!(Grid::parse_text_weight("apple 2"), Err(ParseError));
    assert_eq!(Grid::parse_text_weight("é,2"), Err(ParseError));
}

#[test]
fn weights_must_fit_in_u32() {
    assert_eq!(Grid::parse_text_weight("a,4294967295"), Ok(("", TextWeight("a", u32::MAX))));
    assert_eq!(Grid::parse_text_weight("a,4294967296"), Err(ParseError));
    assert_eq!(Grid::parse_pairs("a,1 b,99999999999"), Err(ParseError));
}

#[test]
fn parsing_is_all_or_nothing() {
    assert_eq!(Grid::parse_pairs("apple,2 bad_token"), Err(ParseError));
    assert_eq!(Grid::parse_pairs("apple,2 "), Err(ParseError));
    assert_eq!(Grid::parse_pairs("apple,2  bubble,10"), Err(ParseError));
    assert_eq!(Grid::parse_pairs("apple,2,3"), Err(ParseError));
    assert_eq!(Grid::parse_pairs(""), Err(ParseError));
    assert_eq!(Grid::parse_pairs("apple,2 bübble,3"), Err(ParseError));
}

#[test]
fn lists_join_at_a_space() {
    let left = Grid::parse_pairs("apple,2").unwrap().1;
    let right = Grid::parse_pairs("bubble,10 cat,3").unwrap().1;
    let both = Grid::parse_pairs("apple,2 bubble,10 cat,3").unwrap().1;
    let joined: Vec<TextWeight> = left.into_iter().chain(right).collect();
    assert_eq!(both, joined);
}

#[test]
fn single_pair_list() {
    assert_eq!(Grid::parse_pairs("zebra,7"), Ok(("", vec![TextWeight("zebra", 7)])));
}
