use mandelbrot::pair::{pair_of, parse_pair, parse_pair_with, split_pair};

fn digit(text: &str) -> Option<u32> {
    let mut chars = text.chars();
    match (chars.next(), chars.next()) {
        (Some(c), None) => c.to_digit(10),
        _ => None,
    }
}

#[test]
fn test_parse_pair() {
    assert_eq!(parse_pair::<i32>("", ','), None);
    assert_eq!(parse_pair::<i32>("10,", ','), None);
    assert_eq!(parse_pair::<i32>(",10", ','), None);
    assert_eq!(parse_pair::<i32>("10,20", ','), Some((10, 20)));
    assert_eq!(parse_pair::<i32>("10,20xy", ','), None);
    assert_eq!(parse_pair::<f64>("0.5x", 'x'), None);
    assert_eq!(parse_pair::<f64>("0.5x1.5", 'x'), Some((0.5, 1.5)));
}

#[test]
fn parse_pair_reads_image_dimensions() {
    assert_eq!(parse_pair::<usize>("4000x3000", 'x'), Some((4000, 3000)));
    assert_eq!(parse_pair::<usize>("4000,3000", 'x'), None);
    assert_eq!(parse_pair::<usize>("-4x3", 'x'), None);
}

#[test]
fn parse_pair_reads_the_parts_of_a_complex_number() {
    assert_eq!(parse_pair::<f64>("1.25,-0.0625", ','), Some((1.25, -0.0625)));
    assert_eq!(parse_pair::<f64>(",-0.0625", ','), None);
}

#[test]
fn parse_pair_cuts_at_the_first_separator_only() {
    assert_eq!(parse_pair::<i32>("1,2,3", ','), None);
    assert_eq!(parse_pair::<String>("1,2,3", ','), Some(("1".to_string(), "2,3".to_string())));
}

#[test]
fn parse_pair_without_separator_is_none() {
    assert_eq!(parse_pair::<i32>("1020", ','), None);
    assert_eq!(parse_pair::<String>("abc", ','), None);
}

#[test]
fn split_pair_gives_both_sides_without_the_separator() {
    assert_eq!(split_pair("10,20", ','), Some(("10", "20")));
    assert_eq!(split_pair("400x600", 'x'), Some(("400", "600")));
    assert_eq!(split_pair("a,b,c", ','), Some(("a", "b,c")));
    assert_eq!(split_pair(",", ','), Some(("", "")));
    assert_eq!(split_pair(",10", ','), Some(("", "10")));
    assert_eq!(split_pair("10,", ','), Some(("10", "")));
}

#[test]
fn split_pair_without_separator_is_none() {
    assert_eq!(split_pair("", ','), None);
    assert_eq!(split_pair("abc", ','), None);
    assert_eq!(split_pair("10.20", ','), None);
}

#[test]
fn split_pair_counts_characters_not_bytes() {
    assert_eq!(split_pair("\u{e9}t\u{e9},\u{fc}ber", ','), Some(("\u{e9}t\u{e9}", "\u{fc}ber")));
    assert_eq!(split_pair("a\u{2192}b", '\u{2192}'), Some(("a", "b")));
}

#[test]
fn pair_of_needs_both_values() {
    assert_eq!(pair_of(Some(1), Some(2)), Some((1, 2)));
    assert_eq!(pair_of(Some(1), None), None);
    assert_eq!(pair_of(None, Some(2)), None);
    assert_eq!(pair_of::<i32>(None, None), None);
}

#[test]
fn parse_pair_with_reads_each_side_with_the_given_reader() {
    assert_eq!(parse_pair_with("3,7", ',', digit), Some((3, 7)));
    assert_eq!(parse_pair_with("3x7", 'x', digit), Some((3, 7)));
    assert_eq!(parse_pair_with("3,77", ',', digit), None);
    assert_eq!(parse_pair_with("a,7", ',', digit), None);
    assert_eq!(parse_pair_with("37", ',', digit), None);
    assert_eq!(parse_pair_with("", ',', digit), None);
}

#[test]
fn parse_pair_with_hands_over_what_stands_beside_the_first_separator() {
    let whole = |text: &str| Some(text.to_string());
    assert_eq!(
        parse_pair_with("ab,cd,ef", ',', whole),
        Some(("ab".to_string(), "cd,ef".to_string()))
    );
    assert_eq!(parse_pair_with(",", ',', whole), Some((String::new(), String::new())));
}
