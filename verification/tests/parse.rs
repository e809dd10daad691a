use almost_union_find::parse::{parse_bytes, parse_line, parse_token};

#[test]
fn a_line_of_numbers() {
    assert_eq!(parse_line(String::from("1 2 3")), Some(vec![1, 2, 3]));
    assert_eq!(parse_line(String::from("5 7")), Some(vec![5, 7]));
    assert_eq!(parse_line(String::from("42")), Some(vec![42]));
    assert_eq!(parse_line(String::from("0")), Some(vec![0]));
}

#[test]
fn a_plus_sign_and_zeros_in_front() {
    assert_eq!(parse_line(String::from("+7 007")), Some(vec![7, 7]));
    assert_eq!(
        parse_line(String::from("0000000000000000000000000000000012")),
        Some(vec![12])
    );
}

#[test]
fn what_is_no_number() {
    assert_eq!(parse_line(String::from("")), None);
    assert_eq!(parse_line(String::from("1  2")), None);
    assert_eq!(parse_line(String::from(" 1")), None);
    assert_eq!(parse_line(String::from("1 ")), None);
    assert_eq!(parse_line(String::from("1 x")), None);
    assert_eq!(parse_line(String::from("-1")), None);
    assert_eq!(parse_line(String::from("+")), None);
    assert_eq!(parse_line(String::from("++1")), None);
    assert_eq!(parse_line(String::from("1+")), None);
    assert_eq!(parse_line(String::from("1\t2")), None);
    assert_eq!(parse_line(String::from("1.5")), None);
    assert_eq!(parse_line(String::from("\u{663}")), None);
}

#[test]
fn the_largest_number() {
    let largest = usize::MAX.to_string();
    assert_eq!(parse_line(largest.clone()), Some(vec![usize::MAX]));
    let mut too_large = largest.clone();
    too_large.push('0');
    assert_eq!(parse_line(too_large), None);
    let mut next = largest.into_bytes();
    let last = next.len() - 1;
    next[last] += 1;
    assert_eq!(parse_bytes(&next), None);
}

#[test]
fn the_same_as_the_standard_parser() {
    for text in ["12", "+3", "", "-4", "00", "9 9", "18446744073709551615", "18446744073709551616", "a1", "1a", "+", "+0"] {
        let expected: Option<Vec<usize>> =
            text.split(" ").map(|token| token.parse::<usize>().ok()).collect();
        assert_eq!(parse_line(String::from(text)), expected, "{:?}", text);
    }
}

#[test]
fn a_token_inside_a_line() {
    let bytes = b"12 345 x";
    assert_eq!(parse_token(bytes, 0, 2), Some(12));
    assert_eq!(parse_token(bytes, 3, 6), Some(345));
    assert_eq!(parse_token(bytes, 4, 5), Some(4));
    assert_eq!(parse_token(bytes, 7, 8), None);
    assert_eq!(parse_token(bytes, 2, 6), None);
    assert_eq!(parse_token(bytes, 3, 3), None);
}
