use bittorrent::bencode::number::{parse_isize, parse_usize};

#[test]
fn parse_isize_matches_std() {
    for text in ["0", "-0", "+5", "-5", "007", "", "-", "+", "--1", "1-", "12a", "9223372036854775807",
        "9223372036854775808", "-9223372036854775808", "-9223372036854775809", "\u{665}"]
    {
        assert_eq!(parse_isize(text), text.parse::<isize>().ok(), "{text:?}");
    }
}

#[test]
fn parse_usize_matches_std() {
    for text in ["0", "+3", "-3", "", "+", "18446744073709551615", "18446744073709551616", "1 "] {
        assert_eq!(parse_usize(text), text.parse::<usize>().ok(), "{text:?}");
    }
}
