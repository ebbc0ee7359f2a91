use btc_toolkit::text::{
    chars_of, find_window, is_lex_less, is_space_char, parse_unsigned, split_windows, trim_window,
};
use btc_toolkit::transaction::{copy_strings, Transaction};

fn chars(s: &str) -> Vec<char> {
    s.chars().collect()
}

#[test]
fn chars_of_gives_the_characters() {
    assert_eq!(chars_of(""), Vec::<char>::new());
    assert_eq!(chars_of("aé😀"), vec!['a', 'é', '😀']);
}

#[test]
fn white_space_is_what_unicode_says() {
    for c in (0u32..0x3100).filter_map(char::from_u32) {
        assert_eq!(is_space_char(c), c.is_whitespace(), "{:?}", c);
    }
    assert!(!is_space_char('\u{200b}'));
    assert!(!is_space_char('\u{feff}'));
}

#[test]
fn trim_window_cuts_both_ends() {
    let v = chars("xx  ab c \t yy");
    assert_eq!(trim_window(&v, 2, 11), (4, 8));
    assert_eq!(trim_window(&v, 0, v.len()), (0, v.len()));
    assert_eq!(trim_window(&v, 2, 4), (4, 4));
    assert_eq!(trim_window(&v, 5, 5), (5, 5));
}

#[test]
fn trim_window_agrees_with_trim() {
    for s in ["", " ", "a", " a", "a ", "  a b  ", "\u{2003}x\u{85}", "\n\r\t"] {
        let v = chars(s);
        let (a, b) = trim_window(&v, 0, v.len());
        let cut: String = v[a..b].iter().collect();
        assert_eq!(cut, s.trim(), "{:?}", s);
    }
}

#[test]
fn find_window_stops_at_the_first_separator() {
    let v = chars("ab,cd,ef");
    assert_eq!(find_window(&v, 0, 8, ','), 2);
    assert_eq!(find_window(&v, 3, 8, ','), 5);
    assert_eq!(find_window(&v, 6, 8, ','), 8);
    assert_eq!(find_window(&v, 0, 2, ','), 2);
    assert_eq!(find_window(&v, 2, 2, ','), 2);
}

#[test]
fn split_windows_agrees_with_split() {
    for s in ["", ",", "a", "a,b", ",a,,b,", "a,b,c,d,e", ",,,"] {
        let v = chars(s);
        let pieces: Vec<String> = split_windows(&v, 0, v.len(), ',')
            .iter()
            .map(|&(a, b)| v[a..b].iter().collect())
            .collect();
        let expected: Vec<String> = s.split(',').map(|p| p.to_string()).collect();
        assert_eq!(pieces, expected, "{:?}", s);
    }
}

#[test]
fn split_windows_keeps_to_its_window() {
    let v = chars("x;a;b;y");
    assert_eq!(split_windows(&v, 2, 5, ';'), vec![(2, 3), (4, 5)]);
    assert_eq!(split_windows(&v, 2, 2, ';'), vec![(2, 2)]);
}

#[test]
fn parse_unsigned_reads_decimal_numbers() {
    let read = |s: &str, max: u64| {
        let v = chars(s);
        parse_unsigned(&v, 0, v.len(), max)
    };
    assert_eq!(read("0", 10), Some(0));
    assert_eq!(read("10", 10), Some(10));
    assert_eq!(read("11", 10), None);
    assert_eq!(read("+10", 10), Some(10));
    assert_eq!(read("0000000000000000000000010", 10), Some(10));
    assert_eq!(read("18446744073709551615", u64::MAX), Some(u64::MAX));
    assert_eq!(read("18446744073709551616", u64::MAX), None);
    assert_eq!(read("184467440737095516150", u64::MAX), None);
    assert_eq!(read("7", 5), None);
    assert_eq!(read("5", 5), Some(5));
    for bad in ["", "+", "-1", "1-", "+-1", "1+", " 1", "1 ", "١", "1_000", "0x1"] {
        assert_eq!(read(bad, u64::MAX), None, "{:?}", bad);
    }
}

#[test]
fn parse_unsigned_agrees_with_the_standard_parser() {
    for s in ["0", "1", "42", "+42", "4294967295", "4294967296", "00", "+0", "99999999999"] {
        let v = chars(s);
        assert_eq!(
            parse_unsigned(&v, 0, v.len(), u32::MAX as u64),
            s.parse::<u32>().ok().map(u64::from),
            "{:?}",
            s
        );
    }
}

#[test]
fn lexicographic_order_is_that_of_strings() {
    let words = ["", "a", "A", "aa", "ab", "b", "ba", "é", "z", "zz", "😀", "a😀"];
    for x in words {
        for y in words {
            assert_eq!(is_lex_less(&chars(x), &chars(y)), x < y, "{:?} {:?}", x, y);
        }
    }
}

#[test]
fn outranks_goes_by_rate_then_identifier() {
    let tx = |id: &str, fee: u64, weight: u32| Transaction {
        txid: id.to_string(),
        fee,
        weight,
        parent_txids: vec![],
    };
    assert!(tx("a", 3, 1).outranks(&tx("b", 5, 2)));
    assert!(!tx("b", 5, 2).outranks(&tx("a", 3, 1)));
    assert!(tx("a", 2, 4).outranks(&tx("b", 1, 2)));
    assert!(!tx("b", 1, 2).outranks(&tx("a", 2, 4)));
    assert!(!tx("a", 2, 4).outranks(&tx("a", 1, 2)));
    assert!(tx("x", u64::MAX, 1).outranks(&tx("y", u64::MAX - 1, 1)));
    assert!(tx("x", u64::MAX, u32::MAX - 1).outranks(&tx("y", u64::MAX, u32::MAX)));
}

#[test]
fn copy_strings_copies() {
    let list = vec!["a".to_string(), String::new(), "bc".to_string()];
    assert_eq!(copy_strings(&list), list);
    assert_eq!(copy_strings(&[].to_vec()), Vec::<String>::new());
}
