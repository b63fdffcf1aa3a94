use nautilus_accounting::text::{chars_eq, chars_of, split_symbol};

fn chars(s: &str) -> Vec<char> {
    s.chars().collect()
}

#[test]
fn test_split_symbol() {
    let (base, quote) = split_symbol(&chars("AUD/USD"));
    assert_eq!(base, chars("AUD"));
    assert_eq!(quote, chars("USD"));
}

#[test]
fn test_split_symbol_takes_first_two_pieces() {
    let (base, quote) = split_symbol(&chars("BTC/USDT/PERP"));
    assert_eq!(base, chars("BTC"));
    assert_eq!(quote, chars("USDT"));
}

#[test]
fn test_split_symbol_empty_quote() {
    let (base, quote) = split_symbol(&chars("EUR/"));
    assert_eq!(base, chars("EUR"));
    assert!(quote.is_empty());
}

#[test]
fn test_chars_helpers() {
    assert_eq!(chars_of("AB"), vec!['A', 'B']);
    assert!(chars_eq(&chars("USD"), &chars("USD")));
    assert!(!chars_eq(&chars("USD"), &chars("USDT")));
    assert!(!chars_eq(&chars("USD"), &chars("EUR")));
}
