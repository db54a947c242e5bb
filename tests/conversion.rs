use problemathic::charset::{validate_base, validate_input, Charset, STANDARD_ALPHABET};
use problemathic::numeral::convert_base;

fn standard() -> Charset {
    Charset::new(STANDARD_ALPHABET).unwrap()
}

fn hex() -> Charset {
    Charset::new("0123456789ABCDEF").unwrap()
}

#[test]
fn standard_alphabet_is_accepted() {
    let cs = standard();
    assert_eq!(cs.len(), 95);
}

#[test]
fn charset_rejects_repeats_and_short_text() {
    assert!(Charset::new("0120").is_none());
    assert!(Charset::new("0").is_none());
    assert!(Charset::new("").is_none());
    assert_eq!(Charset::new("01").unwrap().len(), 2);
}

#[test]
fn symbols_and_values_correspond() {
    let cs = standard();
    assert_eq!(cs.symbol_to_value('0'), Some(0));
    assert_eq!(cs.symbol_to_value('A'), Some(10));
    assert_eq!(cs.symbol_to_value('~'), Some(94));
    assert_eq!(cs.symbol_to_value('\u{e9}'), None);
    assert_eq!(cs.value_to_symbol(36), 'a');
    assert_eq!(cs.value_to_symbol(62), ' ');
}

#[test]
fn hex_ff_to_binary() {
    assert_eq!(convert_base("FF", 16, 2, &hex()), "11111111");
}

#[test]
fn decimal_to_hex() {
    assert_eq!(convert_base("255", 10, 16, &standard()), "FF");
    assert_eq!(convert_base("~~", 95, 10, &standard()), "9024");
}

#[test]
fn hello_in_base_thirteen_and_two() {
    let cs = standard();
    assert_eq!(convert_base("Hello", 95, 13, &cs), "1980A789B");
    assert_eq!(convert_base("Hello", 95, 2, &cs), "1010100100110100001010111111011");
}

#[test]
fn long_numeral_beyond_machine_words() {
    let cs = standard();
    let nines = "~".repeat(30);
    let decimal = "214638763942937566941147222561699611508287489414215087890624";
    assert_eq!(convert_base(&nines, 95, 10, &cs), decimal);
    assert_eq!(convert_base(decimal, 10, 95, &cs), nines);
}

#[test]
fn empty_input_converts_to_zero_symbol() {
    assert_eq!(convert_base("", 16, 2, &hex()), "0");
    assert_eq!(convert_base("", 95, 7, &standard()), "0");
}

#[test]
fn zero_and_leading_zeros_collapse() {
    assert_eq!(convert_base("0000", 10, 2, &standard()), "0");
    assert_eq!(convert_base("007", 10, 2, &standard()), "111");
}

#[test]
fn conversion_is_deterministic() {
    let cs = standard();
    let a = convert_base("Deterministic!", 95, 17, &cs);
    let b = convert_base("Deterministic!", 95, 17, &cs);
    assert_eq!(a, b);
}

#[test]
fn base_range_ends() {
    let cs = standard();
    assert!(!validate_base(1, &cs));
    assert!(!validate_base(96, &cs));
    assert!(validate_base(2, &cs));
    assert!(validate_base(95, &cs));
    assert!(!validate_base(0, &cs));
}

#[test]
fn smaller_alphabet_is_contained_in_full() {
    let cs = standard();
    assert!(validate_input("0101", 2, &cs));
    assert!(validate_input("0101", 95, &cs));
    assert!(validate_input("", 2, &cs));
}

#[test]
fn foreign_symbols_are_rejected() {
    let cs = standard();
    assert!(!validate_input("12", 2, &cs));
    assert!(!validate_input("9A", 10, &cs));
    assert!(validate_input("9A", 11, &cs));
    assert!(!validate_input("caf\u{e9}", 95, &cs));
}
