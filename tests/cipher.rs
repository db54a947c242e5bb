use problemathic::charset::{Charset, STANDARD_ALPHABET};
use problemathic::cipher::{decrypt, encrypt, CipherError};
use problemathic::password::parse_bases;
use problemathic::pipeline::{process, trim_white_space, Direction};

fn standard() -> Charset {
    Charset::new(STANDARD_ALPHABET).unwrap()
}

#[test]
fn hello_round_trip() {
    let cs = standard();
    let bases = vec![13, 7, 40];
    let secret = encrypt("Hello", &bases, &cs).unwrap();
    assert_eq!(secret, "945343IG2c3dDM79G1HJDGb");
    assert_eq!(decrypt(&secret, &bases, &cs).unwrap(), "Hello");
}

#[test]
fn long_text_round_trip() {
    let cs = standard();
    let bases = vec![2, 95, 3, 61, 94, 17];
    let text = "Hello, World! A somewhat longer message {with} [all] sorts of ~symbols~.";
    let secret = encrypt(text, &bases, &cs).unwrap();
    assert_ne!(secret, text);
    assert_eq!(decrypt(&secret, &bases, &cs).unwrap(), text);
}

#[test]
fn leading_zero_symbol_is_lost() {
    let cs = standard();
    let secret = encrypt("0Hello", &vec![13], &cs).unwrap();
    assert_eq!(secret, "1980A789B");
    assert_eq!(decrypt(&secret, &vec![13], &cs).unwrap(), "Hello");
}

#[test]
fn empty_base_sequence_is_identity() {
    let cs = standard();
    let none: Vec<usize> = Vec::new();
    assert_eq!(encrypt("Hello there", &none, &cs).unwrap(), "Hello there");
    assert_eq!(decrypt("Hello there", &none, &cs).unwrap(), "Hello there");
    assert_eq!(encrypt("", &none, &cs).unwrap(), "");
}

#[test]
fn pipeline_is_deterministic() {
    let cs = standard();
    let bases = vec![5, 80];
    assert_eq!(encrypt("same", &bases, &cs), encrypt("same", &bases, &cs));
}

#[test]
fn invalid_base_refused_before_any_step() {
    let cs = standard();
    assert_eq!(encrypt("Hello", &vec![13, 1], &cs), Err(CipherError::InvalidBase));
    assert_eq!(encrypt("Hello", &vec![96], &cs), Err(CipherError::InvalidBase));
    assert_eq!(decrypt("Hello", &vec![0, 13], &cs), Err(CipherError::InvalidBase));
    assert_eq!(encrypt("caf\u{e9}", &vec![1], &cs), Err(CipherError::InvalidBase));
}

#[test]
fn foreign_input_symbol_refused() {
    let cs = standard();
    assert_eq!(
        encrypt("caf\u{e9}", &vec![13], &cs),
        Err(CipherError::InvalidSymbol { payload: "caf\u{e9}".to_string(), base: 95 })
    );
}

#[test]
fn decrypt_refuses_symbol_outside_step_base() {
    let cs = standard();
    assert_eq!(
        decrypt("9", &vec![2], &cs),
        Err(CipherError::InvalidSymbol { payload: "9".to_string(), base: 2 })
    );
}

#[test]
fn password_tokens_parsed() {
    assert_eq!(parse_bases("13 7\tabc 40\n+5 -3 x9 99999999999999999999999  "), vec![13, 7, 40, 5]);
    assert_eq!(parse_bases(""), Vec::<usize>::new());
    assert_eq!(parse_bases("  \n "), Vec::<usize>::new());
    assert_eq!(parse_bases("+ 0 007"), vec![0, 7]);
}

#[test]
fn surrounding_whitespace_trimmed() {
    assert_eq!(trim_white_space("  Hello \n"), "Hello");
    assert_eq!(trim_white_space("\t\n "), "");
    assert_eq!(trim_white_space("a b"), "a b");
}

#[test]
fn process_encrypts_and_decrypts_files_contents() {
    let cs = standard();
    let secret = process("Hello\n", "13 7 40\n", Direction::Encrypt, &cs).unwrap();
    assert_eq!(secret, "945343IG2c3dDM79G1HJDGb");
    let plain = process(&secret, " 13\n7 40", Direction::Decrypt, &cs).unwrap();
    assert_eq!(plain, "Hello");
}

#[test]
fn process_reports_invalid_base() {
    let cs = standard();
    assert_eq!(process("Hello", "13 200", Direction::Encrypt, &cs), Err(CipherError::InvalidBase));
}
