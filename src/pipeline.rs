use crate::charset::Charset;
use crate::cipher::{decrypt, decrypted, encrypt, encrypted, outcome, CipherError, Failure};
use crate::password::{is_white_space, numbers, parse_bases, white_space, words};
use vstd::prelude::*;

verus! {

/// Which way a text is transformed.
#[derive(Clone, Copy, Debug, PartialEq, Eq)]
pub enum Direction {
    Encrypt,
    Decrypt,
}

/// `text` without its leading whitespace.
pub open spec fn trim_start(text: Seq<char>) -> Seq<char>
    decreases text.len(),
{
    if text.len() > 0 && is_white_space(text[0]) {
        trim_start(text.drop_first())
    } else {
        text
    }
}

/// `text` without its trailing whitespace.
pub open spec fn trim_end(text: Seq<char>) -> Seq<char>
    decreases text.len(),
{
    if text.len() > 0 && is_white_space(text.last()) {
        trim_end(text.drop_last())
    } else {
        text
    }
}

/// `text` without its surrounding whitespace.
pub open spec fn trimmed(text: Seq<char>) -> Seq<char> {
    trim_end(trim_start(text))
}

/// What `process` yields for an input text and a password text.
pub open spec fn processed(
    cs: Seq<char>,
    input: Seq<char>,
    password: Seq<char>,
    direction: Direction,
) -> Result<Seq<char>, Failure> {
    let bases = numbers(words(password));
    match direction {
        Direction::Encrypt => encrypted(cs, trimmed(input), bases),
        Direction::Decrypt => decrypted(cs, trimmed(input), bases),
    }
}

/// `text` without its surrounding whitespace.
pub fn trim_white_space(text: &str) -> (r: String)
    ensures
        r@ == trimmed(text@),
{
    let n = text.unicode_len();
    let mut i: usize = 0;
    assert(text@.subrange(0, n as int) =~= text@);
    while i < n && white_space(text.get_char(i))
        invariant
            n == text@.len(),
            i <= n,
            trim_start(text@) == trim_start(text@.subrange(i as int, n as int)),
        decreases n - i,
    {
        assert(text@.subrange(i as int, n as int).drop_first() =~= text@.subrange(
            i as int + 1,
            n as int,
        ));
        i += 1;
    }
    let mut j: usize = n;
    assert(trim_start(text@) == text@.subrange(i as int, j as int));
    while j > i && white_space(text.get_char(j - 1))
        invariant
            n == text@.len(),
            i <= j <= n,
            trimmed(text@) == trim_end(text@.subrange(i as int, j as int)),
        decreases j,
    {
        assert(text@.subrange(i as int, j as int).drop_last() =~= text@.subrange(
            i as int,
            j - 1,
        ));
        j -= 1;
    }
    String::from_str(text.substring_char(i, j))
}

/// Trims `input`, reads the bases that `password` lists, and encrypts or
/// decrypts the trimmed input with them.
pub fn process(input: &str, password: &str, direction: Direction, charset: &Charset) -> (r: Result<
    String,
    CipherError,
>)
    ensures
        outcome(r) == processed(charset@, input@, password@, direction),
{
    let text = trim_white_space(input);
    let bases = parse_bases(password);
    match direction {
        Direction::Encrypt => encrypt(text.as_str(), &bases, charset),
        Direction::Decrypt => decrypt(text.as_str(), &bases, charset),
    }
}

} // verus!
