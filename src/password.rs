use vstd::prelude::*;

verus! {

/// The characters with the Unicode `White_Space` property.
pub open spec fn is_white_space(c: char) -> bool {
    let x = c as u32;
    (9 <= x <= 13) || x == 32 || x == 0x85 || x == 0xA0 || x == 0x1680 || (0x2000 <= x <= 0x200A)
        || x == 0x2028 || x == 0x2029 || x == 0x202F || x == 0x205F || x == 0x3000
}

/// An ASCII decimal digit.
pub open spec fn is_decimal_digit(c: char) -> bool {
    48 <= c as u32 <= 57
}

/// The number that the decimal digits `ds` write.
pub open spec fn decimal(ds: Seq<char>) -> nat
    decreases ds.len(),
{
    if ds.len() == 0 {
        0
    } else {
        (decimal(ds.drop_last()) * 10 + (ds.last() as u32 - 48)) as nat
    }
}

/// The digits of a token, past one optional leading `+`.
pub open spec fn unsigned_part(token: Seq<char>) -> Seq<char> {
    if token.len() > 0 && token[0] == '+' {
        token.drop_first()
    } else {
        token
    }
}

/// The `usize` that `token` writes in decimal, with an optional leading `+`;
/// `None` for any other token, or for a number too large for a `usize`.
pub open spec fn token_value(token: Seq<char>) -> Option<usize> {
    let ds = unsigned_part(token);
    if ds.len() >= 1 && (forall|k: int| 0 <= k < ds.len() ==> is_decimal_digit(#[trigger] ds[k]))
        && decimal(ds) <= usize::MAX {
        Some(decimal(ds) as usize)
    } else {
        None
    }
}

/// Reads `text` left to right: the whitespace-separated tokens finished so
/// far, and the token under way.
pub open spec fn scan(text: Seq<char>) -> (Seq<Seq<char>>, Seq<char>)
    decreases text.len(),
{
    if text.len() == 0 {
        (Seq::empty(), Seq::empty())
    } else {
        let (done, current) = scan(text.drop_last());
        let c = text.last();
        if !is_white_space(c) {
            (done, current.push(c))
        } else if current.len() > 0 {
            (done.push(current), Seq::empty())
        } else {
            (done, Seq::empty())
        }
    }
}

/// The maximal runs of non-whitespace characters of `text`, in order.
pub open spec fn words(text: Seq<char>) -> Seq<Seq<char>> {
    let (done, current) = scan(text);
    if current.len() > 0 {
        done.push(current)
    } else {
        done
    }
}

/// The values of the tokens of `ws` that are numbers, in order; the others
/// are left out.
pub open spec fn numbers(ws: Seq<Seq<char>>) -> Seq<usize>
    decreases ws.len(),
{
    if ws.len() == 0 {
        Seq::empty()
    } else {
        match token_value(ws.last()) {
            Some(v) => numbers(ws.drop_last()).push(v),
            None => numbers(ws.drop_last()),
        }
    }
}

pub(crate) fn white_space(c: char) -> (r: bool)
    ensures
        r == is_white_space(c),
{
    let x = c as u32;
    (9 <= x && x <= 13) || x == 32 || x == 0x85 || x == 0xA0 || x == 0x1680 || (0x2000 <= x && x
        <= 0x200A) || x == 0x2028 || x == 0x2029 || x == 0x202F || x == 0x205F || x == 0x3000
}

/// Appending a digit never makes a number smaller.
proof fn lemma_decimal_grows(ds: Seq<char>, j: int)
    requires
        0 <= j <= ds.len(),
        forall|k: int| 0 <= k < ds.len() ==> is_decimal_digit(#[trigger] ds[k]),
    ensures
        decimal(ds.subrange(0, j)) <= decimal(ds),
    decreases ds.len() - j,
{
    if j < ds.len() {
        lemma_decimal_grows(ds, j + 1);
        let p = ds.subrange(0, j + 1);
        assert(p.drop_last() =~= ds.subrange(0, j));
        assert(is_decimal_digit(ds[j]));
    } else {
        assert(ds.subrange(0, j) =~= ds);
    }
}

/// The value of one token, as `token_value` gives it.
fn parse_token(token: &Vec<char>) -> (r: Option<usize>)
    ensures
        r == token_value(token@),
{
    let ghost ds = unsigned_part(token@);
    let start: usize = if token.len() > 0 && token[0] == '+' {
        1
    } else {
        0
    };
    assert(ds =~= token@.subrange(start as int, token@.len() as int));
    if start >= token.len() {
        return None;
    }
    let mut acc: usize = 0;
    let mut i: usize = start;
    while i < token.len()
        invariant
            start <= i <= token@.len(),
            ds == unsigned_part(token@),
            ds =~= token@.subrange(start as int, token@.len() as int),
            forall|k: int| 0 <= k < i - start ==> is_decimal_digit(#[trigger] ds[k]),
            acc == decimal(ds.subrange(0, i - start)),
        decreases token@.len() - i,
    {
        let c = token[i];
        let x = c as u32;
        assert(ds[i - start] == c);
        if x < 48 || x > 57 {
            assert(!is_decimal_digit(ds[i - start]));
            return None;
        }
        let ghost prefix = ds.subrange(0, i - start + 1);
        assert(prefix.drop_last() =~= ds.subrange(0, i - start));
        assert(decimal(prefix) == acc * 10 + (x - 48));
        let next = match acc.checked_mul(10) {
            Some(m) => m.checked_add((x - 48) as usize),
            None => None,
        };
        match next {
            Some(v) => {
                acc = v;
            },
            None => {
                proof {
                    if forall|k: int| 0 <= k < ds.len() ==> is_decimal_digit(#[trigger] ds[k]) {
                        lemma_decimal_grows(ds, i - start + 1);
                    }
                }
                return None;
            },
        }
        i += 1;
    }
    assert(ds.subrange(0, i - start) =~= ds);
    Some(acc)
}

/// The bases that a password text lists: its whitespace-separated tokens
/// that are decimal `usize` numbers, in order; other tokens are dropped.
pub fn parse_bases(text: &str) -> (r: Vec<usize>)
    ensures
        r@ == numbers(words(text@)),
{
    let n = text.unicode_len();
    let mut out: Vec<usize> = Vec::new();
    let mut current: Vec<char> = Vec::new();
    let mut i: usize = 0;
    while i < n
        invariant
            n == text@.len(),
            i <= n,
            out@ == numbers(scan(text@.subrange(0, i as int)).0),
            current@ == scan(text@.subrange(0, i as int)).1,
        decreases n - i,
    {
        let c = text.get_char(i);
        let ghost before = text@.subrange(0, i as int);
        let ghost after = text@.subrange(0, i as int + 1);
        assert(after.drop_last() =~= before);
        if !white_space(c) {
            current.push(c);
        } else if current.len() > 0 {
            let ghost done = scan(before).0;
            match parse_token(&current) {
                Some(v) => out.push(v),
                None => {},
            }
            assert(done.push(current@).drop_last() =~= done);
            current = Vec::new();
        }
        i += 1;
    }
    assert(text@.subrange(0, n as int) =~= text@);
    if current.len() > 0 {
        let ghost done = scan(text@).0;
        match parse_token(&current) {
            Some(v) => out.push(v),
            None => {},
        }
        assert(done.push(current@).drop_last() =~= done);
    }
    out
}

} // verus!
