use vstd::prelude::*;

verus! {

/// The reference alphabet: digits, upper and lower case letters, space and
/// the printable punctuation, 95 symbols in all.
pub const STANDARD_ALPHABET: &'static str =
    "0123456789ABCDEFGHIJKLMNOPQRSTUVWXYZabcdefghijklmnopqrstuvwxyz !\"#$%&'()*+,-./:;<=>?@[\\]^_`{|}~";

/// No symbol occurs twice in `s`.
pub open spec fn distinct(s: Seq<char>) -> bool {
    forall|i: int, j: int| 0 <= i < s.len() && 0 <= j < s.len() && i != j ==> s[i] != s[j]
}

/// The position of `c` in the alphabet `cs`, its digit value.
pub open spec fn index_of(cs: Seq<char>, c: char) -> int {
    choose|i: int| 0 <= i < cs.len() && cs[i] == c
}

/// `c` is one of the first `base` symbols of `cs`: a digit of that base.
pub open spec fn is_digit(cs: Seq<char>, c: char, base: int) -> bool {
    exists|i: int| 0 <= i < base && i < cs.len() && cs[i] == c
}

/// Every symbol of `payload` is a digit of `base` over `cs`.
pub open spec fn valid_payload(cs: Seq<char>, payload: Seq<char>, base: int) -> bool {
    forall|k: int| 0 <= k < payload.len() ==> is_digit(cs, #[trigger] payload[k], base)
}

/// `base` is a radix that the alphabet `cs` can write.
pub open spec fn base_valid(cs: Seq<char>, base: int) -> bool {
    2 <= base <= cs.len()
}

/// In a duplicate-free alphabet each symbol's digit value is its position.
pub proof fn lemma_index_of(cs: Seq<char>, i: int)
    requires
        distinct(cs),
        0 <= i < cs.len(),
    ensures
        index_of(cs, cs[i]) == i,
{
    let j = index_of(cs, cs[i]);
    assert(0 <= j < cs.len() && cs[j] == cs[i]);
}

/// An ordered alphabet of at least two distinct symbols; the symbol at
/// position `i` writes the digit `i`.
pub struct Charset {
    symbols: Vec<char>,
}

impl View for Charset {
    type V = Seq<char>;

    closed spec fn view(&self) -> Seq<char> {
        self.symbols@
    }
}

impl Charset {
    /// Holds of every `Charset`.
    #[verifier::type_invariant]
    pub open spec fn wf(&self) -> bool {
        self@.len() >= 2 && distinct(self@)
    }

    /// The alphabet whose symbols are those of `text` in order; `None` when
    /// `text` has fewer than two symbols or repeats one.
    pub fn new(text: &str) -> (r: Option<Charset>)
        ensures
            r is Some <==> (text@.len() >= 2 && distinct(text@)),
            r matches Some(c) ==> c@ == text@,
    {
        let n = text.unicode_len();
        let mut symbols: Vec<char> = Vec::new();
        let mut i: usize = 0;
        while i < n
            invariant
                n == text@.len(),
                i <= n,
                symbols@ == text@.subrange(0, i as int),
                distinct(symbols@),
            decreases n - i,
        {
            let c = text.get_char(i);
            let mut j: usize = 0;
            while j < i
                invariant
                    i < n,
                    n == text@.len(),
                    j <= i,
                    symbols@ == text@.subrange(0, i as int),
                    c == text@[i as int],
                    forall|k: int| 0 <= k < j ==> symbols@[k] != c,
                decreases i - j,
            {
                if symbols[j] == c {
                    assert(text@[j as int] == text@[i as int]);
                    return None;
                }
                j += 1;
            }
            symbols.push(c);
            i += 1;
            assert(symbols@ =~= text@.subrange(0, i as int));
        }
        assert(symbols@ =~= text@);
        if n < 2 {
            return None;
        }
        Some(Charset { symbols })
    }

    /// The number of symbols, the largest base this alphabet can write.
    pub fn len(&self) -> (r: usize)
        ensures
            r == self@.len(),
            r >= 2,
    {
        proof {
            use_type_invariant(self);
        }
        self.symbols.len()
    }

    /// The symbol that writes the digit `value`.
    pub fn value_to_symbol(&self, value: usize) -> (r: char)
        requires
            value < self@.len(),
        ensures
            r == self@[value as int],
    {
        self.symbols[value]
    }

    /// The digit value of `symbol`, or `None` when it is not in the alphabet.
    pub fn symbol_to_value(&self, symbol: char) -> (r: Option<usize>)
        ensures
            r is Some <==> self@.contains(symbol),
            r matches Some(v) ==> v < self@.len() && self@[v as int] == symbol && v == index_of(
                self@,
                symbol,
            ),
    {
        proof {
            use_type_invariant(self);
        }
        let mut i: usize = 0;
        while i < self.symbols.len()
            invariant
                self.wf(),
                i <= self@.len(),
                forall|k: int| 0 <= k < i ==> self@[k] != symbol,
            decreases self@.len() - i,
        {
            if self.symbols[i] == symbol {
                proof {
                    lemma_index_of(self@, i as int);
                }
                return Some(i);
            }
            i += 1;
        }
        None
    }
}

/// Whether `base` lies between 2 and the size of the alphabet.
pub fn validate_base(base: usize, charset: &Charset) -> (r: bool)
    ensures
        r == base_valid(charset@, base as int),
{
    2 <= base && base <= charset.len()
}

/// Whether every symbol of `input_string` is among the first `base` symbols
/// of the alphabet.
pub fn validate_input(input_string: &str, base: usize, charset: &Charset) -> (r: bool)
    ensures
        r == valid_payload(charset@, input_string@, base as int),
{
    let n = input_string.unicode_len();
    let mut k: usize = 0;
    while k < n
        invariant
            n == input_string@.len(),
            k <= n,
            valid_payload(charset@, input_string@.subrange(0, k as int), base as int),
        decreases n - k,
    {
        let c = input_string.get_char(k);
        match charset.symbol_to_value(c) {
            Some(v) => {
                if v >= base {
                    proof {
                        use_type_invariant(charset);
                        assert(!is_digit(charset@, c, base as int));
                        assert(input_string@[k as int] == c);
                    }
                    return false;
                }
            },
            None => {
                assert(!is_digit(charset@, c, base as int));
                return false;
            },
        }
        proof {
            let s = input_string@.subrange(0, k as int + 1);
            assert forall|m: int| 0 <= m < s.len() implies is_digit(charset@, #[trigger] s[m], base as int) by {
                if m < k {
                    assert(s[m] == input_string@.subrange(0, k as int)[m]);
                }
            }
        }
        k += 1;
    }
    assert(input_string@.subrange(0, n as int) =~= input_string@);
    true
}

} // verus!
